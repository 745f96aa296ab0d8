use vstd::prelude::*;
use vstd::utf8::*;
use vstd::string::{StrSliceExecFns, StringSliceAdditionalSpecFns};

verus! {

broadcast use vstd::string::group_string_axioms;

#[verifier::external_type_specification]
#[verifier::external_body]
pub struct ExUtf8Error(core::str::Utf8Error);

/// `core::str::from_utf8` succeeds exactly on valid UTF-8 input, and the string it
/// hands back is made of the input bytes.
pub assume_specification[ core::str::from_utf8 ](v: &[u8]) -> (r: Result<&str, core::str::Utf8Error>)
    ensures
        r is Ok <==> valid_utf8(v@),
        r matches Ok(s) ==> s.spec_bytes() == v@,
;

/// `String::push` appends one character.
pub assume_specification[ String::push ](s: &mut String, ch: char)
    ensures
        final(s)@ == old(s)@.push(ch),
;

/// Decodes UTF-8 bytes into an owned string, or `None` when they are not valid UTF-8.
pub fn utf8_text(bytes: &[u8]) -> (r: Option<String>)
    ensures
        r is Some <==> valid_utf8(bytes@),
        r matches Some(s) ==> s@ == decode_utf8(bytes@),
{
    match core::str::from_utf8(bytes) {
        Ok(s) => {
            proof {
                decode_utf8_encode_utf8(bytes@);
                encode_utf8_decode_utf8(s@);
            }
            Some(s.to_owned())
        },
        Err(_) => None,
    }
}


/// Whether two byte slices hold the same bytes.
pub fn bytes_equal(a: &[u8], b: &[u8]) -> (r: bool)
    ensures
        r == (a@ == b@),
{
    if a.len() != b.len() {
        return false;
    }
    let mut i: usize = 0;
    while i < a.len()
        invariant
            a@.len() == b@.len(),
            0 <= i <= a@.len(),
            forall|k: int| 0 <= k < i ==> a@[k] == b@[k],
        decreases a@.len() - i,
    {
        if a[i] != b[i] {
            return false;
        }
        i = i + 1;
    }
    assert(a@ =~= b@);
    true
}

/// Whether two strings hold the same characters.
pub fn str_equal(a: &str, b: &str) -> (r: bool)
    ensures
        r == (a@ == b@),
{
    proof {
        encode_utf8_decode_utf8(a@);
        encode_utf8_decode_utf8(b@);
    }
    bytes_equal(a.as_bytes(), b.as_bytes())
}

/// Unicode `White_Space`, the characters that `char::is_whitespace` accepts.
pub open spec fn is_white_space(c: char) -> bool {
    let v = c as u32;
    ||| (0x09 <= v && v <= 0x0D)
    ||| v == 0x20
    ||| v == 0x85
    ||| v == 0xA0
    ||| v == 0x1680
    ||| (0x2000 <= v && v <= 0x200A)
    ||| v == 0x2028
    ||| v == 0x2029
    ||| v == 0x202F
    ||| v == 0x205F
    ||| v == 0x3000
}

/// `char::is_whitespace`, written out from its documented definition.
pub fn is_whitespace(c: char) -> (r: bool)
    ensures
        r == is_white_space(c),
{
    #[verifier::truncate]
    let v = c as u32;
    (0x09 <= v && v <= 0x0D) || v == 0x20 || v == 0x85 || v == 0xA0 || v == 0x1680 || (0x2000
        <= v && v <= 0x200A) || v == 0x2028 || v == 0x2029 || v == 0x202F || v == 0x205F || v
        == 0x3000
}

/// `text` without its leading and trailing white space.
pub open spec fn trimmed(text: Seq<char>) -> Seq<char>
    decreases text.len(),
{
    if text.len() > 0 && is_white_space(text[0]) {
        trimmed(text.drop_first())
    } else if text.len() > 0 && is_white_space(text.last()) {
        trimmed(text.drop_last())
    } else {
        text
    }
}

proof fn lemma_trimmed_range(text: Seq<char>, lo: int, hi: int)
    requires
        0 <= lo <= hi <= text.len(),
        forall|k: int| 0 <= k < lo ==> is_white_space(#[trigger] text[k]),
        forall|k: int| hi <= k < text.len() ==> is_white_space(#[trigger] text[k]),
        lo < hi ==> !is_white_space(text[lo]) && !is_white_space(text[hi - 1]),
    ensures
        trimmed(text) == text.subrange(lo, hi),
    decreases text.len(),
{
    if lo > 0 {
        lemma_trimmed_range(text.drop_first(), lo - 1, hi - 1);
        assert(text.drop_first().subrange(lo - 1, hi - 1) =~= text.subrange(lo, hi));
    } else if hi < text.len() {
        if text.len() > 0 && is_white_space(text[0]) {
            assert(lo == hi);
            lemma_trimmed_range(text.drop_first(), 0, 0);
            assert(text.drop_first().subrange(0, 0) =~= text.subrange(lo, hi));
        } else {
            lemma_trimmed_range(text.drop_last(), lo, hi);
            assert(text.drop_last().subrange(lo, hi) =~= text.subrange(lo, hi));
        }
    } else {
        assert(text.subrange(lo, hi) =~= text);
        if lo < hi {
        } else {
            assert(text.len() == 0);
        }
    }
}

/// `str::trim`: the text without leading and trailing white space.
pub fn trim(text: &str) -> (r: &str)
    ensures
        r@ == trimmed(text@),
{
    let ghost chars = text@;
    let n = text.unicode_len();
    let mut lo: usize = 0;
    while lo < n && is_whitespace(text.get_char(lo))
        invariant
            n == chars.len(),
            text@ == chars,
            0 <= lo <= n,
            forall|k: int| 0 <= k < lo ==> is_white_space(#[trigger] chars[k]),
        decreases n - lo,
    {
        lo = lo + 1;
    }
    let mut hi: usize = n;
    while hi > lo && is_whitespace(text.get_char(hi - 1))
        invariant
            n == chars.len(),
            text@ == chars,
            0 <= lo <= hi <= n,
            forall|k: int| 0 <= k < lo ==> is_white_space(#[trigger] chars[k]),
            forall|k: int| hi <= k < n ==> is_white_space(#[trigger] chars[k]),
            lo < n ==> !is_white_space(chars[lo as int]),
        decreases hi - lo,
    {
        hi = hi - 1;
    }
    proof {
        lemma_trimmed_range(chars, lo as int, hi as int);
    }
    text.substring_char(lo, hi)
}

} // verus!
