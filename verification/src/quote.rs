//! Quoting of paths and strings for the shells that FuncTerm drives.
use crate::text::utf8_text;
use vstd::prelude::*;
use vstd::string::StringSliceAdditionalSpecFns;
use vstd::utf8::*;

verus! {

broadcast use vstd::string::group_string_axioms;

/// Why a value could not be quoted.
#[derive(Debug, Clone, Copy, PartialEq, Eq, Structural)]
pub enum QuoteError {
    /// The shell path is not valid Unicode, so no shell can be handed its text.
    NonUnicodePath,
}

/// What `shell_words::quote` returns for the given text.
pub uninterp spec fn shell_words_quote(text: Seq<char>) -> Seq<char>;

/// A character of the standard base64 alphabet, or the `=` padding character.
pub open spec fn is_base64_char(c: char) -> bool {
    ||| ('A' as u32 <= c as u32 && c as u32 <= 'Z' as u32)
    ||| ('a' as u32 <= c as u32 && c as u32 <= 'z' as u32)
    ||| ('0' as u32 <= c as u32 && c as u32 <= '9' as u32)
    ||| c == '+'
    ||| c == '/'
    ||| c == '='
}

/// The character of the standard base64 alphabet with value `v`, for `v` from 0 to 63.
pub open spec fn base64_symbol(v: int) -> char {
    if v < 26 {
        (65 + v) as char
    } else if v < 52 {
        (97 + v - 26) as char
    } else if v < 62 {
        (48 + v - 52) as char
    } else if v == 62 {
        '+'
    } else {
        '/'
    }
}

/// The value of a character of the standard base64 alphabet.
pub open spec fn base64_value(c: char) -> int {
    let x = c as u32;
    if 65 <= x && x <= 90 {
        x - 65
    } else if 97 <= x && x <= 122 {
        x - 97 + 26
    } else if 48 <= x && x <= 57 {
        x - 48 + 52
    } else if c == '+' {
        62
    } else {
        63
    }
}

/// RFC 4648 base64 of `bytes`: the standard alphabet, each group of three bytes as four
/// characters, and a short last group padded with `=`.
pub open spec fn base64_encoding(bytes: Seq<u8>) -> Seq<char>
    decreases bytes.len(),
{
    if bytes.len() == 0 {
        seq![]
    } else if bytes.len() == 1 {
        let a = bytes[0] as int;
        seq![base64_symbol(a / 4), base64_symbol((a % 4) * 16), '=', '=']
    } else if bytes.len() == 2 {
        let a = bytes[0] as int;
        let b = bytes[1] as int;
        seq![
            base64_symbol(a / 4),
            base64_symbol((a % 4) * 16 + b / 16),
            base64_symbol((b % 16) * 4),
            '=',
        ]
    } else {
        let a = bytes[0] as int;
        let b = bytes[1] as int;
        let c = bytes[2] as int;
        seq![
            base64_symbol(a / 4),
            base64_symbol((a % 4) * 16 + b / 16),
            base64_symbol((b % 16) * 4 + c / 64),
            base64_symbol(c % 64),
        ] + base64_encoding(bytes.subrange(3, bytes.len() as int))
    }
}

/// The bytes that base64 text decodes to, reading each group of four characters and
/// stopping at `=` padding: what PowerShell's `[Convert]::FromBase64String` and
/// Nushell's `decode base64` compute on such text.
pub open spec fn base64_decoding(text: Seq<char>) -> Seq<u8>
    decreases text.len(),
{
    if text.len() < 4 {
        seq![]
    } else {
        let v0 = base64_value(text[0]);
        let v1 = base64_value(text[1]);
        let v2 = base64_value(text[2]);
        let v3 = base64_value(text[3]);
        let first = (v0 * 4 + v1 / 16) as u8;
        if text[2] == '=' {
            seq![first]
        } else if text[3] == '=' {
            seq![first, ((v1 % 16) * 16 + v2 / 4) as u8]
        } else {
            seq![first, ((v1 % 16) * 16 + v2 / 4) as u8, ((v2 % 4) * 64 + v3) as u8]
                + base64_decoding(text.subrange(4, text.len() as int))
        }
    }
}

proof fn lemma_base64_symbol(v: int)
    requires
        0 <= v < 64,
    ensures
        base64_value(base64_symbol(v)) == v,
        is_base64_char(base64_symbol(v)),
        base64_symbol(v) != '=',
{
}

proof fn lemma_base64_group(a: int, b: int, c: int)
    requires
        0 <= a < 256,
        0 <= b < 256,
        0 <= c < 256,
    ensures
        0 <= a / 4 < 64,
        0 <= (a % 4) * 16 + b / 16 < 64,
        0 <= (b % 16) * 4 + c / 64 < 64,
        0 <= c % 64 < 64,
        0 <= (a % 4) * 16 < 64,
        0 <= (b % 16) * 4 < 64,
        (a / 4) * 4 + ((a % 4) * 16 + b / 16) / 16 == a,
        (((a % 4) * 16 + b / 16) % 16) * 16 + ((b % 16) * 4 + c / 64) / 4 == b,
        (((b % 16) * 4 + c / 64) % 4) * 64 + c % 64 == c,
        (a / 4) * 4 + ((a % 4) * 16) / 16 == a,
        (((a % 4) * 16 + b / 16) % 16) * 16 + ((b % 16) * 4) / 4 == b,
{
    assert(0 <= a / 4 < 64 && a == (a / 4) * 4 + a % 4) by (nonlinear_arith)
        requires
            0 <= a < 256,
    ;
    assert(0 <= b / 16 < 16 && b == (b / 16) * 16 + b % 16) by (nonlinear_arith)
        requires
            0 <= b < 256,
    ;
    assert(0 <= c / 64 < 4 && c == (c / 64) * 64 + c % 64) by (nonlinear_arith)
        requires
            0 <= c < 256,
    ;
    let x = (a % 4) * 16 + b / 16;
    assert(x / 16 == a % 4 && x % 16 == b / 16) by (nonlinear_arith)
        requires
            x == (a % 4) * 16 + b / 16,
            0 <= a % 4 < 4,
            0 <= b / 16 < 16,
    ;
    let y = (b % 16) * 4 + c / 64;
    assert(y / 4 == b % 16 && y % 4 == c / 64) by (nonlinear_arith)
        requires
            y == (b % 16) * 4 + c / 64,
            0 <= b % 16 < 16,
            0 <= c / 64 < 4,
    ;
    let z = (a % 4) * 16;
    assert(z / 16 == a % 4) by (nonlinear_arith)
        requires
            z == (a % 4) * 16,
            0 <= a % 4 < 4,
    ;
    let w = (b % 16) * 4;
    assert(w / 4 == b % 16) by (nonlinear_arith)
        requires
            w == (b % 16) * 4,
            0 <= b % 16 < 16,
    ;
}

/// Law: base64 decoding gives back the bytes that were encoded.
pub proof fn base64_round_trip(bytes: Seq<u8>)
    ensures
        base64_decoding(base64_encoding(bytes)) == bytes,
    decreases bytes.len(),
{
    if bytes.len() == 0 {
    } else if bytes.len() == 1 {
        let a = bytes[0] as int;
        lemma_base64_group(a, 0, 0);
        lemma_base64_symbol(a / 4);
        lemma_base64_symbol((a % 4) * 16);
        let text = base64_encoding(bytes);
        assert(text[2] == '=');
        assert(base64_decoding(text) =~= bytes);
    } else if bytes.len() == 2 {
        let a = bytes[0] as int;
        let b = bytes[1] as int;
        lemma_base64_group(a, b, 0);
        lemma_base64_symbol(a / 4);
        lemma_base64_symbol((a % 4) * 16 + b / 16);
        lemma_base64_symbol((b % 16) * 4);
        let text = base64_encoding(bytes);
        assert(text[2] != '=' && text[3] == '=');
        assert(base64_decoding(text) =~= bytes);
    } else {
        let a = bytes[0] as int;
        let b = bytes[1] as int;
        let c = bytes[2] as int;
        lemma_base64_group(a, b, c);
        lemma_base64_symbol(a / 4);
        lemma_base64_symbol((a % 4) * 16 + b / 16);
        lemma_base64_symbol((b % 16) * 4 + c / 64);
        lemma_base64_symbol(c % 64);
        let rest = bytes.subrange(3, bytes.len() as int);
        base64_round_trip(rest);
        let text = base64_encoding(bytes);
        let head = seq![
            base64_symbol(a / 4),
            base64_symbol((a % 4) * 16 + b / 16),
            base64_symbol((b % 16) * 4 + c / 64),
            base64_symbol(c % 64),
        ];
        assert(text == head + base64_encoding(rest));
        assert(text.subrange(4, text.len() as int) =~= base64_encoding(rest));
        assert(text[2] != '=' && text[3] != '=');
        assert(base64_decoding(text) =~= bytes);
    }
}

/// Law: every character of a base64 encoding is in the standard alphabet or is `=`.
pub proof fn base64_alphabet(bytes: Seq<u8>)
    ensures
        forall|i: int|
            0 <= i < base64_encoding(bytes).len() ==> is_base64_char(
                #[trigger] base64_encoding(bytes)[i],
            ),
    decreases bytes.len(),
{
    let text = base64_encoding(bytes);
    if bytes.len() == 0 {
    } else if bytes.len() == 1 {
        let a = bytes[0] as int;
        lemma_base64_group(a, 0, 0);
        lemma_base64_symbol(a / 4);
        lemma_base64_symbol((a % 4) * 16);
    } else if bytes.len() == 2 {
        let a = bytes[0] as int;
        let b = bytes[1] as int;
        lemma_base64_group(a, b, 0);
        lemma_base64_symbol(a / 4);
        lemma_base64_symbol((a % 4) * 16 + b / 16);
        lemma_base64_symbol((b % 16) * 4);
    } else {
        let a = bytes[0] as int;
        let b = bytes[1] as int;
        let c = bytes[2] as int;
        lemma_base64_group(a, b, c);
        lemma_base64_symbol(a / 4);
        lemma_base64_symbol((a % 4) * 16 + b / 16);
        lemma_base64_symbol((b % 16) * 4 + c / 64);
        lemma_base64_symbol(c % 64);
        let rest = bytes.subrange(3, bytes.len() as int);
        base64_alphabet(rest);
        assert forall|i: int| 0 <= i < text.len() implies is_base64_char(#[trigger] text[i]) by {
            if i >= 4 {
                assert(text[i] == base64_encoding(rest)[i - 4]);
            }
        }
    }
}

/// Calls `base64_turbo::STANDARD.encode`. Trusted: the result is the RFC 4648 base64
/// encoding of `bytes` with the standard alphabet and `=` padding, which is what the
/// crate documents for `STANDARD`.
#[verifier::external_body]
fn base64_encode(bytes: &[u8]) -> (r: String)
    ensures
        r@ == base64_encoding(bytes@),
{
    base64_turbo::STANDARD.encode(bytes)
}

/// Calls `shell_words::quote` and takes ownership of its result. Trusted: the result is
/// `shell_words_quote` of the text; nothing more is stated of it.
#[verifier::external_body]
fn shell_words_quoted(value: &str) -> (r: String)
    ensures
        r@ == shell_words_quote(value@),
{
    shell_words::quote(value).into_owned()
}

/// `value` with every double quote doubled, the escape that `cmd.exe` reads inside a
/// double-quoted argument.
pub open spec fn cmd_escaped(value: Seq<char>) -> Seq<char>
    decreases value.len(),
{
    if value.len() == 0 {
        seq![]
    } else {
        let last = value.last();
        cmd_escaped(value.drop_last()) + if last == '"' {
            seq!['"', '"']
        } else {
            seq![last]
        }
    }
}

/// The `cmd.exe` literal for `value`: the escaped text between double quotes.
pub open spec fn cmd_literal(value: Seq<char>) -> Seq<char> {
    seq!['"'] + cmd_escaped(value) + seq!['"']
}

/// The PowerShell expression that decodes the base64 text `encoded` back into a string.
pub open spec fn powershell_literal(encoded: Seq<char>) -> Seq<char> {
    "([Text.Encoding]::UTF8.GetString([Convert]::FromBase64String('"@ + encoded + "')))"@
}

/// The Nushell expression that decodes the base64 text `encoded` back into a string.
pub open spec fn nushell_literal(encoded: Seq<char>) -> Seq<char> {
    "('"@ + encoded + "' | decode base64 | decode)"@
}

/// The text of a path, given by its encoded bytes: valid exactly when they are UTF-8.
pub open spec fn path_text(path: Seq<u8>) -> Option<Seq<char>> {
    if valid_utf8(path) {
        Some(decode_utf8(path))
    } else {
        None
    }
}

/// The native text of a shell path, given by the encoded bytes of its OS string.
/// Paths that are not valid Unicode are refused.
pub fn native_path(path: &[u8]) -> (r: Result<String, QuoteError>)
    ensures
        match path_text(path@) {
            Some(text) => r matches Ok(s) && s@ == text,
            None => r == Err::<String, QuoteError>(QuoteError::NonUnicodePath),
        },
{
    match utf8_text(path) {
        Some(text) => Ok(text),
        None => Err(QuoteError::NonUnicodePath),
    }
}

/// Quotes `value` as one double-quoted `cmd.exe` argument, doubling embedded quotes.
pub fn cmd_string(value: &str) -> (r: String)
    ensures
        r@ == cmd_literal(value@),
{
    let mut quoted = String::new();
    quoted.push('"');
    let ghost text = value@;
    for c in it: value.chars()
        invariant
            it.seq() == text,
            quoted@ == seq!['"'] + cmd_escaped(text.take(it.index() as int)),
    {
        let ghost done = it.index() as int;
        proof {
            assert(text.take(done + 1).drop_last() =~= text.take(done));
            assert(text.take(done + 1).last() == c);
        }
        if c == '"' {
            quoted.push('"');
            quoted.push('"');
        } else {
            quoted.push(c);
        }
        assert(quoted@ =~= seq!['"'] + cmd_escaped(text.take(done + 1)));
    }
    assert(text.take(text.len() as int) =~= text);
    quoted.push('"');
    quoted
}

/// Wraps already base64-encoded text in the PowerShell expression that decodes it.
pub fn powershell_decoding(encoded: &str) -> (r: String)
    ensures
        r@ == powershell_literal(encoded@),
{
    let mut expression = String::from_str(
        "([Text.Encoding]::UTF8.GetString([Convert]::FromBase64String('",
    );
    expression.append(encoded);
    expression.append("')))");
    expression
}

/// Wraps already base64-encoded text in the Nushell expression that decodes it.
pub fn nushell_decoding(encoded: &str) -> (r: String)
    ensures
        r@ == nushell_literal(encoded@),
{
    let mut expression = String::from_str("('");
    expression.append(encoded);
    expression.append("' | decode base64 | decode)");
    expression
}

/// Quotes a path for PowerShell; fails when the path is not valid Unicode.
pub fn powershell_path(path: &[u8]) -> (r: Result<String, QuoteError>)
    ensures
        match path_text(path@) {
            Some(text) => r matches Ok(s) && s@ == powershell_literal(
                base64_encoding(encode_utf8(text)),
            ),
            None => r == Err::<String, QuoteError>(QuoteError::NonUnicodePath),
        },
        forall|i: int|
            #![trigger base64_encoding(encode_utf8(decode_utf8(path@)))[i]]
            valid_utf8(path@) && 0 <= i < base64_encoding(encode_utf8(decode_utf8(path@))).len()
                ==> is_base64_char(base64_encoding(encode_utf8(decode_utf8(path@)))[i]),
        valid_utf8(path@) ==> base64_decoding(base64_encoding(encode_utf8(decode_utf8(path@))))
            == path@,
{
    proof {
        if valid_utf8(path@) {
            decode_utf8_encode_utf8(path@);
        }
    }
    let text = native_path(path)?;
    Ok(powershell_string(text.as_str()))
}

/// Quotes a string for PowerShell as a base64 literal decoded at run time, so that no
/// character of `value` is ever read by the PowerShell parser.
pub fn powershell_string(value: &str) -> (r: String)
    ensures
        r@ == powershell_literal(base64_encoding(encode_utf8(value@))),
        base64_decoding(base64_encoding(encode_utf8(value@))) == encode_utf8(value@),
        forall|i: int| 0 <= i < base64_encoding(encode_utf8(value@)).len()
            ==> is_base64_char(#[trigger] base64_encoding(encode_utf8(value@))[i]),
{
    proof {
        base64_alphabet(encode_utf8(value@));
        base64_round_trip(encode_utf8(value@));
    }
    let encoded = base64_encode(value.as_bytes());
    powershell_decoding(encoded.as_str())
}

/// Quotes a path for Nushell; fails when the path is not valid Unicode.
pub fn nushell_path(path: &[u8]) -> (r: Result<String, QuoteError>)
    ensures
        match path_text(path@) {
            Some(text) => r matches Ok(s) && s@ == nushell_literal(
                base64_encoding(encode_utf8(text)),
            ),
            None => r == Err::<String, QuoteError>(QuoteError::NonUnicodePath),
        },
        forall|i: int|
            #![trigger base64_encoding(encode_utf8(decode_utf8(path@)))[i]]
            valid_utf8(path@) && 0 <= i < base64_encoding(encode_utf8(decode_utf8(path@))).len()
                ==> is_base64_char(base64_encoding(encode_utf8(decode_utf8(path@)))[i]),
        valid_utf8(path@) ==> base64_decoding(base64_encoding(encode_utf8(decode_utf8(path@))))
            == path@,
{
    proof {
        if valid_utf8(path@) {
            decode_utf8_encode_utf8(path@);
        }
    }
    let text = native_path(path)?;
    Ok(nushell_string(text.as_str()))
}

/// Quotes a string for Nushell as a base64 literal decoded at run time.
pub fn nushell_string(value: &str) -> (r: String)
    ensures
        r@ == nushell_literal(base64_encoding(encode_utf8(value@))),
        base64_decoding(base64_encoding(encode_utf8(value@))) == encode_utf8(value@),
        forall|i: int| 0 <= i < base64_encoding(encode_utf8(value@)).len()
            ==> is_base64_char(#[trigger] base64_encoding(encode_utf8(value@))[i]),
{
    proof {
        base64_alphabet(encode_utf8(value@));
        base64_round_trip(encode_utf8(value@));
    }
    let encoded = base64_encode(value.as_bytes());
    nushell_decoding(encoded.as_str())
}

/// Quotes a string for POSIX shells with `shell_words::quote`.
pub fn posix_string(value: &str) -> (r: String)
    ensures
        r@ == shell_words_quote(value@),
{
    shell_words_quoted(value)
}


/// Law: in a PowerShell base64 literal, the only single quotes are the two that
/// delimit the payload, so the payload can never close the string early.
pub proof fn powershell_literal_quotes_only_delimit(encoded: Seq<char>)
    requires
        forall|i: int| 0 <= i < encoded.len() ==> is_base64_char(#[trigger] encoded[i]),
    ensures
        powershell_literal(encoded).len() == encoded.len() + 66,
        forall|i: int|
            0 <= i < powershell_literal(encoded).len() ==> (#[trigger] powershell_literal(encoded)[i]
                == '\'' <==> (i == 61 || i == 62 + encoded.len())),
{
    let prefix = "([Text.Encoding]::UTF8.GetString([Convert]::FromBase64String('";
    let suffix = "')))";
    reveal_strlit("([Text.Encoding]::UTF8.GetString([Convert]::FromBase64String('");
    reveal_strlit("')))");
    let lit = powershell_literal(encoded);
    assert(prefix@.len() == 62);
    assert(suffix@.len() == 4);
    assert forall|i: int| 0 <= i < lit.len() implies (#[trigger] lit[i] == '\'' <==> (i == 61 || i
        == 62 + encoded.len())) by {
        if i < 62 {
            assert(lit[i] == prefix@[i]);
        } else if i < 62 + encoded.len() {
            assert(lit[i] == encoded[i - 62]);
            assert(is_base64_char(encoded[i - 62]));
        } else {
            assert(lit[i] == suffix@[i - 62 - encoded.len()]);
        }
    }
}

/// Law: in a Nushell base64 literal, the only single quotes are the two that delimit
/// the payload.
pub proof fn nushell_literal_quotes_only_delimit(encoded: Seq<char>)
    requires
        forall|i: int| 0 <= i < encoded.len() ==> is_base64_char(#[trigger] encoded[i]),
    ensures
        nushell_literal(encoded).len() == encoded.len() + 29,
        forall|i: int|
            0 <= i < nushell_literal(encoded).len() ==> (#[trigger] nushell_literal(encoded)[i]
                == '\'' <==> (i == 1 || i == 2 + encoded.len())),
{
    let prefix = "('";
    let suffix = "' | decode base64 | decode)";
    reveal_strlit("('");
    reveal_strlit("' | decode base64 | decode)");
    let lit = nushell_literal(encoded);
    assert(prefix@.len() == 2);
    assert(suffix@.len() == 27);
    assert forall|i: int| 0 <= i < lit.len() implies (#[trigger] lit[i] == '\'' <==> (i == 1 || i
        == 2 + encoded.len())) by {
        if i < 2 {
            assert(lit[i] == prefix@[i]);
        } else if i < 2 + encoded.len() {
            assert(lit[i] == encoded[i - 2]);
            assert(is_base64_char(encoded[i - 2]));
        } else {
            assert(lit[i] == suffix@[i - 2 - encoded.len()]);
        }
    }
}


/// How `cmd.exe` reads the inside of a double-quoted argument: each doubled quote
/// stands for one quote.
pub open spec fn cmd_unescaped(text: Seq<char>) -> Seq<char>
    decreases text.len(),
{
    if text.len() >= 2 && text.last() == '"' && text[text.len() - 2] == '"' {
        cmd_unescaped(text.subrange(0, text.len() - 2)).push('"')
    } else if text.len() >= 1 {
        cmd_unescaped(text.drop_last()).push(text.last())
    } else {
        seq![]
    }
}

/// Law: `cmd.exe` reads the escaped text of a quoted argument back as the given
/// value.
pub proof fn cmd_escaping_round_trips(value: Seq<char>)
    ensures
        cmd_unescaped(cmd_escaped(value)) == value,
    decreases value.len(),
{
    if value.len() > 0 {
        let rest = value.drop_last();
        let last = value.last();
        cmd_escaping_round_trips(rest);
        let prefix = cmd_escaped(rest);
        let escaped = cmd_escaped(value);
        if last == '"' {
            assert(escaped == prefix + seq!['"', '"']);
            assert(escaped.subrange(0, escaped.len() - 2) =~= prefix);
        } else {
            assert(escaped == prefix + seq![last]);
            assert(escaped.drop_last() =~= prefix);
        }
        assert(rest.push(last) =~= value);
    }
}


/// The number of double quotes in `value`.
pub open spec fn quote_count(value: Seq<char>) -> nat
    decreases value.len(),
{
    if value.len() == 0 {
        0
    } else {
        quote_count(value.drop_last()) + if value.last() == '"' {
            1nat
        } else {
            0nat
        }
    }
}

/// Law: a `cmd.exe` literal is the value plus its two delimiting quotes plus one extra
/// quote for each quote of the value.
pub proof fn cmd_literal_length(value: Seq<char>)
    ensures
        cmd_literal(value).len() == value.len() + 2 + quote_count(value),
    decreases value.len(),
{
    if value.len() > 0 {
        cmd_literal_length(value.drop_last());
    }
}


/// Whether every double quote of `text` belongs to a doubled pair `""`, reading the
/// pairs from the end.
pub open spec fn quotes_doubled(text: Seq<char>) -> bool
    decreases text.len(),
{
    if text.len() == 0 {
        true
    } else if text.last() == '"' {
        text.len() >= 2 && text[text.len() - 2] == '"' && quotes_doubled(
            text.subrange(0, text.len() - 2),
        )
    } else {
        quotes_doubled(text.drop_last())
    }
}

/// Law: inside a `cmd.exe` literal every double quote belongs to a doubled pair, so
/// none of them ends the argument.
pub proof fn cmd_inner_quotes_are_doubled(value: Seq<char>)
    ensures
        quotes_doubled(cmd_escaped(value)),
    decreases value.len(),
{
    if value.len() > 0 {
        cmd_inner_quotes_are_doubled(value.drop_last());
        let prefix = cmd_escaped(value.drop_last());
        let escaped = cmd_escaped(value);
        if value.last() == '"' {
            assert(escaped.subrange(0, escaped.len() - 2) =~= prefix);
        } else {
            assert(escaped.drop_last() =~= prefix);
        }
    }
}

proof fn lemma_encode_utf8_concat(a: Seq<char>, b: Seq<char>)
    ensures
        encode_utf8(a + b) == encode_utf8(a) + encode_utf8(b),
    decreases a.len(),
{
    if a.len() == 0 {
        assert(a + b =~= b);
        assert(encode_utf8(a) + encode_utf8(b) =~= encode_utf8(b));
    } else {
        lemma_encode_utf8_concat(a.drop_first(), b);
        assert((a + b).drop_first() =~= a.drop_first() + b);
        assert((a + b)[0] == a[0]);
        assert(encode_utf8(a + b) =~= encode_utf8(a) + encode_utf8(b));
    }
}

proof fn lemma_encode_quote()
    ensures
        encode_utf8(seq!['"']).len() == 1,
{
    let q = seq!['"'];
    assert(q.drop_first() =~= Seq::<char>::empty());
    assert(encode_utf8(q) == encode_scalar('"' as u32) + encode_utf8(q.drop_first()));
}

proof fn lemma_cmd_escaped_bytes(value: Seq<char>)
    ensures
        encode_utf8(cmd_escaped(value)).len() == encode_utf8(value).len() + quote_count(value),
    decreases value.len(),
{
    if value.len() > 0 {
        let rest = value.drop_last();
        let last = value.last();
        lemma_cmd_escaped_bytes(rest);
        assert(value =~= rest + seq![last]);
        lemma_encode_utf8_concat(rest, seq![last]);
        if last == '"' {
            lemma_encode_utf8_concat(cmd_escaped(rest), seq!['"', '"']);
            assert(seq!['"', '"'] =~= seq!['"'] + seq!['"']);
            lemma_encode_utf8_concat(seq!['"'], seq!['"']);
            lemma_encode_quote();
        } else {
            lemma_encode_utf8_concat(cmd_escaped(rest), seq![last]);
        }
    }
}

/// Law: the UTF-8 length of a `cmd.exe` literal is the value's UTF-8 length plus its
/// two delimiting quotes plus one byte for each quote of the value.
pub proof fn cmd_literal_byte_length(value: Seq<char>)
    ensures
        encode_utf8(cmd_literal(value)).len() == encode_utf8(value).len() + 2 + quote_count(value),
{
    lemma_cmd_escaped_bytes(value);
    lemma_encode_utf8_concat(seq!['"'], cmd_escaped(value));
    lemma_encode_utf8_concat(seq!['"'] + cmd_escaped(value), seq!['"']);
    lemma_encode_quote();
}

} // verus!
