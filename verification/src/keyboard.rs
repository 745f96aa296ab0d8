//! Keyboard input for a shell session: interrupts carried by ETX, and replies to the
//! terminal host.
use crate::platform::Platform;
use vstd::prelude::*;
use vstd::slice::{slice_subrange, slice_to_vec};
use vstd::string::{is_ascii, StringSliceAdditionalSpecFns};
use vstd::utf8::*;

verus! {

broadcast use vstd::string::group_string_axioms;

/// End of text (Ctrl+C), the byte that asks the session to interrupt.
pub const ETX: u8 = 0x03;

/// The Win32 input-mode key events for Ctrl+C: Ctrl down, C down, C up, Ctrl up.
pub open spec fn windows_interrupt_text() -> Seq<char> {
    "\x1b[17;29;0;1;8;1_\x1b[67;46;3;1;8;1_\x1b[67;46;3;0;8;1_\x1b[17;29;0;0;0;1_"@
}

/// The bytes that stand for one ETX in what the session is sent.
pub open spec fn interrupt_sequence(platform: Platform) -> Seq<u8> {
    match platform {
        Platform::Unix => seq![ETX],
        Platform::Windows => encode_utf8(windows_interrupt_text()),
    }
}

/// A one-element sequence holding `s`, or nothing when `s` is empty.
pub open spec fn nonempty_piece(s: Seq<u8>) -> Seq<Seq<u8>> {
    if s.len() == 0 {
        seq![]
    } else {
        seq![s]
    }
}

/// The segments of `bytes[start..]`, where the data run in progress started at
/// `start` and the scan has reached `i`: each maximal run of bytes other than ETX is
/// one segment, each ETX is replaced by the interrupt sequence, and empty segments are
/// left out.
pub open spec fn segments_from(bytes: Seq<u8>, interrupt: Seq<u8>, start: int, i: int) -> Seq<
    Seq<u8>,
>
    decreases bytes.len() - i,
{
    if i < 0 || start < 0 || start > i || i >= bytes.len() {
        if 0 <= start <= bytes.len() {
            nonempty_piece(bytes.subrange(start, bytes.len() as int))
        } else {
            seq![]
        }
    } else if bytes[i] == ETX {
        nonempty_piece(bytes.subrange(start, i)) + nonempty_piece(interrupt) + segments_from(
            bytes,
            interrupt,
            i + 1,
            i + 1,
        )
    } else {
        segments_from(bytes, interrupt, start, i + 1)
    }
}

/// The segments that a batch of keyboard bytes is delivered in.
pub open spec fn input_segments(bytes: Seq<u8>, interrupt: Seq<u8>) -> Seq<Seq<u8>> {
    segments_from(bytes, interrupt, 0, 0)
}

/// `bytes` with every ETX replaced by `interrupt`.
pub open spec fn replace_interrupts(bytes: Seq<u8>, interrupt: Seq<u8>) -> Seq<u8>
    decreases bytes.len(),
{
    if bytes.len() == 0 {
        seq![]
    } else {
        (if bytes[0] == ETX {
            interrupt
        } else {
            seq![bytes[0]]
        }) + replace_interrupts(bytes.drop_first(), interrupt)
    }
}

/// The concatenation of a sequence of segments.
pub open spec fn concat(segments: Seq<Seq<u8>>) -> Seq<u8>
    decreases segments.len(),
{
    if segments.len() == 0 {
        seq![]
    } else {
        segments[0] + concat(segments.drop_first())
    }
}

proof fn lemma_concat_append(a: Seq<Seq<u8>>, b: Seq<Seq<u8>>)
    ensures
        concat(a + b) == concat(a) + concat(b),
    decreases a.len(),
{
    if a.len() == 0 {
        assert(a + b =~= b);
    } else {
        assert((a + b).drop_first() =~= a.drop_first() + b);
        lemma_concat_append(a.drop_first(), b);
        assert(concat(a + b) =~= concat(a) + concat(b));
    }
}

proof fn lemma_concat_piece(s: Seq<u8>)
    ensures
        concat(nonempty_piece(s)) == s,
{
    if s.len() != 0 {
        let p = nonempty_piece(s);
        assert(p.drop_first() =~= Seq::<Seq<u8>>::empty());
        assert(concat(p.drop_first()) == Seq::<u8>::empty());
        assert(concat(p) == p[0] + concat(p.drop_first()));
        assert(concat(p) =~= s);
    } else {
        assert(nonempty_piece(s) =~= Seq::<Seq<u8>>::empty());
        assert(concat(nonempty_piece(s)) =~= s);
    }
}

proof fn lemma_segments_from_concat(bytes: Seq<u8>, interrupt: Seq<u8>, start: int, i: int)
    requires
        0 <= start <= i <= bytes.len(),
        forall|k: int| start <= k < i ==> #[trigger] bytes[k] != ETX,
    ensures
        concat(segments_from(bytes, interrupt, start, i)) == bytes.subrange(start, i)
            + replace_interrupts(bytes.subrange(i, bytes.len() as int), interrupt),
    decreases bytes.len() - i,
{
    let rest = bytes.subrange(i, bytes.len() as int);
    if i == bytes.len() {
        lemma_concat_piece(bytes.subrange(start, bytes.len() as int));
        assert(bytes.subrange(start, i) + replace_interrupts(rest, interrupt) =~= bytes.subrange(
            start,
            i,
        ));
    } else if bytes[i] == ETX {
        lemma_segments_from_concat(bytes, interrupt, i + 1, i + 1);
        let data = nonempty_piece(bytes.subrange(start, i));
        let irq = nonempty_piece(interrupt);
        let tail = segments_from(bytes, interrupt, i + 1, i + 1);
        lemma_concat_append(data + irq, tail);
        lemma_concat_append(data, irq);
        lemma_concat_piece(bytes.subrange(start, i));
        lemma_concat_piece(interrupt);
        assert(rest.drop_first() =~= bytes.subrange(i + 1, bytes.len() as int));
        assert(bytes.subrange(i + 1, i + 1) =~= Seq::<u8>::empty());
        assert(concat(segments_from(bytes, interrupt, start, i)) =~= bytes.subrange(start, i)
            + replace_interrupts(rest, interrupt));
    } else {
        lemma_segments_from_concat(bytes, interrupt, start, i + 1);
        assert(rest.drop_first() =~= bytes.subrange(i + 1, bytes.len() as int));
        assert(bytes.subrange(start, i + 1) =~= bytes.subrange(start, i).push(bytes[i]));
        assert(bytes.subrange(start, i + 1) + replace_interrupts(
            bytes.subrange(i + 1, bytes.len() as int),
            interrupt,
        ) =~= bytes.subrange(start, i) + replace_interrupts(rest, interrupt));
    }
}

/// Law: writing the segments one after another sends exactly the input, with every
/// ETX replaced by the interrupt sequence.
pub proof fn segments_reassemble_input(bytes: Seq<u8>, interrupt: Seq<u8>)
    ensures
        concat(input_segments(bytes, interrupt)) == replace_interrupts(bytes, interrupt),
{
    lemma_segments_from_concat(bytes, interrupt, 0, 0);
    assert(bytes.subrange(0, bytes.len() as int) =~= bytes);
    assert(bytes.subrange(0, 0) =~= Seq::<u8>::empty());
    assert(bytes.subrange(0, 0) + replace_interrupts(bytes.subrange(0, bytes.len() as int), interrupt)
        =~= replace_interrupts(bytes, interrupt));
}

proof fn lemma_segments_from_shape(bytes: Seq<u8>, interrupt: Seq<u8>, start: int, i: int)
    requires
        0 <= start <= i <= bytes.len(),
        forall|k: int| start <= k < i ==> #[trigger] bytes[k] != ETX,
    ensures
        forall|j: int|
            0 <= j < segments_from(bytes, interrupt, start, i).len() ==> {
                let segment = #[trigger] segments_from(bytes, interrupt, start, i)[j];
                &&& segment.len() > 0
                &&& segment == interrupt || !segment.contains(ETX)
            },
    decreases bytes.len() - i,
{
    if i == bytes.len() {
        let data = bytes.subrange(start, bytes.len() as int);
        assert(!data.contains(ETX)) by {
            assert forall|k: int| 0 <= k < data.len() implies data[k] != ETX by {
                assert(data[k] == bytes[start + k]);
            }
        }
        assert(segments_from(bytes, interrupt, start, i) == nonempty_piece(data));
        assert forall|j: int| 0 <= j < nonempty_piece(data).len() implies {
            let segment = #[trigger] nonempty_piece(data)[j];
            &&& segment.len() > 0
            &&& segment == interrupt || !segment.contains(ETX)
        } by {
            assert(nonempty_piece(data)[j] == data);
        }
    } else if bytes[i] == ETX {
        lemma_segments_from_shape(bytes, interrupt, i + 1, i + 1);
        let data = bytes.subrange(start, i);
        assert(!data.contains(ETX)) by {
            assert forall|k: int| 0 <= k < data.len() implies data[k] != ETX by {
                assert(data[k] == bytes[start + k]);
            }
        }
        let head = nonempty_piece(data) + nonempty_piece(interrupt);
        let tail = segments_from(bytes, interrupt, i + 1, i + 1);
        assert(segments_from(bytes, interrupt, start, i) == head + tail);
        assert forall|j: int| 0 <= j < (head + tail).len() implies {
            let segment = #[trigger] (head + tail)[j];
            &&& segment.len() > 0
            &&& segment == interrupt || !segment.contains(ETX)
        } by {
            if j >= head.len() {
                assert((head + tail)[j] == tail[j - head.len()]);
            } else if data.len() > 0 && j == 0 {
                assert((head + tail)[j] == data);
            } else {
                assert((head + tail)[j] == interrupt);
            }
        }
    } else {
        lemma_segments_from_shape(bytes, interrupt, start, i + 1);
        assert(segments_from(bytes, interrupt, start, i) == segments_from(
            bytes,
            interrupt,
            start,
            i + 1,
        ));
    }
}

/// Law: no segment is empty, and every segment is either the interrupt sequence or a
/// run of input bytes free of ETX.
pub proof fn segments_are_nonempty_runs_or_interrupts(bytes: Seq<u8>, interrupt: Seq<u8>)
    ensures
        forall|j: int|
            0 <= j < input_segments(bytes, interrupt).len() ==> {
                let segment = #[trigger] input_segments(bytes, interrupt)[j];
                &&& segment.len() > 0
                &&& segment == interrupt || !segment.contains(ETX)
            },
{
    lemma_segments_from_shape(bytes, interrupt, 0, 0);
}

proof fn lemma_segments_without_etx(bytes: Seq<u8>, interrupt: Seq<u8>, i: int)
    requires
        0 <= i <= bytes.len(),
        !bytes.contains(ETX),
    ensures
        segments_from(bytes, interrupt, 0, i) == nonempty_piece(bytes),
    decreases bytes.len() - i,
{
    if i < bytes.len() {
        assert(bytes[i] != ETX);
        lemma_segments_without_etx(bytes, interrupt, i + 1);
    } else {
        assert(bytes.subrange(0, bytes.len() as int) =~= bytes);
    }
}

/// Law: input without ETX is delivered as one segment holding all of it (or none when
/// it is empty).
pub proof fn input_without_interrupt_is_one_segment(bytes: Seq<u8>, interrupt: Seq<u8>)
    requires
        !bytes.contains(ETX),
    ensures
        input_segments(bytes, interrupt) == nonempty_piece(bytes),
{
    lemma_segments_without_etx(bytes, interrupt, 0);
}

/// The views of a vector of byte slices.
pub open spec fn slice_views(slices: Seq<&[u8]>) -> Seq<Seq<u8>> {
    slices.map_values(|s: &[u8]| s@)
}

/// The bytes of one batch of keyboard input, as they are to be written to a session.
pub struct InputBatch<'input> {
    bytes: &'input [u8],
    platform: Platform,
}

/// What a batch of input did besides writing bytes.
#[derive(Clone, Copy)]
pub struct InputDelivery {
    interrupted: bool,
}

impl<'input> InputBatch<'input> {
    /// The bytes of the batch.
    pub closed spec fn input(&self) -> Seq<u8> {
        self.bytes@
    }

    /// The platform whose interrupt encoding the batch uses.
    pub closed spec fn host(&self) -> Platform {
        self.platform
    }

    /// A batch holding `bytes`, to be delivered to a session on `platform`.
    pub fn from_bytes(bytes: &'input [u8], platform: Platform) -> (r: Self)
        ensures
            r.input() == bytes@,
            r.host() == platform,
    {
        Self { bytes, platform }
    }

    /// The segments to write, in order: runs of ordinary bytes borrowed from the input,
    /// and for each ETX the platform's interrupt sequence.
    pub fn segments(&self) -> (r: Vec<&'input [u8]>)
        ensures
            slice_views(r@) == input_segments(self.input(), interrupt_sequence(self.host())),
    {
        let bytes = self.bytes;
        let interrupt = interrupt_bytes(self.platform);
        let ghost whole = bytes@;
        let ghost irq = interrupt@;
        let mut segments: Vec<&'input [u8]> = Vec::new();
        let mut start: usize = 0;
        let mut i: usize = 0;
        while i < bytes.len()
            invariant
                whole == bytes@,
                irq == interrupt@,
                0 <= start <= i <= bytes.len(),
                slice_views(segments@) + segments_from(whole, irq, start as int, i as int)
                    == input_segments(whole, irq),
            decreases bytes.len() - i,
        {
            if bytes[i] == ETX {
                let ghost before = slice_views(segments@);
                if start < i {
                    segments.push(slice_subrange(bytes, start, i));
                }
                if interrupt.len() > 0 {
                    segments.push(interrupt);
                }
                proof {
                    assert(slice_views(segments@) =~= before + nonempty_piece(
                        whole.subrange(start as int, i as int),
                    ) + nonempty_piece(irq));
                    assert(slice_views(segments@) + segments_from(
                        whole,
                        irq,
                        i + 1,
                        i + 1,
                    ) =~= before + segments_from(whole, irq, start as int, i as int));
                }
                start = i + 1;
            }
            i = i + 1;
        }
        let ghost before = slice_views(segments@);
        if start < bytes.len() {
            segments.push(slice_subrange(bytes, start, bytes.len()));
        }
        assert(slice_views(segments@) =~= before + segments_from(
            whole,
            irq,
            start as int,
            i as int,
        ));
        segments
    }

    /// Whether the batch carries an interrupt.
    pub fn delivery(&self) -> (r: InputDelivery)
        ensures
            r.was_interrupted() == self.input().contains(ETX),
    {
        let mut interrupted = false;
        let mut i: usize = 0;
        while i < self.bytes.len()
            invariant
                0 <= i <= self.bytes@.len(),
                interrupted == (exists|k: int| 0 <= k < i && #[trigger] self.bytes@[k] == ETX),
            decreases self.bytes@.len() - i,
        {
            if self.bytes[i] == ETX {
                interrupted = true;
            }
            i = i + 1;
        }
        InputDelivery { interrupted }
    }
}

impl InputDelivery {
    /// Whether the delivered batch contained an interrupt.
    pub closed spec fn was_interrupted(self) -> bool {
        self.interrupted
    }

    /// Whether the delivered batch contained an interrupt.
    pub fn interrupted(self) -> (r: bool)
        ensures
            r == self.was_interrupted(),
    {
        self.interrupted
    }
}

/// The bytes that stand for one ETX on `platform`: ETX itself on Unix, and on Windows
/// the Win32 input-mode key events of Ctrl+C.
pub fn interrupt_bytes(platform: Platform) -> (r: &'static [u8])
    ensures
        r@ == interrupt_sequence(platform),
{
    match platform {
        Platform::Unix => {
            proof {
                reveal_strlit("\x03");
                assert(is_ascii("\x03"));
            }
            "\x03".as_bytes()
        },
        Platform::Windows => {
            "\x1b[17;29;0;1;8;1_\x1b[67;46;3;1;8;1_\x1b[67;46;3;0;8;1_\x1b[17;29;0;0;0;1_".as_bytes()
        },
    }
}


/// Why a reply to the terminal host could not be encoded.
#[derive(Debug, Clone, Copy, PartialEq, Eq, Structural)]
pub enum HostReplyError {
    /// In Win32 input mode a reply is re-encoded as key events, which needs UTF-8 text.
    NotUtf8,
}

impl HostReplyError {
    /// The message the reply is refused with.
    pub fn message(self) -> (r: &'static str)
        ensures
            r@ == "terminal host reply is not valid UTF-8"@,
    {
        match self {
            HostReplyError::NotUtf8 => "terminal host reply is not valid UTF-8",
        }
    }
}

/// The UTF-16 code units of one character.
pub open spec fn utf16_units(c: char) -> Seq<u16> {
    let v = c as u32;
    if v < 0x10000 {
        seq![v as u16]
    } else {
        let w = v - 0x10000;
        seq![(0xD800 + w / 0x400) as u16, (0xDC00 + w % 0x400) as u16]
    }
}

/// The UTF-16 encoding of a character sequence.
pub open spec fn encode_utf16(chars: Seq<char>) -> Seq<u16>
    decreases chars.len(),
{
    if chars.len() == 0 {
        seq![]
    } else {
        encode_utf16(chars.drop_last()) + utf16_units(chars.last())
    }
}

/// The ASCII decimal digits of `n`, without leading zeros.
pub open spec fn decimal(n: nat) -> Seq<u8>
    decreases n,
{
    if n < 10 {
        seq![(48 + n) as u8]
    } else {
        decimal(n / 10) + seq![(48 + n % 10) as u8]
    }
}

/// The Win32 input-mode key event `ESC [ 0 ; 0 ; unit ; 1 ; 0 ; 1 _` that types the
/// UTF-16 code unit `unit`.
pub open spec fn win32_key_event(unit: u16) -> Seq<u8> {
    seq![0x1bu8, 0x5b, 0x30, 0x3b, 0x30, 0x3b] + decimal(unit as nat) + seq![
        0x3bu8,
        0x31,
        0x3b,
        0x30,
        0x3b,
        0x31,
        0x5f,
    ]
}

/// The key events that type the given UTF-16 code units, in order.
pub open spec fn win32_key_events(units: Seq<u16>) -> Seq<u8>
    decreases units.len(),
{
    if units.len() == 0 {
        seq![]
    } else {
        win32_key_events(units.drop_last()) + win32_key_event(units.last())
    }
}

/// What a terminal host reply is sent as: unchanged, or, on Windows in Win32 input
/// mode, as key events for the UTF-16 units of its text (`None` when it is not UTF-8).
pub open spec fn host_reply(bytes: Seq<u8>, win32_input: bool, platform: Platform) -> Option<
    Seq<u8>,
> {
    if platform == Platform::Windows && win32_input {
        if valid_utf8(bytes) {
            Some(win32_key_events(encode_utf16(decode_utf8(bytes))))
        } else {
            None
        }
    } else {
        Some(bytes)
    }
}

fn push_decimal(out: &mut Vec<u8>, n: u16)
    ensures
        final(out)@ == old(out)@ + decimal(n as nat),
    decreases n,
{
    if n >= 10 {
        push_decimal(out, n / 10);
    }
    out.push(48 + (n % 10) as u8);
    assert(final(out)@ =~= old(out)@ + decimal(n as nat));
}

fn push_key_event(out: &mut Vec<u8>, unit: u16)
    ensures
        final(out)@ == old(out)@ + win32_key_event(unit),
{
    out.push(0x1b);
    out.push(0x5b);
    out.push(0x30);
    out.push(0x3b);
    out.push(0x30);
    out.push(0x3b);
    let ghost before_digits = out@;
    push_decimal(out, unit);
    out.push(0x3b);
    out.push(0x31);
    out.push(0x3b);
    out.push(0x30);
    out.push(0x3b);
    out.push(0x31);
    out.push(0x5f);
    assert(final(out)@ =~= old(out)@ + win32_key_event(unit));
}

proof fn lemma_key_events_append(units: Seq<u16>, more: Seq<u16>)
    ensures
        win32_key_events(units + more) == win32_key_events(units) + win32_key_events(more),
    decreases more.len(),
{
    if more.len() == 0 {
        assert(units + more =~= units);
        assert(win32_key_events(units) + win32_key_events(more) =~= win32_key_events(units));
    } else {
        lemma_key_events_append(units, more.drop_last());
        assert((units + more).drop_last() =~= units + more.drop_last());
        assert(win32_key_events(units + more) =~= win32_key_events(units) + win32_key_events(more));
    }
}

proof fn lemma_key_events_single(unit: u16)
    ensures
        win32_key_events(seq![unit]) == win32_key_event(unit),
{
    let one = seq![unit];
    assert(one.drop_last() =~= Seq::<u16>::empty());
    assert(one.last() == unit);
    assert(win32_key_events(Seq::<u16>::empty()) == Seq::<u8>::empty());
    assert(win32_key_events(one) =~= win32_key_event(unit));
}

/// Re-encodes a UTF-8 host reply as Win32 input-mode key events, one per UTF-16 code
/// unit of its text.
pub fn win32_input_reply(bytes: &[u8]) -> (r: Result<Vec<u8>, HostReplyError>)
    ensures
        match host_reply(bytes@, true, Platform::Windows) {
            Some(encoded) => r matches Ok(v) && v@ == encoded,
            None => r == Err::<Vec<u8>, HostReplyError>(HostReplyError::NotUtf8),
        },
{
    let text = match core::str::from_utf8(bytes) {
        Ok(text) => text,
        Err(_) => return Err(HostReplyError::NotUtf8),
    };
    proof {
        encode_utf8_decode_utf8(text@);
    }
    let ghost chars = text@;
    let mut encoded: Vec<u8> = Vec::new();
    for c in it: text.chars()
        invariant
            it.seq() == chars,
            encoded@ == win32_key_events(encode_utf16(chars.take(it.index() as int))),
    {
        let ghost done = it.index() as int;
        let ghost before = encoded@;
        proof {
            assert(chars.take(done + 1).drop_last() =~= chars.take(done));
            assert(chars.take(done + 1).last() == c);
            char_is_scalar(c);
        }
        #[verifier::truncate]
        let v = c as u32;
        if v < 0x10000 {
            push_key_event(&mut encoded, v as u16);
            proof {
                lemma_key_events_append(encode_utf16(chars.take(done)), utf16_units(c));
                lemma_key_events_single(v as u16);
            }
        } else {
            let w = v - 0x10000;
            let high = (0xD800 + w / 0x400) as u16;
            let low = (0xDC00 + w % 0x400) as u16;
            push_key_event(&mut encoded, high);
            push_key_event(&mut encoded, low);
            proof {
                lemma_key_events_append(encode_utf16(chars.take(done)), utf16_units(c));
                let pair = seq![high, low];
                assert(pair =~= seq![high] + seq![low]);
                lemma_key_events_append(seq![high], seq![low]);
                lemma_key_events_single(high);
                lemma_key_events_single(low);
                assert(utf16_units(c) == pair);
            }
        }
        assert(encoded@ =~= win32_key_events(encode_utf16(chars.take(done + 1))));
    }
    assert(chars.take(chars.len() as int) =~= chars);
    Ok(encoded)
}

/// What a reply to the terminal host is sent as on `platform`: Windows sessions in
/// Win32 input mode receive it as key events, every other session unchanged.
pub fn platform_host_reply_bytes(bytes: &[u8], win32_input: bool, platform: Platform) -> (r:
    Result<Vec<u8>, HostReplyError>)
    ensures
        match host_reply(bytes@, win32_input, platform) {
            Some(encoded) => r matches Ok(v) && v@ == encoded,
            None => r == Err::<Vec<u8>, HostReplyError>(HostReplyError::NotUtf8),
        },
{
    match platform {
        Platform::Windows if win32_input => win32_input_reply(bytes),
        _ => Ok(slice_to_vec(bytes)),
    }
}

/// The bytes that answer a terminal host query, as the session on `platform` expects them.
pub fn host_reply_bytes(bytes: &[u8], win32_input: bool, platform: Platform) -> (r: Result<
    Vec<u8>,
    HostReplyError,
>)
    ensures
        match host_reply(bytes@, win32_input, platform) {
            Some(encoded) => r matches Ok(v) && v@ == encoded,
            None => r == Err::<Vec<u8>, HostReplyError>(HostReplyError::NotUtf8),
        },
{
    platform_host_reply_bytes(bytes, win32_input, platform)
}

} // verus!
