use functerm::keyboard::{host_reply_bytes, interrupt_bytes, win32_input_reply, HostReplyError, InputBatch, InputDelivery};
use functerm::platform::Platform;

const WINDOWS_CTRL_C: &str = "\x1b[17;29;0;1;8;1_\x1b[67;46;3;1;8;1_\x1b[67;46;3;0;8;1_\x1b[17;29;0;0;0;1_";

#[test]
fn empty_input_has_no_segments_or_interrupt() {
    let batch = InputBatch::from_bytes(b"", Platform::Unix);
    assert_eq!(batch.segments().len(), 0);
    assert!(!batch.delivery().interrupted());
}

#[test]
fn data_segments_borrow_the_input_and_preserve_interrupt_order() {
    let input = b"\x03before\x03\x03after\x03";
    let batch = InputBatch::from_bytes(input, Platform::Unix);
    let segments = batch.segments();
    let interrupt = interrupt_bytes(Platform::Unix);
    let mut data = input
        .split(|byte| *byte == 3)
        .filter(|chunk| !chunk.is_empty());
    let before = data.next().unwrap();
    let after = data.next().unwrap();
    assert_eq!(
        segments,
        [interrupt, before, interrupt, interrupt, after, interrupt]
    );
    let &[_, borrowed_before, _, _, borrowed_after, _] = segments.as_slice() else {
        panic!("expected two data segments and four interrupts");
    };
    assert!(core::ptr::eq(borrowed_before, before));
    assert!(core::ptr::eq(borrowed_after, after));
    assert!(batch.delivery().interrupted());
}

#[test]
fn all_non_interrupt_bytes_are_preserved_without_copying() {
    let input = (0_u8..=255).filter(|byte| *byte != 3).collect::<Vec<_>>();
    let batch = InputBatch::from_bytes(&input, Platform::Unix);
    let segments = batch.segments();
    let mut segments = segments.into_iter();
    assert!(core::ptr::eq(segments.next().unwrap(), input.as_slice()));
    assert!(segments.next().is_none());
}

fn encoded_input(bytes: &[u8], platform: Platform) -> (Vec<u8>, InputDelivery) {
    let batch = InputBatch::from_bytes(bytes, platform);
    let mut encoded = Vec::new();
    for segment in batch.segments() {
        encoded.extend_from_slice(segment);
    }
    (encoded, batch.delivery())
}

#[test]
fn ordinary_text_is_unchanged() {
    let (encoded, delivery) = encoded_input(b"typed input", Platform::Unix);
    assert_eq!(encoded, b"typed input");
    assert!(!delivery.interrupted());
}

#[test]
fn terminal_reply_is_unchanged_on_unix() {
    assert_eq!(
        host_reply_bytes(b"\x1b[1;2R", true, Platform::Unix).unwrap(),
        b"\x1b[1;2R"
    );
}

#[test]
fn ctrl_c_uses_win32_input_mode_key_events() {
    let (encoded, delivery) = encoded_input(b"\x03", Platform::Windows);
    assert_eq!(encoded, WINDOWS_CTRL_C.as_bytes());
    assert!(delivery.interrupted());
}

#[test]
fn ctrl_c_can_be_embedded_between_text_chunks() {
    let (encoded, delivery) = encoded_input(b"before\x03after", Platform::Windows);
    assert_eq!(
        encoded,
        "before\x1b[17;29;0;1;8;1_\x1b[67;46;3;1;8;1_\x1b[67;46;3;0;8;1_\x1b[17;29;0;0;0;1_after"
        .as_bytes()
    );
    assert!(delivery.interrupted());
}

#[test]
fn ctrl_c_remains_etx_on_unix() {
    let (encoded, delivery) = encoded_input(b"before\x03after", Platform::Unix);
    assert_eq!(encoded, b"before\x03after");
    assert!(delivery.interrupted());
}

#[test]
fn terminal_reply_is_encoded_as_literal_win32_input() {
    assert_eq!(
        host_reply_bytes(b"\x1b[1;2R", true, Platform::Windows).unwrap(),
        "\x1b[0;0;27;1;0;1_\x1b[0;0;91;1;0;1_\x1b[0;0;49;1;0;1_\x1b[0;0;59;1;0;1_\x1b[0;0;50;1;0;1_\x1b[0;0;82;1;0;1_"
        .as_bytes()
    );
}

#[test]
fn windows_reply_without_win32_input_is_unchanged() {
    assert_eq!(
        host_reply_bytes(b"\x1b[1;2R", false, Platform::Windows).unwrap(),
        b"\x1b[1;2R"
    );
}

#[test]
fn win32_reply_splits_astral_characters_into_surrogates() {
    assert_eq!(
        win32_input_reply("é🦀".as_bytes()).unwrap(),
        "\x1b[0;0;233;1;0;1_\x1b[0;0;55358;1;0;1_\x1b[0;0;56704;1;0;1_"
        .as_bytes()
    );
    assert_eq!(win32_input_reply(b"").unwrap(), b"");
}

#[test]
fn win32_reply_refuses_invalid_utf8() {
    assert_eq!(
        host_reply_bytes(b"\x1b[\xff", true, Platform::Windows),
        Err(HostReplyError::NotUtf8)
    );
    assert_eq!(
        host_reply_bytes(b"\x1b[\xff", true, Platform::Unix).unwrap(),
        b"\x1b[\xff"
    );
}

#[test]
fn segments_reassemble_to_input_with_interrupts_replaced() {
    for platform in [Platform::Unix, Platform::Windows] {
        let input = b"\x03\x03a\x03bc\x03";
        let batch = InputBatch::from_bytes(input, platform);
        let segments = batch.segments();
        assert!(segments.iter().all(|segment| !segment.is_empty()));
        let interrupt = interrupt_bytes(platform);
        let mut expected = Vec::new();
        for byte in input {
            if *byte == 3 {
                expected.extend_from_slice(interrupt);
            } else {
                expected.push(*byte);
            }
        }
        assert_eq!(segments.concat(), expected);
        assert_eq!(segments.len(), 6);
    }
}

#[test]
fn interrupt_bytes_per_platform() {
    assert_eq!(interrupt_bytes(Platform::Unix), b"\x03");
    assert_eq!(interrupt_bytes(Platform::Windows), WINDOWS_CTRL_C.as_bytes());
}

#[test]
fn host_reply_error_message() {
    assert_eq!(HostReplyError::NotUtf8.message(), "terminal host reply is not valid UTF-8");
}
