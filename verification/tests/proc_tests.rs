use difflog::proc::{OutputMessage, RawOutputMessage};

#[test]
fn test_into_success() {
    let out = RawOutputMessage::Success(b"ABC".to_vec()).into();
    match out {
        OutputMessage::Success(s) => assert_eq!(s, "ABC"),
        OutputMessage::Error(_) => panic!("wrong variant"),
    }
}

#[test]
fn test_into_error_decodes_as_success() {
    // Both raw variants decode into the success variant.
    let out = RawOutputMessage::Error(b"oops".to_vec()).into();
    match out {
        OutputMessage::Success(s) => assert_eq!(s, "oops"),
        OutputMessage::Error(_) => panic!("wrong variant"),
    }
}

#[test]
fn test_into_invalid_utf8_replaced() {
    let out = RawOutputMessage::Success(vec![0xFFu8, 0x41u8]).into();
    match out {
        OutputMessage::Success(s) => assert_eq!(s, "\u{FFFD}A"),
        OutputMessage::Error(_) => panic!("wrong variant"),
    }
}

#[test]
fn test_text_accessor() {
    let m = OutputMessage::Success(String::from("hello"));
    assert_eq!(m.text(), "hello");
    let e = OutputMessage::Error(String::from("bad"));
    assert_eq!(e.text(), "bad");
}
