use difflog::util::{StringExt, swap_byte};

#[test]
fn test_swap_str() {
    let mut data = b"ABC".to_vec();
    swap_byte(&mut data, 0, 2);
    assert_eq!(b"CBA".to_vec(), data);
}

#[test]
fn test_drop_str() {
    let content: &[u8] = b"ABC";
    assert_eq!(b"BC" as &[u8], content.drop(1));
    assert_eq!(b"AB" as &[u8], content.drop_last(1));
}

#[test]
fn test_drop_past_end() {
    let content: &[u8] = b"ABC";
    assert_eq!(b"" as &[u8], content.drop(4));
    assert_eq!(b"" as &[u8], content.drop_last(4));
    assert_eq!(b"" as &[u8], content.drop(3));
    assert_eq!(b"ABC" as &[u8], content.drop(0));
}

#[test]
fn test_swap_out_of_range() {
    let mut data = b"ABC".to_vec();
    swap_byte(&mut data, 0, 3);
    assert_eq!(b"ABC".to_vec(), data);
    swap_byte(&mut data, 9, 1);
    assert_eq!(b"ABC".to_vec(), data);
}

#[test]
fn test_swap_same_position() {
    let mut data = b"ABC".to_vec();
    swap_byte(&mut data, 1, 1);
    assert_eq!(b"ABC".to_vec(), data);
}
