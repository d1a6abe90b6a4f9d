use bondriver_mirakurun::text::{chars_of, push_decimal, push_signed_decimal, trim_bounds, upper_chars};
use bondriver_mirakurun::util::{to_wide, ASYNCBUFFSIZE, TUNER_NAME};

#[test]
fn chars_of_keeps_every_character() {
    assert_eq!(chars_of("aé日𝄞"), vec!['a', 'é', '日', '𝄞']);
    assert_eq!(chars_of(""), Vec::<char>::new());
}

#[test]
fn to_wide_ends_with_nul() {
    let w = to_wide(TUNER_NAME);
    assert_eq!(w.len(), TUNER_NAME.len() + 1);
    assert_eq!(w[0], 'B' as u16);
    assert_eq!(*w.last().unwrap(), 0);
    let expected: Vec<u16> = TUNER_NAME.encode_utf16().chain(std::iter::once(0)).collect();
    assert_eq!(w, expected);
}

#[test]
fn to_wide_encodes_surrogate_pairs() {
    assert_eq!(to_wide("𝄞"), vec![0xd834, 0xdd1e, 0]);
    assert_eq!(to_wide("地デジ"), vec![0x5730, 0x30c7, 0x30b8, 0]);
    assert_eq!(to_wide(""), vec![0]);
}

#[test]
fn decimal_writing() {
    let mut s = String::new();
    push_decimal(&mut s, 0);
    assert_eq!(s, "0");
    let mut s = String::from("x");
    push_decimal(&mut s, 1234567890);
    assert_eq!(s, "x1234567890");
    let mut s = String::new();
    push_decimal(&mut s, u64::MAX);
    assert_eq!(s, u64::MAX.to_string());
}

#[test]
fn signed_decimal_writing() {
    let mut s = String::new();
    push_signed_decimal(&mut s, i32::MIN);
    assert_eq!(s, "-2147483648");
    let mut s = String::new();
    push_signed_decimal(&mut s, -7);
    assert_eq!(s, "-7");
    let mut s = String::new();
    push_signed_decimal(&mut s, i32::MAX);
    assert_eq!(s, "2147483647");
}

#[test]
fn trim_bounds_drops_unicode_white_space() {
    let v = chars_of("\u{3000} \tkey\r\n");
    let (a, b) = trim_bounds(&v, 0, v.len());
    assert_eq!(v[a..b].iter().collect::<String>(), "key");
    let v = chars_of("   ");
    let (a, b) = trim_bounds(&v, 0, v.len());
    assert_eq!(a, b);
}

#[test]
fn upper_chars_changes_ascii_letters_only() {
    let v = chars_of("Server_Host-é1");
    assert_eq!(upper_chars(&v, 0, v.len()).iter().collect::<String>(), "SERVER_HOST-é1");
}

#[test]
fn queue_limit() {
    assert_eq!(ASYNCBUFFSIZE, 86);
}
