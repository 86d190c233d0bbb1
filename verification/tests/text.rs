//! Text, bytes and order.

use dvpn::bytes::{be_decode, be_encode, bytes_equal, extend, overwrite, take_32};
use dvpn::order::{precedes, sorted_bytes};
use dvpn::text::{
    chars_of, push_decimal, push_hexadecimal, read_number, spells, split, string_of, to_lower, trim,
};
use dvpn::time::{Duration, Instant};

fn trimmed(s: &str) -> String {
    string_of(trim(&chars_of(s)))
}

#[test]
fn trimming_takes_every_kind_of_whitespace() {
    for code in 0u32..0x11_0000 {
        if let Some(c) = char::from_u32(code) {
            let s: String = [c, 'x', c].iter().collect();
            assert_eq!(trimmed(&s), s.trim(), "{code:x}");
        }
    }
    assert_eq!(trimmed(" \t\n"), "");
    assert_eq!(trimmed(" a b "), "a b");
}

#[test]
fn only_ascii_letters_are_lowered() {
    assert_eq!(string_of(&to_lower(&chars_of("AZaz09ÄÖ"))), "azaz09ÄÖ");
    assert!(spells(&chars_of("läuft"), "läuft"));
    assert!(!spells(&chars_of("ab"), "abc"));
    assert!(!spells(&chars_of("abd"), "abc"));
}

#[test]
fn splitting_keeps_empty_pieces() {
    let pieces: Vec<String> =
        split(&chars_of(",a,,bc"), ',').iter().map(|p| string_of(p)).collect();
    assert_eq!(pieces, vec!["", "a", "", "bc"]);
    assert_eq!(split(&[], ','), vec![Vec::<char>::new()]);
}

#[test]
fn numbers_read_back() {
    for n in [0u128, 7, 10, 99, 100, 65535, u64::MAX as u128, u128::MAX] {
        let mut s = String::new();
        push_decimal(&mut s, n);
        assert_eq!(s, n.to_string());
        assert_eq!(read_number(&chars_of(&s), u128::MAX), Some(n));
        let mut h = String::from("0x");
        push_hexadecimal(&mut h, n);
        assert_eq!(h, format!("0x{n:x}"));
    }
}

#[test]
fn what_is_no_number_does_not_read() {
    let max = u128::MAX;
    for bad in ["", "+", "-1", " 1", "1 ", "1a", "++1", "0x1", "١"] {
        assert_eq!(read_number(&chars_of(bad), max), None, "{bad}");
        assert!(bad.parse::<u128>().is_err());
    }
    assert_eq!(read_number(&chars_of("+5"), max), Some(5));
    assert_eq!(read_number(&chars_of("00005"), max), Some(5));
    assert_eq!(read_number(&chars_of("256"), 255), None);
    assert_eq!(read_number(&chars_of("255"), 255), Some(255));
    assert_eq!(read_number(&chars_of("340282366920938463463374607431768211456"), max), None);
}

#[test]
fn bytes_are_big_endian() {
    assert_eq!(be_encode(0x0102_0304, 4), vec![1, 2, 3, 4]);
    assert_eq!(be_encode(u64::MAX, 8), vec![0xff; 8]);
    assert_eq!(be_decode(&[1, 2, 3, 4]), 0x0102_0304);
    let mut out = [0u8; 5];
    overwrite(&mut out, 1, &[7, 8]);
    assert_eq!(out, [0, 7, 8, 0, 0]);
    let mut v: Vec<u8> = vec![1];
    extend(&mut v, &[2, 3]);
    assert_eq!(v, vec![1, 2, 3]);
    assert!(bytes_equal(&[1, 2], &[1, 2]) && !bytes_equal(&[1, 2], &[1, 3]));
    assert!(!bytes_equal(&[1], &[1, 2]));
    assert_eq!(take_32(&[9u8; 32]), [9u8; 32]);
}

#[test]
fn strings_sort_as_their_bytes() {
    let specs = ["b", "a", "", "ab", "ä", "a"];
    let mut expected: Vec<Vec<u8>> = specs.iter().map(|s| s.as_bytes().to_vec()).collect();
    expected.sort();
    assert_eq!(sorted_bytes(&specs), expected);
    assert!(precedes(b"a", b"ab") && !precedes(b"b", b"ab"));
}

#[test]
fn time_saturates_downwards() {
    let t = Instant::from_nanos(5);
    assert_eq!(t.duration_since(Instant::from_nanos(9)), Duration::zero());
    assert!(t.duration_since(t).is_zero());
    assert_eq!(t.after(Duration::from_millis(1)), Instant::from_nanos(1_000_005));
    assert!(t.before(Instant::from_nanos(6)) && !t.before(t));
}
