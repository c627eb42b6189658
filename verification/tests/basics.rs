use omnistor::binary64::{rounded, shown_as};
use omnistor::bytes::{bytes_precede, has_prefix};
use omnistor::sorted_map::{Precedence, SortedMap};
use omnistor::text::{
    bytes_of, chars_of, decimal_text, parse_number, same_text, strip_head, strip_tail, text_of,
    trim, wide_decimal_text,
};
use omnistor::types::PoolId;

#[test]
fn a_sorted_map_keeps_its_keys_in_order() {
    let mut m: SortedMap<PoolId, u64> = SortedMap::new();
    for k in [5, 1, 9, 3] {
        assert_eq!(m.insert(PoolId(k), u64::from(k) * 10), None);
    }
    assert_eq!(m.insert(PoolId(3), 33), Some(30));
    assert_eq!(m.len(), 4);
    let keys: Vec<u32> = (0..4).map(|i| m.key_at(i).0).collect();
    assert_eq!(keys, vec![1, 3, 5, 9]);
    assert_eq!(m.get(&PoolId(3)), Some(&33));
    assert_eq!(m.get(&PoolId(4)), None);
    assert_eq!(m.lower_bound(&PoolId(4)), 2);
    *m.get_mut(&PoolId(9)).unwrap() += 1;
    assert_eq!(m.remove(&PoolId(9)), Some(91));
    assert_eq!(m.remove(&PoolId(9)), None);
    assert!(!m.contains_key(&PoolId(9)));
}

#[test]
fn bytes_are_ordered_like_words() {
    assert_eq!(bytes_precede(b"a", b"ab"), Precedence::Before);
    assert_eq!(bytes_precede(b"b", b"ab"), Precedence::After);
    assert_eq!(bytes_precede(b"ab", b"ab"), Precedence::Same);
    assert!(has_prefix(b"dir/f", b"dir/"));
    assert!(!has_prefix(b"dir", b"dir/"));
    assert!(has_prefix(b"x", b""));
}

#[test]
fn decimal_digits() {
    assert_eq!(decimal_text(0), "0");
    assert_eq!(decimal_text(u64::MAX), "18446744073709551615");
    assert_eq!(
        wide_decimal_text(u128::MAX),
        "340282366920938463463374607431768211455"
    );
}

#[test]
fn numbers_are_read_as_integers_are() {
    for s in [
        "0", "007", "+5", "+", "-1", "", " 1", "12x", "4294967295", "4294967296",
        "18446744073709551615", "18446744073709551616", "+-3", "٣",
    ] {
        let v = chars_of(s);
        assert_eq!(parse_number(&v, u64::MAX), s.parse::<u64>().ok(), "{s}");
        assert_eq!(
            parse_number(&v, u64::from(u32::MAX)),
            s.parse::<u32>().ok().map(u64::from),
            "{s}"
        );
    }
}

#[test]
fn text_is_trimmed_of_white_space() {
    for s in ["  a b \t", "\u{a0}x\u{3000}", "", "\r\n", "\u{200b}y", "\u{85}z\u{1680}"] {
        assert_eq!(text_of(&trim(&chars_of(s))), s.trim(), "{s:?}");
    }
    assert_eq!(text_of(&strip_head(&chars_of("{{a{"), '{')), "a{");
    assert_eq!(text_of(&strip_tail(&chars_of("}a}}"), '}')), "}a");
    assert!(same_text("acme", "acme"));
    assert!(!same_text("acme", "acm"));
    assert_eq!(bytes_of("é/𝄞"), "é/𝄞".as_bytes().to_vec());
}

#[test]
fn numbers_round_to_the_nearest_float() {
    let mut x: u64 = 0x2545_f491_4f6c_dd1d;
    for i in 0..2000 {
        x ^= x << 13;
        x ^= x >> 7;
        x ^= x << 17;
        let n = x >> (i % 64);
        assert_eq!(rounded(u128::from(n)), (n as f64) as u128);
    }
    assert_eq!(rounded(9_007_199_254_740_993), 9_007_199_254_740_992);
    assert_eq!(rounded(9_007_199_254_740_995), 9_007_199_254_740_996);
}

#[test]
fn large_numbers_are_shown_short() {
    assert_eq!(shown_as(u64::MAX), 18_446_744_073_709_552_000);
    assert_eq!(shown_as(1 << 63), 9_223_372_036_854_776_000);
    assert_eq!(shown_as(123), 123);
    assert_eq!(shown_as((1 << 53) - 1), (1 << 53) - 1);
}
