use cronbird::config::parse_identities;
use cronbird::text::{parse_u64, push_i64, push_padded_i64, push_u64};

#[test]
fn decimal_rendering() {
    let mut s = String::new();
    push_u64(&mut s, 0);
    s.push(' ');
    push_u64(&mut s, u64::MAX);
    s.push(' ');
    push_i64(&mut s, i64::MIN);
    s.push(' ');
    push_i64(&mut s, -7);
    assert_eq!(s, "0 18446744073709551615 -9223372036854775808 -7");
}

#[test]
fn padded_rendering() {
    let mut s = String::new();
    push_padded_i64(&mut s, 5, 2);
    s.push(' ');
    push_padded_i64(&mut s, -1, 4);
    s.push(' ');
    push_padded_i64(&mut s, 12345, 4);
    s.push(' ');
    push_padded_i64(&mut s, -12345, 4);
    assert_eq!(s, format!("{:02} {:04} {:04} {:04}", 5, -1, 12345, -12345));
}

#[test]
fn unsigned_parsing_matches_std() {
    for text in ["0", "60", "+7", "", "+", "-1", " 5", "5 ", "18446744073709551615", "18446744073709551616", "99999999999999999999", "1_000"] {
        assert_eq!(parse_u64(text), text.parse::<u64>().ok(), "{text:?}");
    }
}

#[test]
fn identity_list_parsing_matches_std() {
    for text in ["", "a", "a,b", " a , b ,", ",,", "x,\u{00a0}y\u{2003},z", "one, two ,three"] {
        let expected: Vec<String> = text
            .split(',')
            .map(|s| s.trim().to_string())
            .filter(|s| !s.is_empty())
            .collect();
        assert_eq!(parse_identities(text), expected, "{text:?}");
    }
}
