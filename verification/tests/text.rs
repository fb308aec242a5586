use feishu_unreadme_app::text::{decimal_string, parse_u64, split_path};

#[test]
fn decimal_roundtrip() {
    for n in [0u64, 7, 10, 19, 1234567890, u64::MAX] {
        let s = decimal_string(n);
        assert_eq!(s, n.to_string());
        assert_eq!(parse_u64(&s), Some(n));
    }
}

#[test]
fn parse_u64_follows_str_parse() {
    for s in ["", "+", "-1", "-0", " 1", "1 ", "12a", "+12", "007", "18446744073709551615", "18446744073709551616", "99999999999999999999"] {
        assert_eq!(parse_u64(s), s.parse::<u64>().ok(), "{s:?}");
    }
}

#[test]
fn split_keeps_empty_components() {
    let parts = split_path(&"a//b/".chars().collect::<Vec<char>>());
    let strs: Vec<String> = parts.iter().map(|p| p.iter().collect()).collect();
    assert_eq!(strs, vec!["a", "", "b", ""]);
}
