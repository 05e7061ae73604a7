use flint_init::text::{
    decimal_string, join_strings, sort_by_name, sort_in_order, sort_strings, split_lines, split_on, split_whitespace,
    str_contains, str_lt, trim_str,
};

#[test]
fn sorting_keeps_repeats_and_orders_like_rust() {
    let v: Vec<String> = ["b", "a", "B", "b", "ä", ""].iter().map(|s| s.to_string()).collect();
    let mut want = v.clone();
    want.sort();
    assert_eq!(sort_in_order(&v), want);
    let distinct: Vec<String> = ["zeta", "alpha", "mid"].iter().map(|s| s.to_string()).collect();
    assert_eq!(sort_strings(distinct), vec!["alpha", "mid", "zeta"]);
}

#[test]
fn pair_sort_is_stable_by_name() {
    let v: Vec<(String, String)> = [("b", "1"), ("a", "2"), ("b", "3"), ("a", "4")]
        .iter()
        .map(|(a, b)| (a.to_string(), b.to_string()))
        .collect();
    let mut want = v.clone();
    want.sort_by(|x, y| x.0.cmp(&y.0));
    assert_eq!(sort_by_name(&v), want);
}

#[test]
fn string_helpers_agree_with_std() {
    for s in ["", "  a b\tc\n", "x", "\u{a0}y\u{2003}"] {
        assert_eq!(split_whitespace(s), s.split_whitespace().map(String::from).collect::<Vec<_>>());
        assert_eq!(trim_str(s), s.trim());
        assert_eq!(split_on(s, ' '), s.split(' ').map(String::from).collect::<Vec<_>>());
    }
    for s in ["", "a\nb", "a\r\nb\n", "\n\n", "x\r"] {
        assert_eq!(split_lines(s), s.lines().map(String::from).collect::<Vec<_>>());
    }
    assert!(str_lt("abc", "abd") && !str_lt("b", "a") && str_lt("", "a"));
    assert!(str_contains("hello world", "o w") && !str_contains("hi", "hii"));
    assert_eq!(join_strings(&vec!["a".to_string(), "b".to_string()], ", "), "a, b");
}

#[test]
fn decimal_numbers() {
    for n in [0usize, 7, 10, 32, 1000, 123456789] {
        assert_eq!(decimal_string(n), n.to_string());
    }
}
