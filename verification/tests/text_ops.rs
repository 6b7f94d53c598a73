use jutsu_loader::text::{
    after_bytes, after_last, before_first, chars_of, contains, same_chars, split_by, string_of,
    trimmed,
};

fn pieces(s: &str, p: &str) -> Vec<String> {
    let parts = split_by(&chars_of(s), &chars_of(p));
    parts.iter().map(|v| string_of(v)).collect()
}

#[test]
fn split_agrees_with_str_split() {
    let cases = [
        ("a,b,,c", ","),
        ("", ","),
        (",", ","),
        ("abc", "x"),
        ("aaaa", "aa"),
        ("aaa", "aa"),
        ("<a href=x<a href=y", "<a href="),
        ("Наруто/\"rest/\"", "/\""),
        ("xyxyx", "xyx"),
    ];
    for (s, p) in cases {
        let expected: Vec<String> = s.split(p).map(|x| x.to_string()).collect();
        assert_eq!(pieces(s, p), expected, "splitting {:?} by {:?}", s, p);
    }
}

#[test]
fn split_pieces_join_back() {
    let s = "one--two----three--";
    let parts = pieces(s, "--");
    assert_eq!(parts, vec!["one", "two", "", "three", ""]);
    assert_eq!(parts.join("--"), s);
}

#[test]
fn contains_agrees_with_str_contains() {
    for (s, p) in [("hello", "ll"), ("hello", "lo!"), ("", ""), ("abc", ""), ("ab", "abc"), ("res=\"720\"", "res=\"720\"")] {
        assert_eq!(contains(&chars_of(s), &chars_of(p)), s.contains(p), "{:?} in {:?}", p, s);
    }
}

#[test]
fn first_and_last_pieces() {
    let s = chars_of("a</i>b</i>c");
    let p = chars_of("</i>");
    assert_eq!(string_of(&before_first(&s, &p)), "a");
    assert_eq!(string_of(&after_last(&s, &p)), "c");
    let none = chars_of("abc");
    assert_eq!(string_of(&before_first(&none, &p)), "abc");
    assert_eq!(string_of(&after_last(&none, &p)), "abc");
}

#[test]
fn trimming_agrees_with_str_trim() {
    for s in ["  2\n", "\t\r\nabc \u{3000}", "", "   ", "x", "\u{85}y\u{A0}", " a b "] {
        assert_eq!(string_of(&trimmed(&chars_of(s))), s.trim(), "trimming {:?}", s);
    }
}

#[test]
fn byte_offsets_follow_str_slicing() {
    let cases: [(&str, usize); 8] = [
        ("\">Name", 2),
        ("\"/x", 1),
        ("Жx", 2),
        ("Жx", 1),
        ("a", 2),
        ("", 1),
        ("ab", 2),
        ("aЖ", 2),
    ];
    for (s, n) in cases {
        let expected = if s.is_char_boundary(n) && n <= s.len() { Some(s[n..].to_string()) } else { None };
        let got = after_bytes(&chars_of(s), n).map(|v| string_of(&v));
        assert_eq!(got, expected, "dropping {} bytes of {:?}", n, s);
    }
}

#[test]
fn same_chars_compares_exactly() {
    assert!(same_chars(&chars_of("empty"), &chars_of("empty")));
    assert!(!same_chars(&chars_of("empty"), &chars_of("empty ")));
    assert!(!same_chars(&chars_of("Empty"), &chars_of("empty")));
}
