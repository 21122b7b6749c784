use cargo_storage::text::{
    chars_of, is_white_space, replace_pairs, split, split_at_first, string_of, strip_prefix,
    trim,
};

fn chars(s: &str) -> Vec<char> {
    s.chars().collect()
}

fn text(c: &[char]) -> String {
    c.iter().collect()
}

#[test]
fn white_space_agrees_with_char_for_every_character() {
    for n in 0..=0x10ffffu32 {
        if let Some(c) = char::from_u32(n) {
            assert_eq!(is_white_space(c), c.is_whitespace(), "U+{:04X}", n);
        }
    }
}

#[test]
fn trim_agrees_with_str() {
    for s in ["", " ", "a", " a ", "\ta b\r\n", "\u{3000}x\u{a0}", "no"] {
        assert_eq!(text(trim(&chars(s))), s.trim());
    }
}

#[test]
fn pieces_between_separators() {
    let input = chars("a,,b,");
    let pieces: Vec<String> = split(&input, ',').iter().map(|p| text(p)).collect();
    assert_eq!(pieces, vec!["a", "", "b", ""]);
    assert_eq!(split(&chars(""), ',').len(), 1);
    let bytes = split(b"x\0yz\0", 0u8);
    assert_eq!(bytes, vec![&b"x"[..], &b"yz"[..], &b""[..]]);
}

#[test]
fn first_separator_splits() {
    let input = chars("name\t/a\tb");
    let (before, after) = split_at_first(&input, '\t').unwrap();
    assert_eq!((text(before), text(after)), ("name".to_string(), "/a\tb".to_string()));
    assert!(split_at_first(&chars("none"), '\t').is_none());
}

#[test]
fn prefix_is_stripped_only_where_it_stands() {
    let input = chars("gitdir: x");
    assert_eq!(text(strip_prefix(&input, "gitdir:").unwrap()), " x");
    assert!(strip_prefix(&chars("git"), "gitdir:").is_none());
    assert!(strip_prefix(&chars(" gitdir:"), "gitdir:").is_none());
}

#[test]
fn pairs_are_replaced_like_str_replace() {
    for s in ["", "\\", "\\\"", "a\\\"b", "\\\\\\\"", "\\\\\\", "\"\\"] {
        let ours = text(&replace_pairs(&chars(s), '\\', '"', '"'));
        assert_eq!(ours, s.replace("\\\"", "\""));
        let ours = text(&replace_pairs(&chars(s), '\\', '\\', '\\'));
        assert_eq!(ours, s.replace("\\\\", "\\"));
    }
}

#[test]
fn text_round_trips_through_characters() {
    let s = "h\u{e9}llo \u{1f980}";
    assert_eq!(chars_of(s), chars(s));
    assert_eq!(string_of(&chars(s)), s);
}
