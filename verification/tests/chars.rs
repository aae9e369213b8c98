use noumisou::util::{utf8_width, IntoChars};

#[test]
fn hands_out_each_character_once_and_in_order() {
    let mut chars = IntoChars::new(String::from("a+é日\u{1F600}]"));
    let mut seen = Vec::new();
    while let Some(c) = chars.next() {
        seen.push(c);
    }
    assert_eq!(seen, vec!['a', '+', 'é', '日', '\u{1F600}', ']']);
    assert_eq!(chars.next(), None);
}

#[test]
fn an_empty_text_has_no_character() {
    let mut chars = IntoChars::new(String::new());
    assert_eq!(chars.next(), None);
    assert_eq!(chars.next(), None);
}

#[test]
fn the_width_is_that_of_the_encoding() {
    assert_eq!(utf8_width('a'), 1);
    assert_eq!(utf8_width('\u{7f}'), 1);
    assert_eq!(utf8_width('\u{80}'), 2);
    assert_eq!(utf8_width('é'), 2);
    assert_eq!(utf8_width('\u{7ff}'), 2);
    assert_eq!(utf8_width('\u{800}'), 3);
    assert_eq!(utf8_width('日'), 3);
    assert_eq!(utf8_width('\u{ffff}'), 3);
    assert_eq!(utf8_width('\u{10000}'), 4);
    assert_eq!(utf8_width('\u{1F600}'), 4);
    for c in ['a', 'é', '日', '\u{1F600}', '\u{10ffff}'] {
        assert_eq!(utf8_width(c), c.len_utf8());
    }
}
