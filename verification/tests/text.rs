use basics::text::first_word;

#[test]
fn first_word_of_two_words() {
    let s = String::from("hello world");
    assert_eq!(first_word(&s), "hello");
}

#[test]
fn first_word_of_one_word_is_all_of_it() {
    let s = String::from("hello");
    assert_eq!(first_word(&s), "hello");
}

#[test]
fn first_word_of_empty_text_is_empty() {
    let s = String::new();
    assert_eq!(first_word(&s), "");
}

#[test]
fn first_word_stops_at_the_first_space() {
    assert_eq!(first_word(&String::from(" leading")), "");
    assert_eq!(first_word(&String::from("a b c")), "a");
    assert_eq!(first_word(&String::from("trailing ")), "trailing");
    assert_eq!(first_word(&String::from("  ")), "");
    assert_eq!(first_word(&String::from("tab\tis no space")), "tab\tis");
}

#[test]
fn first_word_keeps_characters_of_several_bytes_whole() {
    assert_eq!(first_word(&String::from("h\u{e9}llo w\u{f6}rld")), "h\u{e9}llo");
    assert_eq!(first_word(&String::from("\u{65e5}\u{672c}\u{8a9e} text")), "\u{65e5}\u{672c}\u{8a9e}");
    assert_eq!(first_word(&String::from("\u{1f600}\u{1f600}")), "\u{1f600}\u{1f600}");
    assert_eq!(first_word(&String::from("no\u{a0}break space")), "no\u{a0}break");
}
