use dpmm::text::{
    chars_of, is_space_char, join_with_spaces, replace_placeholder, split_whitespace,
    text_between,
};

fn strings(items: &[&str]) -> Vec<String> {
    items.iter().map(|s| s.to_string()).collect()
}

#[test]
fn whitespace_is_what_std_calls_whitespace() {
    let mut code: u32 = 0;
    while code <= 0x10FFFF {
        if let Some(c) = char::from_u32(code) {
            assert_eq!(is_space_char(c), c.is_whitespace(), "U+{:04X}", code);
        }
        code += 1;
    }
}

#[test]
fn placeholder_is_replaced() {
    assert_eq!(replace_placeholder("apt-get install $", "vim git"), "apt-get install vim git");
    assert_eq!(replace_placeholder("pacman -S $ --noconfirm", "vim"), "pacman -S vim --noconfirm");
}

#[test]
fn every_placeholder_is_replaced() {
    assert_eq!(replace_placeholder("$ and $", "x"), "x and x");
    assert_eq!(replace_placeholder("$", ""), "");
    assert_eq!(replace_placeholder("$$", "ab"), "abab");
}

#[test]
fn template_without_placeholder_is_kept() {
    assert_eq!(replace_placeholder("apt-get update", "vim"), "apt-get update");
    assert_eq!(replace_placeholder("", "vim"), "");
}

#[test]
fn replacement_agrees_with_std() {
    let templates = ["a $ b", "$", "x", "", "$a$", "päckchen $ ß", "  $  "];
    let values = ["", "v", "one two", "$", "ü"];
    for t in templates {
        for v in values {
            assert_eq!(replace_placeholder(t, v), t.replace("$", v));
        }
    }
}

#[test]
fn join_puts_one_space_between() {
    assert_eq!(join_with_spaces(&strings(&[])), "");
    assert_eq!(join_with_spaces(&strings(&["vim"])), "vim");
    assert_eq!(join_with_spaces(&strings(&["vim", "git"])), "vim git");
    assert_eq!(join_with_spaces(&strings(&["a", "", "b"])), "a  b");
}

#[test]
fn split_gives_the_words() {
    assert_eq!(split_whitespace("apt-get install vim git"), strings(&["apt-get", "install", "vim", "git"]));
    assert_eq!(split_whitespace("  a \t b\n"), strings(&["a", "b"]));
    assert_eq!(split_whitespace("one"), strings(&["one"]));
}

#[test]
fn split_of_blank_text_is_empty() {
    assert!(split_whitespace("").is_empty());
    assert!(split_whitespace(" \t\n ").is_empty());
}

#[test]
fn split_agrees_with_std() {
    let lines = [
        "",
        " ",
        "a",
        " a",
        "a ",
        "a b",
        "a\u{00A0}b",
        "a\u{3000}b\u{2003}c",
        "caf\u{e9} cr\u{e8}me",
        "x\u{200B}y z",
        "\u{0085}q\u{1680}",
    ];
    for line in lines {
        let expected: Vec<String> = line.split_whitespace().map(|w| w.to_string()).collect();
        assert_eq!(split_whitespace(line), expected);
    }
}

#[test]
fn split_does_no_quoting() {
    assert_eq!(split_whitespace("sh -c 'echo hi'"), strings(&["sh", "-c", "'echo", "hi'"]));
    assert_eq!(split_whitespace("a;b | c"), strings(&["a;b", "|", "c"]));
}

#[test]
fn characters_are_read_in_order() {
    assert_eq!(chars_of(""), Vec::<char>::new());
    assert_eq!(chars_of("a\u{e9}\u{1F600}z"), vec!['a', '\u{e9}', '\u{1F600}', 'z']);
}

#[test]
fn text_between_takes_the_characters_asked_for() {
    let chars = chars_of("gr\u{fc}n und blau");
    assert_eq!(text_between(&chars, 0, 4), "gr\u{fc}n");
    assert_eq!(text_between(&chars, 5, 8), "und");
    assert_eq!(text_between(&chars, 3, 3), "");
    assert_eq!(text_between(&chars, 0, chars.len()), "gr\u{fc}n und blau");
}
