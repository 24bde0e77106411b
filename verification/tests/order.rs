use dpmm::order::{comes_before, sort_names};

fn strings(items: &[&str]) -> Vec<String> {
    items.iter().map(|s| s.to_string()).collect()
}

#[test]
fn shorter_name_comes_first() {
    assert!(comes_before("", ""));
    assert!(comes_before("", "a"));
    assert!(!comes_before("a", ""));
    assert!(comes_before("git", "git"));
    assert!(comes_before("git", "gitk"));
    assert!(!comes_before("gitk", "git"));
}

#[test]
fn first_difference_decides() {
    assert!(comes_before("git", "vim"));
    assert!(!comes_before("vim", "git"));
    assert!(comes_before("Zsh", "bash"));
    assert!(comes_before("abc", "abd"));
    assert!(!comes_before("abd", "abc"));
}

#[test]
fn order_agrees_with_std() {
    let names = ["", "a", "A", "ab", "b", "\u{e9}", "e\u{301}", "z", "\u{1F600}", "\u{FFFD}", "10", "9"];
    for a in names {
        for b in names {
            assert_eq!(comes_before(a, b), a <= b, "{:?} {:?}", a, b);
        }
    }
}

#[test]
fn names_are_sorted() {
    assert_eq!(sort_names(&strings(&["vim", "git"])), strings(&["git", "vim"]));
    assert_eq!(sort_names(&strings(&["c", "a", "b", "a"])), strings(&["a", "a", "b", "c"]));
    assert!(sort_names(&[]).is_empty());
}

#[test]
fn sorting_agrees_with_std() {
    let lists = [
        strings(&["htop", "vim", "git", "curl", "zsh", "bash", "git"]),
        strings(&["b", "B", "a", "A", "", "ab"]),
        strings(&["3", "20", "100"]),
    ];
    for list in lists {
        let mut expected = list.clone();
        expected.sort();
        assert_eq!(sort_names(&list), expected);
    }
}
