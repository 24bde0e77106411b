use dpmm::diff::{contains_name, diff_unique, difference};
use std::collections::HashSet;

fn strings(items: &[&str]) -> Vec<String> {
    items.iter().map(|s| s.to_string()).collect()
}

fn set(items: &[String]) -> HashSet<String> {
    items.iter().cloned().collect()
}

#[test]
fn diff_gives_added_and_removed() {
    let old = strings(&["vim", "git", "curl"]);
    let new = strings(&["git", "htop", "tmux"]);
    let (added, removed) = diff_unique(&old, &new);
    assert_eq!(added, strings(&["htop", "tmux"]));
    assert_eq!(removed, strings(&["vim", "curl"]));
}

#[test]
fn diff_is_the_set_difference() {
    let lists = [
        strings(&[]),
        strings(&["a"]),
        strings(&["a", "b"]),
        strings(&["b", "a", "b"]),
        strings(&["c", "d", "a"]),
        strings(&["d", "d", "d"]),
    ];
    for old in &lists {
        for new in &lists {
            let (added, removed) = diff_unique(old, new);
            let a = set(old);
            let b = set(new);
            assert_eq!(set(&added), b.difference(&a).cloned().collect::<HashSet<String>>());
            assert_eq!(set(&removed), a.difference(&b).cloned().collect::<HashSet<String>>());
            assert!(set(&added).is_disjoint(&set(&removed)));
            assert_eq!(added.len(), set(&added).len());
            assert_eq!(removed.len(), set(&removed).len());
        }
    }
}

#[test]
fn diff_with_self_is_empty() {
    for list in [strings(&[]), strings(&["vim"]), strings(&["vim", "git", "vim"])] {
        let (added, removed) = diff_unique(&list, &list);
        assert!(added.is_empty());
        assert!(removed.is_empty());
    }
}

#[test]
fn diff_ignores_order_and_repeats() {
    let (added, removed) = diff_unique(&strings(&["a", "b"]), &strings(&["b", "a", "a"]));
    assert!(added.is_empty());
    assert!(removed.is_empty());
}

#[test]
fn diff_against_nothing_adds_each_once() {
    let (added, removed) = diff_unique(&[], &strings(&["vim", "git", "vim"]));
    assert_eq!(added, strings(&["vim", "git"]));
    assert!(removed.is_empty());
}

#[test]
fn diff_to_nothing_removes_all() {
    let (added, removed) = diff_unique(&strings(&["vim", "git"]), &[]);
    assert!(added.is_empty());
    assert_eq!(removed, strings(&["vim", "git"]));
}

#[test]
fn difference_keeps_first_order() {
    assert_eq!(
        difference(&strings(&["z", "a", "z", "m", "a"]), &strings(&["m"])),
        strings(&["z", "a"])
    );
}

#[test]
fn contains_name_finds_names() {
    let list = strings(&["vim", "git"]);
    assert!(contains_name(&list, &"git".to_string()));
    assert!(!contains_name(&list, &"gi".to_string()));
    assert!(!contains_name(&[], &"git".to_string()));
}
