use dpmm::model::{copy_optional, copy_texts, Dpm, Generation};
use dpmm::workflow::{names_of, reconcile_all, selects};

fn strings(items: &[&str]) -> Vec<String> {
    items.iter().map(|s| s.to_string()).collect()
}

fn pip() -> Dpm {
    Dpm {
        name: Some("pip".to_string()),
        update: None,
        upgrade: Some("pip install --upgrade pip".to_string()),
        install: "pip install $".to_string(),
        uninstall: "pip uninstall -y $".to_string(),
        supports_multi_args: None,
        packages: strings(&["requests", "flask"]),
    }
}

#[test]
fn copy_keeps_every_field() {
    let m = pip();
    let c = m.copy();
    assert_eq!(c.name, m.name);
    assert_eq!(c.update, m.update);
    assert_eq!(c.upgrade, m.upgrade);
    assert_eq!(c.install, m.install);
    assert_eq!(c.uninstall, m.uninstall);
    assert_eq!(c.supports_multi_args, m.supports_multi_args);
    assert_eq!(c.packages, m.packages);
}

#[test]
fn emptied_keeps_all_but_the_packages() {
    let m = pip();
    let e = m.emptied();
    assert_eq!(e.name, m.name);
    assert_eq!(e.upgrade, m.upgrade);
    assert_eq!(e.install, m.install);
    assert_eq!(e.uninstall, m.uninstall);
    assert!(e.packages.is_empty());
    assert_eq!(m.packages.len(), 2);
}

#[test]
fn manager_batches_unless_it_says_no() {
    let mut m = pip();
    assert!(m.batches());
    m.supports_multi_args = Some(true);
    assert!(m.batches());
    m.supports_multi_args = Some(false);
    assert!(!m.batches());
}

#[test]
fn generation_copy_keeps_the_managers_in_order() {
    let mut other = pip();
    other.name = Some("pipx".to_string());
    other.packages = strings(&["black"]);
    let g = Generation { managers: vec![pip(), other] };
    let c = g.copy();
    assert_eq!(c.managers.len(), 2);
    assert_eq!(c.managers[0].name, Some("pip".to_string()));
    assert_eq!(c.managers[0].packages, strings(&["requests", "flask"]));
    assert_eq!(c.managers[1].name, Some("pipx".to_string()));
    assert_eq!(c.managers[1].packages, strings(&["black"]));
}

#[test]
fn plain_copies() {
    assert_eq!(copy_optional(&None), None);
    assert_eq!(copy_optional(&Some("x".to_string())), Some("x".to_string()));
    assert_eq!(copy_texts(&strings(&["a", "b", "a"])), strings(&["a", "b", "a"]));
    assert!(copy_texts(&[]).is_empty());
}

#[test]
fn selector_names_one_manager_or_all() {
    let m = pip();
    assert!(selects(&m, "pip"));
    assert!(selects(&m, "all"));
    assert!(!selects(&m, "pi"));
    assert!(!selects(&m, "ALL"));
    let mut unnamed = pip();
    unnamed.name = None;
    assert!(!selects(&unnamed, "pip"));
    assert!(selects(&unnamed, "all"));
}

#[test]
fn names_are_listed_when_every_manager_has_one() {
    let mut other = pip();
    other.name = Some("pipx".to_string());
    let g = Generation { managers: vec![pip(), other] };
    assert_eq!(names_of(&g), Some(strings(&["pip", "pipx"])));
    assert_eq!(names_of(&Generation { managers: vec![] }), Some(vec![]));
    let mut unnamed = pip();
    unnamed.name = None;
    assert_eq!(names_of(&Generation { managers: vec![pip(), unnamed] }), None);
}

#[test]
fn change_of_any_manager_counts() {
    let mut grown = pip();
    grown.packages.push("numpy".to_string());
    let mut other = pip();
    other.name = Some("pipx".to_string());
    let latest = Generation { managers: vec![pip(), other.copy()] };
    let first = Generation { managers: vec![grown.copy(), other.copy()] };
    let last = Generation { managers: vec![other.copy(), grown.copy()] };
    let none = Generation { managers: vec![other.copy(), pip()] };
    assert!(reconcile_all(&latest, &first).1);
    assert!(reconcile_all(&latest, &last).1);
    assert!(!reconcile_all(&latest, &none).1);
    assert_eq!(reconcile_all(&latest, &first).0.len(), 2);
}
