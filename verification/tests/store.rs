use dpmm::model::Dpm;
use dpmm::names::generation_file_name;
use dpmm::store::{
    baseline, find_generation, generation_files, get_gen_file, initialize_if_empty,
    next_generation, LookupError,
};

fn strings(items: &[&str]) -> Vec<String> {
    items.iter().map(|s| s.to_string()).collect()
}

fn manager(name: &str, packages: &[&str]) -> Dpm {
    Dpm {
        name: Some(name.to_string()),
        update: None,
        upgrade: Some("up".to_string()),
        install: "i $".to_string(),
        uninstall: "u $".to_string(),
        supports_multi_args: Some(false),
        packages: strings(packages),
    }
}

fn listing(names: &[String]) -> Vec<(u32, String)> {
    generation_files(names).into_iter().map(|f| (f.number, f.name)).collect()
}

#[test]
fn empty_store_lists_nothing() {
    assert!(generation_files(&[]).is_empty());
    assert_eq!(get_gen_file(&[], 0), None);
}

#[test]
fn list_is_newest_first() {
    let names = strings(&["generation_1.toml", "generation_10.toml", "generation_2.toml", "generation_0.toml"]);
    assert_eq!(
        listing(&names),
        vec![
            (10, "generation_10.toml".to_string()),
            (2, "generation_2.toml".to_string()),
            (1, "generation_1.toml".to_string()),
            (0, "generation_0.toml".to_string()),
        ]
    );
}

#[test]
fn foreign_files_are_left_out() {
    let names = strings(&["README", "generation_1.toml", "generation_x.toml", "generation_0.toml", ".lock"]);
    assert_eq!(
        listing(&names),
        vec![(1, "generation_1.toml".to_string()), (0, "generation_0.toml".to_string())]
    );
    assert_eq!(get_gen_file(&names, 2), None);
}

#[test]
fn of_two_files_with_one_number_the_later_comes_first() {
    let names = strings(&["generation_1.toml", "generation_01.toml", "generation_0.toml"]);
    assert_eq!(
        listing(&names),
        vec![
            (1, "generation_01.toml".to_string()),
            (1, "generation_1.toml".to_string()),
            (0, "generation_0.toml".to_string()),
        ]
    );
}

#[test]
fn latest_is_the_highest_number() {
    let names = strings(&["generation_3.toml", "generation_12.toml", "generation_7.toml"]);
    assert_eq!(get_gen_file(&names, 0), Some(("generation_12.toml".to_string(), 12)));
}

#[test]
fn rollback_default_is_the_generation_before_the_latest() {
    let names = strings(&["generation_2.toml", "generation_0.toml", "generation_1.toml"]);
    assert_eq!(get_gen_file(&names, 1), Some(("generation_1.toml".to_string(), 1)));
    let names = strings(&["generation_0.toml", "generation_1.toml", "generation_2.toml"]);
    assert_eq!(get_gen_file(&names, 1), Some(("generation_1.toml".to_string(), 1)));
}

#[test]
fn nth_from_latest_ends_with_the_store() {
    let names = strings(&["generation_0.toml", "generation_1.toml", "generation_2.toml"]);
    assert_eq!(get_gen_file(&names, 2), Some(("generation_0.toml".to_string(), 0)));
    assert_eq!(get_gen_file(&names, 3), None);
    assert_eq!(get_gen_file(&names, usize::MAX), None);
}

#[test]
fn generation_is_found_by_number() {
    let names = strings(&["generation_0.toml", "junk", "generation_4.toml"]);
    assert_eq!(find_generation(&names, 4), Ok("generation_4.toml".to_string()));
    assert_eq!(find_generation(&names, 0), Ok("generation_0.toml".to_string()));
    assert_eq!(find_generation(&names, 1), Err(LookupError::UnknownGeneration));
    assert_eq!(find_generation(&[], 0), Err(LookupError::UnknownGeneration));
}

#[test]
fn next_number_is_one_more_than_the_latest() {
    assert_eq!(next_generation(&[]), Ok(0));
    assert_eq!(next_generation(&strings(&["generation_0.toml"])), Ok(1));
    assert_eq!(next_generation(&strings(&["generation_0.toml", "generation_7.toml", "generation_3.toml"])), Ok(8));
    assert_eq!(next_generation(&strings(&["notes"])), Ok(0));
}

#[test]
fn deleted_generations_are_not_reused() {
    let names = strings(&["generation_0.toml", "generation_5.toml"]);
    assert_eq!(next_generation(&names), Ok(6));
}

#[test]
fn appends_count_up_by_one() {
    let mut names: Vec<String> = vec![];
    for expected in 0u32..25 {
        let n = next_generation(&names).unwrap();
        assert_eq!(n, expected);
        names.push(generation_file_name(n));
        assert_eq!(get_gen_file(&names, 0), Some((generation_file_name(n), n)));
    }
}

#[test]
fn numbers_run_out_at_the_largest() {
    let names = strings(&["generation_2147483646.toml"]);
    assert_eq!(next_generation(&names), Ok(2147483647));
    let names = strings(&["generation_2147483647.toml"]);
    assert_eq!(next_generation(&names), Err(LookupError::NumbersExhausted));
}

#[test]
fn baseline_empties_every_manager() {
    let g = baseline(&[manager("apt", &["vim", "git"]), manager("brew", &[])]);
    assert_eq!(g.managers.len(), 2);
    assert_eq!(g.managers[0].name, Some("apt".to_string()));
    assert!(g.managers[0].packages.is_empty());
    assert_eq!(g.managers[0].install, "i $");
    assert_eq!(g.managers[0].uninstall, "u $");
    assert_eq!(g.managers[0].update, None);
    assert_eq!(g.managers[0].upgrade, Some("up".to_string()));
    assert_eq!(g.managers[0].supports_multi_args, Some(false));
    assert_eq!(g.managers[1].name, Some("brew".to_string()));
    assert!(g.managers[1].packages.is_empty());
}

#[test]
fn empty_store_is_started_with_the_baseline() {
    let managers = [manager("apt", &["vim"])];
    let g = initialize_if_empty(&strings(&["notes.txt"]), &managers).unwrap();
    assert_eq!(g.managers.len(), 1);
    assert!(g.managers[0].packages.is_empty());
}

#[test]
fn started_store_is_not_started_again() {
    let managers = [manager("apt", &["vim"])];
    assert!(initialize_if_empty(&[generation_file_name(0)], &managers).is_none());
    assert!(initialize_if_empty(&strings(&["generation_3.toml"]), &managers).is_none());
}
