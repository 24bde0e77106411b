use dpmm::names::{decimal_string, extract_gen, generation_file_name, MAX_GENERATION};

fn by_std(name: &str) -> Option<u32> {
    let n = name
        .trim_start_matches("generation_")
        .trim_end_matches(".toml")
        .parse::<i32>()
        .unwrap_or(-1);
    if n < 0 {
        None
    } else {
        Some(n as u32)
    }
}

#[test]
fn number_is_read_from_the_name() {
    assert_eq!(extract_gen("generation_0.toml"), Some(0));
    assert_eq!(extract_gen("generation_5.toml"), Some(5));
    assert_eq!(extract_gen("generation_120.toml"), Some(120));
    assert_eq!(extract_gen("generation_007.toml"), Some(7));
}

#[test]
fn foreign_names_give_nothing() {
    assert_eq!(extract_gen(""), None);
    assert_eq!(extract_gen("notes.txt"), None);
    assert_eq!(extract_gen("generation_.toml"), None);
    assert_eq!(extract_gen("generation_x.toml"), None);
    assert_eq!(extract_gen("generation_1a.toml"), None);
    assert_eq!(extract_gen("generation_1 .toml"), None);
    assert_eq!(extract_gen("generation_-3.toml"), None);
    assert_eq!(extract_gen("generation_-1.toml"), None);
    assert_eq!(extract_gen("generation_+.toml"), None);
    assert_eq!(extract_gen("generation_1.toml.bak"), None);
}

#[test]
fn prefix_and_suffix_are_optional_and_may_repeat() {
    assert_eq!(extract_gen("5"), Some(5));
    assert_eq!(extract_gen("generation_5"), Some(5));
    assert_eq!(extract_gen("5.toml"), Some(5));
    assert_eq!(extract_gen("generation_generation_5.toml.toml"), Some(5));
}

#[test]
fn signs_are_read_as_an_integer_parser_reads_them() {
    assert_eq!(extract_gen("generation_+7.toml"), Some(7));
    assert_eq!(extract_gen("generation_-0.toml"), Some(0));
    assert_eq!(extract_gen("generation_+-7.toml"), None);
}

#[test]
fn numbers_stop_at_the_largest() {
    assert_eq!(MAX_GENERATION, 2147483647);
    assert_eq!(extract_gen("generation_2147483647.toml"), Some(2147483647));
    assert_eq!(extract_gen("generation_2147483648.toml"), None);
    assert_eq!(extract_gen("generation_4294967296.toml"), None);
    assert_eq!(extract_gen("generation_99999999999999999999999.toml"), None);
    assert_eq!(extract_gen("generation_00000000000000000000012.toml"), Some(12));
    assert_eq!(extract_gen("generation_-2147483648.toml"), None);
}

#[test]
fn reading_agrees_with_std() {
    let names = [
        "generation_0.toml",
        "generation_42.toml",
        "generation_generation_3.toml",
        "generation_3.toml.toml",
        "generation_",
        ".toml",
        "generation_.toml",
        "generation_+12.toml",
        "generation_-0.toml",
        "generation_-00.toml",
        "generation_-12.toml",
        "generation_--1.toml",
        "generation_1_2.toml",
        "generation_2147483647.toml",
        "generation_2147483648.toml",
        "generation_\u{0663}.toml",
        "gen_3.toml",
        "generation_3.tom",
        "3",
        "+",
        "-",
        " 3",
    ];
    for name in names {
        assert_eq!(extract_gen(name), by_std(name), "{}", name);
    }
}

#[test]
fn file_name_is_written() {
    assert_eq!(generation_file_name(0), "generation_0.toml");
    assert_eq!(generation_file_name(1), "generation_1.toml");
    assert_eq!(generation_file_name(10), "generation_10.toml");
    assert_eq!(generation_file_name(2147483647), "generation_2147483647.toml");
}

#[test]
fn decimal_is_written() {
    for n in [0u32, 1, 9, 10, 11, 99, 100, 101, 65535, 4294967295] {
        assert_eq!(decimal_string(n), n.to_string());
    }
}

#[test]
fn written_name_gives_its_number_back() {
    for n in [0u32, 1, 9, 10, 99, 100, 12345, 2147483647] {
        assert_eq!(extract_gen(&generation_file_name(n)), Some(n));
    }
}
