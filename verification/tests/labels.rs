use tree_map_base::labels::{alphabet_code, format_type_key, next_seed, truncate_label, Language};

#[test]
fn alphabet_codes_count_like_spreadsheet_columns() {
    assert_eq!(alphabet_code(0), "A");
    assert_eq!(alphabet_code(1), "B");
    assert_eq!(alphabet_code(25), "Z");
    assert_eq!(alphabet_code(26), "AA");
    assert_eq!(alphabet_code(27), "AB");
    assert_eq!(alphabet_code(51), "AZ");
    assert_eq!(alphabet_code(52), "BA");
    assert_eq!(alphabet_code(701), "ZZ");
    assert_eq!(alphabet_code(702), "AAA");
    assert_eq!(alphabet_code(18277), "ZZZ");
    assert_eq!(alphabet_code(18278), "AAAA");
}

#[test]
fn alphabet_codes_are_all_different() {
    let mut seen = std::collections::HashSet::new();
    for index in 0..20_000usize {
        let code = alphabet_code(index);
        assert!(code.chars().all(|c| c.is_ascii_uppercase()));
        assert!(seen.insert(code));
    }
}

#[test]
fn labels_are_cut_with_three_dots() {
    assert_eq!(truncate_label("short", 10), "short");
    assert_eq!(truncate_label("exactly10!", 10), "exactly10!");
    assert_eq!(truncate_label("a longer label", 10), "a longe...");
    assert_eq!(truncate_label("abcdef", 4), "a...");
    assert_eq!(truncate_label("abcdef", 3), "...");
    assert_eq!(truncate_label("abcdef", 0), "...");
    assert_eq!(truncate_label("", 0), "");
    assert_eq!(truncate_label("\u{6587}\u{4ef6}\u{5939}\u{540d}\u{79f0}\u{5f88}\u{957f}", 5), "\u{6587}\u{4ef6}...");
    assert_eq!(truncate_label("\u{6587}\u{4ef6}", 2), "\u{6587}\u{4ef6}");
}

#[test]
fn language_toggles_between_the_two() {
    let mut language = Language::English;
    language.toggle();
    assert_eq!(language, Language::Chinese);
    language.toggle();
    assert_eq!(language, Language::English);
}

#[test]
fn type_keys_are_shown_with_a_dot() {
    assert_eq!(format_type_key("rs", Language::English), ".rs");
    assert_eq!(format_type_key("tar.gz", Language::Chinese), ".tar.gz");
    assert_eq!(format_type_key("(no_ext)", Language::English), "(no extension)");
    assert_eq!(
        format_type_key("(no_ext)", Language::Chinese),
        "\u{ff08}\u{65e0}\u{6269}\u{5c55}\u{540d}\u{ff09}"
    );
    assert_eq!(format_type_key("", Language::English), ".");
}

#[test]
fn seeds_follow_the_linear_congruential_step() {
    assert_eq!(next_seed(0), 1);
    assert_eq!(next_seed(1), 6364136223846793006);
    for seed in [2u64, 12345, u64::MAX, u64::MAX / 3, 0xA5A5_5A5A_1234_5678] {
        assert_eq!(next_seed(seed), seed.wrapping_mul(6364136223846793005).wrapping_add(1));
    }
}
