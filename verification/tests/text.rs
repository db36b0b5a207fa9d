use tree_map_base::model::child_path;
use tree_map_base::text::{begins_with, chars_of, text_of, to_lower_ascii};

#[test]
fn text_to_characters_and_back() {
    let chars = chars_of("a\u{e9}\u{6587}/z");
    assert_eq!(chars, vec!['a', '\u{e9}', '\u{6587}', '/', 'z']);
    assert!(chars_of("").is_empty());
    assert_eq!(text_of(&chars, 0, 5), "a\u{e9}\u{6587}/z");
    assert_eq!(text_of(&chars, 1, 3), "\u{e9}\u{6587}");
    assert_eq!(text_of(&chars, 2, 2), "");
}

#[test]
fn a_text_begins_with_its_prefixes() {
    let text = chars_of("/data/root/a");
    let root = chars_of("/data/root");
    assert!(begins_with(&text, &root, None));
    assert!(begins_with(&text, &root, Some('/')));
    assert!(!begins_with(&text, &root, Some('a')));
    assert!(begins_with(&root, &root, None));
    assert!(!begins_with(&root, &root, Some('/')));
    assert!(!begins_with(&root, &text, None));
    assert!(begins_with(&text, &Vec::new(), None));
    assert!(begins_with(&text, &Vec::new(), Some('/')));
    assert!(!begins_with(&Vec::new(), &Vec::new(), Some('/')));
    assert!(begins_with(&Vec::new(), &Vec::new(), None));
    assert!(!begins_with(&text, &chars_of("/data/rook"), None));
}

#[test]
fn child_paths_are_joined_with_one_slash() {
    assert_eq!(child_path(&"/r".to_string(), &"a".to_string()), "/r/a");
    assert_eq!(child_path(&"/r/".to_string(), &"a".to_string()), "/r/a");
    assert_eq!(child_path(&"/".to_string(), &"a".to_string()), "/a");
    assert_eq!(child_path(&"".to_string(), &"a".to_string()), "a");
    assert_eq!(child_path(&"r".to_string(), &"".to_string()), "r/");
}

#[test]
fn ascii_capitals_become_small_letters_and_nothing_else_changes() {
    assert_eq!(to_lower_ascii('A'), 'a');
    assert_eq!(to_lower_ascii('Z'), 'z');
    assert_eq!(to_lower_ascii('@'), '@');
    assert_eq!(to_lower_ascii('['), '[');
    assert_eq!(to_lower_ascii('\u{c4}'), '\u{c4}');
    for code in 0..=0x10FFFFu32 {
        if let Some(ch) = char::from_u32(code) {
            assert_eq!(to_lower_ascii(ch), ch.to_ascii_lowercase(), "U+{:04X}", code);
        }
    }
}
