use tree_map_base::paths::{file_type_key, is_white_space, normalize_path_key, path_within_root};

fn extension_by_std(path: &str) -> String {
    std::path::Path::new(path)
        .extension()
        .and_then(|value| value.to_str())
        .map(|value| value.trim().to_ascii_lowercase())
        .filter(|value| !value.is_empty())
        .unwrap_or_else(|| "(no_ext)".to_string())
}

#[test]
fn path_keys_use_slashes_and_small_letters() {
    assert_eq!(normalize_path_key("C:\\Users\\Me\\File.TXT"), "c:/users/me/file.txt");
    assert_eq!(normalize_path_key("/Data/Root"), "/data/root");
    assert_eq!(normalize_path_key(""), "");
    assert_eq!(normalize_path_key("\u{c4}\u{d6}/Z"), "\u{c4}\u{d6}/z");
    for path in ["a\\B/c", "MiXeD", "@[`{", "AZaz"] {
        assert_eq!(
            normalize_path_key(path),
            path.replace('\\', "/").to_ascii_lowercase()
        );
    }
}

#[test]
fn a_path_is_within_its_root_and_what_lies_below() {
    assert!(path_within_root("/data/root", "/data/root"));
    assert!(path_within_root("/data/root/a/b", "/data/root"));
    assert!(path_within_root("/DATA/Root/a", "/data/root"));
    assert!(path_within_root("C:\\Data\\x", "c:/data"));
    assert!(!path_within_root("/data/rootless", "/data/root"));
    assert!(!path_within_root("/data", "/data/root"));
    assert!(!path_within_root("/other/root", "/data/root"));
    assert!(path_within_root("/etc", "/"));
    assert!(path_within_root("/", "/"));
    assert!(path_within_root("/data/root/", "/data/root"));
    assert!(path_within_root("/data/root/x", "/data/root/"));
    assert!(!path_within_root("/data/root", "/data/root/"));
    assert!(path_within_root("", ""));
    assert!(path_within_root("/abs", ""));
    assert!(!path_within_root("rel", ""));
}

#[test]
fn white_space_is_what_the_standard_library_calls_so() {
    for code in 0..=0x10FFFFu32 {
        if let Some(ch) = char::from_u32(code) {
            assert_eq!(is_white_space(ch), ch.is_whitespace(), "U+{:04X}", code);
        }
    }
}

#[test]
fn file_types_go_by_the_extension() {
    assert_eq!(file_type_key("/r/a/photo.JPG"), "jpg");
    assert_eq!(file_type_key("archive.tar.gz"), "gz");
    assert_eq!(file_type_key("/r/Makefile"), "(no_ext)");
    assert_eq!(file_type_key("/r/.gitignore"), "(no_ext)");
    assert_eq!(file_type_key("/r/.config.toml"), "toml");
    assert_eq!(file_type_key("/r/trailing."), "(no_ext)");
    assert_eq!(file_type_key("/r/odd. Txt "), "txt");
    assert_eq!(file_type_key("/r/blank.  "), "(no_ext)");
    assert_eq!(file_type_key("/r.d/name"), "(no_ext)");
    assert_eq!(file_type_key(""), "(no_ext)");
    assert_eq!(file_type_key("/"), "(no_ext)");
    assert_eq!(file_type_key(".."), "(no_ext)");
    assert_eq!(file_type_key("a/.."), "(no_ext)");
    assert_eq!(file_type_key("/r/dir.ext/"), "ext");
    assert_eq!(file_type_key("/r/file.MixED"), "mixed");
}

#[test]
fn file_types_agree_with_the_standard_library() {
    let names = [
        "a", "a.b", ".a", ".a.b", "a.", "a..", "..a", "a.b.c", "a b.c d", "a.\tb\n", "..", ".",
        "...", "a.B", "x. ", "x.\u{a0}y\u{3000}", "x.\u{3000}", "name.TAR.GZ", "q.\u{c4}", "-.-",
    ];
    let dirs = ["", "/", "d/", "/d.e/f/", "./", "/x/./", "d//"];
    let tails = ["", "/", "/.", "//"];
    for dir in dirs {
        for name in names {
            for tail in tails {
                let path = format!("{dir}{name}{tail}");
                assert_eq!(file_type_key(&path), extension_by_std(&path), "path {:?}", path);
            }
        }
    }
}
