use dls::strings::{
    extension_of, is_eligible_ext, is_relative_specifier, join_under, parent_dir, strip_root,
};

#[test]
fn extension_of_plain_file() {
    assert_eq!(extension_of(&"a.ts".to_string()), "ts".to_string());
    assert_eq!(extension_of(&"src/lib.tsx".to_string()), "tsx".to_string());
    assert_eq!(extension_of(&"a.tar.gz".to_string()), "gz".to_string());
}

#[test]
fn extension_of_without_dot_is_empty() {
    assert_eq!(extension_of(&"Makefile".to_string()), "".to_string());
    assert_eq!(extension_of(&"dir.d/file".to_string()), "".to_string());
}

#[test]
fn extension_of_hidden_file_is_empty() {
    assert_eq!(extension_of(&".gitignore".to_string()), "".to_string());
    assert_eq!(extension_of(&"src/.env".to_string()), "".to_string());
}

#[test]
fn eligible_extensions_are_the_script_ones() {
    for good in ["ts", "tsx", "js", "jsx", "json"] {
        assert!(is_eligible_ext(&good.to_string()));
    }
    for bad in ["", "png", "md", "rs", "tsx2"] {
        assert!(!is_eligible_ext(&bad.to_string()));
    }
}

#[test]
fn relative_specifiers_start_with_a_dot() {
    assert!(is_relative_specifier(&"./b".to_string()));
    assert!(is_relative_specifier(&"../up".to_string()));
    assert!(!is_relative_specifier(&"react".to_string()));
    assert!(!is_relative_specifier(&"".to_string()));
}

#[test]
fn join_under_inserts_one_separator() {
    assert_eq!(join_under(&"/proj".to_string(), &"a.ts".to_string()), "/proj/a.ts".to_string());
    assert_eq!(join_under(&"/proj/".to_string(), &"a.ts".to_string()), "/proj/a.ts".to_string());
    assert_eq!(join_under(&"".to_string(), &"a.ts".to_string()), "a.ts".to_string());
}

#[test]
fn parent_dir_drops_the_last_component() {
    assert_eq!(parent_dir(&"/proj/src/a.ts".to_string()), "/proj/src".to_string());
    assert_eq!(parent_dir(&"/a.ts".to_string()), "/".to_string());
    assert_eq!(parent_dir(&"a.ts".to_string()), "".to_string());
}

#[test]
fn strip_root_requires_the_root_prefix() {
    assert_eq!(
        strip_root(&"/proj/src/a.ts".to_string(), &"/proj".to_string()),
        Some("src/a.ts".to_string())
    );
    assert_eq!(
        strip_root(&"/proj/src/a.ts".to_string(), &"/proj/".to_string()),
        Some("src/a.ts".to_string())
    );
    assert_eq!(strip_root(&"/other/a.ts".to_string(), &"/proj".to_string()), None);
    assert_eq!(strip_root(&"/proj".to_string(), &"/proj".to_string()), None);
}
