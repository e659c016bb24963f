use nix_bundler::inline::replace_all;
use nix_bundler::paths::parse_absolute;
use nix_bundler::paths::resolve_entry;
use nix_bundler::paths::resolve_import_path;
use nix_bundler::paths::FilePath;
use nix_bundler::scan::parse_imports;

fn path(s: &str) -> FilePath {
    parse_absolute(&s.as_bytes().to_vec()).unwrap()
}

fn text(p: &FilePath) -> String {
    String::from_utf8(p.to_text()).unwrap()
}

#[test]
fn parse_absolute_cleans_path() {
    assert_eq!(text(&path("/a/./b/../c//d")), "/a/c/d");
    assert_eq!(text(&path("/")), "/");
    assert_eq!(text(&path("/../x")), "/x");
}

#[test]
fn parse_absolute_rejects_relative() {
    assert!(parse_absolute(&b"a/b.nix".to_vec()).is_none());
    assert!(parse_absolute(&b"".to_vec()).is_none());
}

#[test]
fn resolve_entry_against_cwd() {
    let cwd = path("/work/dir");
    let resolved = resolve_entry(&b"main.nix".to_vec(), &cwd);
    assert_eq!(text(&resolved), "/work/dir/main.nix");
    let absolute = resolve_entry(&b"/other/main.nix".to_vec(), &cwd);
    assert_eq!(text(&absolute), "/other/main.nix");
}

#[test]
fn resolve_import_relative_to_parent() {
    let base = path("/base/x.nix");
    let r = resolve_import_path(&b"sub/y.nix".to_vec(), &base).unwrap();
    assert_eq!(text(&r), "/base/sub/y.nix");
}

#[test]
fn resolve_import_absolute_target() {
    let base = path("/base/x.nix");
    let r = resolve_import_path(&b"/x/../y.nix".to_vec(), &base).unwrap();
    assert_eq!(text(&r), "/y.nix");
}

#[test]
fn resolve_import_without_parent_fails() {
    let root = path("/");
    match resolve_import_path(&b"y.nix".to_vec(), &root) {
        Err(nix_bundler::errors::BundleError::PathError { file }) => {
            assert_eq!(String::from_utf8(file.to_text()).unwrap(), "/");
        },
        _ => panic!("expected a PathError"),
    }
}

#[test]
fn idempotent_normalization_pair() {
    let base = path("/base/x.nix");
    let a = resolve_import_path(&b"./a/../a/b.nix".to_vec(), &base).unwrap();
    let b = resolve_import_path(&b"a/b.nix".to_vec(), &base).unwrap();
    assert!(a.equals(&b));
    assert_eq!(text(&a), "/base/a/b.nix");
}

#[test]
fn scanner_finds_quoted_and_unquoted() {
    let content = b"import \"x.nix\"; import 'y'\nimport z;".to_vec();
    let found = parse_imports(&content);
    assert_eq!(found.len(), 3);
    assert_eq!(found[0].target, b"x.nix".to_vec());
    assert_eq!(found[0].line, 1);
    assert_eq!(found[0].literal, b"import \"x.nix\"".to_vec());
    assert_eq!(found[1].target, b"y".to_vec());
    assert_eq!(found[1].line, 1);
    assert_eq!(found[1].literal, b"import 'y'".to_vec());
    assert_eq!(found[2].target, b"z".to_vec());
    assert_eq!(found[2].line, 2);
    assert_eq!(found[2].literal, b"import z".to_vec());
}

#[test]
fn scanner_unclosed_quote_falls_back_to_token() {
    let content = b"import \"a".to_vec();
    let found = parse_imports(&content);
    assert_eq!(found.len(), 1);
    assert_eq!(found[0].target, b"\"a".to_vec());
    assert_eq!(found[0].literal, b"import \"a".to_vec());
}

#[test]
fn scanner_requires_whitespace_after_keyword() {
    let content = b"import\"x.nix\"".to_vec();
    let found = parse_imports(&content);
    assert_eq!(found.len(), 0);
}

#[test]
fn scanner_matches_keyword_inside_word() {
    let content = b"reimport \"x.nix\"".to_vec();
    let found = parse_imports(&content);
    assert_eq!(found.len(), 1);
    assert_eq!(found[0].target, b"x.nix".to_vec());
    assert_eq!(found[0].literal, b"import \"x.nix\"".to_vec());
}

#[test]
fn scanner_directive_does_not_cross_lines() {
    let content = b"import\n\"x.nix\"".to_vec();
    let found = parse_imports(&content);
    assert_eq!(found.len(), 0);
}

#[test]
fn replace_all_replaces_every_occurrence() {
    let r = replace_all(&b"abcabcab".to_vec(), &b"abc".to_vec(), &b"X".to_vec());
    assert_eq!(r, b"XXab".to_vec());
}

#[test]
fn replace_all_empty_pattern_changes_nothing() {
    let r = replace_all(&b"abc".to_vec(), &b"".to_vec(), &b"X".to_vec());
    assert_eq!(r, b"abc".to_vec());
}

#[test]
fn path_equality_is_segmentwise() {
    assert!(path("/a/b").equals(&path("/a//b/.")));
    assert!(!path("/a/b").equals(&path("/a/c")));
}
