use nix_bundler::bundle_nix_files;
use nix_bundler::errors::BundleError;
use nix_bundler::graph::build_graph;
use nix_bundler::graph::BuildOutcome;
use nix_bundler::graph::FileStore;
use nix_bundler::inline::inline_imports;
use nix_bundler::paths::parse_absolute;
use nix_bundler::paths::FilePath;
use nix_bundler::BundleOutcome;

fn path(s: &str) -> FilePath {
    parse_absolute(&s.as_bytes().to_vec()).unwrap()
}

fn text(p: &FilePath) -> String {
    String::from_utf8(p.to_text()).unwrap()
}

fn store_of(files: &[(&str, &str)]) -> FileStore {
    let mut st = FileStore::new();
    for (p, c) in files {
        st.add(path(p), Some(c.as_bytes().to_vec()));
    }
    st
}

/// Runs the bundle against a simulated disk, answering each file request
/// from `disk`, and counts how many times storage is read.
fn run(entry: &str, cwd: &str, disk: &[(&str, &str)]) -> (Result<String, BundleError>, usize) {
    let cwd_path = path(cwd);
    let mut st = FileStore::new();
    let mut reads: usize = 0;
    loop {
        match bundle_nix_files(&entry.as_bytes().to_vec(), &cwd_path, &st) {
            BundleOutcome::Done(t) => return (Ok(String::from_utf8(t).unwrap()), reads),
            BundleOutcome::NeedFile(p) => {
                reads += 1;
                let wanted = text(&p);
                let found = disk.iter().find(|(dp, _)| *dp == wanted).map(|(_, c)| {
                    c.as_bytes().to_vec()
                });
                st.add(p, found);
            },
            BundleOutcome::Failed(e) => return (Err(e), reads),
        }
    }
}

#[test]
fn single_import_is_substituted() {
    let (out, _) = run(
        "main.nix",
        "/w",
        &[("/w/main.nix", "import \"lib.nix\";"), ("/w/lib.nix", "{ x = 1; }")],
    );
    assert_eq!(out.unwrap(), "{ x = 1; };");
}

#[test]
fn diamond_reads_shared_file_once() {
    let (out, reads) = run(
        "main.nix",
        "/w",
        &[
            ("/w/main.nix", "import \"a.nix\"\nimport \"b.nix\"\n"),
            ("/w/a.nix", "A[import \"common.nix\"]"),
            ("/w/b.nix", "B[import \"common.nix\"]"),
            ("/w/common.nix", "C"),
        ],
    );
    assert_eq!(out.unwrap(), "A[C]\nB[C]\n");
    assert_eq!(reads, 4);
}

#[test]
fn missing_import_fails_naming_the_path() {
    let (out, reads) = run("main.nix", "/w", &[("/w/main.nix", "import \"missing.nix\"")]);
    match out {
        Err(BundleError::FileNotFoundError { path: p }) => {
            assert_eq!(text(&p), "/w/missing.nix");
        },
        _ => panic!("expected FileNotFoundError"),
    }
    assert_eq!(reads, 2);
}

#[test]
fn self_import_expands_to_empty() {
    let (out, _) = run("main.nix", "/w", &[("/w/main.nix", "X import \"main.nix\" Y")]);
    assert_eq!(out.unwrap(), "X  Y");
}

#[test]
fn cycle_terminates_with_empty_back_reference() {
    let (out, _) = run(
        "a.nix",
        "/w",
        &[("/w/a.nix", "A<import \"b.nix\">"), ("/w/b.nix", "B<import \"a.nix\">")],
    );
    assert_eq!(out.unwrap(), "A<B<>>");
}

#[test]
fn three_imports_keep_their_textual_order() {
    let (out, _) = run(
        "main.nix",
        "/w",
        &[
            ("/w/main.nix", "1 import \"a.nix\" 2 import \"b.nix\" 3 import \"c.nix\" 4"),
            ("/w/a.nix", "AA"),
            ("/w/b.nix", "BB"),
            ("/w/c.nix", "CC"),
        ],
    );
    assert_eq!(out.unwrap(), "1 AA 2 BB 3 CC 4");
}

#[test]
fn build_graph_covers_the_closure() {
    let st = store_of(&[
        ("/w/main.nix", "import \"a.nix\""),
        ("/w/a.nix", "import \"b.nix\""),
        ("/w/b.nix", "leaf"),
        ("/w/unrelated.nix", "never imported"),
    ]);
    match build_graph(&path("/w/main.nix"), &st) {
        BuildOutcome::Built(g) => {
            assert_eq!(g.nodes.len(), 3);
            assert!(g.contains_key(&path("/w/main.nix")));
            assert!(g.contains_key(&path("/w/a.nix")));
            assert!(g.contains_key(&path("/w/b.nix")));
            assert!(!g.contains_key(&path("/w/unrelated.nix")));
        },
        _ => panic!("expected a built graph"),
    }
}

#[test]
fn build_graph_requests_each_file_once() {
    let st = store_of(&[("/w/main.nix", "import \"a.nix\"\nimport \"a.nix\"")]);
    match build_graph(&path("/w/main.nix"), &st) {
        BuildOutcome::NeedFile(p) => {
            assert_eq!(text(&p), "/w/a.nix");
        },
        _ => panic!("expected a file request"),
    }
}

#[test]
fn inline_imports_on_built_graph() {
    let st = store_of(&[("/w/main.nix", "(import \"inner.nix\")"), ("/w/inner.nix", "42")]);
    match build_graph(&path("/w/main.nix"), &st) {
        BuildOutcome::Built(g) => {
            let out = inline_imports(&path("/w/main.nix"), &g).unwrap();
            assert_eq!(String::from_utf8(out).unwrap(), "(42)");
        },
        _ => panic!("expected a built graph"),
    }
}

#[test]
fn relative_import_from_root_file_fails() {
    let (out, _) = run(
        "main.nix",
        "/w",
        &[("/w/main.nix", "import \"/\""), ("/", "import \"x.nix\"")],
    );
    match out {
        Err(BundleError::PathError { file }) => {
            assert_eq!(text(&file), "/");
        },
        _ => panic!("expected a PathError"),
    }
}

#[test]
fn nested_directories_resolve_relative_to_each_file() {
    let (out, _) = run(
        "main.nix",
        "/w",
        &[
            ("/w/main.nix", "import \"sub/a.nix\""),
            ("/w/sub/a.nix", "[import \"b.nix\"]"),
            ("/w/sub/b.nix", "inner"),
        ],
    );
    assert_eq!(out.unwrap(), "[inner]");
}

#[test]
fn duplicate_literal_replaces_both_occurrences() {
    let (out, _) = run(
        "main.nix",
        "/w",
        &[("/w/main.nix", "import \"a.nix\" import \"a.nix\""), ("/w/a.nix", "Z")],
    );
    assert_eq!(out.unwrap(), "Z Z");
}

#[test]
fn inline_on_wrong_graph_reports_missing_node() {
    let st = store_of(&[("/w/a.nix", "plain")]);
    match build_graph(&path("/w/a.nix"), &st) {
        BuildOutcome::Built(g) => {
            match inline_imports(&path("/w/other.nix"), &g) {
                Err(BundleError::MissingNodeError { path: p }) => {
                    assert_eq!(text(&p), "/w/other.nix");
                },
                _ => panic!("expected MissingNodeError"),
            }
        },
        _ => panic!("expected a built graph"),
    }
}
