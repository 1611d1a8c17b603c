use volt_hir::attrs::UnenforcedLint;
use volt_hir::extern_source::project_root;
use volt_hir::manifest_search::{find_manifest_dir_in, DirFacts, SearchEnv, SearchStop};
use volt_hir::paths::starts_with_path;

fn chars(s: &str) -> Vec<char> {
    s.chars().collect()
}

#[test]
fn lint_policy_reads_allow_and_warn_with_quotes_and_spaces() {
    assert_eq!(UnenforcedLint::parse("allow"), Some(UnenforcedLint::Allow));
    assert_eq!(UnenforcedLint::parse(" \"warn\" "), Some(UnenforcedLint::Warn));
    assert_eq!(UnenforcedLint::parse("\t\"allow\"\r"), Some(UnenforcedLint::Allow));
    assert_eq!(UnenforcedLint::parse("deny"), None);
    assert_eq!(UnenforcedLint::parse("Allow"), None);
    assert_eq!(UnenforcedLint::default(), UnenforcedLint::Warn);
}

#[test]
fn manifest_lint_table_selects_the_policy() {
    let text = "[package]\nname = \"p\"\n\n[lint]\nunenforced_attributes = \"allow\" # quiet\n";
    assert_eq!(UnenforcedLint::from_manifest(text), UnenforcedLint::Allow);
    let crlf = "[lint]\r\nunenforced_attributes = allow\r\n";
    assert_eq!(UnenforcedLint::from_manifest(crlf), UnenforcedLint::Allow);
}

#[test]
fn manifest_key_outside_the_lint_table_is_ignored() {
    let text = "[package]\nunenforced_attributes = \"allow\"\n[lint]\nother = 1\n";
    assert_eq!(UnenforcedLint::from_manifest(text), UnenforcedLint::Warn);
    let commented = "[lint]\n# unenforced_attributes = \"allow\"\n";
    assert_eq!(UnenforcedLint::from_manifest(commented), UnenforcedLint::Warn);
}

#[test]
fn unknown_or_missing_policy_is_warn() {
    assert_eq!(UnenforcedLint::from_manifest(""), UnenforcedLint::Warn);
    let typo = "[lint]\nunenforced_attributes = \"alow\"\nunenforced_attributes = \"allow\"\n";
    assert_eq!(UnenforcedLint::from_manifest(typo), UnenforcedLint::Warn);
}

fn dir(path: &str, manifest: bool, git: bool) -> DirFacts {
    DirFacts { path: path.to_string(), canonical: path.to_string(), has_manifest: manifest, has_git: git }
}

fn no_env() -> SearchEnv {
    SearchEnv { override_dir: None, homes: Vec::new() }
}

#[test]
fn manifest_in_the_start_directory_is_found() {
    let chain = vec![dir("/t/start", true, false), dir("/t", false, false)];
    assert_eq!(find_manifest_dir_in(&no_env(), false, &chain, &Vec::new()), Ok("/t/start".to_string()));
}

#[test]
fn manifest_at_the_git_root_is_found_from_a_subdirectory() {
    let chain = vec![dir("/t/repo/src", false, false), dir("/t/repo", true, true), dir("/t", false, false)];
    assert_eq!(find_manifest_dir_in(&no_env(), false, &chain, &Vec::new()), Ok("/t/repo".to_string()));
}

#[test]
fn stray_manifest_above_the_git_root_is_ignored() {
    let chain = vec![dir("/t/repo/src", false, false), dir("/t/repo", false, true), dir("/t", true, false)];
    assert_eq!(
        find_manifest_dir_in(&no_env(), false, &chain, &Vec::new()),
        Err(SearchStop::GitRoot("/t/repo".to_string()))
    );
}

#[test]
fn manifest_in_the_home_directory_is_not_a_project_root() {
    let chain = vec![dir("/home/u/projects/foo", false, false), dir("/home/u/projects", false, false), dir("/home/u", true, false)];
    let homes = vec!["/home/u".to_string()];
    let env = SearchEnv { override_dir: None, homes: homes.clone() };
    assert_eq!(
        find_manifest_dir_in(&env, false, &chain, &homes),
        Err(SearchStop::Home("/home/u".to_string()))
    );
}

#[test]
fn home_directory_manifest_is_read_when_the_search_starts_there() {
    let chain = vec![dir("/home/u", true, false), dir("/home", false, false)];
    let homes = vec!["/home/u".to_string()];
    let env = SearchEnv { override_dir: None, homes: homes.clone() };
    assert_eq!(find_manifest_dir_in(&env, false, &chain, &homes), Ok("/home/u".to_string()));
}

#[test]
fn override_directory_wins_over_a_nearer_manifest_and_the_ceiling() {
    let chain = vec![dir("/t/repo", true, true)];
    let env = SearchEnv { override_dir: Some("/t/override".to_string()), homes: Vec::new() };
    assert_eq!(find_manifest_dir_in(&env, true, &chain, &Vec::new()), Ok("/t/override".to_string()));
}

#[test]
fn override_directory_without_a_manifest_means_no_manifest() {
    let chain = vec![dir("/t/repo", true, false)];
    let env = SearchEnv { override_dir: Some("/t/empty".to_string()), homes: Vec::new() };
    assert_eq!(
        find_manifest_dir_in(&env, false, &chain, &Vec::new()),
        Err(SearchStop::Override("/t/empty".to_string()))
    );
}

#[test]
fn search_without_a_ceiling_is_exhausted() {
    let chain = vec![dir("a/b", false, false), dir("a", false, false)];
    assert_eq!(find_manifest_dir_in(&no_env(), false, &chain, &Vec::new()), Err(SearchStop::Exhausted));
}

#[test]
fn paths_compare_by_components() {
    assert!(starts_with_path(&chars("/a/b/c"), &chars("/a/b")));
    assert!(starts_with_path(&chars("/a/b"), &chars("/a/b/")));
    assert!(starts_with_path(&chars("/a//b/./c"), &chars("/a/b")));
    assert!(!starts_with_path(&chars("/a/bc"), &chars("/a/b")));
    assert!(!starts_with_path(&chars("a/b"), &chars("/a")));
    assert!(starts_with_path(&chars("./x"), &chars(".")));
    assert!(starts_with_path(&chars("/x"), &chars("/")));
}

#[test]
fn project_root_is_the_manifest_directory_above_the_base() {
    let (base, root) = project_root("/p/rtl".to_string(), Some("/p".to_string()));
    assert_eq!((base.as_str(), root.as_str()), ("/p/rtl", "/p"));
    let (base, root) = project_root("/q/rtl".to_string(), Some("/p".to_string()));
    assert_eq!((base.as_str(), root.as_str()), ("/q/rtl", "/q/rtl"));
    let (_, root) = project_root("/q".to_string(), None);
    assert_eq!(root, "/q");
}

#[test]
fn git_file_of_a_worktree_or_submodule_also_stops_the_search() {
    // /t holds the manifest; /t/sub holds a `.git` file (a submodule).
    let chain = vec![dir("/t/sub", false, true), dir("/t", true, false)];
    assert_eq!(
        find_manifest_dir_in(&no_env(), false, &chain, &Vec::new()),
        Err(SearchStop::GitRoot("/t/sub".to_string()))
    );
}
