use latest_launcher::pattern::{plan, SearchPlan};
use latest_launcher::resolve::{confirm_exists, select_candidate, FsEntry, ResolveError};
use latest_launcher::text::{last_segment, parent_dir, split_at_char};
use latest_launcher::version::{key_less, parse_component, parse_version};

fn dir(name: &str) -> FsEntry {
    FsEntry { name: String::from(name), is_dir: true }
}

fn file(name: &str) -> FsEntry {
    FsEntry { name: String::from(name), is_dir: false }
}

fn scan_parts(p: SearchPlan) -> (String, String, String) {
    match p {
        SearchPlan::Scan { root, fragment, sub_path } => (root, fragment, sub_path),
        SearchPlan::Direct { .. } => panic!("expected a scan plan"),
    }
}

#[test]
fn version_order_is_numeric_not_textual() {
    let nine = parse_version("9.0").unwrap();
    let ten = parse_version("10.0").unwrap();
    assert!(key_less(&nine, &ten));
    assert!(!key_less(&ten, &nine));
    // As text "10.0" sorts before "9.0"; as versions it must not.
    assert!("10.0" < "9.0");
}

#[test]
fn parse_version_reads_components() {
    assert_eq!(parse_version("12.4.0"), Some(vec![12, 4, 0]));
    assert_eq!(parse_version("4294967295"), Some(vec![u32::MAX]));
    assert_eq!(parse_version("4294967296"), None);
    assert_eq!(parse_version("1..2"), None);
    assert_eq!(parse_version("1.a"), None);
    assert_eq!(parse_version(""), None);
}

#[test]
fn parse_component_is_decimal() {
    assert_eq!(parse_component("0"), Some(0));
    assert_eq!(parse_component("0042"), Some(42));
    assert_eq!(parse_component("x1"), None);
    assert_eq!(parse_component(""), None);
}

#[test]
fn shorter_key_precedes_its_extension() {
    let short = parse_version("1.2").unwrap();
    let long = parse_version("1.2.0").unwrap();
    assert!(key_less(&short, &long));
    assert!(!key_less(&long, &short));
}

#[test]
fn plan_without_wildcard_is_direct() {
    match plan("C:/Apps/Tool.exe", "c:\\work") {
        SearchPlan::Direct { path } => assert_eq!(path, "c:\\apps\\tool.exe"),
        SearchPlan::Scan { .. } => panic!("expected a direct plan"),
    }
}

#[test]
fn plan_splits_pattern_around_wildcard() {
    let (root, fragment, sub) = scan_parts(plan("C:\\Apps\\Ver*\\bin\\Tool.exe", "c:\\work"));
    assert_eq!(root, "c:\\apps");
    assert_eq!(fragment, "ver");
    assert_eq!(sub, "\\bin\\tool.exe");
}

#[test]
fn plan_resolves_relative_root_against_cwd() {
    let (root, fragment, sub) = scan_parts(plan("root\\*\\tool.exe", "c:\\base"));
    assert_eq!(root, "c:\\base\\root\\");
    assert_eq!(fragment, "");
    assert_eq!(sub, "\\tool.exe");
}

#[test]
fn plan_keeps_drive_rooted_search_path() {
    let (root, _, _) = scan_parts(plan("x:\\apps\\*\\t.exe", "c:\\base"));
    assert_eq!(root, "x:\\apps");
}

#[test]
fn plan_with_empty_search_root_uses_cwd() {
    let (root, fragment, sub) = scan_parts(plan("Ver*\\t.exe", "C:\\Work"));
    assert_eq!(root, "c:\\work\\");
    assert_eq!(fragment, "ver");
    assert_eq!(sub, "\\t.exe");
}

#[test]
fn plan_only_first_wildcard_counts() {
    let (root, fragment, sub) = scan_parts(plan("c:\\a\\1*\\b*\\c.exe", "c:\\w"));
    assert_eq!(root, "c:\\a");
    assert_eq!(fragment, "1");
    assert_eq!(sub, "\\b*\\c.exe");
}

#[test]
fn plan_accepts_mixed_separators() {
    let (root, fragment, sub) = scan_parts(plan("c:/apps/1*/t.exe", "c:\\w"));
    assert_eq!(root, "c:\\apps");
    assert_eq!(fragment, "1");
    assert_eq!(sub, "\\t.exe");
}

#[test]
fn direct_plan_still_needs_the_path_to_exist() {
    let path = match plan("c:\\apps\\tool.exe", "c:\\w") {
        SearchPlan::Direct { path } => path,
        SearchPlan::Scan { .. } => panic!("expected a direct plan"),
    };
    let r = confirm_exists(path, false);
    assert_eq!(r.unwrap_err(), ResolveError::NoValidPath);
}

#[test]
fn plan_is_case_insensitive() {
    let upper = plan("C:\\APPS\\*\\TOOL.EXE", "c:\\w");
    let lower = plan("c:\\apps\\*\\tool.exe", "c:\\w");
    let (ru, fu, su) = scan_parts(upper);
    let (rl, fl, sl) = scan_parts(lower);
    assert_eq!(ru, rl);
    assert_eq!(fu, fl);
    assert_eq!(su, sl);
}

#[test]
fn highest_version_directory_wins() {
    let entries = vec![dir("1.0.0"), dir("1.2.0"), dir("1.10.0")];
    let r = select_candidate("c:\\base\\root\\", "", "\\tool.exe", &entries);
    assert_eq!(r.unwrap(), "c:\\base\\root\\1.10.0\\tool.exe");
}

#[test]
fn resolution_is_idempotent() {
    let entries = vec![dir("2.0"), dir("10.1"), dir("9.9")];
    let first = select_candidate("c:\\r", "", "\\t.exe", &entries);
    let second = select_candidate("c:\\r", "", "\\t.exe", &entries);
    assert_eq!(first.unwrap(), second.unwrap());
}

#[test]
fn separator_added_only_when_root_lacks_one() {
    let entries = vec![dir("1.0")];
    let with_sep = select_candidate("c:\\r\\", "", "\\t.exe", &entries);
    let without_sep = select_candidate("c:\\r", "", "\\t.exe", &entries);
    assert_eq!(with_sep.unwrap(), "c:\\r\\1.0\\t.exe");
    assert_eq!(without_sep.unwrap(), "c:\\r\\1.0\\t.exe");
}

#[test]
fn no_matching_directory_is_reported() {
    let entries = vec![file("1.0.0"), dir("readme")];
    let r = select_candidate("c:\\r\\", "", "\\t.exe", &entries);
    assert_eq!(r.unwrap_err(), ResolveError::NoDirectories);
    assert_eq!(ResolveError::NoDirectories.message(), "No directories found");
}

#[test]
fn fragment_filters_directory_names() {
    let entries = vec![dir("1.0"), dir("2.0")];
    let r = select_candidate("c:\\r\\", "2", "\\t.exe", &entries);
    assert_eq!(r.unwrap(), "c:\\r\\2.0\\t.exe");
    let none = select_candidate("c:\\r\\", "3", "\\t.exe", &entries);
    assert_eq!(none.unwrap_err(), ResolveError::NoDirectories);
}

#[test]
fn unparseable_names_are_skipped_not_fatal() {
    let entries = vec![dir("notes"), dir("1.5"), dir("v2.0")];
    let r = select_candidate("c:\\r\\", "", "\\t.exe", &entries);
    assert_eq!(r.unwrap(), "c:\\r\\1.5\\t.exe");
}

#[test]
fn later_entry_wins_a_tie() {
    let entries = vec![dir("1.02"), dir("1.2")];
    let r = select_candidate("c:\\r\\", "", "\\t.exe", &entries);
    assert_eq!(r.unwrap(), "c:\\r\\1.2\\t.exe");
    let swapped = vec![dir("1.2"), dir("1.02")];
    let r2 = select_candidate("c:\\r\\", "", "\\t.exe", &swapped);
    assert_eq!(r2.unwrap(), "c:\\r\\1.02\\t.exe");
}

#[test]
fn absent_candidate_is_a_distinct_failure() {
    let entries = vec![dir("1.0.0"), dir("1.10.0")];
    let candidate = select_candidate("c:\\r\\", "", "\\tool.exe", &entries).unwrap();
    let r = confirm_exists(candidate, false);
    assert_eq!(r.unwrap_err(), ResolveError::NoValidPath);
    assert_eq!(ResolveError::NoValidPath.message(), "No valid path found");
    assert_ne!(
        ResolveError::NoValidPath.message(),
        ResolveError::NoDirectories.message()
    );
}

#[test]
fn present_candidate_passes_through() {
    let r = confirm_exists(String::from("c:\\r\\1.0\\t.exe"), true);
    assert_eq!(r.unwrap(), "c:\\r\\1.0\\t.exe");
}

#[test]
fn parent_dir_strips_the_last_component() {
    assert_eq!(parent_dir("c:\\a\\b\\t.exe"), Some(String::from("c:\\a\\b")));
    assert_eq!(parent_dir("t.exe"), None);
}

#[test]
fn last_segment_names_the_program() {
    assert_eq!(last_segment("c:\\dir\\launcher.exe"), "launcher.exe");
    assert_eq!(last_segment("launcher.exe"), "launcher.exe");
}

#[test]
fn split_keeps_empty_segments() {
    assert_eq!(split_at_char("a\\\\b", '\\'), vec!["a", "", "b"]);
    assert_eq!(split_at_char("", '\\'), vec![""]);
    assert_eq!(split_at_char("1.10.0", '.'), vec!["1", "10", "0"]);
}
