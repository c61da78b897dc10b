use addpath::paths::is_not_skippable;
use addpath::scan::name_is_bin;
use addpath::scan::remove_duplicates;
use addpath::scan::scan_outcome;
use addpath::scan::select_candidates;
use addpath::scan::ScanOutcome;
use addpath::scan::WalkEntry;
use addpath::text::contains_subseq;
use addpath::text::ends_with;

fn b(s: &str) -> Vec<u8> {
    s.as_bytes().to_vec()
}

fn entry(path: &str, name: &str, is_dir: bool, children: &[&str]) -> WalkEntry {
    WalkEntry {
        path: b(path),
        name: b(name),
        is_dir,
        children: children.iter().map(|c| b(c)).collect(),
    }
}

#[test]
fn contains_subseq_basics() {
    assert!(contains_subseq(&b("fooctl"), &b("foo")));
    assert!(contains_subseq(&b("my-foo-tool"), &b("foo")));
    assert!(!contains_subseq(&b("bar"), &b("foo")));
    assert!(!contains_subseq(&b("fo"), &b("foo")));
    assert!(contains_subseq(&b("anything"), &b("")));
    assert!(contains_subseq(&b(""), &b("")));
    assert!(!contains_subseq(&b(""), &b("x")));
}

#[test]
fn ends_with_basics() {
    assert!(ends_with(&b("/bin/bash"), &b("/bash")));
    assert!(!ends_with(&b("/bin/bash"), &b("/zsh")));
    assert!(!ends_with(&b("bash"), &b("/bash")));
    assert!(ends_with(&b("x"), &b("")));
}

#[test]
fn pruned_components_are_skipped() {
    assert!(!is_not_skippable(&b("/dev")));
    assert!(!is_not_skippable(&b("/proc/1")));
    assert!(!is_not_skippable(&b("/sys/kernel")));
    assert!(!is_not_skippable(&b("/usr/dev/bin")));
    assert!(is_not_skippable(&b("/usr/local/bin")));
    // only whole components count, not substrings of a name
    assert!(is_not_skippable(&b("/usr/device2/bin")));
    assert!(is_not_skippable(&b("/home/devel/sysroot-x")));
}

#[test]
fn name_is_bin_exact() {
    assert!(name_is_bin(&b("bin")));
    assert!(!name_is_bin(&b("sbin")));
    assert!(!name_is_bin(&b("bi")));
    assert!(!name_is_bin(&b("")));
}

#[test]
fn substring_match_selects_candidate() {
    // a `bin` directory holding `fooctl` is a candidate for package `foo`
    let es = vec![entry("/usr/local/foo-1.0/bin", "bin", true, &["fooctl"])];
    let r = select_candidates(&es, &b("foo"));
    assert_eq!(r, vec![b("/usr/local/foo-1.0/bin")]);
}

#[test]
fn unrelated_names_are_excluded() {
    let es = vec![entry("/usr/local/other/bin", "bin", true, &["bar", "baz"])];
    let r = select_candidates(&es, &b("foo"));
    assert!(r.is_empty());
}

#[test]
fn non_bin_and_non_dir_entries_are_excluded() {
    let es = vec![
        entry("/usr/local/foo/sbin", "sbin", true, &["fooctl"]),
        entry("/usr/local/foo/bin", "bin", false, &["fooctl"]),
    ];
    let r = select_candidates(&es, &b("foo"));
    assert!(r.is_empty());
}

#[test]
fn pruned_entries_never_become_candidates() {
    // even if the walk hands over an entry beneath `proc`, it is dropped
    let es = vec![
        entry("/proc/foo/bin", "bin", true, &["fooctl"]),
        entry("/usr/foo/bin", "bin", true, &["fooctl"]),
    ];
    let r = select_candidates(&es, &b("foo"));
    assert_eq!(r, vec![b("/usr/foo/bin")]);
}

#[test]
fn duplicate_paths_are_kept_once() {
    // two roots reaching the identical bin path yield it exactly once
    let es = vec![
        entry("/opt/foo/bin", "bin", true, &["fooctl"]),
        entry("/opt/foo/bin", "bin", true, &["fooctl"]),
    ];
    let r = select_candidates(&es, &b("foo"));
    assert_eq!(r, vec![b("/opt/foo/bin")]);
}

#[test]
fn first_occurrence_order_is_kept() {
    let es = vec![
        entry("/opt/a/bin", "bin", true, &["footool"]),
        entry("/opt/b/bin", "bin", true, &["myfoo"]),
        entry("/opt/a/bin", "bin", true, &["footool"]),
    ];
    let r = select_candidates(&es, &b("foo"));
    assert_eq!(r, vec![b("/opt/a/bin"), b("/opt/b/bin")]);
}

#[test]
fn remove_duplicates_keeps_first_occurrences() {
    let mut v = vec![b("a"), b("b"), b("a"), b("c"), b("b")];
    remove_duplicates(&mut v);
    assert_eq!(v, vec![b("a"), b("b"), b("c")]);
}

#[test]
fn already_on_path_skips_the_scan() {
    // a package resolvable on PATH short-circuits, whatever the walk found
    let es = vec![entry("/opt/mytool-1.0/bin", "bin", true, &["mytool-run"])];
    let r = scan_outcome(true, &es, &b("mytool"));
    assert!(matches!(r, ScanOutcome::AlreadyOnPath));
}

#[test]
fn empty_result_is_reported_explicitly() {
    let es = vec![entry("/usr/share", "share", true, &[])];
    let r = scan_outcome(false, &es, &b("mytool"));
    assert!(matches!(r, ScanOutcome::NoCandidates));
}

#[test]
fn scenario_mytool_under_opt() {
    // package `mytool`, roots /usr and /opt, /opt/mytool-1.0/bin/mytool-run
    let es = vec![
        entry("/usr", "usr", true, &[]),
        entry("/usr/share", "share", true, &[]),
        entry("/opt", "opt", true, &[]),
        entry("/opt/mytool-1.0", "mytool-1.0", true, &[]),
        entry("/opt/mytool-1.0/bin", "bin", true, &["mytool-run"]),
    ];
    match scan_outcome(false, &es, &b("mytool")) {
        ScanOutcome::Candidates(c) => {
            assert_eq!(c, vec![b("/opt/mytool-1.0/bin")]);
        }
        _ => panic!("expected a candidate list"),
    }
}
