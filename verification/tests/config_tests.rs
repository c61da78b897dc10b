use addpath::config::config_file_path;
use addpath::config::decide_append;
use addpath::config::export_line;
use addpath::config::parse_selection;
use addpath::config::shell_config_name;
use addpath::config::AppendDecision;

fn bytes(s: &str) -> Vec<u8> {
    s.as_bytes().to_vec()
}

#[test]
fn shell_resolution() {
    assert_eq!(shell_config_name(&bytes("/bin/bash")), Some(bytes(".bashrc")));
    assert_eq!(shell_config_name(&bytes("/usr/local/bin/zsh")), Some(bytes(".zshrc")));
    assert_eq!(shell_config_name(&bytes("/bin/fish")), None);
    assert_eq!(shell_config_name(&bytes("")), None);
    // the suffix must be a whole path step
    assert_eq!(shell_config_name(&bytes("mybash")), None);
}

#[test]
fn config_path_under_home() {
    assert_eq!(
        config_file_path(&bytes("/home/user"), &bytes("/bin/bash")),
        Some(bytes("/home/user/.bashrc"))
    );
    assert_eq!(
        config_file_path(&bytes("/home/user"), &bytes("/bin/zsh")),
        Some(bytes("/home/user/.zshrc"))
    );
    assert_eq!(config_file_path(&bytes("/home/user"), &bytes("/bin/sh")), None);
}

#[test]
fn export_line_exact_bytes() {
    assert_eq!(
        export_line(&bytes("/opt/x/bin")),
        bytes("\nexport PATH=\"$PATH:/opt/x/bin\"")
    );
}

#[test]
fn append_when_line_is_missing() {
    let candidates = vec![bytes("/opt/mytool-1.0/bin")];
    let contents = bytes("# my shell setup\n");
    match decide_append(&candidates, &contents, 0) {
        AppendDecision::Append(line) => {
            assert_eq!(line, bytes("\nexport PATH=\"$PATH:/opt/mytool-1.0/bin\""));
        }
        _ => panic!("expected an append"),
    }
}

#[test]
fn no_write_when_line_is_present() {
    let candidates = vec![bytes("/opt/mytool-1.0/bin")];
    let contents = bytes("top\nexport PATH=\"$PATH:/opt/mytool-1.0/bin\"\nbottom\n");
    assert!(matches!(
        decide_append(&candidates, &contents, 0),
        AppendDecision::AlreadyPresent
    ));
}

#[test]
fn second_run_is_idempotent() {
    // first run appends; the contents it leaves make the second run a no-op
    let candidates = vec![bytes("/opt/mytool-1.0/bin")];
    let before = bytes("# empty-ish\n");
    let line = match decide_append(&candidates, &before, 0) {
        AppendDecision::Append(line) => line,
        _ => panic!("expected an append"),
    };
    let mut after = before.clone();
    after.extend_from_slice(&line);
    after.push(b'\n');
    assert!(matches!(
        decide_append(&candidates, &after, 0),
        AppendDecision::AlreadyPresent
    ));
}

#[test]
fn out_of_range_selection_is_a_no_op() {
    // two candidates: indices 0 and 1 exist, 2 does not
    let candidates = vec![bytes("/opt/a/bin"), bytes("/opt/b/bin")];
    let contents = bytes("");
    assert_eq!(parse_selection(&bytes("abc")), None);
    let idx = parse_selection(&bytes("2\n")).expect("2 parses");
    assert_eq!(idx, 2);
    assert!(matches!(
        decide_append(&candidates, &contents, idx),
        AppendDecision::OutOfRange
    ));
}

#[test]
fn selection_parsing() {
    assert_eq!(parse_selection(&bytes("0")), Some(0));
    assert_eq!(parse_selection(&bytes(" 2 \n")), Some(2));
    assert_eq!(parse_selection(&bytes("007")), Some(7));
    assert_eq!(parse_selection(&bytes("")), None);
    assert_eq!(parse_selection(&bytes("   \n")), None);
    assert_eq!(parse_selection(&bytes("abc")), None);
    assert_eq!(parse_selection(&bytes("12a")), None);
    assert_eq!(parse_selection(&bytes("-1")), None);
    assert_eq!(parse_selection(&bytes("1 2")), None);
    assert_eq!(parse_selection(&bytes("99999999999999999999999999")), None);
    assert_eq!(parse_selection(&bytes("18446744073709551615")), Some(usize::MAX));
}
