use cargo_lock_fetch::cargo::{cargo_arguments, fetch_invocation, new_project_arguments};
use cargo_lock_fetch::cli::{CargoLockFetchCli, CliErrorKind};

fn options(keep_tmp: bool, tmp_dir: Option<&str>) -> CargoLockFetchCli {
    CargoLockFetchCli {
        lockfile_path: "Cargo.lock".to_string(),
        vendor_dir: None,
        quiet: false,
        keep_tmp,
        tmp_dir: tmp_dir.map(str::to_string),
        cargo_args: vec![],
    }
}

#[test]
fn keep_tmp_and_tmp_dir_conflict() {
    let (kind, message) = options(true, Some("/tmp/x")).verify().unwrap_err();
    assert_eq!(kind, CliErrorKind::ArgumentConflict);
    assert_eq!(message, "arguments --keep-tmp and --tmp-dir are mutually exclusive");
}

#[test]
fn compatible_options_pass_unchanged() {
    assert_eq!(options(true, None).verify().unwrap(), options(true, None));
    assert_eq!(options(false, Some("/tmp/x")).verify().unwrap(), options(false, Some("/tmp/x")));
}

#[test]
fn cargo_arguments_append_quiet_flag() {
    let args = vec!["--locked".to_string()];
    assert_eq!(cargo_arguments("fetch", &args, true), vec!["fetch", "--locked", "-q"]);
    assert_eq!(cargo_arguments("fetch", &args, false), vec!["fetch", "--locked"]);
}

#[test]
fn fetch_or_vendor_invocation() {
    let args = vec!["--versioned-dirs".to_string()];
    let (cmd, a) = fetch_invocation(&Some("vendor-out".to_string()), &args);
    assert_eq!(cmd, "vendor");
    assert_eq!(a, vec!["vendor-out", "--versioned-dirs"]);
    let (cmd, a) = fetch_invocation(&None, &vec![]);
    assert_eq!(cmd, "fetch");
    assert!(a.is_empty());
}

#[test]
fn new_sub_project_arguments() {
    assert_eq!(
        new_project_arguments(&"batch3".to_string()),
        vec!["--lib", "--vcs", "none", "batch3"]
    );
}
