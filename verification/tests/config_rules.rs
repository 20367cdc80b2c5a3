use skillctl::config::{default_diff_command, Config, DiffConfig, HashAlgo, HashConfig, Target};
use skillctl::error::AppError;
use skillctl::globs::build_ignore_set;

fn base_config() -> Config {
    Config {
        global_root: "/tmp/global".to_string(),
        targets: vec![Target { name: "t1".to_string(), root: "/tmp/skills".to_string() }],
        hash: HashConfig { algo: HashAlgo::Blake3, ignore: Vec::new() },
        diff: DiffConfig { command: default_diff_command() },
    }
}

#[test]
fn validate_accepts_base_config() {
    assert!(base_config().validate().is_ok());
}

#[test]
fn validate_rejects_empty_targets() {
    let mut config = base_config();
    config.targets = Vec::new();
    let err = config.validate().unwrap_err();
    assert!(matches!(err, AppError::Config { .. }));
}

#[test]
fn validate_rejects_duplicate_target_names() {
    let mut config = base_config();
    config.targets.push(Target { name: "t1".to_string(), root: "/tmp/other".to_string() });
    let err = config.validate().unwrap_err();
    assert!(matches!(err, AppError::Config { .. }));
}

#[test]
fn validate_rejects_blank_target_name() {
    let mut config = base_config();
    config.targets[0].name = "  ".to_string();
    let err = config.validate().unwrap_err();
    assert!(matches!(err, AppError::Config { .. }));
}

#[test]
fn validate_rejects_empty_diff_command() {
    let mut config = base_config();
    config.diff.command = Vec::new();
    let err = config.validate().unwrap_err();
    assert!(matches!(err, AppError::Config { .. }));
}

#[test]
fn validate_rejects_diff_command_without_placeholders() {
    let mut config = base_config();
    config.diff.command =
        vec!["git".to_string(), "diff".to_string(), "/tmp/a".to_string(), "{right}".to_string()];
    let err = config.validate().unwrap_err();
    assert!(matches!(err, AppError::Config { .. }));
}

#[test]
fn validate_rejects_bad_ignore_pattern() {
    let mut config = base_config();
    config.hash.ignore = vec!["[".to_string()];
    let err = config.validate().unwrap_err();
    assert!(matches!(err, AppError::Config { .. }));
}

#[test]
fn default_diff_command_has_both_placeholders() {
    let cmd = default_diff_command();
    assert_eq!(
        cmd,
        vec![
            "git".to_string(),
            "diff".to_string(),
            "--no-index".to_string(),
            "--".to_string(),
            "{left}".to_string(),
            "{right}".to_string(),
        ]
    );
}

#[test]
fn target_by_name_finds_and_misses() {
    let config = base_config();
    let target = config.target_by_name("t1").unwrap();
    assert_eq!(target.root, "/tmp/skills");
    let err = config.target_by_name("nope").unwrap_err();
    assert!(matches!(err, AppError::Config { .. }));
}

#[test]
fn build_ignore_set_empty_is_none() {
    assert!(build_ignore_set(&Vec::new()).unwrap().is_none());
}

#[test]
fn build_ignore_set_rejects_bad_pattern() {
    let err = build_ignore_set(&vec!["[".to_string()]).unwrap_err();
    assert!(matches!(err, AppError::Config { .. }));
}

#[test]
fn build_ignore_set_compiles_good_patterns() {
    let set = build_ignore_set(&vec!["**/*.tmp".to_string(), "*.log".to_string()]).unwrap();
    assert!(set.is_some());
}
