use skillctl::error::AppError;
use skillctl::i18n::{parse_lang, Lang};
use skillctl::skill::validate_skill_id;

#[test]
fn validate_skill_id_accepts_simple_name() {
    assert!(validate_skill_id("my-skill").is_ok());
}

#[test]
fn validate_skill_id_rejects_empty() {
    let err = validate_skill_id(" ").unwrap_err();
    assert!(matches!(err, AppError::Config { .. }));
}

#[test]
fn validate_skill_id_rejects_path() {
    let err = validate_skill_id("../bad").unwrap_err();
    assert!(matches!(err, AppError::Config { .. }));
}

#[test]
fn validate_skill_id_rejects_separator() {
    let err = validate_skill_id("a/b").unwrap_err();
    assert!(matches!(err, AppError::Config { .. }));
}

#[test]
fn validate_skill_id_rejects_dot_and_dotdot() {
    assert!(validate_skill_id(".").is_err());
    assert!(validate_skill_id("..").is_err());
    assert!(validate_skill_id("...").is_ok());
}

#[test]
fn validate_skill_id_reports_message_and_hint() {
    let err = validate_skill_id("").unwrap_err();
    assert_eq!(err.message(), "skill id is empty");
    assert_eq!(err.hint(), Some("provide a skill name"));
}

#[test]
fn parse_lang_picks_japanese() {
    assert_eq!(parse_lang("ja_JP.UTF-8"), Lang::Ja);
    assert_eq!(parse_lang("ja"), Lang::Ja);
}

#[test]
fn parse_lang_picks_english() {
    assert_eq!(parse_lang("en_US.UTF-8"), Lang::En);
    assert_eq!(parse_lang("EN"), Lang::En);
    assert_eq!(parse_lang("C"), Lang::En);
    assert_eq!(parse_lang("POSIX"), Lang::En);
    assert_eq!(parse_lang(" en "), Lang::En);
}

#[test]
fn parse_lang_defaults_to_japanese() {
    assert_eq!(parse_lang(""), Lang::Ja);
    assert_eq!(parse_lang("   "), Lang::Ja);
    assert_eq!(parse_lang("fr_FR"), Lang::Ja);
    assert_eq!(parse_lang("engl"), Lang::Ja);
}
