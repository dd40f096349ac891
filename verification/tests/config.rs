use recall::config::{join_path, AppConfig};
use recall::text::parse_usize;

#[test]
fn join_path_inserts_one_separator() {
    assert_eq!(join_path(b"/home/u", b".x"), b"/home/u/.x".to_vec());
    assert_eq!(join_path(b"/home/u/", b".x"), b"/home/u/.x".to_vec());
    assert_eq!(join_path(b"", b"x"), b"x".to_vec());
    assert_eq!(join_path(b"/home/u", b"/etc/x"), b"/etc/x".to_vec());
    // bytes that are not UTF-8 go through unchanged
    assert_eq!(join_path(b"/home/\xff", b"x"), b"/home/\xff/x".to_vec());
}

#[test]
fn default_settings() {
    let config = AppConfig::with_home(&Some(b"/home/u".to_vec()));
    assert_eq!(config.history_path, b"/home/u/.bash_history_extended".to_vec());
    assert_eq!(config.context_lines, 5);
    assert_eq!(config.default_history_depth, 1000);
    let config = AppConfig::with_home(&None);
    assert_eq!(config.history_path, b"./.bash_history_extended".to_vec());
    let config = AppConfig::with_home(&Some(b"/home/\xfe".to_vec()));
    assert_eq!(config.history_path, b"/home/\xfe/.bash_history_extended".to_vec());
    let config = AppConfig::default();
    assert!(config.history_path.ends_with(b"/.bash_history_extended"));
    assert_eq!(config.default_history_depth, 1000);
}

#[test]
fn config_path_is_recall_config_toml() {
    assert_eq!(
        AppConfig::config_path_in(&Some(b"/home/u/.config".to_vec())),
        b"/home/u/.config/recall/config.toml".to_vec()
    );
    assert_eq!(AppConfig::config_path_in(&None), b"./recall/config.toml".to_vec());
    assert!(AppConfig::config_path().ends_with(b"recall/config.toml"));
}

#[test]
fn parse_usize_reads_decimal() {
    assert_eq!(parse_usize("80"), Some(80));
    assert_eq!(parse_usize("+7"), Some(7));
    assert_eq!(parse_usize("0"), Some(0));
    assert_eq!(parse_usize(""), None);
    assert_eq!(parse_usize("+"), None);
    assert_eq!(parse_usize("-1"), None);
    assert_eq!(parse_usize(" 80"), None);
    assert_eq!(parse_usize("18446744073709551615"), Some(usize::MAX));
    assert_eq!(parse_usize("18446744073709551616"), None);
    assert_eq!(parse_usize("99999999999999999999x"), None);
}
