use saver::config::{configure, parse_filter_dirs, trim_piece, Config, ConfigError};

fn strings(list: &[&str]) -> Vec<String> {
    list.iter().map(|s| s.to_string()).collect()
}

#[test]
fn empty_value_is_the_empty_list() {
    assert!(parse_filter_dirs("").is_empty());
}

#[test]
fn single_name_is_a_list_of_one() {
    assert_eq!(parse_filter_dirs("cache"), strings(&["cache"]));
}

#[test]
fn names_are_cut_at_commas() {
    assert_eq!(parse_filter_dirs("cache,target,node_modules"), strings(&["cache", "target", "node_modules"]));
}

#[test]
fn white_space_around_a_name_does_not_count() {
    assert_eq!(parse_filter_dirs(" cache ,\ttarget\n,  a b  "), strings(&["cache", "target", "a b"]));
}

#[test]
fn white_space_other_than_ascii_is_trimmed_too() {
    assert_eq!(parse_filter_dirs("\u{a0}cache\u{2003},\u{3000}tmp"), strings(&["cache", "tmp"]));
}

#[test]
fn characters_that_are_no_white_space_stay() {
    assert_eq!(parse_filter_dirs("_cache_,.tmp."), strings(&["_cache_", ".tmp."]));
    assert_eq!(parse_filter_dirs("\u{200b}x"), strings(&["\u{200b}x"]));
}

#[test]
fn empty_pieces_are_kept() {
    assert_eq!(parse_filter_dirs("a,,b"), strings(&["a", "", "b"]));
    assert_eq!(parse_filter_dirs(","), strings(&["", ""]));
    assert_eq!(parse_filter_dirs("a,"), strings(&["a", ""]));
    assert_eq!(parse_filter_dirs(",a"), strings(&["", "a"]));
}

#[test]
fn value_of_white_space_only_is_one_empty_name() {
    assert_eq!(parse_filter_dirs("   "), strings(&[""]));
}

#[test]
fn names_beyond_ascii_are_cut_by_characters() {
    assert_eq!(parse_filter_dirs("été, naïve ,日本語"), strings(&["été", "naïve", "日本語"]));
}

#[test]
fn trim_piece_takes_white_space_off_both_ends_only() {
    assert_eq!(trim_piece("  a  b  "), "a  b");
    assert_eq!(trim_piece("ab"), "ab");
    assert_eq!(trim_piece(""), "");
    assert_eq!(trim_piece(" \t\r\n"), "");
    assert_eq!(trim_piece("x "), "x");
    assert_eq!(trim_piece(" x"), "x");
}

#[test]
fn configure_takes_the_three_settings() {
    let config = configure(
        Some("/home/me".to_string()),
        Some("/mnt/backup".to_string()),
        Some("cache, tmp".to_string()),
    );
    assert_eq!(
        config,
        Ok(Config {
            main_folder: "/home/me".to_string(),
            backup_folder: "/mnt/backup".to_string(),
            filter_dirs: strings(&["cache", "tmp"]),
        })
    );
}

#[test]
fn configure_without_a_filter_excludes_nothing() {
    let config = configure(Some("a".to_string()), Some("b".to_string()), None).unwrap();
    assert!(config.filter_dirs.is_empty());
    let config = configure(Some("a".to_string()), Some("b".to_string()), Some(String::new())).unwrap();
    assert!(config.filter_dirs.is_empty());
}

#[test]
fn configure_needs_the_main_folder() {
    assert_eq!(configure(None, Some("b".to_string()), None), Err(ConfigError::MissingMainFolder));
    assert_eq!(configure(None, None, Some("x".to_string())), Err(ConfigError::MissingMainFolder));
}

#[test]
fn configure_needs_the_backup_folder() {
    assert_eq!(configure(Some("a".to_string()), None, None), Err(ConfigError::MissingBackupFolder));
}
