use gemini_cli::config::Config;

#[test]
fn with_key_path_sets_path() {
    let config = Config::with_key_path("/tmp/k/api_key.txt".to_string());
    assert_eq!(config.key_path.as_deref(), Some("/tmp/k/api_key.txt"));
    assert_eq!(config.save_target(), Ok("/tmp/k/api_key.txt".to_string()));
}

#[test]
fn missing_path_cannot_be_saved() {
    let config = Config { key_path: None };
    assert_eq!(
        config.save_target(),
        Err("Невизначений шлях для збереження API ключа".to_string())
    );
}

#[test]
fn stored_key_is_read_back_trimmed() {
    assert_eq!(Config::key_from_contents("  test-key  \n").as_deref(), Some("test-key"));
    assert_eq!(Config::key_from_contents("test-key").as_deref(), Some("test-key"));
}

#[test]
fn blank_key_file_holds_no_key() {
    assert_eq!(Config::key_from_contents("   \n"), None);
    assert_eq!(Config::key_from_contents(""), None);
}

#[test]
fn write_error_message_names_the_error() {
    assert_eq!(
        Config::write_error_message("permission denied"),
        "Помилка запису файлу: permission denied"
    );
}
