use clipboard_history::crypto::Vault;
use clipboard_history::session::{
    can_lock, check_can_enable, check_config_unchanged, check_current_password, check_new_password,
    check_wipe_confirmation, password_entered,
    enabled_config, encryption_status, should_auto_lock, should_prune, shows_login, wants_new_encryption,
};
use clipboard_history::{AppError, AppSettings, EncryptionConfig, EncryptionStatus};

fn config(r: &str) -> EncryptionConfig {
    EncryptionConfig { recipient: r.to_string(), encrypted_identity: "id".to_string() }
}

#[test]
fn status_reflects_settings_and_vault() {
    let mut settings = AppSettings::default();
    let vault = Vault::default();
    let s = encryption_status(&settings, &vault);
    assert!(!s.enabled && !s.unlocked);
    settings.encryption = Some(config("r"));
    assert!(encryption_status(&settings, &vault).enabled);
}

#[test]
fn prune_needs_retention_and_readable_history() {
    let mut settings = AppSettings::default();
    let mut vault = Vault::default();
    assert!(!should_prune(&settings, &vault));
    settings.retention_amount = 3;
    assert!(should_prune(&settings, &vault));
    vault.recipient = Some(age::x25519::Identity::generate().to_public().to_string());
    assert!(!should_prune(&settings, &vault));
}

#[test]
fn wipe_needs_exact_phrase() {
    assert_eq!(check_wipe_confirmation(&"WIPE_EVERYTHING".to_string()), Ok(()));
    assert_eq!(
        check_wipe_confirmation(&"wipe_everything".to_string()),
        Err(AppError::Custom("Confirmation phrase required to wipe history".to_string()))
    );
}

#[test]
fn enabling_needs_password_and_no_config() {
    let mut settings = AppSettings::default();
    assert_eq!(check_can_enable("", &settings), Err(AppError::Custom("Password must not be empty".to_string())));
    assert_eq!(check_can_enable("pw", &settings), Ok(()));
    settings.encryption = Some(config("r"));
    assert_eq!(check_can_enable("pw", &settings), Err(AppError::Custom("Encryption is already enabled".to_string())));
}

#[test]
fn enabled_config_and_reconfiguration() {
    let mut settings = AppSettings::default();
    assert_eq!(enabled_config(&settings).err(), Some(AppError::Custom("Encryption is not enabled".to_string())));
    assert_eq!(check_config_unchanged(&config("r"), &settings), Err(AppError::Custom("Encryption is not enabled".to_string())));
    settings.encryption = Some(config("r"));
    assert_eq!(enabled_config(&settings).unwrap(), config("r"));
    assert_eq!(check_config_unchanged(&config("r"), &settings), Ok(()));
    assert_eq!(check_config_unchanged(&config("s"), &settings), Err(AppError::EncryptionReconfigured));
}

#[test]
fn new_encryption_after_wipe_needs_password() {
    assert!(!wants_new_encryption(&None));
    assert!(!wants_new_encryption(&Some(String::new())));
    assert!(wants_new_encryption(&Some("pw".to_string())));
}

#[test]
fn new_password_must_be_typed_twice() {
    assert_eq!(check_new_password(&String::new(), &String::new()), Err("Password must not be empty".to_string()));
    assert_eq!(check_new_password(&"a".to_string(), &"b".to_string()), Err("Passwords do not match".to_string()));
    assert_eq!(check_new_password(&"pw".to_string(), &"pw".to_string()), Ok(()));
}

#[test]
fn lock_and_login_follow_the_status() {
    let open = Some(EncryptionStatus { enabled: true, unlocked: true });
    let closed = Some(EncryptionStatus { enabled: true, unlocked: false });
    let off = Some(EncryptionStatus { enabled: false, unlocked: false });
    assert!(can_lock(&open));
    assert!(!can_lock(&closed));
    assert!(!can_lock(&off));
    assert!(!can_lock(&None));
    assert!(shows_login(&closed));
    assert!(!shows_login(&open));
    assert!(!shows_login(&off));
    assert!(!shows_login(&None));
}

#[test]
fn auto_lock_after_the_delay() {
    let open = Some(EncryptionStatus { enabled: true, unlocked: true });
    assert!(!should_auto_lock(5, &open, 299_999));
    assert!(should_auto_lock(5, &open, 300_000));
    assert!(!should_auto_lock(0, &open, u64::MAX));
    assert!(!should_auto_lock(5, &Some(EncryptionStatus { enabled: true, unlocked: false }), 300_000));
    assert!(!should_auto_lock(u64::MAX, &open, u64::MAX));
}

#[test]
fn current_password_must_be_typed() {
    assert!(!password_entered(&String::new()));
    assert!(password_entered(&"x".to_string()));
    assert_eq!(
        check_current_password(&String::new()),
        Err("Enter your password to disable encryption".to_string())
    );
    assert_eq!(check_current_password(&"pw".to_string()), Ok(()));
}
