//! The checks and state changes around the vault, the settings and the
//! destructive commands.
use std::sync::atomic::AtomicBool;
use vstd::prelude::*;

use crate::cache::{DecryptedCache, DecryptedPreviewCache};
use crate::constants::WIPE_CONFIRMATION_PHRASE;
use crate::model::wipe_string;
use crate::crypto::Vault;
use crate::model::{AppError, AppSettings, EncryptionConfig, EncryptionStatus, ObjectPreviewView, ObjectView};
use crate::recency::without_id;

verus! {

/// Whether capturing new clipboard contents is paused; shared between the
/// clipboard watcher, the tray menu and the settings.
pub struct CapturePaused(pub AtomicBool);

/// The error `Custom(message)`.
fn custom_error(message: &str) -> (e: AppError)
    ensures
        e matches AppError::Custom(m) && m@ == message@,
{
    AppError::Custom(message.to_owned())
}

/// Whether encryption is configured, and whether the vault holds the identity.
pub fn encryption_status(settings: &AppSettings, vault: &Vault) -> (r: EncryptionStatus)
    ensures
        r.enabled == settings.encryption is Some,
        r.unlocked == vault.identity is Some,
{
    EncryptionStatus { enabled: settings.encryption.is_some(), unlocked: vault.identity.is_some() }
}

/// Expired entries are pruned only with a retention set and a readable history.
pub fn should_prune(settings: &AppSettings, vault: &Vault) -> (r: bool)
    ensures
        r == (settings.retention_amount != 0 && !(vault.recipient is Some && vault.identity is None)),
{
    settings.retention_amount != 0 && !vault.is_locked()
}

/// The message given when the wipe is not confirmed.
pub open spec fn wipe_refused_message() -> Seq<char> {
    "Confirmation phrase required to wipe history"@
}

/// A wipe goes ahead only with the exact confirmation phrase.
pub fn check_wipe_confirmation(confirmation: &String) -> (r: Result<(), AppError>)
    ensures
        confirmation@ == WIPE_CONFIRMATION_PHRASE@ ==> r is Ok,
        confirmation@ != WIPE_CONFIRMATION_PHRASE@ ==> (r matches Err(AppError::Custom(m)) && m@
            == wipe_refused_message()),
{
    let phrase = WIPE_CONFIRMATION_PHRASE.to_owned();
    if *confirmation != phrase {
        return Err(custom_error("Confirmation phrase required to wipe history"));
    }
    Ok(())
}

/// The message given for an empty password.
pub open spec fn empty_password_message() -> Seq<char> {
    "Password must not be empty"@
}

/// The message given when encryption is set up twice.
pub open spec fn already_enabled_message() -> Seq<char> {
    "Encryption is already enabled"@
}

/// The message given when encryption is needed but not set up.
pub open spec fn not_enabled_message() -> Seq<char> {
    "Encryption is not enabled"@
}

/// Encryption can be set up with a non-empty password when it is not set up yet.
pub fn check_can_enable(password: &str, settings: &AppSettings) -> (r: Result<(), AppError>)
    ensures
        password@.len() == 0 ==> (r matches Err(AppError::Custom(m)) && m@ == empty_password_message()),
        password@.len() != 0 && settings.encryption is Some ==> (r matches Err(AppError::Custom(m)) && m@
            == already_enabled_message()),
        password@.len() != 0 && settings.encryption is None ==> r is Ok,
{
    if password.is_empty() {
        return Err(custom_error("Password must not be empty"));
    }
    if settings.encryption.is_some() {
        return Err(custom_error("Encryption is already enabled"));
    }
    Ok(())
}

/// A copy of the encryption configuration; an error when there is none.
pub fn enabled_config(settings: &AppSettings) -> (r: Result<EncryptionConfig, AppError>)
    ensures
        settings.encryption is None ==> (r matches Err(AppError::Custom(m)) && m@ == not_enabled_message()),
        settings.encryption matches Some(c) ==> (r matches Ok(copy) && copy.recipient@ == c.recipient@
            && copy.encrypted_identity@ == c.encrypted_identity@),
{
    match &settings.encryption {
        Some(config) => Ok(config.clone()),
        None => Err(custom_error("Encryption is not enabled")),
    }
}

/// The configuration is still `config`: an error when encryption was turned
/// off, or reconfigured, in the meantime.
pub fn check_config_unchanged(config: &EncryptionConfig, settings: &AppSettings) -> (r: Result<(), AppError>)
    ensures
        settings.encryption is None ==> (r matches Err(AppError::Custom(m)) && m@ == not_enabled_message()),
        settings.encryption matches Some(c) ==> (if c.recipient@ == config.recipient@
            && c.encrypted_identity@ == config.encrypted_identity@ {
            r is Ok
        } else {
            r == Err::<(), AppError>(AppError::EncryptionReconfigured)
        }),
{
    match &settings.encryption {
        None => Err(custom_error("Encryption is not enabled")),
        Some(current) => {
            if current.recipient == config.recipient && current.encrypted_identity == config.encrypted_identity {
                Ok(())
            } else {
                Err(AppError::EncryptionReconfigured)
            }
        },
    }
}

/// After a wipe, encryption is set up again only with a non-empty new password.
pub fn wants_new_encryption(new_password: &Option<String>) -> (r: bool)
    ensures
        r == (new_password matches Some(p) && p@.len() != 0),
{
    match new_password {
        Some(p) => !p.as_str().is_empty(),
        None => false,
    }
}

/// Whether the vault can be locked from the interface: encryption is on and
/// the vault is open.
pub fn can_lock(status: &Option<EncryptionStatus>) -> (r: bool)
    ensures
        r == (status matches Some(s) && s.enabled && s.unlocked),
{
    match status {
        Some(s) => s.enabled && s.unlocked,
        None => false,
    }
}

/// Whether the interface asks for the password: encryption is on and the
/// vault is closed.
pub fn shows_login(status: &Option<EncryptionStatus>) -> (r: bool)
    ensures
        r == (status matches Some(s) && s.enabled && !s.unlocked),
{
    match status {
        Some(s) => s.enabled && !s.unlocked,
        None => false,
    }
}

/// Whether the vault locks itself after `idle_ms` milliseconds without
/// activity: an auto-lock delay of `minutes` is set (0 turns it off), the
/// vault can be locked, and the delay has passed.
pub fn should_auto_lock(minutes: u64, status: &Option<EncryptionStatus>, idle_ms: u64) -> (r: bool)
    ensures
        r == (minutes != 0 && (status matches Some(s) && s.enabled && s.unlocked) && idle_ms >= minutes * 60_000),
{
    if minutes == 0 || !can_lock(status) {
        return false;
    }
    match minutes.checked_mul(60_000) {
        Some(delay) => idle_ms >= delay,
        None => false,
    }
}

/// Checks the password typed, twice, to enable encryption: it must not be
/// empty, and both must be the same. The error is the text shown.
pub fn check_new_password(password: &String, confirmation: &String) -> (r: Result<(), String>)
    ensures
        password@.len() == 0 ==> (r matches Err(m) && m@ == "Password must not be empty"@),
        password@.len() != 0 && password@ != confirmation@ ==> (r matches Err(m) && m@ == "Passwords do not match"@),
        password@.len() != 0 && password@ == confirmation@ ==> r is Ok,
{
    if password.as_str().is_empty() {
        return Err("Password must not be empty".to_owned());
    }
    if *password != *confirmation {
        return Err("Passwords do not match".to_owned());
    }
    Ok(())
}

/// Whether a password was typed at all; the login form sends nothing
/// otherwise.
pub fn password_entered(password: &String) -> (r: bool)
    ensures
        r == (password@.len() != 0),
{
    !password.as_str().is_empty()
}

/// Checks the password typed to disable encryption: it must not be empty.
/// The error is the text shown.
pub fn check_current_password(password: &String) -> (r: Result<(), String>)
    ensures
        password@.len() == 0 ==> (r matches Err(m) && m@ == "Enter your password to disable encryption"@),
        password@.len() != 0 ==> r is Ok,
{
    if password.as_str().is_empty() {
        Err("Enter your password to disable encryption".to_owned())
    } else {
        Ok(())
    }
}


/// Forgets every decrypted object and preview and the fingerprint of the
/// last copy.
pub fn reset_caches(cache: &mut DecryptedCache, previews: &mut DecryptedPreviewCache, last_hash: &mut Option<String>)
    requires
        old(cache).wf(),
        old(previews).wf(),
    ensures
        final(cache).wf(),
        final(cache).entries() == Seq::<(u32, ObjectView)>::empty(),
        final(previews).wf(),
        final(previews).entries() == Seq::<(u32, ObjectPreviewView)>::empty(),
        *final(last_hash) is None,
{
    cache.clear();
    previews.clear();
    *last_hash = None;
}

/// The in-memory part of clearing the history: the caches and the last
/// fingerprint are forgotten first, whatever follows; then the clearing is
/// refused with `Locked` while the vault is locked, and otherwise may go on.
pub fn begin_clear_history(
    cache: &mut DecryptedCache,
    previews: &mut DecryptedPreviewCache,
    last_hash: &mut Option<String>,
    vault: &Vault,
) -> (r: Result<(), AppError>)
    requires
        old(cache).wf(),
        old(previews).wf(),
    ensures
        final(cache).wf(),
        final(cache).entries() == Seq::<(u32, ObjectView)>::empty(),
        final(previews).wf(),
        final(previews).entries() == Seq::<(u32, ObjectPreviewView)>::empty(),
        *final(last_hash) is None,
        r is Ok <==> !(vault.recipient is Some && vault.identity is None),
        r matches Err(e) ==> e == AppError::Locked,
{
    reset_caches(cache, previews, last_hash);
    if vault.is_locked() {
        return Err(AppError::Locked);
    }
    Ok(())
}

/// The in-memory part of deleting entry `id`: its cached object and
/// preview and the last fingerprint are forgotten first, whatever follows;
/// then the deletion is refused with `Locked` while the vault is locked, and
/// otherwise may go on.
pub fn begin_delete_entry(
    cache: &mut DecryptedCache,
    previews: &mut DecryptedPreviewCache,
    last_hash: &mut Option<String>,
    vault: &Vault,
    id: u32,
) -> (r: Result<(), AppError>)
    requires
        old(cache).wf(),
        old(previews).wf(),
    ensures
        final(cache).wf(),
        final(cache).entries() == without_id(old(cache).entries(), id),
        final(previews).wf(),
        final(previews).entries() == without_id(old(previews).entries(), id),
        *final(last_hash) is None,
        r is Ok <==> !(vault.recipient is Some && vault.identity is None),
        r matches Err(e) ==> e == AppError::Locked,
{
    cache.remove(id);
    previews.remove(id);
    *last_hash = None;
    if vault.is_locked() {
        return Err(AppError::Locked);
    }
    Ok(())
}

/// Locks the vault: the identity is wiped and dropped, the recipient stays,
/// and every decrypted object and preview is forgotten.
pub fn lock_vault(vault: &mut Vault, cache: &mut DecryptedCache, previews: &mut DecryptedPreviewCache)
    requires
        old(cache).wf(),
        old(previews).wf(),
    ensures
        final(vault).identity is None,
        final(vault).recipient == old(vault).recipient,
        final(cache).wf(),
        final(cache).entries() == Seq::<(u32, ObjectView)>::empty(),
        final(previews).wf(),
        final(previews).entries() == Seq::<(u32, ObjectPreviewView)>::empty(),
{
    if let Some(mut identity) = vault.identity.take() {
        wipe_string(&mut identity);
    }
    cache.clear();
    previews.clear();
}

} // verus!
