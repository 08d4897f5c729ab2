//! Fixed values shared by the backend and the frontend.
pub mod cache;

use vstd::prelude::*;

verus! {

/// The phrase a user has to type before the whole history is wiped.
pub const WIPE_CONFIRMATION_PHRASE: &'static str = "WIPE_EVERYTHING";

/// Longest text preview, counted in characters, before it is cut off.
pub const TEXT_PREVIEW_MAX_CHARS: usize = 200;

/// File that holds the persisted settings.
pub const SETTINGS_STORE_FILE: &'static str = "settings.json";

/// File that holds the persisted history.
pub const HISTORY_STORE_FILE: &'static str = "history.json";

/// Key of the history inside its store file.
pub const HISTORY_KEY: &'static str = "history";

/// Key of the settings inside their store file.
pub const SETTINGS_KEY: &'static str = "settings";

} // verus!
