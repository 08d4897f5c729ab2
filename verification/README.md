# clipboard_history

A clipboard manager: it records what is copied, lists and searches the
history, and can keep the history encrypted with age under a password.

- `src/` is the library, written in Verus: the data model, the decrypted-entry
  caches, the rules of the history (ids, repeated copies, expiry, deletion,
  repair), search, listing, the moves into and out of encryption, the
  cryptographic framing of entries and of the identity, the in-memory steps
  of the commands and of the clipboard watcher, and the logic of the history
  table. Verus proves every function against its contract, except
  the small wrappers marked `external_body` that call the outside crates
  (age, bech32, x25519-dalek, base64, sha2, zeroize) and a few std string functions: their
  contracts are trusted, and their doc comments say what they claim.
- `app/` is the Tauri application around it: the commands, the clipboard
  watcher, the store files, the tray, and the Leptos user interface. It turns
  JSON into the library's values and back, and hands the library plain values.
- `tests/` exercises the library with the real outside crates linked.
