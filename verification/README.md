# kermin_mod_manager

The logic of a mod manager for Single Player Tarkov (SPT) 4.0, written in Verus: every function
under `src/` states what it does. The statement is proved, except where a function only calls into
the standard library or another crate: the functions marked `external_body` and the items
`assume_specification` state what those calls do, and that is believed. Each says so in its comment.

- `src/resolver.rs`, `src/resolver_laws.rs` - where the files of an archive belong in the game
  folder.
- `src/archive.rs`, `src/unzip.rs` - archive formats, unpacking, and the report on an archive.
- `src/install.rs`, `src/manifest.rs` - what an installation does, and the manifest it leaves.
- `src/inventory.rs`, `src/tree.rs`, `src/game.rs` - what is in the game folder.
- `src/uninstall.rs`, `src/toggle.rs` - removing, disabling and enabling a mod.
- `src/forge.rs`, `src/search.rs`, `src/dependencies.rs`, `src/updates.rs`, `src/version.rs`,
  `src/meta.rs` - what the Forge answers about mods, their versions and what they need.
- `src/download.rs`, `src/cancel.rs` - the course of a download.
- `src/text.rs`, `src/names.rs`, `src/paths.rs`, `src/json.rs` - texts, names, paths and JSON.

`app/` is the desktop application around it: commands, files and the network. It needs the crates
`tauri` and `tauri-plugin-dialog` besides those in `Cargo.toml`.

Functions whose names start with `law_` state what holds of the library as a whole.
