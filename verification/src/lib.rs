pub mod archive;
pub mod cancel;
pub mod dependencies;
pub mod details_laws;
pub mod download;
pub mod forge;
pub mod forge_laws;
pub mod game;
pub mod install;
pub mod install_laws;
pub mod inventory;
pub mod inventory_laws;
pub mod json;
pub mod manifest;
pub mod meta;
pub mod names;
pub mod paths;
pub mod placement_laws;
pub mod resolver;
pub mod resolver_laws;
pub mod search;
pub mod text;
pub mod toggle;
pub mod tree;
pub mod uninstall;
pub mod uninstall_laws;
pub mod unzip;
pub mod updates;
pub mod version;
