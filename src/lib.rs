//! Management of game-server add-ons: which add-ons a client has, which the
//! server has, how their folders are named, and the override table that the
//! server reads at boot.
use vstd::prelude::*;

pub mod keyed;
pub mod script;
pub mod naming;
pub mod database;
pub mod overrides;
pub mod steam_apps;
pub mod cli;

pub use cli::{parse_option_args, Commands, Config};
pub use database::{DescriptorError, Field, Mod, ModOption, OptionItem};
pub use naming::{entry_id, DataBase, RootKind};
pub use overrides::{override_paths, Override, OverrideFileError, SinkPlan};
pub use script::{value2str, ScriptTable, ScriptValue, UnsupportedValue};
pub use steam_apps::{List, Listing, SteamApps, SyncAction};
