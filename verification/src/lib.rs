//! A verified core for a terminal script-runner: a frecency scorer, a
//! bounded self-evicting recency store with its persisted form, and the
//! ranking engine that orders script lists by fuzzy relevance, favorites and
//! frecency — together with the pure decisions around them: project root
//! discovery, package-manager detection, environment-file selection and
//! parsing, argument history, and list navigation.

pub mod args_history;
pub mod codec;
pub mod config_path;
pub mod env_files;
pub mod favorites;
pub mod frecency;
pub mod fuzzy;
pub mod global_env;
pub mod nav;
pub mod package_manager;
pub mod project_id;
pub mod project_root;
pub mod recents;
pub mod script_configs;
pub mod sort;
pub mod strutil;
pub mod workspaces;
