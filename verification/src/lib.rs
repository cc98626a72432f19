//! Core logic of a terminal IRC client.
pub mod alias;
pub mod app;
pub mod batch;
pub mod chathistory;
pub mod collections;
pub mod commands;
pub mod completed;
pub mod e2e_gate;
pub mod emote_anim;
pub mod filehost;
pub mod gated_send;
pub mod history_discovery;
pub mod irc;
pub mod irc_dispatch;
pub mod irc_events;
pub mod keyring;
pub mod keys;
pub mod labels;
pub mod log_browser;
pub mod maintenance;
pub mod mentions;
pub mod monitor;
pub mod mouse;
pub mod multiline;
pub mod network_scope;
pub mod overlays;
pub mod paste;
pub mod presence;
pub mod read_markers;
pub mod reconnect;
pub mod search_query;
pub mod search_results;
pub mod server_history;
pub mod server_search;
pub mod state;
pub mod submit;
pub mod text;
pub mod times;
pub mod typing;
pub mod wire;
