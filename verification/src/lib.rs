//! A WebDAV view of OneDrive: the decisions of a small server between a WebDAV
//! client and Microsoft Graph, without any input or output of its own.
//!
//! Where an operation needs the outside world, it is a function from how far it
//! is and what was last heard to what is to be done next. The modules whose
//! names end in `laws` state what holds of several operations together.

pub mod answer_laws;
pub mod api;
pub mod api_laws;
pub mod auth;
pub mod calendar;
pub mod client_laws;
pub mod config;
pub mod date_laws;
pub mod dav;
pub mod failure_laws;
pub mod format;
pub mod format_laws;
pub mod graph;
pub mod graph_laws;
pub mod http_client;
pub mod index;
pub mod index_laws;
pub mod json;
pub mod layout_laws;
pub mod lookup_laws;
pub mod move_laws;
pub mod page_laws;
pub mod path_laws;
pub mod plugin_laws;
pub mod record_laws;
pub mod request_laws;
pub mod resolve_laws;
pub mod server;
pub mod server_laws;
pub mod snapshot;
pub mod snapshot_laws;
pub mod state_file;
pub mod state_file_laws;
pub mod storage_laws;
pub mod sync;
pub mod sync_laws;
pub mod sync_stats;
pub mod text;
pub mod text_laws;
pub mod textmap;
pub mod tick_laws;
pub mod timestamp;
pub mod timestamp_laws;
pub mod xml;
