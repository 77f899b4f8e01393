//! A log store's rules, as verified functions: the wire codec, the index
//! format, positions and retention interest, manifests, intake protocols.
//!
//! Everything here computes. What reads a file, opens a socket or sleeps is
//! in `app/`, and hands this library plain values.

pub mod append;
pub mod append_laws;
pub mod bark;
pub mod bytes;
pub mod catch_up_laws;
pub mod consumer;
pub mod consumer_laws;
pub mod cursor;
pub mod cursor_laws;
pub mod declaration;
pub mod declare;
pub mod delivery_laws;
pub mod entry;
pub mod entry_laws;
pub mod export;
pub mod feed;
pub mod file_intake;
pub mod file_intake_laws;
pub mod filter_laws;
pub mod follow;
pub mod follower;
pub mod follower_laws;
pub mod forest;
pub mod forests;
pub mod forests_laws;
pub mod format;
pub mod forward;
pub mod forward_laws;
pub mod frame;
pub mod frame_laws;
pub mod frames;
pub mod fs;
pub mod grain;
pub mod grain_laws;
pub mod indexing;
pub mod intake_laws;
pub mod interest;
pub mod interest_laws;
pub mod json;
pub mod layout_laws;
pub mod listing;
pub mod lists;
pub mod manifest_laws;
pub mod measure;
pub mod msgpack;
pub mod natural;
pub mod order;
pub mod paths;
pub mod place_laws;
pub mod rank;
pub mod record_laws;
pub mod registration;
pub mod registration_laws;
pub mod registry_view;
pub mod replication_laws;
pub mod section_laws;
pub mod sending;
pub mod sequence_laws;
pub mod text;
pub mod text_laws;
pub mod tokens;
pub mod uuid;
pub mod wire;
