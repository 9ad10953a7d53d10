//! Session cache and render scheduling for frame-based vector animations.

pub mod animation_entry;
pub mod animation_info;
pub mod animation_manager;
pub mod collection_map;
pub mod frame;
pub mod frame_collection;
pub mod frame_request;
pub mod laws;
pub mod playback;
pub mod session;
pub mod source;
