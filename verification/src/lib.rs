//! Text sources over redwing branches: encoding and line-ending detection,
//! character and line access, normalised views and line-wise editing.

pub mod branch;
pub mod buffer;
pub mod buffer_laws;
pub mod chars;
pub mod codec;
pub mod coding_laws;
pub mod denormalise;
pub mod editing;
pub mod encoded;
pub mod encoding;
pub mod error;
pub mod line_count;
pub mod line_map;
pub mod line_map_event;
pub mod line_map_segment;
pub mod lines;
pub mod mallard_bridge;
pub mod map_laws;
pub mod message_laws;
pub mod offset_map;
pub mod opening_laws;
pub mod reading_laws;
pub mod round_trip;
pub mod source;
pub mod text;
pub mod text_laws;
pub mod utf8;
pub mod view;
pub mod view_laws;
pub mod wide_text;
