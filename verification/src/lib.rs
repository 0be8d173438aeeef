//! Decoding and presentation logic of a Bilibili danmaku viewer: the protobuf
//! wire format of danmaku segments, the selection of subtitle and audio
//! streams, identifiers and request addresses, and the layout of the screen.

pub mod varint;
pub mod text;
pub mod danmaku;
pub mod bvid;
pub mod screen;
pub mod api;
pub mod fetch;
pub mod cli;
