//! Skip list: an ordered map from byte-string keys to byte-string values.

pub mod entries;
pub mod height;
pub mod iter;
pub mod laws;
pub mod list;
pub mod shape;
