//! Binary codec for fixed-layout game save files: a bounds-checked cursor,
//! little-endian scalars, sign-selected strings, enums checked against a
//! closed set of values, and containers that recurse through one shared
//! decode/encode contract.

pub mod containers;
pub mod cursor;
pub mod error;
pub mod laws;
pub mod ordered_map;
pub mod rc_ui;
pub mod save_data;
pub mod text;
