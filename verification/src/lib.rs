//! Structural diffs between self-describing value trees.
//!
//! A [`Diff`] is a flat script of [`Change`]s that turns one [`Value`] into
//! another. Scripts are computed by [`Diff::between_values`], applied by
//! [`Diff::apply_to_value`], carried as bytes by [`Diff::serialize`] and
//! [`Diff::deserialize`], and shown as text by [`Diff::to_string`].
//!
//! What each of these does is stated by a spec function of its module:
//! [`differ::between`], [`apply::apply`], [`binary::script_bytes`],
//! [`binary::parse_script`] and [`text::script_text`]. What holds between
//! them is proved in [`correctness`], [`round_trip`] and
//! [`text_round_trip`]: above all, that applying the script between two
//! trees to the first gives the second.
//!
//! The atoms of the binary form are written and read by `pot`, its indices
//! and lengths by `ordered-varint`. The module [`codec`] holds the calls
//! into both, and says what this crate takes them to return.

pub mod apply;
pub mod binary;
pub mod change;
pub mod codec;
pub mod correctness;
pub mod differ;
pub mod estimate;
pub mod holder;
pub mod round_trip;
pub mod text;
pub mod text_round_trip;
pub mod value;

pub use apply::{Error, Mismatch};
pub use change::{Change, Diff};
pub use holder::Diffable;
pub use value::{Float, Integer, Value};
