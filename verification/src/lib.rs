//! Thousands separators for numbers.
//!
//! [`separate`] renders a number as text and puts a separator between the
//! groups of three digits of its integer part, in the style of a [`Locale`]:
//! one of the presets, or a custom [`Scheme`] started with [`custom`].
//! [`group_decimal`] does the same for a number that is already text.
//!
//! ```
//! use numsep::{custom, separate, Locale};
//!
//! assert_eq!("10,000", separate(10000, Locale::English));
//! assert_eq!("1.234.567,5", separate(1234567.5, Locale::German));
//!
//! let scheme = custom().set_separator("'").set_radix(",");
//! assert_eq!("2'000,5", separate(2000.5, Locale::Custom(scheme)));
//! ```
//!
//! What the result is, character by character, is stated in [`model`];
//! [`laws`] proves what holds of it.

pub mod engine;
pub mod laws;
pub mod lemmas;
pub mod model;
pub mod offsets;
pub mod scheme;
pub mod slicing;

pub use engine::{group_decimal, separate};
pub use scheme::{custom, get_separator, Locale, Scheme, Tokens};
