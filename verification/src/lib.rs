//! Sizes of data, written as a number followed by the letters of a unit and
//! of a base (`1.5GiB`, `512Kb`, `2048`), and their conversion from one unit
//! and base to another.
//!
//! `args` reads the text of a size and answers a command line; `convert`
//! holds units, bases and sizes and converts them; `decimal` is the exact
//! arithmetic beneath, over the digit sequences of `digits`; `numeral` says
//! how numbers are written.
//!
//! Magnitudes are exact. A number written with a point is kept as a decimal
//! of any length, and a conversion multiplies and divides it without
//! rounding.
pub mod args;
pub mod convert;
pub mod decimal;
pub mod digits;
pub mod numeral;
