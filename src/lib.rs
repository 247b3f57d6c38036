//! Decoding of fixed-width text records laid out by a format descriptor such
//! as `(3I5,1X,10F8.3)`.
pub mod format_string;
