//! What a monochrome e-ink display shows of the Formula 1 season, and its
//! pixel buffer as text.
//!
//! A buffer of samples is written out either as a C array initializer of
//! hexadecimal bytes ([`header_file`]) or as a plain-text PPM image
//! ([`ppm`]). Both encoders append to a [`sink::Sink`] and are specified by
//! the exact text they produce. The lines of text that the screens show are
//! laid out in [`f1`].

pub mod decimal;
pub mod f1;
pub mod header_file;
pub mod inline_bytes;
pub mod ppm;
pub mod sink;
