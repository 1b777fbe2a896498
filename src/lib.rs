//! Decoding of electron-event (EER) detector frames and reading of MRC map
//! headers.
pub mod accumulate;
pub mod bitstream;
pub mod decode;
pub mod image;
pub mod labels;
pub mod mrc;
