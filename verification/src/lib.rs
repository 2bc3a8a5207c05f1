//! Protocol engine for the TorchBearer USB-serial spectrometer and the
//! integer logic around it: frame building and parsing, payload decoding,
//! and the layout of spectra loaded from files.

pub mod frame;
pub mod reader;
pub mod payload;
pub mod device;
pub mod spectrum_file;
