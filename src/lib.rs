//! Android sparse image codec and splitter, and the Fastboot protocol logic
//! that drives a USB device through flashing.

pub mod sparse;
pub mod image;
pub mod split;
pub mod protocol;
pub mod client;
pub mod download;
