//! Timecode off a Tentacle Sync E: the arithmetic, the parsers, the clocks and
//! the wording, verified.
//!
//! Everything here works on plain values. Radio, sound card, files and the
//! terminal belong to the program around the library, which hands in what
//! arrived and does what it is told.
//!
//! There is no floating point in the library. A position on the timecode
//! timeline is an integer count of nano-frames, an instant or a duration an
//! integer count of nanoseconds, and a rate a ratio of integers.

pub mod audio;
pub mod big;
pub mod ble;
pub mod display;
pub mod dump;
pub mod error;
pub mod freerun;
pub mod gatt;
pub mod jam;
pub mod listen;
pub mod ltc;
pub mod num;
pub mod order;
pub mod probe;
pub mod rec;
pub mod screen;
pub mod tentacle;
pub mod text;
pub mod time;
pub mod timecode;
pub mod wav;

