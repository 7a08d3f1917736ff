//! zygdrum: the control surface, MIDI handling, bit crusher and bookkeeping of a three-voice FM drum
//! synth. Single-precision numbers are held by their bits.

pub mod arith;
pub mod capture;
pub mod ccmap;
pub mod controls;
pub mod crush;
pub mod engine;
pub mod fft;
pub mod fourier;
pub mod geometry;
pub mod midi;
pub mod notes;
pub mod panel;
pub mod ring;
pub mod single;
pub mod text;
