//! A verified model of a BrailleNote/VoiceNote class handheld.
//!
//! [`pxa270`] holds the peripherals of the processor, each a register file
//! with its state machine. [`gandalf`] holds the board around it: memory map,
//! flash, keyboard, modem, licence chip, USB and PCMCIA storage, and the
//! formats and patches that firmware images need.
//!
//! Each device has a state that its contracts speak of, and its methods say
//! what becomes of it. What holds of several calls, or of every state, is a
//! proof function named `law_`.
//!
//! [`bits`], [`bytes`] and [`text`] hold what the rest shares: single bits,
//! numbers as bytes, and numbers as text.

pub mod bits;
pub mod bytes;
pub mod gandalf;
pub mod pxa270;
pub mod text;
