//! Telemetry core of a handheld GPS tracker: sentence assembly from a serial
//! byte stream, sentence classification and date decoding, and the filtered
//! trip statistics kept over recent fixes.
pub mod assembler;
pub mod bounded;
pub mod fns;
pub mod reader;
pub mod stack;
pub mod text;
pub mod display;
pub mod bridge;
pub mod storage;
