//! Verified core of an ESP32 alarm clock: the alarm storage format, the
//! display driver's decisions, the rotary encoder's state machine, time
//! keeping and the parsing of non-volatile storage pages.

pub mod alarm;
pub mod dial;
pub mod error;
pub mod time;
pub mod display;
pub mod net;
pub mod speaker;
pub mod nvs;
pub mod logs;
