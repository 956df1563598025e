//! A verified MIDI mixer core: decodes MIDI control-change events, detects
//! edges so each physical change is acted on exactly once, validates a
//! user-defined profile binding controls to named audio sinks, and plans the
//! volume and mute actions a dispatch tick must issue.

pub mod dispatch;
pub mod midi;
pub mod profile;
pub mod resolver;
