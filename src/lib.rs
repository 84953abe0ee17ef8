//! A plugin orchestration engine over a validated timeline of events.
//!
//! `event` holds the timeline (`EventTable`), `plugin` the three plugin
//! capability classes and their typed ports, `schedule` the dependency
//! ordering of one baseline step, `pipeline` the engine that wires plugins
//! together, orders them and runs them, and `error` what can go wrong. `calendar` holds the
//! month navigation and grid arithmetic of a calendar display.

pub mod calendar;
pub mod error;
pub mod event;
pub mod pipeline;
pub mod plugin;
pub mod schedule;
