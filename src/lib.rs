//! Core of a signal-safe backtrace backend: a sorted table of loaded code
//! modules, a frame walker driven by an unwinding engine, and a symbol
//! resolver with a fixed fallback chain.
mod debug_info;
mod registry;
mod symbol;
mod walker;

pub use debug_info::{DebugContext, FirstRecord};
pub use registry::{ModuleEntry, ModuleRegistry};
pub use symbol::{symbol_from_record, Frame, Symbol};
pub use walker::{Trace, UnwindStep};
