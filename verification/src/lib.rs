//! Startup admission gate: decides from the text that the operating system
//! reports about itself whether its build is recent enough to start on.

pub mod decimal;
pub mod gate;
pub mod startup;
pub mod text;
