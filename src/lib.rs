//! A builder for external processes, the rules by which it is rendered for
//! diagnostics, and the line dispatcher and result composer that turn a
//! child's output and exit status into one outcome.
pub mod order;
pub mod builder;
pub mod render;
pub mod dispatch;
pub mod outcome;
