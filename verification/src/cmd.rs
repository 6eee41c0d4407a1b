//! The operations the tool offers, one module per subcommand.

pub mod add;
pub mod clone;
pub mod search;
pub mod setup;
