//! A structured editor for OpenSSH client configuration files.
//!
//! The configuration file is modelled as an ordered sequence of lines.
//! `Host` blocks, directive lines and the managed region are derived views
//! of that sequence, and every mutation is specified and verified against
//! the line model.

pub mod completion;
pub mod document;
pub mod edit;
pub mod form;
pub mod grammar;
pub mod identity;
pub mod numfmt;
pub mod record;
pub mod region;
pub mod shell;
pub mod text;
