//! The rules behind the subcommands.
pub mod cmp;
pub mod cp;
pub mod create;
pub mod df;
pub mod diff;
pub mod du;
pub mod find;
pub mod grep;
pub mod info;
pub mod ls;
pub mod mv;
pub mod stat;
pub mod transfer;
pub mod tree;
pub mod which;
