//! Kernel configuration flag checking.
//!
//! A kernel build configuration is a sequence of text lines, most of the
//! form `CONFIG_<NAME>=<value>`.  This library answers, for a requested
//! flag name, whether the configuration enables it built-in (`=y`), as a
//! module (`=m`), leaves it unset, or does not recognize it at all, and
//! can extend a configuration with missing flags.  All logic works on
//! plain bytes and lines; reading, decompressing and writing files is
//! left to the caller.

pub mod bytes;
pub mod flags;
pub mod lines;
pub mod mutate;
pub mod report;
pub mod resolve;
