//! Decisions behind the built-in tool wrappers: whether a build result is
//! up to date, whether a working tree is clean, and what the default
//! handler of a MIME type is. The programs and file queries they rest on
//! are run by the caller, which hands their results in.
pub mod fs;
pub mod git;
pub mod mime;
