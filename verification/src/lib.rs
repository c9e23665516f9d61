//! An in-memory multi-document text editing session: a registry of open text
//! buffers keyed by title, the tab open order, the active selection, and
//! literal substring search and replace over buffer content.

pub mod naming;
pub mod session;
pub mod text;
