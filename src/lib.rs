//! A structured-argumentation engine: knowledge bases, argument construction,
//! attacks and defeats under preferences, abstract frameworks, extensions and
//! the ICCMA text format.
pub mod kb;
pub mod arguments;
pub mod defeats;
pub mod framework;
pub mod iccma;
pub mod request;
pub mod service;
