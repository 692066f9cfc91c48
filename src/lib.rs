//! A directory browser's core: request paths become ancestor trails,
//! breadcrumbs, sorted listings and a choice of page template.
pub mod listing;
pub mod paths;
pub mod request;
pub mod template;
pub mod types;
