//! Keyed list reconciliation, route paths and the HTML stream of the halyard renderer.

pub mod keys;
pub mod diff_order;
pub mod list_apply;
pub mod list_diff;
pub mod page_model;
pub mod page_order;
pub mod plan_fill;
pub mod slots;
pub mod text;
pub mod view;
pub mod ssr;
pub mod view_error;
pub mod html;
pub mod iterators;
pub mod strings;
pub mod keyed;
pub mod template;
pub mod dom_error;
pub mod dom_tree;
pub mod hydration;
pub mod request_error;
pub mod route_path;
pub mod server_paths;
