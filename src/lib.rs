//! Role-based access control for an administration back office: signed
//! credentials carrying a permission snapshot, per-request authorization,
//! permission resolution from role assignments, the user menu tree, and the
//! department hierarchy with its materialized ancestor paths.

pub mod auth;
pub mod dept;
pub mod error;
pub mod login;
pub mod menu;
pub mod model;
pub mod path;
pub mod permission;
pub mod response;
pub mod token;
pub mod vo;
