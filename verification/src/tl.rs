//! The translation layer and its helpers.

pub mod check_center;
pub mod tl_helper;
pub mod model;
pub mod lemmas;
pub mod region;
pub mod laws;
pub mod tl;
