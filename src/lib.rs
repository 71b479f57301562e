//! A small editor model for bill-of-materials documents: named prints, each
//! holding named units with a quantity, kept in a stable sorted order and
//! exchanged as a two-level JSON object.

pub mod models;
pub mod order;
pub mod sorting;
pub mod document;
pub mod state;
