//! A library of parsed e-book containers: documents, their navigation data,
//! cover resolution, resource resolution and the HTML content transform.
pub mod text;
pub mod transform;
pub mod document;
pub mod library;
pub mod gateway;
