//! Conversion of a directory of markdown notes into blog posts: the
//! verified text, path and date logic of the converter.

pub mod text;
pub mod paths;
pub mod aux;
pub mod reader;
pub mod mapper;
pub mod batcher;
pub mod events;
