//! Turns a file-system routing tree into sitemap routes, classifies them
//! against configurable rules, and renders the resulting artifacts.

pub mod assemble;
pub mod config;
pub mod label;
pub mod record;
pub mod route;
pub mod scanner;
pub mod sitemap_json;
pub mod sitemap_xml;
pub mod text;
