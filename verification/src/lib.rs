pub mod binary;
pub mod container;
pub mod engine;
pub mod pdf_file;
pub mod report;
pub mod text;
pub mod xml;
