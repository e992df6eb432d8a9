pub mod compression;
pub mod fs;
pub mod json;
