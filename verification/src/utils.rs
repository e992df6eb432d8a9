pub mod hash;
pub mod text;
pub mod text_list;
pub mod verbosity;
