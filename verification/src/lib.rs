pub mod dupes;
pub mod io;
pub mod utils;
