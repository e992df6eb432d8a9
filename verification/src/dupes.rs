pub mod bookkeeping;
pub mod laws;
pub mod report;
pub mod run;
