pub mod records;
pub mod structures;
