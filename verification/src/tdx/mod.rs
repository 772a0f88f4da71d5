pub mod paths;
pub mod day_file;
