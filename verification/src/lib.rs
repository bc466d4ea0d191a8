pub mod cleanup;
pub mod config;
pub mod driver;
pub mod fstree;
pub mod scan;
pub mod paths;
pub mod report;
