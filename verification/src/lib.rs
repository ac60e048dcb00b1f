pub mod text;
pub mod config;
pub mod cidr;
pub mod aspath;
pub mod report;
pub mod alice;
pub mod session;
