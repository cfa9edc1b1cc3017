pub mod calendar;
pub mod download;
pub mod modlist;
pub mod report;
pub mod session;
pub mod text;
pub mod version;
