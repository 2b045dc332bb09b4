pub mod bytes;
pub mod disk;
pub mod file;
