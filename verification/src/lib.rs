pub mod key;
pub mod laws;
pub mod password;
pub mod word;
