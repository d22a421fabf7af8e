pub mod aead;
pub mod crypto;
pub mod file;
pub mod task;
