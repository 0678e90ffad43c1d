pub mod application;
pub mod bits;
pub mod encoding;
pub mod token;
