pub mod record;
pub mod codec;
pub mod decode;
pub mod store;
pub mod laws;
