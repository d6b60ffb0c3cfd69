pub mod envelope;
pub mod inscription_id;
pub mod inscription;
pub mod script;
