pub mod base64;
pub mod batch;
pub mod json;
pub mod rename;
pub mod selection;
pub mod text;
pub mod vmess;
