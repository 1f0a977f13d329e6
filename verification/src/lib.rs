pub mod api;
pub mod attr;
pub mod cache;
pub mod codec;
pub mod crypto;
pub mod fs;
pub mod hex;
pub mod util;
