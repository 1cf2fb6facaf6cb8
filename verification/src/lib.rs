//! Verified core of a VLESS-over-HTTP/2 proxy server: the VLESS request
//! header parser, the configuration-file grammar, the settings merge, the
//! routing decisions for incoming streams and the subscription documents.

pub mod file_config;
pub mod net;
pub mod routing;
pub mod settings;
pub mod subscription;
pub mod text;
pub mod tls;
pub mod user_id;
pub mod vless;
