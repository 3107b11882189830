//! Core of a newline-delimited message server: the wire record, the framing
//! codec, the per-connection driver, and the reference echo service.

pub mod codec;
pub mod driver;
pub mod message;
pub mod service;

pub use codec::decode_frame;
pub use codec::encode_frame;
pub use codec::CodecError;
pub use codec::MessageCodec;
pub use driver::encode_all;
pub use driver::ConnDriver;
pub use message::Message;
pub use service::EchoService;
