//! WARC record parsing and writing, with the header model, the record
//! stream, and the message model of the streaming parse service.
pub mod bytes;
pub mod case_key;
pub mod codec;
pub mod digest;
pub mod header;
pub mod header_laws;
pub mod ids;
pub mod record_type;
pub mod stream_io;
pub mod gzip;
pub mod record;
pub mod record_laws;
pub mod proto;
pub mod convert;
pub mod convert_laws;
pub mod service;
pub mod transport;
pub mod batch;
pub mod channel_reader;
pub mod bench;
pub mod dom_tokens;
pub mod html;
pub mod char_data;
