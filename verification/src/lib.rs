//! A verified decoder for the WeeChat relay wire protocol: length/compression
//! framing, the recursive typed-value encoding, and reassembly of complete
//! frames from an arbitrary stream of byte chunks.

pub mod data;
pub mod errors;
mod ext;
pub mod decode;
pub mod message;
pub mod stream;
pub mod wire;

pub use data::{WeechatData, WeechatMessage};
pub use errors::{ErrorKind, WeechatParseError};
pub use decode::{get_element_type, parse_data, parse_element, read_array, read_hdata, read_long, read_pointer, read_string_32bit_length, read_string_8bit_length, read_time};
pub use message::{get_compression, get_length, get_message_type, get_raw_data};
pub use stream::Reassembler;
