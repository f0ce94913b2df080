pub mod byte_array;
pub mod cairo_string_parser;
pub mod felt;
pub mod text;

pub use byte_array::ByteArray;
pub use cairo_string_parser::ParseError;
pub use cairo_string_parser::parse_cairo_string;
pub mod u256;

pub use felt::Felt;
pub use u256::to_hex_str;
pub use u256::CairoU256;
pub use u256::ConversionError;
