pub mod block_decoder;
pub mod block_packing;
pub mod docset;
pub mod encoding;
pub mod json_metadata;
pub mod json_path_writer;
pub mod owned_bytes;
pub mod position_reader;
pub mod query;
pub mod vint;
