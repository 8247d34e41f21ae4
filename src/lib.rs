//! Content-derived identifiers for media assets: codec, similarity hashes and code generators.
use vstd::prelude::*;

pub mod bits;
pub mod cdc;
pub mod codec;
pub mod digest;
pub mod encoding;
pub mod generate;
pub mod meta;
pub mod minhash;
pub mod simhash;
pub mod streaming;
pub mod text;
pub mod wtahash;

pub use crate::cdc::alg_cdc_chunks;
pub use crate::codec::{
    decode_header, decode_length, decode_units, encode_component, encode_header, encode_length,
    encode_units, iscc_decompose, MainType, SubType, Version,
};
pub use crate::encoding::{decode_base32, encode_base32, encode_base64};
pub use crate::generate::{
    gen_audio_code_v0, gen_data_code_v0, gen_instance_code_v0, gen_iscc_code_v0,
    gen_mixed_code_v0, gen_text_code_v0, gen_video_code_v0, AudioCodeResult, DataCodeResult,
    ImageCodeResult, InstanceCodeResult, IsccCodeResult, MetaCodeResult, MixedCodeResult,
    SumCodeResult, TextCodeResult, VideoCodeResult, IO_READ_SIZE, META_TRIM_DESCRIPTION,
    META_TRIM_META, META_TRIM_NAME, TEXT_NGRAM_SIZE,
};
pub use crate::generate::soft_hash_video_v0;
pub use crate::meta::gen_meta_code_v0;
pub use crate::minhash::alg_minhash_256;
pub use crate::simhash::{alg_simhash, sliding_window, sliding_window_bytes};
pub use crate::streaming::{DataHasher, InstanceHasher};
pub use crate::text as utils;
pub use crate::text::{text_clean, text_collapse, text_remove_newlines, text_trim};
pub use crate::wtahash::alg_wtahash;

verus! {

/// Error of every fallible operation of the library.
#[derive(Debug)]
pub enum IsccError {
    /// An argument is malformed or outside what the operation accepts.
    InvalidInput(String),
}

impl IsccError {
    /// An `InvalidInput` error with message `msg`.
    pub fn invalid(msg: &str) -> (r: IsccError)
        ensures
            r matches IsccError::InvalidInput(m) && m@ == msg@,
    {
        IsccError::InvalidInput(msg.to_owned())
    }

    /// The error as text, prefixed by its kind.
    pub fn to_string(&self) -> (r: String)
        ensures
            self matches IsccError::InvalidInput(m) && r@ == "invalid input: "@ + m@,
    {
        match self {
            IsccError::InvalidInput(m) => {
                let prefix = String::from_str("invalid input: ");
                prefix.concat(m.as_str())
            },
        }
    }
}

/// Result of a fallible operation of the library.
pub type IsccResult<T> = Result<T, IsccError>;

} // verus!
