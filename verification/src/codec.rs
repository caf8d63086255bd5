//! Block codecs: stored as-is, or compressed with LZ4 block format.

use vstd::prelude::*;
use crate::error::{Error, ErrorKind, Result};

verus! {

/// Identifies the codec of a stored block.
#[derive(Debug, Clone, Copy, PartialEq, Eq, Structural, Hash)]
pub enum CodecId {
    Uncompressed,
    FastLz4Block,
}

impl CodecId {
    /// The codec's name.
    #[must_use]
    pub fn as_str(self) -> (r: &'static str)
        ensures
            r == codec_name(self),
    {
        match self {
            CodecId::Uncompressed => "none",
            CodecId::FastLz4Block => "fast-lz4-block",
        }
    }
}

pub open spec fn codec_name(codec: CodecId) -> &'static str {
    match codec {
        CodecId::Uncompressed => "none",
        CodecId::FastLz4Block => "fast-lz4-block",
    }
}

/// What `lz4_flex::block::compress` returns for these bytes.
pub uninterp spec fn lz4_block_compressed(input: Seq<u8>) -> Seq<u8>;

/// What `lz4_flex::block::decompress` returns for these bytes and this
/// output size: the decompressed bytes, or `None` where it reports an error.
pub uninterp spec fn lz4_block_decompressed(input: Seq<u8>, capacity: nat) -> Option<Seq<u8>>;

#[verifier::external_type_specification]
#[verifier::external_body]
pub struct ExDecompressError(lz4_flex::block::DecompressError);

/// Inputs that `lz4_flex::block::compress` takes without overflow: its
/// output buffer is sized as `20 + len * 110 / 100` in `usize`, and its hash
/// table keeps input positions as `u32`.
pub open spec fn lz4_compress_fits(len: nat) -> bool {
    &&& len <= u32::MAX
    &&& len * 110 + 20 <= usize::MAX
}

/// Inputs that `lz4_flex::block::decompress` takes without overflow: a
/// length it reads sums continuation bytes into a `u32`, and it adds such a
/// length to the output position in `usize`; the output buffer of
/// `capacity` bytes is allocated up front.
pub open spec fn lz4_decompress_fits(stored_len: nat, capacity: nat) -> bool {
    &&& 255 * stored_len + 64 <= u32::MAX
    &&& capacity + 255 * stored_len + 64 <= usize::MAX
    &&& capacity <= isize::MAX
}

/// Calls `lz4_flex::block::compress`, which returns the LZ4 block encoding of
/// `input` without a size prefix. The contract names the result and states
/// what the crate documents of it: `decompress` with the input length as the
/// output size gives the input back.
#[verifier::external_body]
fn lz4_compress(input: &[u8]) -> (r: Vec<u8>)
    requires
        lz4_compress_fits(input@.len()),
    ensures
        r@ == lz4_block_compressed(input@),
        lz4_block_decompressed(r@, input@.len()) == Some(input@),
{
    lz4_flex::block::compress(input)
}

/// Calls `lz4_flex::block::decompress`, which decodes an LZ4 block into an
/// output of at most `capacity` bytes and reports an error on malformed input
/// or when the output would not fit. The contract names the result; in the
/// safe decoder that the crate builds by default the output never exceeds
/// `capacity`, which the contract states too. The error value is passed on
/// unchanged.
#[verifier::external_body]
fn lz4_decompress(input: &[u8], capacity: usize) -> (r: core::result::Result<Vec<u8>, lz4_flex::block::DecompressError>)
    requires
        lz4_decompress_fits(input@.len(), capacity as nat),
    ensures
        r is Ok <==> lz4_block_decompressed(input@, capacity as nat) is Some,
        r matches Ok(bytes) ==> lz4_block_decompressed(input@, capacity as nat) == Some(bytes@),
        r matches Ok(bytes) ==> bytes@.len() <= capacity,
{
    lz4_flex::block::decompress(input, capacity)
}

/// Formats an LZ4 decoding error with its `Display` text. Nothing is stated
/// of the text.
#[verifier::external_body]
fn lz4_error_text(error: &lz4_flex::block::DecompressError) -> String {
    format!("{error}")
}

/// Bytes a codec stores for `input`.
pub open spec fn block_encoded(codec: CodecId, input: Seq<u8>) -> Seq<u8> {
    match codec {
        CodecId::Uncompressed => input,
        CodecId::FastLz4Block => lz4_block_compressed(input),
    }
}

/// Bytes a codec recovers from a stored block of `len` decoded bytes, or
/// `None` where decoding fails.
pub open spec fn block_decoded(codec: CodecId, input: Seq<u8>, len: nat) -> Option<Seq<u8>> {
    match codec {
        CodecId::Uncompressed => if input.len() == len {
            Some(input)
        } else {
            None
        },
        CodecId::FastLz4Block => if !lz4_decompress_fits(input.len(), len) {
            None
        } else {
            match lz4_block_decompressed(input, len) {
                Some(bytes) => if bytes.len() == len {
                    Some(bytes)
                } else {
                    None
                },
                None => None,
            }
        },
    }
}

/// Whether a codec can store `input` in a block that it can read back.
/// LZ4 is limited by the sizes its encoder and decoder take.
pub open spec fn block_codable(codec: CodecId, input: Seq<u8>) -> bool {
    match codec {
        CodecId::Uncompressed => true,
        CodecId::FastLz4Block => lz4_compress_fits(input.len()) && lz4_decompress_fits(
            lz4_block_compressed(input).len(),
            input.len(),
        ),
    }
}

/// The message of the error for a block too large for its codec.
pub open spec fn oversized_block_message() -> Seq<char> {
    "block too large for lz4 codec"@
}

/// Whether `lz4_flex::block::decompress` takes a block of `stored_len`
/// bytes with this output size.
fn decompress_fits(stored_len: usize, capacity: usize) -> (r: bool)
    ensures
        r == lz4_decompress_fits(stored_len as nat, capacity as nat),
{
    if stored_len > (0xffff_ffffusize - 64) / 255 {
        return false;
    }
    let expanded = 255 * stored_len + 64;
    capacity <= isize::MAX as usize && capacity <= usize::MAX - expanded
}

/// A block compression scheme.
pub trait BlockCodec {
    fn id(&self) -> CodecId;

    fn encode(&self, input: &[u8]) -> Result<Vec<u8>>;

    fn decode(&self, input: &[u8], uncompressed_len: usize) -> Result<Vec<u8>>;
}

/// Stores blocks as they are.
#[derive(Debug, Default, Clone, Copy)]
pub struct NoneCodec;

impl BlockCodec for NoneCodec {
    fn id(&self) -> (r: CodecId)
        ensures
            r == CodecId::Uncompressed,
    {
        CodecId::Uncompressed
    }

    fn encode(&self, input: &[u8]) -> (r: Result<Vec<u8>>)
        ensures
            r matches Ok(bytes) && bytes@ == input@,
    {
        Ok(crate::bytes::to_vec(input))
    }

    fn decode(&self, input: &[u8], uncompressed_len: usize) -> (r: Result<Vec<u8>>)
        ensures
            match r {
                Ok(bytes) => block_decoded(CodecId::Uncompressed, input@, uncompressed_len as nat) == Some(bytes@),
                Err(e) => block_decoded(CodecId::Uncompressed, input@, uncompressed_len as nat) is None
                    && e.kind() == ErrorKind::InvalidFormat,
            },
    {
        if input.len() == uncompressed_len {
            Ok(crate::bytes::to_vec(input))
        } else {
            Err(Error::invalid_format("uncompressed block length mismatch"))
        }
    }
}

/// LZ4 block compression.
#[derive(Debug, Default, Clone, Copy)]
pub struct FastLz4BlockCodec;

impl BlockCodec for FastLz4BlockCodec {
    fn id(&self) -> (r: CodecId)
        ensures
            r == CodecId::FastLz4Block,
    {
        CodecId::FastLz4Block
    }

    fn encode(&self, input: &[u8]) -> (r: Result<Vec<u8>>)
        ensures
            r is Ok <==> block_codable(CodecId::FastLz4Block, input@),
            r matches Ok(bytes) ==> bytes@ == lz4_block_compressed(input@),
            block_codable(CodecId::FastLz4Block, input@) ==> block_decoded(
                CodecId::FastLz4Block,
                lz4_block_compressed(input@),
                input@.len(),
            ) == Some(input@),
            r matches Err(e) ==> e.kind() == ErrorKind::InvalidOptions && e.message_view()
                == oversized_block_message(),
    {
        if input.len() > 0xffff_ffff || input.len() > (usize::MAX - 20) / 110 {
            return Err(Error::invalid_options("block too large for lz4 codec"));
        }
        let compressed = lz4_compress(input);
        if !decompress_fits(compressed.len(), input.len()) {
            return Err(Error::invalid_options("block too large for lz4 codec"));
        }
        Ok(compressed)
    }

    fn decode(&self, input: &[u8], uncompressed_len: usize) -> (r: Result<Vec<u8>>)
        ensures
            match r {
                Ok(bytes) => block_decoded(CodecId::FastLz4Block, input@, uncompressed_len as nat) == Some(bytes@),
                Err(e) => block_decoded(CodecId::FastLz4Block, input@, uncompressed_len as nat) is None
                    && e.kind() == ErrorKind::InvalidFormat,
            },
    {
        if !decompress_fits(input.len(), uncompressed_len) {
            return Err(Error::invalid_format("lz4 block too large to decode"));
        }
        match lz4_decompress(input, uncompressed_len) {
            Ok(decoded) => {
                if decoded.len() == uncompressed_len {
                    Ok(decoded)
                } else {
                    Err(Error::invalid_format("lz4 block length mismatch"))
                }
            },
            Err(error) => {
                let mut message = String::from_str("invalid lz4 block: ");
                let detail = lz4_error_text(&error);
                message.append(detail.as_str());
                Err(Error::InvalidFormat { message })
            },
        }
    }
}

/// Encodes a block with the given codec. Decoding the result with the same
/// codec and the input's length gives the input back.
pub fn encode_block(codec: CodecId, input: &[u8]) -> (r: Result<Vec<u8>>)
    ensures
        r is Ok <==> block_codable(codec, input@),
        r matches Ok(bytes) ==> bytes@ == block_encoded(codec, input@),
        block_codable(codec, input@) ==> block_decoded(codec, block_encoded(codec, input@), input@.len())
            == Some(input@),
        r matches Err(e) ==> e.kind() == ErrorKind::InvalidOptions && e.message_view()
            == oversized_block_message(),
{
    match codec {
        CodecId::Uncompressed => NoneCodec.encode(input),
        CodecId::FastLz4Block => FastLz4BlockCodec.encode(input),
    }
}

/// Decodes a block of `uncompressed_len` bytes stored with the given codec.
pub fn decode_block(codec: CodecId, input: &[u8], uncompressed_len: usize) -> (r: Result<Vec<u8>>)
    ensures
        match r {
            Ok(bytes) => block_decoded(codec, input@, uncompressed_len as nat) == Some(bytes@),
            Err(e) => block_decoded(codec, input@, uncompressed_len as nat) is None && e.kind()
                == ErrorKind::InvalidFormat,
        },
{
    match codec {
        CodecId::Uncompressed => NoneCodec.decode(input, uncompressed_len),
        CodecId::FastLz4Block => FastLz4BlockCodec.decode(input, uncompressed_len),
    }
}

} // verus!
