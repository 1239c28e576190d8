//! Pass 2: a Zstandard frame primed with a shared dictionary, and a
//! decoder that never yields more than the caller's cap.
use crate::error::CodecError;
use crate::tls::{append_bytes, copy_bytes};
use std::io::Read;
use zstd::bulk::Compressor as ZstdCompressor;
use vstd::prelude::*;

verus! {

/// The compression level of the encoder.
pub const ZSTD_COMPRESSION_LEVEL: i32 = 20;

/// The base-2 log of the largest back-reference distance, on both sides.
pub const ZSTD_WINDOW_LOG: u32 = 24;

#[verifier::external_type_specification]
#[verifier::external_body]
pub struct ExIoError(std::io::Error);

/// The frame that `zstd::bulk::Compressor` makes of `msg` when loaded with
/// the dictionary `dict` at level 20, with no checksum, no dictionary id,
/// no content size, long distance matching and a window log of 24; `None`
/// where it fails.
pub uninterp spec fn zstd_frame_of(dict: Seq<u8>, msg: Seq<u8>) -> Option<Seq<u8>>;

/// What `zstd::stream::read::Decoder`, loaded with the dictionary `dict`
/// and a window log of at most 24, yields when `frame` is read to its end;
/// `None` where reading fails.
pub uninterp spec fn zstd_decoded_of(dict: Seq<u8>, frame: Seq<u8>) -> Option<Seq<u8>>;

/// Relies on `zstd::bulk::Compressor::with_dictionary` (which reports a
/// dictionary it cannot load as an error), its parameter setters and
/// `compress`: the frame of `msg` in the codec's configuration. Zstandard
/// is lossless: the decoder with the same dictionary gives `msg` back.
#[verifier::external_body]
fn encode_frame(dict: &[u8], msg: &[u8]) -> (r: Result<Vec<u8>, std::io::Error>)
    ensures
        match zstd_frame_of(dict@, msg@) {
            Some(f) => r matches Ok(v) && v@ == f,
            None => r is Err,
        },
        r matches Ok(v) ==> zstd_decoded_of(dict@, v@) == Some(msg@),
{
    let mut c = ZstdCompressor::with_dictionary(ZSTD_COMPRESSION_LEVEL, dict)?;
    c.include_checksum(false)?;
    c.include_dictid(false)?;
    c.include_contentsize(false)?;
    c.long_distance_matching(true)?;
    c.window_log(ZSTD_WINDOW_LOG)?;
    c.compress(msg)
}

/// Relies on `zstd::stream::read::Decoder::with_dictionary` (which reports
/// a dictionary it cannot load as an error), `window_log_max` and
/// `Read::take(limit).read_to_end`: the first `limit` bytes of what `frame`
/// decodes to. Where reading to the end fails, a read that stops earlier
/// can only succeed by reaching `limit`.
#[verifier::external_body]
fn decode_prefix(dict: &[u8], frame: &[u8], limit: u64) -> (r: Result<Vec<u8>, std::io::Error>)
    ensures
        r matches Ok(v) ==> v@.len() <= limit,
        match zstd_decoded_of(dict@, frame@) {
            Some(o) => r matches Ok(v) && v@ == (if o.len() <= limit {
                o
            } else {
                o.take(limit as int)
            }),
            None => r matches Ok(v) ==> v@.len() == limit,
        },
{
    let mut d = zstd::stream::read::Decoder::with_dictionary(frame, dict)?;
    d.window_log_max(ZSTD_WINDOW_LOG)?;
    let mut out = Vec::new();
    d.take(limit).read_to_end(&mut out)?;
    Ok(out)
}

/// The dictionary bundled with the library, as values.
pub open spec fn builtin_dictionary_bytes() -> Seq<u8> {
    Seq::empty()
}

/// The dictionary bundled with the library. It is empty: frames then use
/// no shared dictionary; `Compressor::new` and `Decompressor::new` take
/// a trained one.
pub fn builtin_dictionary() -> (r: Vec<u8>)
    ensures
        r@ == builtin_dictionary_bytes(),
{
    let r: Vec<u8> = Vec::new();
    assert(r@ =~= builtin_dictionary_bytes());
    r
}

/// Compresses whole messages into single Zstandard frames.
pub struct Compressor {
    dict: Vec<u8>,
}

impl Compressor {
    /// The dictionary the frames are primed with.
    pub closed spec fn dictionary(&self) -> Seq<u8> {
        self.dict@
    }

    /// A compressor primed with `dict`.
    pub fn new(dict: &[u8]) -> (r: Self)
        ensures
            r.dictionary() == dict@,
    {
        let d = copy_bytes(dict, 0, dict.len());
        assert(d@ =~= dict@);
        Compressor { dict: d }
    }

    /// A compressor primed with the bundled dictionary.
    pub fn new_from_builtin() -> (r: Self)
        ensures
            r.dictionary() == builtin_dictionary_bytes(),
    {
        Compressor { dict: builtin_dictionary() }
    }

    /// Compresses `msg` into one frame and appends it to `output`: level
    /// 20, no checksum, no dictionary id, no content size, long distance
    /// matching on, a window of `2^24` bytes.
    pub fn compress(&self, msg: &[u8], output: Vec<u8>) -> (r: Result<Vec<u8>, CodecError>)
        ensures
            match zstd_frame_of(self.dictionary(), msg@) {
                Some(f) => r matches Ok(v) && v@ == output@ + f,
                None => r == Err::<Vec<u8>, CodecError>(CodecError::CoderFailure),
            },
            r matches Ok(v) ==> zstd_decoded_of(self.dictionary(), v@.skip(output@.len() as int))
                == Some(msg@),
    {
        match encode_frame(self.dict.as_slice(), msg) {
            Ok(frame) => {
                let mut out = output;
                let ghost before = out@;
                append_bytes(&mut out, frame.as_slice());
                assert(out@.skip(before.len() as int) =~= frame@);
                Ok(out)
            },
            Err(_) => Err(CodecError::CoderFailure),
        }
    }

    /// Compresses `msg` into one frame.
    pub fn compress_to_bytes(&self, msg: &[u8]) -> (r: Result<Vec<u8>, CodecError>)
        ensures
            match zstd_frame_of(self.dictionary(), msg@) {
                Some(f) => r matches Ok(v) && v@ == f,
                None => r == Err::<Vec<u8>, CodecError>(CodecError::CoderFailure),
            },
            r matches Ok(v) ==> zstd_decoded_of(self.dictionary(), v@) == Some(msg@),
    {
        let output: Vec<u8> = Vec::with_capacity(msg.len());
        let r = self.compress(msg, output);
        proof {
            if let Ok(v) = &r {
                assert(v@.skip(0) =~= v@);
            }
            if let Some(f) = zstd_frame_of(self.dictionary(), msg@) {
                assert(Seq::<u8>::empty() + f =~= f);
            }
        }
        r
    }
}

/// Decompresses frames made by `Compressor` with the same dictionary.
pub struct Decompressor {
    dict: Vec<u8>,
}

impl Decompressor {
    /// The dictionary the frames are decoded with.
    pub closed spec fn dictionary(&self) -> Seq<u8> {
        self.dict@
    }

    /// A decompressor primed with `dict`.
    pub fn new(dict: &[u8]) -> (r: Self)
        ensures
            r.dictionary() == dict@,
    {
        let d = copy_bytes(dict, 0, dict.len());
        assert(d@ =~= dict@);
        Decompressor { dict: d }
    }

    /// A decompressor primed with the bundled dictionary.
    pub fn new_from_builtin() -> (r: Self)
        ensures
            r.dictionary() == builtin_dictionary_bytes(),
    {
        Decompressor { dict: builtin_dictionary() }
    }

    /// Decompresses `comp_msg` into at most `max_size` bytes. It reads up
    /// to `max_size` bytes and one more: if that one is there, the output
    /// is too large.
    pub fn decompress_to_bytes(&self, comp_msg: &[u8], max_size: u32) -> (r: Result<
        Vec<u8>,
        CodecError,
    >)
        ensures
            match zstd_decoded_of(self.dictionary(), comp_msg@) {
                Some(o) => if o.len() <= max_size {
                    r matches Ok(v) && v@ == o
                } else {
                    r == Err::<Vec<u8>, CodecError>(CodecError::OutputTooLarge)
                },
                None => r is Err,
            },
            r matches Ok(v) ==> v@.len() <= max_size,
    {
        let limit: u64 = max_size as u64 + 1;
        match decode_prefix(self.dict.as_slice(), comp_msg, limit) {
            Ok(out) => {
                if out.len() > max_size as usize {
                    Err(CodecError::OutputTooLarge)
                } else {
                    Ok(out)
                }
            },
            Err(_) => Err(CodecError::CoderFailure),
        }
    }
}

} // verus!
