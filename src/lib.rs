//! Certificate compression for TLS 1.3 (RFC 8879): well-known certificates
//! are swapped for short identifiers, then the payload goes through a
//! dictionary-primed Zstandard pass. Decompression never yields more than
//! the caller's cap.

pub mod bucket;
pub mod builtins;
pub mod error;
pub mod pass1;
pub mod pass2;
pub mod tls;

use builtins::{builtin_pairs, CertTable, Pairs};
use error::CodecError;
use pass1::{
    entries_unambiguous, lemma_pass1_decompress_grows, lemma_pass1_round_trip, pass1_compress,
    pass1_decompress,
};
use pass2::{builtin_dictionary_bytes, zstd_decoded_of, zstd_frame_of};
use tls::parse_message;
use vstd::prelude::*;

verus! {

/// The code point under which peers negotiate this algorithm. It is a
/// private-use value: deployments must agree on it with their peers.
pub const ALGORITHM_ID: u16 = 9999;

/// Compresses `Certificate` payloads: pass 1, then pass 2.
pub struct Compressor {
    p1: pass1::Compressor,
    p2: pass2::Compressor,
}

impl Compressor {
    /// The table that pass 1 uses.
    pub closed spec fn pairs(&self) -> Pairs {
        self.p1.table@
    }

    /// The dictionary that pass 2 uses.
    pub closed spec fn dictionary(&self) -> Seq<u8> {
        self.p2.dictionary()
    }

    /// A compressor that substitutes the certificates of `table`.
    pub fn new(table: CertTable) -> (r: Self)
        ensures
            r.pairs() == table@,
            r.dictionary() == builtin_dictionary_bytes(),
    {
        Compressor { p1: pass1::Compressor::new(table), p2: pass2::Compressor::new_from_builtin() }
    }

    /// A compressor over the bundled table and dictionary.
    pub fn new_from_builtin() -> (r: Self)
        ensures
            r.pairs() == builtin_pairs(),
            r.dictionary() == builtin_dictionary_bytes(),
    {
        Compressor {
            p1: pass1::Compressor::new_builtin(),
            p2: pass2::Compressor::new_from_builtin(),
        }
    }

    /// Compresses a `Certificate` payload. A payload that pass 1 refuses
    /// is refused with the same error; otherwise the result is the pass 2
    /// frame of the pass 1 output, or `CoderFailure` where there is none.
    pub fn compress_to_bytes(&self, cert_msg: &[u8]) -> (r: Result<Vec<u8>, CodecError>)
        ensures
            match pass1_compress(self.pairs(), cert_msg@) {
                Err(e) => r == Err::<Vec<u8>, CodecError>(e),
                Ok(mid) => match zstd_frame_of(self.dictionary(), mid) {
                    Some(f) => r matches Ok(v) && v@ == f,
                    None => r == Err::<Vec<u8>, CodecError>(CodecError::CoderFailure),
                },
            },
            r matches Ok(v) ==> (pass1_compress(self.pairs(), cert_msg@) matches Ok(mid)
                && zstd_decoded_of(self.dictionary(), v@) == Some(mid)),
    {
        let p1 = self.p1.compress_to_bytes(cert_msg)?;
        self.p2.compress_to_bytes(p1.as_slice())
    }
}

/// The result of undoing pass 1 on `intermediate` under a cap of
/// `max_size` bytes.
pub open spec fn expand_capped(p: Pairs, intermediate: Seq<u8>, max_size: u32) -> Result<
    Seq<u8>,
    CodecError,
> {
    match pass1_decompress(p, intermediate) {
        Ok(out) => if out.len() <= max_size {
            Ok(out)
        } else {
            Err(CodecError::OutputTooLarge)
        },
        Err(e) => Err(e),
    }
}

/// Decompresses what `Compressor` produced, within a size cap.
pub struct Decompressor {
    p1: pass1::Decompressor,
    p2: pass2::Decompressor,
}

impl Decompressor {
    /// The table that pass 1 uses.
    pub closed spec fn pairs(&self) -> Pairs {
        self.p1.table@
    }

    /// The dictionary that pass 2 uses.
    pub closed spec fn dictionary(&self) -> Seq<u8> {
        self.p2.dictionary()
    }

    /// A decompressor that restores the certificates of `table`.
    pub fn new(table: CertTable) -> (r: Self)
        ensures
            r.pairs() == table@,
            r.dictionary() == builtin_dictionary_bytes(),
    {
        Decompressor {
            p1: pass1::Decompressor::new(table),
            p2: pass2::Decompressor::new_from_builtin(),
        }
    }

    /// A decompressor over the bundled table and dictionary.
    pub fn new_from_builtin() -> (r: Self)
        ensures
            r.pairs() == builtin_pairs(),
            r.dictionary() == builtin_dictionary_bytes(),
    {
        Decompressor {
            p1: pass1::Decompressor::new_builtin(),
            p2: pass2::Decompressor::new_from_builtin(),
        }
    }

    /// Undoes pass 1 on the output of pass 2, and fails with
    /// `OutputTooLarge` where the result is longer than `max_size`.
    pub fn expand_to_bytes(&self, intermediate: &[u8], max_size: u32) -> (r: Result<
        Vec<u8>,
        CodecError,
    >)
        ensures
            match expand_capped(self.pairs(), intermediate@, max_size) {
                Ok(out) => r matches Ok(v) && v@ == out,
                Err(e) => r == Err::<Vec<u8>, CodecError>(e),
            },
    {
        let out = self.p1.decompress_to_bytes(intermediate)?;
        if out.len() > max_size as usize {
            return Err(CodecError::OutputTooLarge);
        }
        Ok(out)
    }

    /// Decompresses `comp_msg` into at most `max_size` bytes: pass 2 under
    /// the cap, then pass 1, whose result is held to the same cap.
    pub fn decompress_to_bytes(&self, comp_msg: &[u8], max_size: u32) -> (r: Result<
        Vec<u8>,
        CodecError,
    >)
        ensures
            match zstd_decoded_of(self.dictionary(), comp_msg@) {
                Some(mid) => if mid.len() <= max_size {
                    match expand_capped(self.pairs(), mid, max_size) {
                        Ok(out) => r matches Ok(v) && v@ == out,
                        Err(e) => r == Err::<Vec<u8>, CodecError>(e),
                    }
                } else {
                    r == Err::<Vec<u8>, CodecError>(CodecError::OutputTooLarge)
                },
                None => r is Err,
            },
            r matches Ok(v) ==> v@.len() <= max_size,
    {
        let mid = self.p2.decompress_to_bytes(comp_msg, max_size)?;
        self.expand_to_bytes(mid.as_slice(), max_size)
    }
}

/// The codec round-trips: for a well-formed payload `b` of at most
/// `max_size` bytes whose entries are unambiguous for the table, pass 1
/// gives an intermediate payload within the cap, and undoing pass 1 on it
/// under the cap gives `b` back. `Compressor::compress_to_bytes` hands
/// exactly that intermediate to pass 2, whose frame decodes back to it, and
/// `Decompressor::decompress_to_bytes` expands what the frame decodes to.
pub proof fn lemma_codec_round_trip(t: CertTable, b: Seq<u8>, max_size: u32)
    requires
        t.wf(),
        parse_message(b) matches Ok(m) && entries_unambiguous(t@, m),
        b.len() <= max_size,
    ensures
        pass1_compress(t@, b) matches Ok(mid) && mid.len() <= max_size && expand_capped(
            t@,
            mid,
            max_size,
        ) == Ok::<Seq<u8>, CodecError>(b),
{
    lemma_pass1_round_trip(t, b);
    let mid = pass1_compress(t@, b)->Ok_0;
    lemma_pass1_decompress_grows(t, mid);
}

/// The cap holds: where a well-formed payload `b` with unambiguous entries
/// is longer than `max_size`, decompressing its compressed form under that
/// cap fails with `OutputTooLarge`: either the intermediate payload is
/// already over the cap, or its expansion is.
pub proof fn lemma_codec_cap(t: CertTable, b: Seq<u8>, max_size: u32)
    requires
        t.wf(),
        parse_message(b) matches Ok(m) && entries_unambiguous(t@, m),
        b.len() > max_size,
    ensures
        pass1_compress(t@, b) matches Ok(mid) && (mid.len() > max_size || expand_capped(
            t@,
            mid,
            max_size,
        ) == Err::<Seq<u8>, CodecError>(CodecError::OutputTooLarge)),
{
    lemma_pass1_round_trip(t, b);
}

} // verus!
