//! Compression of page images with a choice of codec.
use vstd::prelude::*;
use crate::error::Error;

verus! {

/// The codec with which bytes are compressed: one of the flags `NONE`,
/// `SNAPPY` and `ZSTD`.
#[derive(Debug)]
pub struct Compression {
    bits: u8,
}

/// The bits of the flag for no compression.
pub const NONE_BITS: u8 = 1;

/// The bits of the flag for the Snappy codec.
pub const SNAPPY_BITS: u8 = 2;

/// The bits of the flag for the Zstandard codec.
pub const ZSTD_BITS: u8 = 4;

/// The level at which Zstandard compresses.
pub const ZSTD_LEVEL: i32 = 3;

/// What the Snappy encoder of `snap` makes of `data`.
pub uninterp spec fn snappy_of(data: Seq<u8>) -> Seq<u8>;

/// What the Snappy decoder of `snap` makes of `data`, where it accepts it.
pub uninterp spec fn snappy_decoded(data: Seq<u8>) -> Option<Seq<u8>>;

/// What `zstd` makes of `data` at the compression level `level`.
pub uninterp spec fn zstd_of(data: Seq<u8>, level: int) -> Seq<u8>;

/// What the decoder of `zstd` makes of `data`, where it accepts it.
pub uninterp spec fn zstd_decoded(data: Seq<u8>) -> Option<Seq<u8>>;

/// Whether the Snappy encoder takes an input of `len` bytes: with its
/// overhead the output must fit in 32 bits.
pub open spec fn snappy_fits(len: nat) -> bool {
    32 + len + len / 6 <= 0xFFFF_FFFF
}

/// The `n` low bytes of `x`, the lowest first.
pub open spec fn le_bytes(x: nat, n: nat) -> Seq<u8>
    decreases n,
{
    if n == 0 {
        Seq::empty()
    } else {
        seq![(x % 256) as u8] + le_bytes(x / 256, (n - 1) as nat)
    }
}

/// Compresses `raw` with `snap::raw::Encoder::compress_vec`. The encoder
/// refuses an input exactly where its output, with the overhead of the
/// format, could exceed 32 bits; what it returns otherwise gets its name
/// here.
#[verifier::external_body]
fn snappy_compress(raw: &[u8]) -> (r: Option<Vec<u8>>)
    ensures
        r is Some ==> r->0@ == snappy_of(raw@),
        r is Some <==> snappy_fits(raw@.len()),
{
    snap::raw::Encoder::new().compress_vec(raw).ok()
}

/// Decompresses `source` into the bytes that `target` holds with
/// `snap::raw::Decoder::decompress`, which writes the decoded bytes to the
/// front of the buffer and returns their number. An input that is refused
/// gives `None`.
#[verifier::external_body]
fn snappy_decompress(source: &[u8], target: &mut Vec<u8>) -> (r: Option<usize>)
    ensures
        final(target)@.len() == old(target)@.len(),
        r matches Some(n) ==> n <= final(target)@.len() && snappy_decoded(source@) == Some(
            final(target)@.take(n as int),
        ),
{
    snap::raw::Decoder::new().decompress(source, target).ok()
}

/// Compresses `raw` with `zstd::bulk::compress` at the given level. What it
/// returns gets its name here; when it fails is not stated.
#[verifier::external_body]
fn zstd_compress(raw: &[u8], level: i32) -> (r: Option<Vec<u8>>)
    ensures
        r is Some ==> r->0@ == zstd_of(raw@, level as int),
{
    zstd::bulk::compress(raw, level).ok()
}

/// Decompresses `source` into `target` with
/// `zstd::bulk::Decompressor::decompress_to_buffer`, which for a vector
/// writes from its start, within its capacity, and sets its length to the
/// number of bytes written, which it returns. An input that is refused or
/// does not fit gives `None`.
#[verifier::external_body]
fn zstd_decompress(source: &[u8], target: &mut Vec<u8>) -> (r: Option<usize>)
    ensures
        r matches Some(n) ==> n == final(target)@.len() && zstd_decoded(source@) == Some(
            final(target)@,
        ),
{
    zstd::bulk::Decompressor::new().ok()?.decompress_to_buffer(source, target).ok()
}

impl Compression {
    /// The bits of the flag.
    pub closed spec fn spec_bits(&self) -> u8 {
        self.bits
    }

    /// Whether the value is one of the three flags.
    pub open spec fn is_flag(&self) -> bool {
        self.spec_bits() == NONE_BITS || self.spec_bits() == SNAPPY_BITS || self.spec_bits()
            == ZSTD_BITS
    }

    /// No compression.
    pub fn none() -> (r: Self)
        ensures
            r.spec_bits() == NONE_BITS,
    {
        Compression { bits: NONE_BITS }
    }

    /// The Snappy codec.
    pub fn snappy() -> (r: Self)
        ensures
            r.spec_bits() == SNAPPY_BITS,
    {
        Compression { bits: SNAPPY_BITS }
    }

    /// The Zstandard codec.
    pub fn zstd() -> (r: Self)
        ensures
            r.spec_bits() == ZSTD_BITS,
    {
        Compression { bits: ZSTD_BITS }
    }

    /// The bits of the flag.
    pub fn bits(&self) -> (r: u8)
        ensures
            r == self.spec_bits(),
    {
        self.bits
    }

    /// The value with these bits, where no bit is set that is no flag.
    pub fn from_bits(bits: u8) -> (r: Option<Self>)
        ensures
            r is Some <==> bits <= 7,
            r is Some ==> r->0.spec_bits() == bits,
    {
        if bits <= NONE_BITS + SNAPPY_BITS + ZSTD_BITS {
            Some(Compression { bits })
        } else {
            None
        }
    }
}

/// The eight bytes of `x`, the lowest first.
pub fn length_prefix(x: u64) -> (out: Vec<u8>)
    ensures
        out@ == le_bytes(x as nat, 8),
{
    let mut out: Vec<u8> = Vec::with_capacity(8);
    let mut v: u64 = x;
    let mut i: usize = 0;
    while i < 8
        invariant
            i <= 8,
            out@ + le_bytes(v as nat, (8 - i) as nat) == le_bytes(x as nat, 8),
        decreases 8 - i,
    {
        let ghost before = out@;
        out.push((v % 256) as u8);
        proof {
            assert(out@ + le_bytes((v / 256) as nat, (8 - i - 1) as nat) =~= before + le_bytes(
                v as nat,
                (8 - i) as nat,
            ));
        }
        v = v / 256;
        i += 1;
    }
    assert(out@ + le_bytes(v as nat, 0) =~= out@);
    out
}

/// What compression with Snappy returns for the outcome of the encoder.
pub fn snappy_outcome(compressed: Option<Vec<u8>>) -> (r: Result<Vec<u8>, Error>)
    ensures
        match compressed {
            Some(c) => r is Ok && r->Ok_0 == c,
            None => r is Err && r->Err_0 is Corrupted,
        },
{
    match compressed {
        Some(c) => Ok(c),
        None => Err(Error::Corrupted("snappy compression failed.".to_owned())),
    }
}

/// What compression with Zstandard returns for the outcome of the encoder:
/// the length of the raw bytes in eight bytes, the lowest first, and then
/// the compressed bytes.
pub fn zstd_outcome(raw_len: usize, compressed: Option<Vec<u8>>) -> (r: Result<Vec<u8>, Error>)
    ensures
        match compressed {
            Some(c) => r is Ok && r->Ok_0@ == le_bytes(raw_len as nat, 8) + c@,
            None => r is Err && r->Err_0 is Corrupted,
        },
{
    match compressed {
        Some(mut c) => {
            let mut out = length_prefix(raw_len as u64);
            out.append(&mut c);
            Ok(out)
        },
        None => Err(Error::Corrupted("zstd compression failed.".to_owned())),
    }
}

/// Compresses `raw` with the codec `compression`.
pub fn compress(compression: Compression, raw: &[u8]) -> (r: Result<Vec<u8>, Error>)
    requires
        compression.is_flag(),
    ensures
        compression.spec_bits() == NONE_BITS ==> r is Ok && r->Ok_0@ == raw@,
        compression.spec_bits() == SNAPPY_BITS ==> (r is Ok <==> snappy_fits(raw@.len())) && (r
            is Ok ==> r->Ok_0@ == snappy_of(raw@)),
        compression.spec_bits() == ZSTD_BITS ==> (r is Ok ==> r->Ok_0@ == le_bytes(
            raw@.len(),
            8,
        ) + zstd_of(raw@, ZSTD_LEVEL as int)),
        r is Err ==> r->Err_0 is Corrupted,
{
    if compression.bits == NONE_BITS {
        let mut out: Vec<u8> = Vec::with_capacity(raw.len());
        let mut i: usize = 0;
        while i < raw.len()
            invariant
                i <= raw@.len(),
                out@ == raw@.take(i as int),
            decreases raw@.len() - i,
        {
            out.push(raw[i]);
            assert(raw@.take(i as int).push(raw@[i as int]) =~= raw@.take(i + 1));
            i += 1;
        }
        assert(raw@.take(raw@.len() as int) =~= raw@);
        Ok(out)
    } else if compression.bits == SNAPPY_BITS {
        snappy_outcome(snappy_compress(raw))
    } else {
        zstd_outcome(raw.len(), zstd_compress(raw, ZSTD_LEVEL))
    }
}

/// What decompression returns for the outcome of a decoder that wrote to
/// the front of `target`: the target is cut to the bytes written.
pub fn decoded_outcome(target: &mut Vec<u8>, outcome: Option<usize>) -> (r: Result<(), Error>)
    requires
        outcome is Some ==> outcome->0 <= old(target)@.len(),
    ensures
        match outcome {
            Some(n) => r is Ok && final(target)@ == old(target)@.take(n as int),
            None => r is Err && r->Err_0 is Corrupted && final(target)@ == old(target)@,
        },
{
    match outcome {
        Some(len) => {
            target.truncate(len);
            assert(target@ =~= old(target)@.take(len as int));
            Ok(())
        },
        None => Err(Error::Corrupted("decompression failed.".to_owned())),
    }
}

/// Decompresses `source` into `target` with the codec `compression`. Without
/// compression the target is left as it is.
pub fn decompress_into(compression: Compression, source: &[u8], target: &mut Vec<u8>) -> (r:
    Result<(), Error>)
    requires
        compression.is_flag(),
    ensures
        compression.spec_bits() == NONE_BITS ==> r is Ok && final(target)@ == old(target)@,
        compression.spec_bits() == SNAPPY_BITS ==> (r is Ok ==> snappy_decoded(source@) == Some(
            final(target)@,
        )),
        compression.spec_bits() == ZSTD_BITS ==> (r is Ok ==> zstd_decoded(source@) == Some(
            final(target)@,
        )),
        r is Err ==> r->Err_0 is Corrupted,
{
    if compression.bits == NONE_BITS {
        Ok(())
    } else if compression.bits == SNAPPY_BITS {
        let outcome = snappy_decompress(source, target);
        decoded_outcome(target, outcome)
    } else {
        let outcome = zstd_decompress(source, target);
        let r = decoded_outcome(target, outcome);
        proof {
            if outcome is Some {
                assert(target@ =~= target@.take(outcome->0 as int));
            }
        }
        r
    }
}

} // verus!
