//! The on-disk index: its byte-level codec, the builder that writes it and
//! the reader that answers queries from it.
//!
//! All multi-byte integers of the format are big-endian, except the five-byte
//! line offsets of a posting section, which are little-endian. Every
//! variable-length section is a compressed block: the length of the
//! compressed bytes as a big-endian `u64`, then the compressed bytes.

pub mod builder;
pub mod header_section;
pub mod lex;
pub mod lines_reader;
pub mod lines_section;
pub mod reader;
pub mod words_section;

use crate::error::IxError;
use vstd::prelude::*;
use vstd::string::StringExecFns;

verus! {

/// The format version this library writes and accepts.
pub const IX_VERSION: u16 = 0;

/// Number of bytes of one line offset in a posting section.
pub const LINE_OFFSET_LEN: usize = 5;

/// `256` to the power `n`.
pub open spec fn pow256(n: nat) -> nat
    decreases n,
{
    if n == 0 {
        1
    } else {
        256 * pow256((n - 1) as nat)
    }
}

/// The `n` low-order base-256 digits of `v`, most significant first.
pub open spec fn be_bytes(v: nat, n: nat) -> Seq<u8>
    decreases n,
{
    if n == 0 {
        Seq::empty()
    } else {
        be_bytes(v / 256, (n - 1) as nat).push((v % 256) as u8)
    }
}

/// The number whose base-256 digits, most significant first, are `b`.
pub open spec fn be_value(b: Seq<u8>) -> nat
    decreases b.len(),
{
    if b.len() == 0 {
        0
    } else {
        be_value(b.drop_last()) * 256 + b.last() as nat
    }
}

/// The `n` low-order base-256 digits of `v`, least significant first.
pub open spec fn le_bytes(v: nat, n: nat) -> Seq<u8>
    decreases n,
{
    if n == 0 {
        Seq::empty()
    } else {
        seq![(v % 256) as u8] + le_bytes(v / 256, (n - 1) as nat)
    }
}

/// The number whose base-256 digits, least significant first, are `b`.
pub open spec fn le_value(b: Seq<u8>) -> nat
    decreases b.len(),
{
    if b.len() == 0 {
        0
    } else {
        b[0] as nat + 256 * le_value(b.skip(1))
    }
}

/// The powers of 256 that the format uses.
pub proof fn lemma_pow256_values()
    ensures
        pow256(0) == 1,
        pow256(1) == 0x100,
        pow256(2) == 0x1_0000,
        pow256(5) == 0x100_0000_0000,
        pow256(8) == 0x1_0000_0000_0000_0000,
{
    reveal_with_fuel(pow256, 9);
}

/// `n` big-endian digits are `n` bytes.
pub proof fn lemma_be_bytes_len(v: nat, n: nat)
    ensures
        be_bytes(v, n).len() == n,
    decreases n,
{
    if n > 0 {
        lemma_be_bytes_len(v / 256, (n - 1) as nat);
    }
}

/// `n` little-endian digits are `n` bytes.
pub proof fn lemma_le_bytes_len(v: nat, n: nat)
    ensures
        le_bytes(v, n).len() == n,
    decreases n,
{
    if n > 0 {
        lemma_le_bytes_len(v / 256, (n - 1) as nat);
    }
}

/// The value of big-endian digits is below 256 to the power of their
/// number.
pub proof fn lemma_be_value_bound(b: Seq<u8>)
    ensures
        be_value(b) < pow256(b.len()),
    decreases b.len(),
{
    if b.len() > 0 {
        lemma_be_value_bound(b.drop_last());
    }
}

/// The value of little-endian digits is below 256 to the power of their
/// number.
pub proof fn lemma_le_value_bound(b: Seq<u8>)
    ensures
        le_value(b) < pow256(b.len()),
    decreases b.len(),
{
    if b.len() > 0 {
        lemma_le_value_bound(b.skip(1));
    }
}

/// Decoding `n` big-endian digits of `v` gives back `v` reduced modulo
/// `256^n`.
pub proof fn lemma_be_round_trip(v: nat, n: nat)
    ensures
        be_value(be_bytes(v, n)) == v % pow256(n),
    decreases n,
{
    if n > 0 {
        let rest = be_bytes(v / 256, (n - 1) as nat);
        let b = be_bytes(v, n);
        lemma_be_round_trip(v / 256, (n - 1) as nat);
        assert(b.drop_last() =~= rest);
        let p = pow256((n - 1) as nat);
        assert(p > 0) by {
            lemma_pow256_positive((n - 1) as nat);
        }
        lemma_mod_split(v, p);
    }
}

/// Decoding `n` little-endian digits of `v` gives back `v` reduced modulo
/// `256^n`.
pub proof fn lemma_le_round_trip(v: nat, n: nat)
    ensures
        le_value(le_bytes(v, n)) == v % pow256(n),
    decreases n,
{
    if n > 0 {
        let rest = le_bytes(v / 256, (n - 1) as nat);
        let b = le_bytes(v, n);
        lemma_le_round_trip(v / 256, (n - 1) as nat);
        assert(b.skip(1) =~= rest);
        let p = pow256((n - 1) as nat);
        assert(p > 0) by {
            lemma_pow256_positive((n - 1) as nat);
        }
        lemma_mod_split(v, p);
    }
}

/// No power of 256 is zero.
pub proof fn lemma_pow256_positive(n: nat)
    ensures
        pow256(n) > 0,
    decreases n,
{
    if n > 0 {
        lemma_pow256_positive((n - 1) as nat);
    }
}

/// `v mod 256p` is made of the low digit of `v` and `(v / 256) mod p`.
proof fn lemma_mod_split(v: nat, p: nat)
    requires
        p > 0,
    ensures
        v % (256 * p) == ((v / 256) % p) * 256 + v % 256,
{
    let q = v / 256;
    let r = v % 256;
    let a = q / p;
    let b = q % p;
    assert(q == a * p + b) by (nonlinear_arith)
        requires
            a == q / p,
            b == q % p,
            p > 0,
    ;
    assert(v == a * (256 * p) + (b * 256 + r)) by (nonlinear_arith)
        requires
            v == 256 * q + r,
            q == a * p + b,
    ;
    assert(0 <= b * 256 + r < 256 * p) by (nonlinear_arith)
        requires
            0 <= b < p,
            0 <= r < 256,
    ;
    vstd::arithmetic::div_mod::lemma_fundamental_div_mod_converse(
        v as int,
        (256 * p) as int,
        a as int,
        (b * 256 + r) as int,
    );
}


/// The final component of the path `path`, or `None` where it has none, as
/// the platform reads paths.
pub uninterp spec fn path_file_name(path: Seq<char>) -> Option<Seq<char>>;

/// The path `path` with its final component replaced by `name`, as the
/// platform reads paths.
pub uninterp spec fn path_with_file_name(path: Seq<char>, name: Seq<char>) -> Seq<char>;

/// `Path::file_name` of the path that `path` spells.
///
/// Assumed, not proved: the call returns the final component of the path,
/// if there is one.
#[verifier::external_body]
fn file_name_of(path: &str) -> (name: Option<String>)
    ensures
        match name {
            Some(name) => path_file_name(path@) == Some(name@),
            None => path_file_name(path@).is_none(),
        },
{
    match std::path::Path::new(path).file_name() {
        Some(name) => Some(name.to_string_lossy().into_owned()),
        None => None,
    }
}

/// `Path::with_file_name` of the path that `path` spells.
///
/// Assumed, not proved: the call returns the path with its final component
/// replaced by `name`.
#[verifier::external_body]
fn with_file_name(path: &str, name: &str) -> (replaced: String)
    ensures
        replaced@ == path_with_file_name(path@, name@),
{
    std::path::Path::new(path).with_file_name(name).to_string_lossy().into_owned()
}

/// The name of the index file of a log file named `file_name`.
pub open spec fn ix_file_name(file_name: Seq<char>) -> Seq<char> {
    file_name + ".ix"@
}

/// The path of the index of the log at `path`: the same path with `.ix`
/// appended to the file name. Fails with `MissingFileName` where the path
/// has no file name.
pub fn ix_path(path: &str) -> (r: Result<String, IxError>)
    ensures
        match path_file_name(path@) {
            Some(name) => r is Ok && r->Ok_0@ == path_with_file_name(path@, ix_file_name(name)),
            None => r == Err::<String, IxError>(IxError::MissingFileName),
        },
{
    match file_name_of(path) {
        Some(name) => {
            let mut ix_name = name;
            ix_name.append(".ix");
            Ok(with_file_name(path, ix_name.as_str()))
        },
        None => Err(IxError::MissingFileName),
    }
}

/// The compressed form of `data`, as the compressor produces it at its
/// default level.
pub uninterp spec fn zstd_compressed(data: Seq<u8>) -> Seq<u8>;

/// What decompressing `frame` yields, or `None` where `frame` is not valid
/// compressed data.
pub uninterp spec fn zstd_decompressed(frame: Seq<u8>) -> Option<Seq<u8>>;

/// `std::io::Error`, the error of the compressor: it is passed on as it
/// is and nothing is read from it.
#[verifier::external_type_specification]
#[verifier::external_body]
pub struct ExIoError(std::io::Error);

/// `zstd::encode_all` on an in-memory source at zstd's default level.
///
/// Assumed, not proved: a successful call returns the compressed form of
/// `data`, and that form decompresses to `data` again.
#[verifier::external_body]
fn zstd_encode(data: &[u8]) -> (r: Result<Vec<u8>, std::io::Error>)
    ensures
        r matches Ok(z) ==> z@ == zstd_compressed(data@) && zstd_decompressed(z@) == Some(data@),
{
    zstd::encode_all(data, zstd::DEFAULT_COMPRESSION_LEVEL)
}

/// `zstd::decode_all` on an in-memory source.
///
/// Assumed, not proved: the call succeeds exactly on valid compressed data
/// and then returns what that data decompresses to.
#[verifier::external_body]
fn zstd_decode(frame: &[u8]) -> (r: Result<Vec<u8>, std::io::Error>)
    ensures
        match r {
            Ok(data) => zstd_decompressed(frame@) == Some(data@),
            Err(_) => zstd_decompressed(frame@).is_none(),
        },
{
    zstd::decode_all(frame)
}

/// The block that frames already compressed bytes: their length as a
/// big-endian `u64`, then the bytes.
pub open spec fn block_of(compressed: Seq<u8>) -> Seq<u8> {
    be_bytes(compressed.len(), 8) + compressed
}

/// The compressed block that stores `data`.
pub open spec fn compressed_block(data: Seq<u8>) -> Seq<u8> {
    block_of(zstd_compressed(data))
}

/// Number of bytes that the compressed block at the start of `bytes` spans,
/// or `None` where `bytes` ends before the block does.
pub open spec fn block_len(bytes: Seq<u8>) -> Option<nat> {
    if bytes.len() < 8 {
        None
    } else if bytes.len() - 8 < be_value(bytes.take(8)) {
        None
    } else {
        Some(8 + be_value(bytes.take(8)))
    }
}

/// The payload of the compressed block at the start of `bytes`, or `None`
/// where the block is truncated or its bytes do not decompress.
pub open spec fn block_payload(bytes: Seq<u8>) -> Option<Seq<u8>> {
    match block_len(bytes) {
        Some(n) => zstd_decompressed(bytes.subrange(8, n as int)),
        None => None,
    }
}

/// A block that frames the compressed form of `data` is read back as `data`,
/// whatever follows it.
pub proof fn lemma_block_round_trip(compressed: Seq<u8>, data: Seq<u8>, rest: Seq<u8>)
    requires
        zstd_decompressed(compressed) == Some(data),
        compressed.len() < pow256(8),
    ensures
        block_len(block_of(compressed) + rest) == Some(block_of(compressed).len()),
        block_payload(block_of(compressed) + rest) == Some(data),
        block_of(compressed).len() == 8 + compressed.len(),
{
    let bytes = block_of(compressed) + rest;
    lemma_be_bytes_len(compressed.len(), 8);
    lemma_be_round_trip(compressed.len(), 8);
    assert(bytes.take(8) =~= be_bytes(compressed.len(), 8));
    assert(compressed.len() % pow256(8) == compressed.len()) by {
        vstd::arithmetic::div_mod::lemma_small_mod(compressed.len(), pow256(8));
    }
    assert(bytes.subrange(8, 8 + compressed.len() as int) =~= compressed);
}

/// A block that is read from its own bytes is read from them with anything
/// behind.
pub proof fn lemma_block_prefix_stable(block: Seq<u8>, rest: Seq<u8>)
    requires
        block_payload(block) is Some,
    ensures
        block_len(block + rest) == block_len(block),
        block_payload(block + rest) == block_payload(block),
{
    let bytes = block + rest;
    assert(bytes.take(8) =~= block.take(8));
    let n = block_len(block)->0;
    assert(bytes.subrange(8, n as int) =~= block.subrange(8, n as int));
}

/// `block` is the compressed block that `bytes` hold at position `offset`:
/// all of it, and no more.
pub open spec fn is_block_at(bytes: Seq<u8>, offset: u64, block: Seq<u8>) -> bool {
    &&& offset + block.len() <= bytes.len()
    &&& block == bytes.subrange(offset as int, offset + block.len())
    &&& block_len(block) == Some(block.len())
}

/// A block that was taken out of the bytes that hold it is read as it is
/// read in its place.
pub proof fn lemma_block_taken_out(bytes: Seq<u8>, offset: u64, block: Seq<u8>)
    requires
        is_block_at(bytes, offset, block),
    ensures
        block_len(bytes.skip(offset as int)) == block_len(block),
        block_payload(bytes.skip(offset as int)) == block_payload(block),
{
    let rest = bytes.skip(offset as int);
    assert(rest.take(8) =~= block.take(8));
    let n = block.len() as int;
    assert(rest.subrange(8, n) =~= block.subrange(8, n));
}

/// The number of bytes that follow the length of a compressed block, which
/// `prefix` starts with. Fails with `CorruptIndex` where `prefix` holds
/// fewer than the eight bytes of the length.
pub fn block_body_len(prefix: &[u8]) -> (r: Result<u64, IxError>)
    ensures
        match r {
            Ok(n) => prefix@.len() >= 8 && n == be_value(prefix@.take(8)),
            Err(e) => e == IxError::CorruptIndex && prefix@.len() < 8,
        },
{
    if prefix.len() < 8 {
        return Err(IxError::CorruptIndex);
    }
    let n = get_be(prefix, 0, 8);
    assert(prefix@.subrange(0, 8) =~= prefix@.take(8));
    Ok(n)
}

/// Sequential reading of the primitives of the index format.
pub trait ReadEx {
    /// The bytes that have not been read yet.
    spec fn unread(&self) -> Seq<u8>;

    /// Reads one byte.
    fn read_u8(&mut self) -> (r: Result<u8, IxError>)
        ensures
            match r {
                Ok(v) => {
                    &&& old(self).unread().len() >= 1
                    &&& v == old(self).unread()[0]
                    &&& final(self).unread() == old(self).unread().skip(1)
                },
                Err(e) => {
                    &&& e == IxError::CorruptIndex
                    &&& old(self).unread().len() < 1
                    &&& final(self).unread() == old(self).unread()
                },
            },
    ;

    /// Reads a big-endian `u64`.
    fn read_u64_be(&mut self) -> (r: Result<u64, IxError>)
        ensures
            match r {
                Ok(v) => old(self).unread().len() >= 8 && v == be_value(old(self).unread().take(8))
                    && final(self).unread() == old(self).unread().skip(8),
                Err(e) => {
                    &&& e == IxError::CorruptIndex
                    &&& old(self).unread().len() < 8
                    &&& final(self).unread() == old(self).unread()
                },
            },
    ;

    /// Reads a big-endian `u16`.
    fn read_u16_be(&mut self) -> (r: Result<u16, IxError>)
        ensures
            match r {
                Ok(v) => old(self).unread().len() >= 2 && v == be_value(old(self).unread().take(2))
                    && final(self).unread() == old(self).unread().skip(2),
                Err(e) => {
                    &&& e == IxError::CorruptIndex
                    &&& old(self).unread().len() < 2
                    &&& final(self).unread() == old(self).unread()
                },
            },
    ;

    /// Reads a compressed block and returns its decompressed payload.
    fn read_compressed(&mut self) -> (r: Result<Vec<u8>, IxError>)
        ensures
            match r {
                Ok(data) => block_payload(old(self).unread()) == Some(data@) && final(self).unread()
                    == old(self).unread().skip(block_len(old(self).unread())->0 as int),
                Err(e) => e == IxError::CorruptIndex && block_payload(old(self).unread()).is_none()
                    && final(self).unread() == old(self).unread(),
            },
    ;
}

/// Sequential writing of the primitives of the index format.
pub trait WriteEx {
    /// The bytes written so far.
    spec fn written(&self) -> Seq<u8>;

    /// Writes one byte.
    fn write_u8(&mut self, v: u8)
        ensures
            final(self).written() == old(self).written().push(v),
    ;

    /// Writes a big-endian `u16`.
    fn write_u16_be(&mut self, v: u16)
        ensures
            final(self).written() == old(self).written() + be_bytes(v as nat, 2),
    ;

    /// Writes a big-endian `u64`.
    fn write_u64_be(&mut self, v: u64)
        ensures
            final(self).written() == old(self).written() + be_bytes(v as nat, 8),
    ;

    /// Writes already compressed bytes as a block and returns the number of
    /// bytes written.
    fn write_block(&mut self, compressed: &[u8]) -> (n: u64)
        ensures
            final(self).written() == old(self).written() + block_of(compressed@),
            n == 8 + compressed@.len(),
    ;

    /// Compresses `data`, writes it as a block and returns the number of
    /// bytes written. Nothing is written where the compressor fails.
    fn write_compressed(&mut self, data: &[u8]) -> (r: Result<u64, IxError>)
        ensures
            match r {
                Ok(n) => final(self).written() == old(self).written() + compressed_block(data@)
                    && n == compressed_block(data@).len() && block_payload(
                    compressed_block(data@),
                ) == Some(data@),
                Err(e) => e == IxError::Io && final(self).written() == old(self).written(),
            },
    ;
}

/// Appends the `n` low-order base-256 digits of `v`, most significant first.
pub fn put_be(out: &mut Vec<u8>, v: u64, n: usize)
    ensures
        final(out)@ == old(out)@ + be_bytes(v as nat, n as nat),
    decreases n,
{
    if n > 0 {
        put_be(out, v / 256, n - 1);
        out.push((v % 256) as u8);
        assert(out@ =~= old(out)@ + be_bytes(v as nat, n as nat));
    } else {
        assert(out@ =~= old(out)@ + be_bytes(v as nat, n as nat));
    }
}

/// Appends the `n` low-order base-256 digits of `v`, least significant
/// first.
pub fn put_le(out: &mut Vec<u8>, v: u64, n: usize)
    ensures
        final(out)@ == old(out)@ + le_bytes(v as nat, n as nat),
    decreases n,
{
    if n > 0 {
        out.push((v % 256) as u8);
        put_le(out, v / 256, n - 1);
        assert(out@ =~= old(out)@ + le_bytes(v as nat, n as nat));
    } else {
        assert(out@ =~= old(out)@ + le_bytes(v as nat, n as nat));
    }
}

/// The number whose big-endian digits are the `n` bytes of `bytes` from
/// `start` on.
pub fn get_be(bytes: &[u8], start: usize, n: usize) -> (v: u64)
    requires
        n <= 8,
        start + n <= bytes@.len(),
    ensures
        v == be_value(bytes@.subrange(start as int, start + n)),
{
    let mut acc: u64 = 0;
    let mut k: usize = 0;
    let len = bytes.len();
    while k < n
        invariant
            k <= n <= 8,
            start + n <= len,
            len == bytes@.len(),
            acc == be_value(bytes@.subrange(start as int, start + k)),
        decreases n - k,
    {
        proof {
            let next = bytes@.subrange(start as int, start + k + 1);
            assert(next.drop_last() =~= bytes@.subrange(start as int, start + k));
            lemma_be_value_bound(next);
            lemma_pow256_monotonic((k + 1) as nat, 8);
            lemma_pow256_values();
        }
        acc = acc * 256 + bytes[start + k] as u64;
        k = k + 1;
    }
    acc
}

/// The number whose little-endian digits are the `n` bytes of `bytes` from
/// `start` on.
pub fn get_le(bytes: &[u8], start: usize, n: usize) -> (v: u64)
    requires
        n <= 8,
        start + n <= bytes@.len(),
    ensures
        v == le_value(bytes@.subrange(start as int, start + n)),
{
    let mut acc: u64 = 0;
    let mut k: usize = n;
    let len = bytes.len();
    while k > 0
        invariant
            k <= n <= 8,
            start + n <= len,
            len == bytes@.len(),
            acc == le_value(bytes@.subrange(start + k, start + n)),
            acc < pow256((n - k) as nat),
        decreases k,
    {
        proof {
            let next = bytes@.subrange(start + k - 1, start + n);
            assert(next.skip(1) =~= bytes@.subrange(start + k, start + n));
            lemma_le_value_bound(next);
            lemma_pow256_monotonic((n - k + 1) as nat, 8);
            lemma_pow256_values();
        }
        k = k - 1;
        acc = acc * 256 + bytes[start + k] as u64;
    }
    acc
}

/// The powers of 256 grow with the exponent.
pub proof fn lemma_pow256_monotonic(a: nat, b: nat)
    requires
        a <= b,
    ensures
        pow256(a) <= pow256(b),
    decreases b,
{
    if a < b {
        lemma_pow256_monotonic(a, (b - 1) as nat);
    }
}

impl WriteEx for Vec<u8> {
    open spec fn written(&self) -> Seq<u8> {
        self@
    }

    fn write_u8(&mut self, v: u8) {
        self.push(v);
    }

    fn write_u16_be(&mut self, v: u16) {
        put_be(self, v as u64, 2);
    }

    fn write_u64_be(&mut self, v: u64) {
        put_be(self, v, 8);
    }

    fn write_block(&mut self, compressed: &[u8]) -> (n: u64) {
        put_be(self, compressed.len() as u64, 8);
        let mut i: usize = 0;
        proof {
            lemma_be_bytes_len(compressed@.len(), 8);
        }
        while i < compressed.len()
            invariant
                i <= compressed@.len(),
                self@ == old(self)@ + be_bytes(compressed@.len(), 8) + compressed@.take(i as int),
            decreases compressed@.len() - i,
        {
            self.push(compressed[i]);
            i = i + 1;
            assert(self@ =~= old(self)@ + be_bytes(compressed@.len(), 8) + compressed@.take(
                i as int,
            ));
        }
        assert(compressed@.take(i as int) =~= compressed@);
        assert(self@ =~= old(self)@ + block_of(compressed@));
        assert(self@.len() == self.len());
        8 + compressed.len() as u64
    }

    fn write_compressed(&mut self, data: &[u8]) -> (r: Result<u64, IxError>) {
        match zstd_encode(data) {
            Ok(z) => {
                let n = self.write_block(z.as_slice());
                proof {
                    lemma_pow256_values();
                    lemma_block_round_trip(z@, data@, Seq::empty());
                    assert(block_of(z@) + Seq::<u8>::empty() =~= block_of(z@));
                }
                Ok(n)
            },
            Err(_) => Err(IxError::Io),
        }
    }
}

/// A read position in a byte slice.
pub struct ByteReader<'a> {
    data: &'a [u8],
    pos: usize,
}

impl<'a> ByteReader<'a> {
    #[verifier::type_invariant]
    spec fn in_bounds(self) -> bool {
        self.pos <= self.data@.len()
    }

    /// All the bytes that the reader reads from.
    pub closed spec fn source(&self) -> Seq<u8> {
        self.data@
    }

    /// Number of bytes already read.
    pub closed spec fn position(&self) -> nat {
        self.pos as nat
    }

    /// A reader at the start of `data`.
    pub fn new(data: &'a [u8]) -> (r: Self)
        ensures
            r.source() == data@,
            r.position() == 0,
            r.unread() == data@,
    {
        let r = ByteReader { data, pos: 0 };
        assert(r.unread() =~= data@);
        r
    }

    /// A reader of `data` that starts at byte `pos`, or `CorruptIndex` where
    /// `data` is shorter than that.
    pub fn at(data: &'a [u8], pos: u64) -> (r: Result<Self, IxError>)
        ensures
            match r {
                Ok(reader) => pos <= data@.len() && reader.source() == data@ && reader.position()
                    == pos && reader.unread() == data@.skip(pos as int),
                Err(e) => e == IxError::CorruptIndex && pos > data@.len(),
            },
    {
        if pos > data.len() as u64 {
            Err(IxError::CorruptIndex)
        } else {
            Ok(ByteReader { data, pos: pos as usize })
        }
    }

    /// Reads `n` bytes. Fails with `CorruptIndex`, reading nothing, where
    /// fewer are left.
    pub fn read_bytes(&mut self, n: usize) -> (r: Result<Vec<u8>, IxError>)
        ensures
            final(self).source() == old(self).source(),
            match r {
                Ok(bytes) => old(self).unread().len() >= n && bytes@ == old(self).unread().take(
                    n as int,
                ) && final(self).unread() == old(self).unread().skip(n as int),
                Err(e) => {
                    &&& e == IxError::CorruptIndex
                    &&& old(self).unread().len() < n
                    &&& final(self).unread() == old(self).unread()
                },
            },
    {
        proof {
            use_type_invariant(&*self);
        }
        if self.data.len() - self.pos < n {
            return Err(IxError::CorruptIndex);
        }
        let end = self.pos + n;
        let part = vstd::slice::slice_subrange(self.data, self.pos, end);
        let bytes = vstd::slice::slice_to_vec(part);
        assert(bytes@ =~= old(self).unread().take(n as int));
        self.pos = end;
        assert(self.unread() =~= old(self).unread().skip(n as int));
        Ok(bytes)
    }

    /// Number of bytes not read yet.
    pub fn remaining_len(&self) -> (n: usize)
        ensures
            n == self.unread().len(),
    {
        proof {
            use_type_invariant(self);
        }
        self.data.len() - self.pos
    }
}

impl<'a> ReadEx for ByteReader<'a> {
    open spec fn unread(&self) -> Seq<u8> {
        self.source().skip(self.position() as int)
    }

    fn read_u8(&mut self) -> (r: Result<u8, IxError>) {
        proof {
            use_type_invariant(&*self);
        }
        if self.pos < self.data.len() {
            let v = self.data[self.pos];
            self.pos = self.pos + 1;
            assert(self.unread() =~= old(self).unread().skip(1));
            Ok(v)
        } else {
            Err(IxError::CorruptIndex)
        }
    }

    fn read_u64_be(&mut self) -> (r: Result<u64, IxError>) {
        proof {
            use_type_invariant(&*self);
        }
        if self.data.len() - self.pos >= 8 {
            let v = get_be(self.data, self.pos, 8);
            assert(old(self).unread().take(8) =~= self.data@.subrange(
                self.pos as int,
                self.pos + 8,
            ));
            self.pos = self.pos + 8;
            assert(self.unread() =~= old(self).unread().skip(8));
            Ok(v)
        } else {
            Err(IxError::CorruptIndex)
        }
    }

    fn read_u16_be(&mut self) -> (r: Result<u16, IxError>) {
        proof {
            use_type_invariant(&*self);
        }
        if self.data.len() - self.pos >= 2 {
            let v = get_be(self.data, self.pos, 2);
            proof {
                let two = self.data@.subrange(self.pos as int, self.pos + 2);
                assert(old(self).unread().take(2) =~= two);
                lemma_be_value_bound(two);
                lemma_pow256_values();
            }
            self.pos = self.pos + 2;
            assert(self.unread() =~= old(self).unread().skip(2));
            Ok(v as u16)
        } else {
            Err(IxError::CorruptIndex)
        }
    }

    fn read_compressed(&mut self) -> (r: Result<Vec<u8>, IxError>) {
        proof {
            use_type_invariant(&*self);
        }
        let left = self.data.len() - self.pos;
        if left < 8 {
            return Err(IxError::CorruptIndex);
        }
        let n = get_be(self.data, self.pos, 8);
        assert(old(self).unread().take(8) =~= self.data@.subrange(self.pos as int, self.pos + 8));
        if n > (left - 8) as u64 {
            return Err(IxError::CorruptIndex);
        }
        let start = self.pos + 8;
        let end = start + n as usize;
        let frame = vstd::slice::slice_subrange(self.data, start, end);
        assert(frame@ =~= old(self).unread().subrange(8, 8 + n));
        match zstd_decode(frame) {
            Ok(data) => {
                self.pos = end;
                assert(self.unread() =~= old(self).unread().skip(8 + n));
                Ok(data)
            },
            Err(_) => Err(IxError::CorruptIndex),
        }
    }
}

} // verus!
