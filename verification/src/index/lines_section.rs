use crate::error::IxError;
use crate::index::{
    block_len, block_payload, compressed_block, get_le, le_bytes, le_value, lemma_le_bytes_len,
    lemma_le_round_trip, lemma_le_value_bound, lemma_pow256_values, put_le, ReadEx, WriteEx,
    LINE_OFFSET_LEN,
};
use vstd::prelude::*;

verus! {

/// One more than the largest line offset that a posting section can store:
/// offsets are kept as 40-bit numbers.
pub const LINE_OFFSET_LIMIT: u64 = 0x100_0000_0000;

/// The line offsets that a posting buffer stores: one for every five bytes,
/// each little-endian. Trailing bytes that do not fill an entry store
/// nothing.
pub open spec fn decode_offsets(buf: Seq<u8>) -> Seq<u64> {
    Seq::new((buf.len() / 5) as nat, |i: int| le_value(buf.subrange(5 * i, 5 * i + 5)) as u64)
}

/// The posting buffer that the compressed block at the start of `bytes`
/// holds, or `None` where the block is truncated, does not decompress, or
/// its payload is not a whole number of five-byte entries.
pub open spec fn parse_lines_section(bytes: Seq<u8>) -> Option<Seq<u8>> {
    match block_payload(bytes) {
        Some(buf) => if buf.len() % 5 == 0 {
            Some(buf)
        } else {
            None
        },
        None => None,
    }
}

/// The posting list of one word, as the bytes that the index stores.
pub struct IxLinesSection {
    /// Five bytes for each occurrence, in the order of insertion.
    pub line_offsets_buf: Vec<u8>,
}

impl IxLinesSection {
    /// The buffer holds whole entries only.
    pub open spec fn wf(&self) -> bool {
        self.line_offsets_buf@.len() % 5 == 0
    }

    /// The line offsets of the section, in stored order.
    pub open spec fn offsets(&self) -> Seq<u64> {
        decode_offsets(self.line_offsets_buf@)
    }

    /// A section without occurrences.
    pub fn new() -> (section: Self)
        ensures
            section.wf(),
            section.line_offsets_buf@ == Seq::<u8>::empty(),
            section.offsets() == Seq::<u64>::empty(),
    {
        let section = Self { line_offsets_buf: Vec::new() };
        assert(section.offsets() =~= Seq::<u64>::empty());
        section
    }

    /// Number of occurrences stored.
    pub fn len(&self) -> (n: usize)
        ensures
            n == self.offsets().len(),
    {
        self.line_offsets_buf.len() / LINE_OFFSET_LEN
    }

    /// Writes the section as a compressed block and returns the number of
    /// bytes written. Fails with `Io`, writing nothing, where the compressor
    /// fails.
    pub fn write<W: WriteEx>(&self, writer: &mut W) -> (r: Result<u64, IxError>)
        ensures
            match r {
                Ok(n) => final(writer).written() == old(writer).written() + compressed_block(
                    self.line_offsets_buf@,
                ) && n == compressed_block(self.line_offsets_buf@).len() && block_payload(
                    compressed_block(self.line_offsets_buf@),
                ) == Some(self.line_offsets_buf@),
                Err(e) => e == IxError::Io && final(writer).written() == old(writer).written(),
            },
    {
        writer.write_compressed(self.line_offsets_buf.as_slice())
    }

    /// Reads a section. Fails with `CorruptIndex` where the block is
    /// truncated, does not decompress, or does not hold whole entries.
    pub fn read<R: ReadEx>(reader: &mut R) -> (r: Result<Self, IxError>)
        ensures
            match r {
                Ok(section) => parse_lines_section(old(reader).unread()) == Some(
                    section.line_offsets_buf@,
                ) && section.wf() && final(reader).unread() == old(reader).unread().skip(
                    block_len(old(reader).unread())->0 as int,
                ),
                Err(e) => e == IxError::CorruptIndex && parse_lines_section(
                    old(reader).unread(),
                ).is_none(),
            },
    {
        let line_offsets_buf = match reader.read_compressed() {
            Ok(buf) => buf,
            Err(e) => {
                return Err(e);
            },
        };
        if line_offsets_buf.len() % LINE_OFFSET_LEN != 0 {
            return Err(IxError::CorruptIndex);
        }
        Ok(Self { line_offsets_buf })
    }

    /// Appends one occurrence. Only the low 40 bits of `offset` are stored.
    pub fn add_line_offset(&mut self, offset: u64)
        requires
            old(self).wf(),
        ensures
            final(self).wf(),
            final(self).line_offsets_buf@ == old(self).line_offsets_buf@ + le_bytes(
                offset as nat,
                5,
            ),
            final(self).offsets() == old(self).offsets().push(offset % LINE_OFFSET_LIMIT),
    {
        put_le(&mut self.line_offsets_buf, offset, LINE_OFFSET_LEN);
        proof {
            lemma_append_entry(old(self).line_offsets_buf@, offset);
        }
    }

    /// The line offset stored in the five bytes from `buf_offset` on.
    pub fn get_line_offset(&self, buf_offset: usize) -> (offset: u64)
        requires
            buf_offset + 5 <= self.line_offsets_buf@.len(),
        ensures
            offset == le_value(
                self.line_offsets_buf@.subrange(buf_offset as int, buf_offset + 5),
            ),
            offset < LINE_OFFSET_LIMIT,
            buf_offset % 5 == 0 ==> offset == self.offsets()[buf_offset as int / 5],
    {
        proof {
            lemma_le_value_bound(self.line_offsets_buf@.subrange(buf_offset as int, buf_offset + 5));
            lemma_pow256_values();
        }
        get_le(self.line_offsets_buf.as_slice(), buf_offset, LINE_OFFSET_LEN)
    }
}

/// Appending the five bytes of `offset` to a buffer of whole entries appends
/// the low 40 bits of `offset` to the offsets that the buffer stores.
pub proof fn lemma_append_entry(buf: Seq<u8>, offset: u64)
    requires
        buf.len() % 5 == 0,
    ensures
        (buf + le_bytes(offset as nat, 5)).len() == buf.len() + 5,
        decode_offsets(buf + le_bytes(offset as nat, 5)) == decode_offsets(buf).push(
            offset % LINE_OFFSET_LIMIT,
        ),
{
    let entry = le_bytes(offset as nat, 5);
    let joined = buf + entry;
    lemma_le_bytes_len(offset as nat, 5);
    lemma_le_round_trip(offset as nat, 5);
    lemma_pow256_values();
    let n = buf.len() as int / 5;
    assert(joined.len() / 5 == n + 1);
    assert(joined.subrange(5 * n, 5 * n + 5) =~= entry);
    assert forall|i: int| 0 <= i < n implies #[trigger] joined.subrange(5 * i, 5 * i + 5)
        == buf.subrange(5 * i, 5 * i + 5) by {
        assert(joined.subrange(5 * i, 5 * i + 5) =~= buf.subrange(5 * i, 5 * i + 5));
    }
    assert(decode_offsets(joined) =~= decode_offsets(buf).push(offset % LINE_OFFSET_LIMIT));
}

} // verus!
