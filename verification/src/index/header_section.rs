use crate::error::IxError;
use crate::index::{
    be_bytes, be_value, lemma_be_bytes_len, lemma_be_round_trip, lemma_pow256_values, ReadEx,
    WriteEx, IX_VERSION,
};
use vstd::prelude::*;

verus! {

/// The fixed header at the start of an index: ten bytes.
pub struct IxHeaderSection {
    /// Format version of the index.
    pub version: u16,
    /// Absolute position of the word directory section.
    pub words_section_offset: u64,
}

impl IxHeaderSection {
    /// The ten bytes that store this header: the version, then the position
    /// of the word directory, both big-endian.
    pub open spec fn image(&self) -> Seq<u8> {
        be_bytes(self.version as nat, 2) + be_bytes(self.words_section_offset as nat, 8)
    }

    /// The header that the first ten bytes of `bytes` store, or `None` where
    /// there are fewer.
    pub open spec fn parse(bytes: Seq<u8>) -> Option<IxHeaderSection> {
        if bytes.len() < 10 {
            None
        } else {
            Some(
                IxHeaderSection {
                    version: be_value(bytes.take(2)) as u16,
                    words_section_offset: be_value(bytes.subrange(2, 10)) as u64,
                },
            )
        }
    }

    /// A header of the current version whose directory position is not set
    /// yet.
    pub fn new() -> (header: Self)
        ensures
            header.version == IX_VERSION,
            header.words_section_offset == 0,
    {
        Self { version: IX_VERSION, words_section_offset: 0 }
    }

    /// Reads a header. Fails with `CorruptIndex` where fewer than ten bytes
    /// are left, and then reads nothing.
    pub fn read<R: ReadEx>(reader: &mut R) -> (r: Result<Self, IxError>)
        ensures
            match r {
                Ok(header) => {
                    &&& Self::parse(old(reader).unread()) == Some(header)
                    &&& final(reader).unread() == old(reader).unread().skip(10)
                },
                Err(e) => e == IxError::CorruptIndex && Self::parse(old(reader).unread()).is_none()
                    && final(reader).unread().len() <= old(reader).unread().len(),
            },
    {
        let ghost bytes = reader.unread();
        let version = match reader.read_u16_be() {
            Ok(v) => v,
            Err(e) => {
                return Err(e);
            },
        };
        let words_section_offset = match reader.read_u64_be() {
            Ok(v) => v,
            Err(e) => {
                return Err(e);
            },
        };
        proof {
            assert(bytes.skip(2).take(8) =~= bytes.subrange(2, 10));
            assert(bytes.skip(2).skip(8) =~= bytes.skip(10));
        }
        Ok(Self { version, words_section_offset })
    }

    /// Writes the header and returns the number of bytes written, which is
    /// always ten.
    pub fn write<W: WriteEx>(&self, writer: &mut W) -> (n: u64)
        ensures
            final(writer).written() == old(writer).written() + self.image(),
            n == 10,
    {
        writer.write_u16_be(self.version);
        writer.write_u64_be(self.words_section_offset);
        assert(writer.written() =~= old(writer).written() + self.image());
        2 + 8
    }

    /// A header is read back from its own image, whatever follows it.
    pub proof fn lemma_image_round_trip(self, rest: Seq<u8>)
        ensures
            self.image().len() == 10,
            Self::parse(self.image() + rest) == Some(self),
    {
        let bytes = self.image() + rest;
        lemma_be_bytes_len(self.version as nat, 2);
        lemma_be_bytes_len(self.words_section_offset as nat, 8);
        lemma_be_round_trip(self.version as nat, 2);
        lemma_be_round_trip(self.words_section_offset as nat, 8);
        lemma_pow256_values();
        assert(bytes.take(2) =~= be_bytes(self.version as nat, 2));
        assert(bytes.subrange(2, 10) =~= be_bytes(self.words_section_offset as nat, 8));
    }
}

} // verus!
