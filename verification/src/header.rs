//! The fixed 256-byte header on a DOL file: its layout, its codec, and the
//! facts relating the two directions.

use crate::endian::be32_at;
use crate::endian::be32_bytes;
use crate::endian::be32_seq_bytes;
use crate::endian::lemma_be32_at_eq;
use crate::endian::lemma_be32_bytes_of_at;
use crate::endian::lemma_be32_roundtrip;
use crate::endian::lemma_be32_seq_bytes_len;
use crate::endian::lemma_be32_seq_bytes_slice;
use crate::endian::read_be32;
use crate::endian::write_be32;
use crate::endian::zero_bytes;
use crate::error::Error;
use vstd::prelude::*;

verus! {

/// Number of section slots in a DOL header.
pub const SLOT_COUNT: usize = 18;

/// Total size in bytes of a DOL header.
pub const HEADER_SIZE: usize = 256;

/// The header on a DOL file.
///
/// Each of the three parallel slot tables holds exactly 18 entries; a slot
/// whose length is zero is unused.
#[derive(Debug)]
pub struct DolHeader {
    pub section_offsets: Vec<u32>,
    pub section_addresses: Vec<u32>,
    pub section_lengths: Vec<u32>,
    pub bss_start: u32,
    pub bss_length: u32,
    pub entry_point: u32,
}

/// The mathematical value of a [`DolHeader`].
pub ghost struct HeaderModel {
    pub offsets: Seq<u32>,
    pub addresses: Seq<u32>,
    pub lengths: Seq<u32>,
    pub bss_start: u32,
    pub bss_length: u32,
    pub entry_point: u32,
}

impl View for DolHeader {
    type V = HeaderModel;

    open spec fn view(&self) -> HeaderModel {
        HeaderModel {
            offsets: self.section_offsets@,
            addresses: self.section_addresses@,
            lengths: self.section_lengths@,
            bss_start: self.bss_start,
            bss_length: self.bss_length,
            entry_point: self.entry_point,
        }
    }
}

impl HeaderModel {
    /// The slot tables hold exactly one entry per slot.
    pub open spec fn wf(self) -> bool {
        &&& self.offsets.len() == SLOT_COUNT
        &&& self.addresses.len() == SLOT_COUNT
        &&& self.lengths.len() == SLOT_COUNT
    }
}

/// The exact 256 bytes a header value occupies on disk: three tables of 18
/// big-endian 32-bit entries, three big-endian scalars, 28 bytes of zero
/// padding.
pub open spec fn header_bytes(h: HeaderModel) -> Seq<u8> {
    be32_seq_bytes(h.offsets) + be32_seq_bytes(h.addresses) + be32_seq_bytes(h.lengths)
        + be32_bytes(h.bss_start) + be32_bytes(h.bss_length) + be32_bytes(h.entry_point)
        + zero_bytes(28)
}

/// The header value stored at the front of `b`; meaningful when `b` holds at
/// least the 256 header bytes.
pub open spec fn parse_header(b: Seq<u8>) -> HeaderModel
    recommends
        b.len() >= HEADER_SIZE,
{
    HeaderModel {
        offsets: Seq::new(18, |i: int| be32_at(b, 4 * i)),
        addresses: Seq::new(18, |i: int| be32_at(b, 72 + 4 * i)),
        lengths: Seq::new(18, |i: int| be32_at(b, 144 + 4 * i)),
        bss_start: be32_at(b, 216),
        bss_length: be32_at(b, 220),
        entry_point: be32_at(b, 224),
    }
}

impl DolHeader {
    /// The slot tables hold exactly one entry per slot.
    pub open spec fn wf(&self) -> bool {
        self@.wf()
    }

    /// Parses a DOL header from the front of `bytes`, returning a `DolHeader`
    /// if `bytes` can supply all 256 header bytes.
    pub fn parse(bytes: &[u8]) -> (r: Result<DolHeader, Error>)
        ensures
            match r {
                Ok(h) => bytes@.len() >= HEADER_SIZE && h@ == parse_header(bytes@) && h.wf(),
                Err(e) => bytes@.len() < HEADER_SIZE && e == Error::UnexpectedEnd,
            },
    {
        if bytes.len() < HEADER_SIZE {
            return Err(Error::UnexpectedEnd);
        }
        let mut section_offsets: Vec<u32> = Vec::new();
        let mut section_addresses: Vec<u32> = Vec::new();
        let mut section_lengths: Vec<u32> = Vec::new();
        let mut i: usize = 0;
        while i < SLOT_COUNT
            invariant
                i <= SLOT_COUNT,
                bytes@.len() >= HEADER_SIZE,
                section_offsets@ == Seq::new(i as nat, |j: int| be32_at(bytes@, 4 * j)),
                section_addresses@ == Seq::new(i as nat, |j: int| be32_at(bytes@, 72 + 4 * j)),
                section_lengths@ == Seq::new(i as nat, |j: int| be32_at(bytes@, 144 + 4 * j)),
            decreases SLOT_COUNT - i,
        {
            section_offsets.push(read_be32(bytes, 4 * i));
            section_addresses.push(read_be32(bytes, 72 + 4 * i));
            section_lengths.push(read_be32(bytes, 144 + 4 * i));
            i = i + 1;
            proof {
                assert(section_offsets@ =~= Seq::new(i as nat, |j: int| be32_at(bytes@, 4 * j)));
                assert(section_addresses@ =~= Seq::new(
                    i as nat,
                    |j: int| be32_at(bytes@, 72 + 4 * j),
                ));
                assert(section_lengths@ =~= Seq::new(
                    i as nat,
                    |j: int| be32_at(bytes@, 144 + 4 * j),
                ));
            }
        }
        let bss_start: u32 = read_be32(bytes, 216);
        let bss_length: u32 = read_be32(bytes, 220);
        let entry_point: u32 = read_be32(bytes, 224);
        let h = DolHeader {
            section_offsets,
            section_addresses,
            section_lengths,
            bss_start,
            bss_length,
            entry_point,
        };
        proof {
            assert(h@.offsets =~= parse_header(bytes@).offsets);
            assert(h@.addresses =~= parse_header(bytes@).addresses);
            assert(h@.lengths =~= parse_header(bytes@).lengths);
        }
        Ok(h)
    }

    /// Appends the exact 256-byte encoding of this header to `sink`: the
    /// three slot tables, the three scalars, then 28 zero bytes of padding.
    pub fn write(&self, sink: &mut Vec<u8>)
        requires
            self.wf(),
        ensures
            final(sink)@ == old(sink)@ + header_bytes(self@),
    {
        let ghost sink0 = sink@;
        write_be32_table(sink, &self.section_offsets);
        write_be32_table(sink, &self.section_addresses);
        write_be32_table(sink, &self.section_lengths);
        write_be32(sink, self.bss_start);
        write_be32(sink, self.bss_length);
        write_be32(sink, self.entry_point);
        let mut i: usize = 0;
        let ghost before_pad = sink@;
        while i < 28
            invariant
                i <= 28,
                sink@ == before_pad + zero_bytes(i as nat),
            decreases 28 - i,
        {
            sink.push(0);
            i = i + 1;
            proof {
                assert(sink@ =~= before_pad + zero_bytes(i as nat));
            }
        }
        proof {
            assert(sink@ =~= sink0 + header_bytes(self@));
        }
    }
}

/// Appends the big-endian encoding of every entry of `table` to `sink`.
fn write_be32_table(sink: &mut Vec<u8>, table: &Vec<u32>)
    ensures
        final(sink)@ == old(sink)@ + be32_seq_bytes(table@),
{
    let ghost sink0 = sink@;
    let mut i: usize = 0;
    while i < table.len()
        invariant
            i <= table@.len(),
            sink@ == sink0 + be32_seq_bytes(table@.take(i as int)),
        decreases table@.len() - i,
    {
        write_be32(sink, table[i]);
        i = i + 1;
        proof {
            assert(table@.take(i as int).drop_last() =~= table@.take(i as int - 1));
            assert(table@.take(i as int).last() == table@[i as int - 1]);
            assert(sink@ =~= sink0 + be32_seq_bytes(table@.take(i as int)));
        }
    }
    proof {
        assert(table@.take(table@.len() as int) =~= table@);
    }
}

/// A well-formed header always encodes to exactly 256 bytes.
pub proof fn lemma_header_bytes_len(h: HeaderModel)
    requires
        h.wf(),
    ensures
        header_bytes(h).len() == HEADER_SIZE,
{
    lemma_be32_seq_bytes_len(h.offsets);
    lemma_be32_seq_bytes_len(h.addresses);
    lemma_be32_seq_bytes_len(h.lengths);
}

/// Reading a header back from its own encoding, whatever bytes follow it,
/// gives the header value back.
pub proof fn lemma_parse_of_header_bytes(h: HeaderModel, tail: Seq<u8>)
    requires
        h.wf(),
    ensures
        header_bytes(h).len() == HEADER_SIZE,
        parse_header(header_bytes(h) + tail) == h,
{
    let hb = header_bytes(h);
    let b = hb + tail;
    lemma_be32_seq_bytes_len(h.offsets);
    lemma_be32_seq_bytes_len(h.addresses);
    lemma_be32_seq_bytes_len(h.lengths);
    assert(hb.len() == HEADER_SIZE);
    let p = parse_header(b);
    assert forall|i: int| 0 <= i < 18 implies #[trigger] p.offsets[i] == h.offsets[i] by {
        lemma_be32_seq_bytes_slice(h.offsets, i);
        assert(b.subrange(4 * i, 4 * i + 4) =~= be32_bytes(h.offsets[i]));
        lemma_be32_roundtrip(h.offsets[i]);
        assert(be32_bytes(h.offsets[i]).subrange(0, 4) =~= be32_bytes(h.offsets[i]));
        lemma_be32_at_eq(b, 4 * i, be32_bytes(h.offsets[i]), 0);
    }
    assert forall|i: int| 0 <= i < 18 implies #[trigger] p.addresses[i] == h.addresses[i] by {
        lemma_be32_seq_bytes_slice(h.addresses, i);
        assert(b.subrange(72 + 4 * i, 72 + 4 * i + 4) =~= be32_bytes(h.addresses[i]));
        lemma_be32_roundtrip(h.addresses[i]);
        assert(be32_bytes(h.addresses[i]).subrange(0, 4) =~= be32_bytes(h.addresses[i]));
        lemma_be32_at_eq(b, 72 + 4 * i, be32_bytes(h.addresses[i]), 0);
    }
    assert forall|i: int| 0 <= i < 18 implies #[trigger] p.lengths[i] == h.lengths[i] by {
        lemma_be32_seq_bytes_slice(h.lengths, i);
        assert(b.subrange(144 + 4 * i, 144 + 4 * i + 4) =~= be32_bytes(h.lengths[i]));
        lemma_be32_roundtrip(h.lengths[i]);
        assert(be32_bytes(h.lengths[i]).subrange(0, 4) =~= be32_bytes(h.lengths[i]));
        lemma_be32_at_eq(b, 144 + 4 * i, be32_bytes(h.lengths[i]), 0);
    }
    assert(p.offsets =~= h.offsets);
    assert(p.addresses =~= h.addresses);
    assert(p.lengths =~= h.lengths);
    assert(p.bss_start == h.bss_start) by {
        assert(b.subrange(216, 220) =~= be32_bytes(h.bss_start));
        lemma_be32_roundtrip(h.bss_start);
        assert(be32_bytes(h.bss_start).subrange(0, 4) =~= be32_bytes(h.bss_start));
        lemma_be32_at_eq(b, 216, be32_bytes(h.bss_start), 0);
    }
    assert(p.bss_length == h.bss_length) by {
        assert(b.subrange(220, 224) =~= be32_bytes(h.bss_length));
        lemma_be32_roundtrip(h.bss_length);
        assert(be32_bytes(h.bss_length).subrange(0, 4) =~= be32_bytes(h.bss_length));
        lemma_be32_at_eq(b, 220, be32_bytes(h.bss_length), 0);
    }
    assert(p.entry_point == h.entry_point) by {
        assert(b.subrange(224, 228) =~= be32_bytes(h.entry_point));
        lemma_be32_roundtrip(h.entry_point);
        assert(be32_bytes(h.entry_point).subrange(0, 4) =~= be32_bytes(h.entry_point));
        lemma_be32_at_eq(b, 224, be32_bytes(h.entry_point), 0);
    }
}

} // verus!
