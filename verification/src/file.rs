//! A DOL file as a whole: the logical, kind-agnostic view of an executable,
//! its parser, and the layout algorithm that turns it back into bytes.

use crate::error::Error;
use crate::header::header_bytes;
use crate::header::parse_header;
use crate::header::DolHeader;
use crate::header::HeaderModel;
use crate::header::HEADER_SIZE;
use crate::sections::load_sections;
use crate::sections::load_slots;
use crate::sections::Section;
use crate::sections::SectionKind;
use crate::sections::SectionModel;
use vstd::prelude::*;

verus! {

/// Header slots reserved for Text sections: `0..7`.
pub const TEXT_CAPACITY: usize = 7;

/// Header slots reserved for Data sections: `7..18`.
pub const DATA_CAPACITY: usize = 11;

/// A DOL executable file.
#[derive(Debug)]
pub struct DolFile {
    pub sections: Vec<Section>,
    pub bss_start: u32,
    pub bss_length: u32,
    pub entry_point: u32,
}

/// The mathematical value of a [`DolFile`].
pub ghost struct FileModel {
    pub sections: Seq<SectionModel>,
    pub bss_start: u32,
    pub bss_length: u32,
    pub entry_point: u32,
}

impl View for DolFile {
    type V = FileModel;

    open spec fn view(&self) -> FileModel {
        FileModel {
            sections: self.sections@.map_values(|s: Section| s@),
            bss_start: self.bss_start,
            bss_length: self.bss_length,
            entry_point: self.entry_point,
        }
    }
}

/// The subsequence of `ss` of kind `k`, keeping its original relative order.
pub open spec fn kind_sections(ss: Seq<SectionModel>, k: SectionKind) -> Seq<SectionModel>
    decreases ss.len(),
{
    if ss.len() == 0 {
        Seq::empty()
    } else {
        let pre = kind_sections(ss.drop_last(), k);
        if ss.last().kind == k {
            pre.push(ss.last())
        } else {
            pre
        }
    }
}

/// The sections of a file in the order they are laid out on disk: the Text
/// subsequence first, then the Data subsequence.
pub open spec fn ordered_sections(ss: Seq<SectionModel>) -> Seq<SectionModel> {
    kind_sections(ss, SectionKind::Text) + kind_sections(ss, SectionKind::Data)
}

/// The combined byte count of the data buffers of `ss`.
pub open spec fn total_len(ss: Seq<SectionModel>) -> nat
    decreases ss.len(),
{
    if ss.len() == 0 {
        0
    } else {
        total_len(ss.drop_last()) + ss.last().data.len()
    }
}

/// The data buffers of `ss`, concatenated in order.
pub open spec fn sections_bytes(ss: Seq<SectionModel>) -> Seq<u8>
    decreases ss.len(),
{
    if ss.len() == 0 {
        Seq::empty()
    } else {
        sections_bytes(ss.drop_last()) + ss.last().data
    }
}

/// Which position of the laid-out section sequence header slot `j` holds,
/// given the Text and Data section counts, or `-1` for an unused slot.
pub open spec fn slot_index(tcount: int, dcount: int, j: int) -> int {
    if 0 <= j < TEXT_CAPACITY {
        if j < tcount {
            j
        } else {
            -1
        }
    } else if TEXT_CAPACITY <= j < 18 {
        if j - TEXT_CAPACITY < dcount {
            tcount + (j - TEXT_CAPACITY)
        } else {
            -1
        }
    } else {
        -1
    }
}

/// The header a file lays out when it is written: sections sit contiguously
/// after the header, Text sections in slots `0..7` and Data sections in slots
/// `7..18`, each slot carrying the running byte offset, the section's load
/// address and its length; unused slots hold zero in all three tables.
pub open spec fn layout_header(f: FileModel) -> HeaderModel {
    let ord = ordered_sections(f.sections);
    let t = kind_sections(f.sections, SectionKind::Text).len() as int;
    let d = kind_sections(f.sections, SectionKind::Data).len() as int;
    HeaderModel {
        offsets: Seq::new(
            18,
            |j: int|
                if slot_index(t, d, j) >= 0 {
                    (HEADER_SIZE + total_len(ord.take(slot_index(t, d, j)))) as u32
                } else {
                    0u32
                },
        ),
        addresses: Seq::new(
            18,
            |j: int|
                if slot_index(t, d, j) >= 0 {
                    ord[slot_index(t, d, j)].address
                } else {
                    0u32
                },
        ),
        lengths: Seq::new(
            18,
            |j: int|
                if slot_index(t, d, j) >= 0 {
                    ord[slot_index(t, d, j)].data.len() as u32
                } else {
                    0u32
                },
        ),
        bss_start: f.bss_start,
        bss_length: f.bss_length,
        entry_point: f.entry_point,
    }
}

/// The full byte image a file writes: its laid-out header followed by every
/// section's data, contiguously and in layout order.
pub open spec fn file_bytes(f: FileModel) -> Seq<u8> {
    header_bytes(layout_header(f)) + sections_bytes(ordered_sections(f.sections))
}

/// The file's laid-out size stays within the header's 32-bit offset fields.
pub open spec fn encodable(f: FileModel) -> bool {
    HEADER_SIZE + total_len(ordered_sections(f.sections)) <= u32::MAX
}

/// The file value stored in `b`, or `None` where `b` cannot supply the header
/// or the bytes of a section a used slot declares.
pub open spec fn parse_file(b: Seq<u8>) -> Option<FileModel> {
    if b.len() < HEADER_SIZE {
        None
    } else {
        let h = parse_header(b);
        match load_slots(
            b,
            h.offsets.subrange(0, TEXT_CAPACITY as int),
            h.addresses.subrange(0, TEXT_CAPACITY as int),
            h.lengths.subrange(0, TEXT_CAPACITY as int),
            SectionKind::Text,
        ) {
            Option::None => None,
            Option::Some(ts) => match load_slots(
                b,
                h.offsets.subrange(TEXT_CAPACITY as int, 18),
                h.addresses.subrange(TEXT_CAPACITY as int, 18),
                h.lengths.subrange(TEXT_CAPACITY as int, 18),
                SectionKind::Data,
            ) {
                Option::None => None,
                Option::Some(ds) => Some(
                    FileModel {
                        sections: ts + ds,
                        bss_start: h.bss_start,
                        bss_length: h.bss_length,
                        entry_point: h.entry_point,
                    },
                ),
            },
        }
    }
}

impl DolFile {
    /// Loads a DOL file from the bytes of a whole file, returning a `DolFile`
    /// if successful: the header's Text slots are walked first, then its Data
    /// slots, and the scalar fields are copied over verbatim.
    pub fn parse(bytes: &[u8]) -> (r: Result<DolFile, Error>)
        ensures
            match r {
                Ok(f) => parse_file(bytes@) == Some(f@),
                Err(e) => parse_file(bytes@) is None && e == Error::UnexpectedEnd,
            },
    {
        let header = match DolHeader::parse(bytes) {
            Ok(h) => h,
            Err(e) => {
                return Err(e);
            },
        };
        let mut sections = match load_sections(
            bytes,
            &header.section_offsets,
            &header.section_addresses,
            &header.section_lengths,
            0,
            TEXT_CAPACITY,
            SectionKind::Text,
        ) {
            Ok(v) => v,
            Err(e) => {
                return Err(e);
            },
        };
        let mut data_sections = match load_sections(
            bytes,
            &header.section_offsets,
            &header.section_addresses,
            &header.section_lengths,
            TEXT_CAPACITY,
            18,
            SectionKind::Data,
        ) {
            Ok(v) => v,
            Err(e) => {
                return Err(e);
            },
        };
        let ghost ts = sections@.map_values(|s: Section| s@);
        let ghost ds = data_sections@.map_values(|s: Section| s@);
        sections.append(&mut data_sections);
        let f = DolFile {
            sections,
            bss_start: header.bss_start,
            bss_length: header.bss_length,
            entry_point: header.entry_point,
        };
        proof {
            assert(f@.sections =~= ts + ds);
        }
        Ok(f)
    }

    /// Writes a DOL file to a byte sink, returning `Ok(())` if successful.
    ///
    /// Sections are grouped Text-first-then-Data, each group keeping its
    /// relative input order, and laid out contiguously after the header. If a
    /// kind holds more sections than its slot budget, the write fails with a
    /// capacity error naming that kind — Text is checked first — and the sink
    /// is left untouched.
    #[verifier::loop_isolation(false)]
    #[verifier::rlimit(100)]
    pub fn write(&self, sink: &mut Vec<u8>) -> (r: Result<(), Error>)
        requires
            kind_sections(self@.sections, SectionKind::Text).len() <= TEXT_CAPACITY
                && kind_sections(self@.sections, SectionKind::Data).len() <= DATA_CAPACITY
                ==> encodable(self@),
        ensures
            match r {
                Ok(_) => {
                    &&& kind_sections(self@.sections, SectionKind::Text).len() <= TEXT_CAPACITY
                    &&& kind_sections(self@.sections, SectionKind::Data).len() <= DATA_CAPACITY
                    &&& final(sink)@ == old(sink)@ + file_bytes(self@)
                },
                Err(e) => {
                    &&& final(sink)@ == old(sink)@
                    &&& if kind_sections(self@.sections, SectionKind::Text).len()
                        > TEXT_CAPACITY {
                        e == Error::TooManySections(SectionKind::Text)
                    } else {
                        kind_sections(self@.sections, SectionKind::Data).len() > DATA_CAPACITY
                            && e == Error::TooManySections(SectionKind::Data)
                    }
                },
            },
    {
        let ghost msecs = self@.sections;
        let base: usize = sink.len();

        let mut text_idx: Vec<usize> = Vec::new();
        let mut data_idx: Vec<usize> = Vec::new();
        let mut i: usize = 0;
        proof {
            assert(text_idx@.map_values(|q: usize| msecs[q as int]) =~= kind_sections(
                msecs.take(0),
                SectionKind::Text,
            ));
            assert(data_idx@.map_values(|q: usize| msecs[q as int]) =~= kind_sections(
                msecs.take(0),
                SectionKind::Data,
            ));
        }
        while i < self.sections.len()
            invariant
                i <= self.sections@.len(),
                text_idx@.map_values(|q: usize| msecs[q as int]) == kind_sections(
                    msecs.take(i as int),
                    SectionKind::Text,
                ),
                data_idx@.map_values(|q: usize| msecs[q as int]) == kind_sections(
                    msecs.take(i as int),
                    SectionKind::Data,
                ),
                forall|p: int| 0 <= p < text_idx@.len() ==> text_idx@[p] < i,
                forall|p: int| 0 <= p < data_idx@.len() ==> data_idx@[p] < i,
            decreases self.sections@.len() - i,
        {
            if self.sections[i].kind == SectionKind::Text {
                text_idx.push(i);
            } else {
                data_idx.push(i);
            }
            i = i + 1;
            proof {
                assert(msecs.take(i as int).drop_last() =~= msecs.take(i as int - 1));
                assert(msecs.take(i as int).last() == msecs[i as int - 1]);
                assert(text_idx@.map_values(|q: usize| msecs[q as int]) =~= kind_sections(
                    msecs.take(i as int),
                    SectionKind::Text,
                ));
                assert(data_idx@.map_values(|q: usize| msecs[q as int]) =~= kind_sections(
                    msecs.take(i as int),
                    SectionKind::Data,
                ));
            }
        }
        proof {
            assert(msecs.take(msecs.len() as int) =~= msecs);
        }

        if text_idx.len() > TEXT_CAPACITY {
            return Err(Error::TooManySections(SectionKind::Text));
        }
        if data_idx.len() > DATA_CAPACITY {
            return Err(Error::TooManySections(SectionKind::Data));
        }

        let ghost texts = kind_sections(msecs, SectionKind::Text);
        let ghost datas = kind_sections(msecs, SectionKind::Data);
        let ghost ord = ordered_sections(msecs);
        let ghost t = texts.len() as int;
        let ghost d = datas.len() as int;
        let ghost lh = layout_header(self@);

        let mut section_offsets: Vec<u32> = Vec::new();
        let mut section_addresses: Vec<u32> = Vec::new();
        let mut section_lengths: Vec<u32> = Vec::new();
        let mut cursor: u32 = HEADER_SIZE as u32;
        let mut k: usize = 0;
        proof {
            assert(ord.take(0) =~= Seq::<SectionModel>::empty());
        }
        while k < text_idx.len()
            invariant
                k <= t,
                section_offsets@.len() == k,
                section_addresses@.len() == k,
                section_lengths@.len() == k,
                forall|p: int|
                    0 <= p < k ==> section_offsets@[p] == lh.offsets[p]
                        && section_addresses@[p] == lh.addresses[p] && section_lengths@[p]
                        == lh.lengths[p],
                cursor == HEADER_SIZE + total_len(ord.take(k as int)),
            decreases t - k,
        {
            let idx = text_idx[k];
            proof {
                assert(ord[k as int] == texts[k as int]);
                assert(texts[k as int] == msecs[text_idx@[k as int] as int]);
                lemma_total_len_take_step(ord, k as int);
                lemma_total_len_take_le(ord, k as int + 1);
            }
            let section = &self.sections[idx];
            let length: u32 = section.data.len() as u32;
            section_offsets.push(cursor);
            section_addresses.push(section.address);
            section_lengths.push(length);
            cursor = cursor + length;
            k = k + 1;
        }
        let mut j: usize = text_idx.len();
        while j < TEXT_CAPACITY
            invariant
                t <= j <= TEXT_CAPACITY,
                section_offsets@.len() == j,
                section_addresses@.len() == j,
                section_lengths@.len() == j,
                forall|p: int|
                    0 <= p < j ==> section_offsets@[p] == lh.offsets[p]
                        && section_addresses@[p] == lh.addresses[p] && section_lengths@[p]
                        == lh.lengths[p],
            decreases TEXT_CAPACITY - j,
        {
            section_offsets.push(0);
            section_addresses.push(0);
            section_lengths.push(0);
            j = j + 1;
        }
        let mut k: usize = 0;
        while k < data_idx.len()
            invariant
                k <= d,
                section_offsets@.len() == TEXT_CAPACITY + k,
                section_addresses@.len() == TEXT_CAPACITY + k,
                section_lengths@.len() == TEXT_CAPACITY + k,
                forall|p: int|
                    0 <= p < TEXT_CAPACITY + k ==> section_offsets@[p] == lh.offsets[p]
                        && section_addresses@[p] == lh.addresses[p] && section_lengths@[p]
                        == lh.lengths[p],
                cursor == HEADER_SIZE + total_len(ord.take(t + k)),
            decreases d - k,
        {
            let idx = data_idx[k];
            proof {
                assert(ord[t + k] == datas[k as int]);
                assert(datas[k as int] == msecs[data_idx@[k as int] as int]);
                lemma_total_len_take_step(ord, t + k);
                lemma_total_len_take_le(ord, t + k + 1);
            }
            let section = &self.sections[idx];
            let length: u32 = section.data.len() as u32;
            section_offsets.push(cursor);
            section_addresses.push(section.address);
            section_lengths.push(length);
            cursor = cursor + length;
            k = k + 1;
        }
        let mut j: usize = TEXT_CAPACITY + data_idx.len();
        while j < 18
            invariant
                TEXT_CAPACITY + d <= j <= 18,
                section_offsets@.len() == j,
                section_addresses@.len() == j,
                section_lengths@.len() == j,
                forall|p: int|
                    0 <= p < j ==> section_offsets@[p] == lh.offsets[p]
                        && section_addresses@[p] == lh.addresses[p] && section_lengths@[p]
                        == lh.lengths[p],
            decreases 18 - j,
        {
            section_offsets.push(0);
            section_addresses.push(0);
            section_lengths.push(0);
            j = j + 1;
        }

        let header = DolHeader {
            section_offsets,
            section_addresses,
            section_lengths,
            bss_start: self.bss_start,
            bss_length: self.bss_length,
            entry_point: self.entry_point,
        };
        proof {
            assert(header@.offsets =~= lh.offsets);
            assert(header@.addresses =~= lh.addresses);
            assert(header@.lengths =~= lh.lengths);
        }
        header.write(sink);

        let mut k: usize = 0;
        while k < text_idx.len()
            invariant
                k <= t,
                sink@ == old(sink)@ + header_bytes(lh) + sections_bytes(ord.take(k as int)),
            decreases t - k,
        {
            let idx = text_idx[k];
            let offset: u32 = header.section_offsets[k];
            proof {
                assert(ord[k as int] == texts[k as int]);
                assert(texts[k as int] == msecs[text_idx@[k as int] as int]);
                lemma_total_len_take_le(ord, k as int);
                lemma_sections_bytes_len(ord.take(k as int));
                crate::header::lemma_header_bytes_len(lh);
            }
            // The layout is contiguous, so the write position always equals
            // the slot's assigned offset and no gap ever has to be closed;
            // the fill is the general step the format calls for.
            while sink.len() - base < offset as usize
                invariant
                    sink@ == old(sink)@ + header_bytes(lh) + sections_bytes(ord.take(k as int)),
                    sink@.len() - base == offset as int,
                decreases offset as int - (sink@.len() - base),
            {
                sink.push(0);
            }
            append_bytes(sink, &self.sections[idx].data);
            k = k + 1;
            proof {
                lemma_sections_bytes_take_step(ord, k as int - 1);
                assert(sink@ =~= old(sink)@ + header_bytes(lh) + sections_bytes(
                    ord.take(k as int),
                ));
            }
        }
        let mut k: usize = 0;
        while k < data_idx.len()
            invariant
                k <= d,
                sink@ == old(sink)@ + header_bytes(lh) + sections_bytes(ord.take(t + k)),
            decreases d - k,
        {
            let idx = data_idx[k];
            let offset: u32 = header.section_offsets[TEXT_CAPACITY + k];
            proof {
                assert(ord[t + k] == datas[k as int]);
                assert(datas[k as int] == msecs[data_idx@[k as int] as int]);
                lemma_total_len_take_le(ord, t + k);
                lemma_sections_bytes_len(ord.take(t + k));
                crate::header::lemma_header_bytes_len(lh);
            }
            while sink.len() - base < offset as usize
                invariant
                    sink@ == old(sink)@ + header_bytes(lh) + sections_bytes(ord.take(t + k)),
                    sink@.len() - base == offset as int,
                decreases offset as int - (sink@.len() - base),
            {
                sink.push(0);
            }
            append_bytes(sink, &self.sections[idx].data);
            k = k + 1;
            proof {
                lemma_sections_bytes_take_step(ord, t + k - 1);
                assert(sink@ =~= old(sink)@ + header_bytes(lh) + sections_bytes(ord.take(t + k)));
            }
        }
        proof {
            assert(ord.take(t + d) =~= ord);
            assert(sink@ =~= old(sink)@ + file_bytes(self@));
        }
        Ok(())
    }
}

/// Appends the bytes of `data` to `sink`.
fn append_bytes(sink: &mut Vec<u8>, data: &Vec<u8>)
    ensures
        final(sink)@ == old(sink)@ + data@,
{
    let ghost sink0 = sink@;
    let mut m: usize = 0;
    while m < data.len()
        invariant
            m <= data@.len(),
            sink@ == sink0 + data@.take(m as int),
        decreases data@.len() - m,
    {
        sink.push(data[m]);
        m = m + 1;
        proof {
            assert(sink@ =~= sink0 + data@.take(m as int));
        }
    }
    proof {
        assert(data@.take(data@.len() as int) =~= data@);
    }
}

/// `total_len` of one more section of the prefix.
pub proof fn lemma_total_len_take_step(ss: Seq<SectionModel>, k: int)
    requires
        0 <= k < ss.len(),
    ensures
        total_len(ss.take(k + 1)) == total_len(ss.take(k)) + ss[k].data.len(),
{
    assert(ss.take(k + 1).drop_last() =~= ss.take(k));
}

/// A prefix never holds more bytes than the whole.
pub proof fn lemma_total_len_take_le(ss: Seq<SectionModel>, k: int)
    requires
        0 <= k <= ss.len(),
    ensures
        total_len(ss.take(k)) <= total_len(ss),
    decreases ss.len() - k,
{
    if k == ss.len() {
        assert(ss.take(k) =~= ss);
    } else {
        lemma_total_len_take_step(ss, k);
        lemma_total_len_take_le(ss, k + 1);
    }
}

/// The concatenated section data is as long as the lengths add up to.
pub proof fn lemma_sections_bytes_len(ss: Seq<SectionModel>)
    ensures
        sections_bytes(ss).len() == total_len(ss),
    decreases ss.len(),
{
    if ss.len() > 0 {
        lemma_sections_bytes_len(ss.drop_last());
    }
}

/// `sections_bytes` of one more section of the prefix.
pub proof fn lemma_sections_bytes_take_step(ss: Seq<SectionModel>, k: int)
    requires
        0 <= k < ss.len(),
    ensures
        sections_bytes(ss.take(k + 1)) == sections_bytes(ss.take(k)) + ss[k].data,
{
    assert(ss.take(k + 1).drop_last() =~= ss.take(k));
    assert(sections_bytes(ss.take(k + 1)) == sections_bytes(ss.take(k)) + ss[k].data);
}

/// Within the concatenated section data, section `i`'s bytes sit exactly at
/// the offsets its predecessors' lengths add up to.
pub proof fn lemma_sections_bytes_slice(ss: Seq<SectionModel>, i: int)
    requires
        0 <= i < ss.len(),
    ensures
        sections_bytes(ss).subrange(
            total_len(ss.take(i)) as int,
            total_len(ss.take(i)) as int + ss[i].data.len(),
        ) == ss[i].data,
    decreases ss.len(),
{
    lemma_sections_bytes_len(ss.drop_last());
    let a = total_len(ss.take(i)) as int;
    let c = a + ss[i].data.len();
    if i == ss.len() - 1 {
        assert(ss.take(i) =~= ss.drop_last());
        assert(sections_bytes(ss).subrange(a, c) =~= ss[i].data);
    } else {
        lemma_sections_bytes_slice(ss.drop_last(), i);
        assert(ss.drop_last().take(i) =~= ss.take(i));
        lemma_total_len_take_step(ss.drop_last(), i);
        lemma_total_len_take_le(ss.drop_last(), i + 1);
        assert(sections_bytes(ss).subrange(a, c) =~= sections_bytes(ss.drop_last()).subrange(
            a,
            c,
        ));
    }
}

/// `total_len` adds up over concatenation.
pub proof fn lemma_total_len_add(xs: Seq<SectionModel>, ys: Seq<SectionModel>)
    ensures
        total_len(xs + ys) == total_len(xs) + total_len(ys),
    decreases ys.len(),
{
    if ys.len() == 0 {
        assert(xs + ys =~= xs);
    } else {
        assert((xs + ys).drop_last() =~= xs + ys.drop_last());
        lemma_total_len_add(xs, ys.drop_last());
    }
}

/// The kind filter distributes over concatenation.
pub proof fn lemma_kind_sections_add(xs: Seq<SectionModel>, ys: Seq<SectionModel>, k: SectionKind)
    ensures
        kind_sections(xs + ys, k) == kind_sections(xs, k) + kind_sections(ys, k),
    decreases ys.len(),
{
    if ys.len() == 0 {
        assert(xs + ys =~= xs);
        assert(kind_sections(xs, k) + kind_sections(ys, k) =~= kind_sections(xs, k));
    } else {
        assert((xs + ys).drop_last() =~= xs + ys.drop_last());
        lemma_kind_sections_add(xs, ys.drop_last(), k);
        if ys.last().kind == k {
            assert(kind_sections(xs, k) + kind_sections(ys, k) =~= (kind_sections(xs, k)
                + kind_sections(ys.drop_last(), k)).push(ys.last()));
        }
    }
}

/// The kind filter keeps a sequence whole when every section has the kind.
pub proof fn lemma_kind_sections_all(xs: Seq<SectionModel>, k: SectionKind)
    requires
        forall|i: int| 0 <= i < xs.len() ==> (#[trigger] xs[i]).kind == k,
    ensures
        kind_sections(xs, k) == xs,
    decreases xs.len(),
{
    if xs.len() > 0 {
        lemma_kind_sections_all(xs.drop_last(), k);
        assert(kind_sections(xs.drop_last(), k).push(xs.last()) =~= xs);
    }
}

/// The kind filter keeps nothing of a sequence where no section has the kind.
pub proof fn lemma_kind_sections_none(xs: Seq<SectionModel>, k: SectionKind)
    requires
        forall|i: int| 0 <= i < xs.len() ==> (#[trigger] xs[i]).kind != k,
    ensures
        kind_sections(xs, k) == Seq::<SectionModel>::empty(),
    decreases xs.len(),
{
    if xs.len() > 0 {
        lemma_kind_sections_none(xs.drop_last(), k);
    }
}

/// Every section the kind filter keeps carries the kind it filtered for.
pub proof fn lemma_kind_sections_kinds(ss: Seq<SectionModel>, k: SectionKind)
    ensures
        forall|i: int|
            0 <= i < kind_sections(ss, k).len() ==> (#[trigger] kind_sections(ss, k)[i]).kind
                == k,
    decreases ss.len(),
{
    if ss.len() > 0 {
        lemma_kind_sections_kinds(ss.drop_last(), k);
    }
}

/// The kind filter keeps only sections of the input, so when every input
/// section carries data, so does every filtered one.
pub proof fn lemma_kind_sections_nonempty(ss: Seq<SectionModel>, k: SectionKind)
    requires
        forall|i: int| 0 <= i < ss.len() ==> (#[trigger] ss[i]).data.len() > 0,
    ensures
        forall|i: int|
            0 <= i < kind_sections(ss, k).len() ==> (#[trigger] kind_sections(ss, k)[i]).data.len()
                > 0,
    decreases ss.len(),
{
    if ss.len() > 0 {
        lemma_kind_sections_nonempty(ss.drop_last(), k);
    }
}

} // verus!
