//! The laws the codec obeys, stated over the same spec functions its
//! contracts use and proved once and for all.

use crate::endian::be32_at;
use crate::endian::lemma_be32_bytes_of_at;
use crate::endian::lemma_be32_seq_bytes_of_ats;
use crate::endian::zero_bytes;
use crate::file::DATA_CAPACITY;
use crate::file::FileModel;
use crate::file::TEXT_CAPACITY;
use crate::file::encodable;
use crate::file::file_bytes;
use crate::file::kind_sections;
use crate::file::layout_header;
use crate::file::lemma_kind_sections_add;
use crate::file::lemma_kind_sections_all;
use crate::file::lemma_kind_sections_kinds;
use crate::file::lemma_kind_sections_none;
use crate::file::lemma_kind_sections_nonempty;
use crate::file::lemma_sections_bytes_len;
use crate::file::lemma_sections_bytes_slice;
use crate::file::lemma_sections_bytes_take_step;
use crate::file::lemma_total_len_add;
use crate::file::lemma_total_len_take_le;
use crate::file::lemma_total_len_take_step;
use crate::file::ordered_sections;
use crate::file::parse_file;
use crate::file::sections_bytes;
use crate::file::total_len;
use crate::header::HEADER_SIZE;
use crate::header::header_bytes;
use crate::header::lemma_parse_of_header_bytes;
use crate::header::parse_header;
use crate::sections::SectionKind;
use crate::sections::SectionModel;
use crate::sections::count_used;
use crate::sections::lemma_count_used_le;
use crate::sections::lemma_load_slots_count;
use crate::sections::lemma_load_slots_exact;
use crate::sections::load_slots;
use vstd::prelude::*;

verus! {

/// Round trip: reading back the bytes a file writes yields exactly that
/// file's sections — grouped by kind in Text-then-Data order, each group
/// keeping its relative input order — and its scalar fields verbatim.
///
/// The law asks that every section carry at least one byte of data: a
/// section with an empty buffer is written as a zero-length slot, which a
/// reader treats as unused, so such a section would not come back.
pub proof fn lemma_write_parse_round_trip(f: FileModel)
    requires
        kind_sections(f.sections, SectionKind::Text).len() <= TEXT_CAPACITY,
        kind_sections(f.sections, SectionKind::Data).len() <= DATA_CAPACITY,
        encodable(f),
        forall|i: int| 0 <= i < f.sections.len() ==> (#[trigger] f.sections[i]).data.len() > 0,
    ensures
        parse_file(file_bytes(f)) == Some(
            FileModel {
                sections: ordered_sections(f.sections),
                bss_start: f.bss_start,
                bss_length: f.bss_length,
                entry_point: f.entry_point,
            },
        ),
{
    let ss = f.sections;
    let texts = kind_sections(ss, SectionKind::Text);
    let datas = kind_sections(ss, SectionKind::Data);
    let ord = ordered_sections(ss);
    let t = texts.len() as int;
    let d = datas.len() as int;
    let lh = layout_header(f);
    let body = sections_bytes(ord);
    let b = file_bytes(f);

    lemma_parse_of_header_bytes(lh, body);
    lemma_sections_bytes_len(ord);
    assert(b.len() == HEADER_SIZE + total_len(ord));
    assert(parse_header(b) == lh);

    lemma_kind_sections_kinds(ss, SectionKind::Text);
    lemma_kind_sections_kinds(ss, SectionKind::Data);
    lemma_kind_sections_nonempty(ss, SectionKind::Text);
    lemma_kind_sections_nonempty(ss, SectionKind::Data);

    let po = lh.offsets.subrange(0, TEXT_CAPACITY as int);
    let pa = lh.addresses.subrange(0, TEXT_CAPACITY as int);
    let pl = lh.lengths.subrange(0, TEXT_CAPACITY as int);
    assert forall|j: int| 0 <= j < texts.len() implies {
        &&& (#[trigger] texts[j]).kind == SectionKind::Text
        &&& texts[j].address == pa[j]
        &&& texts[j].data.len() == pl[j]
        &&& pl[j] != 0
        &&& po[j] + pl[j] <= b.len()
        &&& texts[j].data == b.subrange(po[j] as int, po[j] + pl[j])
    } by {
        assert(ord[j] == texts[j]);
        lemma_total_len_take_le(ord, j);
        lemma_total_len_take_step(ord, j);
        lemma_total_len_take_le(ord, j + 1);
        assert(po[j] == HEADER_SIZE + total_len(ord.take(j)));
        assert(pl[j] == ord[j].data.len());
        lemma_sections_bytes_slice(ord, j);
        assert(b.subrange(po[j] as int, po[j] + pl[j]) =~= body.subrange(
            total_len(ord.take(j)) as int,
            total_len(ord.take(j)) as int + ord[j].data.len(),
        ));
    }
    assert forall|j: int| texts.len() <= j < pl.len() implies #[trigger] pl[j] == 0 by {}
    lemma_load_slots_exact(b, po, pa, pl, SectionKind::Text, texts);

    let qo = lh.offsets.subrange(TEXT_CAPACITY as int, 18);
    let qa = lh.addresses.subrange(TEXT_CAPACITY as int, 18);
    let ql = lh.lengths.subrange(TEXT_CAPACITY as int, 18);
    assert forall|j: int| 0 <= j < datas.len() implies {
        &&& (#[trigger] datas[j]).kind == SectionKind::Data
        &&& datas[j].address == qa[j]
        &&& datas[j].data.len() == ql[j]
        &&& ql[j] != 0
        &&& qo[j] + ql[j] <= b.len()
        &&& datas[j].data == b.subrange(qo[j] as int, qo[j] + ql[j])
    } by {
        assert(ord[t + j] == datas[j]);
        lemma_total_len_take_le(ord, t + j);
        lemma_total_len_take_step(ord, t + j);
        lemma_total_len_take_le(ord, t + j + 1);
        assert(qo[j] == HEADER_SIZE + total_len(ord.take(t + j)));
        assert(ql[j] == ord[t + j].data.len());
        lemma_sections_bytes_slice(ord, t + j);
        assert(b.subrange(qo[j] as int, qo[j] + ql[j]) =~= body.subrange(
            total_len(ord.take(t + j)) as int,
            total_len(ord.take(t + j)) as int + ord[t + j].data.len(),
        ));
    }
    assert forall|j: int| datas.len() <= j < ql.len() implies #[trigger] ql[j] == 0 by {}
    lemma_load_slots_exact(b, qo, qa, ql, SectionKind::Data, datas);

    assert(load_slots(b, po, pa, pl, SectionKind::Text) == Some(texts));
    assert(load_slots(b, qo, qa, ql, SectionKind::Data) == Some(datas));
}

/// The combined byte count of the first `n` slots' lengths.
pub open spec fn lens_sum(lens: Seq<u32>, n: int) -> int
    recommends
        n <= lens.len(),
    decreases n,
{
    if n <= 0 {
        0
    } else {
        lens_sum(lens, n - 1) + lens[n - 1]
    }
}

/// A byte stream in the canonical shape the writer produces: a full header
/// whose used slots form a prefix of each kind's range, whose unused slots
/// are zero throughout, whose offsets lay the sections out contiguously
/// right after the header in slot order, whose padding is zero, and whose
/// data runs to exactly the declared end.
pub open spec fn canonical_layout(b: Seq<u8>) -> bool {
    let h = parse_header(b);
    let t = count_used(h.lengths.subrange(0, TEXT_CAPACITY as int)) as int;
    let d = count_used(h.lengths.subrange(TEXT_CAPACITY as int, 18)) as int;
    &&& b.len() >= HEADER_SIZE
    &&& (forall|j: int| 0 <= j < TEXT_CAPACITY ==> ((#[trigger] h.lengths[j]) != 0 <==> j < t))
    &&& (forall|j: int|
        TEXT_CAPACITY <= j < 18 ==> ((#[trigger] h.lengths[j]) != 0 <==> j - TEXT_CAPACITY < d))
    &&& (forall|j: int|
        0 <= j < 18 && (#[trigger] h.lengths[j]) != 0 ==> h.offsets[j] == HEADER_SIZE + lens_sum(
            h.lengths,
            j,
        ))
    &&& (forall|j: int|
        0 <= j < 18 && (#[trigger] h.lengths[j]) == 0 ==> h.offsets[j] == 0 && h.addresses[j]
            == 0)
    &&& b.len() == HEADER_SIZE + lens_sum(h.lengths, 18)
    &&& b.subrange(228, HEADER_SIZE as int) == zero_bytes(28)
}

/// Slots in a run of zero lengths add nothing to the sums.
proof fn lemma_lens_sum_zeros(lens: Seq<u32>, a: int, c: int)
    requires
        0 <= a <= c <= lens.len(),
        forall|j: int| a <= j < c ==> (#[trigger] lens[j]) == 0,
    ensures
        lens_sum(lens, c) == lens_sum(lens, a),
    decreases c - a,
{
    if c > a {
        lemma_lens_sum_zeros(lens, a, c - 1);
    }
}

/// The sums only grow along the slots.
proof fn lemma_lens_sum_mono(lens: Seq<u32>, a: int, c: int)
    requires
        0 <= a <= c <= lens.len(),
    ensures
        lens_sum(lens, a) <= lens_sum(lens, c),
    decreases c - a,
{
    if c > a {
        lemma_lens_sum_mono(lens, a, c - 1);
    }
}

/// Sections whose data buffers are as long as the slot lengths say occupy,
/// prefix by prefix, as many bytes as those lengths add up to.
proof fn lemma_total_len_matches_sums(
    lens: Seq<u32>,
    ss: Seq<SectionModel>,
    base: int,
    j: int,
)
    requires
        0 <= j <= ss.len(),
        0 <= base,
        base + ss.len() <= lens.len(),
        forall|i: int| 0 <= i < ss.len() ==> (#[trigger] ss[i]).data.len() == lens[base + i],
    ensures
        total_len(ss.take(j)) == lens_sum(lens, base + j) - lens_sum(lens, base),
    decreases j,
{
    if j == 0 {
        assert(ss.take(0) =~= Seq::<SectionModel>::empty());
    } else {
        lemma_total_len_matches_sums(lens, ss, base, j - 1);
        lemma_total_len_take_step(ss, j - 1);
    }
}

/// Sections whose data sits contiguously in `b` right after the header
/// concatenate, prefix by prefix, to the bytes of `b` they sit in.
proof fn lemma_contiguous_body(b: Seq<u8>, ss: Seq<SectionModel>, j: int)
    requires
        0 <= j <= ss.len(),
        HEADER_SIZE + total_len(ss) <= b.len(),
        forall|i: int|
            0 <= i < ss.len() ==> (#[trigger] ss[i]).data == b.subrange(
                HEADER_SIZE + total_len(ss.take(i)),
                HEADER_SIZE + total_len(ss.take(i)) + ss[i].data.len(),
            ),
    ensures
        sections_bytes(ss.take(j)) == b.subrange(
            HEADER_SIZE as int,
            HEADER_SIZE + total_len(ss.take(j)),
        ),
    decreases j,
{
    if j == 0 {
        assert(ss.take(0) =~= Seq::<SectionModel>::empty());
        assert(sections_bytes(ss.take(0)) =~= b.subrange(
            HEADER_SIZE as int,
            HEADER_SIZE as int,
        ));
    } else {
        lemma_contiguous_body(b, ss, j - 1);
        lemma_total_len_take_step(ss, j - 1);
        lemma_total_len_take_le(ss, j);
        lemma_sections_bytes_take_step(ss, j - 1);
        assert(sections_bytes(ss.take(j)) =~= b.subrange(
            HEADER_SIZE as int,
            HEADER_SIZE + total_len(ss.take(j)),
        ));
    }
}

/// The Text section count a canonical stream's header declares.
pub open spec fn canonical_t(b: Seq<u8>) -> int {
    count_used(parse_header(b).lengths.subrange(0, TEXT_CAPACITY as int)) as int
}

/// The Data section count a canonical stream's header declares.
pub open spec fn canonical_d(b: Seq<u8>) -> int {
    count_used(parse_header(b).lengths.subrange(TEXT_CAPACITY as int, 18)) as int
}

/// The Text sections a canonical stream holds, slot by slot.
pub open spec fn canonical_texts(b: Seq<u8>) -> Seq<SectionModel> {
    let h = parse_header(b);
    Seq::new(
        canonical_t(b) as nat,
        |j: int|
            SectionModel {
                kind: SectionKind::Text,
                address: h.addresses[j],
                data: b.subrange(h.offsets[j] as int, h.offsets[j] + h.lengths[j]),
            },
    )
}

/// The Data sections a canonical stream holds, slot by slot.
pub open spec fn canonical_datas(b: Seq<u8>) -> Seq<SectionModel> {
    let h = parse_header(b);
    Seq::new(
        canonical_d(b) as nat,
        |j: int|
            SectionModel {
                kind: SectionKind::Data,
                address: h.addresses[TEXT_CAPACITY + j],
                data: b.subrange(
                    h.offsets[TEXT_CAPACITY + j] as int,
                    h.offsets[TEXT_CAPACITY + j] + h.lengths[TEXT_CAPACITY + j],
                ),
            },
    )
}

/// The file value a canonical stream holds.
pub open spec fn canonical_file(b: Seq<u8>) -> FileModel {
    let h = parse_header(b);
    FileModel {
        sections: canonical_texts(b) + canonical_datas(b),
        bss_start: h.bss_start,
        bss_length: h.bss_length,
        entry_point: h.entry_point,
    }
}

/// A canonical stream parses, to exactly the file `canonical_file` names.
proof fn lemma_canonical_parses(b: Seq<u8>)
    requires
        canonical_layout(b),
    ensures
        parse_file(b) == Some(canonical_file(b)),
{
    let h = parse_header(b);
    let lens = h.lengths;
    let t = canonical_t(b);
    let d = canonical_d(b);
    lemma_count_used_le(lens.subrange(0, TEXT_CAPACITY as int));
    lemma_count_used_le(lens.subrange(TEXT_CAPACITY as int, 18));
    let texts = canonical_texts(b);
    let datas = canonical_datas(b);

    let po = h.offsets.subrange(0, TEXT_CAPACITY as int);
    let pa = h.addresses.subrange(0, TEXT_CAPACITY as int);
    let pl = h.lengths.subrange(0, TEXT_CAPACITY as int);
    assert forall|j: int| 0 <= j < texts.len() implies {
        &&& (#[trigger] texts[j]).kind == SectionKind::Text
        &&& texts[j].address == pa[j]
        &&& texts[j].data.len() == pl[j]
        &&& pl[j] != 0
        &&& po[j] + pl[j] <= b.len()
        &&& texts[j].data == b.subrange(po[j] as int, po[j] + pl[j])
    } by {
        assert(lens[j] != 0);
        lemma_lens_sum_mono(lens, j + 1, 18);
        assert(lens_sum(lens, j + 1) == lens_sum(lens, j) + lens[j]);
    }
    assert forall|j: int| texts.len() <= j < pl.len() implies #[trigger] pl[j] == 0 by {}
    lemma_load_slots_exact(b, po, pa, pl, SectionKind::Text, texts);

    let qo = h.offsets.subrange(TEXT_CAPACITY as int, 18);
    let qa = h.addresses.subrange(TEXT_CAPACITY as int, 18);
    let ql = h.lengths.subrange(TEXT_CAPACITY as int, 18);
    assert forall|j: int| 0 <= j < datas.len() implies {
        &&& (#[trigger] datas[j]).kind == SectionKind::Data
        &&& datas[j].address == qa[j]
        &&& datas[j].data.len() == ql[j]
        &&& ql[j] != 0
        &&& qo[j] + ql[j] <= b.len()
        &&& datas[j].data == b.subrange(qo[j] as int, qo[j] + ql[j])
    } by {
        let sj = TEXT_CAPACITY + j;
        assert(lens[sj] != 0);
        lemma_lens_sum_mono(lens, sj + 1, 18);
        assert(lens_sum(lens, sj + 1) == lens_sum(lens, sj) + lens[sj]);
    }
    assert forall|j: int| datas.len() <= j < ql.len() implies #[trigger] ql[j] == 0 by {}
    lemma_load_slots_exact(b, qo, qa, ql, SectionKind::Data, datas);
}

/// A canonical stream's sections are already grouped Text-then-Data, so the
/// writer keeps them in place.
proof fn lemma_canonical_structure(b: Seq<u8>)
    requires
        canonical_layout(b),
    ensures
        kind_sections(canonical_file(b).sections, SectionKind::Text) == canonical_texts(b),
        kind_sections(canonical_file(b).sections, SectionKind::Data) == canonical_datas(b),
        ordered_sections(canonical_file(b).sections) == canonical_file(b).sections,
{
    let texts = canonical_texts(b);
    let datas = canonical_datas(b);
    lemma_kind_sections_add(texts, datas, SectionKind::Text);
    lemma_kind_sections_add(texts, datas, SectionKind::Data);
    lemma_kind_sections_all(texts, SectionKind::Text);
    lemma_kind_sections_none(texts, SectionKind::Data);
    lemma_kind_sections_all(datas, SectionKind::Data);
    lemma_kind_sections_none(datas, SectionKind::Text);
    assert(kind_sections(texts + datas, SectionKind::Text) =~= texts);
    assert(kind_sections(texts + datas, SectionKind::Data) =~= datas);
}

/// The slot sums of a canonical stream retrace the writer's running cursor.
proof fn lemma_canonical_sums(b: Seq<u8>)
    requires
        canonical_layout(b),
    ensures
        forall|j: int|
            0 <= j <= canonical_t(b) ==> total_len(
                #[trigger] canonical_file(b).sections.take(j),
            ) == lens_sum(parse_header(b).lengths, j),
        forall|j: int|
            0 <= j <= canonical_d(b) ==> total_len(
                #[trigger] canonical_file(b).sections.take(canonical_t(b) + j),
            ) == lens_sum(parse_header(b).lengths, TEXT_CAPACITY + j),
        total_len(canonical_file(b).sections) == lens_sum(parse_header(b).lengths, 18),
{
    let lens = parse_header(b).lengths;
    let t = canonical_t(b);
    let d = canonical_d(b);
    lemma_count_used_le(lens.subrange(0, TEXT_CAPACITY as int));
    lemma_count_used_le(lens.subrange(TEXT_CAPACITY as int, 18));
    let texts = canonical_texts(b);
    let datas = canonical_datas(b);
    let ss = canonical_file(b).sections;
    assert forall|i: int| 0 <= i < texts.len() implies (#[trigger] texts[i]).data.len() == lens[
        0 + i
    ] by {
        assert(lens[i] != 0);
        lemma_lens_sum_mono(lens, i + 1, 18);
        assert(lens_sum(lens, i + 1) == lens_sum(lens, i) + lens[i]);
    }
    assert forall|i: int| 0 <= i < datas.len() implies (#[trigger] datas[i]).data.len() == lens[
        TEXT_CAPACITY + i
    ] by {
        let si = TEXT_CAPACITY + i;
        assert(lens[si] != 0);
        lemma_lens_sum_mono(lens, si + 1, 18);
        assert(lens_sum(lens, si + 1) == lens_sum(lens, si) + lens[si]);
    }
    lemma_lens_sum_zeros(lens, t, TEXT_CAPACITY as int);
    lemma_lens_sum_zeros(lens, TEXT_CAPACITY + d, 18);
    assert forall|j: int| 0 <= j <= t implies total_len(#[trigger] ss.take(j)) == lens_sum(
        lens,
        j,
    ) by {
        assert(ss.take(j) =~= texts.take(j));
        lemma_total_len_matches_sums(lens, texts, 0, j);
    }
    assert forall|j: int| 0 <= j <= d implies total_len(#[trigger] ss.take(t + j)) == lens_sum(
        lens,
        TEXT_CAPACITY + j,
    ) by {
        assert(ss.take(t + j) =~= texts + datas.take(j));
        lemma_total_len_add(texts, datas.take(j));
        assert(texts.take(t) =~= texts);
        lemma_total_len_matches_sums(lens, texts, 0, t);
        lemma_total_len_matches_sums(lens, datas, TEXT_CAPACITY as int, j);
    }
    assert(total_len(ss) == lens_sum(lens, 18)) by {
        assert(ss.take(t + d) =~= ss);
        assert(total_len(ss.take(t + d)) == lens_sum(lens, TEXT_CAPACITY + d));
    }
}

/// The writer derives from a canonical stream's file exactly the header the
/// stream already holds.
#[verifier::rlimit(100)]
proof fn lemma_canonical_layout_header(b: Seq<u8>)
    requires
        canonical_layout(b),
    ensures
        layout_header(canonical_file(b)) == parse_header(b),
{
    let h = parse_header(b);
    let lens = h.lengths;
    let t = canonical_t(b);
    let d = canonical_d(b);
    lemma_count_used_le(lens.subrange(0, TEXT_CAPACITY as int));
    lemma_count_used_le(lens.subrange(TEXT_CAPACITY as int, 18));
    lemma_canonical_structure(b);
    lemma_canonical_sums(b);
    let f = canonical_file(b);
    let ss = f.sections;
    let lh = layout_header(f);
    assert forall|j: int| 0 <= j < 18 implies #[trigger] lh.offsets[j] == h.offsets[j]
        && lh.addresses[j] == h.addresses[j] && lh.lengths[j] == h.lengths[j] by {
        if j < TEXT_CAPACITY {
            if j < t {
                assert(total_len(ss.take(j)) == lens_sum(lens, j));
                assert(ss[j] == canonical_texts(b)[j]);
                assert(lens[j] != 0);
                lemma_lens_sum_mono(lens, j + 1, 18);
                assert(lens_sum(lens, j + 1) == lens_sum(lens, j) + lens[j]);
            } else {
                assert(lens[j] == 0);
            }
        } else {
            if j - TEXT_CAPACITY < d {
                let i = j - TEXT_CAPACITY;
                assert(total_len(ss.take(t + i)) == lens_sum(lens, TEXT_CAPACITY + i));
                assert(ss[t + i] == canonical_datas(b)[i]);
                assert(lens[j] != 0);
                lemma_lens_sum_mono(lens, j + 1, 18);
                assert(lens_sum(lens, j + 1) == lens_sum(lens, j) + lens[j]);
            } else {
                assert(lens[j] == 0);
            }
        }
    }
    assert(lh.offsets =~= h.offsets);
    assert(lh.addresses =~= h.addresses);
    assert(lh.lengths =~= h.lengths);
}

/// Re-encoding the header a canonical stream holds gives back its first 256
/// bytes.
proof fn lemma_canonical_header_bytes(b: Seq<u8>)
    requires
        canonical_layout(b),
    ensures
        header_bytes(parse_header(b)) == b.subrange(0, HEADER_SIZE as int),
{
    let h = parse_header(b);
    lemma_be32_seq_bytes_of_ats(b, 0, 18);
    lemma_be32_seq_bytes_of_ats(b, 72, 18);
    lemma_be32_seq_bytes_of_ats(b, 144, 18);
    assert(h.offsets =~= Seq::new(18, |i: int| be32_at(b, 0 + 4 * i)));
    assert(h.addresses =~= Seq::new(18, |i: int| be32_at(b, 72 + 4 * i)));
    assert(h.lengths =~= Seq::new(18, |i: int| be32_at(b, 144 + 4 * i)));
    lemma_be32_bytes_of_at(b, 216);
    lemma_be32_bytes_of_at(b, 220);
    lemma_be32_bytes_of_at(b, 224);
    assert(header_bytes(h) =~= b.subrange(0, HEADER_SIZE as int));
}

/// The section data of a canonical stream concatenates to everything after
/// its header.
#[verifier::rlimit(100)]
proof fn lemma_canonical_body_bytes(b: Seq<u8>)
    requires
        canonical_layout(b),
    ensures
        sections_bytes(canonical_file(b).sections) == b.subrange(
            HEADER_SIZE as int,
            b.len() as int,
        ),
{
    let h = parse_header(b);
    let lens = h.lengths;
    let t = canonical_t(b);
    let d = canonical_d(b);
    lemma_count_used_le(lens.subrange(0, TEXT_CAPACITY as int));
    lemma_count_used_le(lens.subrange(TEXT_CAPACITY as int, 18));
    lemma_canonical_sums(b);
    let ss = canonical_file(b).sections;
    assert forall|i: int| 0 <= i < ss.len() implies (#[trigger] ss[i]).data == b.subrange(
        HEADER_SIZE + total_len(ss.take(i)),
        HEADER_SIZE + total_len(ss.take(i)) + ss[i].data.len(),
    ) by {
        if i < t {
            assert(ss[i] == canonical_texts(b)[i]);
            assert(total_len(ss.take(i)) == lens_sum(lens, i));
            assert(lens[i] != 0);
            lemma_lens_sum_mono(lens, i + 1, 18);
            assert(lens_sum(lens, i + 1) == lens_sum(lens, i) + lens[i]);
        } else {
            let j = i - t;
            let sj = TEXT_CAPACITY + j;
            assert(ss[i] == canonical_datas(b)[j]);
            assert(total_len(ss.take(t + j)) == lens_sum(lens, sj));
            assert(lens[sj] != 0);
            lemma_lens_sum_mono(lens, sj + 1, 18);
            assert(lens_sum(lens, sj + 1) == lens_sum(lens, sj) + lens[sj]);
        }
    }
    lemma_contiguous_body(b, ss, ss.len() as int);
    assert(ss.take(ss.len() as int) =~= ss);
}

/// Fixture round trip: a byte stream in the canonical shape the writer
/// produces parses successfully, and writing the parsed file reproduces the
/// original byte stream exactly.
#[verifier::rlimit(100)]
pub proof fn lemma_parse_write_round_trip(b: Seq<u8>)
    requires
        canonical_layout(b),
    ensures
        match parse_file(b) {
            Option::Some(f) => file_bytes(f) == b,
            Option::None => false,
        },
{
    lemma_canonical_parses(b);
    lemma_canonical_structure(b);
    lemma_canonical_layout_header(b);
    lemma_canonical_header_bytes(b);
    lemma_canonical_body_bytes(b);
    let f = canonical_file(b);
    assert(header_bytes(layout_header(f)) == b.subrange(0, HEADER_SIZE as int));
    assert(sections_bytes(ordered_sections(f.sections)) == b.subrange(
        HEADER_SIZE as int,
        b.len() as int,
    ));
    assert(b.subrange(0, HEADER_SIZE as int) + b.subrange(HEADER_SIZE as int, b.len() as int)
        =~= b);
    assert(file_bytes(f) == b);
}

/// A slot whose length is zero yields no section: a successful load yields
/// exactly one section per slot with a nonzero length.
pub proof fn lemma_zero_length_slots_skipped(
    b: Seq<u8>,
    offs: Seq<u32>,
    addrs: Seq<u32>,
    lens: Seq<u32>,
    kind: SectionKind,
)
    requires
        offs.len() == lens.len(),
        addrs.len() == lens.len(),
    ensures
        match load_slots(b, offs, addrs, lens, kind) {
            Option::Some(ss) => ss.len() == count_used(lens),
            Option::None => true,
        },
{
    lemma_load_slots_count(b, offs, addrs, lens, kind);
}

/// What an unused slot's offset and address tables hold makes no difference
/// to a load: a zero-length slot is skipped whatever they say.
pub proof fn lemma_unused_slot_ignored(
    b: Seq<u8>,
    offs: Seq<u32>,
    addrs: Seq<u32>,
    lens: Seq<u32>,
    kind: SectionKind,
    j: int,
    off2: u32,
    addr2: u32,
)
    requires
        offs.len() == lens.len(),
        addrs.len() == lens.len(),
        0 <= j < lens.len(),
        lens[j] == 0,
    ensures
        load_slots(b, offs.update(j, off2), addrs.update(j, addr2), lens, kind) == load_slots(
            b,
            offs,
            addrs,
            lens,
            kind,
        ),
    decreases lens.len(),
{
    let uo = offs.update(j, off2);
    let ua = addrs.update(j, addr2);
    if j == lens.len() - 1 {
        assert(uo.drop_last() =~= offs.drop_last());
        assert(ua.drop_last() =~= addrs.drop_last());
    } else {
        assert(uo.drop_last() =~= offs.drop_last().update(j, off2));
        assert(ua.drop_last() =~= addrs.drop_last().update(j, addr2));
        lemma_unused_slot_ignored(
            b,
            offs.drop_last(),
            addrs.drop_last(),
            lens.drop_last(),
            kind,
            j,
            off2,
            addr2,
        );
    }
}

} // verus!
