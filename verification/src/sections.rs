//! Sections of a DOL file: their kind, their in-memory form, and the loader
//! that extracts them from a byte buffer under a header's slot table.

use crate::error::Error;
use vstd::prelude::*;
use vstd::slice::slice_subrange;
use vstd::slice::slice_to_vec;

verus! {

/// Indicates the type of a DOL section (text or data).
#[derive(Debug, Clone, Copy, PartialEq, Eq, Structural)]
pub enum SectionKind {
    Text,
    Data,
}

/// A section in a DOL file. Owns that section's data.
#[derive(Debug)]
pub struct Section {
    pub kind: SectionKind,
    pub address: u32,
    pub data: Vec<u8>,
}

/// The mathematical value of a [`Section`].
pub ghost struct SectionModel {
    pub kind: SectionKind,
    pub address: u32,
    pub data: Seq<u8>,
}

impl View for Section {
    type V = SectionModel;

    open spec fn view(&self) -> SectionModel {
        SectionModel { kind: self.kind, address: self.address, data: self.data@ }
    }
}

/// The sections described by parallel slot tables `offs`/`addrs`/`lens`,
/// drawn from the bytes of `b` and tagged `kind`, in ascending slot order.
///
/// A slot whose length is zero is unused and yields no section, whatever its
/// offset and address hold. A used slot whose byte range runs past the end of
/// `b` makes the whole load fail: a short read is an error, not truncation.
pub open spec fn load_slots(
    b: Seq<u8>,
    offs: Seq<u32>,
    addrs: Seq<u32>,
    lens: Seq<u32>,
    kind: SectionKind,
) -> Option<Seq<SectionModel>>
    recommends
        offs.len() == lens.len(),
        addrs.len() == lens.len(),
    decreases lens.len(),
{
    if lens.len() == 0 {
        Some(Seq::empty())
    } else {
        match load_slots(b, offs.drop_last(), addrs.drop_last(), lens.drop_last(), kind) {
            Option::None => None,
            Option::Some(pre) => {
                if lens.last() == 0 {
                    Some(pre)
                } else if offs.last() + lens.last() <= b.len() {
                    Some(
                        pre.push(
                            SectionModel {
                                kind,
                                address: addrs.last(),
                                data: b.subrange(
                                    offs.last() as int,
                                    offs.last() + lens.last(),
                                ),
                            },
                        ),
                    )
                } else {
                    None
                }
            },
        }
    }
}

/// How many slots of `lens` are in use, that is, have a nonzero length.
pub open spec fn count_used(lens: Seq<u32>) -> nat
    decreases lens.len(),
{
    if lens.len() == 0 {
        0
    } else {
        count_used(lens.drop_last()) + if lens.last() == 0 {
            0nat
        } else {
            1nat
        }
    }
}

/// No more slots are in use than there are slots.
pub proof fn lemma_count_used_le(lens: Seq<u32>)
    ensures
        count_used(lens) <= lens.len(),
    decreases lens.len(),
{
    if lens.len() > 0 {
        lemma_count_used_le(lens.drop_last());
    }
}

/// One used slot whose byte range runs past the end of `b` makes the whole
/// load fail.
pub proof fn lemma_load_slots_fail(
    b: Seq<u8>,
    offs: Seq<u32>,
    addrs: Seq<u32>,
    lens: Seq<u32>,
    kind: SectionKind,
    j: int,
)
    requires
        offs.len() == lens.len(),
        addrs.len() == lens.len(),
        0 <= j < lens.len(),
        lens[j] != 0,
        offs[j] + lens[j] > b.len(),
    ensures
        load_slots(b, offs, addrs, lens, kind) is None,
    decreases lens.len(),
{
    if j < lens.len() - 1 {
        lemma_load_slots_fail(b, offs.drop_last(), addrs.drop_last(), lens.drop_last(), kind, j);
    }
}

/// A successful load yields exactly one section per used slot.
pub proof fn lemma_load_slots_count(
    b: Seq<u8>,
    offs: Seq<u32>,
    addrs: Seq<u32>,
    lens: Seq<u32>,
    kind: SectionKind,
)
    requires
        offs.len() == lens.len(),
        addrs.len() == lens.len(),
    ensures
        match load_slots(b, offs, addrs, lens, kind) {
            Option::Some(ss) => ss.len() == count_used(lens),
            Option::None => true,
        },
    decreases lens.len(),
{
    if lens.len() > 0 {
        lemma_load_slots_count(b, offs.drop_last(), addrs.drop_last(), lens.drop_last(), kind);
    }
}

/// A slot table loads exactly the sections `ts` when its first `ts.len()`
/// slots describe them in order — right kind, address, length and byte
/// range — and every slot after them is unused.
pub proof fn lemma_load_slots_exact(
    b: Seq<u8>,
    offs: Seq<u32>,
    addrs: Seq<u32>,
    lens: Seq<u32>,
    kind: SectionKind,
    ts: Seq<SectionModel>,
)
    requires
        offs.len() == lens.len(),
        addrs.len() == lens.len(),
        ts.len() <= lens.len(),
        forall|j: int|
            0 <= j < ts.len() ==> {
                &&& (#[trigger] ts[j]).kind == kind
                &&& ts[j].address == addrs[j]
                &&& ts[j].data.len() == lens[j]
                &&& lens[j] != 0
                &&& offs[j] + lens[j] <= b.len()
                &&& ts[j].data == b.subrange(offs[j] as int, offs[j] + lens[j])
            },
        forall|j: int| ts.len() <= j < lens.len() ==> #[trigger] lens[j] == 0,
    ensures
        load_slots(b, offs, addrs, lens, kind) == Some(ts),
    decreases lens.len(),
{
    if lens.len() == 0 {
        assert(ts =~= Seq::<SectionModel>::empty());
    } else if ts.len() == lens.len() {
        let n = lens.len() - 1;
        lemma_load_slots_exact(
            b,
            offs.drop_last(),
            addrs.drop_last(),
            lens.drop_last(),
            kind,
            ts.drop_last(),
        );
        let sec = SectionModel {
            kind,
            address: addrs.last(),
            data: b.subrange(offs.last() as int, offs.last() + lens.last()),
        };
        assert(sec == ts[n]);
        assert(ts.drop_last().push(ts[n]) =~= ts);
    } else {
        lemma_load_slots_exact(b, offs.drop_last(), addrs.drop_last(), lens.drop_last(), kind, ts);
    }
}

/// Loads sections into a [`Vec`] of [`Section`]s, given the bytes of the
/// file, the header's slot tables, the slot range `lo..hi` to walk, and the
/// kind tag to attach to every section found there.
pub(crate) fn load_sections(
    bytes: &[u8],
    offsets: &Vec<u32>,
    addresses: &Vec<u32>,
    lengths: &Vec<u32>,
    lo: usize,
    hi: usize,
    kind: SectionKind,
) -> (r: Result<Vec<Section>, Error>)
    requires
        lo <= hi <= offsets@.len(),
        offsets@.len() == lengths@.len(),
        addresses@.len() == lengths@.len(),
    ensures
        match r {
            Ok(v) => load_slots(
                bytes@,
                offsets@.subrange(lo as int, hi as int),
                addresses@.subrange(lo as int, hi as int),
                lengths@.subrange(lo as int, hi as int),
                kind,
            ) == Some(v@.map_values(|s: Section| s@)),
            Err(e) => load_slots(
                bytes@,
                offsets@.subrange(lo as int, hi as int),
                addresses@.subrange(lo as int, hi as int),
                lengths@.subrange(lo as int, hi as int),
                kind,
            ) is None && e == Error::UnexpectedEnd,
        },
{
    let mut out: Vec<Section> = Vec::new();
    let mut i: usize = lo;
    proof {
        assert(out@.map_values(|s: Section| s@) =~= Seq::<SectionModel>::empty());
        assert(offsets@.subrange(lo as int, lo as int) =~= Seq::<u32>::empty());
        assert(addresses@.subrange(lo as int, lo as int) =~= Seq::<u32>::empty());
        assert(lengths@.subrange(lo as int, lo as int) =~= Seq::<u32>::empty());
    }
    while i < hi
        invariant
            lo <= i <= hi <= offsets@.len(),
            offsets@.len() == lengths@.len(),
            addresses@.len() == lengths@.len(),
            load_slots(
                bytes@,
                offsets@.subrange(lo as int, i as int),
                addresses@.subrange(lo as int, i as int),
                lengths@.subrange(lo as int, i as int),
                kind,
            ) == Some(out@.map_values(|s: Section| s@)),
        decreases hi - i,
    {
        let length = lengths[i];
        if length > 0 {
            let offset = offsets[i];
            if (offset as u64) + (length as u64) > (bytes.len() as u64) {
                proof {
                    lemma_load_slots_fail(
                        bytes@,
                        offsets@.subrange(lo as int, hi as int),
                        addresses@.subrange(lo as int, hi as int),
                        lengths@.subrange(lo as int, hi as int),
                        kind,
                        i - lo,
                    );
                }
                return Err(Error::UnexpectedEnd);
            }
            let off: usize = offset as usize;
            let len: usize = length as usize;
            let data: Vec<u8> = slice_to_vec(slice_subrange(bytes, off, off + len));
            out.push(Section { kind, address: addresses[i], data });
        }
        i = i + 1;
        proof {
            let po = offsets@.subrange(lo as int, i as int);
            let pa = addresses@.subrange(lo as int, i as int);
            let pl = lengths@.subrange(lo as int, i as int);
            assert(po.drop_last() =~= offsets@.subrange(lo as int, i as int - 1));
            assert(pa.drop_last() =~= addresses@.subrange(lo as int, i as int - 1));
            assert(pl.drop_last() =~= lengths@.subrange(lo as int, i as int - 1));
            assert(load_slots(bytes@, po, pa, pl, kind) == Some(
                out@.map_values(|s: Section| s@),
            )) by {
                assert(out@.map_values(|s: Section| s@) =~= out@.map_values(
                    |s: Section| s@,
                ));
                if pl.last() != 0 {
                    assert(out@.last()@.data =~= bytes@.subrange(
                        po.last() as int,
                        po.last() + pl.last(),
                    ));
                    assert(out@.map_values(|s: Section| s@) =~= out@.drop_last().map_values(
                        |s: Section| s@,
                    ).push(out@.last()@));
                }
            }
        }
    }
    proof {
        assert(offsets@.subrange(lo as int, i as int) =~= offsets@.subrange(lo as int, hi as int));
        assert(addresses@.subrange(lo as int, i as int) =~= addresses@.subrange(
            lo as int,
            hi as int,
        ));
        assert(lengths@.subrange(lo as int, i as int) =~= lengths@.subrange(lo as int, hi as int));
    }
    Ok(out)
}

} // verus!
