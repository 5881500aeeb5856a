//! A version header read back is the header that was written.

use crate::error::Error;
use crate::glass::varint;
use crate::glass::version;
use crate::glass::version::{RootInfo, VersionSpec};
use vstd::prelude::*;

verus! {

/// Numbers packed one behind the other.
pub open spec fn packed_uints(v: Seq<u64>) -> Seq<u8>
    decreases v.len(),
{
    if v.len() == 0 {
        Seq::empty()
    } else {
        varint::packed_uint(v[0] as nat) + packed_uints(v.drop_first())
    }
}

/// Numbers read back from their packing are the numbers that were packed.
pub proof fn law_uints_round_trip(before: Seq<u8>, v: Seq<u64>, behind: Seq<u8>)
    ensures
        varint::u64s_at(before + packed_uints(v) + behind, before.len() as int, v.len()) == Some(
            (v, (before.len() + packed_uints(v).len()) as int),
        ),
    decreases v.len(),
{
    let all = before + packed_uints(v) + behind;
    if v.len() == 0 {
        assert(v =~= Seq::<u64>::empty());
    } else {
        let head = varint::packed_uint(v[0] as nat);
        let rest = v.drop_first();
        varint::law_uint_round_trip(before, v[0] as nat, packed_uints(rest) + behind);
        assert(all =~= before + head + (packed_uints(rest) + behind));
        law_uints_round_trip(before + head, rest, behind);
        assert(all =~= (before + head) + packed_uints(rest) + behind);
        assert(v =~= seq![v[0]] + rest);
    }
}

/// A flag as a number.
pub open spec fn flag_bit(b: bool) -> int {
    if b {
        1
    } else {
        0
    }
}

/// The packing of root info with the given serialised freelist.
pub open spec fn packed_root(info: RootInfo, freelist: Seq<u8>) -> Seq<u8> {
    packed_uints(
        seq![
            info.root,
            (info.level * 4 + flag_bit(info.sequential) * 2 + flag_bit(info.root_is_fake)) as u64,
            info.num_entries,
            (info.blocksize / 2048) as u64,
            info.compress_min as u64,
        ],
    ) + varint::packed_uint(freelist.len()) + freelist
}

/// Root info that a header can hold: the block size is a multiple of 2048, and the
/// compression threshold is not the one that stands for the default.
pub open spec fn root_ok(info: RootInfo, freelist: Seq<u8>) -> bool {
    &&& info.blocksize % 2048 == 0
    &&& info.compress_min != 4
    &&& info.fl_serialised_len == freelist.len()
}

/// Root info read back from its packing is the root info that was packed.
pub proof fn law_root_round_trip(
    before: Seq<u8>,
    info: RootInfo,
    freelist: Seq<u8>,
    behind: Seq<u8>,
)
    requires
        root_ok(info, freelist),
    ensures
        version::root_at(before + packed_root(info, freelist) + behind, before.len() as int)
            == Some((info, (before.len() + packed_root(info, freelist).len()) as int)),
{
    let v = seq![
        info.root,
        (info.level * 4 + flag_bit(info.sequential) * 2 + flag_bit(info.root_is_fake)) as u64,
        info.num_entries,
        (info.blocksize / 2048) as u64,
        info.compress_min as u64,
    ];
    let all = before + packed_root(info, freelist) + behind;
    let len = varint::packed_uint(freelist.len());
    law_uints_round_trip(before, v, len + freelist + behind);
    assert(all =~= before + packed_uints(v) + (len + freelist + behind));
    let mid = before + packed_uints(v);
    varint::law_uint_round_trip(mid, freelist.len(), freelist + behind);
    assert(all =~= mid + len + (freelist + behind));
    let start = (mid + len).len() as int;
    assert(all.subrange(start, start + freelist.len()) =~= freelist);
    assert(version::root_of(v, freelist) == info);
}

/// The packing of root infos with the given serialised freelists.
pub open spec fn packed_roots(roots: Seq<RootInfo>, freelists: Seq<Seq<u8>>) -> Seq<u8>
    decreases roots.len(),
{
    if roots.len() == 0 {
        Seq::empty()
    } else {
        packed_roots(roots.drop_last(), freelists) + packed_root(
            roots.last(),
            freelists[roots.len() - 1],
        )
    }
}

/// Root infos read back from their packing are those that were packed.
pub proof fn lemma_roots_round_trip(
    before: Seq<u8>,
    roots: Seq<RootInfo>,
    freelists: Seq<Seq<u8>>,
    behind: Seq<u8>,
)
    requires
        forall|k: int| 0 <= k < roots.len() ==> root_ok(#[trigger] roots[k], freelists[k]),
    ensures
        version::roots_at(
            before + packed_roots(roots, freelists) + behind,
            before.len() as int,
            roots.len(),
        ) == Some((roots, (before.len() + packed_roots(roots, freelists).len()) as int)),
    decreases roots.len(),
{
    let all = before + packed_roots(roots, freelists) + behind;
    if roots.len() == 0 {
        assert(roots =~= Seq::<RootInfo>::empty());
    } else {
        let most = roots.drop_last();
        let head = packed_roots(most, freelists);
        let tail = packed_root(roots.last(), freelists[roots.len() - 1]);
        assert(root_ok(roots[roots.len() - 1], freelists[roots.len() - 1]));
        assert forall|k: int| 0 <= k < most.len() implies root_ok(
            #[trigger] most[k],
            freelists[k],
        ) by {
            assert(most[k] == roots[k]);
        }
        lemma_roots_round_trip(before, most, freelists, tail + behind);
        assert(all =~= before + head + (tail + behind));
        law_root_round_trip(
            before + head,
            roots.last(),
            freelists[roots.len() - 1],
            behind,
        );
        assert(all =~= (before + head) + tail + behind);
        assert(most.push(roots.last()) =~= roots);
    }
}

/// A header that can be written: it has six tables, and the two numbers that are stored
/// as distances are not smaller than what they are measured from.
pub open spec fn version_ok(v: VersionSpec, freelists: Seq<Seq<u8>>) -> bool {
    &&& v.format_version == version::GLASS_FORMAT_VERSION
    &&& v.uuid.len() == 16
    &&& v.roots.len() == 6
    &&& forall|k: int| 0 <= k < 6 ==> root_ok(#[trigger] v.roots[k], freelists[k])
    &&& v.doccount <= v.last_docid
    &&& v.wdf_ubound <= v.doclen_ubound
}

/// The statistics of a header, as they are stored.
pub open spec fn stored_stats(v: VersionSpec) -> Seq<u64> {
    seq![
        v.doccount,
        (v.last_docid - v.doccount) as u64,
        v.doclen_lbound,
        v.wdf_ubound,
        (v.doclen_ubound - v.wdf_ubound) as u64,
        v.oldest_changeset,
        v.total_doclen,
        v.spelling_wordfreq_ubound,
    ]
}

/// The packing of a version header.
pub open spec fn packed_version(v: VersionSpec, freelists: Seq<Seq<u8>>) -> Seq<u8> {
    version::GLASS_MAGIC@ + seq![4u8, 110u8] + v.uuid + varint::packed_uint(v.rev as nat)
        + packed_roots(v.roots, freelists) + packed_uints(stored_stats(v))
}

/// A version header read back from its packing, whatever stands behind it, is the header
/// that was packed.
pub proof fn law_version_round_trip(v: VersionSpec, freelists: Seq<Seq<u8>>, behind: Seq<u8>)
    requires
        version_ok(v, freelists),
    ensures
        version::version_at(packed_version(v, freelists) + behind) == Ok::<VersionSpec, Error>(v),
{
    let data = packed_version(v, freelists) + behind;
    let head = version::GLASS_MAGIC@ + seq![4u8, 110u8] + v.uuid;
    let rev = varint::packed_uint(v.rev as nat);
    let roots = packed_roots(v.roots, freelists);
    let stats = packed_uints(stored_stats(v));
    assert(head.len() == 32);
    assert(data.subrange(0, 14) =~= version::GLASS_MAGIC@);
    assert(data[14] == 4 && data[15] == 110);
    assert(data.subrange(16, 32) =~= v.uuid);
    varint::law_uint_round_trip(head, v.rev as nat, roots + stats + behind);
    assert(data =~= head + rev + (roots + stats + behind));
    lemma_roots_round_trip(head + rev, v.roots, freelists, stats + behind);
    assert(data =~= (head + rev) + roots + (stats + behind));
    law_uints_round_trip(head + rev + roots, stored_stats(v), behind);
    assert(data =~= (head + rev + roots) + stats + behind);
}

} // verus!
