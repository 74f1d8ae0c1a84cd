//! Grouping overlays by the memory slot they load into, for the linker script.
use vstd::prelude::*;

verus! {

/// Where an overlay loads and how big its code is.
#[derive(Clone, Copy, Debug, PartialEq, Eq)]
pub struct OverlayInfo {
    pub id: u16,
    pub base_address: u32,
    pub code_size: u32,
}

/// Overlays that load at the same address, right after the overlays of
/// `after` (those that end where this group starts), or after the main
/// module where `after` is empty.
pub struct OverlayGroup {
    pub overlays: Vec<u16>,
    pub after: Vec<u16>,
}

/// The base address of the overlay `id` among `ovs`.
pub open spec fn base_of(ovs: Seq<OverlayInfo>, id: u16) -> u32 {
    ovs[choose|i: int| 0 <= i < ovs.len() && (#[trigger] ovs[i]).id == id].base_address
}

/// Whether `id` is the id of one of `ovs`.
pub open spec fn has_id(ovs: Seq<OverlayInfo>, id: u16) -> bool {
    exists|i: int| 0 <= i < ovs.len() && (#[trigger] ovs[i]).id == id
}

/// No two overlays share an id.
pub open spec fn ids_unique(ovs: Seq<OverlayInfo>) -> bool {
    forall|i: int, j: int| 0 <= i < ovs.len() && 0 <= j < ovs.len() && i != j ==> (#[trigger] ovs[i]).id != (
    #[trigger] ovs[j]).id
}

/// The ids of the overlays of `ovs` that load at `base`, in order.
pub open spec fn ids_at(ovs: Seq<OverlayInfo>, base: u32) -> Seq<u16>
    decreases ovs.len(),
{
    if ovs.len() == 0 {
        Seq::empty()
    } else {
        let p = ids_at(ovs.drop_last(), base);
        if ovs.last().base_address == base {
            p.push(ovs.last().id)
        } else {
            p
        }
    }
}

/// The ids of the overlays of `ovs` that load below `base` and end exactly
/// at it, in order.
pub open spec fn ids_ending_at(ovs: Seq<OverlayInfo>, base: u32) -> Seq<u16>
    decreases ovs.len(),
{
    if ovs.len() == 0 {
        Seq::empty()
    } else {
        let p = ids_ending_at(ovs.drop_last(), base);
        let o = ovs.last();
        if o.base_address < base && o.base_address + o.code_size == base {
            p.push(o.id)
        } else {
            p
        }
    }
}

/// The groups are the overlays by load address, lowest first: each group is
/// every overlay at one address, the addresses rise from group to group, and
/// each group loads after the group below it.
pub open spec fn groups_correct(ovs: Seq<OverlayInfo>, groups: Seq<(Seq<u16>, Seq<u16>)>, bases: Seq<u32>) -> bool {
    &&& groups_shape(ovs, groups, bases)
    &&& forall|i: int| 0 <= i < ovs.len() ==> exists|g: int| 0 <= g < groups.len() && (#[trigger] bases[g]) == (
    #[trigger] ovs[i]).base_address
}

/// Each group is every overlay at its address, the addresses rise from group
/// to group, and each group loads after the group below it.
pub open spec fn groups_shape(ovs: Seq<OverlayInfo>, groups: Seq<(Seq<u16>, Seq<u16>)>, bases: Seq<u32>) -> bool {
    &&& groups.len() == bases.len()
    &&& forall|g: int| 0 <= g < groups.len() ==> (#[trigger] groups[g]).0 == ids_at(ovs, bases[g])
    &&& forall|g: int| 0 <= g < groups.len() ==> (#[trigger] groups[g]).0.len() > 0
    &&& forall|g: int, h: int| 0 <= g < h < groups.len() ==> (#[trigger] bases[g]) < (#[trigger] bases[h])
    &&& forall|g: int| 0 <= g < groups.len() ==> (#[trigger] groups[g]).1 == ids_ending_at(ovs, bases[g])
}

/// A group as plain values: its overlays and the overlays it loads after.
pub open spec fn group_view(g: OverlayGroup) -> (Seq<u16>, Seq<u16>) {
    (g.overlays@, g.after@)
}

/// The groups as plain values.
pub open spec fn groups_of(r: Seq<OverlayGroup>) -> Seq<(Seq<u16>, Seq<u16>)> {
    r.map_values(|g: OverlayGroup| group_view(g))
}

proof fn lemma_ids_at_members(ovs: Seq<OverlayInfo>, base: u32)
    ensures
        forall|x: int| 0 <= x < ids_at(ovs, base).len() ==> exists|i: int|
            0 <= i < ovs.len() && (#[trigger] ovs[i]).id == #[trigger] ids_at(ovs, base)[x] && ovs[i].base_address == base,
        (exists|i: int| 0 <= i < ovs.len() && (#[trigger] ovs[i]).base_address == base) ==> ids_at(ovs, base).len() > 0,
    decreases ovs.len(),
{
    if ovs.len() > 0 {
        let q = ovs.drop_last();
        lemma_ids_at_members(q, base);
        let p = ids_at(q, base);
        assert forall|x: int| 0 <= x < ids_at(ovs, base).len() implies exists|i: int|
            0 <= i < ovs.len() && (#[trigger] ovs[i]).id == #[trigger] ids_at(ovs, base)[x] && ovs[i].base_address
                == base by {
            if x < p.len() {
                let i = choose|i: int| 0 <= i < q.len() && (#[trigger] q[i]).id == p[x] && q[i].base_address == base;
                assert(ovs[i] == q[i]);
            } else {
                assert(ovs[ovs.len() - 1].id == ids_at(ovs, base)[x]);
            }
        }
        if exists|i: int| 0 <= i < ovs.len() && (#[trigger] ovs[i]).base_address == base {
            let i = choose|i: int| 0 <= i < ovs.len() && (#[trigger] ovs[i]).base_address == base;
            if i < ovs.len() - 1 {
                assert(q[i] == ovs[i]);
            }
        }
    }
}

proof fn lemma_ids_ending_members(ovs: Seq<OverlayInfo>, base: u32)
    ensures
        forall|x: int| 0 <= x < ids_ending_at(ovs, base).len() ==> exists|i: int|
            0 <= i < ovs.len() && (#[trigger] ovs[i]).id == #[trigger] ids_ending_at(ovs, base)[x] && ovs[i].base_address < base,
    decreases ovs.len(),
{
    if ovs.len() > 0 {
        let q = ovs.drop_last();
        lemma_ids_ending_members(q, base);
        let p = ids_ending_at(q, base);
        assert forall|x: int| 0 <= x < ids_ending_at(ovs, base).len() implies exists|i: int|
            0 <= i < ovs.len() && (#[trigger] ovs[i]).id == #[trigger] ids_ending_at(ovs, base)[x] && ovs[i].base_address
                < base by {
            if x < p.len() {
                let i = choose|i: int| 0 <= i < q.len() && (#[trigger] q[i]).id == p[x] && q[i].base_address < base;
                assert(ovs[i] == q[i]);
            } else {
                assert(ovs[ovs.len() - 1].id == ids_ending_at(ovs, base)[x]);
            }
        }
    }
}

/// Every overlay in a group loads at the group's address.
pub proof fn lemma_groups_share_base(
    ovs: Seq<OverlayInfo>,
    groups: Seq<(Seq<u16>, Seq<u16>)>,
    bases: Seq<u32>,
    g: int,
    x: int,
)
    requires
        ids_unique(ovs),
        groups_correct(ovs, groups, bases),
        0 <= g < groups.len(),
        0 <= x < groups[g].0.len(),
    ensures
        has_id(ovs, groups[g].0[x]),
        base_of(ovs, groups[g].0[x]) == bases[g],
{
    lemma_ids_at_members(ovs, bases[g]);
    let id = groups[g].0[x];
    let i = choose|i: int| 0 <= i < ovs.len() && (#[trigger] ovs[i]).id == ids_at(ovs, bases[g])[x]
        && ovs[i].base_address == bases[g];
    assert(ovs[i].id == id);
    let k = choose|k: int| 0 <= k < ovs.len() && (#[trigger] ovs[k]).id == id;
    assert(k == i);
}

/// Every overlay that a group loads after has a lower address, lies in an
/// earlier group, and is not one of the group's own overlays.
pub proof fn lemma_after_is_earlier(
    ovs: Seq<OverlayInfo>,
    groups: Seq<(Seq<u16>, Seq<u16>)>,
    bases: Seq<u32>,
    g: int,
    x: int,
)
    requires
        ids_unique(ovs),
        groups_correct(ovs, groups, bases),
        0 <= g < groups.len(),
        0 <= x < groups[g].1.len(),
    ensures
        has_id(ovs, groups[g].1[x]),
        base_of(ovs, groups[g].1[x]) < bases[g],
        exists|h: int, y: int| 0 <= h < g && 0 <= y < groups[h].0.len() && (#[trigger] groups[h].0[y]) == groups[g].1[x],
        forall|y: int| 0 <= y < groups[g].0.len() ==> (#[trigger] groups[g].0[y]) != groups[g].1[x],
{
    lemma_ids_ending_members(ovs, bases[g]);
    let aid = groups[g].1[x];
    let j = choose|j: int| 0 <= j < ovs.len() && (#[trigger] ovs[j]).id == ids_ending_at(ovs, bases[g])[x]
        && ovs[j].base_address < bases[g];
    let m = choose|m: int| 0 <= m < ovs.len() && (#[trigger] ovs[m]).id == aid;
    assert(m == j);
    let h = choose|h: int| 0 <= h < groups.len() && (#[trigger] bases[h]) == ovs[j].base_address;
    if h >= g {
        if h > g {
            assert(bases[g] < bases[h]);
        }
    }
    lemma_ids_at_contains(ovs, ovs[j].base_address, j);
    let y = choose|y: int| 0 <= y < ids_at(ovs, bases[h]).len() && ids_at(ovs, bases[h])[y] == aid;
    assert(groups[h].0[y] == aid);
    assert forall|y2: int| 0 <= y2 < groups[g].0.len() implies (#[trigger] groups[g].0[y2]) != groups[g].1[x] by {
        lemma_groups_share_base(ovs, groups, bases, g, y2);
    }
}

/// An overlay is in one group only.
pub proof fn lemma_one_group(
    ovs: Seq<OverlayInfo>,
    groups: Seq<(Seq<u16>, Seq<u16>)>,
    bases: Seq<u32>,
    g: int,
    x: int,
    h: int,
    y: int,
)
    requires
        ids_unique(ovs),
        groups_correct(ovs, groups, bases),
        0 <= g < groups.len(),
        0 <= x < groups[g].0.len(),
        0 <= h < groups.len(),
        0 <= y < groups[h].0.len(),
        groups[g].0[x] == groups[h].0[y],
    ensures
        g == h,
{
    lemma_groups_share_base(ovs, groups, bases, g, x);
    lemma_groups_share_base(ovs, groups, bases, h, y);
    if g < h {
        assert(bases[g] < bases[h]);
    } else if h < g {
        assert(bases[h] < bases[g]);
    }
}

proof fn lemma_ids_at_contains(ovs: Seq<OverlayInfo>, base: u32, i: int)
    requires
        0 <= i < ovs.len(),
        ovs[i].base_address == base,
    ensures
        exists|y: int| 0 <= y < ids_at(ovs, base).len() && ids_at(ovs, base)[y] == ovs[i].id,
    decreases ovs.len(),
{
    let q = ovs.drop_last();
    if i < ovs.len() - 1 {
        lemma_ids_at_contains(q, base, i);
        assert(q[i] == ovs[i]);
        let y = choose|y: int| 0 <= y < ids_at(q, base).len() && ids_at(q, base)[y] == q[i].id;
        assert(ids_at(ovs, base)[y] == ovs[i].id);
    } else {
        let y = ids_at(ovs, base).len() - 1;
        assert(ids_at(ovs, base)[y] == ovs[i].id);
    }
}

fn collect_ending_at(ovs: &[OverlayInfo], base: u32) -> (r: Vec<u16>)
    ensures
        r@ == ids_ending_at(ovs@, base),
{
    let mut r: Vec<u16> = Vec::new();
    let mut i: usize = 0;
    assert(ovs@.subrange(0, 0) =~= Seq::<OverlayInfo>::empty());
    while i < ovs.len()
        invariant
            i <= ovs@.len(),
            r@ == ids_ending_at(ovs@.subrange(0, i as int), base),
        decreases ovs@.len() - i,
    {
        assert(ovs@.subrange(0, i + 1).drop_last() =~= ovs@.subrange(0, i as int));
        let o = ovs[i];
        if o.base_address < base && o.base_address as u64 + o.code_size as u64 == base as u64 {
            r.push(o.id);
        }
        i += 1;
    }
    assert(ovs@.subrange(0, ovs@.len() as int) =~= ovs@);
    r
}

fn collect_at(ovs: &[OverlayInfo], base: u32) -> (r: Vec<u16>)
    ensures
        r@ == ids_at(ovs@, base),
{
    let mut r: Vec<u16> = Vec::new();
    let mut i: usize = 0;
    assert(ovs@.subrange(0, 0) =~= Seq::<OverlayInfo>::empty());
    while i < ovs.len()
        invariant
            i <= ovs@.len(),
            r@ == ids_at(ovs@.subrange(0, i as int), base),
        decreases ovs@.len() - i,
    {
        assert(ovs@.subrange(0, i + 1).drop_last() =~= ovs@.subrange(0, i as int));
        if ovs[i].base_address == base {
            r.push(ovs[i].id);
        }
        i += 1;
    }
    assert(ovs@.subrange(0, ovs@.len() as int) =~= ovs@);
    r
}

/// The lowest base address above `floor` (any, where `floor` is `None`).
fn next_base(ovs: &[OverlayInfo], floor: Option<u32>) -> (r: Option<u32>)
    ensures
        (r is Some) ==> exists|i: int| 0 <= i < ovs@.len() && (#[trigger] ovs@[i]).base_address == r->0,
        (r is Some) && (floor is Some) ==> floor->0 < r->0,
        (r is Some) ==> forall|i: int|
            0 <= i < ovs@.len() && (floor is None || floor->0 < (#[trigger] ovs@[i]).base_address) ==> r->0
                <= ovs@[i].base_address,
        (r is None) ==> match floor {
            Some(f) => forall|i: int| 0 <= i < ovs@.len() ==> (#[trigger] ovs@[i]).base_address <= f,
            None => ovs@.len() == 0,
        },
{
    let mut found = false;
    let mut best: u32 = 0;
    let mut i: usize = 0;
    while i < ovs.len()
        invariant
            i <= ovs@.len(),
            found ==> exists|k: int| 0 <= k < i && (#[trigger] ovs@[k]).base_address == best,
            found && (floor is Some) ==> floor->0 < best,
            found ==> forall|k: int|
                0 <= k < i && ((floor is None) || floor->0 < (#[trigger] ovs@[k]).base_address) ==> best
                    <= ovs@[k].base_address,
            !found ==> match floor {
                Some(f) => forall|k: int| 0 <= k < i ==> (#[trigger] ovs@[k]).base_address <= f,
                None => i == 0,
            },
        decreases ovs@.len() - i,
    {
        let b = ovs[i].base_address;
        let above = match floor {
            Some(f) => f < b,
            None => true,
        };
        if above && (!found || b < best) {
            best = b;
            found = true;
        }
        i += 1;
    }
    if found {
        Some(best)
    } else {
        None
    }
}

/// Groups overlays by load address, lowest first; each group loads after
/// the overlays that end where it starts.
pub fn analyze(overlays: &[OverlayInfo]) -> (r: Vec<OverlayGroup>)
    ensures
        exists|bases: Seq<u32>| #[trigger] groups_correct(overlays@, groups_of(r@), bases),
{
    let mut groups: Vec<OverlayGroup> = Vec::new();
    let ghost mut bases: Seq<u32> = Seq::empty();
    let mut floor: Option<u32> = None;
    loop
        invariant
            groups_shape(overlays@, groups_of(groups@), bases),
            groups@.len() == bases.len(),
            (floor is None) <==> bases.len() == 0,
            (floor is Some) ==> floor->0 == bases.last(),
            forall|i: int|
                0 <= i < overlays@.len() && (floor is Some) && (#[trigger] overlays@[i]).base_address <= floor->0 ==> exists|g: int|
                    0 <= g < bases.len() && (#[trigger] bases[g]) == overlays@[i].base_address,
        ensures
            groups_correct(overlays@, groups_of(groups@), bases),
        decreases (if (floor is Some) {
            0x1_0000_0000 - floor->0
        } else {
            0x1_0000_0001
        }),
    {
        let b = match next_base(overlays, floor) {
            Some(b) => b,
            None => {
                proof {
                    assert forall|i: int| 0 <= i < overlays@.len() implies exists|g: int|
                        0 <= g < groups_of(groups@).len() && (#[trigger] bases[g]) == (#[trigger] overlays@[i]).base_address by {
                        assert((floor is Some) && overlays@[i].base_address <= floor->0);
                    }
                }
                break;
            },
        };
        let members = collect_at(overlays, b);
        proof {
            lemma_ids_at_members(overlays@, b);
        }
        let after = collect_ending_at(overlays, b);
        let ghost old_view = groups_of(groups@);
        let ghost old_bases = bases;
        let ghost members_view = members@;
        groups.push(OverlayGroup { overlays: members, after });
        proof {
            bases = bases.push(b);
            let nv = groups_of(groups@);
            assert(nv =~= old_view.push((members_view, after@)));
            assert forall|g: int, h: int| 0 <= g < h < nv.len() implies (#[trigger] bases[g]) < (#[trigger] bases[h]) by {
                if h < old_bases.len() {
                    assert(bases[g] == old_bases[g] && bases[h] == old_bases[h]);
                } else if g < old_bases.len() - 1 {
                    assert(old_bases[g] < old_bases[old_bases.len() - 1]);
                }
            }
            assert forall|i: int|
                0 <= i < overlays@.len() && (#[trigger] overlays@[i]).base_address <= b implies exists|g: int|
                    0 <= g < bases.len() && (#[trigger] bases[g]) == overlays@[i].base_address by {
                if overlays@[i].base_address == b {
                    assert(bases[bases.len() - 1] == b);
                } else {
                    assert(floor is Some && overlays@[i].base_address <= floor->0);
                    let g = choose|g: int| 0 <= g < old_bases.len() && (#[trigger] old_bases[g]) == overlays@[i].base_address;
                    assert(bases[g] == old_bases[g]);
                }
            }
        }
        floor = Some(b);
    }
    groups
}

} // verus!
