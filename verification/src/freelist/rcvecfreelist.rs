//! The indexed-list allocator: the free extents are kept in two sorted
//! views, by ascending address and by ascending span. Allocation is
//! best-fit from a single extent; freed regions are inserted without
//! merging, so fragmentation accumulates by design.

use vstd::prelude::*;
use vstd::seq_lib::lemma_multiset_commutative;

use crate::freelist::FreeList;
use crate::freelist::FreeListNode;
use crate::object::block_range;
use crate::object::Manifest;
use crate::object::ManifestLocation;
use crate::object::shard_blocks;
use crate::object::span_total;
use crate::RResult;
use crate::StoreError;

verus! {

/// The set of block addresses covered by a sequence of extents.
pub open spec fn nodes_blocks(s: Seq<FreeListNode>) -> Set<int>
    decreases s.len(),
{
    if s.len() == 0 {
        Set::empty()
    } else {
        s[0].block_set().union(nodes_blocks(s.drop_first()))
    }
}

/// Every extent is nonempty, addressable, and not pinned to a device.
pub open spec fn nodes_wf(s: Seq<FreeListNode>) -> bool {
    forall|a: int|
        0 <= a < s.len() ==> 1 <= (#[trigger] s[a]).span && s[a].addressable() && s[a].blkdevid
            is None
}

/// The extents appear in ascending address order and never overlap: each
/// one ends at or before the next one starts.
pub open spec fn sorted_disjoint(s: Seq<FreeListNode>) -> bool {
    forall|a: int, b: int| #![trigger s[a], s[b]] 0 <= a < b < s.len() ==> s[a].end() <= s[b].address
}

/// The extents appear in ascending span order.
pub open spec fn sorted_by_span(s: Seq<FreeListNode>) -> bool {
    forall|a: int, b: int| #![trigger s[a], s[b]] 0 <= a < b < s.len() ==> s[a].span <= s[b].span
}

/// A block is covered by a sequence of extents exactly when some extent
/// covers it.
pub proof fn lemma_nodes_blocks_iff(s: Seq<FreeListNode>)
    ensures
        forall|b: int|
            nodes_blocks(s).contains(b) <==> exists|a: int|
                0 <= a < s.len() && (#[trigger] s[a]).block_set().contains(b),
    decreases s.len(),
{
    if s.len() != 0 {
        lemma_nodes_blocks_iff(s.drop_first());
        assert forall|b: int| nodes_blocks(s).contains(b) implies exists|a: int|
            0 <= a < s.len() && (#[trigger] s[a]).block_set().contains(b) by {
            if s[0].block_set().contains(b) {
                assert(s[0].block_set().contains(b));
            } else {
                assert(nodes_blocks(s.drop_first()).contains(b));
                let a0 = choose|a0: int|
                    0 <= a0 < s.drop_first().len() && (#[trigger] s.drop_first()[a0]).block_set().contains(
                        b,
                    );
                assert(0 <= a0 < s.drop_first().len());
                assert(s.drop_first()[a0] == s[a0 + 1]);
                assert(s[a0 + 1].block_set().contains(b));
            }
        }
        assert forall|b: int, a: int|
            0 <= a < s.len() && #[trigger] s[a].block_set().contains(b) implies nodes_blocks(
            s,
        ).contains(b) by {
            assert(nodes_blocks(s) == s[0].block_set().union(nodes_blocks(s.drop_first())));
            if a > 0 {
                assert(s.drop_first()[a - 1].block_set().contains(b));
                assert(nodes_blocks(s.drop_first()).contains(b));
            } else {
                assert(s[0].block_set().contains(b));
            }
        }
    }
}

/// Appending an extent extends the covered blocks by that extent's blocks.
pub proof fn lemma_nodes_blocks_push(s: Seq<FreeListNode>, x: FreeListNode)
    ensures
        nodes_blocks(s.push(x)) =~= nodes_blocks(s).union(x.block_set()),
    decreases s.len(),
{
    let t = s.push(x);
    assert(t[0] == if s.len() == 0 {
        x
    } else {
        s[0]
    });
    assert(nodes_blocks(t) =~= t[0].block_set().union(nodes_blocks(t.drop_first())));
    if s.len() == 0 {
        assert(t.drop_first() =~= Seq::<FreeListNode>::empty());
        assert(nodes_blocks(s) =~= Set::<int>::empty());
    } else {
        assert(t.drop_first() =~= s.drop_first().push(x));
        lemma_nodes_blocks_push(s.drop_first(), x);
        assert(nodes_blocks(s) =~= s[0].block_set().union(nodes_blocks(s.drop_first())));
    }
}

/// Inserting an element anywhere adds exactly it to the multiset.
pub proof fn lemma_to_multiset_insert(s: Seq<FreeListNode>, i: int, x: FreeListNode)
    requires
        0 <= i <= s.len(),
    ensures
        s.insert(i, x).to_multiset() =~= s.to_multiset().insert(x),
{
    broadcast use vstd::seq_lib::group_to_multiset_ensures;

    let t = s.insert(i, x);
    assert(t =~= s.take(i).push(x) + s.skip(i));
    assert(s =~= s.take(i) + s.skip(i));
    lemma_multiset_commutative(s.take(i).push(x), s.skip(i));
    lemma_multiset_commutative(s.take(i), s.skip(i));
    assert(s.take(i).push(x).to_multiset() =~= s.take(i).to_multiset().insert(x));
}

/// Replacing the element at one position swaps it in the multiset.
pub proof fn lemma_to_multiset_update(s: Seq<FreeListNode>, i: int, x: FreeListNode)
    requires
        0 <= i < s.len(),
    ensures
        s.update(i, x).to_multiset() =~= s.to_multiset().remove(s[i]).insert(x),
{
    broadcast use vstd::seq_lib::group_to_multiset_ensures;

    let t = s.update(i, x);
    assert(t =~= s.remove(i).insert(i, x));
    lemma_to_multiset_insert(s.remove(i), i, x);
}


/// Between any two consecutive extents lies at least one non-free block.
pub open spec fn strict_gaps(s: Seq<FreeListNode>) -> bool {
    forall|a: int| 0 <= a && a + 1 < s.len() ==> (#[trigger] s[a]).end() < s[a + 1].address
}

/// Carving, step one: removing the extent that contains the region keeps
/// the gaps, and leaves every survivor wholly on one side of the region.
proof fn lemma_carve_removed(s: Seq<FreeListNode>, cidx: int, lba: u64, span: u64)
    requires
        sorted_disjoint(s),
        nodes_wf(s),
        0 <= cidx < s.len(),
        s[cidx].address <= lba,
        lba + span <= s[cidx].end(),
        1 <= span,
    ensures
        forall|k: int|
            0 <= k < s.remove(cidx).len() && (#[trigger] s.remove(cidx)[k]).address < lba + span
                ==> s.remove(cidx)[k].end() <= lba,
        strict_gaps(s) ==> strict_gaps(s.remove(cidx)),
        strict_gaps(s) ==> forall|k: int|
            0 <= k < s.remove(cidx).len() && (#[trigger] s.remove(cidx)[k]).address >= lba + span
                ==> s.remove(cidx)[k].address > s[cidx].end(),
{
    s.remove_ensures(cidx);
    let t = s.remove(cidx);
    assert forall|k: int|
        0 <= k < t.len() && (#[trigger] t[k]).address < lba + span implies t[k].end() <= lba by {
        if k < cidx {
            assert(t[k] == s[k]);
            assert(s[k].end() <= s[cidx].address);
        } else {
            assert(t[k] == s[k + 1]);
            assert(s[cidx].end() <= s[k + 1].address);
        }
    }
    if strict_gaps(s) {
        assert forall|a: int| 0 <= a && a + 1 < t.len() implies (#[trigger] t[a]).end() < t[a
            + 1].address by {
            if a + 1 < cidx {
                assert(t[a] == s[a]);
                assert(t[a + 1] == s[a + 1]);
            } else if a + 1 == cidx {
                assert(t[a] == s[a]);
                assert(t[a + 1] == s[cidx + 1]);
                assert(s[a].end() < s[cidx].address);
                assert(s[cidx].address < s[cidx].end());
                assert(s[cidx].end() < s[cidx + 1].address);
            } else {
                assert(t[a] == s[a + 1]);
                assert(t[a + 1] == s[a + 2]);
            }
        }
        assert forall|k: int|
            0 <= k < t.len() && (#[trigger] t[k]).address >= lba + span implies t[k].address > s[
            cidx].end() by {
            if k < cidx {
                assert(t[k] == s[k]);
                assert(s[k].end() <= s[cidx].address);
                assert(s[k].address < s[k].end());
            } else {
                assert(t[k] == s[k + 1]);
                assert(s[cidx].end() < s[cidx + 1].address);
                if k > cidx {
                    assert(s[cidx + 1].end() <= s[k + 1].address);
                    assert(s[cidx + 1].address < s[cidx + 1].end());
                }
            }
        }
    }
}

/// Carving, step two: the front remainder goes back exactly where the
/// removed extent stood, and the gaps and sides survive.
proof fn lemma_carve_front(
    s: Seq<FreeListNode>,
    cidx: int,
    lba: u64,
    span: u64,
    front: FreeListNode,
    fpos: int,
)
    requires
        sorted_disjoint(s),
        nodes_wf(s),
        0 <= cidx < s.len(),
        s[cidx].address <= lba,
        lba + span <= s[cidx].end(),
        1 <= span,
        front.address == s[cidx].address,
        front.span == lba - s[cidx].address,
        front.span >= 1,
        0 <= fpos <= s.remove(cidx).len(),
        forall|k: int| 0 <= k < fpos ==> (#[trigger] s.remove(cidx)[k]).address < front.address,
        forall|k: int|
            fpos <= k < s.remove(cidx).len() ==> (#[trigger] s.remove(cidx)[k]).address
                >= front.address,
    ensures
        fpos == cidx,
        forall|k: int|
            0 <= k < s.remove(cidx).insert(fpos, front).len() && (#[trigger] s.remove(cidx).insert(
                fpos,
                front,
            )[k]).address < lba + span ==> s.remove(cidx).insert(fpos, front)[k].end() <= lba,
        strict_gaps(s) ==> strict_gaps(s.remove(cidx).insert(fpos, front)),
        strict_gaps(s) ==> forall|k: int|
            0 <= k < s.remove(cidx).insert(fpos, front).len() && (#[trigger] s.remove(cidx).insert(
                fpos,
                front,
            )[k]).address >= lba + span ==> s.remove(cidx).insert(fpos, front)[k].address > s[
            cidx].end(),
{
    s.remove_ensures(cidx);
    lemma_carve_removed(s, cidx, lba, span);
    let rem = s.remove(cidx);
    assert(fpos == cidx) by {
        if fpos < cidx {
            assert(rem[fpos].address >= front.address);
            assert(rem[fpos] == s[fpos]);
            assert(s[fpos].end() <= s[cidx].address);
            assert(s[fpos].address < s[fpos].end());
        } else if fpos > cidx {
            assert(rem[cidx].address < front.address);
            assert(rem[cidx] == s[cidx + 1]);
            assert(s[cidx].end() <= s[cidx + 1].address);
            assert(s[cidx].address < s[cidx].end());
        }
    }
    rem.insert_ensures(fpos, front);
    let t = rem.insert(fpos, front);
    assert(front.end() == lba);
    assert forall|k: int|
        0 <= k < t.len() && (#[trigger] t[k]).address < lba + span implies t[k].end() <= lba by {
        if k < fpos {
            assert(t[k] == rem[k]);
        } else if k > fpos {
            assert(t[k] == rem[k - 1]);
        } else {
            assert(t[k] == front);
        }
    }
    if strict_gaps(s) {
        assert forall|a: int| 0 <= a && a + 1 < t.len() implies (#[trigger] t[a]).end() < t[a
            + 1].address by {
            if a + 1 < fpos {
                assert(t[a] == rem[a]);
                assert(t[a + 1] == rem[a + 1]);
                assert(rem[a] == s[a]);
                assert(rem[a + 1] == s[a + 1]);
            } else if a + 1 == fpos {
                assert(t[a] == rem[a]);
                assert(rem[a] == s[a]);
                assert(s[a].end() < s[cidx].address);
            } else if a == fpos {
                assert(t[a + 1] == rem[a]);
                assert(rem[a] == s[cidx + 1]);
                assert(s[cidx].end() < s[cidx + 1].address);
            } else {
                assert(t[a] == rem[a - 1]);
                assert(t[a + 1] == rem[a]);
            }
        }
        assert forall|k: int|
            0 <= k < t.len() && (#[trigger] t[k]).address >= lba + span implies t[k].address > s[
            cidx].end() by {
            if k < fpos {
                assert(t[k] == rem[k]);
            } else if k > fpos {
                assert(t[k] == rem[k - 1]);
            } else {
                assert(t[k] == front);
            }
        }
    }
}

/// Carving, step three: the tail remainder starts past the region and ends
/// strictly before anything beyond the removed extent, so the gaps survive.
proof fn lemma_carve_tail(
    cur: Seq<FreeListNode>,
    tail: FreeListNode,
    tpos: int,
    lba: u64,
    span: u64,
    node_end: int,
)
    requires
        1 <= span,
        tail.address == lba + span,
        tail.end() == node_end,
        0 <= tpos <= cur.len(),
        forall|k: int| 0 <= k < tpos ==> (#[trigger] cur[k]).address < tail.address,
        forall|k: int| tpos <= k < cur.len() ==> (#[trigger] cur[k]).address >= tail.address,
        forall|k: int|
            0 <= k < cur.len() && (#[trigger] cur[k]).address < lba + span ==> cur[k].end() <= lba,
        strict_gaps(cur),
        forall|k: int|
            0 <= k < cur.len() && (#[trigger] cur[k]).address >= lba + span ==> cur[k].address
                > node_end,
    ensures
        strict_gaps(cur.insert(tpos, tail)),
{
    cur.insert_ensures(tpos, tail);
    let t = cur.insert(tpos, tail);
    assert forall|a: int| 0 <= a && a + 1 < t.len() implies (#[trigger] t[a]).end() < t[a
        + 1].address by {
        if a + 1 < tpos {
            assert(t[a] == cur[a]);
            assert(t[a + 1] == cur[a + 1]);
        } else if a + 1 == tpos {
            assert(t[a] == cur[a]);
            assert(cur[a].address < tail.address);
            assert(cur[a].end() <= lba);
        } else if a == tpos {
            assert(t[a + 1] == cur[a]);
            assert(cur[a].address >= tail.address);
            assert(cur[a].address > node_end);
        } else {
            assert(t[a] == cur[a - 1]);
            assert(t[a + 1] == cur[a]);
        }
    }
}

/// The free extent a manifest shard denotes.
pub open spec fn node_of(shard: ManifestLocation) -> FreeListNode {
    FreeListNode { blkdevid: None, span: shard.span, address: shard.lba }
}

/// The two sorted views of the free extents: one record per free extent,
/// present in both views.
#[derive(Debug)]
pub struct RCVecFreeList {
    pub by_size: Vec<FreeListNode>,
    pub by_addr: Vec<FreeListNode>,
}

impl RCVecFreeList {
    /// Both views are well-formed: the address view is sorted and
    /// overlap-free, the size view is sorted by span, and the two views
    /// hold exactly the same extents.
    pub open spec fn views_wf(&self) -> bool {
        &&& nodes_wf(self.by_addr@)
        &&& sorted_disjoint(self.by_addr@)
        &&& nodes_wf(self.by_size@)
        &&& sorted_by_span(self.by_size@)
        &&& self.by_size@.to_multiset() == self.by_addr@.to_multiset()
    }

    /// The set of free block addresses.
    pub open spec fn blocks_free(&self) -> Set<int> {
        nodes_blocks(self.by_addr@)
    }

    /// A fresh freelist whose whole address space `[0, span)` is one free
    /// extent (none, when `span` is zero).
    pub fn new(span: u64) -> (s: Self)
        ensures
            s.views_wf(),
            s.unfragmented(),
            span > 0 ==> s.by_addr@ =~= seq![
                FreeListNode { blkdevid: None, span, address: 0 },
            ] && s.by_size@ == s.by_addr@,
            span == 0 ==> s.by_addr@ =~= Seq::<FreeListNode>::empty() && s.by_size@ == s.by_addr@,
            s.blocks_free() == block_range(0, span),
    {
        let mut by_size: Vec<FreeListNode> = Vec::new();
        let mut by_addr: Vec<FreeListNode> = Vec::new();
        if span > 0 {
            let node = FreeListNode { blkdevid: None, span, address: 0 };
            by_size.push(node);
            by_addr.push(node);
        }
        let s = RCVecFreeList { by_size, by_addr };
        proof {
            broadcast use vstd::seq_lib::group_to_multiset_ensures;

            assert(nodes_blocks(Seq::<FreeListNode>::empty()) =~= Set::<int>::empty());
            if span > 0 {
                let node = FreeListNode { blkdevid: None, span, address: 0 };
                assert(s.by_addr@.drop_first() =~= Seq::<FreeListNode>::empty());
                assert(s.by_addr@[0] == node);
                assert(nodes_blocks(s.by_addr@) =~= node.block_set().union(
                    nodes_blocks(s.by_addr@.drop_first()),
                ));
                assert(s.blocks_free() =~= block_range(0, span));
            } else {
                assert(s.by_addr@ =~= Seq::<FreeListNode>::empty());
                assert(s.blocks_free() =~= block_range(0, span));
            }
        }
        s
    }

    /// The first position whose extent's span is at least `span`; the view
    /// length when no extent is that large.
    fn lower_bound_span(v: &Vec<FreeListNode>, span: u64) -> (idx: usize)
        requires
            sorted_by_span(v@),
        ensures
            0 <= idx <= v@.len(),
            forall|k: int| 0 <= k < idx ==> (#[trigger] v@[k]).span < span,
            forall|k: int| idx <= k < v@.len() ==> (#[trigger] v@[k]).span >= span,
    {
        let mut lo: usize = 0;
        let mut hi: usize = v.len();
        while lo < hi
            invariant
                0 <= lo <= hi <= v@.len(),
                sorted_by_span(v@),
                forall|k: int| 0 <= k < lo ==> (#[trigger] v@[k]).span < span,
                forall|k: int| hi <= k < v@.len() ==> (#[trigger] v@[k]).span >= span,
            decreases hi - lo,
        {
            let mid = lo + (hi - lo) / 2;
            if v[mid].span < span {
                lo = mid + 1;
            } else {
                hi = mid;
            }
        }
        lo
    }

    /// The first position whose extent's address is at least `addr`; the
    /// view length when every address is smaller.
    fn lower_bound_addr(v: &Vec<FreeListNode>, addr: u64) -> (idx: usize)
        requires
            sorted_disjoint(v@),
            nodes_wf(v@),
        ensures
            0 <= idx <= v@.len(),
            forall|k: int| 0 <= k < idx ==> (#[trigger] v@[k]).address < addr,
            forall|k: int| idx <= k < v@.len() ==> (#[trigger] v@[k]).address >= addr,
    {
        let mut lo: usize = 0;
        let mut hi: usize = v.len();
        while lo < hi
            invariant
                0 <= lo <= hi <= v@.len(),
                sorted_disjoint(v@),
                nodes_wf(v@),
                forall|k: int| 0 <= k < lo ==> (#[trigger] v@[k]).address < addr,
                forall|k: int| hi <= k < v@.len() ==> (#[trigger] v@[k]).address >= addr,
            decreases hi - lo,
        {
            let mid = lo + (hi - lo) / 2;
            if v[mid].address < addr {
                lo = mid + 1;
                proof {
                    assert forall|k: int| 0 <= k < lo implies (#[trigger] v@[k]).address < addr by {
                        if k < mid {
                            assert(v@[k].end() <= v@[mid as int].address);
                        }
                    }
                }
            } else {
                hi = mid;
                proof {
                    assert forall|k: int| hi <= k < v@.len() implies (#[trigger] v@[k]).address
                        >= addr by {
                        if k > mid {
                            assert(v@[mid as int].end() <= v@[k].address);
                        }
                    }
                }
            }
        }
        lo
    }

    /// Inserts a free extent that overlaps nothing into both views, each at
    /// its sorted position; returns the position in the address view.
    fn insert_node(&mut self, node: FreeListNode) -> (pos: usize)
        requires
            old(self).views_wf(),
            node.span >= 1,
            node.addressable(),
            node.blkdevid is None,
            forall|a: int|
                0 <= a < old(self).by_addr@.len() ==> !node.overlaps_spec(
                    #[trigger] old(self).by_addr@[a],
                ),
        ensures
            final(self).views_wf(),
            final(self).blocks_free() == old(self).blocks_free().union(node.block_set()),
            0 <= pos <= old(self).by_addr@.len(),
            final(self).by_addr@ == old(self).by_addr@.insert(pos as int, node),
            forall|k: int|
                0 <= k < pos ==> (#[trigger] old(self).by_addr@[k]).address < node.address,
            forall|k: int|
                pos <= k < old(self).by_addr@.len() ==> (#[trigger] old(self).by_addr@[k]).address
                    >= node.address,
    {
        let apos = Self::lower_bound_addr(&self.by_addr, node.address);
        self.by_addr.insert(apos, node);
        let spos = Self::lower_bound_span(&self.by_size, node.span);
        self.by_size.insert(spos, node);
        proof {
            let old_addr = old(self).by_addr@;
            let new_addr = self.by_addr@;
            // the address view stays sorted and disjoint
            assert forall|a: int, b: int|
                #![trigger new_addr[a], new_addr[b]]
                0 <= a < b < new_addr.len() implies new_addr[a].end() <= new_addr[b].address by {
                if a == apos {
                    assert(new_addr[b] == old_addr[b - 1]);
                    assert(old_addr[b - 1].address >= node.address);
                    assert(!node.overlaps_spec(old_addr[b - 1]));
                } else if b == apos {
                    assert(new_addr[a] == old_addr[a]);
                    assert(old_addr[a].address < node.address);
                    assert(!node.overlaps_spec(old_addr[a]));
                } else {
                    let oa = if a < apos {
                        a
                    } else {
                        a - 1
                    };
                    let ob = if b < apos {
                        b
                    } else {
                        b - 1
                    };
                    assert(new_addr[a] == old_addr[oa]);
                    assert(new_addr[b] == old_addr[ob]);
                }
            }
            // both views gain exactly the node
            lemma_to_multiset_insert(old_addr, apos as int, node);
            lemma_to_multiset_insert(old(self).by_size@, spos as int, node);
            // the free set grows by the node's blocks
            lemma_nodes_blocks_iff(old_addr);
            lemma_nodes_blocks_iff(new_addr);
            assert forall|b: int| nodes_blocks(new_addr).contains(b) implies old(
                self,
            ).blocks_free().union(node.block_set()).contains(b) by {
                let a = choose|a: int|
                    0 <= a < new_addr.len() && (#[trigger] new_addr[a]).block_set().contains(b);
                if a < apos {
                    assert(old_addr[a].block_set().contains(b));
                } else if a > apos {
                    assert(old_addr[a - 1].block_set().contains(b));
                }
            }
            assert forall|b: int|
                old(self).blocks_free().union(node.block_set()).contains(b) implies nodes_blocks(
                new_addr,
            ).contains(b) by {
                if node.block_set().contains(b) {
                    assert(new_addr[apos as int].block_set().contains(b));
                } else {
                    let a = choose|a: int|
                        0 <= a < old_addr.len() && (#[trigger] old_addr[a]).block_set().contains(b);
                    if a < apos {
                        assert(new_addr[a].block_set().contains(b));
                    } else {
                        assert(new_addr[a + 1].block_set().contains(b));
                    }
                }
            }
            assert(self.blocks_free() =~= old(self).blocks_free().union(node.block_set()));
        }
        apos
    }
}

impl RCVecFreeList {
    /// Removes one occurrence of an extent from the size view.
    fn remove_size_entry(&mut self, node: FreeListNode)
        requires
            old(self).by_size@.to_multiset().count(node) > 0,
            sorted_by_span(old(self).by_size@),
            nodes_wf(old(self).by_size@),
            node.blkdevid is None,
        ensures
            final(self).by_addr@ == old(self).by_addr@,
            sorted_by_span(final(self).by_size@),
            nodes_wf(final(self).by_size@),
            final(self).by_size@.to_multiset() == old(self).by_size@.to_multiset().remove(node),
    {
        proof {
            broadcast use vstd::seq_lib::group_to_multiset_ensures;

            assert(old(self).by_size@.contains(node));
        }
        let n = self.by_size.len();
        let mut k: usize = 0;
        while k < n
            invariant
                *self == *old(self),
                n == self.by_size@.len(),
                k <= n,
                nodes_wf(self.by_size@),
                sorted_by_span(self.by_size@),
                self.by_size@.to_multiset().count(node) > 0,
                node.blkdevid is None,
                forall|j: int| 0 <= j < k ==> #[trigger] self.by_size@[j] != node,
                exists|j: int| 0 <= j < n && #[trigger] self.by_size@[j] == node,
            decreases n - k,
        {
            let cand = self.by_size[k];
            if cand.address == node.address && cand.span == node.span {
                proof {
                    broadcast use vstd::seq_lib::group_to_multiset_ensures;

                    assert(cand.blkdevid is None && node.blkdevid is None);
                    assert(self.by_size@[k as int] == node);
                    self.by_size@.remove_ensures(k as int);
                    assert forall|a: int, b: int|
                        #![trigger self.by_size@.remove(k as int)[a], self.by_size@.remove(k as int)[b]]
                        0 <= a < b < self.by_size@.remove(k as int).len() implies self.by_size@.remove(
                        k as int,
                    )[a].span <= self.by_size@.remove(k as int)[b].span by {
                        let s0 = self.by_size@;
                        let oa = if a < k {
                            a
                        } else {
                            a + 1
                        };
                        let ob = if b < k {
                            b
                        } else {
                            b + 1
                        };
                        assert(s0.remove(k as int)[a] == s0[oa]);
                        assert(s0.remove(k as int)[b] == s0[ob]);
                    }
                }
                self.by_size.remove(k);
                return;
            }
            k = k + 1;
        }
        proof {
            let j = choose|j: int| 0 <= j < n && #[trigger] self.by_size@[j] == node;
            assert(false);
        }
    }

    /// Locates the extent in the address view that fully contains
    /// `[lba, lba + span)`, if one does.
    fn find_node_containing(&self, lba: u64, span: u64) -> (r: Option<usize>)
        requires
            self.views_wf(),
            lba + span <= u64::MAX,
        ensures
            r matches Some(i) ==> {
                &&& 0 <= i < self.by_addr@.len()
                &&& self.by_addr@[i as int].address <= lba
                &&& lba + span <= self.by_addr@[i as int].end()
            },
            r is None ==> forall|a: int|
                0 <= a < self.by_addr@.len() ==> !((#[trigger] self.by_addr@[a]).address <= lba
                    && lba + span <= self.by_addr@[a].end()),
    {
        let pos = Self::lower_bound_addr(&self.by_addr, lba);
        let len = self.by_addr.len();
        let cand: usize = if pos < len && self.by_addr[pos].address == lba {
            pos
        } else if pos > 0 {
            pos - 1
        } else {
            proof {
                assert forall|a: int|
                    0 <= a < self.by_addr@.len() implies !((#[trigger] self.by_addr@[a]).address
                    <= lba && lba + span <= self.by_addr@[a].end()) by {
                    assert(self.by_addr@[a].address >= lba);
                    if self.by_addr@[a].address <= lba {
                        assert(self.by_addr@[a].address == lba);
                    }
                }
            }
            return None;
        };
        let node = self.by_addr[cand];
        if lba + span <= node.address + node.span && node.address <= lba {
            Some(cand)
        } else {
            proof {
                assert forall|a: int|
                    0 <= a < self.by_addr@.len() implies !((#[trigger] self.by_addr@[a]).address
                    <= lba && lba + span <= self.by_addr@[a].end()) by {
                    if a < cand {
                        assert(self.by_addr@[a].end() <= self.by_addr@[cand as int].address);
                        if cand == pos {
                            assert(self.by_addr@[a].address < lba);
                        }
                    } else if a > cand {
                        if a >= pos && cand == pos {
                            assert(self.by_addr@[cand as int].end() <= self.by_addr@[a].address);
                        } else {
                            assert(self.by_addr@[a].address >= lba);
                            if self.by_addr@[a].address == lba {
                                assert(a >= pos);
                                if a > pos {
                                    assert(self.by_addr@[pos as int].end()
                                        <= self.by_addr@[a].address);
                                }
                            }
                        }
                    }
                }
            }
            None
        }
    }
}

impl FreeList for RCVecFreeList {
    open spec fn inv(&self) -> bool {
        self.views_wf()
    }

    open spec fn free_set(&self) -> Set<int> {
        self.blocks_free()
    }

    /// A request names a byte count; it asks for the spanning block count,
    /// rounded up.
    open spec fn request_span(request: u64) -> int {
        (request / 4096) as int + (if request % 4096 != 0 {
            1int
        } else {
            0int
        })
    }

    /// Best-fit from one extent: some single free extent must be large
    /// enough; the allocation never splits across extents.
    open spec fn can_allocate(&self, request: u64) -> bool {
        exists|k: int|
            0 <= k < self.by_size@.len() && (#[trigger] self.by_size@[k]).span
                >= Self::request_span(request)
    }

    /// Every nonempty shard must be disjoint from the space already free.
    open spec fn can_release(&self, shards: Seq<ManifestLocation>) -> bool {
        forall|i: int|
            0 <= i < shards.len() ==> ((#[trigger] shards[i]).span == 0
                || shards[i].block_set().disjoint(self.blocks_free()))
    }

    /// The region must lie wholly inside one free extent.
    open spec fn can_take(&self, span: u64, lba: u64) -> bool {
        exists|a: int|
            0 <= a < self.by_addr@.len() && (#[trigger] self.by_addr@[a]).address <= lba && lba
                + span <= self.by_addr@[a].end()
    }

    /// The region must be disjoint from the space already free; adjacent
    /// free extents are never merged.
    open spec fn can_free(&self, span: u64, lba: u64) -> bool {
        span == 0 || block_range(lba, span).disjoint(self.blocks_free())
    }

    /// No two free extents touch: every maximal run of free blocks is one
    /// extent.
    open spec fn unfragmented(&self) -> bool {
        strict_gaps(self.by_addr@)
    }

    proof fn take_ready(&self, span: u64, lba: u64) {
        let s = self.by_addr@;
        lemma_nodes_blocks_iff(s);
        assert(block_range(lba, span).contains(lba as int));
        assert(self.blocks_free().contains(lba as int));
        let e = choose|e: int| 0 <= e < s.len() && (#[trigger] s[e]).block_set().contains(lba as int);
        if lba + span > s[e].end() {
            // the block just past the extent would be free too, so some
            // extent holds it; either way the extents would touch
            let boundary = s[e].end();
            assert(block_range(lba, span).contains(boundary));
            assert(self.blocks_free().contains(boundary));
            let f = choose|f: int|
                0 <= f < s.len() && (#[trigger] s[f]).block_set().contains(boundary);
            assert(f != e);
            if f < e {
                assert(s[f].end() <= s[e].address);
                assert(false);
            } else {
                assert(s[e].end() <= s[f].address);
                assert(s[f].address == boundary);
                if f == e + 1 {
                    assert(s[e].end() < s[e + 1].address);
                    assert(false);
                } else {
                    assert(s[e + 1].end() <= s[f].address);
                    assert(s[e].end() <= s[e + 1].address);
                    assert(s[e + 1].address < s[e + 1].end());
                    assert(false);
                }
            }
        }
        assert(s[e].address <= lba && lba + span <= s[e].end());
    }

    proof fn free_set_finite(&self) {
        lemma_nodes_blocks_finite(self.by_addr@);
    }

    proof fn request_span_adequate(request: u64) {
        vstd::arithmetic::div_mod::lemma_fundamental_div_mod(request as int, 4096);
    }

    /// Converts the byte request to blocks, picks the smallest free extent
    /// at least that large, and carves the allocation from its front.
    fn allocate(&mut self, size_bytes: u64) -> (r: RResult<Manifest>)
        ensures
            r matches Ok(m) ==> {
                &&& m.shards@.len() == 1
                &&& exists|i: int, j: int|
                    #![trigger old(self).by_size@[i], old(self).by_addr@[j]]
                    {
                        let span = Self::request_span(size_bytes);
                        let chosen = old(self).by_size@[i];
                        &&& 0 <= i < old(self).by_size@.len()
                        &&& (forall|k: int|
                            0 <= k < i ==> (#[trigger] old(self).by_size@[k]).span < span)
                        &&& chosen.span >= span
                        &&& 0 <= j < old(self).by_addr@.len()
                        &&& old(self).by_addr@[j] == chosen
                        &&& m.shards@[0] == (ManifestLocation {
                            blkdevid: None,
                            lba: chosen.address,
                            span: span as u64,
                        })
                        &&& final(self).by_addr@ == (if chosen.span == span {
                            old(self).by_addr@.remove(j)
                        } else {
                            old(self).by_addr@.update(
                                j,
                                FreeListNode {
                                    blkdevid: None,
                                    span: (chosen.span - span) as u64,
                                    address: (chosen.address + span) as u64,
                                },
                            )
                        })
                    }
            },
            r is Err ==> final(self).by_addr@ == old(self).by_addr@ && final(self).by_size@ == old(
                self,
            ).by_size@,
    {
        let mut span: u64 = size_bytes / 4096;
        if size_bytes % 4096 != 0 {
            span = span + 1;
        }
        let idx = Self::lower_bound_span(&self.by_size, span);
        if idx == self.by_size.len() {
            return Err(StoreError::NoSpace);
        }
        let chosen = self.by_size[idx];
        let ghost old_size = self.by_size@;
        let ghost old_addr = self.by_addr@;
        self.by_size.remove(idx);
        proof {
            broadcast use vstd::seq_lib::group_to_multiset_ensures;

            assert(old_size[idx as int] == chosen);
            assert(old_size.contains(chosen));
            assert(old_size.to_multiset().count(chosen) > 0);
            assert(old_addr.contains(chosen));
            old_size.remove_ensures(idx as int);
        }
        let aidx = Self::lower_bound_addr(&self.by_addr, chosen.address);
        proof {
            let j = choose|j: int| 0 <= j < old_addr.len() && old_addr[j] == chosen;
            assert(aidx <= j) by {
                if j < aidx {
                    assert(old_addr[j].address < chosen.address);
                }
            }
            if j > aidx {
                assert(old_addr[aidx as int].end() <= old_addr[j].address);
                assert(old_addr[aidx as int].address >= chosen.address);
                assert(old_addr[aidx as int].span >= 1);
                assert(false);
            }
            assert(self.by_addr@[aidx as int] == chosen);
        }
        let shard = ManifestLocation { blkdevid: None, lba: chosen.address, span };
        let mut shards: Vec<ManifestLocation> = Vec::new();
        shards.push(shard);
        let m = Manifest { shards };
        proof {
            assert(m.shards@.drop_first() =~= Seq::<ManifestLocation>::empty());
            assert(span_total(Seq::<ManifestLocation>::empty()) == 0);
            assert(shard_blocks(Seq::<ManifestLocation>::empty()) =~= Set::<int>::empty());
            assert(m.shards@[0] == shard);
            assert(m.total_span() == span);
            assert(m.blocks() =~= block_range(chosen.address, span));
            lemma_nodes_blocks_iff(old_addr);
            assert forall|b: int| m.blocks().contains(b) implies nodes_blocks(old_addr).contains(
                b,
            ) by {
                assert(old_addr[aidx as int].block_set().contains(b));
            }
        }
        if chosen.span == span {
            self.by_addr.remove(aidx);
            proof {
                broadcast use vstd::seq_lib::group_to_multiset_ensures;

                old_addr.remove_ensures(aidx as int);
                let new_addr = self.by_addr@;
                assert forall|a: int, b: int|
                    #![trigger new_addr[a], new_addr[b]]
                    0 <= a < b < new_addr.len() implies new_addr[a].end()
                    <= new_addr[b].address by {
                    let oa = if a < aidx {
                        a
                    } else {
                        a + 1
                    };
                    let ob = if b < aidx {
                        b
                    } else {
                        b + 1
                    };
                    assert(new_addr[a] == old_addr[oa]);
                    assert(new_addr[b] == old_addr[ob]);
                }
                lemma_nodes_blocks_iff(new_addr);
                assert forall|b: int|
                    nodes_blocks(old_addr).difference(m.blocks()).contains(b) implies nodes_blocks(
                    new_addr,
                ).contains(b) by {
                    let a = choose|a: int|
                        0 <= a < old_addr.len() && (#[trigger] old_addr[a]).block_set().contains(b);
                    if a < aidx {
                        assert(new_addr[a].block_set().contains(b));
                    } else if a > aidx {
                        assert(new_addr[a - 1].block_set().contains(b));
                    }
                }
                assert forall|b: int| nodes_blocks(new_addr).contains(b) implies nodes_blocks(
                    old_addr,
                ).difference(m.blocks()).contains(b) by {
                    let a = choose|a: int|
                        0 <= a < new_addr.len() && (#[trigger] new_addr[a]).block_set().contains(b);
                    let oa = if a < aidx {
                        a
                    } else {
                        a + 1
                    };
                    assert(old_addr[oa].block_set().contains(b));
                    if oa < aidx {
                        assert(old_addr[oa].end() <= old_addr[aidx as int].address);
                    } else {
                        assert(old_addr[aidx as int].end() <= old_addr[oa].address);
                    }
                }
                assert(self.blocks_free() =~= nodes_blocks(old_addr).difference(m.blocks()));
            }
        } else {
            let shrunk = FreeListNode {
                blkdevid: None,
                span: chosen.span - span,
                address: chosen.address + span,
            };
            self.by_addr[aidx] = shrunk;
            proof {
                broadcast use vstd::seq_lib::group_to_multiset_ensures;

                lemma_to_multiset_update(old_addr, aidx as int, shrunk);
                let new_addr = self.by_addr@;
                assert forall|a: int, b: int|
                    #![trigger new_addr[a], new_addr[b]]
                    0 <= a < b < new_addr.len() implies new_addr[a].end()
                    <= new_addr[b].address by {
                    if a != aidx && b != aidx {
                        assert(new_addr[a] == old_addr[a]);
                        assert(new_addr[b] == old_addr[b]);
                    } else if a == aidx {
                        assert(new_addr[b] == old_addr[b]);
                        assert(old_addr[a].end() <= old_addr[b].address);
                    } else {
                        assert(new_addr[a] == old_addr[a]);
                        assert(old_addr[a].end() <= old_addr[b].address);
                    }
                }
                lemma_nodes_blocks_iff(new_addr);
                assert forall|b: int|
                    nodes_blocks(old_addr).difference(m.blocks()).contains(b) implies nodes_blocks(
                    new_addr,
                ).contains(b) by {
                    let a = choose|a: int|
                        0 <= a < old_addr.len() && (#[trigger] old_addr[a]).block_set().contains(b);
                    if a == aidx {
                        assert(new_addr[a].block_set().contains(b));
                    } else {
                        assert(new_addr[a].block_set().contains(b));
                    }
                }
                assert forall|b: int| nodes_blocks(new_addr).contains(b) implies nodes_blocks(
                    old_addr,
                ).difference(m.blocks()).contains(b) by {
                    let a = choose|a: int|
                        0 <= a < new_addr.len() && (#[trigger] new_addr[a]).block_set().contains(b);
                    assert(old_addr[a].block_set().contains(b));
                    if a != aidx {
                        if a < aidx {
                            assert(old_addr[a].end() <= old_addr[aidx as int].address);
                        } else {
                            assert(old_addr[aidx as int].end() <= old_addr[a].address);
                        }
                    }
                }
                assert(self.blocks_free() =~= nodes_blocks(old_addr).difference(m.blocks()));
            }
            let sidx = Self::lower_bound_span(&self.by_size, shrunk.span);
            proof {
                let sized = self.by_size@;
                assert forall|a: int, b: int|
                    #![trigger sized.insert(sidx as int, shrunk)[a], sized.insert(sidx as int, shrunk)[b]]
                    0 <= a < b < sized.insert(sidx as int, shrunk).len() implies sized.insert(
                    sidx as int,
                    shrunk,
                )[a].span <= sized.insert(sidx as int, shrunk)[b].span by {
                    let t = sized.insert(sidx as int, shrunk);
                    if a == sidx {
                        assert(t[b] == sized[b - 1]);
                    } else if b == sidx {
                        assert(t[a] == sized[a]);
                    } else {
                        let oa = if a < sidx {
                            a
                        } else {
                            a - 1
                        };
                        let ob = if b < sidx {
                            b
                        } else {
                            b - 1
                        };
                        assert(t[a] == sized[oa]);
                        assert(t[b] == sized[ob]);
                    }
                }
                lemma_to_multiset_insert(self.by_size@, sidx as int, shrunk);
            }
            self.by_size.insert(sidx, shrunk);
        }
        Ok(m)
    }

    /// Frees every shard in turn; on an overlapping shard the earlier
    /// shards stay freed.
    fn release(&mut self, manifest: &Manifest) -> (r: RResult<()>)
        ensures
            r matches Err(e) ==> e == StoreError::OverlapOrDoubleFree,
            // a single released shard lands as one new extent at its sorted
            // position, never merged with its neighbours
            r is Ok && manifest.shards@.len() == 1 && manifest.shards@[0].span > 0
                ==> exists|pos: int|
                #![trigger old(self).by_addr@.insert(pos, node_of(manifest.shards@[0]))]
                {
                    &&& 0 <= pos <= old(self).by_addr@.len()
                    &&& final(self).by_addr@ == old(self).by_addr@.insert(
                        pos,
                        node_of(manifest.shards@[0]),
                    )
                    &&& forall|k: int|
                        0 <= k < pos ==> (#[trigger] old(self).by_addr@[k]).address < node_of(
                            manifest.shards@[0],
                        ).address
                    &&& forall|k: int|
                        pos <= k < old(self).by_addr@.len() ==> (#[trigger] old(
                            self,
                        ).by_addr@[k]).address >= node_of(manifest.shards@[0]).address
                },
            r is Ok && manifest.shards@.len() == 1 && manifest.shards@[0].span == 0 ==> final(self).by_addr@ == old(self).by_addr@,
    {
        let n = manifest.shards.len();
        let mut s: usize = 0;
        proof {
            assert(crate::object::shard_blocks(manifest.shards@.take(0)) =~= Set::<int>::empty());
            assert(self.blocks_free() =~= old(self).blocks_free().union(
                crate::object::shard_blocks(manifest.shards@.take(0)),
            ));
            crate::object::lemma_shard_blocks_iff(manifest.shards@);
        }
        while s < n
            invariant
                self.views_wf(),
                s <= n,
                n == manifest.shards@.len(),
                manifest.wf(),
                self.blocks_free() =~= old(self).blocks_free().union(
                    crate::object::shard_blocks(manifest.shards@.take(s as int)),
                ),
                forall|a: int|
                    0 <= a < s ==> ((#[trigger] manifest.shards@[a]).span == 0
                        || manifest.shards@[a].block_set().disjoint(old(self).blocks_free())),
                s == 0 ==> self.by_addr@ == old(self).by_addr@ && self.by_size@ == old(
                    self,
                ).by_size@,
                n == 1 && s == 1 && manifest.shards@[0].span > 0 ==> exists|pos: int|
                    #![trigger old(self).by_addr@.insert(pos, node_of(manifest.shards@[0]))]
                    {
                        &&& 0 <= pos <= old(self).by_addr@.len()
                        &&& self.by_addr@ == old(self).by_addr@.insert(
                            pos,
                            node_of(manifest.shards@[0]),
                        )
                        &&& forall|k: int|
                            0 <= k < pos ==> (#[trigger] old(self).by_addr@[k]).address < node_of(
                                manifest.shards@[0],
                            ).address
                        &&& forall|k: int|
                            pos <= k < old(self).by_addr@.len() ==> (#[trigger] old(
                                self,
                            ).by_addr@[k]).address >= node_of(manifest.shards@[0]).address
                    },
                n == 1 && s == 1 && manifest.shards@[0].span == 0 ==> self.by_addr@ == old(
                    self,
                ).by_addr@,
            decreases n - s,
        {
            let loc = manifest.shards[s];
            proof {
                assert(manifest.shards@[s as int].addressable());
            }
            let res = FreeList::free(self, loc.span, loc.lba);
            match res {
                Ok(_) => {
                    proof {
                        assert(manifest.shards@.take(s + 1) =~= manifest.shards@.take(
                            s as int,
                        ).push(manifest.shards@[s as int]));
                        crate::object::lemma_shard_blocks_push(
                            manifest.shards@.take(s as int),
                            manifest.shards@[s as int],
                        );
                        if loc.span != 0 {
                            assert(block_range(loc.lba, loc.span).disjoint(
                                old(self).blocks_free().union(
                                    crate::object::shard_blocks(manifest.shards@.take(s as int)),
                                ),
                            ));
                            assert(manifest.shards@[s as int].block_set().disjoint(
                                old(self).blocks_free(),
                            ));
                        }
                    }
                },
                Err(e) => {
                    proof {
                        crate::object::lemma_shard_blocks_take_subset(manifest.shards@, s as int);
                        assert(old(self).blocks_free().subset_of(self.blocks_free()));
                        assert(self.blocks_free().subset_of(
                            old(self).blocks_free().union(manifest.blocks()),
                        ));
                        // the offending shard also overlaps the original free space
                        assert(loc.span != 0);
                        let bad = choose|b: int|
                            block_range(loc.lba, loc.span).contains(b) && #[trigger] self.blocks_free().contains(
                                b,
                            );
                        assert(old(self).blocks_free().contains(bad) || crate::object::shard_blocks(
                            manifest.shards@.take(s as int),
                        ).contains(bad)) by {
                            assert(self.blocks_free().contains(bad));
                        }
                        if !old(self).blocks_free().contains(bad) {
                            crate::object::lemma_shard_blocks_iff(manifest.shards@.take(s as int));
                            let a = choose|a: int|
                                0 <= a < manifest.shards@.take(s as int).len() && (
                                #[trigger] manifest.shards@.take(s as int)[a]).block_set().contains(
                                    bad,
                                );
                            assert(manifest.shards@[a].block_set().disjoint(
                                manifest.shards@[s as int].block_set(),
                            ));
                            assert(false);
                        }
                        assert(!(manifest.shards@[s as int].span == 0
                            || manifest.shards@[s as int].block_set().disjoint(
                            old(self).blocks_free(),
                        )));
                    }
                    return Err(e);
                },
            }
            s = s + 1;
        }
        proof {
            assert(manifest.shards@.take(n as int) =~= manifest.shards@);
        }
        Ok(())
    }

    /// Locates the single free extent containing the region; carves the
    /// region out of it, leaving the parts before and after it free.
    #[verifier::rlimit(30)]
    fn take(&mut self, span: u64, lba: u64) -> (r: RResult<()>)
        ensures
            r matches Err(e) ==> e == StoreError::RegionNotFree,
    {
        let found = self.find_node_containing(lba, span);
        let cidx = match found {
            Some(c) => c,
            None => {
                return Err(StoreError::RegionNotFree);
            },
        };
        if span == 0 {
            proof {
                assert(self.blocks_free() =~= old(self).blocks_free().difference(
                    block_range(lba, 0),
                ));
            }
            return Ok(());
        }
        let node = self.by_addr[cidx];
        let ghost old_addr = self.by_addr@;
        self.by_addr.remove(cidx);
        proof {
            broadcast use vstd::seq_lib::group_to_multiset_ensures;

            old_addr.remove_ensures(cidx as int);
            let new_addr = self.by_addr@;
            assert forall|a: int, b: int|
                #![trigger new_addr[a], new_addr[b]]
                0 <= a < b < new_addr.len() implies new_addr[a].end() <= new_addr[b].address by {
                let oa = if a < cidx {
                    a
                } else {
                    a + 1
                };
                let ob = if b < cidx {
                    b
                } else {
                    b + 1
                };
                assert(new_addr[a] == old_addr[oa]);
                assert(new_addr[b] == old_addr[ob]);
            }
            lemma_carve_removed(old_addr, cidx as int, lba, span);
        }
        self.remove_size_entry(node);
        proof {
            lemma_nodes_blocks_iff(old_addr);
            lemma_nodes_blocks_iff(self.by_addr@);
            assert forall|b: int|
                nodes_blocks(old_addr).difference(node.block_set()).contains(
                    b,
                ) implies nodes_blocks(self.by_addr@).contains(b) by {
                let a = choose|a: int|
                    0 <= a < old_addr.len() && (#[trigger] old_addr[a]).block_set().contains(b);
                if a < cidx {
                    assert(self.by_addr@[a].block_set().contains(b));
                } else if a > cidx {
                    assert(self.by_addr@[a - 1].block_set().contains(b));
                }
            }
            assert forall|b: int| nodes_blocks(self.by_addr@).contains(b) implies nodes_blocks(
                old_addr,
            ).difference(node.block_set()).contains(b) by {
                let a = choose|a: int|
                    0 <= a < self.by_addr@.len() && (#[trigger] self.by_addr@[a]).block_set().contains(
                        b,
                    );
                let oa = if a < cidx {
                    a
                } else {
                    a + 1
                };
                assert(old_addr[oa].block_set().contains(b));
                if oa < cidx {
                    assert(old_addr[oa].end() <= old_addr[cidx as int].address);
                } else {
                    assert(old_addr[cidx as int].end() <= old_addr[oa].address);
                }
            }
            assert(self.blocks_free() =~= nodes_blocks(old_addr).difference(node.block_set()));
        }
        let ghost removed_addr = self.by_addr@;
        let front_span = lba - node.address;
        if front_span > 0 {
            let front = FreeListNode { blkdevid: None, span: front_span, address: node.address };
            proof {
                lemma_nodes_blocks_iff(self.by_addr@);
                assert forall|a: int|
                    0 <= a < self.by_addr@.len() implies !front.overlaps_spec(
                    #[trigger] self.by_addr@[a],
                ) by {
                    if front.overlaps_spec(self.by_addr@[a]) {
                        crate::freelist::lemma_overlap_iff_blocks_intersect(
                            front,
                            self.by_addr@[a],
                        );
                        let b = choose|b: int|
                            front.block_set().contains(b) && #[trigger] self.by_addr@[a].block_set().contains(
                                b,
                            );
                        assert(node.block_set().contains(b));
                        assert(nodes_blocks(self.by_addr@).contains(b));
                        assert(false);
                    }
                }
            }
            let fpos = self.insert_node(front);
            proof {
                lemma_carve_front(old_addr, cidx as int, lba, span, front, fpos as int);
                assert(self.by_addr@ == old_addr.remove(cidx as int).insert(fpos as int, front));
            }
        }
        let tail_start = lba + span;
        let node_end = node.address + node.span;
        if tail_start < node_end {
            let tail = FreeListNode {
                blkdevid: None,
                span: node_end - tail_start,
                address: tail_start,
            };
            proof {
                lemma_nodes_blocks_iff(self.by_addr@);
                assert forall|a: int|
                    0 <= a < self.by_addr@.len() implies !tail.overlaps_spec(
                    #[trigger] self.by_addr@[a],
                ) by {
                    if tail.overlaps_spec(self.by_addr@[a]) {
                        crate::freelist::lemma_overlap_iff_blocks_intersect(tail, self.by_addr@[a]);
                        let b = choose|b: int|
                            tail.block_set().contains(b) && #[trigger] self.by_addr@[a].block_set().contains(
                                b,
                            );
                        assert(node.block_set().contains(b));
                        assert(!block_range(lba, span).contains(b));
                        if front_span > 0 {
                            assert(!block_range(node.address, front_span).contains(b));
                        }
                        assert(false);
                    }
                }
            }
            let ghost pre_tail = self.by_addr@;
            let tpos = self.insert_node(tail);
            proof {
                if old(self).unfragmented() {
                    lemma_carve_tail(pre_tail, tail, tpos as int, lba, span, node.end());
                }
                assert(self.by_addr@ == pre_tail.insert(tpos as int, tail));
            }
        }
        proof {
            assert(self.blocks_free() =~= old(self).blocks_free().difference(
                block_range(lba, span),
            ));
        }
        Ok(())
    }

    /// Inserts the region as a new free extent after checking that it
    /// overlaps no existing one; adjacent extents stay separate.
    fn free(&mut self, span: u64, lba: u64) -> (r: RResult<()>)
        ensures
            r matches Err(e) ==> e == StoreError::OverlapOrDoubleFree,
            r is Ok && span > 0 ==> exists|pos: int|
                {
                    &&& 0 <= pos <= old(self).by_addr@.len()
                    &&& final(self).by_addr@ == old(self).by_addr@.insert(
                        pos,
                        FreeListNode { blkdevid: None, span, address: lba },
                    )
                    &&& forall|k: int|
                        0 <= k < pos ==> (#[trigger] old(self).by_addr@[k]).address < lba
                    &&& forall|k: int|
                        pos <= k < old(self).by_addr@.len() ==> (#[trigger] old(
                            self,
                        ).by_addr@[k]).address >= lba
                },
            span == 0 ==> final(self).by_addr@ == old(self).by_addr@ && final(self).by_size@ == old(
                self,
            ).by_size@,
            r is Err ==> final(self).by_addr@ == old(self).by_addr@ && final(self).by_size@ == old(
                self,
            ).by_size@,
    {
        if span == 0 {
            proof {
                assert(self.blocks_free() =~= self.blocks_free().union(block_range(lba, 0)));
            }
            return Ok(());
        }
        let node = FreeListNode { blkdevid: None, address: lba, span };
        let pos = Self::lower_bound_addr(&self.by_addr, lba);
        let len = self.by_addr.len();
        let mut conflict = false;
        if pos > 0 && node.overlaps(&self.by_addr[pos - 1]) {
            conflict = true;
        }
        if pos < len && node.overlaps(&self.by_addr[pos]) {
            conflict = true;
        }
        if conflict {
            proof {
                lemma_nodes_blocks_iff(self.by_addr@);
                if pos > 0 && node.overlaps_spec(self.by_addr@[pos - 1]) {
                    crate::freelist::lemma_overlap_iff_blocks_intersect(
                        node,
                        self.by_addr@[pos - 1],
                    );
                    let b = choose|b: int|
                        node.block_set().contains(b) && #[trigger] self.by_addr@[pos - 1].block_set().contains(
                            b,
                        );
                    assert(self.blocks_free().contains(b));
                    assert(!block_range(lba, span).disjoint(self.blocks_free()));
                } else {
                    crate::freelist::lemma_overlap_iff_blocks_intersect(
                        node,
                        self.by_addr@[pos as int],
                    );
                    let b = choose|b: int|
                        node.block_set().contains(b) && #[trigger] self.by_addr@[pos as int].block_set().contains(
                            b,
                        );
                    assert(self.blocks_free().contains(b));
                    assert(!block_range(lba, span).disjoint(self.blocks_free()));
                }
            }
            return Err(StoreError::OverlapOrDoubleFree);
        }
        proof {
            assert forall|a: int| 0 <= a < self.by_addr@.len() implies !node.overlaps_spec(
                #[trigger] self.by_addr@[a],
            ) by {
                if a < pos - 1 {
                    assert(self.by_addr@[a].end() <= self.by_addr@[pos - 1].address);
                    assert(self.by_addr@[pos - 1].address < lba);
                } else if a > pos {
                    assert(self.by_addr@[a].address >= self.by_addr@[pos as int].end());
                    assert(self.by_addr@[pos as int].address >= lba);
                    assert(self.by_addr@[pos as int].span >= 1);
                    assert(!node.overlaps_spec(self.by_addr@[pos as int]));
                }
            }
            lemma_nodes_blocks_iff(self.by_addr@);
            assert forall|b: int| block_range(lba, span).contains(b) implies !self.blocks_free().contains(
                b,
            ) by {
                if self.blocks_free().contains(b) {
                    let a = choose|a: int|
                        0 <= a < self.by_addr@.len() && (#[trigger] self.by_addr@[a]).block_set().contains(
                            b,
                        );
                    crate::freelist::lemma_overlap_iff_blocks_intersect(node, self.by_addr@[a]);
                    assert(false);
                }
            }
        }
        let ipos = self.insert_node(node);
        let _ = ipos;
        Ok(())
    }
}

/// The covered block set of a sequence of extents is finite.
pub proof fn lemma_nodes_blocks_finite(s: Seq<FreeListNode>)
    ensures
        nodes_blocks(s).finite(),
    decreases s.len(),
{
    if s.len() == 0 {
    } else {
        crate::freelist::lemma_block_range(s[0].address, s[0].span);
        lemma_nodes_blocks_finite(s.drop_first());
    }
}

/// Allocate/release round trip on a previously fully-free device: allocating
/// `n` blocks from a fresh freelist of capacity `c` and then releasing the
/// returned single-shard manifest leaves exactly one free extent of span
/// `n` at the original address, and restores the free space as a whole. The
/// hypotheses are what `allocate` and then `release` (or `free`) ensure,
/// instantiated on the fresh single-extent state.
pub proof fn lemma_alloc_release_round_trip(
    c: u64,
    n: u64,
    i: int,
    j: int,
    mid_addr: Seq<FreeListNode>,
    pos: int,
    fin_addr: Seq<FreeListNode>,
)
    requires
        0 < n <= c,
        ({
            let start = seq![FreeListNode { blkdevid: None, span: c, address: 0 }];
            &&& 0 <= i < start.len()
            &&& start[i].span >= n
            &&& 0 <= j < start.len()
            &&& start[j] == start[i]
            &&& mid_addr == (if start[i].span == n {
                start.remove(j)
            } else {
                start.update(
                    j,
                    FreeListNode {
                        blkdevid: None,
                        span: (start[i].span - n) as u64,
                        address: (start[i].address + n) as u64,
                    },
                )
            })
        }),
        0 <= pos <= mid_addr.len(),
        fin_addr == mid_addr.insert(pos, FreeListNode { blkdevid: None, span: n, address: 0 }),
        forall|k: int| 0 <= k < pos ==> (#[trigger] mid_addr[k]).address < 0,
    ensures
        fin_addr[0] == (FreeListNode { blkdevid: None, span: n, address: 0 }),
        forall|k: int| 1 <= k < fin_addr.len() ==> (#[trigger] fin_addr[k]).address != 0,
        nodes_blocks(fin_addr) =~= block_range(0, c),
{
    let start = seq![FreeListNode { blkdevid: None, span: c, address: 0 }];
    let freed = FreeListNode { blkdevid: None, span: n, address: 0 };
    assert(pos == 0) by {
        if pos > 0 {
            assert(mid_addr[0].address < 0);
        }
    }
    if c == n {
        assert(mid_addr =~= Seq::<FreeListNode>::empty());
        assert(fin_addr =~= seq![freed]);
        assert(fin_addr.drop_first() =~= Seq::<FreeListNode>::empty());
        assert(nodes_blocks(fin_addr) =~= freed.block_set().union(
            nodes_blocks(fin_addr.drop_first()),
        ));
        assert(nodes_blocks(fin_addr) =~= block_range(0, c));
    } else {
        let rest = FreeListNode { blkdevid: None, span: (c - n) as u64, address: n };
        assert(mid_addr =~= seq![rest]);
        assert(fin_addr =~= seq![freed, rest]);
        assert(fin_addr.drop_first() =~= seq![rest]);
        assert(fin_addr.drop_first().drop_first() =~= Seq::<FreeListNode>::empty());
        assert(nodes_blocks(fin_addr.drop_first().drop_first()) =~= Set::<int>::empty());
        assert(nodes_blocks(fin_addr.drop_first()) =~= rest.block_set().union(
            nodes_blocks(fin_addr.drop_first().drop_first()),
        ));
        assert(nodes_blocks(fin_addr) =~= freed.block_set().union(
            nodes_blocks(fin_addr.drop_first()),
        ));
        assert(nodes_blocks(fin_addr) =~= block_range(0, c));
    }
}

} // verus!
