//! A by-size search tree of free space: each node keys one span size and
//! lists the offsets of the free runs of that size. Left children hold
//! smaller sizes, right children larger ones; pushing an existing size
//! appends its offset.

use vstd::prelude::*;

verus! {

/// One tree node: a span size and the offsets of the free runs that have
/// it.
#[derive(Debug)]
pub struct FreeTreeNode {
    pub left: Option<Box<FreeTreeNode>>,
    pub right: Option<Box<FreeTreeNode>>,
    pub size: u64,
    pub locations: Vec<u64>,
}

impl FreeTreeNode {
    /// The map an optional subtree denotes: size to offsets.
    pub open spec fn optional_as_map(node: Option<Box<FreeTreeNode>>) -> Map<u64, Seq<u64>>
        decreases node,
    {
        match node {
            None => Map::empty(),
            Some(n) => n.as_map(),
        }
    }

    /// The map a subtree denotes: size to offsets.
    pub open spec fn as_map(self) -> Map<u64, Seq<u64>>
        decreases self,
    {
        Self::optional_as_map(self.left).union_prefer_right(
            Self::optional_as_map(self.right),
        ).insert(self.size, self.locations@)
    }

    /// The search-tree ordering: smaller sizes left, larger sizes right.
    pub open spec fn wf(self) -> bool
        decreases self,
    {
        &&& forall|k: u64|
            Self::optional_as_map(self.left).dom().contains(k) ==> k < self.size
        &&& forall|k: u64|
            Self::optional_as_map(self.right).dom().contains(k) ==> k > self.size
        &&& match self.left {
            Some(n) => n.wf(),
            None => true,
        }
        &&& match self.right {
            Some(n) => n.wf(),
            None => true,
        }
    }

    /// A fresh leaf: one run of `size` blocks at `offset`.
    pub fn new(size: u64, offset: u64) -> (n: FreeTreeNode)
        ensures
            n.wf(),
            n.size == size,
            n.left is None,
            n.right is None,
            n.as_map() == Map::<u64, Seq<u64>>::empty().insert(size, seq![offset]),
    {
        let mut locations: Vec<u64> = Vec::new();
        locations.push(offset);
        let n = FreeTreeNode { left: None, right: None, size, locations };
        proof {
            assert(n.locations@ =~= seq![offset]);
            assert(n.as_map() =~= Map::<u64, Seq<u64>>::empty().insert(size, seq![offset]));
        }
        n
    }

    /// Returns a node whose size is at least `size`: the subtree holds one
    /// exactly when the search finds one.
    pub fn find(&self, size: u64) -> (r: Option<&FreeTreeNode>)
        requires
            self.wf(),
        ensures
            r matches Some(n) ==> {
                &&& n.size >= size
                &&& self.as_map().dom().contains(n.size)
                &&& self.as_map()[n.size] == n.locations@
            },
            r is None ==> forall|k: u64| #[trigger] self.as_map().dom().contains(k) ==> k < size,
        decreases *self,
    {
        if self.size >= size {
            // this node is big enough; prefer a smaller fit on the left
            if let Some(node) = &self.left {
                proof {
                    assert(Self::optional_as_map(self.left) == node.as_map());
                }
                if node.size < size {
                    proof {
                        self.lemma_as_map_at(self.size);
                    }
                    Some(self)
                } else {
                    let r = node.find(size);
                    proof {
                        if r is Some {
                            let n = r.unwrap();
                            assert(node.as_map().dom().contains(n.size));
                            assert(n.size < self.size);
                            self.lemma_as_map_at(n.size);
                        }
                    }
                    match r {
                        Some(n) => Some(n),
                        None => {
                            proof {
                                node.lemma_as_map_at(node.size);
                                assert(node.as_map().dom().contains(node.size));
                                assert(node.size < size);
                                assert(false);
                            }
                            None
                        },
                    }
                }
            } else {
                proof {
                    self.lemma_as_map_at(self.size);
                }
                Some(self)
            }
        } else {
            // too small: only the right subtree can hold a fit
            if let Some(node) = &self.right {
                proof {
                    assert(Self::optional_as_map(self.right) == node.as_map());
                }
                let r = node.find(size);
                proof {
                    match r {
                        Some(n) => {
                            assert(node.as_map().dom().contains(n.size));
                            assert(n.size > self.size);
                            self.lemma_as_map_at(n.size);
                        },
                        None => {
                            assert forall|k: u64| #[trigger] self.as_map().dom().contains(
                                k,
                            ) implies k < size by {
                                self.lemma_as_map_dom(k);
                            }
                        },
                    }
                }
                r
            } else {
                proof {
                    assert forall|k: u64| #[trigger] self.as_map().dom().contains(k) implies k
                        < size by {
                        self.lemma_as_map_dom(k);
                    }
                }
                None
            }
        }
    }

    /// A key of the denoted map comes from the node itself or one subtree.
    proof fn lemma_as_map_dom(self, k: u64)
        requires
            self.wf(),
            self.as_map().dom().contains(k),
        ensures
            k == self.size || Self::optional_as_map(self.left).dom().contains(k)
                || Self::optional_as_map(self.right).dom().contains(k),
    {
    }

    /// What the denoted map holds at a key one subtree (or the node) holds.
    proof fn lemma_as_map_at(self, k: u64)
        requires
            self.wf(),
        ensures
            k == self.size ==> self.as_map().dom().contains(k) && self.as_map()[k]
                == self.locations@,
            k != self.size && Self::optional_as_map(self.left).dom().contains(k) ==> {
                &&& self.as_map().dom().contains(k)
                &&& self.as_map()[k] == Self::optional_as_map(self.left)[k]
            },
            k != self.size && Self::optional_as_map(self.right).dom().contains(k) ==> {
                &&& self.as_map().dom().contains(k)
                &&& self.as_map()[k] == Self::optional_as_map(self.right)[k]
            },
    {
        if k != self.size && Self::optional_as_map(self.left).dom().contains(k) {
            assert(k < self.size);
            assert(!Self::optional_as_map(self.right).dom().contains(k));
        }
    }

    /// Records one more free run: a new leaf for a new size, or one more
    /// offset for a known size.
    pub fn push(&mut self, size: u64, offset: u64)
        requires
            old(self).wf(),
        ensures
            final(self).wf(),
            final(self).as_map() == (if old(self).as_map().dom().contains(size) {
                old(self).as_map().insert(size, old(self).as_map()[size].push(offset))
            } else {
                old(self).as_map().insert(size, seq![offset])
            }),
        decreases *old(self),
    {
        proof {
            old(self).lemma_as_map_at(size);
        }
        if size == self.size {
            self.locations.push(offset);
            proof {
                assert(!FreeTreeNode::optional_as_map(self.left).dom().contains(size));
                assert(!FreeTreeNode::optional_as_map(self.right).dom().contains(size));
                assert(self.as_map() =~= old(self).as_map().insert(
                    size,
                    old(self).as_map()[size].push(offset),
                ));
            }
        } else if size < self.size {
            Self::push_into_optional(&mut self.left, size, offset);
            proof {
                assert(self.as_map() =~= (if old(self).as_map().dom().contains(size) {
                    old(self).as_map().insert(size, old(self).as_map()[size].push(offset))
                } else {
                    old(self).as_map().insert(size, seq![offset])
                }));
            }
        } else {
            Self::push_into_optional(&mut self.right, size, offset);
            proof {
                assert(self.as_map() =~= (if old(self).as_map().dom().contains(size) {
                    old(self).as_map().insert(size, old(self).as_map()[size].push(offset))
                } else {
                    old(self).as_map().insert(size, seq![offset])
                }));
            }
        }
    }

    /// As `push`, on an optional subtree.
    fn push_into_optional(node: &mut Option<Box<FreeTreeNode>>, size: u64, offset: u64)
        requires
            (*old(node)) matches Some(n) ==> n.wf(),
        ensures
            (*final(node)) matches Some(n) ==> n.wf(),
            (*final(node)) is Some,
            Self::optional_as_map(*final(node)) == (if Self::optional_as_map(
                *old(node),
            ).dom().contains(size) {
                Self::optional_as_map(*old(node)).insert(
                    size,
                    Self::optional_as_map(*old(node))[size].push(offset),
                )
            } else {
                Self::optional_as_map(*old(node)).insert(size, seq![offset])
            }),
        decreases *old(node),
    {
        match node.take() {
            None => {
                *node = Some(Box::new(FreeTreeNode::new(size, offset)));
                proof {
                    assert(Self::optional_as_map(*node) =~= Map::<u64, Seq<u64>>::empty().insert(
                        size,
                        seq![offset],
                    ));
                }
            },
            Some(mut boxed) => {
                (&mut *boxed).push(size, offset);
                *node = Some(boxed);
            },
        }
    }
}

/// The by-size tree of free space; its root spans the whole device at
/// offset zero.
#[derive(Debug)]
pub struct FreeTree {
    pub root: FreeTreeNode,
}

impl FreeTree {
    /// The map the tree denotes: size to offsets.
    pub open spec fn as_map(self) -> Map<u64, Seq<u64>> {
        self.root.as_map()
    }

    /// A fresh tree: the whole device, `size` blocks at offset zero.
    pub fn new(size: u64) -> (t: FreeTree)
        ensures
            t.root.wf(),
            t.root.size == size,
            t.root.left is None,
            t.root.right is None,
            t.as_map() == Map::<u64, Seq<u64>>::empty().insert(size, seq![0u64]),
    {
        FreeTree { root: FreeTreeNode::new(size, 0) }
    }

    /// Returns a node whose size is at least `size`, if any size that large
    /// is recorded.
    pub fn find(&self, size: u64) -> (r: Option<&FreeTreeNode>)
        requires
            self.root.wf(),
        ensures
            r matches Some(n) ==> {
                &&& n.size >= size
                &&& self.as_map().dom().contains(n.size)
                &&& self.as_map()[n.size] == n.locations@
            },
            r is None ==> forall|k: u64| #[trigger] self.as_map().dom().contains(k) ==> k < size,
    {
        self.root.find(size)
    }

    /// As `find`, walking the tree iteratively.
    pub fn find_flat(&self, size: u64) -> (r: Option<&FreeTreeNode>)
        requires
            self.root.wf(),
        ensures
            r matches Some(n) ==> {
                &&& n.size >= size
                &&& self.as_map().dom().contains(n.size)
                &&& self.as_map()[n.size] == n.locations@
            },
            r is None ==> forall|k: u64| #[trigger] self.as_map().dom().contains(k) ==> k < size,
    {
        let mut cursor: &FreeTreeNode = &self.root;
        let ghost whole = self.as_map();
        loop
            invariant
                whole == self.as_map(),
                cursor.wf(),
                // the cursor's map is part of the whole tree's map
                forall|k: u64|
                    #[trigger] cursor.as_map().dom().contains(k) ==> whole.dom().contains(k)
                        && whole[k] == cursor.as_map()[k],
                // a fitting size, if one exists anywhere, exists under the cursor
                (exists|k: u64| #[trigger] whole.dom().contains(k) && k >= size) ==> (exists|k: u64|
                    #[trigger] cursor.as_map().dom().contains(k) && k >= size),
            decreases *cursor,
        {
            if cursor.size == size {
                proof {
                    cursor.lemma_as_map_at(size);
                }
                return Some(cursor);
            } else if cursor.size < size {
                // this size is too small: only the right subtree can fit
                if let Some(node) = &cursor.right {
                    proof {
                        assert(FreeTreeNode::optional_as_map(cursor.right) == node.as_map());
                        assert forall|k: u64|
                            #[trigger] node.as_map().dom().contains(k) implies whole.dom().contains(
                            k,
                        ) && whole[k] == node.as_map()[k] by {
                            assert(k > cursor.size);
                            cursor.lemma_as_map_at(k);
                        }
                        if exists|k: u64| #[trigger] whole.dom().contains(k) && k >= size {
                            let k = choose|k: u64|
                                #[trigger] cursor.as_map().dom().contains(k) && k >= size;
                            cursor.lemma_as_map_dom(k);
                            assert(node.as_map().dom().contains(k));
                        }
                    }
                    cursor = &**node;
                } else {
                    proof {
                        if exists|k: u64| #[trigger] whole.dom().contains(k) && k >= size {
                            let k = choose|k: u64|
                                #[trigger] cursor.as_map().dom().contains(k) && k >= size;
                            cursor.lemma_as_map_dom(k);
                            assert(false);
                        }
                        assert forall|k: u64| #[trigger] whole.dom().contains(k) implies k
                            < size by {}
                    }
                    return None;
                }
            } else {
                // this size fits; prefer a smaller fit on the left
                if let Some(node) = &cursor.left {
                    if node.size < size {
                        proof {
                            cursor.lemma_as_map_at(cursor.size);
                        }
                        return Some(cursor);
                    } else {
                        proof {
                            assert(FreeTreeNode::optional_as_map(cursor.left) == node.as_map());
                            assert forall|k: u64|
                                #[trigger] node.as_map().dom().contains(
                                k,
                            ) implies whole.dom().contains(k) && whole[k] == node.as_map()[k] by {
                                assert(k < cursor.size);
                                cursor.lemma_as_map_at(k);
                            }
                            assert(node.as_map().dom().contains(node.size)) by {
                                node.lemma_as_map_at(node.size);
                            }
                            assert(node.size >= size);
                        }
                        cursor = &**node;
                    }
                } else {
                    proof {
                        cursor.lemma_as_map_at(cursor.size);
                    }
                    return Some(cursor);
                }
            }
        }
    }

    /// Records one more free run of `size` blocks at `offset`.
    pub fn push(&mut self, size: u64, offset: u64)
        requires
            old(self).root.wf(),
        ensures
            final(self).root.wf(),
            final(self).as_map() == (if old(self).as_map().dom().contains(size) {
                old(self).as_map().insert(size, old(self).as_map()[size].push(offset))
            } else {
                old(self).as_map().insert(size, seq![offset])
            }),
    {
        self.root.push(size, offset);
    }
}

} // verus!
