//! Packed storage for the count nodes of the language model.
//!
//! A node is a symbol, its count and the index of the next node of the same list. Symbols and
//! counts are kept in sixteen bits each; the few values that do not fit spill into maps keyed
//! by the node's index.

use std::collections::HashMap;

use vstd::prelude::*;

use crate::backends::rosaplus::index::node_ix;

verus! {

broadcast use vstd::std_specs::hash::group_hash_axioms;

/// Marks the absence of a node.
pub const LM_NODE_NONE: u32 = 4294967295;

/// Packed symbol that says: look in the spill map.
pub const LM_PACKED_SYM_OVERFLOW: u16 = 65535;

/// Largest count that is kept in the packed form.
pub const LM_PACKED_CNT_MAX: u16 = 65535;

/// One entry of a count list.
#[derive(Clone, Copy, Debug, PartialEq, Eq)]
pub struct CountNode {
    pub sym_idx: u32,
    pub cnt: u64,
    pub next: u32,
}

/// All count nodes, packed.
pub struct LmNodes {
    sym_lo: Vec<u16>,
    cnt_lo: Vec<u16>,
    next: Vec<u32>,
    cnt_overflow_mask: Vec<u8>,
    sym_overflow: HashMap<u32, u32>,
    cnt_overflow: HashMap<u32, u64>,
}

impl LmNodes {
    closed spec fn sym_ok(&self, i: int) -> bool {
        let k = i as u32;
        if self.sym_lo@[i] == LM_PACKED_SYM_OVERFLOW {
            self.sym_overflow@.contains_key(k) && self.sym_overflow@[k] >= LM_PACKED_SYM_OVERFLOW
        } else {
            !self.sym_overflow@.contains_key(k)
        }
    }

    closed spec fn cnt_ok(&self, i: int) -> bool {
        let k = i as u32;
        if self.cnt_overflow_mask@[i] == 0 {
            !self.cnt_overflow@.contains_key(k)
        } else {
            &&& self.cnt_overflow@.contains_key(k)
            &&& self.cnt_lo@[i] == LM_PACKED_CNT_MAX
            &&& self.cnt_overflow@[k] + LM_PACKED_CNT_MAX <= u64::MAX
        }
    }

    /// The columns have one length, within the index space, and the maps hold exactly the
    /// values that spilled.
    pub closed spec fn wf(&self) -> bool {
        let n = self.next@.len();
        &&& n <= u32::MAX
        &&& self.sym_lo@.len() == n
        &&& self.cnt_lo@.len() == n
        &&& self.cnt_overflow_mask@.len() == n
        &&& forall|i: int| 0 <= i < n ==> #[trigger] self.sym_ok(i)
        &&& forall|i: int| 0 <= i < n ==> #[trigger] self.cnt_ok(i)
        &&& forall|k: u32| #[trigger] self.sym_overflow@.contains_key(k) ==> k < n
        &&& forall|k: u32| #[trigger] self.cnt_overflow@.contains_key(k) ==> k < n
    }

    closed spec fn sym_at(&self, i: int) -> u32 {
        if self.sym_lo@[i] == LM_PACKED_SYM_OVERFLOW {
            self.sym_overflow@[i as u32]
        } else {
            self.sym_lo@[i] as u32
        }
    }

    closed spec fn cnt_at(&self, i: int) -> u64 {
        if self.cnt_overflow_mask@[i] == 0 {
            self.cnt_lo@[i] as u64
        } else {
            (self.cnt_lo@[i] + self.cnt_overflow@[i as u32]) as u64
        }
    }
}

impl View for LmNodes {
    type V = Seq<CountNode>;

    closed spec fn view(&self) -> Seq<CountNode> {
        Seq::new(
            self.next@.len(),
            |i: int|
                CountNode { sym_idx: self.sym_at(i), cnt: self.cnt_at(i), next: self.next@[i] },
        )
    }
}

impl LmNodes {
    /// No nodes.
    pub fn new() -> (nodes: LmNodes)
        ensures
            nodes.wf(),
            nodes@ == Seq::<CountNode>::empty(),
    {
        let nodes = LmNodes {
            sym_lo: Vec::new(),
            cnt_lo: Vec::new(),
            next: Vec::new(),
            cnt_overflow_mask: Vec::new(),
            sym_overflow: HashMap::new(),
            cnt_overflow: HashMap::new(),
        };
        proof {
            assert(nodes@ =~= Seq::<CountNode>::empty());
        }
        nodes
    }

    /// Number of nodes.
    pub fn len(&self) -> (n: usize)
        requires
            self.wf(),
        ensures
            n == self@.len(),
            n <= u32::MAX,
    {
        self.next.len()
    }

    /// How many symbols did not fit their packed form.
    pub closed spec fn spilled_symbols(&self) -> nat {
        self.sym_overflow@.len()
    }

    /// How many counts did not fit their packed form.
    pub closed spec fn spilled_counts(&self) -> nat {
        self.cnt_overflow@.len()
    }

    /// Number of nodes, of symbols that spilled and of counts that spilled.
    pub fn sizes(&self) -> (sizes: (usize, usize, usize))
        ensures
            sizes.0 == self@.len(),
            sizes.1 == self.spilled_symbols(),
            sizes.2 == self.spilled_counts(),
    {
        (self.next.len(), self.sym_overflow.len(), self.cnt_overflow.len())
    }

    /// Drops all nodes.
    pub fn clear(&mut self)
        requires
            old(self).wf(),
        ensures
            final(self).wf(),
            final(self)@ == Seq::<CountNode>::empty(),
    {
        *self = LmNodes::new();
    }

    /// Keeps the first `new_len` nodes.
    pub fn truncate(&mut self, new_len: usize)
        requires
            old(self).wf(),
            new_len <= old(self)@.len(),
        ensures
            final(self).wf(),
            final(self)@ == old(self)@.take(new_len as int),
    {
        let n: usize = self.next.len();
        let mut i: usize = new_len;
        while i < n
            invariant
                new_len <= i <= n,
                n == old(self).next@.len(),
                n <= u32::MAX,
                self.next == old(self).next,
                self.sym_lo == old(self).sym_lo,
                self.cnt_lo == old(self).cnt_lo,
                self.cnt_overflow_mask == old(self).cnt_overflow_mask,
                forall|k: u32|
                    #![trigger self.sym_overflow@.contains_key(k)]
                    self.sym_overflow@.contains_key(k) <==> (old(self).sym_overflow@.contains_key(k) && !(new_len <= k < i)),
                forall|k: u32|
                    #![trigger self.sym_overflow@[k]]
                    self.sym_overflow@.contains_key(k) ==> self.sym_overflow@[k] == old(self).sym_overflow@[k],
                forall|k: u32|
                    #![trigger self.cnt_overflow@.contains_key(k)]
                    self.cnt_overflow@.contains_key(k) <==> (old(self).cnt_overflow@.contains_key(k) && !(new_len <= k < i)),
                forall|k: u32|
                    #![trigger self.cnt_overflow@[k]]
                    self.cnt_overflow@.contains_key(k) ==> self.cnt_overflow@[k] == old(self).cnt_overflow@[k],
            decreases n - i,
        {
            let key: u32 = node_ix(i);
            self.sym_overflow.remove(&key);
            self.cnt_overflow.remove(&key);
            i = i + 1;
        }
        self.sym_lo.truncate(new_len);
        self.cnt_lo.truncate(new_len);
        self.next.truncate(new_len);
        self.cnt_overflow_mask.truncate(new_len);
        proof {
            assert forall|j: int| 0 <= j < new_len implies #[trigger] self.sym_ok(j) by {
                assert(old(self).sym_ok(j));
            }
            assert forall|j: int| 0 <= j < new_len implies #[trigger] self.cnt_ok(j) by {
                assert(old(self).cnt_ok(j));
            }
            assert forall|j: int| 0 <= j < new_len implies self@[j] == old(self)@[j] by {
                assert(old(self).sym_ok(j));
                assert(old(self).cnt_ok(j));
            }
            assert(self@ =~= old(self)@.take(new_len as int));
        }
    }

    fn set_sym_idx(&mut self, idx: usize, sym_idx: u32)
        requires
            old(self).next@.len() <= u32::MAX,
            idx < old(self).next@.len(),
            old(self).sym_lo@.len() == old(self).next@.len(),
            forall|i: int|
                0 <= i < old(self).next@.len() && i != idx ==> #[trigger] old(self).sym_ok(i),
            forall|k: u32|
                #[trigger] old(self).sym_overflow@.contains_key(k) ==> k < old(self).next@.len(),
        ensures
            final(self).next == old(self).next,
            final(self).cnt_lo == old(self).cnt_lo,
            final(self).cnt_overflow_mask == old(self).cnt_overflow_mask,
            final(self).cnt_overflow == old(self).cnt_overflow,
            final(self).sym_lo@.len() == old(self).sym_lo@.len(),
            forall|i: int|
                0 <= i < old(self).next@.len() ==> #[trigger] final(self).sym_ok(i),
            forall|k: u32|
                #[trigger] final(self).sym_overflow@.contains_key(k) ==> k < old(self).next@.len(),
            forall|i: int|
                0 <= i < old(self).next@.len() ==> #[trigger] final(self).sym_at(i) == (if i
                    == idx {
                    sym_idx
                } else {
                    old(self).sym_at(i)
                }),
    {
        let key: u32 = node_ix(idx);
        if sym_idx < LM_PACKED_SYM_OVERFLOW as u32 {
            self.sym_lo.set(idx, sym_idx as u16);
            self.sym_overflow.remove(&key);
        } else {
            self.sym_lo.set(idx, LM_PACKED_SYM_OVERFLOW);
            self.sym_overflow.insert(key, sym_idx);
        }
        proof {
            assert forall|i: int| 0 <= i < self.next@.len() implies #[trigger] self.sym_ok(i) by {
                if i != idx {
                    assert(old(self).sym_ok(i));
                    assert(i as u32 != key);
                }
            }
            assert forall|i: int| 0 <= i < self.next@.len() implies #[trigger] self.sym_at(i) == (
            if i == idx {
                sym_idx
            } else {
                old(self).sym_at(i)
            }) by {
                assert(self.sym_ok(i));
                if i != idx {
                    assert(old(self).sym_ok(i));
                    assert(i as u32 != key);
                }
            }
        }
    }

    fn set_cnt(&mut self, idx: usize, cnt: u64)
        requires
            old(self).next@.len() <= u32::MAX,
            idx < old(self).next@.len(),
            old(self).cnt_lo@.len() == old(self).next@.len(),
            old(self).cnt_overflow_mask@.len() == old(self).next@.len(),
            forall|i: int|
                0 <= i < old(self).next@.len() && i != idx ==> #[trigger] old(self).cnt_ok(i),
            forall|k: u32|
                #[trigger] old(self).cnt_overflow@.contains_key(k) ==> k < old(self).next@.len(),
        ensures
            final(self).next == old(self).next,
            final(self).sym_lo == old(self).sym_lo,
            final(self).sym_overflow == old(self).sym_overflow,
            final(self).cnt_lo@.len() == old(self).cnt_lo@.len(),
            final(self).cnt_overflow_mask@.len() == old(self).cnt_overflow_mask@.len(),
            forall|i: int|
                0 <= i < old(self).next@.len() ==> #[trigger] final(self).cnt_ok(i),
            forall|k: u32|
                #[trigger] final(self).cnt_overflow@.contains_key(k) ==> k < old(self).next@.len(),
            forall|i: int|
                0 <= i < old(self).next@.len() ==> #[trigger] final(self).cnt_at(i) == (if i
                    == idx {
                    cnt
                } else {
                    old(self).cnt_at(i)
                }),
    {
        let key: u32 = node_ix(idx);
        if cnt <= LM_PACKED_CNT_MAX as u64 {
            self.cnt_lo.set(idx, cnt as u16);
            self.cnt_overflow.remove(&key);
            self.cnt_overflow_mask.set(idx, 0);
        } else {
            self.cnt_lo.set(idx, LM_PACKED_CNT_MAX);
            self.cnt_overflow.insert(key, cnt - LM_PACKED_CNT_MAX as u64);
            self.cnt_overflow_mask.set(idx, 1);
        }
        proof {
            assert forall|i: int| 0 <= i < self.next@.len() implies #[trigger] self.cnt_ok(i) by {
                if i != idx {
                    assert(old(self).cnt_ok(i));
                    assert(i as u32 != key);
                }
            }
            assert forall|i: int| 0 <= i < self.next@.len() implies #[trigger] self.cnt_at(i) == (
            if i == idx {
                cnt
            } else {
                old(self).cnt_at(i)
            }) by {
                assert(self.cnt_ok(i));
                if i != idx {
                    assert(old(self).cnt_ok(i));
                    assert(i as u32 != key);
                }
            }
        }
    }

    /// Appends `node`.
    pub fn push(&mut self, node: CountNode)
        requires
            old(self).wf(),
            old(self)@.len() < u32::MAX,
        ensures
            final(self).wf(),
            final(self)@ == old(self)@.push(node),
    {
        let idx: usize = self.next.len();
        self.sym_lo.push(0);
        self.cnt_lo.push(0);
        self.next.push(node.next);
        self.cnt_overflow_mask.push(0);
        proof {
            assert forall|i: int| 0 <= i < idx implies #[trigger] self.sym_ok(i) by {
                assert(old(self).sym_ok(i));
            }
            assert forall|i: int| 0 <= i < idx implies #[trigger] self.cnt_ok(i) by {
                assert(old(self).cnt_ok(i));
            }
        }
        let ghost mid = *self;
        self.set_sym_idx(idx, node.sym_idx);
        let ghost named = *self;
        proof {
            assert forall|i: int| 0 <= i < idx implies #[trigger] self.cnt_ok(i) by {
                assert(mid.cnt_ok(i));
            }
        }
        self.set_cnt(idx, node.cnt);
        proof {
            assert forall|i: int| 0 <= i <= idx implies #[trigger] self.sym_ok(i) by {
                assert(named.sym_ok(i));
            }
            assert forall|i: int| 0 <= i < idx implies self@[i] == old(self)@[i] by {
                assert(self.sym_at(i) == named.sym_at(i));
                assert(named.sym_at(i) == mid.sym_at(i));
                assert(named.cnt_at(i) == mid.cnt_at(i));
            }
            assert(self.sym_at(idx as int) == named.sym_at(idx as int));
            assert(self@ =~= old(self)@.push(node));
        }
    }

    /// Node `idx`.
    pub fn get(&self, idx: usize) -> (node: CountNode)
        requires
            self.wf(),
            idx < self@.len(),
        ensures
            node == self@[idx as int],
    {
        CountNode { sym_idx: self.sym_idx(idx), cnt: self.cnt(idx), next: self.next[idx] }
    }

    /// Replaces node `idx`.
    pub fn set(&mut self, idx: usize, node: CountNode)
        requires
            old(self).wf(),
            idx < old(self)@.len(),
        ensures
            final(self).wf(),
            final(self)@ == old(self)@.update(idx as int, node),
    {
        self.next.set(idx, node.next);
        proof {
            assert forall|i: int| 0 <= i < self.next@.len() implies #[trigger] self.sym_ok(i) by {
                assert(old(self).sym_ok(i));
            }
            assert forall|i: int| 0 <= i < self.next@.len() implies #[trigger] self.cnt_ok(i) by {
                assert(old(self).cnt_ok(i));
            }
        }
        let ghost mid = *self;
        self.set_sym_idx(idx, node.sym_idx);
        let ghost named = *self;
        proof {
            assert forall|i: int| 0 <= i < self.next@.len() implies #[trigger] self.cnt_ok(i) by {
                assert(mid.cnt_ok(i));
            }
        }
        self.set_cnt(idx, node.cnt);
        proof {
            assert forall|i: int| 0 <= i < self.next@.len() implies #[trigger] self.sym_ok(i) by {
                assert(named.sym_ok(i));
            }
            assert forall|i: int| 0 <= i < self.next@.len() && i != idx implies self@[i] == old(self)@[i] by {
                assert(self.sym_at(i) == named.sym_at(i));
                assert(named.sym_at(i) == mid.sym_at(i));
                assert(named.cnt_at(i) == mid.cnt_at(i));
            }
            assert(self.sym_at(idx as int) == named.sym_at(idx as int));
            assert(self@ =~= old(self)@.update(idx as int, node));
        }
    }

    /// Symbol of node `idx`.
    pub fn sym_idx(&self, idx: usize) -> (sym: u32)
        requires
            self.wf(),
            idx < self@.len(),
        ensures
            sym == self@[idx as int].sym_idx,
    {
        proof {
            assert(self.sym_ok(idx as int));
        }
        if self.sym_lo[idx] == LM_PACKED_SYM_OVERFLOW {
            let key: u32 = node_ix(idx);
            match self.sym_overflow.get(&key) {
                Some(sym) => *sym,
                None => LM_PACKED_SYM_OVERFLOW as u32,
            }
        } else {
            self.sym_lo[idx] as u32
        }
    }

    /// Count of node `idx`.
    pub fn cnt(&self, idx: usize) -> (cnt: u64)
        requires
            self.wf(),
            idx < self@.len(),
        ensures
            cnt == self@[idx as int].cnt,
    {
        proof {
            assert(self.cnt_ok(idx as int));
        }
        if self.cnt_overflow_mask[idx] == 0 {
            self.cnt_lo[idx] as u64
        } else {
            let key: u32 = node_ix(idx);
            let spilled: u64 = match self.cnt_overflow.get(&key) {
                Some(more) => *more,
                None => 0,
            };
            self.cnt_lo[idx] as u64 + spilled
        }
    }

    /// Index of the node behind node `idx`.
    pub fn next(&self, idx: usize) -> (next: u32)
        requires
            self.wf(),
            idx < self@.len(),
        ensures
            next == self@[idx as int].next,
    {
        self.next[idx]
    }

    /// Raises the count of node `idx` by `add`, up to the largest count.
    pub fn add_cnt(&mut self, idx: usize, add: u64)
        requires
            old(self).wf(),
            idx < old(self)@.len(),
        ensures
            final(self).wf(),
            final(self)@ == old(self)@.update(
                idx as int,
                CountNode {
                    cnt: if old(self)@[idx as int].cnt + add <= u64::MAX {
                        (old(self)@[idx as int].cnt + add) as u64
                    } else {
                        u64::MAX
                    },
                    ..old(self)@[idx as int]
                },
            ),
    {
        let node = self.get(idx);
        let cnt: u64 = if add <= u64::MAX - node.cnt {
            node.cnt + add
        } else {
            u64::MAX
        };
        self.set(idx, CountNode { sym_idx: node.sym_idx, cnt, next: node.next });
    }

    /// A copy.
    pub fn duplicate(&self) -> (copy: LmNodes)
        requires
            self.wf(),
        ensures
            copy.wf(),
            copy@ == self@,
    {
        let copy = LmNodes {
            sym_lo: self.sym_lo.clone(),
            cnt_lo: self.cnt_lo.clone(),
            next: self.next.clone(),
            cnt_overflow_mask: self.cnt_overflow_mask.clone(),
            sym_overflow: self.sym_overflow.clone(),
            cnt_overflow: self.cnt_overflow.clone(),
        };
        proof {
            assert(copy.sym_lo@ =~= self.sym_lo@);
            assert(copy.cnt_lo@ =~= self.cnt_lo@);
            assert(copy.next@ =~= self.next@);
            assert(copy.cnt_overflow_mask@ =~= self.cnt_overflow_mask@);
            assert forall|i: int| 0 <= i < self.next@.len() implies #[trigger] copy.sym_ok(i) by {
                assert(self.sym_ok(i));
            }
            assert forall|i: int| 0 <= i < self.next@.len() implies #[trigger] copy.cnt_ok(i) by {
                assert(self.cnt_ok(i));
            }
            assert(copy@ =~= self@);
        }
        copy
    }
}

} // verus!
