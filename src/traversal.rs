//! The next and parameter references of a document as a mathematical graph:
//! entry points, reachability, and what a stack traversal from the entry
//! points meets.
use crate::model::BlockId;
use vstd::multiset::Multiset;
use vstd::prelude::*;

verus! {

broadcast use {vstd::seq_lib::group_seq_properties, vstd::seq_lib::group_to_multiset_ensures};

/// The blocks of a document in order, with their next and parameter relations.
pub struct RefStructure {
    pub ids: Seq<BlockId>,
    pub params: Map<BlockId, Seq<BlockId>>,
    pub next: Map<BlockId, Option<BlockId>>,
}

impl RefStructure {
    /// The blocks that `u` points at: its successor first, then its parameters.
    pub open spec fn successors(self, u: BlockId) -> Seq<BlockId> {
        (if self.next.contains_key(u) && self.next[u] is Some {
            seq![self.next[u]->Some_0]
        } else {
            seq![]
        }) + (if self.params.contains_key(u) {
            self.params[u]
        } else {
            seq![]
        })
    }

    /// Some block points at `x` through a next or parameter edge.
    pub open spec fn is_referenced(self, x: BlockId) -> bool {
        exists|u: BlockId| #[trigger] self.successors(u).contains(x)
    }

    /// Nothing points at the block.
    pub open spec fn unreferenced(self) -> spec_fn(BlockId) -> bool {
        |x: BlockId| !self.is_referenced(x)
    }

    /// The blocks that nothing points at, in document order.
    pub open spec fn entry_points(self) -> Seq<BlockId> {
        self.ids.filter(self.unreferenced())
    }

    /// The successors of the blocks of `w`, block after block.
    pub open spec fn refs_of(self, w: Seq<BlockId>) -> Seq<BlockId>
        decreases w.len(),
    {
        if w.len() == 0 {
            seq![]
        } else {
            self.refs_of(w.drop_last()) + self.successors(w.last())
        }
    }

    /// What a traversal from the entry points pushes once it has expanded the
    /// blocks of `w`: every entry point, and every successor of a block of `w`.
    pub open spec fn arrivals(self, w: Seq<BlockId>) -> Multiset<BlockId> {
        (self.entry_points() + self.refs_of(w)).to_multiset()
    }

    /// `p` starts at an entry point and follows edges.
    pub open spec fn is_path(self, p: Seq<BlockId>) -> bool {
        &&& p.len() > 0
        &&& self.entry_points().contains(p[0])
        &&& forall|i: int| 0 <= i < p.len() - 1 ==> #[trigger] self.successors(p[i]).contains(p[i + 1])
    }

    /// Some path from an entry point ends at `x`.
    pub open spec fn reachable(self, x: BlockId) -> bool {
        exists|p: Seq<BlockId>| #[trigger] self.is_path(p) && p.last() == x
    }

    /// `o` lists every reachable block exactly once, and each of them is
    /// arrived at exactly once: as an entry point or from one block of `o`.
    pub open spec fn is_traversal(self, o: Seq<BlockId>) -> bool {
        &&& o.no_duplicates()
        &&& forall|x: BlockId| #[trigger] o.contains(x) <==> self.reachable(x)
        &&& self.arrivals(o) == o.to_multiset()
    }

    /// Some reachable blocks, taken once each, arrive at `x` twice or more.
    pub open spec fn reached_twice(self, x: BlockId) -> bool {
        exists|w: Seq<BlockId>|
            #![trigger self.arrivals(w)]
            w.no_duplicates() && (forall|i: int| 0 <= i < w.len() ==> self.reachable(w[i]))
                && self.arrivals(w).count(x) >= 2
    }

    /// Every block with an edge out of it is a block of the document.
    pub open spec fn keys_in_ids(self) -> bool {
        forall|u: BlockId|
            (self.params.contains_key(u) || self.next.contains_key(u)) ==> self.ids.contains(u)
    }

    /// Following an edge from a reachable block reaches a block.
    pub proof fn lemma_reach_step(self, x: BlockId, y: BlockId)
        requires
            self.reachable(x),
            self.successors(x).contains(y),
        ensures
            self.reachable(y),
    {
        let p = choose|p: Seq<BlockId>| #[trigger] self.is_path(p) && p.last() == x;
        let q = p.push(y);
        assert forall|i: int| 0 <= i < q.len() - 1 implies #[trigger] self.successors(q[i]).contains(
            q[i + 1],
        ) by {
            if i < p.len() - 1 {
                assert(q[i] == p[i] && q[i + 1] == p[i + 1]);
            }
        }
        assert(self.is_path(q));
    }

    /// An entry point is reachable.
    pub proof fn lemma_entry_reachable(self, x: BlockId)
        requires
            self.entry_points().contains(x),
        ensures
            self.reachable(x),
    {
        let p = seq![x];
        assert(self.is_path(p));
    }

    /// A reachable block is a block of the document or the target of an edge.
    pub proof fn lemma_reachable_known(self, x: BlockId)
        requires
            self.reachable(x),
        ensures
            self.ids.contains(x) || self.is_referenced(x),
    {
        let p = choose|p: Seq<BlockId>| #[trigger] self.is_path(p) && p.last() == x;
        if p.len() == 1 {
            assert(p[0] == x);
            self.ids.lemma_filter_contains_rev(self.unreferenced(), x);
        } else {
            assert(self.successors(p[p.len() - 2]).contains(p[p.len() - 2 + 1]));
        }
    }

    /// Every successor of a block of `w` occurs in `refs_of(w)`.
    pub proof fn lemma_refs_of_contains(self, w: Seq<BlockId>, i: int, y: BlockId)
        requires
            0 <= i < w.len(),
            self.successors(w[i]).contains(y),
        ensures
            self.refs_of(w).contains(y),
        decreases w.len(),
    {
        let k = choose|k: int| 0 <= k < self.successors(w[i]).len() && self.successors(w[i])[k] == y;
        if i == w.len() - 1 {
            let r = self.refs_of(w);
            assert(r[self.refs_of(w.drop_last()).len() + k] == y);
        } else {
            self.lemma_refs_of_contains(w.drop_last(), i, y);
            let j = choose|j: int|
                0 <= j < self.refs_of(w.drop_last()).len() && self.refs_of(w.drop_last())[j] == y;
            assert(self.refs_of(w)[j] == y);
        }
    }

    /// When a block is expanded, its successors join the arrivals.
    pub proof fn lemma_arrivals_push(self, w: Seq<BlockId>, x: BlockId)
        ensures
            self.arrivals(w.push(x)) == self.arrivals(w).add(self.successors(x).to_multiset()),
    {
        assert(w.push(x).drop_last() =~= w);
        assert(self.entry_points() + self.refs_of(w.push(x)) =~= (self.entry_points()
            + self.refs_of(w)) + self.successors(x));
        vstd::seq_lib::lemma_multiset_commutative(
            self.entry_points() + self.refs_of(w),
            self.successors(x),
        );
    }

    /// A set of blocks that holds the entry points and the successors of each
    /// of its blocks holds every reachable block.
    pub proof fn lemma_closed_holds_reachable(self, o: Seq<BlockId>, x: BlockId)
        requires
            forall|e: BlockId| self.entry_points().contains(e) ==> o.contains(e),
            forall|u: BlockId, y: BlockId|
                o.contains(u) && #[trigger] self.successors(u).contains(y) ==> o.contains(y),
            self.reachable(x),
        ensures
            o.contains(x),
    {
        let p = choose|p: Seq<BlockId>| #[trigger] self.is_path(p) && p.last() == x;
        assert forall|n: int| 0 <= n < p.len() implies o.contains(p[n]) by {
            self.lemma_path_prefix_in(o, p, n);
        }
    }

    proof fn lemma_path_prefix_in(self, o: Seq<BlockId>, p: Seq<BlockId>, n: int)
        requires
            forall|e: BlockId| self.entry_points().contains(e) ==> o.contains(e),
            forall|u: BlockId, y: BlockId|
                o.contains(u) && #[trigger] self.successors(u).contains(y) ==> o.contains(y),
            self.is_path(p),
            0 <= n < p.len(),
        ensures
            o.contains(p[n]),
        decreases n,
    {
        if n > 0 {
            self.lemma_path_prefix_in(o, p, n - 1);
            assert(self.successors(p[n - 1]).contains(p[n - 1 + 1]));
        }
    }

    /// Taking one block out of `o` takes its successors out of `refs_of(o)`.
    pub proof fn lemma_refs_of_remove(self, o: Seq<BlockId>, j: int)
        requires
            0 <= j < o.len(),
        ensures
            self.refs_of(o).to_multiset() == self.refs_of(o.remove(j)).to_multiset().add(
                self.successors(o[j]).to_multiset(),
            ),
        decreases o.len(),
    {
        let rest = o.drop_last();
        vstd::seq_lib::lemma_multiset_commutative(self.refs_of(rest), self.successors(o.last()));
        if j == o.len() - 1 {
            assert(o.remove(j) =~= rest);
        } else {
            self.lemma_refs_of_remove(rest, j);
            assert(o.remove(j).drop_last() =~= rest.remove(j));
            assert(o.remove(j).last() == o.last());
            vstd::seq_lib::lemma_multiset_commutative(
                self.refs_of(rest.remove(j)),
                self.successors(o.last()),
            );
            assert(self.refs_of(o).to_multiset() =~= self.refs_of(o.remove(j)).to_multiset().add(
                self.successors(o[j]).to_multiset(),
            ));
        }
    }

    /// Distinct blocks taken from a sequence without duplicates have no more
    /// successors, counted with multiplicity, than the whole sequence.
    pub proof fn lemma_refs_of_sub(self, w: Seq<BlockId>, o: Seq<BlockId>)
        requires
            w.no_duplicates(),
            o.no_duplicates(),
            forall|i: int| 0 <= i < w.len() ==> o.contains(w[i]),
        ensures
            forall|y: BlockId|
                self.refs_of(w).to_multiset().count(y) <= self.refs_of(o).to_multiset().count(y),
        decreases w.len(),
    {
        if w.len() > 0 {
            let u = w.last();
            let rest = w.drop_last();
            assert(o.contains(w[w.len() - 1]));
            let j = choose|j: int| 0 <= j < o.len() && o[j] == u;
            let o2 = o.remove(j);
            assert forall|i: int| 0 <= i < rest.len() implies o2.contains(rest[i]) by {
                assert(o.contains(w[i]));
                let k = choose|k: int| 0 <= k < o.len() && o[k] == w[i];
                assert(w[i] != u);
                if k < j {
                    assert(o2[k] == w[i]);
                } else {
                    assert(o2[k - 1] == w[i]);
                }
            }
            assert(o2.no_duplicates());
            self.lemma_refs_of_sub(rest, o2);
            self.lemma_refs_of_remove(o, j);
            vstd::seq_lib::lemma_multiset_commutative(self.refs_of(rest), self.successors(u));
        }
    }

    /// Where a traversal exists, no block is reached twice.
    pub proof fn lemma_traversal_excludes_reached_twice(self, o: Seq<BlockId>, x: BlockId)
        requires
            self.is_traversal(o),
        ensures
            !self.reached_twice(x),
    {
        if self.reached_twice(x) {
            let w = choose|w: Seq<BlockId>|
                #![trigger self.arrivals(w)]
                w.no_duplicates() && (forall|i: int| 0 <= i < w.len() ==> self.reachable(w[i]))
                    && self.arrivals(w).count(x) >= 2;
            assert forall|i: int| 0 <= i < w.len() implies o.contains(w[i]) by {
                assert(self.reachable(w[i]));
            }
            self.lemma_refs_of_sub(w, o);
            vstd::seq_lib::lemma_multiset_commutative(self.entry_points(), self.refs_of(w));
            vstd::seq_lib::lemma_multiset_commutative(self.entry_points(), self.refs_of(o));
            lemma_no_duplicates_count(o, x);
        }
    }

    /// All traversals have the same length: the number of reachable blocks.
    pub proof fn lemma_traversals_agree(self, o1: Seq<BlockId>, o2: Seq<BlockId>)
        requires
            self.is_traversal(o1),
            self.is_traversal(o2),
        ensures
            o1.len() == o2.len(),
    {
        assert(o1.to_set() =~= o2.to_set()) by {
            assert forall|x: BlockId| o1.to_set().contains(x) <==> o2.to_set().contains(x) by {
                assert(o1.contains(x) <==> self.reachable(x));
                assert(o2.contains(x) <==> self.reachable(x));
            }
        }
        o1.unique_seq_to_set();
        o2.unique_seq_to_set();
    }

    /// `p` follows edges from a block back to that block.
    pub open spec fn is_cycle(self, p: Seq<BlockId>) -> bool {
        &&& p.len() >= 2
        &&& p[0] == p.last()
        &&& forall|i: int| 0 <= i < p.len() - 1 ==> #[trigger] self.successors(p[i]).contains(p[i + 1])
    }

    /// The edges form a forest over the document's blocks: ids are unique,
    /// every edge points at a block of the document, no block is pointed at
    /// twice, and no block leads back to itself.
    pub open spec fn is_forest(self) -> bool {
        &&& self.ids.no_duplicates()
        &&& forall|u: BlockId, y: BlockId| #[trigger] self.successors(u).contains(y) ==> self.ids.contains(y)
        &&& forall|y: BlockId| self.refs_of(self.ids).to_multiset().count(y) <= 1
        &&& forall|p: Seq<BlockId>| !#[trigger] self.is_cycle(p)
    }

    /// Every element of `refs_of(w)` is a successor of a block of `w`.
    pub proof fn lemma_refs_of_from(self, w: Seq<BlockId>, y: BlockId)
        requires
            self.refs_of(w).contains(y),
        ensures
            exists|i: int| 0 <= i < w.len() && #[trigger] self.successors(w[i]).contains(y),
        decreases w.len(),
    {
        let rest = w.drop_last();
        let r = self.refs_of(w);
        let k = choose|k: int| 0 <= k < r.len() && r[k] == y;
        if k < self.refs_of(rest).len() {
            assert(self.refs_of(rest)[k] == y);
            self.lemma_refs_of_from(rest, y);
            let i = choose|i: int| 0 <= i < rest.len() && #[trigger] self.successors(rest[i]).contains(y);
            assert(w[i] == rest[i]);
        } else {
            assert(self.successors(w.last())[k - self.refs_of(rest).len()] == y);
            assert(self.successors(w[w.len() - 1]).contains(y));
        }
    }

    /// In a forest, a chain of distinct blocks that follows edges ends at a
    /// reachable block.
    proof fn lemma_chain_reaches(self, c: Seq<BlockId>)
        requires
            self.is_forest(),
            self.keys_in_ids(),
            c.len() > 0,
            c.no_duplicates(),
            forall|i: int| 0 <= i < c.len() ==> self.ids.contains(c[i]),
            forall|i: int| 0 <= i < c.len() - 1 ==> #[trigger] self.successors(c[i]).contains(c[i + 1]),
        ensures
            self.reachable(c.last()),
        decreases self.ids.len() - c.len(),
    {
        if self.entry_points().contains(c[0]) {
            assert(self.is_path(c));
        } else {
            let k = choose|k: int| 0 <= k < self.ids.len() && self.ids[k] == c[0];
            if !self.is_referenced(c[0]) {
                self.ids.lemma_filter_contains(self.unreferenced(), k);
            }
            let u = choose|u: BlockId| #[trigger] self.successors(u).contains(c[0]);
            assert(self.ids.contains(u));
            if c.contains(u) {
                let j = choose|j: int| 0 <= j < c.len() && c[j] == u;
                let p = seq![u] + c.take(j + 1);
                assert forall|i: int| 0 <= i < p.len() - 1 implies #[trigger] self.successors(
                    p[i],
                ).contains(p[i + 1]) by {
                    if i > 0 {
                        assert(p[i] == c[i - 1] && p[i + 1] == c[i - 1 + 1]);
                    }
                }
                assert(self.is_cycle(p));
            } else {
                let c2 = seq![u] + c;
                assert forall|i: int| 0 <= i < c2.len() - 1 implies #[trigger] self.successors(
                    c2[i],
                ).contains(c2[i + 1]) by {
                    if i > 0 {
                        assert(c2[i] == c[i - 1] && c2[i + 1] == c[i - 1 + 1]);
                    }
                }
                assert(c2.no_duplicates());
                assert(c2.to_set().subset_of(self.ids.to_set()));
                c2.unique_seq_to_set();
                self.ids.unique_seq_to_set();
                vstd::set_lib::lemma_len_subset(c2.to_set(), self.ids.to_set());
                self.lemma_chain_reaches(c2);
                assert(c2.last() == c.last());
            }
        }
    }

    /// In a forest, the document's blocks in order are a traversal.
    pub proof fn lemma_forest_traversal(self)
        requires
            self.is_forest(),
            self.keys_in_ids(),
        ensures
            self.is_traversal(self.ids),
    {
        let ids = self.ids;
        let e = self.entry_points();
        let r = self.refs_of(ids);
        assert forall|x: BlockId| #[trigger] ids.contains(x) <==> self.reachable(x) by {
            if ids.contains(x) {
                let c = seq![x];
                self.lemma_chain_reaches(c);
            }
            if self.reachable(x) {
                self.lemma_reachable_known(x);
            }
        }
        vstd::seq_lib::lemma_multiset_commutative(e, r);
        assert forall|y: BlockId| self.arrivals(ids).count(y) == ids.to_multiset().count(y) by {
            lemma_filter_count(ids, self.unreferenced(), y);
            lemma_no_duplicates_count(ids, y);
            vstd::seq_lib::to_multiset_contains(ids, y);
            vstd::seq_lib::to_multiset_contains(r, y);
            if r.contains(y) {
                self.lemma_refs_of_from(ids, y);
            }
            if ids.contains(y) && self.is_referenced(y) {
                let u = choose|u: BlockId| #[trigger] self.successors(u).contains(y);
                assert(self.ids.contains(u));
                let i = choose|i: int| 0 <= i < ids.len() && ids[i] == u;
                self.lemma_refs_of_contains(ids, i, y);
            }
        }
        assert(self.arrivals(ids) =~= ids.to_multiset());
    }

    /// A block of the document that no entry point reaches is pointed at by
    /// some edge.
    pub proof fn lemma_unreached_is_referenced(self, x: BlockId)
        requires
            self.ids.contains(x),
            !self.reachable(x),
        ensures
            self.is_referenced(x),
    {
        if !self.is_referenced(x) {
            let k = choose|k: int| 0 <= k < self.ids.len() && self.ids[k] == x;
            self.ids.lemma_filter_contains(self.unreferenced(), k);
            self.lemma_entry_reachable(x);
        }
    }

    /// Going back along edges from blocks that no entry point reaches stays
    /// among such blocks and, the document being finite, runs into a cycle.
    pub proof fn lemma_unreached_chain_cycles(self, c: Seq<BlockId>)
        requires
            self.keys_in_ids(),
            c.len() > 0,
            c.no_duplicates(),
            forall|i: int| 0 <= i < c.len() ==> self.ids.contains(c[i]) && !self.reachable(c[i]),
            forall|i: int| 0 <= i < c.len() - 1 ==> #[trigger] self.successors(c[i]).contains(c[i + 1]),
        ensures
            exists|p: Seq<BlockId>|
                #[trigger] self.is_cycle(p) && forall|i: int| 0 <= i < p.len() ==> !self.reachable(p[i]),
        decreases self.ids.len() - c.len(),
    {
        self.lemma_unreached_is_referenced(c[0]);
        let u = choose|u: BlockId| #[trigger] self.successors(u).contains(c[0]);
        assert(self.ids.contains(u));
        if self.reachable(u) {
            self.lemma_reach_step(u, c[0]);
        }
        if c.contains(u) {
            let j = choose|j: int| 0 <= j < c.len() && c[j] == u;
            let p = seq![u] + c.take(j + 1);
            assert forall|i: int| 0 <= i < p.len() - 1 implies #[trigger] self.successors(
                p[i],
            ).contains(p[i + 1]) by {
                if i > 0 {
                    assert(p[i] == c[i - 1] && p[i + 1] == c[i - 1 + 1]);
                }
            }
            assert forall|i: int| 0 <= i < p.len() implies !self.reachable(p[i]) by {
                if i > 0 {
                    assert(p[i] == c[i - 1]);
                }
            }
            assert(self.is_cycle(p));
        } else {
            let c2 = seq![u] + c;
            assert forall|i: int| 0 <= i < c2.len() - 1 implies #[trigger] self.successors(
                c2[i],
            ).contains(c2[i + 1]) by {
                if i > 0 {
                    assert(c2[i] == c[i - 1] && c2[i + 1] == c[i - 1 + 1]);
                }
            }
            assert forall|i: int| 0 <= i < c2.len() implies self.ids.contains(c2[i]) && !self.reachable(
                c2[i],
            ) by {
                if i > 0 {
                    assert(c2[i] == c[i - 1]);
                }
            }
            assert(c2.no_duplicates());
            assert(c2.to_set().subset_of(self.ids.to_set()));
            c2.unique_seq_to_set();
            self.ids.lemma_cardinality_of_set();
            vstd::set_lib::lemma_len_subset(c2.to_set(), self.ids.to_set());
            self.lemma_unreached_chain_cycles(c2);
        }
    }
}

/// A sequence without duplicates holds each value at most once.
pub proof fn lemma_no_duplicates_count(s: Seq<BlockId>, x: BlockId)
    requires
        s.no_duplicates(),
    ensures
        s.to_multiset().count(x) <= 1,
    decreases s.len(),
{
    if s.len() > 0 {
        let t = s.drop_last();
        assert(t.push(s.last()) =~= s);
        assert(t.no_duplicates());
        lemma_no_duplicates_count(t, x);
        if s.last() == x {
            assert(!t.contains(x));
            vstd::seq_lib::to_multiset_contains(t, x);
        }
    }
}

/// Filtering keeps every occurrence of a value that meets the predicate and
/// none of one that does not.
pub proof fn lemma_filter_count(s: Seq<BlockId>, pred: spec_fn(BlockId) -> bool, x: BlockId)
    ensures
        s.filter(pred).to_multiset().count(x) == if pred(x) {
            s.to_multiset().count(x)
        } else {
            0
        },
    decreases s.len(),
{
    if s.len() > 0 {
        let rest = s.drop_last();
        lemma_filter_count(rest, pred, x);
        assert(rest.push(s.last()) =~= s);
        rest.lemma_filter_push(s.last(), pred);
    } else {
        reveal(Seq::filter);
    }
}

} // verus!
