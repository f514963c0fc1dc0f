//! The reference graph of a document: four relations over block ids, its
//! read-only views, and the acyclicity check of the next and parameter edges.
use crate::graph_construction::{
    add_edges_from_block, lemma_relation_keys, list_relation, next_relation, param_relation, parent_relation,
    seq_values,
};
use crate::model::{
    blocks_of, first_list_at, lemma_blocks_of_take, Block, BlockId, ListId, NoValidListForId,
    ProjectDoc,
};
use crate::traversal::{lemma_no_duplicates_count, RefStructure};
use std::collections::{HashMap, HashSet};
use vstd::prelude::*;

verus! {

broadcast use {vstd::std_specs::hash::group_hash_axioms, vstd::seq_lib::group_seq_properties};

/// The four relations of a document, borrowed alongside the document itself.
#[derive(Debug)]
pub struct BlockGraph<'a> {
    doc: &'a ProjectDoc,
    parameter_edges: HashMap<BlockId, Vec<BlockId>>,
    read_list_edges: HashMap<BlockId, Vec<ListId>>,
    next_block_edges: HashMap<BlockId, Option<BlockId>>,
    parent_block_edges: HashMap<BlockId, Option<BlockId>>,
}

impl<'a> BlockGraph<'a> {
    /// The document that the graph was built from.
    pub closed spec fn document(&self) -> ProjectDoc {
        *self.doc
    }

    /// Blocks to the blocks they reference as inputs or nested expressions.
    pub closed spec fn params(&self) -> Map<BlockId, Seq<BlockId>> {
        seq_values(self.parameter_edges@)
    }

    /// Blocks to the lists they read as concatenations of their items.
    pub closed spec fn read_lists(&self) -> Map<BlockId, Seq<ListId>> {
        seq_values(self.read_list_edges@)
    }

    /// Every block to its successor, if any.
    pub closed spec fn nexts(&self) -> Map<BlockId, Option<BlockId>> {
        self.next_block_edges@
    }

    /// Every block to its parent, if any.
    pub closed spec fn parents(&self) -> Map<BlockId, Option<BlockId>> {
        self.parent_block_edges@
    }

    /// The relations are those of the document's blocks.
    #[verifier::type_invariant]
    closed spec fn wf(&self) -> bool {
        let bs = self.doc.blocks();
        &&& self.params() == param_relation(bs)
        &&& self.read_lists() == list_relation(bs)
        &&& self.nexts() == next_relation(bs)
        &&& self.parents() == parent_relation(bs)
    }

    /// The graph holds the document `doc` and the four relations of its blocks.
    pub open spec fn is_graph_of(&self, doc: ProjectDoc) -> bool {
        &&& self.document() == doc
        &&& self.params() == param_relation(doc.blocks())
        &&& self.read_lists() == list_relation(doc.blocks())
        &&& self.nexts() == next_relation(doc.blocks())
        &&& self.parents() == parent_relation(doc.blocks())
    }

    /// The relations of a document, built in one pass over its blocks. Block
    /// ids must be unique across the document (`ProjectDoc::has_unique_block_ids`
    /// tests it); under that condition no block's edges replace another's.
    pub fn new(doc: &'a ProjectDoc) -> (g: Self)
        requires
            doc.has_unique_ids(),
        ensures
            g.is_graph_of(*doc),
    {
        let mut parameter_edges: HashMap<BlockId, Vec<BlockId>> = HashMap::new();
        let mut read_list_edges: HashMap<BlockId, Vec<ListId>> = HashMap::new();
        let mut next_block_edges: HashMap<BlockId, Option<BlockId>> = HashMap::new();
        let mut parent_block_edges: HashMap<BlockId, Option<BlockId>> = HashMap::new();
        assert(seq_values(parameter_edges@) =~= Map::empty());
        assert(seq_values(read_list_edges@) =~= Map::empty());
        assert(doc.targets@.take(0) =~= Seq::<crate::model::Target>::empty());
        let mut t: usize = 0;
        while t < doc.targets.len()
            invariant
                0 <= t <= doc.targets@.len(),
                doc.has_unique_ids(),
                seq_values(parameter_edges@) == param_relation(blocks_of(doc.targets@.take(t as int))),
                seq_values(read_list_edges@) == list_relation(blocks_of(doc.targets@.take(t as int))),
                next_block_edges@ == next_relation(blocks_of(doc.targets@.take(t as int))),
                parent_block_edges@ == parent_relation(blocks_of(doc.targets@.take(t as int))),
            decreases doc.targets@.len() - t,
        {
            let blocks = &doc.targets[t].blocks;
            let ghost before = blocks_of(doc.targets@.take(t as int));
            assert(blocks@.take(0) =~= Seq::<Block>::empty());
            assert(before + blocks@.take(0) =~= before);
            let mut j: usize = 0;
            while j < blocks.len()
                invariant
                    0 <= j <= blocks@.len(),
                    t < doc.targets@.len(),
                    doc.has_unique_ids(),
                    blocks == &doc.targets@[t as int].blocks,
                    before == blocks_of(doc.targets@.take(t as int)),
                    seq_values(parameter_edges@) == param_relation(before + blocks@.take(j as int)),
                    seq_values(read_list_edges@) == list_relation(before + blocks@.take(j as int)),
                    next_block_edges@ == next_relation(before + blocks@.take(j as int)),
                    parent_block_edges@ == parent_relation(before + blocks@.take(j as int)),
                decreases blocks@.len() - j,
            {
                let ghost done = before + blocks@.take(j as int);
                proof {
                    lemma_relation_keys(done);
                    doc.lemma_prefix_of_blocks(t as int);
                    let all = doc.blocks();
                    assert(all[before.len() + j] == blocks@[j as int]);
                    let done_ids = done.map_values(|b: Block| b.id);
                    if done_ids.contains(blocks@[j as int].id) {
                        let k = choose|k: int|
                            0 <= k < done_ids.len() && #[trigger] done_ids[k] == blocks@[j as int].id;
                        if k < before.len() {
                            assert(all[k] == done[k]);
                        } else {
                            assert(done[k] == blocks@[k - before.len()]);
                            assert(all[k] == blocks@[k - before.len()]);
                        }
                        assert(all[k].id == all[before.len() + j].id);
                    }
                    let id = blocks@[j as int].id;
                    assert(!param_relation(done).contains_key(id));
                    assert(!list_relation(done).contains_key(id));
                    assert(!seq_values(parameter_edges@).contains_key(id));
                    assert(!seq_values(read_list_edges@).contains_key(id));
                    assert(!parameter_edges@.contains_key(id));
                    assert(!read_list_edges@.contains_key(id));
                }
                let added = add_edges_from_block(
                    &mut parameter_edges,
                    &mut read_list_edges,
                    &mut next_block_edges,
                    &mut parent_block_edges,
                    &blocks[j],
                );
                assert(added is Some);
                assert((before + blocks@.take(j + 1)).drop_last() =~= done);
                assert((before + blocks@.take(j + 1)).last() == blocks@[j as int]);
                j += 1;
            }
            proof {
                lemma_blocks_of_take(doc.targets@, t as int);
                assert(blocks@.take(j as int) =~= blocks@);
            }
            t += 1;
        }
        assert(doc.targets@.take(t as int) =~= doc.targets@);
        BlockGraph { doc, parameter_edges, read_list_edges, next_block_edges, parent_block_edges }
    }

    /// The document that the graph was built from.
    pub fn doc(&self) -> (r: &'a ProjectDoc)
        ensures
            *r == self.document(),
    {
        self.doc
    }

    /// Blocks to the blocks they reference as inputs or nested expressions.
    pub fn parameter_edges(&self) -> (r: &HashMap<BlockId, Vec<BlockId>>)
        ensures
            seq_values(r@) == self.params(),
    {
        &self.parameter_edges
    }

    /// Blocks to the lists they read as concatenations of their items.
    pub fn read_list_edges(&self) -> (r: &HashMap<BlockId, Vec<ListId>>)
        ensures
            seq_values(r@) == self.read_lists(),
    {
        &self.read_list_edges
    }

    /// Every block to its successor, if any.
    pub fn next_block_edges(&self) -> (r: &HashMap<BlockId, Option<BlockId>>)
        ensures
            r@ == self.nexts(),
    {
        &self.next_block_edges
    }

    /// Every block to its parent, if any.
    pub fn parent_block_edges(&self) -> (r: &HashMap<BlockId, Option<BlockId>>)
        ensures
            r@ == self.parents(),
    {
        &self.parent_block_edges
    }
}

/// Evidence that a document passed the check of its next and parameter
/// edges; only that check makes one.
#[derive(Debug, PartialEq)]
pub struct CycleFreeProjectDoc<'a> {
    doc: &'a ProjectDoc,
}

impl<'a> CycleFreeProjectDoc<'a> {
    /// The document that passed the check.
    pub closed spec fn document(&self) -> ProjectDoc {
        *self.doc
    }

    /// The document that passed the check.
    pub fn doc(&self) -> (r: &'a ProjectDoc)
        ensures
            *r == self.document(),
    {
        self.doc
    }
}

/// Why the next and parameter edges of a document are not a forest.
#[derive(Clone, Copy, Debug, PartialEq, Eq)]
pub enum CyclicBlockReferences {
    /// A traversal from the entry points arrived at this block a second time,
    /// like A -> B -> D -> B.
    BlockVisitedTwice(BlockId),
    /// Blocks that no entry point reaches, so that they point at each other in
    /// one or more cycles, like A -> B -> C -> A; the difference of the counts
    /// is how many blocks that is.
    CycleWithoutEntry { doc_block_count: usize, visited_count: usize },
    /// The traversal reached more blocks than the document holds: some edge
    /// points at a block that is not in the document.
    VisitedMoreThanInDoc,
}

impl<'a> BlockGraph<'a> {
    /// The document's blocks with their next and parameter relations.
    pub open spec fn structure(&self) -> RefStructure {
        RefStructure {
            ids: self.document().blocks().map_values(|b: Block| b.id),
            params: self.params(),
            next: self.nexts(),
        }
    }

    /// What the check returns: success where the blocks reachable from the
    /// entry points are each arrived at once and are as many as the
    /// document's blocks; otherwise the error that says which of these fails.
    pub open spec fn check_outcome(
        &self,
        r: Result<CycleFreeProjectDoc<'a>, CyclicBlockReferences>,
    ) -> bool {
        let s = self.structure();
        let n = self.document().blocks().len();
        match r {
            Ok(p) => p.document() == self.document() && exists|o: Seq<BlockId>|
                #[trigger] s.is_traversal(o) && o.len() == n,
            Err(CyclicBlockReferences::BlockVisitedTwice(x)) => s.reached_twice(x),
            Err(CyclicBlockReferences::CycleWithoutEntry { doc_block_count, visited_count }) => {
                &&& doc_block_count == n
                &&& visited_count < n
                &&& exists|o: Seq<BlockId>| #[trigger] s.is_traversal(o) && o.len() == visited_count
            },
            Err(CyclicBlockReferences::VisitedMoreThanInDoc) => exists|o: Seq<BlockId>|
                #[trigger] s.is_traversal(o) && o.len() > n,
        }
    }

    /// The blocks that some next or parameter edge points at.
    fn referenced_blocks(&self, ids: &Vec<BlockId>) -> (r: HashSet<BlockId>)
        requires
            ids@ == self.structure().ids,
        ensures
            forall|x: BlockId| r@.contains(x) <==> self.structure().is_referenced(x),
            r@.finite(),
    {
        proof {
            use_type_invariant(self);
            lemma_relation_keys(self.doc.blocks());
        }
        let ghost s = self.structure();
        let mut referenced: HashSet<BlockId> = HashSet::new();
        let mut i: usize = 0;
        while i < ids.len()
            invariant
                0 <= i <= ids@.len(),
                s == self.structure(),
                ids@ == s.ids,
                referenced@.finite(),
                forall|x: BlockId|
                    referenced@.contains(x) ==> exists|k: int|
                        0 <= k < i && #[trigger] s.successors(ids@[k]).contains(x),
                forall|k: int, y: BlockId|
                    0 <= k < i && #[trigger] s.successors(ids@[k]).contains(y)
                        ==> referenced@.contains(y),
            decreases ids@.len() - i,
        {
            let id = ids[i];
            let ghost succ = s.successors(id);
            match self.next_block_edges.get(&id) {
                Some(Some(n)) => {
                    referenced.insert(*n);
                },
                _ => {},
            }
            let ghost head = succ.len() - (if self.params().contains_key(id) {
                self.params()[id].len()
            } else {
                0
            });
            assert(forall|y: BlockId|
                referenced@.contains(y) ==> (exists|k: int|
                    0 <= k < i && #[trigger] s.successors(ids@[k]).contains(y)) || succ.contains(
                    y,
                )) by {
                if head == 1 {
                    assert(succ[0] == self.next_block_edges@[id]->Some_0);
                }
            }
            if let Some(ps) = self.parameter_edges.get(&id) {
                let mut k: usize = 0;
                while k < ps.len()
                    invariant
                        0 <= k <= ps@.len(),
                        0 <= i < ids@.len(),
                        referenced@.finite(),
                        id == ids@[i as int],
                        s == self.structure(),
                        ids@ == s.ids,
                        forall|k: int, y: BlockId|
                            0 <= k < i && #[trigger] s.successors(ids@[k]).contains(y)
                                ==> referenced@.contains(y),
                        ps@ == self.params()[id],
                        self.params().contains_key(id),
                        succ == s.successors(id),
                        head + ps@.len() == succ.len(),
                        forall|j: int| 0 <= j < head ==> referenced@.contains(#[trigger] succ[j]),
                        forall|j: int| 0 <= j < k ==> referenced@.contains(#[trigger] ps@[j]),
                        forall|y: BlockId|
                            referenced@.contains(y) ==> (exists|k: int|
                                0 <= k < i && #[trigger] s.successors(ids@[k]).contains(y))
                                || succ.contains(y),
                    decreases ps@.len() - k,
                {
                    referenced.insert(ps[k]);
                    assert(succ[head + k] == ps@[k as int]);
                    k += 1;
                }
                assert forall|j: int| 0 <= j < succ.len() implies referenced@.contains(
                    #[trigger] succ[j],
                ) by {
                    if j >= head {
                        assert(succ[j] == ps@[j - head]);
                    }
                }
            } else {
                assert forall|j: int| 0 <= j < succ.len() implies referenced@.contains(
                    #[trigger] succ[j],
                ) by {}
            }
            assert forall|x: BlockId| referenced@.contains(x) implies exists|k: int|
                0 <= k < i + 1 && #[trigger] s.successors(ids@[k]).contains(x) by {
                if succ.contains(x) {
                    assert(s.successors(ids@[i as int]).contains(x));
                }
            }
            i += 1;
        }
        assert forall|x: BlockId| s.is_referenced(x) implies referenced@.contains(x) by {
            let u = choose|u: BlockId| #[trigger] s.successors(u).contains(x);
            assert(s.params.contains_key(u) || s.next.contains_key(u));
            let k = choose|k: int| 0 <= k < ids@.len() && ids@[k] == u;
            assert(s.successors(ids@[k]).contains(x));
        }
        referenced
    }

    /// The entry points of the document: its blocks that no edge points at.
    fn entry_points(&self, ids: &Vec<BlockId>, referenced: &HashSet<BlockId>) -> (r: Vec<BlockId>)
        requires
            ids@ == self.structure().ids,
            forall|x: BlockId| referenced@.contains(x) <==> self.structure().is_referenced(x),
        ensures
            r@ == self.structure().entry_points(),
    {
        let ghost s = self.structure();
        let mut r: Vec<BlockId> = Vec::new();
        let mut i: usize = 0;
        assert(ids@.take(0) =~= Seq::<BlockId>::empty());
        while i < ids.len()
            invariant
                0 <= i <= ids@.len(),
                s == self.structure(),
                ids@ == s.ids,
                forall|x: BlockId| referenced@.contains(x) <==> s.is_referenced(x),
                r@ == ids@.take(i as int).filter(s.unreferenced()),
            decreases ids@.len() - i,
        {
            if !referenced.contains(&ids[i]) {
                r.push(ids[i]);
            }
            assert(ids@.take(i + 1) =~= ids@.take(i as int).push(ids@[i as int]));
            proof {
                ids@.take(i as int).lemma_filter_push(ids@[i as int], s.unreferenced());
            }
            assert((s.unreferenced())(ids@[i as int]) == !s.is_referenced(ids@[i as int]));
            i += 1;
        }
        assert(ids@.take(i as int) =~= ids@);
        r
    }

    /// Every block that reads a list as the concatenation of its items, with
    /// that list, once per recorded list reference: for each entry of the
    /// relation, the first block of the document with its id (the one
    /// `get_block` finds) with each list of the entry in order, entries in
    /// document order. The relation's keys are the document's own blocks, so
    /// no block lookup can fail here; list ids are resolved by
    /// `list_concatenation_advisories`.
    pub fn blocks_directly_reading_list_item_concatenation(&self) -> (r: Vec<(&'a Block, ListId)>)
        ensures
            r@.len() == concatenation_reads(self.document().blocks(), self.read_lists()).len(),
            forall|i: int|
                0 <= i < r@.len() ==> (*r@[i].0, r@[i].1) == concatenation_reads(
                    self.document().blocks(),
                    self.read_lists(),
                )[i],
    {
        let ghost m = self.read_lists();
        let doc: &'a ProjectDoc = self.doc;
        let mut r: Vec<(&'a Block, ListId)> = Vec::new();
        let mut seen: HashSet<BlockId> = HashSet::new();
        let mut t: usize = 0;
        assert(doc.targets@.take(0) =~= Seq::<crate::model::Target>::empty());
        while t < doc.targets.len()
            invariant
                0 <= t <= doc.targets@.len(),
                m == self.read_lists(),
                doc == self.doc,
                forall|x: BlockId|
                    seen@.contains(x) <==> has_id(blocks_of(doc.targets@.take(t as int)), x),
                r@.len() == concatenation_reads(blocks_of(doc.targets@.take(t as int)), m).len(),
                forall|i: int|
                    0 <= i < r@.len() ==> (*r@[i].0, r@[i].1) == concatenation_reads(
                        blocks_of(doc.targets@.take(t as int)),
                        m,
                    )[i],
            decreases doc.targets@.len() - t,
        {
            let blocks: &'a Vec<Block> = &doc.targets[t].blocks;
            let ghost before = blocks_of(doc.targets@.take(t as int));
            assert(blocks@.take(0) =~= Seq::<Block>::empty());
            assert(before + blocks@.take(0) =~= before);
            let mut j: usize = 0;
            while j < blocks.len()
                invariant
                    0 <= j <= blocks@.len(),
                    m == self.read_lists(),
                    forall|x: BlockId|
                        seen@.contains(x) <==> has_id(before + blocks@.take(j as int), x),
                    r@.len() == concatenation_reads(before + blocks@.take(j as int), m).len(),
                    forall|i: int|
                        0 <= i < r@.len() ==> (*r@[i].0, r@[i].1) == concatenation_reads(
                            before + blocks@.take(j as int),
                            m,
                        )[i],
                decreases blocks@.len() - j,
            {
                let block: &'a Block = &blocks[j];
                let ghost done = before + blocks@.take(j as int);
                let ghost start = r@.len();
                let ghost next_done = before + blocks@.take(j + 1);
                proof {
                    assert(next_done.drop_last() =~= done);
                    assert(next_done.last() == *block);
                    assert forall|x: BlockId| has_id(next_done, x) <==> (has_id(done, x) || x
                        == block.id) by {
                        if has_id(next_done, x) {
                            let k = choose|k: int| 0 <= k < next_done.len() && #[trigger] next_done[k].id == x;
                            if k < done.len() {
                                assert(done[k] == next_done[k]);
                            }
                        }
                        if has_id(done, x) {
                            let k = choose|k: int| 0 <= k < done.len() && #[trigger] done[k].id == x;
                            assert(next_done[k] == done[k]);
                        }
                        if x == block.id {
                            assert(next_done[done.len() as int].id == x);
                        }
                    }
                }
                let first = seen.insert(block.id);
                if !first {
                } else if let Some(lists) = self.read_list_edges.get(&block.id) {
                    let mut k: usize = 0;
                    while k < lists.len()
                        invariant
                            0 <= k <= lists@.len(),
                            m.contains_key(block.id),
                            lists@ == m[block.id],
                            r@.len() == start + k,
                            start == concatenation_reads(done, m).len(),
                            forall|i: int|
                                0 <= i < start ==> (*r@[i].0, r@[i].1) == concatenation_reads(
                                    done,
                                    m,
                                )[i],
                            forall|i: int|
                                0 <= i < k ==> (*r@[start + i].0, r@[start + i].1) == (
                                    *block,
                                    lists@[i],
                                ),
                        decreases lists@.len() - k,
                    {
                        r.push((block, lists[k]));
                        k += 1;
                    }
                }
                j += 1;
            }
            proof {
                lemma_blocks_of_take(doc.targets@, t as int);
                assert(blocks@.take(j as int) =~= blocks@);
            }
            t += 1;
        }
        assert(doc.targets@.take(t as int) =~= doc.targets@);
        r
    }

    /// For each block that reads a list as a concatenation of its items, and
    /// each such list: the block's opcode and the list's name, or, where no
    /// list of the document has the id, an error for that pair alone.
    pub fn list_concatenation_advisories(&self) -> (r: Vec<
        Result<(&'a String, &'a String), NoValidListForId>,
    >)
        ensures
            r@.len() == concatenation_reads(self.document().blocks(), self.read_lists()).len(),
            forall|i: int|
                0 <= i < r@.len() ==> advisory_for(
                    self.document(),
                    concatenation_reads(self.document().blocks(), self.read_lists())[i],
                    r@[i],
                ),
    {
        let reads = self.blocks_directly_reading_list_item_concatenation();
        let ghost expected = concatenation_reads(self.document().blocks(), self.read_lists());
        let doc: &'a ProjectDoc = self.doc;
        let mut r: Vec<Result<(&'a String, &'a String), NoValidListForId>> = Vec::new();
        let mut i: usize = 0;
        while i < reads.len()
            invariant
                0 <= i <= reads@.len(),
                doc == self.doc,
                reads@.len() == expected.len(),
                forall|k: int| 0 <= k < reads@.len() ==> (*reads@[k].0, reads@[k].1) == expected[k],
                r@.len() == i,
                forall|k: int| 0 <= k < i ==> advisory_for(*doc, expected[k], r@[k]),
            decreases reads@.len() - i,
        {
            let (block, list_id) = reads[i];
            let item = match doc.get_list(list_id) {
                Ok(list) => Ok((&block.opcode, &list.name)),
                Err(e) => Err(e),
            };
            r.push(item);
            i += 1;
        }
        r
    }

    /// Checks that the next and parameter edges form a forest whose roots are
    /// the entry points: a stack traversal from the entry points arrives at
    /// no block twice and reaches every block of the document.
    pub fn check_no_cycles_in_next_or_param_edges(&self) -> (r: Result<
        CycleFreeProjectDoc<'a>,
        CyclicBlockReferences,
    >)
        ensures
            self.check_outcome(r),
    {
        let ghost s = self.structure();
        let ids = self.doc.block_ids();
        let referenced = self.referenced_blocks(&ids);
        let mut stack = self.entry_points(&ids, &referenced);
        let mut visited: HashSet<BlockId> = HashSet::new();
        let ghost mut order: Seq<BlockId> = seq![];
        let ghost universe = ids@.to_set().union(referenced@);
        proof {
            vstd::seq_lib::seq_to_set_is_finite(ids@);
            assert(s.entry_points() + s.refs_of(order) =~= stack@ + order);
            assert forall|j: int| 0 <= j < stack@.len() implies s.reachable(stack@[j]) by {
                s.lemma_entry_reachable(stack@[j]);
            }
            assert(order.to_set() =~= Set::empty());
        }
        while stack.len() > 0
            invariant
                s == self.structure(),
                forall|x: BlockId| referenced@.contains(x) <==> s.is_referenced(x),
                universe == ids@.to_set().union(referenced@),
                universe.finite(),
                ids@ == s.ids,
                visited@ == order.to_set(),
                order.no_duplicates(),
                s.arrivals(order) == (stack@ + order).to_multiset(),
                forall|j: int| 0 <= j < stack@.len() ==> s.reachable(stack@[j]),
                forall|j: int| 0 <= j < order.len() ==> s.reachable(order[j]),
                order.len() <= universe.len(),
            decreases universe.len() - order.len(),
        {
            let ghost before = stack@;
            let block = stack.pop().unwrap();
            let ghost rest = stack@;
            proof {
                assert(before =~= rest.push(block));
                assert(s.reachable(block)) by {
                    assert(before[rest.len() as int] == block);
                }
            }
            if !visited.insert(block) {
                proof {
                    vstd::seq_lib::lemma_multiset_commutative(before, order);
                    assert(before[rest.len() as int] == block);
                    vstd::seq_lib::to_multiset_contains(before, block);
                    assert(order.to_set().contains(block));
                    vstd::seq_lib::to_multiset_contains(order, block);
                    assert(s.arrivals(order).count(block) >= 2);
                    assert(s.reached_twice(block));
                }
                return Err(CyclicBlockReferences::BlockVisitedTwice(block));
            }
            let ghost prev = order;
            proof {
                s.lemma_arrivals_push(order, block);
                order = order.push(block);
            }
            match self.next_block_edges.get(&block) {
                Some(Some(n)) => {
                    stack.push(*n);
                },
                _ => {},
            }
            let ghost mid = stack@;
            proof {
                use_type_invariant(self);
                assert(mid =~= rest + s.successors(block).take(mid.len() - rest.len()));
            }
            if let Some(ps) = self.parameter_edges.get(&block) {
                let mut k: usize = 0;
                assert(mid + ps@.take(0) =~= mid);
                while k < ps.len()
                    invariant
                        0 <= k <= ps@.len(),
                        stack@ == mid + ps@.take(k as int),
                    decreases ps@.len() - k,
                {
                    stack.push(ps[k]);
                    assert(mid + ps@.take(k + 1) =~= stack@);
                    k += 1;
                }
                assert(ps@.take(k as int) =~= ps@);
                assert(s.params.contains_key(block) && s.params[block] == ps@);
            }
            proof {
                assert(stack@ =~= rest + s.successors(block));
                let succ = s.successors(block);
                vstd::seq_lib::lemma_multiset_commutative(before, prev);
                vstd::seq_lib::lemma_multiset_commutative(stack@, order);
                vstd::seq_lib::lemma_multiset_commutative(rest, succ);
                rest.to_multiset_ensures();
                prev.to_multiset_ensures();
                assert(before.to_multiset() =~= rest.to_multiset().insert(block));
                assert(order.to_multiset() =~= prev.to_multiset().insert(block));
                assert(s.arrivals(order) =~= (stack@ + order).to_multiset());
                assert forall|j: int| 0 <= j < stack@.len() implies s.reachable(stack@[j]) by {
                    if j >= rest.len() {
                        assert(s.successors(block)[j - rest.len()] == stack@[j]);
                        s.lemma_reach_step(block, stack@[j]);
                    }
                }
                assert(order.to_set() =~= prev.to_set().insert(block));
                assert forall|x: BlockId| order.to_set().contains(x) implies universe.contains(x) by {
                    let j = choose|j: int| 0 <= j < order.len() && order[j] == x;
                    s.lemma_reachable_known(x);
                }
                order.unique_seq_to_set();
                vstd::set_lib::lemma_len_subset(order.to_set(), universe);
            }
        }
        proof {
            assert(stack@ + order =~= order);
            assert forall|e: BlockId| s.entry_points().contains(e) implies order.contains(e) by {
                vstd::seq_lib::lemma_multiset_commutative(s.entry_points(), s.refs_of(order));
                vstd::seq_lib::to_multiset_contains(s.entry_points(), e);
                vstd::seq_lib::to_multiset_contains(order, e);
            }
            assert forall|u: BlockId, y: BlockId|
                order.contains(u) && #[trigger] s.successors(u).contains(y) implies order.contains(y) by {
                let j = choose|j: int| 0 <= j < order.len() && order[j] == u;
                s.lemma_refs_of_contains(order, j, y);
                vstd::seq_lib::lemma_multiset_commutative(s.entry_points(), s.refs_of(order));
                vstd::seq_lib::to_multiset_contains(s.refs_of(order), y);
                vstd::seq_lib::to_multiset_contains(order, y);
            }
            assert forall|x: BlockId| #[trigger] order.contains(x) <==> s.reachable(x) by {
                if s.reachable(x) {
                    s.lemma_closed_holds_reachable(order, x);
                }
            }
            assert(s.is_traversal(order));
            order.unique_seq_to_set();
        }
        let doc_block_count = ids.len();
        let visited_count = visited.len();
        if doc_block_count == visited_count {
            Ok(CycleFreeProjectDoc { doc: self.doc })
        } else if doc_block_count < visited_count {
            Err(CyclicBlockReferences::VisitedMoreThanInDoc)
        } else {
            Err(CyclicBlockReferences::CycleWithoutEntry { doc_block_count, visited_count })
        }
    }
}

/// Some block of `bs` has id `id`.
pub open spec fn has_id(bs: Seq<Block>, id: BlockId) -> bool {
    exists|k: int| 0 <= k < bs.len() && #[trigger] bs[k].id == id
}

/// The pairs of a block and a list that it reads as a concatenation: for each
/// entry of `m`, the first block of `bs` with its id, with each list of the
/// entry in order; entries in the order of those blocks in `bs`.
pub open spec fn concatenation_reads(bs: Seq<Block>, m: Map<BlockId, Seq<ListId>>) -> Seq<
    (Block, ListId),
>
    decreases bs.len(),
{
    if bs.len() == 0 {
        seq![]
    } else if has_id(bs.drop_last(), bs.last().id) {
        concatenation_reads(bs.drop_last(), m)
    } else {
        concatenation_reads(bs.drop_last(), m) + reads_of(bs.last(), m)
    }
}

/// The pairs of `b` and each list of its entry in `m`, if it has one.
pub open spec fn reads_of(b: Block, m: Map<BlockId, Seq<ListId>>) -> Seq<(Block, ListId)> {
    if m.contains_key(b.id) {
        m[b.id].map_values(|l: ListId| (b, l))
    } else {
        seq![]
    }
}

/// What the advisory on one reading pair says: the reading block's opcode and
/// the list's name, or that no list has the id.
pub open spec fn advisory_for(
    doc: ProjectDoc,
    read: (Block, ListId),
    a: Result<(&String, &String), NoValidListForId>,
) -> bool {
    match a {
        Ok((opcode, name)) => {
            &&& *opcode == read.0.opcode
            &&& exists|i: int| first_list_at(doc.lists(), read.1, i) && *name == doc.lists()[i].name
        },
        Err(e) => {
            &&& e.id == read.1
            &&& forall|k: int| 0 <= k < doc.lists().len() ==> doc.lists()[k].id != read.1
        },
    }
}

} // verus!
