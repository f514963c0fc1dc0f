//! What holds of the graph and of the check across calls and inputs.
use crate::block_graph::{
    advisory_for, concatenation_reads, has_id, reads_of, BlockGraph, CycleFreeProjectDoc,
    CyclicBlockReferences,
};
use crate::graph_construction::{
    block_list_refs, block_param_refs, lemma_relation_keys, list_relation, next_relation,
    param_relation, parent_relation,
};
use crate::model::{first_list_at, Block, BlockId, ListId, ProjectDoc};
use vstd::prelude::*;

verus! {

broadcast use vstd::seq_lib::group_seq_properties;

/// No two blocks of `bs` share an id.
pub open spec fn unique_ids(bs: Seq<Block>) -> bool {
    forall|i: int, j: int| 0 <= i < j < bs.len() ==> bs[i].id != bs[j].id
}

/// Each block of `bs` paired with each list it reads as a concatenation, in order.
pub open spec fn own_reads(bs: Seq<Block>) -> Seq<(Block, ListId)>
    decreases bs.len(),
{
    if bs.len() == 0 {
        seq![]
    } else {
        own_reads(bs.drop_last()) + block_list_refs(bs.last()).map_values(
            |l: ListId| (bs.last(), l),
        )
    }
}

/// How many list reads the blocks of `bs` have in all.
pub open spec fn total_list_reads(bs: Seq<Block>) -> nat
    decreases bs.len(),
{
    if bs.len() == 0 {
        0
    } else {
        total_list_reads(bs.drop_last()) + block_list_refs(bs.last()).len()
    }
}

/// Where ids are unique, each block's own entries in the four relations are
/// what the block itself says: its successor, its parent, and its block and
/// list references where it has any.
pub proof fn lemma_relations_at(bs: Seq<Block>, i: int)
    requires
        unique_ids(bs),
        0 <= i < bs.len(),
    ensures
        next_relation(bs).contains_key(bs[i].id),
        next_relation(bs)[bs[i].id] == bs[i].next,
        parent_relation(bs).contains_key(bs[i].id),
        parent_relation(bs)[bs[i].id] == bs[i].parent,
        param_relation(bs).contains_key(bs[i].id) <==> block_param_refs(bs[i]).len() > 0,
        param_relation(bs).contains_key(bs[i].id) ==> param_relation(bs)[bs[i].id]
            == block_param_refs(bs[i]),
        list_relation(bs).contains_key(bs[i].id) <==> block_list_refs(bs[i]).len() > 0,
        list_relation(bs).contains_key(bs[i].id) ==> list_relation(bs)[bs[i].id]
            == block_list_refs(bs[i]),
    decreases bs.len(),
{
    let rest = bs.drop_last();
    if i == bs.len() - 1 {
        lemma_no_key_before(rest, bs.last().id);
    } else {
        assert(rest[i] == bs[i]);
        lemma_relations_at(rest, i);
        assert(bs.last().id != bs[i].id);
    }
}

/// A block id that none of `bs` has has no entry in the sparse relations of `bs`.
proof fn lemma_no_key_before(bs: Seq<Block>, id: BlockId)
    requires
        forall|k: int| 0 <= k < bs.len() ==> bs[k].id != id,
    ensures
        !param_relation(bs).contains_key(id),
        !list_relation(bs).contains_key(id),
    decreases bs.len(),
{
    if bs.len() > 0 {
        let rest = bs.drop_last();
        assert forall|k: int| 0 <= k < rest.len() implies rest[k].id != id by {
            assert(rest[k] == bs[k]);
        }
        lemma_no_key_before(rest, id);
    }
}

/// Building the graph of a document twice gives equal relations.
pub proof fn lemma_construction_is_deterministic<'a>(
    doc: ProjectDoc,
    g1: BlockGraph<'a>,
    g2: BlockGraph<'a>,
)
    requires
        g1.is_graph_of(doc),
        g2.is_graph_of(doc),
    ensures
        g1.params() == g2.params(),
        g1.read_lists() == g2.read_lists(),
        g1.nexts() == g2.nexts(),
        g1.parents() == g2.parents(),
{
}

/// A block with no block or list references and no successor or parent has
/// only empty entries in the successor and parent relations, and none in the
/// other two.
pub proof fn lemma_quiet_block<'a>(doc: ProjectDoc, g: BlockGraph<'a>, i: int)
    requires
        g.is_graph_of(doc),
        doc.has_unique_ids(),
        0 <= i < doc.blocks().len(),
        block_param_refs(doc.blocks()[i]).len() == 0,
        block_list_refs(doc.blocks()[i]).len() == 0,
        doc.blocks()[i].next is None,
        doc.blocks()[i].parent is None,
    ensures
        g.nexts().contains_key(doc.blocks()[i].id),
        g.nexts()[doc.blocks()[i].id] is None,
        g.parents().contains_key(doc.blocks()[i].id),
        g.parents()[doc.blocks()[i].id] is None,
        !g.params().contains_key(doc.blocks()[i].id),
        !g.read_lists().contains_key(doc.blocks()[i].id),
{
    lemma_relations_at(doc.blocks(), i);
}

/// Where ids are unique, the reading pairs are each block with each list it
/// reads, in document order and in each block's own order, and there are as
/// many as the list reads of all blocks together.
pub proof fn lemma_reads_are_one_per_reference<'a>(doc: ProjectDoc, g: BlockGraph<'a>)
    requires
        g.is_graph_of(doc),
        doc.has_unique_ids(),
    ensures
        concatenation_reads(doc.blocks(), g.read_lists()) == own_reads(doc.blocks()),
        concatenation_reads(doc.blocks(), g.read_lists()).len() == total_list_reads(
            doc.blocks(),
        ),
{
    let bs = doc.blocks();
    let m = g.read_lists();
    assert forall|k: int| 0 <= k < bs.len() implies reads_of(bs[k], m)
        == block_list_refs(bs[k]).map_values(|l: ListId| (bs[k], l)) by {
        lemma_relations_at(bs, k);
        if !m.contains_key(bs[k].id) {
            assert(block_list_refs(bs[k]).map_values(|l: ListId| (bs[k], l)) =~= seq![]);
        }
    }
    lemma_reads_prefix(bs, m, bs.len() as int);
    assert(bs.take(bs.len() as int) =~= bs);
    lemma_own_reads_len(bs);
}

proof fn lemma_reads_prefix(bs: Seq<Block>, m: Map<BlockId, Seq<ListId>>, n: int)
    requires
        0 <= n <= bs.len(),
        unique_ids(bs),
        forall|k: int|
            0 <= k < bs.len() ==> reads_of(bs[k], m) == block_list_refs(bs[k]).map_values(
                |l: ListId| (bs[k], l),
            ),
    ensures
        concatenation_reads(bs.take(n), m) == own_reads(bs.take(n)),
    decreases n,
{
    if n > 0 {
        lemma_reads_prefix(bs, m, n - 1);
        assert(bs.take(n).drop_last() =~= bs.take(n - 1));
        assert(bs.take(n).last() == bs[n - 1]);
        if has_id(bs.take(n - 1), bs[n - 1].id) {
            let k = choose|k: int| 0 <= k < n - 1 && #[trigger] bs.take(n - 1)[k].id == bs[n - 1].id;
            assert(bs[k].id == bs[n - 1].id);
        }
    }
}

proof fn lemma_own_reads_len(bs: Seq<Block>)
    ensures
        own_reads(bs).len() == total_list_reads(bs),
    decreases bs.len(),
{
    if bs.len() > 0 {
        lemma_own_reads_len(bs.drop_last());
    }
}

/// A document without blocks passes the check: no other outcome meets its
/// contract.
pub proof fn lemma_empty_document_passes<'a>(
    g: BlockGraph<'a>,
    r: Result<CycleFreeProjectDoc<'a>, CyclicBlockReferences>,
)
    requires
        g.document().blocks().len() == 0,
        g.check_outcome(r),
    ensures
        r is Ok,
{
    let s = g.structure();
    assert(s.ids =~= Seq::<BlockId>::empty());
    reveal(Seq::filter);
    assert(s.entry_points() =~= Seq::<BlockId>::empty());
    assert forall|x: BlockId| !s.reachable(x) by {
        if s.reachable(x) {
            let p = choose|p: Seq<BlockId>| #[trigger] s.is_path(p) && p.last() == x;
            assert(s.entry_points().contains(p[0]));
        }
    }
    match r {
        Ok(_) => {},
        Err(CyclicBlockReferences::BlockVisitedTwice(x)) => {
            let w = choose|w: Seq<BlockId>|
                #![trigger s.arrivals(w)]
                w.no_duplicates() && (forall|i: int| 0 <= i < w.len() ==> s.reachable(w[i]))
                    && s.arrivals(w).count(x) >= 2;
            if w.len() > 0 {
                assert(s.reachable(w[0]));
            }
            assert(w =~= Seq::<BlockId>::empty());
            assert(s.entry_points() + s.refs_of(w) =~= Seq::<BlockId>::empty());
        },
        Err(CyclicBlockReferences::CycleWithoutEntry { .. }) => {},
        Err(CyclicBlockReferences::VisitedMoreThanInDoc) => {
            let o = choose|o: Seq<BlockId>| #[trigger] s.is_traversal(o) && o.len() > 0;
            assert(o.contains(o[0]));
        },
    }
}

/// The contract of the check leaves one outcome for a graph: two results
/// that meet it are both successes, both name a block reached twice, or are
/// the same error.
pub proof fn lemma_check_outcome_is_determined<'a>(
    g: BlockGraph<'a>,
    r1: Result<CycleFreeProjectDoc<'a>, CyclicBlockReferences>,
    r2: Result<CycleFreeProjectDoc<'a>, CyclicBlockReferences>,
)
    requires
        g.check_outcome(r1),
        g.check_outcome(r2),
    ensures
        r1 is Ok <==> r2 is Ok,
        r1 matches Err(CyclicBlockReferences::BlockVisitedTwice(_)) <==> r2 matches Err(
            CyclicBlockReferences::BlockVisitedTwice(_),
        ),
        r1 is Err && !(r1 matches Err(CyclicBlockReferences::BlockVisitedTwice(_))) ==> r1 == r2,
{
    let s = g.structure();
    let n = g.document().blocks().len();
    let twice1 = r1 matches Err(CyclicBlockReferences::BlockVisitedTwice(_));
    let twice2 = r2 matches Err(CyclicBlockReferences::BlockVisitedTwice(_));
    if !twice1 && !twice2 {
        let o1 = traversal_of(g, r1);
        let o2 = traversal_of(g, r2);
        s.lemma_traversals_agree(o1, o2);
    } else if twice1 && !twice2 {
        let o2 = traversal_of(g, r2);
        if let Err(CyclicBlockReferences::BlockVisitedTwice(x)) = r1 {
            s.lemma_traversal_excludes_reached_twice(o2, x);
        }
    } else if !twice1 && twice2 {
        let o1 = traversal_of(g, r1);
        if let Err(CyclicBlockReferences::BlockVisitedTwice(x)) = r2 {
            s.lemma_traversal_excludes_reached_twice(o1, x);
        }
    }
}

/// A document whose next and parameter edges form a forest passes the check,
/// and its traversal counts all of its blocks: no other outcome meets the
/// check's contract.
pub proof fn lemma_forest_passes<'a>(
    g: BlockGraph<'a>,
    r: Result<CycleFreeProjectDoc<'a>, CyclicBlockReferences>,
)
    requires
        g.is_graph_of(g.document()),
        g.structure().is_forest(),
        g.check_outcome(r),
    ensures
        r is Ok,
        g.structure().is_traversal(g.structure().ids),
        g.structure().ids.len() == g.document().blocks().len(),
{
    let s = g.structure();
    let bs = g.document().blocks();
    lemma_relation_keys(bs);
    assert(s.keys_in_ids());
    s.lemma_forest_traversal();
    if r matches Err(CyclicBlockReferences::BlockVisitedTwice(_)) {
        if let Err(CyclicBlockReferences::BlockVisitedTwice(x)) = r {
            s.lemma_traversal_excludes_reached_twice(s.ids, x);
        }
    } else {
        let o = traversal_of(g, r);
        s.lemma_traversals_agree(o, s.ids);
    }
}

/// An advisory is an error exactly when its list id names no list of the
/// document; whether it is depends on its own pair alone.
pub proof fn lemma_advisory_fails_only_on_dangling_list(
    doc: ProjectDoc,
    read: (Block, ListId),
    a: Result<(&String, &String), crate::model::NoValidListForId>,
)
    requires
        advisory_for(doc, read, a),
    ensures
        a is Err <==> forall|k: int| 0 <= k < doc.lists().len() ==> doc.lists()[k].id != read.1,
{
    if a is Ok {
        let i = choose|i: int| first_list_at(doc.lists(), read.1, i) && #[trigger] doc.lists()[i].name
            == doc.lists()[i].name;
        assert(doc.lists()[i].id == read.1);
    }
}

/// Where ids are unique and the check reports blocks without an entry point,
/// some block of the document is reached from no entry point, every such
/// block is pointed at by an edge, and such blocks lie on a cycle.
pub proof fn lemma_rootless_blocks_form_cycle<'a>(
    g: BlockGraph<'a>,
    r: Result<CycleFreeProjectDoc<'a>, CyclicBlockReferences>,
)
    requires
        g.is_graph_of(g.document()),
        g.document().has_unique_ids(),
        g.check_outcome(r),
        r matches Err(CyclicBlockReferences::CycleWithoutEntry { .. }),
    ensures
        exists|x: BlockId| g.structure().ids.contains(x) && !g.structure().reachable(x),
        forall|x: BlockId|
            g.structure().ids.contains(x) && !g.structure().reachable(x)
                ==> g.structure().is_referenced(x),
        exists|p: Seq<BlockId>|
            #[trigger] g.structure().is_cycle(p) && forall|i: int|
                0 <= i < p.len() ==> !g.structure().reachable(p[i]),
{
    let s = g.structure();
    let bs = g.document().blocks();
    lemma_relation_keys(bs);
    assert(s.keys_in_ids());
    let o = traversal_of(g, r);
    assert(s.ids.no_duplicates()) by {
        assert forall|i: int, j: int| 0 <= i < s.ids.len() && 0 <= j < s.ids.len() && i != j
            implies s.ids[i] != s.ids[j] by {
            if i < j {
                assert(bs[i].id != bs[j].id);
            } else {
                assert(bs[j].id != bs[i].id);
            }
        }
    }
    if forall|x: BlockId| s.ids.contains(x) ==> s.reachable(x) {
        assert(s.ids.to_set().subset_of(o.to_set()));
        s.ids.unique_seq_to_set();
        o.unique_seq_to_set();
        vstd::set_lib::lemma_len_subset(s.ids.to_set(), o.to_set());
    }
    let x = choose|x: BlockId| s.ids.contains(x) && !s.reachable(x);
    assert forall|y: BlockId| s.ids.contains(y) && !s.reachable(y) implies s.is_referenced(y) by {
        s.lemma_unreached_is_referenced(y);
    }
    s.lemma_unreached_chain_cycles(seq![x]);
}

/// The traversal that an outcome other than a block reached twice speaks of,
/// with its length.
proof fn traversal_of<'a>(
    g: BlockGraph<'a>,
    r: Result<CycleFreeProjectDoc<'a>, CyclicBlockReferences>,
) -> (o: Seq<BlockId>)
    requires
        g.check_outcome(r),
        !(r matches Err(CyclicBlockReferences::BlockVisitedTwice(_))),
    ensures
        g.structure().is_traversal(o),
        r is Ok ==> o.len() == g.document().blocks().len(),
        r matches Err(CyclicBlockReferences::VisitedMoreThanInDoc) ==> o.len()
            > g.document().blocks().len(),
        (r matches Err(CyclicBlockReferences::CycleWithoutEntry { .. })) ==> o.len()
            < g.document().blocks().len() && r == Err::<CycleFreeProjectDoc<'a>, CyclicBlockReferences>(
            CyclicBlockReferences::CycleWithoutEntry {
                doc_block_count: g.document().blocks().len() as usize,
                visited_count: o.len() as usize,
            },
        ),
{
    let s = g.structure();
    let n = g.document().blocks().len();
    match r {
        Ok(_) => choose|o: Seq<BlockId>| #[trigger] s.is_traversal(o) && o.len() == n,
        Err(CyclicBlockReferences::CycleWithoutEntry { doc_block_count, visited_count }) => {
            choose|o: Seq<BlockId>| #[trigger] s.is_traversal(o) && o.len() == visited_count
        },
        Err(_) => choose|o: Seq<BlockId>| #[trigger] s.is_traversal(o) && o.len() > n,
    }
}

} // verus!
