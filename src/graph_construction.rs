//! Outgoing references of one block: the attribute visitor, shape by shape,
//! and the edge extractor that records them in the four relations.
use crate::model::{Attribute, Block, BlockId, Choice, Expression, ListId};
use std::collections::HashMap;
use vstd::prelude::*;

verus! {

broadcast use vstd::std_specs::hash::group_hash_axioms;

/// The blocks that an expression references: a nested block, or nothing.
pub open spec fn expr_block_refs(e: Expression) -> Seq<BlockId> {
    match e {
        Expression::Blo(b) => seq![b],
        _ => seq![],
    }
}

/// The lists that an expression reads as a concatenation of their items.
pub open spec fn expr_list_refs(e: Expression) -> Seq<ListId> {
    match e {
        Expression::Lis(l) => seq![l],
        _ => seq![],
    }
}

/// The block references of the present expressions of an argument table, in order.
pub open spec fn args_block_refs(args: Seq<(String, Option<Expression>)>) -> Seq<BlockId>
    decreases args.len(),
{
    if args.len() == 0 {
        seq![]
    } else {
        args_block_refs(args.drop_last()) + match args.last().1 {
            Some(e) => expr_block_refs(e),
            None => seq![],
        }
    }
}

/// The list references of the present expressions of an argument table, in order.
pub open spec fn args_list_refs(args: Seq<(String, Option<Expression>)>) -> Seq<ListId>
    decreases args.len(),
{
    if args.len() == 0 {
        seq![]
    } else {
        args_list_refs(args.drop_last()) + match args.last().1 {
            Some(e) => expr_list_refs(e),
            None => seq![],
        }
    }
}

/// The blocks that an attribute references, in order.
pub open spec fn attr_block_refs(a: Attribute) -> Seq<BlockId>
    decreases a,
{
    match a {
        Attribute::Block(b) => seq![b],
        Attribute::OptionalBlock(Some(b)) => seq![b],
        Attribute::ProcedureArguments(args) => args_block_refs(args@),
        Attribute::OneOf(c) => match *c {
            Choice::Value(v) => attr_block_refs(v),
            Choice::ExprRef(e) => expr_block_refs(e),
        },
        Attribute::Expr(e) => expr_block_refs(e),
        _ => seq![],
    }
}

/// The lists that an attribute reads as a concatenation of their items, in order.
pub open spec fn attr_list_refs(a: Attribute) -> Seq<ListId>
    decreases a,
{
    match a {
        Attribute::ProcedureArguments(args) => args_list_refs(args@),
        Attribute::OneOf(c) => match *c {
            Choice::Value(v) => attr_list_refs(v),
            Choice::ExprRef(e) => expr_list_refs(e),
        },
        Attribute::Expr(e) => expr_list_refs(e),
        _ => seq![],
    }
}

/// The block references of a sequence of attributes, attribute after attribute.
pub open spec fn attrs_block_refs(attrs: Seq<Attribute>) -> Seq<BlockId>
    decreases attrs.len(),
{
    if attrs.len() == 0 {
        seq![]
    } else {
        attrs_block_refs(attrs.drop_last()) + attr_block_refs(attrs.last())
    }
}

/// The list references of a sequence of attributes, attribute after attribute.
pub open spec fn attrs_list_refs(attrs: Seq<Attribute>) -> Seq<ListId>
    decreases attrs.len(),
{
    if attrs.len() == 0 {
        seq![]
    } else {
        attrs_list_refs(attrs.drop_last()) + attr_list_refs(attrs.last())
    }
}

/// The blocks that a block references as inputs or nested expressions.
pub open spec fn block_param_refs(b: Block) -> Seq<BlockId> {
    attrs_block_refs(b.attrs@)
}

/// The lists that a block reads as a concatenation of their items.
pub open spec fn block_list_refs(b: Block) -> Seq<ListId> {
    attrs_list_refs(b.attrs@)
}

/// A direct block reference: its id.
fn visit_ref_block(id: BlockId, blocks: &mut Vec<BlockId>)
    ensures
        final(blocks)@ == old(blocks)@.push(id),
{
    blocks.push(id);
}

/// An optional block reference: its id if present.
fn visit_optional_block(id: Option<BlockId>, blocks: &mut Vec<BlockId>)
    ensures
        final(blocks)@ == old(blocks)@ + attr_block_refs(Attribute::OptionalBlock(id)),
{
    if let Some(id) = id {
        visit_ref_block(id, blocks);
    }
}

/// An expression: a nested block or a list read; variables and literals are inert.
fn visit_expression(e: &Expression, blocks: &mut Vec<BlockId>, lists: &mut Vec<ListId>)
    ensures
        final(blocks)@ == old(blocks)@ + expr_block_refs(*e),
        final(lists)@ == old(lists)@ + expr_list_refs(*e),
{
    match e {
        Expression::Blo(block) => visit_ref_block(*block, blocks),
        Expression::Var(_) => {},
        Expression::Lit(_) => {},
        Expression::Lis(list) => {
            lists.push(*list);
        },
    }
    assert(old(blocks)@ + expr_block_refs(*e) =~= final(blocks)@);
    assert(old(lists)@ + expr_list_refs(*e) =~= final(lists)@);
}

/// A procedure-argument table: every present expression, in table order.
fn visit_procedure_arguments(
    args: &Vec<(String, Option<Expression>)>,
    blocks: &mut Vec<BlockId>,
    lists: &mut Vec<ListId>,
)
    ensures
        final(blocks)@ == old(blocks)@ + args_block_refs(args@),
        final(lists)@ == old(lists)@ + args_list_refs(args@),
{
    let mut i: usize = 0;
    assert(args@.take(0) =~= Seq::<(String, Option<Expression>)>::empty());
    assert(old(blocks)@ + args_block_refs(args@.take(0)) =~= blocks@);
    assert(old(lists)@ + args_list_refs(args@.take(0)) =~= lists@);
    while i < args.len()
        invariant
            0 <= i <= args@.len(),
            blocks@ == old(blocks)@ + args_block_refs(args@.take(i as int)),
            lists@ == old(lists)@ + args_list_refs(args@.take(i as int)),
        decreases args@.len() - i,
    {
        if let Some(e) = &args[i].1 {
            visit_expression(e, blocks, lists);
        }
        assert(args@.take(i + 1).drop_last() =~= args@.take(i as int));
        assert(blocks@ =~= old(blocks)@ + args_block_refs(args@.take(i + 1)));
        assert(lists@ =~= old(lists)@ + args_list_refs(args@.take(i + 1)));
        i += 1;
    }
    assert(args@.take(i as int) =~= args@);
}

/// A choice: whichever arm is present.
fn visit_choice(c: &Choice, blocks: &mut Vec<BlockId>, lists: &mut Vec<ListId>)
    ensures
        final(blocks)@ == old(blocks)@ + attr_block_refs(Attribute::OneOf(Box::new(*c))),
        final(lists)@ == old(lists)@ + attr_list_refs(Attribute::OneOf(Box::new(*c))),
    decreases c, 0nat,
{
    match c {
        Choice::Value(v) => visit_attribute(v, blocks, lists),
        Choice::ExprRef(e) => visit_expression(e, blocks, lists),
    }
}

/// Appends the outgoing references of one attribute, whatever its shape:
/// block references to `blocks`, lists read as concatenations to `lists`.
pub fn visit_attribute(a: &Attribute, blocks: &mut Vec<BlockId>, lists: &mut Vec<ListId>)
    ensures
        final(blocks)@ == old(blocks)@ + attr_block_refs(*a),
        final(lists)@ == old(lists)@ + attr_list_refs(*a),
    decreases a, 1nat,
{
    match a {
        Attribute::Block(b) => visit_ref_block(*b, blocks),
        Attribute::OptionalBlock(b) => visit_optional_block(*b, blocks),
        Attribute::ProcedureArguments(args) => visit_procedure_arguments(args, blocks, lists),
        Attribute::OneOf(c) => visit_choice(c, blocks, lists),
        Attribute::Expr(e) => visit_expression(e, blocks, lists),
        Attribute::Color(_) | Attribute::Dropdown(_) | Attribute::Menu(_) | Attribute::ListField(_)
        | Attribute::VariableField(_) | Attribute::Broadcast(_) | Attribute::Procedure(_)
        | Attribute::Flag(_) | Attribute::ArgumentReporterName(_) | Attribute::ArgumentDefs(_)
        | Attribute::Text(_) => {},
    }
    assert(old(blocks)@ + attr_block_refs(*a) =~= final(blocks)@);
    assert(old(lists)@ + attr_list_refs(*a) =~= final(lists)@);
}

/// A map whose values are vectors, seen with sequences as values.
pub open spec fn seq_values(m: Map<BlockId, Vec<u64>>) -> Map<BlockId, Seq<u64>> {
    m.map_values(|v: Vec<u64>| v@)
}

/// Blocks to the blocks they reference, over `bs` taken in order; a block
/// with no such reference has no entry.
pub open spec fn param_relation(bs: Seq<Block>) -> Map<BlockId, Seq<BlockId>>
    decreases bs.len(),
{
    if bs.len() == 0 {
        Map::empty()
    } else {
        let m = param_relation(bs.drop_last());
        let refs = block_param_refs(bs.last());
        if refs.len() > 0 {
            m.insert(bs.last().id, refs)
        } else {
            m
        }
    }
}

/// Blocks to the lists they read as concatenations, over `bs` taken in order;
/// a block that reads none has no entry.
pub open spec fn list_relation(bs: Seq<Block>) -> Map<BlockId, Seq<ListId>>
    decreases bs.len(),
{
    if bs.len() == 0 {
        Map::empty()
    } else {
        let m = list_relation(bs.drop_last());
        let refs = block_list_refs(bs.last());
        if refs.len() > 0 {
            m.insert(bs.last().id, refs)
        } else {
            m
        }
    }
}

/// Every block of `bs` to its successor, if any.
pub open spec fn next_relation(bs: Seq<Block>) -> Map<BlockId, Option<BlockId>>
    decreases bs.len(),
{
    if bs.len() == 0 {
        Map::empty()
    } else {
        next_relation(bs.drop_last()).insert(bs.last().id, bs.last().next)
    }
}

/// Every block of `bs` to its parent, if any.
pub open spec fn parent_relation(bs: Seq<Block>) -> Map<BlockId, Option<BlockId>>
    decreases bs.len(),
{
    if bs.len() == 0 {
        Map::empty()
    } else {
        parent_relation(bs.drop_last()).insert(bs.last().id, bs.last().parent)
    }
}

/// Only blocks of `bs` have entries in the relations of `bs`.
pub proof fn lemma_relation_keys(bs: Seq<Block>)
    ensures
        forall|u: BlockId|
            param_relation(bs).contains_key(u) ==> bs.map_values(|b: Block| b.id).contains(u),
        forall|u: BlockId|
            next_relation(bs).contains_key(u) ==> bs.map_values(|b: Block| b.id).contains(u),
        forall|u: BlockId|
            list_relation(bs).contains_key(u) ==> bs.map_values(|b: Block| b.id).contains(u),
        forall|u: BlockId|
            parent_relation(bs).contains_key(u) ==> bs.map_values(|b: Block| b.id).contains(u),
    decreases bs.len(),
{
    if bs.len() > 0 {
        let ids = bs.map_values(|b: Block| b.id);
        let rest = bs.drop_last().map_values(|b: Block| b.id);
        lemma_relation_keys(bs.drop_last());
        assert forall|u: BlockId| rest.contains(u) implies ids.contains(u) by {
            let k = choose|k: int| 0 <= k < rest.len() && rest[k] == u;
            assert(ids[k] == u);
        }
        assert(ids[bs.len() - 1] == bs.last().id);
        assert forall|u: BlockId| param_relation(bs).contains_key(u) implies ids.contains(u) by {
            if u != bs.last().id {
                assert(param_relation(bs.drop_last()).contains_key(u));
            }
        }
        assert forall|u: BlockId| next_relation(bs).contains_key(u) implies ids.contains(u) by {
            if u != bs.last().id {
                assert(next_relation(bs.drop_last()).contains_key(u));
            }
        }
        assert forall|u: BlockId| list_relation(bs).contains_key(u) implies ids.contains(u) by {
            if u != bs.last().id {
                assert(list_relation(bs.drop_last()).contains_key(u));
            }
        }
        assert forall|u: BlockId| parent_relation(bs).contains_key(u) implies ids.contains(u) by {
            if u != bs.last().id {
                assert(parent_relation(bs.drop_last()).contains_key(u));
            }
        }
    }
}

/// Appends the outgoing references of every attribute of a block, in order.
fn visit_attributes(attrs: &Vec<Attribute>, blocks: &mut Vec<BlockId>, lists: &mut Vec<ListId>)
    ensures
        final(blocks)@ == old(blocks)@ + attrs_block_refs(attrs@),
        final(lists)@ == old(lists)@ + attrs_list_refs(attrs@),
{
    let mut i: usize = 0;
    assert(attrs@.take(0) =~= Seq::<Attribute>::empty());
    assert(old(blocks)@ + attrs_block_refs(attrs@.take(0)) =~= blocks@);
    assert(old(lists)@ + attrs_list_refs(attrs@.take(0)) =~= lists@);
    while i < attrs.len()
        invariant
            0 <= i <= attrs@.len(),
            blocks@ == old(blocks)@ + attrs_block_refs(attrs@.take(i as int)),
            lists@ == old(lists)@ + attrs_list_refs(attrs@.take(i as int)),
        decreases attrs@.len() - i,
    {
        visit_attribute(&attrs[i], blocks, lists);
        assert(attrs@.take(i + 1).drop_last() =~= attrs@.take(i as int));
        assert(blocks@ =~= old(blocks)@ + attrs_block_refs(attrs@.take(i + 1)));
        assert(lists@ =~= old(lists)@ + attrs_list_refs(attrs@.take(i + 1)));
        i += 1;
    }
    assert(attrs@.take(i as int) =~= attrs@);
}

/// Records the edges of one block in the four relations: its successor and
/// parent always, its block and list references where there are any.
/// Returns `None` where any of the four relations already had an entry for
/// the block's id: a repeated id, which a document with unique ids never has.
pub fn add_edges_from_block(
    parameter_edges: &mut HashMap<BlockId, Vec<BlockId>>,
    read_list_edges: &mut HashMap<BlockId, Vec<ListId>>,
    next_block_edges: &mut HashMap<BlockId, Option<BlockId>>,
    parent_block_edges: &mut HashMap<BlockId, Option<BlockId>>,
    from_block: &Block,
) -> (r: Option<()>)
    ensures
        final(next_block_edges)@ == old(next_block_edges)@.insert(from_block.id, from_block.next),
        final(parent_block_edges)@ == old(parent_block_edges)@.insert(
            from_block.id,
            from_block.parent,
        ),
        seq_values(final(parameter_edges)@) == if block_param_refs(*from_block).len() > 0 {
            seq_values(old(parameter_edges)@).insert(from_block.id, block_param_refs(*from_block))
        } else {
            seq_values(old(parameter_edges)@)
        },
        seq_values(final(read_list_edges)@) == if block_list_refs(*from_block).len() > 0 {
            seq_values(old(read_list_edges)@).insert(from_block.id, block_list_refs(*from_block))
        } else {
            seq_values(old(read_list_edges)@)
        },
        r is None <==> old(parameter_edges)@.contains_key(from_block.id) || old(
            read_list_edges,
        )@.contains_key(from_block.id) || old(next_block_edges)@.contains_key(from_block.id)
            || old(parent_block_edges)@.contains_key(from_block.id),
{
    let id = from_block.id;
    let had_params = parameter_edges.contains_key(&id);
    let had_lists = read_list_edges.contains_key(&id);
    let had_next = next_block_edges.insert(id, from_block.next).is_some();
    let had_parent = parent_block_edges.insert(id, from_block.parent).is_some();

    let mut params: Vec<BlockId> = Vec::new();
    let mut lists: Vec<ListId> = Vec::new();
    visit_attributes(&from_block.attrs, &mut params, &mut lists);
    assert(params@ =~= block_param_refs(*from_block));
    assert(lists@ =~= block_list_refs(*from_block));

    if params.len() > 0 {
        let ghost v = params@;
        parameter_edges.insert(id, params);
        assert(seq_values(parameter_edges@) =~= seq_values(old(parameter_edges)@).insert(id, v));
    }
    if lists.len() > 0 {
        let ghost v = lists@;
        read_list_edges.insert(id, lists);
        assert(seq_values(read_list_edges@) =~= seq_values(old(read_list_edges)@).insert(id, v));
    }
    if had_params || had_lists || had_next || had_parent {
        None
    } else {
        Some(())
    }
}

} // verus!
