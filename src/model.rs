//! The read-only document model that the analysis walks: targets own blocks
//! and lists, blocks carry typed attributes.
use vstd::prelude::*;

verus! {

broadcast use vstd::std_specs::hash::group_hash_axioms;

/// Identifier of a block, unique within a document.
pub type BlockId = u64;

/// Identifier of a list, unique within a document.
pub type ListId = u64;

/// Identifier of a variable.
pub type VariableId = u64;

/// A reporter slot: what a block input evaluates to.
#[derive(Clone, Debug, PartialEq, Eq)]
pub enum Expression {
    /// A nested reporter block.
    Blo(BlockId),
    /// A variable read.
    Var(VariableId),
    /// A literal value.
    Lit(String),
    /// A list read as the concatenation of its items.
    Lis(ListId),
}

/// Either a typed value or an expression plugged into its place.
#[derive(Debug, PartialEq, Eq)]
pub enum Choice {
    Value(Attribute),
    ExprRef(Expression),
}

/// One attribute of a block, by shape.
#[derive(Debug, PartialEq, Eq)]
pub enum Attribute {
    /// A direct reference to another block.
    Block(BlockId),
    /// An optional reference to another block.
    OptionalBlock(Option<BlockId>),
    /// Procedure-argument identifiers mapped to optional expressions, one
    /// entry per identifier (see `unique_argument_ids`).
    ProcedureArguments(Vec<(String, Option<Expression>)>),
    /// A typed value or an expression in its place.
    OneOf(Box<Choice>),
    /// An expression.
    Expr(Expression),
    /// A colour literal.
    Color(String),
    /// A direct dropdown selection.
    Dropdown(String),
    /// A dropdown menu selection.
    Menu(String),
    /// A list named as a field (not read).
    ListField(ListId),
    /// A variable named as a field (not read).
    VariableField(VariableId),
    /// A broadcast message identifier.
    Broadcast(String),
    /// A procedure identifier.
    Procedure(String),
    /// A plain boolean.
    Flag(bool),
    /// The name of an argument reporter.
    ArgumentReporterName(String),
    /// The argument definitions of a procedure.
    ArgumentDefs(Vec<String>),
    /// An opaque string.
    Text(String),
}

/// A block: its id, opcode, structural links and attributes.
#[derive(Debug, PartialEq, Eq)]
pub struct Block {
    pub id: BlockId,
    pub opcode: String,
    pub next: Option<BlockId>,
    pub parent: Option<BlockId>,
    pub attrs: Vec<Attribute>,
}

/// A list owned by a target.
#[derive(Clone, Debug, PartialEq, Eq)]
pub struct ListDef {
    pub id: ListId,
    pub name: String,
    pub items: Vec<String>,
}

/// A sprite or the stage: it owns blocks and lists.
#[derive(Debug, PartialEq, Eq)]
pub struct Target {
    pub blocks: Vec<Block>,
    pub lists: Vec<ListDef>,
}

/// A whole project: its targets, in order.
#[derive(Debug, PartialEq, Eq)]
pub struct ProjectDoc {
    pub targets: Vec<Target>,
}

/// No block of the document has the id that was looked up.
#[derive(Clone, Copy, Debug, PartialEq, Eq)]
pub struct NoValidBlockForId {
    pub id: BlockId,
}

/// No list of the document has the id that was looked up.
#[derive(Clone, Copy, Debug, PartialEq, Eq)]
pub struct NoValidListForId {
    pub id: ListId,
}

/// No two entries of a procedure-argument table share an argument id, as in
/// a map from argument ids.
pub open spec fn unique_argument_ids(args: Seq<(String, Option<Expression>)>) -> bool {
    forall|i: int, j: int| 0 <= i < j < args.len() ==> args[i].0@ != args[j].0@
}

impl Attribute {
    /// Every procedure-argument table in the attribute has unique argument ids.
    pub open spec fn is_well_formed(self) -> bool
        decreases self,
    {
        match self {
            Attribute::ProcedureArguments(args) => unique_argument_ids(args@),
            Attribute::OneOf(c) => match *c {
                Choice::Value(v) => v.is_well_formed(),
                Choice::ExprRef(_) => true,
            },
            _ => true,
        }
    }
}

/// The blocks of the targets, target after target, each in its own order.
pub open spec fn blocks_of(targets: Seq<Target>) -> Seq<Block>
    decreases targets.len(),
{
    if targets.len() == 0 {
        seq![]
    } else {
        blocks_of(targets.drop_last()) + targets.last().blocks@
    }
}

/// The lists of the targets, target after target.
pub open spec fn lists_of(targets: Seq<Target>) -> Seq<ListDef>
    decreases targets.len(),
{
    if targets.len() == 0 {
        seq![]
    } else {
        lists_of(targets.drop_last()) + targets.last().lists@
    }
}

/// `i` is the first position of `s` that holds a block with id `id`.
pub open spec fn first_block_at(s: Seq<Block>, id: BlockId, i: int) -> bool {
    &&& 0 <= i < s.len()
    &&& s[i].id == id
    &&& forall|k: int| 0 <= k < i ==> s[k].id != id
}

/// `i` is the first position of `s` that holds a list with id `id`.
pub open spec fn first_list_at(s: Seq<ListDef>, id: ListId, i: int) -> bool {
    &&& 0 <= i < s.len()
    &&& s[i].id == id
    &&& forall|k: int| 0 <= k < i ==> s[k].id != id
}

/// Splitting the targets after `t` splits their blocks there.
pub proof fn lemma_blocks_of_take(targets: Seq<Target>, t: int)
    requires
        0 <= t < targets.len(),
    ensures
        blocks_of(targets.take(t + 1)) == blocks_of(targets.take(t)) + targets[t].blocks@,
        lists_of(targets.take(t + 1)) == lists_of(targets.take(t)) + targets[t].lists@,
{
    assert(targets.take(t + 1).drop_last() =~= targets.take(t));
}

impl ProjectDoc {
    /// Every block of the document, target after target.
    pub open spec fn blocks(&self) -> Seq<Block> {
        blocks_of(self.targets@)
    }

    /// Every list of the document, target after target.
    pub open spec fn lists(&self) -> Seq<ListDef> {
        lists_of(self.targets@)
    }

    /// A valid document: block ids are unique and every attribute is well formed.
    /// The analysis itself asks only for unique block ids.
    pub open spec fn is_well_formed(&self) -> bool {
        &&& self.has_unique_ids()
        &&& forall|i: int, k: int|
            0 <= i < self.blocks().len() && 0 <= k < self.blocks()[i].attrs@.len()
                ==> #[trigger] self.blocks()[i].attrs@[k].is_well_formed()
    }

    /// No two blocks of the document share an id.
    pub open spec fn has_unique_ids(&self) -> bool {
        forall|i: int, j: int|
            0 <= i < j < self.blocks().len() ==> self.blocks()[i].id != self.blocks()[j].id
    }

    /// The first block of the document with id `id`, or an error naming `id`.
    pub fn get_block(&self, id: BlockId) -> (r: Result<&Block, NoValidBlockForId>)
        ensures
            match r {
                Ok(b) => exists|i: int| first_block_at(self.blocks(), id, i) && *b == self.blocks()[i],
                Err(e) => e.id == id && forall|k: int|
                    0 <= k < self.blocks().len() ==> self.blocks()[k].id != id,
            },
    {
        let mut t: usize = 0;
        while t < self.targets.len()
            invariant
                0 <= t <= self.targets@.len(),
                forall|k: int|
                    0 <= k < blocks_of(self.targets@.take(t as int)).len() ==> blocks_of(
                        self.targets@.take(t as int),
                    )[k].id != id,
            decreases self.targets@.len() - t,
        {
            let blocks = &self.targets[t].blocks;
            proof {
                lemma_blocks_of_take(self.targets@, t as int);
            }
            let ghost before = blocks_of(self.targets@.take(t as int));
            let mut j: usize = 0;
            while j < blocks.len()
                invariant
                    0 <= j <= blocks@.len(),
                    t < self.targets@.len(),
                    blocks == &self.targets@[t as int].blocks,
                    before == blocks_of(self.targets@.take(t as int)),
                    forall|k: int| 0 <= k < before.len() ==> before[k].id != id,
                    forall|k: int| 0 <= k < j ==> blocks@[k].id != id,
                decreases blocks@.len() - j,
            {
                if blocks[j].id == id {
                    proof {
                        self.lemma_prefix_of_blocks(t as int);
                        let all = self.blocks();
                        let i = before.len() + j;
                        assert(all[i] == blocks@[j as int]);
                        assert forall|k: int| 0 <= k < i implies all[k].id != id by {
                            if k < before.len() {
                                assert(all[k] == before[k]);
                            } else {
                                assert(all[k] == blocks@[k - before.len()]);
                            }
                        }
                        assert(first_block_at(all, id, i));
                    }
                    return Ok(&blocks[j]);
                }
                j += 1;
            }
            t += 1;
        }
        assert(self.targets@.take(t as int) =~= self.targets@);
        Err(NoValidBlockForId { id })
    }

    /// The first list of the document with id `id`, or an error naming `id`.
    pub fn get_list(&self, id: ListId) -> (r: Result<&ListDef, NoValidListForId>)
        ensures
            match r {
                Ok(l) => exists|i: int| first_list_at(self.lists(), id, i) && *l == self.lists()[i],
                Err(e) => e.id == id && forall|k: int|
                    0 <= k < self.lists().len() ==> self.lists()[k].id != id,
            },
    {
        let mut t: usize = 0;
        while t < self.targets.len()
            invariant
                0 <= t <= self.targets@.len(),
                forall|k: int|
                    0 <= k < lists_of(self.targets@.take(t as int)).len() ==> lists_of(
                        self.targets@.take(t as int),
                    )[k].id != id,
            decreases self.targets@.len() - t,
        {
            let lists = &self.targets[t].lists;
            proof {
                lemma_blocks_of_take(self.targets@, t as int);
            }
            let ghost before = lists_of(self.targets@.take(t as int));
            let mut j: usize = 0;
            while j < lists.len()
                invariant
                    0 <= j <= lists@.len(),
                    t < self.targets@.len(),
                    lists == &self.targets@[t as int].lists,
                    before == lists_of(self.targets@.take(t as int)),
                    forall|k: int| 0 <= k < before.len() ==> before[k].id != id,
                    forall|k: int| 0 <= k < j ==> lists@[k].id != id,
                decreases lists@.len() - j,
            {
                if lists[j].id == id {
                    proof {
                        lemma_blocks_of_take(self.targets@, t as int);
                        lemma_lists_of_prefix(self.targets@, t + 1);
                        assert(self.lists() == lists_of(self.targets@));
                        assert(lists_of(self.targets@.take(t + 1)) == before + lists@);
                        let all = self.lists();
                        let i = before.len() + j;
                        assert(all[i] == lists@[j as int]);
                        assert forall|k: int| 0 <= k < i implies all[k].id != id by {
                            if k < before.len() {
                                assert(all[k] == before[k]);
                            } else {
                                assert(all[k] == lists@[k - before.len()]);
                            }
                        }
                        assert(first_list_at(all, id, i));
                    }
                    return Ok(&lists[j]);
                }
                j += 1;
            }
            t += 1;
        }
        assert(self.targets@.take(t as int) =~= self.targets@);
        Err(NoValidListForId { id })
    }

    /// The id of every block of the document, in document order.
    pub fn block_ids(&self) -> (r: Vec<BlockId>)
        ensures
            r@ == self.blocks().map_values(|b: Block| b.id),
    {
        let mut r: Vec<BlockId> = Vec::new();
        let mut t: usize = 0;
        assert(self.targets@.take(0) =~= Seq::<Target>::empty());
        while t < self.targets.len()
            invariant
                0 <= t <= self.targets@.len(),
                r@ == blocks_of(self.targets@.take(t as int)).map_values(|b: Block| b.id),
            decreases self.targets@.len() - t,
        {
            let blocks = &self.targets[t].blocks;
            let ghost before = r@;
            let mut j: usize = 0;
            while j < blocks.len()
                invariant
                    0 <= j <= blocks@.len(),
                    r@ == before + blocks@.take(j as int).map_values(|b: Block| b.id),
                decreases blocks@.len() - j,
            {
                r.push(blocks[j].id);
                assert(r@ =~= before + blocks@.take(j + 1).map_values(|b: Block| b.id));
                j += 1;
            }
            proof {
                lemma_blocks_of_take(self.targets@, t as int);
                assert(r@ =~= blocks_of(self.targets@.take(t + 1)).map_values(|b: Block| b.id));
            }
            t += 1;
        }
        assert(self.targets@.take(t as int) =~= self.targets@);
        r
    }

    /// Whether no two blocks of the document share an id.
    pub fn has_unique_block_ids(&self) -> (r: bool)
        ensures
            r == self.has_unique_ids(),
    {
        let ids = self.block_ids();
        let ghost bs = self.blocks();
        let mut seen: std::collections::HashSet<BlockId> = std::collections::HashSet::new();
        let mut i: usize = 0;
        while i < ids.len()
            invariant
                0 <= i <= ids@.len(),
                bs == self.blocks(),
                ids@ == bs.map_values(|b: Block| b.id),
                forall|x: BlockId| seen@.contains(x) <==> exists|k: int| 0 <= k < i && bs[k].id == x,
                forall|a: int, b: int| 0 <= a < b < i ==> bs[a].id != bs[b].id,
            decreases ids@.len() - i,
        {
            if !seen.insert(ids[i]) {
                proof {
                    assert(seen@.contains(bs[i as int].id));
                    let k = choose|k: int| 0 <= k < i && bs[k].id == bs[i as int].id;
                    assert(bs[k].id == bs[i as int].id);
                }
                return false;
            }
            i += 1;
        }
        true
    }

    /// The blocks of the first `t + 1` targets begin the document's blocks.
    pub proof fn lemma_prefix_of_blocks(&self, t: int)
        requires
            0 <= t < self.targets@.len(),
        ensures
            self.blocks().len() >= blocks_of(self.targets@.take(t)).len()
                + self.targets@[t].blocks@.len(),
            forall|k: int|
                0 <= k < blocks_of(self.targets@.take(t)).len() ==> self.blocks()[k]
                    == blocks_of(self.targets@.take(t))[k],
            forall|k: int|
                0 <= k < self.targets@[t].blocks@.len() ==> self.blocks()[blocks_of(
                    self.targets@.take(t),
                ).len() + k] == self.targets@[t].blocks@[k],
    {
        lemma_blocks_of_take(self.targets@, t);
        lemma_blocks_of_prefix(self.targets@, t + 1);
    }
}

/// The blocks of a prefix of the targets are a prefix of all their blocks.
pub proof fn lemma_blocks_of_prefix(targets: Seq<Target>, n: int)
    requires
        0 <= n <= targets.len(),
    ensures
        blocks_of(targets.take(n)).len() <= blocks_of(targets).len(),
        forall|k: int|
            0 <= k < blocks_of(targets.take(n)).len() ==> blocks_of(targets)[k] == blocks_of(
                targets.take(n),
            )[k],
    decreases targets.len() - n,
{
    if n == targets.len() {
        assert(targets.take(n) =~= targets);
    } else {
        lemma_blocks_of_take(targets, n);
        lemma_blocks_of_prefix(targets, n + 1);
    }
}

/// The lists of a prefix of the targets are a prefix of all their lists.
pub proof fn lemma_lists_of_prefix(targets: Seq<Target>, n: int)
    requires
        0 <= n <= targets.len(),
    ensures
        lists_of(targets.take(n)).len() <= lists_of(targets).len(),
        forall|k: int|
            0 <= k < lists_of(targets.take(n)).len() ==> lists_of(targets)[k] == lists_of(
                targets.take(n),
            )[k],
    decreases targets.len() - n,
{
    if n == targets.len() {
        assert(targets.take(n) =~= targets);
    } else {
        lemma_blocks_of_take(targets, n);
        lemma_lists_of_prefix(targets, n + 1);
    }
}

} // verus!
