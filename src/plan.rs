use vstd::prelude::*;

verus! {

/// A reference to a base table: a bare name, a name within a schema, or a
/// fully qualified catalog, schema and name.
#[derive(Debug, Hash)]
pub enum TableRef {
    Bare { table: String },
    Partial { schema: String, table: String },
    Full { catalog: String, schema: String, table: String },
}

impl View for TableRef {
    /// The name parts, outermost first.
    type V = Seq<Seq<char>>;

    open spec fn view(&self) -> Seq<Seq<char>> {
        match self {
            TableRef::Bare { table } => seq![table@],
            TableRef::Partial { schema, table } => seq![schema@, table@],
            TableRef::Full { catalog, schema, table } => seq![catalog@, schema@, table@],
        }
    }
}

impl Clone for TableRef {
    fn clone(&self) -> (r: Self)
        ensures
            r@ == self@,
    {
        match self {
            TableRef::Bare { table } => TableRef::Bare { table: table.clone() },
            TableRef::Partial { schema, table } => TableRef::Partial {
                schema: schema.clone(),
                table: table.clone(),
            },
            TableRef::Full { catalog, schema, table } => TableRef::Full {
                catalog: catalog.clone(),
                schema: schema.clone(),
                table: table.clone(),
            },
        }
    }
}

impl PartialEq for TableRef {
    fn eq(&self, other: &TableRef) -> (r: bool)
        ensures
            r == (self@ == other@),
    {
        match (self, other) {
            (TableRef::Bare { table: t1 }, TableRef::Bare { table: t2 }) => {
                proof {
                    assert(self@[0] == t1@ && other@[0] == t2@);
                    assert(t1@ == t2@ ==> self@ =~= other@);
                }
                *t1 == *t2
            },
            (
                TableRef::Partial { schema: s1, table: t1 },
                TableRef::Partial { schema: s2, table: t2 },
            ) => {
                proof {
                    assert(self@[0] == s1@ && other@[0] == s2@);
                    assert(self@[1] == t1@ && other@[1] == t2@);
                    assert(s1@ == s2@ && t1@ == t2@ ==> self@ =~= other@);
                }
                *s1 == *s2 && *t1 == *t2
            },
            (
                TableRef::Full { catalog: c1, schema: s1, table: t1 },
                TableRef::Full { catalog: c2, schema: s2, table: t2 },
            ) => {
                proof {
                    assert(self@[0] == c1@ && other@[0] == c2@);
                    assert(self@[1] == s1@ && other@[1] == s2@);
                    assert(self@[2] == t1@ && other@[2] == t2@);
                    assert(c1@ == c2@ && s1@ == s2@ && t1@ == t2@ ==> self@ =~= other@);
                }
                *c1 == *c2 && *s1 == *s2 && *t1 == *t2
            },
            _ => {
                proof {
                    assert(self@.len() != other@.len());
                }
                false
            },
        }
    }
}

impl vstd::std_specs::cmp::PartialEqSpecImpl for TableRef {
    open spec fn obeys_eq_spec() -> bool {
        true
    }

    open spec fn eq_spec(&self, other: &TableRef) -> bool {
        self@ == other@
    }
}

impl Eq for TableRef {}

/// What a plan node does, as far as finding its tables goes.
#[derive(Debug)]
pub enum NodeKind {
    /// Reads the rows of a base table.
    TableScan(TableRef),
    /// Any other step; only its inputs matter here.
    Other,
}

/// One node of a logical query plan, with the plans that feed it.
#[derive(Debug)]
pub struct PlanNode {
    pub kind: NodeKind,
    pub inputs: Vec<PlanNode>,
}

/// The table that `node` itself scans, if any.
pub open spec fn scanned(node: PlanNode) -> Set<Seq<Seq<char>>> {
    match node.kind {
        NodeKind::TableScan(table) => set![table@],
        NodeKind::Other => Set::empty(),
    }
}

/// The tables scanned by the plans `nodes` and by everything below them.
pub open spec fn tables_in(nodes: Seq<PlanNode>) -> Set<Seq<Seq<char>>>
    decreases nodes,
{
    if nodes.len() == 0 {
        Set::empty()
    } else {
        let last = nodes.last();
        tables_in(nodes.drop_last()) + scanned(last) + tables_in(last.inputs@)
    }
}

/// The base tables that the plan rooted at `plan` reads.
pub open spec fn input_tables(plan: PlanNode) -> Set<Seq<Seq<char>>> {
    scanned(plan) + tables_in(plan.inputs@)
}

/// The number of nodes in the plans `nodes`, counting everything below them.
spec fn size_in(nodes: Seq<PlanNode>) -> nat
    decreases nodes,
{
    if nodes.len() == 0 {
        0
    } else {
        let last = nodes.last();
        size_in(nodes.drop_last()) + 1 + size_in(last.inputs@)
    }
}

/// The names of `tables`, in order.
pub open spec fn names(tables: Seq<TableRef>) -> Seq<Seq<Seq<char>>> {
    tables.map_values(|t: TableRef| t@)
}

spec fn nodes_of(stack: Seq<&PlanNode>) -> Seq<PlanNode> {
    stack.map_values(|n: &PlanNode| *n)
}

proof fn lemma_tables_in_concat(a: Seq<PlanNode>, b: Seq<PlanNode>)
    ensures
        tables_in(a + b) == tables_in(a) + tables_in(b),
        size_in(a + b) == size_in(a) + size_in(b),
    decreases b.len(),
{
    if b.len() == 0 {
        assert(a + b =~= a);
        assert(tables_in(a) + tables_in(b) =~= tables_in(a));
    } else {
        assert((a + b).drop_last() =~= a + b.drop_last());
        lemma_tables_in_concat(a, b.drop_last());
        assert(tables_in(a + b) =~= tables_in(a) + tables_in(b));
    }
}

/// A table is under a list of plans exactly when it is under one of them.
proof fn lemma_tables_in_members(nodes: Seq<PlanNode>, name: Seq<Seq<char>>)
    ensures
        tables_in(nodes).contains(name) <==> exists|i: int|
            0 <= i < nodes.len() && (#[trigger] input_tables(nodes[i])).contains(name),
    decreases nodes.len(),
{
    if nodes.len() > 0 {
        let prefix = nodes.drop_last();
        lemma_tables_in_members(prefix, name);
        assert(tables_in(nodes) == tables_in(prefix) + input_tables(nodes.last()));
        if tables_in(prefix).contains(name) {
            let i = choose|i: int| 0 <= i < prefix.len() && (#[trigger] input_tables(prefix[i])).contains(name);
            assert(nodes[i] == prefix[i]);
        }
        if exists|i: int| 0 <= i < nodes.len() && (#[trigger] input_tables(nodes[i])).contains(name) {
            let i = choose|i: int| 0 <= i < nodes.len() && (#[trigger] input_tables(nodes[i])).contains(name);
            if i < prefix.len() {
                assert(prefix[i] == nodes[i]);
            }
        }
    }
}

/// The tables that a plan reads depend on its inputs only as a set: the
/// order in which the inputs are listed, and an input listed more than once,
/// change nothing.
pub proof fn lemma_input_tables_ignore_input_order(a: PlanNode, b: PlanNode)
    requires
        scanned(a) == scanned(b),
        a.inputs@.to_set() == b.inputs@.to_set(),
    ensures
        input_tables(a) == input_tables(b),
{
    assert forall|name: Seq<Seq<char>>|
        tables_in(a.inputs@).contains(name) <==> tables_in(b.inputs@).contains(name) by {
        lemma_tables_in_members(a.inputs@, name);
        lemma_tables_in_members(b.inputs@, name);
        if tables_in(a.inputs@).contains(name) {
            let i = choose|i: int| 0 <= i < a.inputs@.len() && (#[trigger] input_tables(a.inputs@[i])).contains(name);
            assert(a.inputs@.to_set().contains(a.inputs@[i]));
            assert(b.inputs@.contains(a.inputs@[i]));
            let j = choose|j: int| 0 <= j < b.inputs@.len() && b.inputs@[j] == a.inputs@[i];
            assert(input_tables(b.inputs@[j]).contains(name));
        }
        if tables_in(b.inputs@).contains(name) {
            let i = choose|i: int| 0 <= i < b.inputs@.len() && (#[trigger] input_tables(b.inputs@[i])).contains(name);
            assert(b.inputs@.to_set().contains(b.inputs@[i]));
            assert(a.inputs@.contains(b.inputs@[i]));
            let j = choose|j: int| 0 <= j < a.inputs@.len() && a.inputs@[j] == b.inputs@[i];
            assert(input_tables(a.inputs@[j]).contains(name));
        }
    }
    assert(tables_in(a.inputs@) =~= tables_in(b.inputs@));
}

/// Adds `table` to `tables` unless a table of the same name is there.
fn insert_table(tables: &mut Vec<TableRef>, table: &TableRef)
    requires
        names(old(tables)@).no_duplicates(),
    ensures
        names(final(tables)@).no_duplicates(),
        names(final(tables)@).to_set() == names(old(tables)@).to_set().insert(table@),
{
    let mut i: usize = 0;
    while i < tables.len()
        invariant
            0 <= i <= tables.len(),
            tables@ == old(tables)@,
            names(tables@).no_duplicates(),
            forall|j: int| 0 <= j < i ==> tables@[j]@ != table@,
        decreases tables.len() - i,
    {
        if tables[i] == *table {
            proof {
                assert(names(tables@)[i as int] == table@);
                assert(names(tables@).to_set().insert(table@) =~= names(tables@).to_set());
            }
            return;
        }
        i += 1;
    }
    let ghost before = tables@;
    tables.push(table.clone());
    proof {
        assert(names(tables@) =~= names(before).push(table@));
        assert(!names(before).contains(table@));
        names(before).lemma_push_to_set_commute(table@);
    }
}

/// Collects the base tables that the plan rooted at `plan` reads, each name
/// once. The walk keeps its own stack of nodes, so deep plans do not deepen
/// the call stack.
pub fn get_logical_plan_input_tables(plan: &PlanNode) -> (r: Vec<TableRef>)
    ensures
        names(r@).no_duplicates(),
        names(r@).to_set() == input_tables(*plan),
{
    let mut table_names: Vec<TableRef> = Vec::new();
    let mut plan_stack: Vec<&PlanNode> = Vec::new();
    plan_stack.push(plan);
    proof {
        let one = nodes_of(plan_stack@);
        assert(one.len() == 1 && one.last() == *plan);
        assert(one.drop_last() =~= Seq::<PlanNode>::empty());
        assert(tables_in(one.drop_last()) =~= Set::empty());
        assert(tables_in(one) == tables_in(one.drop_last()) + scanned(*plan) + tables_in(
            plan.inputs@,
        ));
        assert(names(table_names@).to_set() =~= Set::empty());
        assert(names(table_names@).to_set() + tables_in(one) =~= input_tables(*plan));
    }
    while plan_stack.len() > 0
        invariant
            names(table_names@).no_duplicates(),
            names(table_names@).to_set() + tables_in(nodes_of(plan_stack@)) == input_tables(*plan),
        decreases size_in(nodes_of(plan_stack@)),
    {
        let ghost before = nodes_of(plan_stack@);
        let current = plan_stack.pop().unwrap();
        let ghost rest = nodes_of(plan_stack@);
        proof {
            assert(before.drop_last() =~= rest);
        }
        let ghost names_before = names(table_names@).to_set();
        if let NodeKind::TableScan(table) = &current.kind {
            insert_table(&mut table_names, table);
        }
        proof {
            assert(names(table_names@).to_set() =~= names_before + scanned(*current));
        }
        let mut i: usize = 0;
        while i < current.inputs.len()
            invariant
                0 <= i <= current.inputs.len(),
                nodes_of(plan_stack@) == rest + current.inputs@.take(i as int),
            decreases current.inputs.len() - i,
        {
            let ghost prior = plan_stack@;
            plan_stack.push(&current.inputs[i]);
            proof {
                assert(current.inputs@.take(i + 1) =~= current.inputs@.take(i as int).push(
                    current.inputs@[i as int],
                ));
                assert(nodes_of(plan_stack@) =~= nodes_of(prior).push(current.inputs@[i as int]));
            }
            i += 1;
        }
        proof {
            assert(current.inputs@.take(i as int) =~= current.inputs@);
            lemma_tables_in_concat(rest, current.inputs@);
            assert(names(table_names@).to_set() + tables_in(nodes_of(plan_stack@))
                =~= names_before + tables_in(before));
        }
    }
    proof {
        assert(nodes_of(plan_stack@) =~= Seq::<PlanNode>::empty());
        assert(names(table_names@).to_set() + Set::empty() =~= names(table_names@).to_set());
    }
    table_names
}

} // verus!
