//! Collecting the nodes and relationships that query results mention into a
//! subgraph, one entry per element id.
//!
//! A graph element carries what the library reads of it (its id, and the
//! labels of a node or the type of a relationship) and a payload of the
//! caller's choice, such as the driver's own value that a caller later
//! decodes into a type of its own.

use std::collections::HashMap;
use vstd::prelude::*;
use vstd::std_specs::iter::IteratorSpec;

verus! {

broadcast use vstd::std_specs::hash::group_hash_axioms;

/// A node: its id, its labels and its payload.
#[derive(Clone, Debug, PartialEq)]
pub struct GraphNode<P> {
    pub id: i64,
    pub labels: Vec<String>,
    pub data: P,
}

/// A relationship with known start and end nodes: its id, its type and its
/// payload.
#[derive(Clone, Debug, PartialEq)]
pub struct GraphRelation<P> {
    pub id: i64,
    pub typ: String,
    pub data: P,
}

/// A relationship without information about its start or end nodes, as paths
/// hold them.
#[derive(Clone, Debug, PartialEq)]
pub struct GraphUnboundedRelation<P> {
    pub id: i64,
    pub typ: String,
    pub data: P,
}

/// A path: its nodes and the relationships between them.
#[derive(Clone, Debug, PartialEq)]
pub struct GraphPath<N, U> {
    pub nodes: Vec<GraphNode<N>>,
    pub rels: Vec<GraphUnboundedRelation<U>>,
}

/// One column of a result row, read as each kind of graph element: each field
/// holds the value when the column reads as that kind.
#[derive(Clone, Debug, PartialEq)]
pub struct RowValue<N, R, U> {
    pub path: Option<GraphPath<N, U>>,
    pub node: Option<GraphNode<N>>,
    pub relation: Option<GraphRelation<R>>,
    pub unbounded: Option<GraphUnboundedRelation<U>>,
}

/// The nodes, relationships and unbounded relationships of query results,
/// each keyed by its id.
#[derive(Clone, Debug, PartialEq)]
pub struct Subgraph<N, R, U> {
    pub nodes: HashMap<i64, GraphNode<N>>,
    pub relations: HashMap<i64, GraphRelation<R>>,
    pub unbounded_relations: HashMap<i64, GraphUnboundedRelation<U>>,
}

/// The content of a [`Subgraph`].
pub struct SubgraphView<N, R, U> {
    pub nodes: Map<i64, GraphNode<N>>,
    pub relations: Map<i64, GraphRelation<R>>,
    pub unbounded_relations: Map<i64, GraphUnboundedRelation<U>>,
}

impl<N, R, U> View for Subgraph<N, R, U> {
    type V = SubgraphView<N, R, U>;

    open spec fn view(&self) -> SubgraphView<N, R, U> {
        SubgraphView {
            nodes: self.nodes@,
            relations: self.relations@,
            unbounded_relations: self.unbounded_relations@,
        }
    }
}

/// One graph element that a row mentions.
pub enum GraphItem<N, R, U> {
    Node(GraphNode<N>),
    Relation(GraphRelation<R>),
    Unbounded(GraphUnboundedRelation<U>),
}

/// The subgraph with nothing in it.
pub open spec fn empty_view<N, R, U>() -> SubgraphView<N, R, U> {
    SubgraphView { nodes: Map::empty(), relations: Map::empty(), unbounded_relations: Map::empty() }
}

/// A map with `v` under `k`, unless `k` already has an entry.
pub open spec fn insert_if_absent<V>(m: Map<i64, V>, k: i64, v: V) -> Map<i64, V> {
    if m.contains_key(k) {
        m
    } else {
        m.insert(k, v)
    }
}

/// A subgraph after one more element: an element whose id is already present
/// among its kind leaves the subgraph as it was.
pub open spec fn add_item<N, R, U>(g: SubgraphView<N, R, U>, item: GraphItem<N, R, U>) -> SubgraphView<N, R, U> {
    match item {
        GraphItem::Node(n) => SubgraphView { nodes: insert_if_absent(g.nodes, n.id, n), ..g },
        GraphItem::Relation(r) => SubgraphView { relations: insert_if_absent(g.relations, r.id, r), ..g },
        GraphItem::Unbounded(u) => SubgraphView {
            unbounded_relations: insert_if_absent(g.unbounded_relations, u.id, u),
            ..g
        },
    }
}

/// A subgraph after the given elements, in order.
pub open spec fn add_items<N, R, U>(g: SubgraphView<N, R, U>, items: Seq<GraphItem<N, R, U>>) -> SubgraphView<N, R, U>
    decreases items.len(),
{
    if items.len() == 0 {
        g
    } else {
        add_item(add_items(g, items.drop_last()), items.last())
    }
}

/// The elements of a path: its nodes, then its relationships.
pub open spec fn path_items<N, R, U>(p: GraphPath<N, U>) -> Seq<GraphItem<N, R, U>> {
    p.nodes@.map_values(|n: GraphNode<N>| GraphItem::Node(n)) + p.rels@.map_values(
        |u: GraphUnboundedRelation<U>| GraphItem::Unbounded(u),
    )
}

/// The elements that a column contributes: it is read as a path if it can
/// be, else as a node, else as a relationship, else as an unbounded
/// relationship; a column that is none of these contributes nothing.
pub open spec fn value_items<N, R, U>(v: RowValue<N, R, U>) -> Seq<GraphItem<N, R, U>> {
    match v.path {
        Some(p) => path_items(p),
        None => match v.node {
            Some(n) => seq![GraphItem::Node(n)],
            None => match v.relation {
                Some(r) => seq![GraphItem::Relation(r)],
                None => match v.unbounded {
                    Some(u) => seq![GraphItem::Unbounded(u)],
                    None => Seq::empty(),
                },
            },
        },
    }
}

/// The elements of a row, column by column.
pub open spec fn row_items<N, R, U>(row: Seq<RowValue<N, R, U>>) -> Seq<GraphItem<N, R, U>>
    decreases row.len(),
{
    if row.len() == 0 {
        Seq::empty()
    } else {
        row_items(row.drop_last()) + value_items(row.last())
    }
}

/// The elements of rows, row by row.
pub open spec fn rows_items<N, R, U>(rows: Seq<Vec<RowValue<N, R, U>>>) -> Seq<GraphItem<N, R, U>>
    decreases rows.len(),
{
    if rows.len() == 0 {
        Seq::empty()
    } else {
        rows_items(rows.drop_last()) + row_items(rows.last()@)
    }
}

/// The test for nodes that carry the label.
pub open spec fn labelled<N>(label: Seq<char>) -> spec_fn(GraphNode<N>) -> bool {
    |n: GraphNode<N>| has_label(n, label)
}

/// The test for relationships of the given type.
pub open spec fn typed<R>(typ: Seq<char>) -> spec_fn(GraphRelation<R>) -> bool {
    |r: GraphRelation<R>| r.typ@ == typ
}

/// Whether a node carries the label.
pub open spec fn has_label<N>(n: GraphNode<N>, label: Seq<char>) -> bool {
    exists|i: int| 0 <= i < n.labels@.len() && n.labels@[i]@ == label
}

/// Whether one of the strings equals `label`, character for character.
pub open spec fn label_among(labels: Seq<String>, label: Seq<char>) -> bool {
    exists|j: int| 0 <= j < labels.len() && (#[trigger] labels[j])@ == label
}

/// A node carries a label exactly when one of its labels equals it,
/// character for character: a label that merely starts like it does not
/// count.
pub proof fn lemma_has_label_is_equality<N>(n: GraphNode<N>, label: Seq<char>)
    ensures
        has_label(n, label) <==> exists|j: int| 0 <= j < n.labels@.len() && (#[trigger] n.labels@[j])@ == label,
{
}

/// The elements of a path are its nodes, in order, then its relationships,
/// in order: nothing left out and nothing added.
pub proof fn lemma_path_items<N, R, U>(p: GraphPath<N, U>)
    ensures
        path_items::<N, R, U>(p).len() == p.nodes@.len() + p.rels@.len(),
        forall|i: int| 0 <= i < p.nodes@.len() ==> path_items::<N, R, U>(p)[i] == GraphItem::<N, R, U>::Node(#[trigger] p.nodes@[i]),
        forall|i: int| 0 <= i < p.rels@.len() ==> path_items::<N, R, U>(p)[p.nodes@.len() + i]
            == GraphItem::<N, R, U>::Unbounded(#[trigger] p.rels@[i]),
{
}

/// Whether a subgraph has an entry with the element's kind and id.
pub open spec fn has_entry_for<N, R, U>(g: SubgraphView<N, R, U>, x: GraphItem<N, R, U>) -> bool {
    match x {
        GraphItem::Node(n) => g.nodes.contains_key(n.id),
        GraphItem::Relation(r) => g.relations.contains_key(r.id),
        GraphItem::Unbounded(u) => g.unbounded_relations.contains_key(u.id),
    }
}

proof fn lemma_contains_concat<A>(a: Seq<A>, b: Seq<A>, x: A)
    ensures
        (a.contains(x) || b.contains(x)) ==> (a + b).contains(x),
{
    if a.contains(x) {
        let i = choose|i: int| 0 <= i < a.len() && a[i] == x;
        assert((a + b)[i] == x);
    } else if b.contains(x) {
        let i = choose|i: int| 0 <= i < b.len() && b[i] == x;
        assert((a + b)[a.len() + i] == x);
    }
}

/// Every element collected has an entry of its kind and id afterwards
/// (the first one given for that id, see [`lemma_first_element_wins`]).
pub proof fn lemma_collected_has_entry<N, R, U>(g: SubgraphView<N, R, U>, items: Seq<GraphItem<N, R, U>>, x: GraphItem<N, R, U>)
    requires
        items.contains(x),
    ensures
        has_entry_for(add_items(g, items), x),
    decreases items.len(),
{
    let pre = items.drop_last();
    if pre.contains(x) {
        lemma_collected_has_entry(g, pre, x);
    } else {
        let i = choose|i: int| 0 <= i < items.len() && items[i] == x;
        if i < items.len() - 1 {
            assert(pre[i] == x);
        }
        assert(items.last() == x);
    }
}

proof fn lemma_row_contains<N, R, U>(row: Seq<RowValue<N, R, U>>, c: int, x: GraphItem<N, R, U>)
    requires
        0 <= c < row.len(),
        value_items(row[c]).contains(x),
    ensures
        row_items(row).contains(x),
    decreases row.len(),
{
    if c < row.len() - 1 {
        assert(row.drop_last()[c] == row[c]);
        lemma_row_contains(row.drop_last(), c, x);
    }
    lemma_contains_concat(row_items(row.drop_last()), value_items(row.last()), x);
}

proof fn lemma_rows_contains<N, R, U>(rows: Seq<Vec<RowValue<N, R, U>>>, r: int, c: int, x: GraphItem<N, R, U>)
    requires
        0 <= r < rows.len(),
        0 <= c < rows[r]@.len(),
        value_items(rows[r]@[c]).contains(x),
    ensures
        rows_items(rows).contains(x),
    decreases rows.len(),
{
    if r < rows.len() - 1 {
        assert(rows.drop_last()[r] == rows[r]);
        lemma_rows_contains(rows.drop_last(), r, c, x);
    } else {
        lemma_row_contains(rows[r]@, c, x);
    }
    lemma_contains_concat(rows_items(rows.drop_last()), row_items(rows.last()@), x);
}

/// Every element that a column of the rows holds is in the subgraph of the
/// rows: for a path, each of its nodes and each of its relationships; for a
/// column that is no path, its node, relationship or unbounded relationship.
pub proof fn lemma_rows_elements_collected<N, R, U>(rows: Seq<Vec<RowValue<N, R, U>>>, r: int, c: int)
    requires
        0 <= r < rows.len(),
        0 <= c < rows[r]@.len(),
    ensures
        ({
            let v = rows[r]@[c];
            let g = add_items(empty_view::<N, R, U>(), rows_items(rows));
            &&& v.path matches Some(p) ==> {
                &&& forall|i: int| 0 <= i < p.nodes@.len() ==> g.nodes.contains_key((#[trigger] p.nodes@[i]).id)
                &&& forall|i: int| 0 <= i < p.rels@.len() ==> g.unbounded_relations.contains_key((#[trigger] p.rels@[i]).id)
            }
            &&& v.path is None ==> {
                &&& v.node matches Some(n) ==> g.nodes.contains_key(n.id)
                &&& (v.node is None && v.relation is Some) ==> g.relations.contains_key(v.relation->0.id)
                &&& (v.node is None && v.relation is None && v.unbounded is Some)
                    ==> g.unbounded_relations.contains_key(v.unbounded->0.id)
            }
        }),
{
    let v = rows[r]@[c];
    let items = rows_items(rows);
    let g0 = empty_view::<N, R, U>();
    match v.path {
        Some(p) => {
            lemma_path_items::<N, R, U>(p);
            assert forall|i: int| 0 <= i < p.nodes@.len() implies add_items(g0, items).nodes.contains_key((#[trigger] p.nodes@[i]).id) by {
                let x = GraphItem::<N, R, U>::Node(p.nodes@[i]);
                assert(value_items(v)[i] == x);
                lemma_rows_contains(rows, r, c, x);
                lemma_collected_has_entry(g0, items, x);
            }
            assert forall|i: int| 0 <= i < p.rels@.len() implies add_items(g0, items).unbounded_relations.contains_key((#[trigger] p.rels@[i]).id) by {
                let x = GraphItem::<N, R, U>::Unbounded(p.rels@[i]);
                assert(value_items(v)[p.nodes@.len() + i] == x);
                lemma_rows_contains(rows, r, c, x);
                lemma_collected_has_entry(g0, items, x);
            }
        },
        None => {
            if value_items(v).len() > 0 {
                let x = value_items(v)[0];
                lemma_rows_contains(rows, r, c, x);
                lemma_collected_has_entry(g0, items, x);
            }
        },
    }
}

pub proof fn lemma_add_items_append<N, R, U>(
    g: SubgraphView<N, R, U>,
    a: Seq<GraphItem<N, R, U>>,
    b: Seq<GraphItem<N, R, U>>,
)
    ensures
        add_items(g, a + b) == add_items(add_items(g, a), b),
    decreases b.len(),
{
    if b.len() == 0 {
        assert(a + b =~= a);
    } else {
        lemma_add_items_append(g, a, b.drop_last());
        assert((a + b).drop_last() =~= a + b.drop_last());
        assert((a + b).last() == b.last());
    }
}

proof fn lemma_add_single<N, R, U>(g: SubgraphView<N, R, U>, x: GraphItem<N, R, U>)
    ensures
        add_items(g, seq![x]) == add_item(g, x),
{
    assert(seq![x].drop_last() =~= Seq::<GraphItem<N, R, U>>::empty());
    assert(add_items(g, Seq::<GraphItem<N, R, U>>::empty()) == g);
}

/// Whether one of the node's labels equals `label`.
fn node_has_label<N>(n: &GraphNode<N>, label: &String) -> (b: bool)
    ensures
        b == has_label(*n, label@),
{
    let mut k: usize = 0;
    while k < n.labels.len()
        invariant
            k <= n.labels@.len(),
            forall|m: int| 0 <= m < k ==> n.labels@[m]@ != label@,
        decreases n.labels@.len() - k,
    {
        if n.labels[k] == *label {
            return true;
        }
        k = k + 1;
    }
    false
}

/// Whether an element is of the given kind (0 for nodes, 1 for
/// relationships, 2 for unbounded relationships) and has the given id.
pub open spec fn item_is<N, R, U>(item: GraphItem<N, R, U>, kind: int, id: i64) -> bool {
    match item {
        GraphItem::Node(n) => kind == 0 && n.id == id,
        GraphItem::Relation(r) => kind == 1 && r.id == id,
        GraphItem::Unbounded(u) => kind == 2 && u.id == id,
    }
}

/// The entry that a subgraph holds for an id among the elements of a kind.
pub open spec fn entry<N, R, U>(g: SubgraphView<N, R, U>, kind: int, id: i64) -> Option<GraphItem<N, R, U>> {
    if kind == 0 && g.nodes.contains_key(id) {
        Some(GraphItem::Node(g.nodes[id]))
    } else if kind == 1 && g.relations.contains_key(id) {
        Some(GraphItem::Relation(g.relations[id]))
    } else if kind == 2 && g.unbounded_relations.contains_key(id) {
        Some(GraphItem::Unbounded(g.unbounded_relations[id]))
    } else {
        None
    }
}

/// The first element of the given kind and id, if there is one.
pub open spec fn first_item<N, R, U>(items: Seq<GraphItem<N, R, U>>, kind: int, id: i64) -> Option<GraphItem<N, R, U>>
    decreases items.len(),
{
    if items.len() == 0 {
        None
    } else {
        match first_item(items.drop_last(), kind, id) {
            Some(x) => Some(x),
            None => if item_is(items.last(), kind, id) {
                Some(items.last())
            } else {
                None
            },
        }
    }
}

proof fn lemma_entry_after_item<N, R, U>(g: SubgraphView<N, R, U>, x: GraphItem<N, R, U>, kind: int, id: i64)
    ensures
        entry(add_item(g, x), kind, id) == (match entry(g, kind, id) {
            Some(e) => Some(e),
            None => if item_is(x, kind, id) {
                Some(x)
            } else {
                None
            },
        }),
{
}

/// An element enters a subgraph only when none of its kind with its id is
/// there yet: after collecting elements into an empty subgraph, the entry for
/// each kind and id is the first collected element of that kind with that
/// id, and there is none when no such element was collected.
pub proof fn lemma_first_element_wins<N, R, U>(items: Seq<GraphItem<N, R, U>>, kind: int, id: i64)
    ensures
        entry(add_items(empty_view::<N, R, U>(), items), kind, id) == first_item(items, kind, id),
    decreases items.len(),
{
    if items.len() > 0 {
        lemma_first_element_wins(items.drop_last(), kind, id);
        lemma_entry_after_item(add_items(empty_view::<N, R, U>(), items.drop_last()), items.last(), kind, id);
    }
}

proof fn lemma_views_equal_by_entries<N, R, U>(g1: SubgraphView<N, R, U>, g2: SubgraphView<N, R, U>)
    requires
        forall|kind: int, id: i64| #[trigger] entry(g1, kind, id) == entry(g2, kind, id),
    ensures
        g1 == g2,
{
    assert forall|id: i64| g1.nodes.contains_key(id) == g2.nodes.contains_key(id) by {
        assert(entry(g1, 0, id) == entry(g2, 0, id));
    }
    assert forall|id: i64| g1.relations.contains_key(id) == g2.relations.contains_key(id) by {
        assert(entry(g1, 1, id) == entry(g2, 1, id));
    }
    assert forall|id: i64| g1.unbounded_relations.contains_key(id) == g2.unbounded_relations.contains_key(id) by {
        assert(entry(g1, 2, id) == entry(g2, 2, id));
    }
    assert forall|id: i64| g1.nodes.contains_key(id) implies g1.nodes[id] == g2.nodes[id] by {
        assert(entry(g1, 0, id) == entry(g2, 0, id));
    }
    assert forall|id: i64| g1.relations.contains_key(id) implies g1.relations[id] == g2.relations[id] by {
        assert(entry(g1, 1, id) == entry(g2, 1, id));
    }
    assert forall|id: i64| g1.unbounded_relations.contains_key(id) implies g1.unbounded_relations[id] == g2.unbounded_relations[id] by {
        assert(entry(g1, 2, id) == entry(g2, 2, id));
    }
    assert(g1.nodes =~= g2.nodes);
    assert(g1.relations =~= g2.relations);
    assert(g1.unbounded_relations =~= g2.unbounded_relations);
}

proof fn lemma_first_item_append<N, R, U>(a: Seq<GraphItem<N, R, U>>, b: Seq<GraphItem<N, R, U>>, kind: int, id: i64)
    ensures
        first_item(a + b, kind, id) == (match first_item(a, kind, id) {
            Some(x) => Some(x),
            None => first_item(b, kind, id),
        }),
    decreases b.len(),
{
    if b.len() == 0 {
        assert(a + b =~= a);
    } else {
        lemma_first_item_append(a, b.drop_last(), kind, id);
        assert((a + b).drop_last() =~= a + b.drop_last());
    }
}

pub proof fn lemma_rows_items_append<N, R, U>(a: Seq<Vec<RowValue<N, R, U>>>, b: Seq<Vec<RowValue<N, R, U>>>)
    ensures
        rows_items(a + b) == rows_items(a) + rows_items(b),
    decreases b.len(),
{
    if b.len() == 0 {
        assert(a + b =~= a);
        assert(rows_items(a) + rows_items(b) =~= rows_items(a));
    } else {
        lemma_rows_items_append(a, b.drop_last());
        assert((a + b).drop_last() =~= a + b.drop_last());
        assert(rows_items(a + b) =~= rows_items(a) + rows_items(b));
    }
}

/// Collecting the same rows a second time changes nothing: the subgraph of
/// `rows` followed by `rows` again is the subgraph of `rows`.
pub proof fn lemma_rows_collected_twice<N, R, U>(rows: Seq<Vec<RowValue<N, R, U>>>)
    ensures
        add_items(empty_view::<N, R, U>(), rows_items(rows + rows)) == add_items(empty_view::<N, R, U>(), rows_items(rows)),
{
    let items = rows_items(rows);
    lemma_rows_items_append(rows, rows);
    assert forall|kind: int, id: i64|
        #[trigger] entry(add_items(empty_view::<N, R, U>(), items + items), kind, id)
            == entry(add_items(empty_view::<N, R, U>(), items), kind, id) by {
        lemma_first_element_wins(items + items, kind, id);
        lemma_first_element_wins(items, kind, id);
        lemma_first_item_append(items, items, kind, id);
    }
    lemma_views_equal_by_entries(
        add_items(empty_view::<N, R, U>(), items + items),
        add_items(empty_view::<N, R, U>(), items),
    );
}

impl<N, R, U> Subgraph<N, R, U> {
    /// An empty subgraph.
    pub fn new() -> (g: Self)
        ensures
            g@ == empty_view::<N, R, U>(),
    {
        let g = Subgraph { nodes: HashMap::new(), relations: HashMap::new(), unbounded_relations: HashMap::new() };
        assert(g@.nodes =~= Map::empty());
        assert(g@.relations =~= Map::empty());
        assert(g@.unbounded_relations =~= Map::empty());
        g
    }

    /// Adds a node unless one with its id is present.
    fn add_node(&mut self, node: GraphNode<N>)
        ensures
            final(self)@ == add_item(old(self)@, GraphItem::Node(node)),
    {
        if !self.nodes.contains_key(&node.id) {
            self.nodes.insert(node.id, node);
        }
    }

    /// Adds a relationship unless one with its id is present.
    fn add_relationship(&mut self, rel: GraphRelation<R>)
        ensures
            final(self)@ == add_item(old(self)@, GraphItem::Relation(rel)),
    {
        if !self.relations.contains_key(&rel.id) {
            self.relations.insert(rel.id, rel);
        }
    }

    /// Adds an unbounded relationship unless one with its id is present.
    fn add_unbounded_relationship(&mut self, rel: GraphUnboundedRelation<U>)
        ensures
            final(self)@ == add_item(old(self)@, GraphItem::Unbounded(rel)),
    {
        if !self.unbounded_relations.contains_key(&rel.id) {
            self.unbounded_relations.insert(rel.id, rel);
        }
    }

    /// Adds the nodes of a path, then its relationships.
    fn add_path(&mut self, path: GraphPath<N, U>)
        ensures
            final(self)@ == add_items(old(self)@, path_items::<N, R, U>(path)),
    {
        let ghost start = self@;
        let ghost node_items = path.nodes@.map_values(|n: GraphNode<N>| GraphItem::<N, R, U>::Node(n));
        let ghost rel_items = path.rels@.map_values(|u: GraphUnboundedRelation<U>| GraphItem::<N, R, U>::Unbounded(u));
        let GraphPath { nodes, rels } = path;
        let ghost nodes_seq = nodes@;
        let ghost rels_seq = rels@;
        assert(node_items.take(0) =~= Seq::<GraphItem<N, R, U>>::empty());
        for node in it: nodes
            invariant
                it.seq() == nodes_seq,
                node_items == nodes_seq.map_values(|n: GraphNode<N>| GraphItem::<N, R, U>::Node(n)),
                self@ == add_items(start, node_items.take(it.index() as int)),
        {
            let ghost k = it.index() as int;
            assert(node_items.take(k + 1).drop_last() =~= node_items.take(k));
            assert(node_items.take(k + 1).last() == GraphItem::<N, R, U>::Node(node));
            self.add_node(node);
        }
        assert(node_items.take(node_items.len() as int) =~= node_items);
        let ghost mid = self@;
        assert(rel_items.take(0) =~= Seq::<GraphItem<N, R, U>>::empty());
        for rel in it: rels
            invariant
                it.seq() == rels_seq,
                rel_items == rels_seq.map_values(|u: GraphUnboundedRelation<U>| GraphItem::<N, R, U>::Unbounded(u)),
                self@ == add_items(mid, rel_items.take(it.index() as int)),
        {
            let ghost k = it.index() as int;
            assert(rel_items.take(k + 1).drop_last() =~= rel_items.take(k));
            assert(rel_items.take(k + 1).last() == GraphItem::<N, R, U>::Unbounded(rel));
            self.add_unbounded_relationship(rel);
        }
        assert(rel_items.take(rel_items.len() as int) =~= rel_items);
        proof {
            lemma_add_items_append(start, node_items, rel_items);
        }
    }

    /// Adds what one column of a row holds.
    fn add_value(&mut self, value: RowValue<N, R, U>)
        ensures
            final(self)@ == add_items(old(self)@, value_items(value)),
    {
        let ghost items = value_items(value);
        let ghost g0 = self@;
        let RowValue { path, node, relation, unbounded } = value;
        if let Some(p) = path {
            assert(items == path_items::<N, R, U>(p));
            self.add_path(p);
        } else if let Some(n) = node {
            proof {
                lemma_add_single(g0, GraphItem::<N, R, U>::Node(n));
            }
            self.add_node(n);
        } else if let Some(r) = relation {
            proof {
                lemma_add_single(g0, GraphItem::<N, R, U>::Relation(r));
            }
            self.add_relationship(r);
        } else if let Some(u) = unbounded {
            proof {
                lemma_add_single(g0, GraphItem::<N, R, U>::Unbounded(u));
            }
            self.add_unbounded_relationship(u);
        } else {
            assert(items.len() == 0);
            assert(add_items(g0, items) == g0);
        }
    }

    /// All nodes, in no particular order.
    pub fn nodes(&self) -> (res: Vec<&GraphNode<N>>)
        ensures
            res@.len() == self@.nodes.len(),
            res@.unref().to_set() == self@.nodes.values(),
            res@ == vstd::std_specs::hash::spec_values_iter(&self.nodes).remaining(),
    {
        let mut res: Vec<&GraphNode<N>> = Vec::new();
        let ghost vals = vstd::std_specs::hash::spec_values_iter(&self.nodes).remaining();
        for n in it: self.nodes.values()
            invariant
                it.seq() == vals,
                res@ == vals.take(it.index() as int),
        {
            assert(vals.take(it.index() + 1) =~= vals.take(it.index() as int).push(n));
            res.push(n);
        }
        assert(res@ =~= vals);
        res
    }

    /// All relationships with known start and end nodes, in no particular
    /// order.
    pub fn relationships(&self) -> (res: Vec<&GraphRelation<R>>)
        ensures
            res@.len() == self@.relations.len(),
            res@.unref().to_set() == self@.relations.values(),
            res@ == vstd::std_specs::hash::spec_values_iter(&self.relations).remaining(),
    {
        let mut res: Vec<&GraphRelation<R>> = Vec::new();
        let ghost vals = vstd::std_specs::hash::spec_values_iter(&self.relations).remaining();
        for r in it: self.relations.values()
            invariant
                it.seq() == vals,
                res@ == vals.take(it.index() as int),
        {
            assert(vals.take(it.index() + 1) =~= vals.take(it.index() as int).push(r));
            res.push(r);
        }
        assert(res@ =~= vals);
        res
    }

    /// The nodes that carry `label`, in no particular order; a caller decodes
    /// each one's payload into a type of its own.
    pub fn nodes_as(&self, label: &str) -> (res: Vec<&GraphNode<N>>)
        ensures
            forall|i: int| 0 <= i < res@.len() ==> has_label(*res@[i], label@) && self@.nodes.values().contains(*res@[i]),
            forall|n: GraphNode<N>| #[trigger] self@.nodes.values().contains(n) && has_label(n, label@) ==> res@.unref().contains(n),
            res@.len() <= self@.nodes.len(),
            res@.unref() == vstd::std_specs::hash::spec_values_iter(&self.nodes).remaining().unref().filter(
                labelled(label@),
            ),
            forall|i: int| 0 <= i < res@.len() ==> label_among((*#[trigger] res@[i]).labels@, label@),
            forall|n: GraphNode<N>| #[trigger] self@.nodes.values().contains(n)
                && label_among(n.labels@, label@) ==> res@.unref().contains(n),
    {
        let wanted = String::from_str(label);
        let mut res: Vec<&GraphNode<N>> = Vec::new();
        let ghost vals = vstd::std_specs::hash::spec_values_iter(&self.nodes).remaining();
        let ghost vs = vals.unref();
        let ghost p = labelled::<N>(label@);
        for n in it: self.nodes.values()
            invariant
                it.seq() == vals,
                vs == vals.unref(),
                wanted@ == label@,
                p == labelled::<N>(label@),
                res@.unref() == vs.take(it.index() as int).filter(p),
        {
            let ghost k = it.index() as int;
            assert(vs[k] == *n);
            proof {
                reveal(Seq::filter);
            }
            assert(vs.take(k + 1).drop_last() =~= vs.take(k));
            assert(vs.take(k + 1).last() == vs[k]);
            assert(p(vs[k]) == has_label(vs[k], label@));
            let ghost before = res@;
            if node_has_label(n, &wanted) {
                res.push(n);
                assert(res@.unref() =~= before.unref().push(vs[k]));
            }
        }
        assert(vs.take(vs.len() as int) =~= vs);
        proof {
            vs.lemma_filter_len(p);
            assert forall|i: int| 0 <= i < res@.len() implies has_label(*res@[i], label@) && self@.nodes.values().contains(*res@[i]) by {
                assert(res@.unref()[i] == *res@[i]);
                vs.lemma_filter_pred(p, i);
                assert(vs.filter(p).contains(*res@[i]));
                vs.lemma_filter_contains_rev(p, *res@[i]);
                assert(vs.to_set().contains(*res@[i]));
            }
            assert forall|x| #[trigger] self@.nodes.values().contains(x) && has_label(x, label@) implies res@.unref().contains(x) by {
                assert(vs.to_set().contains(x));
                let j = choose|j: int| 0 <= j < vs.len() && vs[j] == x;
                vs.lemma_filter_contains(p, j);
            }
        }
        res
    }

    /// The relationships with known start and end nodes whose type is `typ`,
    /// in no particular order; a caller decodes each one's payload into a
    /// type of its own.
    pub fn relationships_as(&self, typ: &str) -> (res: Vec<&GraphRelation<R>>)
        ensures
            forall|i: int| 0 <= i < res@.len() ==> res@[i].typ@ == typ@ && self@.relations.values().contains(*res@[i]),
            forall|r: GraphRelation<R>| #[trigger] self@.relations.values().contains(r) && r.typ@ == typ@ ==> res@.unref().contains(r),
            res@.len() <= self@.relations.len(),
            res@.unref() == vstd::std_specs::hash::spec_values_iter(&self.relations).remaining().unref().filter(
                typed(typ@),
            ),
    {
        let wanted = String::from_str(typ);
        let mut res: Vec<&GraphRelation<R>> = Vec::new();
        let ghost vals = vstd::std_specs::hash::spec_values_iter(&self.relations).remaining();
        let ghost vs = vals.unref();
        let ghost p = typed::<R>(typ@);
        for r in it: self.relations.values()
            invariant
                it.seq() == vals,
                vs == vals.unref(),
                wanted@ == typ@,
                p == typed::<R>(typ@),
                res@.unref() == vs.take(it.index() as int).filter(p),
        {
            let ghost k = it.index() as int;
            assert(vs[k] == *r);
            proof {
                reveal(Seq::filter);
            }
            assert(vs.take(k + 1).drop_last() =~= vs.take(k));
            assert(vs.take(k + 1).last() == vs[k]);
            assert(p(vs[k]) == (vs[k].typ@ == typ@));
            let ghost before = res@;
            if r.typ == wanted {
                res.push(r);
                assert(res@.unref() =~= before.unref().push(vs[k]));
            }
        }
        assert(vs.take(vs.len() as int) =~= vs);
        proof {
            vs.lemma_filter_len(p);
            assert forall|i: int| 0 <= i < res@.len() implies res@[i].typ@ == typ@ && self@.relations.values().contains(*res@[i]) by {
                assert(res@.unref()[i] == *res@[i]);
                vs.lemma_filter_pred(p, i);
                assert(vs.filter(p).contains(*res@[i]));
                vs.lemma_filter_contains_rev(p, *res@[i]);
                assert(vs.to_set().contains(*res@[i]));
            }
            assert forall|x| #[trigger] self@.relations.values().contains(x) && x.typ@ == typ@ implies res@.unref().contains(x) by {
                assert(vs.to_set().contains(x));
                let j = choose|j: int| 0 <= j < vs.len() && vs[j] == x;
                vs.lemma_filter_contains(p, j);
            }
        }
        res
    }

    /// Collects the graph elements of result rows: paths, nodes, full
    /// relationships and unbounded relationships.  An element whose id has
    /// been seen before among its kind is not added again.
    pub fn from_rows(rows: Vec<Vec<RowValue<N, R, U>>>) -> (g: Self)
        ensures
            g@ == add_items(empty_view::<N, R, U>(), rows_items(rows@)),
    {
        let mut graph = Subgraph::new();
        let ghost all_rows = rows@;
        assert(all_rows.take(0) =~= Seq::<Vec<RowValue<N, R, U>>>::empty());
        for row in it: rows
            invariant
                it.seq() == all_rows,
                graph@ == add_items(empty_view::<N, R, U>(), rows_items(all_rows.take(it.index() as int))),
        {
            let ghost k = it.index() as int;
            let ghost before = graph@;
            let ghost cells = row@;
            assert(cells.take(0) =~= Seq::<RowValue<N, R, U>>::empty());
            for value in jt: row
                invariant
                    jt.seq() == cells,
                    graph@ == add_items(before, row_items(cells.take(jt.index() as int))),
            {
                let ghost j = jt.index() as int;
                let ghost prev = graph@;
                assert(cells.take(j + 1).drop_last() =~= cells.take(j));
                assert(cells.take(j + 1).last() == value);
                graph.add_value(value);
                proof {
                    lemma_add_items_append(before, row_items(cells.take(j)), value_items(value));
                }
            }
            assert(cells.take(cells.len() as int) =~= cells);
            assert(all_rows.take(k + 1).drop_last() =~= all_rows.take(k));
            assert(all_rows.take(k + 1).last() == all_rows[k]);
            proof {
                lemma_add_items_append(
                    empty_view::<N, R, U>(),
                    rows_items(all_rows.take(k)),
                    row_items(cells),
                );
            }
        }
        assert(all_rows.take(all_rows.len() as int) =~= all_rows);
        graph
    }
}

} // verus!
