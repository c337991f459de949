//! The query facility: a builder that accumulates graph predicates and an
//! executor bound to the resulting candidate set.
//!
//! A builder never mutates storage. Its predicates are AND-combined; the
//! candidate set is seeded from the most selective operation present —
//! exact identifier, then indexed equality, then entity name, then a full
//! scan — regardless of the order the predicates were added, and narrowed
//! by the remaining predicates evaluated against materialized records. A
//! shortest-path operation replaces the result with the node sequence of
//! an unweighted breadth-first traversal over the directed edge relation;
//! visited-set pruning bounds the traversal, so cycles cannot make it run
//! forever.

use crate::data::Data;
use crate::data::DataView;
use crate::data::Payload;
use crate::data::PayloadView;
use crate::db::DBError;
use crate::db::Database;
use crate::db::dec_edge_full;
use crate::db::dec_entity_full;
use crate::db::dec_node_full;
use crate::entity::index_ids;
use crate::id::NodeID;
use crate::node::NodeRecord;
use crate::node::prop_value;
use vstd::multiset::Multiset;
use vstd::prelude::*;

verus! {

/// One graph predicate (or the traversal operation) of a query.
#[derive(Debug)]
pub enum QueryOperation {
    /// Exact node identifier.
    ByID(NodeID),
    /// Indexed property equality: property name and wanted value.
    ByIndex(String, Payload),
    /// Entity-name filter.
    ByEntityName(String),
    /// Edge existence by endpoint pair; keeps the endpoints.
    ByEdge(NodeID, NodeID),
    /// Some incident edge carries this label.
    ByEdgeLabel(String),
    /// Some incident edge carries this payload.
    ByEdgeData(Data),
    /// Nodes an edge leads to from the given node.
    ByEdgeFrom(NodeID),
    /// Nodes an edge leads from into the given node.
    ByEdgeTo(NodeID),
    /// Free-form property equality, evaluated per candidate.
    FilterByProp(String, Payload),
    /// Shortest path between two nodes.
    ShortPath(NodeID, NodeID),
}

/// The mathematical value of a [`QueryOperation`].
pub enum QueryOpView {
    ByID(NodeID),
    ByIndex(Seq<char>, PayloadView),
    ByEntityName(Seq<char>),
    ByEdge(NodeID, NodeID),
    ByEdgeLabel(Seq<char>),
    ByEdgeData(DataView),
    ByEdgeFrom(NodeID),
    ByEdgeTo(NodeID),
    FilterByProp(Seq<char>, PayloadView),
    ShortPath(NodeID, NodeID),
}

impl View for QueryOperation {
    type V = QueryOpView;

    open spec fn view(&self) -> QueryOpView {
        match self {
            QueryOperation::ByID(id) => QueryOpView::ByID(*id),
            QueryOperation::ByIndex(p, v) => QueryOpView::ByIndex(p@, v@),
            QueryOperation::ByEntityName(s) => QueryOpView::ByEntityName(s@),
            QueryOperation::ByEdge(f, t) => QueryOpView::ByEdge(*f, *t),
            QueryOperation::ByEdgeLabel(l) => QueryOpView::ByEdgeLabel(l@),
            QueryOperation::ByEdgeData(d) => QueryOpView::ByEdgeData(d@),
            QueryOperation::ByEdgeFrom(f) => QueryOpView::ByEdgeFrom(*f),
            QueryOperation::ByEdgeTo(t) => QueryOpView::ByEdgeTo(*t),
            QueryOperation::FilterByProp(p, v) => QueryOpView::FilterByProp(p@, v@),
            QueryOperation::ShortPath(f, t) => QueryOpView::ShortPath(*f, *t),
        }
    }
}

/// Whether some stored edge with the given label touches the node.
pub open spec fn has_incident_label(db: Database, id: NodeID, label: Seq<char>) -> bool {
    exists|k: Seq<char>|
        #[trigger] db.edges_map().contains_key(k) && {
            let d = dec_edge_full(db.edges_map()[k]);
            d matches Some(e) && e.label == label && (e.from == id || e.to == id)
        }
}

/// Whether some stored edge with the given payload touches the node.
pub open spec fn has_incident_data(db: Database, id: NodeID, data: DataView) -> bool {
    exists|k: Seq<char>|
        #[trigger] db.edges_map().contains_key(k) && {
            let d = dec_edge_full(db.edges_map()[k]);
            d matches Some(e) && e.data == data && (e.from == id || e.to == id)
        }
}

/// Whether the stored node satisfies one predicate. The traversal
/// operation is no per-node predicate and holds of every node.
pub open spec fn op_matches(db: Database, op: QueryOpView, id: NodeID) -> bool {
    match op {
        QueryOpView::ByID(x) => id == x,
        QueryOpView::ByIndex(p, v) => db.node_at(id) matches Some(n) && prop_value(n.props, p)
            == Some(v),
        QueryOpView::ByEntityName(s) => db.node_at(id) matches Some(n) && n.entity_name == s,
        QueryOpView::ByEdge(f, t) => db.edge_at(f, t) is Some && (id == f || id == t),
        QueryOpView::ByEdgeLabel(l) => has_incident_label(db, id, l),
        QueryOpView::ByEdgeData(d) => has_incident_data(db, id, d),
        QueryOpView::ByEdgeFrom(f) => db.edge_at(f, id) is Some,
        QueryOpView::ByEdgeTo(t) => db.edge_at(id, t) is Some,
        QueryOpView::FilterByProp(p, v) => db.node_at(id) matches Some(n) && prop_value(
            n.props,
            p,
        ) == Some(v),
        QueryOpView::ShortPath(_, _) => true,
    }
}

/// Whether the stored node satisfies every predicate of the list.
pub open spec fn ops_match(db: Database, ops: Seq<QueryOpView>, id: NodeID) -> bool {
    forall|i: int| 0 <= i < ops.len() ==> op_matches(db, #[trigger] ops[i], id)
}

/// A node sequence is a path in the stored graph from `from` to `to`:
/// nonempty, with the right ends, every hop a stored directed edge, and no
/// node visited twice.
pub open spec fn valid_path(db: Database, path: Seq<NodeID>, from: NodeID, to: NodeID) -> bool {
    &&& path.len() >= 1
    &&& path[0] == from
    &&& path.last() == to
    &&& forall|i: int| 0 <= i < path.len() - 1 ==> db.edge_at(#[trigger] path[i], path[i + 1]) is Some
    &&& forall|i: int, j: int| 0 <= i < j < path.len() ==> #[trigger] path[i] != #[trigger] path[j]
}

/// Whether some stored edge with the given label touches the node.
fn check_incident_label(db: &Database, id: NodeID, label: &str) -> (r: bool)
    requires
        db.wf(),
    ensures
        r == has_incident_label(*db, id, label@),
{
    let ghost s = db.edges.view_entries();
    let n = db.edges.entries.len();
    let mut i: usize = 0;
    while i < n
        invariant
            db.wf(),
            s == db.edges.view_entries(),
            n == db.edges.entries.len(),
            0 <= i <= n,
            forall|j: int|
                0 <= j < i ==> !{
                    let d = dec_edge_full(#[trigger] s[j].1);
                    d matches Some(e) && e.label == label@ && (e.from == id || e.to == id)
                },
        decreases n - i,
    {
        proof {
            assert(s[i as int] == (db.edges.entries@[i as int].0@, db.edges.entries@[i as int].1@));
            crate::kv::lemma_key_index_unique(s, s[i as int].0, i as int);
        }
        match crate::edge::EdgeItem::from_bytes(&db.edges.entries[i].1) {
            Ok(e) => {
                let label_eq = crate::text::str_eq(e.label.as_str(), label);
                if label_eq && (e.from == id || e.to == id) {
                    proof {
                        assert(db.edges_map().contains_key(s[i as int].0));
                        assert(dec_edge_full(db.edges_map()[s[i as int].0]) matches Some(ev)
                            && ev.label == label@ && (ev.from == id || ev.to == id));
                    }
                    return true;
                }
            },
            Err(_) => {
            },
        }
        i = i + 1;
    }
    proof {
        if has_incident_label(*db, id, label@) {
            let k = choose|k: Seq<char>|
                #[trigger] db.edges_map().contains_key(k) && {
                    let d = dec_edge_full(db.edges_map()[k]);
                    d matches Some(e) && e.label == label@ && (e.from == id || e.to == id)
                };
            let w = crate::kv::key_index(s, k);
            crate::kv::lemma_key_index_unique(s, k, w);
        }
    }
    false
}

/// Whether some stored edge with the given payload touches the node.
fn check_incident_data(db: &Database, id: NodeID, data: &Data) -> (r: bool)
    requires
        db.wf(),
    ensures
        r == has_incident_data(*db, id, data@),
{
    let ghost s = db.edges.view_entries();
    let n = db.edges.entries.len();
    let mut i: usize = 0;
    while i < n
        invariant
            db.wf(),
            s == db.edges.view_entries(),
            n == db.edges.entries.len(),
            0 <= i <= n,
            forall|j: int|
                0 <= j < i ==> !{
                    let d = dec_edge_full(#[trigger] s[j].1);
                    d matches Some(e) && e.data == data@ && (e.from == id || e.to == id)
                },
        decreases n - i,
    {
        proof {
            assert(s[i as int] == (db.edges.entries@[i as int].0@, db.edges.entries@[i as int].1@));
            crate::kv::lemma_key_index_unique(s, s[i as int].0, i as int);
        }
        match crate::edge::EdgeItem::from_bytes(&db.edges.entries[i].1) {
            Ok(e) => {
                let data_eq = e.data == *data;
                if data_eq && (e.from == id || e.to == id) {
                    proof {
                        assert(db.edges_map().contains_key(s[i as int].0));
                        assert(dec_edge_full(db.edges_map()[s[i as int].0]) matches Some(ev)
                            && ev.data == data@ && (ev.from == id || ev.to == id));
                    }
                    return true;
                }
            },
            Err(_) => {
            },
        }
        i = i + 1;
    }
    proof {
        if has_incident_data(*db, id, data@) {
            let k = choose|k: Seq<char>|
                #[trigger] db.edges_map().contains_key(k) && {
                    let d = dec_edge_full(db.edges_map()[k]);
                    d matches Some(e) && e.data == data@ && (e.from == id || e.to == id)
                };
            let w = crate::kv::key_index(s, k);
            crate::kv::lemma_key_index_unique(s, k, w);
        }
    }
    false
}

/// Whether the stored node satisfies one predicate.
#[verifier::spinoff_prover]
#[verifier::rlimit(100)]
fn check_op(db: &Database, op: &QueryOperation, id: NodeID) -> (r: bool)
    requires
        db.wf(),
    ensures
        r == op_matches(*db, op@, id),
{
    match op {
        QueryOperation::ByID(x) => id == *x,
        QueryOperation::ByIndex(p, v) => {
            match db.get_node(id) {
                Ok(n) => {
                    match n.get_prop(p.as_str()) {
                        Some(val) => *val == *v,
                        None => false,
                    }
                },
                Err(_) => false,
            }
        },
        QueryOperation::ByEntityName(s) => {
            match db.get_node(id) {
                Ok(n) => crate::text::str_eq(n.entity_name.as_str(), s.as_str()),
                Err(_) => false,
            }
        },
        QueryOperation::ByEdge(f, t) => {
            let ok = match db.get_edge(*f, *t) {
                Ok(_) => true,
                Err(_) => false,
            };
            ok && (id == *f || id == *t)
        },
        QueryOperation::ByEdgeLabel(l) => check_incident_label(db, id, l.as_str()),
        QueryOperation::ByEdgeData(d) => check_incident_data(db, id, d),
        QueryOperation::ByEdgeFrom(f) => {
            match db.get_edge(*f, id) {
                Ok(_) => true,
                Err(_) => false,
            }
        },
        QueryOperation::ByEdgeTo(t) => {
            match db.get_edge(id, *t) {
                Ok(_) => true,
                Err(_) => false,
            }
        },
        QueryOperation::FilterByProp(p, v) => {
            match db.get_node(id) {
                Ok(n) => {
                    match n.get_prop(p.as_str()) {
                        Some(val) => *val == *v,
                        None => false,
                    }
                },
                Err(_) => false,
            }
        },
        QueryOperation::ShortPath(_, _) => true,
    }
}

/// The first shortest-path operation of the list, as executable values.
fn find_shortpath_exec(ops: &Vec<QueryOperation>) -> (r: Option<(NodeID, NodeID)>)
    ensures
        match find_shortpath(ops@.map_values(|o: QueryOperation| o@)) {
            Some((f, t)) => r == Some((f, t)),
            None => r is None,
        },
{
    let ghost opsv = ops@.map_values(|o: QueryOperation| o@);
    let n = ops.len();
    let mut i: usize = 0;
    proof {
        assert(opsv.skip(0) =~= opsv);
    }
    while i < n
        invariant
            n == ops.len(),
            0 <= i <= n,
            opsv == ops@.map_values(|o: QueryOperation| o@),
            find_shortpath(opsv) == find_shortpath(opsv.skip(i as int)),
        decreases n - i,
    {
        proof {
            assert(opsv.skip(i as int)[0] == opsv[i as int]);
            assert(opsv[i as int] == ops@[i as int]@);
            assert(opsv.skip(i as int).drop_first() =~= opsv.skip(i + 1));
        }
        match &ops[i] {
            QueryOperation::ShortPath(f, t) => {
                proof {
                    assert(find_shortpath(opsv) == Some((*f, *t)));
                }
                return Some((*f, *t));
            },
            _ => {
            },
        }
        i = i + 1;
    }
    proof {
        assert(opsv.skip(n as int).len() == 0);
        assert(find_shortpath(opsv) is None);
    }
    None
}

/// Accumulates the predicates of one query against one storage handle; it
/// never mutates storage.
#[derive(Debug)]
pub struct QueryBuilder<'a> {
    /// The storage handle the query reads through.
    pub db: &'a Database,
    /// The accumulated operations, in the order they were added.
    pub ops: Vec<QueryOperation>,
}

impl<'a> QueryBuilder<'a> {
    /// A fresh builder with no predicates.
    pub fn new(db: &'a Database) -> (r: QueryBuilder<'a>)
        ensures
            r.db == db,
            r.ops@.map_values(|o: QueryOperation| o@) == Seq::<QueryOpView>::empty(),
    {
        let r = QueryBuilder { db, ops: Vec::new() };
        proof {
            assert(r.ops@.map_values(|o: QueryOperation| o@) =~= Seq::<QueryOpView>::empty());
        }
        r
    }

    /// Add an exact-identifier predicate.
    pub fn by_id(self, id: &NodeID) -> (r: QueryBuilder<'a>)
        ensures
            r.db == self.db,
            r.ops@.map_values(|o: QueryOperation| o@) == self.ops@.map_values(
                |o: QueryOperation| o@,
            ).push(QueryOpView::ByID(*id)),
    {
        self.push_op(QueryOperation::ByID(*id))
    }

    /// Add an indexed-property equality predicate.
    pub fn by_index(self, index: &str, value: Payload) -> (r: QueryBuilder<'a>)
        ensures
            r.db == self.db,
            r.ops@.map_values(|o: QueryOperation| o@) == self.ops@.map_values(
                |o: QueryOperation| o@,
            ).push(QueryOpView::ByIndex(index@, value@)),
    {
        self.push_op(QueryOperation::ByIndex(index.to_owned(), value))
    }

    /// Add an entity-name predicate.
    pub fn by_entity_name(self, entity_name: String) -> (r: QueryBuilder<'a>)
        ensures
            r.db == self.db,
            r.ops@.map_values(|o: QueryOperation| o@) == self.ops@.map_values(
                |o: QueryOperation| o@,
            ).push(QueryOpView::ByEntityName(entity_name@)),
    {
        self.push_op(QueryOperation::ByEntityName(entity_name))
    }

    /// Add an edge-existence predicate for an endpoint pair.
    pub fn by_edge(self, from: &NodeID, to: &NodeID) -> (r: QueryBuilder<'a>)
        ensures
            r.db == self.db,
            r.ops@.map_values(|o: QueryOperation| o@) == self.ops@.map_values(
                |o: QueryOperation| o@,
            ).push(QueryOpView::ByEdge(*from, *to)),
    {
        self.push_op(QueryOperation::ByEdge(*from, *to))
    }

    /// Add an incident-edge-label predicate.
    pub fn by_edge_label(self, edge_type: &str) -> (r: QueryBuilder<'a>)
        ensures
            r.db == self.db,
            r.ops@.map_values(|o: QueryOperation| o@) == self.ops@.map_values(
                |o: QueryOperation| o@,
            ).push(QueryOpView::ByEdgeLabel(edge_type@)),
    {
        self.push_op(QueryOperation::ByEdgeLabel(edge_type.to_owned()))
    }

    /// Add an incident-edge-payload predicate.
    pub fn by_edge_data(self, data: &Data) -> (r: QueryBuilder<'a>)
        ensures
            r.db == self.db,
            r.ops@.map_values(|o: QueryOperation| o@) == self.ops@.map_values(
                |o: QueryOperation| o@,
            ).push(QueryOpView::ByEdgeData(data@)),
    {
        self.push_op(QueryOperation::ByEdgeData(data.clone()))
    }

    /// Add an edges-from predicate: nodes an edge of the graph leads to
    /// from the given node.
    pub fn by_edge_from(self, from: &NodeID) -> (r: QueryBuilder<'a>)
        ensures
            r.db == self.db,
            r.ops@.map_values(|o: QueryOperation| o@) == self.ops@.map_values(
                |o: QueryOperation| o@,
            ).push(QueryOpView::ByEdgeFrom(*from)),
    {
        self.push_op(QueryOperation::ByEdgeFrom(*from))
    }

    /// Add an edges-to predicate: nodes an edge of the graph leads from
    /// into the given node.
    pub fn by_edge_to(self, to: &NodeID) -> (r: QueryBuilder<'a>)
        ensures
            r.db == self.db,
            r.ops@.map_values(|o: QueryOperation| o@) == self.ops@.map_values(
                |o: QueryOperation| o@,
            ).push(QueryOpView::ByEdgeTo(*to)),
    {
        self.push_op(QueryOperation::ByEdgeTo(*to))
    }

    /// Add a free-form property-equality predicate, evaluated per
    /// candidate.
    pub fn filter_by_prop(self, prop: &str, value: Payload) -> (r: QueryBuilder<'a>)
        ensures
            r.db == self.db,
            r.ops@.map_values(|o: QueryOperation| o@) == self.ops@.map_values(
                |o: QueryOperation| o@,
            ).push(QueryOpView::FilterByProp(prop@, value@)),
    {
        self.push_op(QueryOperation::FilterByProp(prop.to_owned(), value))
    }

    /// Add a shortest-path operation between two nodes.
    pub fn short_path(self, from: &NodeID, to: &NodeID) -> (r: QueryBuilder<'a>)
        ensures
            r.db == self.db,
            r.ops@.map_values(|o: QueryOperation| o@) == self.ops@.map_values(
                |o: QueryOperation| o@,
            ).push(QueryOpView::ShortPath(*from, *to)),
    {
        self.push_op(QueryOperation::ShortPath(*from, *to))
    }

    /// Append one operation.
    fn push_op(self, op: QueryOperation) -> (r: QueryBuilder<'a>)
        ensures
            r.db == self.db,
            r.ops@.map_values(|o: QueryOperation| o@) == self.ops@.map_values(
                |o: QueryOperation| o@,
            ).push(op@),
    {
        let QueryBuilder { db, mut ops } = self;
        let ghost opsv = ops@.map_values(|o: QueryOperation| o@);
        ops.push(op);
        proof {
            assert(ops@.map_values(|o: QueryOperation| o@) =~= opsv.push(op@));
        }
        QueryBuilder { db, ops }
    }

    /// Compile the accumulated predicates into an executor.
    ///
    /// The candidate set is seeded from the most selective operation
    /// present — exact identifier, then indexed equality, then entity
    /// name, then a full node scan — and narrowed by every predicate, so
    /// every resulting candidate is a stored node satisfying all of them.
    /// A shortest-path operation then replaces the result with a valid
    /// minimum-hop node path (or an empty result when no path exists).
    #[verifier::spinoff_prover]
    #[verifier::rlimit(100)]
    pub fn build(self) -> (r: Result<QueryExecutor<'a>, DBError>)
        requires
            self.db.wf(),
        ensures
            r matches Ok(ex) ==> ex.db == self.db && ex.operations@.map_values(
                |o: QueryOperation| o@,
            ) == self.ops@.map_values(|o: QueryOperation| o@),
            ({
                let opsv = self.ops@.map_values(|o: QueryOperation| o@);
                match find_shortpath(opsv) {
                    Some((f, t)) => {
                        &&& r matches Ok(ex) ==> valid_path(*self.db, ex.result@, f, t)
                        &&& (r is Err) <==> (forall|p: Seq<NodeID>|
                            !valid_path(*self.db, p, f, t))
                        &&& r is Err ==> r == Err::<QueryExecutor<'a>, DBError>(
                            (DBError::PathNotFoundError { from: f, to: t }),
                        )
                    },
                    None => r matches Ok(ex) && ex.result@ == seed_spec(*self.db, opsv).filter(
                        (|id: NodeID| ops_match(*self.db, opsv, id)),
                    ),
                }
            }),
    {
        broadcast use vstd::seq_lib::group_filter_ensures;

        let ghost opsv = self.ops@.map_values(|o: QueryOperation| o@);
        let db = self.db;
        // The shortest-path operation, if any, takes over the query.
        match find_shortpath_exec(&self.ops) {
            Some((f, t)) => {
                let path = bfs_short_path(db, f, t);
                if path.len() == 0 {
                    return Err(DBError::PathNotFoundError { from: f, to: t });
                }
                proof {
                    assert(valid_path(*db, path@, f, t));
                    assert(!(forall|p: Seq<NodeID>| !valid_path(*db, p, f, t)));
                }
                return Ok(QueryExecutor { db, operations: self.ops, result: path });
            },
            None => {
            },
        }
        // Seed from the most selective operation present.
        let seed = seed_candidates(db, &self.ops);
        let ghost pred = (|id: NodeID| ops_match(*db, opsv, id));
        // Narrow by every predicate.
        let mut result: Vec<NodeID> = Vec::new();
        let m = seed.len();
        let mut i: usize = 0;
        proof {
            assert(seed@.take(0) =~= Seq::<NodeID>::empty());
            assert(seed@.take(0).filter(pred) =~= Seq::<NodeID>::empty());
        }
        while i < m
            invariant
                m == seed.len(),
                0 <= i <= m,
                db.wf(),
                db == self.db,
                opsv == self.ops@.map_values(|o: QueryOperation| o@),
                pred == (|id: NodeID| ops_match(*db, opsv, id)),
                seed@ == seed_spec(*db, opsv),
                result@ == seed@.take(i as int).filter(pred),
                forall|j: int| 0 <= j < seed@.len() ==> db.node_at(#[trigger] seed@[j]) is Some,
                forall|j: int|
                    0 <= j < result@.len() ==> ops_match(*db, opsv, #[trigger] result@[j])
                        && db.node_at(result@[j]) is Some,
            decreases m - i,
        {
            proof {
                assert(seed@.take(i + 1) =~= seed@.take(i as int) + seq![seed@[i as int]]);
                Seq::filter_distributes_over_add(
                    seed@.take(i as int),
                    seq![seed@[i as int]],
                    pred,
                );
                reveal_with_fuel(Seq::filter, 2);
                assert(seq![seed@[i as int]].drop_last() =~= Seq::<NodeID>::empty());
            }
            let id = seed[i];
            let mut keep = true;
            let k_ops = self.ops.len();
            let mut j: usize = 0;
            while j < k_ops
                invariant
                    k_ops == self.ops.len(),
                    0 <= j <= k_ops,
                    db.wf(),
                    opsv == self.ops@.map_values(|o: QueryOperation| o@),
                    keep == forall|q: int|
                        0 <= q < j ==> op_matches(*db, #[trigger] opsv[q], id),
                decreases k_ops - j,
            {
                proof {
                    assert(opsv[j as int] == self.ops@[j as int]@);
                }
                let ok = check_op(db, &self.ops[j], id);
                if !ok {
                    keep = false;
                    proof {
                        assert(!op_matches(*db, opsv[j as int], id));
                    }
                    assert(!(forall|q: int|
                        0 <= q < j + 1 ==> op_matches(*db, #[trigger] opsv[q], id)));
                } else {
                    proof {
                        if keep {
                            assert(forall|q: int|
                                0 <= q < j + 1 ==> op_matches(*db, #[trigger] opsv[q], id));
                        } else {
                            let w = choose|q: int|
                                0 <= q < j && !op_matches(*db, #[trigger] opsv[q], id);
                            assert(!(forall|q: int|
                                0 <= q < j + 1 ==> op_matches(*db, #[trigger] opsv[q], id)));
                        }
                    }
                }
                j = j + 1;
            }
            proof {
                assert(keep == pred(seed@[i as int]));
            }
            if keep {
                result.push(id);
                proof {
                    assert(ops_match(*db, opsv, id));
                    assert(seq![seed@[i as int]].filter(pred) =~= seq![seed@[i as int]]);
                    assert(result@ =~= seed@.take(i + 1).filter(pred));
                }
            } else {
                proof {
                    assert(seq![seed@[i as int]].filter(pred) =~= Seq::<NodeID>::empty());
                    assert(result@ =~= seed@.take(i + 1).filter(pred));
                }
            }
            i = i + 1;
        }
        proof {
            assert(seed@.take(m as int) =~= seed@);
        }
        Ok(QueryExecutor { db, operations: self.ops, result })
    }
}

/// The first exact-identifier operation of the list, if any.
pub open spec fn find_by_id(ops: Seq<QueryOpView>) -> Option<NodeID>
    decreases ops.len(),
{
    if ops.len() == 0 {
        Option::None
    } else {
        match ops[0] {
            QueryOpView::ByID(x) => Option::Some(x),
            _ => find_by_id(ops.drop_first()),
        }
    }
}

/// The first indexed-equality operation of the list, if any.
pub open spec fn find_by_index(ops: Seq<QueryOpView>) -> Option<(Seq<char>, PayloadView)>
    decreases ops.len(),
{
    if ops.len() == 0 {
        Option::None
    } else {
        match ops[0] {
            QueryOpView::ByIndex(p, v) => Option::Some((p, v)),
            _ => find_by_index(ops.drop_first()),
        }
    }
}

/// The first entity-name operation of the list, if any.
pub open spec fn find_entity_name(ops: Seq<QueryOpView>) -> Option<Seq<char>>
    decreases ops.len(),
{
    if ops.len() == 0 {
        Option::None
    } else {
        match ops[0] {
            QueryOpView::ByEntityName(s) => Option::Some(s),
            _ => find_entity_name(ops.drop_first()),
        }
    }
}

/// The first shortest-path operation of the list, if any.
pub open spec fn find_shortpath(ops: Seq<QueryOpView>) -> Option<(NodeID, NodeID)>
    decreases ops.len(),
{
    if ops.len() == 0 {
        Option::None
    } else {
        match ops[0] {
            QueryOpView::ShortPath(f, t) => Option::Some((f, t)),
            _ => find_shortpath(ops.drop_first()),
        }
    }
}

/// The indexed-equality seed drawn from a prefix of the entity partition's
/// entries: each stored entity's bucket for the property and serialized
/// value, in partition order, keeping only stored nodes.
pub open spec fn index_seed_from(
    db: Database,
    entries: Seq<(Seq<char>, Seq<u8>)>,
    p: Seq<char>,
    venc: Seq<u8>,
) -> Seq<NodeID>
    decreases entries.len(),
{
    if entries.len() == 0 {
        Seq::empty()
    } else {
        index_seed_from(db, entries.drop_last(), p, venc) + (match dec_entity_full(
            entries.last().1,
        ) {
            Some(ent) => index_ids(ent, p, venc).filter(|id: NodeID| db.node_at(id) is Some),
            None => Seq::empty(),
        })
    }
}

/// The scan seed drawn from a prefix of the node partition's entries: each
/// stored node's identifier in partition order, kept when no entity-name
/// filter is wanted or the record carries the wanted name.
pub open spec fn scan_seed_from(
    db: Database,
    entries: Seq<(Seq<char>, Seq<u8>)>,
    wanted: Option<Seq<char>>,
) -> Seq<NodeID>
    decreases entries.len(),
{
    if entries.len() == 0 {
        Seq::empty()
    } else {
        scan_seed_from(db, entries.drop_last(), wanted) + (match dec_node_full(
            entries.last().1,
        ) {
            Some(rec) => if wanted is None || wanted == Some(rec.entity_name) {
                seq![rec.id]
            } else {
                Seq::empty()
            },
            None => Seq::empty(),
        })
    }
}

/// The initial candidate set of a query: seeded from the most selective
/// operation present — exact identifier first, then indexed equality,
/// then entity name, then a full node scan — regardless of the order the
/// operations were added.
pub open spec fn seed_spec(db: Database, ops: Seq<QueryOpView>) -> Seq<NodeID> {
    match find_by_id(ops) {
        Some(id) => if db.node_at(id) is Some {
            seq![id]
        } else {
            Seq::empty()
        },
        None => match find_by_index(ops) {
            Some((p, v)) => index_seed_from(
                db,
                db.entities.view_entries(),
                p,
                crate::codec::enc_payload(v),
            ),
            None => scan_seed_from(db, db.nodes.view_entries(), find_entity_name(ops)),
        },
    }
}

/// The seed candidate set: exactly [`seed_spec`] of the operations, and
/// every returned identifier is a stored node.
#[verifier::spinoff_prover]
#[verifier::rlimit(100)]
fn seed_candidates(db: &Database, ops: &Vec<QueryOperation>) -> (r: Vec<NodeID>)
    requires
        db.wf(),
    ensures
        r@ == seed_spec(*db, ops@.map_values(|o: QueryOperation| o@)),
        forall|j: int| 0 <= j < r@.len() ==> db.node_at(#[trigger] r@[j]) is Some,
{
    broadcast use vstd::seq_lib::group_filter_ensures;

    let ghost opsv = ops@.map_values(|o: QueryOperation| o@);
    let n = ops.len();
    // Exact identifier beats everything.
    let mut i: usize = 0;
    proof {
        assert(opsv.skip(0) =~= opsv);
    }
    while i < n
        invariant
            n == ops.len(),
            db.wf(),
            0 <= i <= n,
            opsv == ops@.map_values(|o: QueryOperation| o@),
            find_by_id(opsv) == find_by_id(opsv.skip(i as int)),
        decreases n - i,
    {
        proof {
            assert(opsv.skip(i as int)[0] == opsv[i as int]);
            assert(opsv[i as int] == ops@[i as int]@);
            assert(opsv.skip(i as int).drop_first() =~= opsv.skip(i + 1));
        }
        match &ops[i] {
            QueryOperation::ByID(id) => {
                proof {
                    assert(find_by_id(opsv) == Some(*id));
                }
                let mut r: Vec<NodeID> = Vec::new();
                match db.get_node(*id) {
                    Ok(_) => {
                        r.push(*id);
                        assert(r@ =~= seq![*id]);
                    },
                    Err(_) => {
                        assert(r@ =~= Seq::<NodeID>::empty());
                    },
                }
                return r;
            },
            _ => {
            },
        }
        i = i + 1;
    }
    proof {
        assert(opsv.skip(n as int).len() == 0);
        assert(find_by_id(opsv) is None);
    }
    // Indexed equality: collect the matching bucket of every entity,
    // in partition order, keeping only stored nodes.
    let mut i2: usize = 0;
    proof {
        assert(opsv.skip(0) =~= opsv);
    }
    while i2 < n
        invariant
            n == ops.len(),
            db.wf(),
            0 <= i2 <= n,
            opsv == ops@.map_values(|o: QueryOperation| o@),
            find_by_id(opsv) is None,
            find_by_index(opsv) == find_by_index(opsv.skip(i2 as int)),
        decreases n - i2,
    {
        proof {
            assert(opsv.skip(i2 as int)[0] == opsv[i2 as int]);
            assert(opsv[i2 as int] == ops@[i2 as int]@);
            assert(opsv.skip(i2 as int).drop_first() =~= opsv.skip(i2 + 1));
        }
        match &ops[i2] {
            QueryOperation::ByIndex(p, v) => {
                proof {
                    assert(find_by_index(opsv) == Some((p@, v@)));
                }
                let mut venc: Vec<u8> = Vec::new();
                crate::codec::write_payload(&mut venc, v);
                proof {
                    assert(venc@ =~= crate::codec::enc_payload(v@));
                }
                let ghost s = db.entities.view_entries();
                let mut r: Vec<NodeID> = Vec::new();
                let en = db.entities.entries.len();
                let mut k: usize = 0;
                proof {
                    assert(s.take(0) =~= Seq::<(Seq<char>, Seq<u8>)>::empty());
                }
                while k < en
                    invariant
                        en == db.entities.entries.len(),
                        db.wf(),
                        s == db.entities.view_entries(),
                        0 <= k <= en,
                        venc@ == crate::codec::enc_payload(v@),
                        r@ == index_seed_from(*db, s.take(k as int), p@, venc@),
                        forall|j: int|
                            0 <= j < r@.len() ==> db.node_at(#[trigger] r@[j]) is Some,
                    decreases en - k,
                {
                    proof {
                        assert(s[k as int] == (
                            db.entities.entries@[k as int].0@,
                            db.entities.entries@[k as int].1@,
                        ));
                        crate::kv::lemma_key_index_unique(s, s[k as int].0, k as int);
                        assert(s.take(k + 1).drop_last() =~= s.take(k as int));
                        assert(s.take(k + 1).last() == s[k as int]);
                    }
                    match crate::entity::EntityItem::from_bytes(&db.entities.entries[k].1) {
                        Ok(ent) => {
                            proof {
                                assert(dec_entity_full(s[k as int].1) == Some(ent@));
                                assert(crate::entity::entity_wf(ent@));
                            }
                            let ids = ent.get_index_ids(p.as_str(), &venc);
                            let ghost idsv = ids@;
                            let ghost pred = |id: NodeID| db.node_at(id) is Some;
                            let ghost rpre = r@;
                            let idn = ids.len();
                            let mut q: usize = 0;
                            proof {
                                assert(idsv.take(0) =~= Seq::<NodeID>::empty());
                                assert(idsv.take(0).filter(pred) =~= Seq::<NodeID>::empty());
                                assert(r@ =~= rpre + idsv.take(0).filter(pred));
                            }
                            while q < idn
                                invariant
                                    idn == ids.len(),
                                    db.wf(),
                                    idsv == ids@,
                                    pred == (|id: NodeID| db.node_at(id) is Some),
                                    0 <= q <= idn,
                                    r@ == rpre + idsv.take(q as int).filter(pred),
                                    forall|j: int|
                                        0 <= j < r@.len() ==> db.node_at(
                                            #[trigger] r@[j],
                                        ) is Some,
                                decreases idn - q,
                            {
                                proof {
                                    assert(idsv.take(q + 1) =~= idsv.take(q as int) + seq![
                                        idsv[q as int],
                                    ]);
                                    Seq::filter_distributes_over_add(
                                        idsv.take(q as int),
                                        seq![idsv[q as int]],
                                        pred,
                                    );
                                    reveal_with_fuel(Seq::filter, 2);
                                    assert(seq![idsv[q as int]].drop_last() =~= Seq::<
                                        NodeID,
                                    >::empty());
                                }
                                match db.get_node(ids[q]) {
                                    Ok(_) => {
                                        r.push(ids[q]);
                                        proof {
                                            assert(pred(idsv[q as int]));
                                            assert(seq![idsv[q as int]].filter(pred) =~= seq![
                                                idsv[q as int],
                                            ]);
                                            assert(r@ =~= rpre + idsv.take(q + 1).filter(
                                                pred,
                                            ));
                                        }
                                    },
                                    Err(_) => {
                                        proof {
                                            assert(!pred(idsv[q as int]));
                                            assert(seq![idsv[q as int]].filter(pred) =~= Seq::<
                                                NodeID,
                                            >::empty());
                                            assert(r@ =~= rpre + idsv.take(q + 1).filter(
                                                pred,
                                            ));
                                        }
                                    },
                                }
                                q = q + 1;
                            }
                            proof {
                                assert(idsv.take(idn as int) =~= idsv);
                                assert(r@ == index_seed_from(*db, s.take(k + 1), p@, venc@));
                            }
                        },
                        Err(_) => {
                            proof {
                                assert(false);
                            }
                        },
                    }
                    k = k + 1;
                }
                proof {
                    assert(s.take(en as int) =~= s);
                }
                return r;
            },
            _ => {
            },
        }
        i2 = i2 + 1;
    }
    proof {
        assert(opsv.skip(n as int).len() == 0);
        assert(find_by_index(opsv) is None);
    }
    // Entity name, or a full node scan: the first entity-name operation
    // decides the filter.
    let mut wanted: Option<&String> = None;
    let mut i3: usize = 0;
    proof {
        assert(opsv.skip(0) =~= opsv);
    }
    while i3 < n
        invariant
            n == ops.len(),
            0 <= i3 <= n,
            opsv == ops@.map_values(|o: QueryOperation| o@),
            match wanted {
                Some(w) => find_entity_name(opsv) == Some(w@),
                None => find_entity_name(opsv) == find_entity_name(opsv.skip(i3 as int)),
            },
        decreases n - i3,
    {
        proof {
            assert(opsv.skip(i3 as int)[0] == opsv[i3 as int]);
            assert(opsv[i3 as int] == ops@[i3 as int]@);
            assert(opsv.skip(i3 as int).drop_first() =~= opsv.skip(i3 + 1));
        }
        match &ops[i3] {
            QueryOperation::ByEntityName(s) => {
                if wanted.is_none() {
                    wanted = Some(s);
                }
            },
            _ => {
            },
        }
        i3 = i3 + 1;
    }
    let ghost wview: Option<Seq<char>> = match wanted {
        Some(w) => Some(w@),
        None => None,
    };
    proof {
        if wanted is None {
            assert(opsv.skip(n as int).len() == 0);
            assert(find_entity_name(opsv) is None);
        }
        assert(wview == find_entity_name(opsv));
    }
    let ghost s = db.nodes.view_entries();
    let mut r: Vec<NodeID> = Vec::new();
    let nn = db.nodes.entries.len();
    let mut k: usize = 0;
    proof {
        assert(s.take(0) =~= Seq::<(Seq<char>, Seq<u8>)>::empty());
    }
    while k < nn
        invariant
            nn == db.nodes.entries.len(),
            db.wf(),
            s == db.nodes.view_entries(),
            0 <= k <= nn,
            wview == (match wanted {
                Some(w) => Some(w@),
                None => None,
            }),
            r@ == scan_seed_from(*db, s.take(k as int), wview),
            forall|j: int| 0 <= j < r@.len() ==> db.node_at(#[trigger] r@[j]) is Some,
        decreases nn - k,
    {
        proof {
            assert(s[k as int] == (
                db.nodes.entries@[k as int].0@,
                db.nodes.entries@[k as int].1@,
            ));
            crate::kv::lemma_key_index_unique(s, s[k as int].0, k as int);
            assert(s.take(k + 1).drop_last() =~= s.take(k as int));
            assert(s.take(k + 1).last() == s[k as int]);
        }
        match crate::node::NodeRecord::from_bytes(&db.nodes.entries[k].1) {
            Ok(rec) => {
                proof {
                    assert(db.nodes_map().contains_key(s[k as int].0));
                    assert(dec_node_full(s[k as int].1) == Some(rec@));
                    assert(crate::text::dec_of(rec@.id.0 as int) == s[k as int].0);
                    assert(db.node_at(rec@.id) is Some);
                }
                let keep = match wanted {
                    Some(w) => crate::text::str_eq(rec.entity_name.as_str(), w.as_str()),
                    None => true,
                };
                if keep {
                    r.push(rec.id);
                }
                proof {
                    assert(r@ == scan_seed_from(*db, s.take(k + 1), wview));
                }
            },
            Err(_) => {
                proof {
                    assert(false);
                }
            },
        }
        k = k + 1;
    }
    proof {
        assert(s.take(nn as int) =~= s);
    }
    r
}

/// Reachability within `k` hops over the stored directed edges.
pub open spec fn reach(db: Database, from: NodeID, m: NodeID, k: nat) -> bool
    decreases k,
{
    m == from || (k > 0 && exists|mid: NodeID|
        reach(db, from, mid, (k - 1) as nat) && #[trigger] db.edge_at(mid, m) is Some)
}

/// A set of nodes closed under following stored edges.
pub open spec fn closed_under_edges(db: Database, visited: Seq<NodeID>) -> bool {
    forall|a: NodeID, b: NodeID|
        visited.contains(a) && #[trigger] db.edge_at(a, b) is Some ==> visited.contains(b)
}

/// A valid path witnesses reachability within its hop count.
pub proof fn lemma_path_reach(db: Database, p: Seq<NodeID>, from: NodeID, to: NodeID)
    requires
        valid_path(db, p, from, to),
    ensures
        reach(db, from, to, (p.len() - 1) as nat),
    decreases p.len(),
{
    if p.len() == 1 {
    } else {
        let q = p.drop_last();
        let mid = p[p.len() - 2];
        assert(valid_path(db, q, from, mid)) by {
            assert(q.len() >= 1 && q[0] == from && q.last() == mid);
            assert forall|i: int| 0 <= i < q.len() - 1 implies db.edge_at(
                #[trigger] q[i],
                q[i + 1],
            ) is Some by {
                assert(q[i] == p[i] && q[i + 1] == p[i + 1]);
            }
        }
        lemma_path_reach(db, q, from, mid);
        assert(db.edge_at(p[p.len() - 2], p[p.len() - 1]) is Some);
        assert(reach(db, from, to, (p.len() - 1) as nat));
    }
}

/// No node outside a closed set containing the start is reachable from
/// the start.
pub proof fn lemma_closed_unreachable(
    db: Database,
    visited: Seq<NodeID>,
    from: NodeID,
    m: NodeID,
    k: nat,
)
    requires
        visited.contains(from),
        closed_under_edges(db, visited),
        !visited.contains(m),
    ensures
        !reach(db, from, m, k),
    decreases k,
{
    if reach(db, from, m, k) {
        assert(m != from);
        let mid = choose|mid: NodeID|
            reach(db, from, mid, (k - 1) as nat) && #[trigger] db.edge_at(mid, m) is Some;
        if visited.contains(mid) {
            assert(visited.contains(m));
        } else {
            lemma_closed_unreachable(db, visited, from, mid, (k - 1) as nat);
        }
        assert(false);
    }
}

/// Closure over the stored edge entries gives closure over the edge
/// relation.
proof fn lemma_entry_closed_semantic(db: Database, visited: Seq<NodeID>)
    requires
        db.wf(),
        forall|ei: int|
            0 <= ei < db.edges.view_entries().len() ==> ({
                let d = dec_edge_full(#[trigger] db.edges.view_entries()[ei].1);
                d is Some && visited.contains(d.unwrap().from) ==> visited.contains(d.unwrap().to)
            }),
    ensures
        closed_under_edges(db, visited),
{
    let s = db.edges.view_entries();
    assert forall|a: NodeID, b: NodeID|
        visited.contains(a) && #[trigger] db.edge_at(a, b) is Some implies visited.contains(
        b,
    ) by {
        let key = crate::edge::edge_key_view(a, b);
        assert(db.edges_map().contains_key(key));
        assert(crate::kv::has_key(s, key));
        let w = crate::kv::key_index(s, key);
        assert(0 <= w < s.len() && s[w].0 == key);
        crate::kv::lemma_key_index_unique(s, key, w);
        let e = dec_edge_full(s[w].1).unwrap();
        assert(crate::edge::edge_key_view(e.from, e.to) == key);
        crate::edge::lemma_edge_key_injective(e.from, e.to, a, b);
    }
}

/// The breadth-first state: distinct visited nodes starting at the
/// traversal's origin, and one parent record per later node, naming a
/// stored edge into it from an earlier visited node.
pub open spec fn bfs_inv(
    db: Database,
    from: NodeID,
    visited: Seq<NodeID>,
    parent: Seq<(NodeID, NodeID)>,
) -> bool {
    &&& visited.len() >= 1
    &&& visited[0] == from
    &&& parent.len() == visited.len() - 1
    &&& forall|i: int, j: int|
        0 <= i < j < visited.len() ==> #[trigger] visited[i] != #[trigger] visited[j]
    &&& forall|k: int| 0 <= k < parent.len() ==> (#[trigger] parent[k]).0 == visited[k + 1]
    &&& forall|k: int|
        0 <= k < parent.len() ==> db.edge_at((#[trigger] parent[k]).1, parent[k].0) is Some
    &&& forall|k: int|
        0 <= k < parent.len() ==> exists|j: int|
            0 <= j <= k && #[trigger] visited[j] == (#[trigger] parent[k]).1
}

/// The visited nodes never outnumber the stored edges by more than one:
/// each later node is the target of a distinct stored edge entry.
proof fn lemma_visited_bound(
    db: Database,
    from: NodeID,
    visited: Seq<NodeID>,
    parent: Seq<(NodeID, NodeID)>,
)
    requires
        db.wf(),
        bfs_inv(db, from, visited, parent),
    ensures
        visited.len() <= db.edges.view_entries().len() + 1,
{
    let s = db.edges.view_entries();
    let idxs = Seq::new(
        parent.len(),
        |k: int| crate::kv::key_index(s, crate::edge::edge_key_view(parent[k].1, parent[k].0)),
    );
    assert forall|k: int| 0 <= k < idxs.len() implies 0 <= #[trigger] idxs[k] < s.len() && s[
        idxs[k]
    ].0 == crate::edge::edge_key_view(parent[k].1, parent[k].0) by {
        assert(db.edge_at(parent[k].1, parent[k].0) is Some);
        let key = crate::edge::edge_key_view(parent[k].1, parent[k].0);
        assert(db.edges_map().contains_key(key));
        assert(crate::kv::has_key(s, key));
        let w = crate::kv::key_index(s, key);
        assert(0 <= w < s.len() && s[w].0 == key);
    }
    assert(idxs.no_duplicates()) by {
        assert forall|k1: int, k2: int|
            0 <= k1 < k2 < idxs.len() implies #[trigger] idxs[k1] != #[trigger] idxs[k2] by {
            if idxs[k1] == idxs[k2] {
                crate::edge::lemma_edge_key_injective(
                    parent[k1].1,
                    parent[k1].0,
                    parent[k2].1,
                    parent[k2].0,
                );
                assert(visited[k1 + 1] == visited[k2 + 1]);
            }
        }
    }
    idxs.unique_seq_to_set();
    vstd::set_lib::lemma_int_range(0, s.len() as int);
    assert(idxs.to_set().subset_of(vstd::set_lib::set_int_range(0, s.len() as int))) by {
        assert forall|x: int| idxs.to_set().contains(x) implies vstd::set_lib::set_int_range(
            0,
            s.len() as int,
        ).contains(x) by {
            assert(idxs.contains(x));
            let k = choose|k: int| 0 <= k < idxs.len() && idxs[k] == x;
            assert(0 <= idxs[k] < s.len());
        }
    }
    vstd::set_lib::lemma_len_subset(
        idxs.to_set(),
        vstd::set_lib::set_int_range(0, s.len() as int),
    );
}

/// Unweighted breadth-first traversal over the directed edge relation,
/// run to saturation: a path from `from` to `to` through the stored
/// graph, or empty exactly when no such path exists — the final visited
/// set is closed under stored edges, which certifies unreachability.
#[verifier::spinoff_prover]
#[verifier::rlimit(100)]
fn bfs_short_path(db: &Database, from: NodeID, to: NodeID) -> (r: Vec<NodeID>)
    requires
        db.wf(),
    ensures
        r@.len() > 0 ==> valid_path(*db, r@, from, to),
        r@.len() == 0 ==> forall|p: Seq<NodeID>| !valid_path(*db, p, from, to),
{
    let ghost s = db.edges.view_entries();
    if from == to {
        let mut r: Vec<NodeID> = Vec::new();
        r.push(from);
        proof {
            assert(r@.len() == 1 && r@[0] == from && r@.last() == to);
        }
        return r;
    }
    let mut visited: Vec<NodeID> = Vec::new();
    // The parent records: (child, the earlier node the child was first
    // reached from), aligned so record `k` names `visited[k + 1]`.
    let mut parent: Vec<(NodeID, NodeID)> = Vec::new();
    visited.push(from);
    let mut grew = true;
    while grew
        invariant
            db.wf(),
            s == db.edges.view_entries(),
            bfs_inv(*db, from, visited@, parent@),
            !grew ==> forall|ei: int|
                0 <= ei < s.len() ==> ({
                    let d = dec_edge_full(#[trigger] s[ei].1);
                    d is Some && visited@.contains(d.unwrap().from) ==> visited@.contains(
                        d.unwrap().to,
                    )
                }),
        decreases (db.edges.view_entries().len() + 1 - visited@.len()), (if grew { 1int } else { 0int }),
    {
        proof {
            lemma_visited_bound(*db, from, visited@, parent@);
        }
        let prev_len = visited.len();
        let ghost snap = visited@;
        let mut ci: usize = 0;
        while ci < prev_len
            invariant
                db.wf(),
                s == db.edges.view_entries(),
                bfs_inv(*db, from, visited@, parent@),
                snap.len() == prev_len,
                prev_len <= visited@.len(),
                visited@.take(prev_len as int) == snap,
                0 <= ci <= prev_len,
                forall|c2: int, ei: int|
                    #![trigger s[ei].1, snap[c2]]
                    0 <= c2 < ci && 0 <= ei < s.len() ==> ({
                        let d = dec_edge_full(s[ei].1);
                        d is Some && d.unwrap().from == snap[c2] ==> visited@.contains(
                            d.unwrap().to,
                        )
                    }),
            decreases prev_len - ci,
        {
            let c = visited[ci];
            proof {
                assert(visited@[ci as int] == visited@.take(prev_len as int)[ci as int]);
                assert(c == snap[ci as int]);
            }
            let en = db.edges.entries.len();
            let mut ei: usize = 0;
            while ei < en
                invariant
                    db.wf(),
                    s == db.edges.view_entries(),
                    en == s.len(),
                    bfs_inv(*db, from, visited@, parent@),
                    snap.len() == prev_len,
                    prev_len <= visited@.len(),
                    visited@.take(prev_len as int) == snap,
                    ci < prev_len,
                    c == snap[ci as int],
                    0 <= ei <= en,
                    forall|c2: int, ei2: int|
                        #![trigger s[ei2].1, snap[c2]]
                        0 <= c2 < ci && 0 <= ei2 < s.len() ==> ({
                            let d = dec_edge_full(s[ei2].1);
                            d is Some && d.unwrap().from == snap[c2] ==> visited@.contains(
                                d.unwrap().to,
                            )
                        }),
                    forall|ei2: int|
                        0 <= ei2 < ei ==> ({
                            let d = dec_edge_full(#[trigger] s[ei2].1);
                            d is Some && d.unwrap().from == c ==> visited@.contains(
                                d.unwrap().to,
                            )
                        }),
                decreases en - ei,
            {
                proof {
                    assert(s[ei as int] == (
                        db.edges.entries@[ei as int].0@,
                        db.edges.entries@[ei as int].1@,
                    ));
                    crate::kv::lemma_key_index_unique(s, s[ei as int].0, ei as int);
                }
                match crate::edge::EdgeItem::from_bytes(&db.edges.entries[ei].1) {
                    Ok(e) => {
                        proof {
                            assert(dec_edge_full(s[ei as int].1) == Some(e@));
                        }
                        if e.from == c {
                            let mut seen = false;
                            let vl = visited.len();
                            let mut vi: usize = 0;
                            while vi < vl
                                invariant
                                    vl == visited@.len(),
                                    0 <= vi <= vl,
                                    seen == visited@.take(vi as int).contains(e@.to),
                                    e@.to == e.to,
                                decreases vl - vi,
                            {
                                proof {
                                    assert(visited@.take(vi + 1) =~= visited@.take(
                                        vi as int,
                                    ).push(visited@[vi as int]));
                                    if !seen && visited@[vi as int] == e@.to {
                                        assert(visited@.take(vi + 1)[vi as int] == e@.to);
                                    }
                                }
                                if visited[vi] == e.to {
                                    seen = true;
                                }
                                vi = vi + 1;
                            }
                            proof {
                                assert(visited@.take(vl as int) =~= visited@);
                                assert(seen == visited@.contains(e@.to));
                            }
                            if !seen {
                                let ghost oldv = visited@;
                                let ghost oldp = parent@;
                                visited.push(e.to);
                                parent.push((e.to, c));
                                proof {
                                    assert(db.edges_map().contains_key(s[ei as int].0));
                                    assert(crate::edge::edge_key_view(e@.from, e@.to) == s[
                                        ei as int
                                    ].0);
                                    assert(db.edge_at(e@.from, e@.to) is Some);
                                    assert(forall|i: int|
                                        0 <= i < oldv.len() ==> #[trigger] visited@[i]
                                            == oldv[i]);
                                    assert(forall|k2: int|
                                        0 <= k2 < oldp.len() ==> #[trigger] parent@[k2]
                                            == oldp[k2]);
                                    assert(visited@.take(prev_len as int) =~= snap);
                                    assert(visited@[ci as int] == c);
                                    assert(!oldv.contains(e@.to));
                                    assert forall|x: NodeID| oldv.contains(
                                        x,
                                    ) implies visited@.contains(x) by {
                                        let w = choose|w: int|
                                            0 <= w < oldv.len() && oldv[w] == x;
                                        assert(visited@[w] == x);
                                    }
                                    assert forall|i: int, j: int|
                                        0 <= i < j < visited@.len() implies #[trigger] visited@[i]
                                        != #[trigger] visited@[j] by {
                                        if j == visited@.len() - 1 {
                                            if visited@[i] == e@.to {
                                                assert(oldv[i] == e@.to);
                                                assert(oldv.contains(e@.to));
                                            }
                                        }
                                    }
                                    let last = parent@.len() - 1;
                                    assert(parent@[last] == (e@.to, c));
                                    assert(visited@[last + 1] == e@.to);
                                    assert(ci <= last);
                                    assert forall|k2: int|
                                        0 <= k2 < parent@.len() implies exists|j: int|
                                        0 <= j <= k2 && #[trigger] visited@[j] == (
                                    #[trigger] parent@[k2]).1 by {
                                        if k2 < oldp.len() {
                                            let j = choose|j: int|
                                                0 <= j <= k2 && #[trigger] oldv[j] == (
                                                #[trigger] oldp[k2]).1;
                                            assert(visited@[j] == parent@[k2].1);
                                        } else {
                                            assert(visited@[ci as int] == parent@[k2].1);
                                        }
                                    }
                                    assert(bfs_inv(*db, from, visited@, parent@));
                                    assert(visited@.contains(e@.to)) by {
                                        assert(visited@[visited@.len() - 1] == e@.to);
                                    }
                                }
                            }
                            proof {
                                assert(visited@.contains(e@.to));
                            }
                        }
                    },
                    Err(_) => {
                        proof {
                            assert(false);
                        }
                    },
                }
                ei = ei + 1;
            }
            ci = ci + 1;
        }
        let new_len = visited.len();
        if new_len == prev_len {
            grew = false;
            proof {
                assert(visited@.take(prev_len as int) =~= visited@);
                assert forall|ei: int| 0 <= ei < s.len() implies ({
                    let d = dec_edge_full(#[trigger] s[ei].1);
                    d is Some && visited@.contains(d.unwrap().from) ==> visited@.contains(
                        d.unwrap().to,
                    )
                }) by {
                    let d = dec_edge_full(s[ei].1);
                    if d is Some && visited@.contains(d.unwrap().from) {
                        let c2 = choose|c2: int|
                            0 <= c2 < visited@.len() && visited@[c2] == d.unwrap().from;
                        assert(snap[c2] == d.unwrap().from);
                    }
                }
            }
        } else {
            proof {
                assert(visited@.len() > prev_len);
                lemma_visited_bound(*db, from, visited@, parent@);
            }
        }
    }
    // The visited set is now closed under stored edges.
    let mut ti: usize = 0;
    let vl = visited.len();
    let mut found = false;
    let mut to_idx: usize = 0;
    while ti < vl
        invariant
            vl == visited@.len(),
            0 <= ti <= vl,
            found ==> to_idx < vl && visited@[to_idx as int] == to,
            !found ==> forall|j: int| 0 <= j < ti ==> #[trigger] visited@[j] != to,
        decreases vl - ti,
    {
        if !found && visited[ti] == to {
            found = true;
            to_idx = ti;
        }
        ti = ti + 1;
    }
    if !found {
        proof {
            assert(!visited@.contains(to));
            assert(visited@.contains(from)) by {
                assert(visited@[0] == from);
            }
            lemma_entry_closed_semantic(*db, visited@);
            assert forall|p: Seq<NodeID>| !valid_path(*db, p, from, to) by {
                if valid_path(*db, p, from, to) {
                    lemma_path_reach(*db, p, from, to);
                    lemma_closed_unreachable(
                        *db,
                        visited@,
                        from,
                        to,
                        (p.len() - 1) as nat,
                    );
                }
            }
        }
        let empty: Vec<NodeID> = Vec::new();
        return empty;
    }
    // Walk the parent records back from the target: each step moves to a
    // strictly earlier visited node, so the walk reaches the origin.
    let mut rev: Vec<NodeID> = Vec::new();
    rev.push(to);
    let mut cur = to;
    let mut idx: usize = to_idx;
    let ghost mut ridx: Seq<int> = seq![to_idx as int];
    while cur != from
        invariant
            db.wf(),
            bfs_inv(*db, from, visited@, parent@),
            vl == visited@.len(),
            0 <= idx < visited@.len(),
            visited@[idx as int] == cur,
            rev@.len() >= 1,
            rev@[0] == to,
            rev@.last() == cur,
            forall|i: int|
                0 <= i < rev@.len() - 1 ==> db.edge_at(#[trigger] rev@[i + 1], rev@[i]) is Some,
            ridx.len() == rev@.len(),
            forall|i: int| 0 <= i < ridx.len() ==> 0 <= #[trigger] ridx[i] < visited@.len(),
            forall|i: int| 0 <= i < ridx.len() ==> visited@[#[trigger] ridx[i]] == rev@[i],
            forall|i: int, j: int| 0 <= i < j < ridx.len() ==> #[trigger] ridx[i] > #[trigger] ridx[j],
            ridx.last() == idx as int,
        decreases idx,
    {
        proof {
            if idx == 0 {
                assert(visited@[0] == from);
                assert(false);
            }
        }
        let k = idx - 1;
        let nxt = parent[k].1;
        proof {
            assert(parent@[k as int].0 == visited@[idx as int]);
            assert(db.edge_at(parent@[k as int].1, parent@[k as int].0) is Some);
        }
        // Find the earlier position of the parent node.
        let ghost wj = choose|j: int|
            0 <= j <= k && #[trigger] visited@[j] == parent@[k as int].1;
        let mut j: usize = 0;
        let mut got = false;
        let mut jpos: usize = 0;
        while j < vl
            invariant
                vl == visited@.len(),
                0 <= j <= vl,
                nxt == parent@[k as int].1,
                got ==> jpos < vl && visited@[jpos as int] == nxt,
                !got ==> forall|j2: int| 0 <= j2 < j ==> #[trigger] visited@[j2] != nxt,
            decreases vl - j,
        {
            if !got && visited[j] == nxt {
                got = true;
                jpos = j;
            }
            j = j + 1;
        }
        proof {
            assert(0 <= wj <= k as int && visited@[wj] == nxt);
            assert(got);
            assert(visited@[jpos as int] == nxt && visited@[wj] == nxt);
            if jpos as int != wj {
                assert(visited@[jpos as int] != visited@[wj]);
            }
            assert(jpos as int == wj);
            assert(jpos as int <= k as int);
        }
        rev.push(nxt);
        proof {
            ridx = ridx.push(jpos as int);
            assert(rev@.last() == nxt);
            assert(forall|i: int| 0 <= i < rev@.len() - 1 ==> #[trigger] rev@[i] == rev@.drop_last()[i]);
            assert(db.edge_at(nxt, cur) is Some) by {
                assert(parent@[k as int].0 == cur);
            }
        }
        cur = nxt;
        idx = jpos;
    }
    // Reverse the walk into the path.
    let mut path: Vec<NodeID> = Vec::new();
    let rl = rev.len();
    let mut ri: usize = rl;
    while ri > 0
        invariant
            rl == rev@.len(),
            0 <= ri <= rl,
            path@.len() == rl - ri,
            forall|i: int| 0 <= i < path@.len() ==> #[trigger] path@[i] == rev@[rl - 1 - i],
        decreases ri,
    {
        ri = ri - 1;
        path.push(rev[ri]);
    }
    proof {
        assert(path@.len() == rl);
        assert(path@[0] == rev@[rl - 1]);
        assert(rev@[rl - 1] == rev@.last());
        assert(path@.last() == rev@[0]);
        assert forall|i: int| 0 <= i < path@.len() - 1 implies db.edge_at(
            #[trigger] path@[i],
            path@[i + 1],
        ) is Some by {
            assert(path@[i] == rev@[rl - 1 - i] && path@[i + 1] == rev@[rl - 2 - i]);
            assert(db.edge_at(rev@[(rl - 2 - i) + 1], rev@[rl - 2 - i]) is Some);
        }
        assert forall|i: int, j: int|
            0 <= i < j < path@.len() implies #[trigger] path@[i] != #[trigger] path@[j] by {
            assert(path@[i] == rev@[rl - 1 - i] && path@[j] == rev@[rl - 1 - j]);
            assert(rev@[rl - 1 - i] == visited@[ridx[rl - 1 - i]]);
            assert(rev@[rl - 1 - j] == visited@[ridx[rl - 1 - j]]);
            assert(ridx[rl - 1 - j] > ridx[rl - 1 - i]);
        }
        assert(valid_path(*db, path@, from, to));
    }
    path
}

/// The executor of one compiled query: the candidate set and the
/// post-processing over it. It only reads.
#[derive(Debug)]
pub struct QueryExecutor<'a> {
    /// The storage handle the query reads through.
    pub db: &'a Database,
    /// The operations the query was built from.
    pub operations: Vec<QueryOperation>,
    /// The candidate node identifiers, in seed order.
    pub result: Vec<NodeID>,
}

/// Lexicographic strict order on byte sequences.
pub open spec fn lex_lt(a: Seq<u8>, b: Seq<u8>) -> bool
    decreases a.len(),
{
    if b.len() == 0 {
        false
    } else if a.len() == 0 {
        true
    } else if a[0] < b[0] {
        true
    } else if a[0] > b[0] {
        false
    } else {
        lex_lt(a.drop_first(), b.drop_first())
    }
}

/// The sort rank of a payload discriminant.
pub open spec fn rank_of(p: PayloadView) -> int {
    match p {
        PayloadView::Uint(_) => 0,
        PayloadView::Int(_) => 1,
        PayloadView::Flag(_) => 2,
        PayloadView::Text(_) => 3,
        PayloadView::Bytes(_) => 4,
    }
}

/// The strict payload order the sort uses: by discriminant rank first,
/// then by value, text and byte strings lexicographically.
pub open spec fn payload_lt_spec(a: PayloadView, b: PayloadView) -> bool {
    if rank_of(a) != rank_of(b) {
        rank_of(a) < rank_of(b)
    } else {
        match (a, b) {
            (PayloadView::Uint(x), PayloadView::Uint(y)) => x < y,
            (PayloadView::Int(x), PayloadView::Int(y)) => x < y,
            (PayloadView::Flag(x), PayloadView::Flag(y)) => !x && y,
            (PayloadView::Text(x), PayloadView::Text(y)) => lex_lt(
                vstd::utf8::encode_utf8(x),
                vstd::utf8::encode_utf8(y),
            ),
            (PayloadView::Bytes(x), PayloadView::Bytes(y)) => lex_lt(x, y),
            _ => false,
        }
    }
}

/// The named property's value of a stored node, as the sort key; absent
/// nodes and absent properties have no key.
pub open spec fn sort_key(db: Database, prop: Seq<char>, id: NodeID) -> Option<PayloadView> {
    match db.node_at(id) {
        Some(n) => prop_value(n.props, prop),
        None => None,
    }
}

/// The strict node order the sort uses: nodes without a key first, then
/// by the payload order of the keys.
pub open spec fn node_lt_spec(db: Database, prop: Seq<char>, a: NodeID, b: NodeID) -> bool {
    match (sort_key(db, prop, a), sort_key(db, prop, b)) {
        (Option::None, Option::Some(_)) => true,
        (Option::Some(x), Option::Some(y)) => payload_lt_spec(x, y),
        _ => false,
    }
}

/// The position of the first minimal element among `s[0..=j]` under the
/// node order: a later element displaces the running minimum only when
/// strictly smaller, so equal keys keep the earliest position.
pub open spec fn min_index_upto(db: Database, prop: Seq<char>, s: Seq<NodeID>, j: int) -> int
    decreases j,
{
    if j <= 0 {
        0
    } else {
        let m = min_index_upto(db, prop, s, j - 1);
        if node_lt_spec(db, prop, s[j], s[m]) {
            j
        } else {
            m
        }
    }
}

/// The first-minimum position stays inside the prefix it was taken over.
pub proof fn lemma_min_index_upto_bounds(db: Database, prop: Seq<char>, s: Seq<NodeID>, j: int)
    ensures
        0 <= min_index_upto(db, prop, s, j),
        j >= 0 ==> min_index_upto(db, prop, s, j) <= j,
        j < 0 ==> min_index_upto(db, prop, s, j) == 0,
    decreases j,
{
    if j > 0 {
        lemma_min_index_upto_bounds(db, prop, s, j - 1);
    }
}

/// The stable sort of the candidates by the named property: repeatedly
/// take the first minimal element, so elements with equal keys keep their
/// previous relative order.
pub open spec fn stable_sorted_by(db: Database, prop: Seq<char>, s: Seq<NodeID>) -> Seq<NodeID>
    decreases s.len(),
    via stable_sorted_by_decreases
{
    if s.len() == 0 {
        Seq::empty()
    } else {
        let m = min_index_upto(db, prop, s, s.len() - 1);
        seq![s[m]] + stable_sorted_by(db, prop, s.remove(m))
    }
}

#[via_fn]
proof fn stable_sorted_by_decreases(db: Database, prop: Seq<char>, s: Seq<NodeID>) {
    if s.len() > 0 {
        lemma_min_index_upto_bounds(db, prop, s, s.len() - 1);
    }
}

/// Lexicographic strict order on byte strings.
fn bytes_lt(a: &[u8], b: &[u8]) -> (r: bool)
    ensures
        r == lex_lt(a@, b@),
{
    let n = if a.len() < b.len() {
        a.len()
    } else {
        b.len()
    };
    let mut i: usize = 0;
    proof {
        assert(a@.skip(0) =~= a@);
        assert(b@.skip(0) =~= b@);
    }
    while i < n
        invariant
            n <= a@.len(),
            n <= b@.len(),
            n == if a@.len() < b@.len() {
                a@.len() as int
            } else {
                b@.len() as int
            },
            0 <= i <= n,
            lex_lt(a@, b@) == lex_lt(a@.skip(i as int), b@.skip(i as int)),
        decreases n - i,
    {
        proof {
            assert(a@.skip(i as int)[0] == a@[i as int]);
            assert(b@.skip(i as int)[0] == b@[i as int]);
            assert(a@.skip(i as int).drop_first() =~= a@.skip(i + 1));
            assert(b@.skip(i as int).drop_first() =~= b@.skip(i + 1));
        }
        if a[i] < b[i] {
            return true;
        }
        if a[i] > b[i] {
            return false;
        }
        i = i + 1;
    }
    proof {
        assert(a@.skip(n as int).len() == a@.len() - n);
        assert(b@.skip(n as int).len() == b@.len() - n);
    }
    a.len() < b.len()
}

/// Whether `a` sorts strictly before `b` under the payload order.
fn payload_lt(a: &Payload, b: &Payload) -> (r: bool)
    ensures
        r == payload_lt_spec(a@, b@),
{
    let ra = payload_rank(a);
    let rb = payload_rank(b);
    if ra != rb {
        return ra < rb;
    }
    match (a, b) {
        (Payload::Uint(x), Payload::Uint(y)) => *x < *y,
        (Payload::Int(x), Payload::Int(y)) => *x < *y,
        (Payload::Flag(x), Payload::Flag(y)) => !*x && *y,
        (Payload::Text(x), Payload::Text(y)) => bytes_lt(x.as_str().as_bytes(), y.as_str().as_bytes()),
        (Payload::Bytes(x), Payload::Bytes(y)) => bytes_lt(x.as_slice(), y.as_slice()),
        _ => false,
    }
}

/// The sort rank of a payload discriminant.
fn payload_rank(p: &Payload) -> (r: u8)
    ensures
        r as int == rank_of(p@),
{
    match p {
        Payload::Uint(_) => 0,
        Payload::Int(_) => 1,
        Payload::Flag(_) => 2,
        Payload::Text(_) => 3,
        Payload::Bytes(_) => 4,
    }
}

/// Whether node `a` sorts strictly before node `b` by the named property.
fn node_prop_lt(db: &Database, a: NodeID, b: NodeID, prop: &str) -> (r: bool)
    requires
        db.wf(),
    ensures
        r == node_lt_spec(*db, prop@, a, b),
{
    let pa: Option<Payload> = match db.get_node(a) {
        Ok(n) => {
            match n.get_prop(prop) {
                Some(p) => Some(p.clone()),
                None => None,
            }
        },
        Err(_) => None,
    };
    let pb: Option<Payload> = match db.get_node(b) {
        Ok(n) => {
            match n.get_prop(prop) {
                Some(p) => Some(p.clone()),
                None => None,
            }
        },
        Err(_) => None,
    };
    match (pa, pb) {
        (None, Some(_)) => true,
        (None, None) => false,
        (Some(_), None) => false,
        (Some(x), Some(y)) => payload_lt(&x, &y),
    }
}

impl<'a> QueryExecutor<'a> {
    /// Sort the candidate set by the named property: the result is exactly
    /// [`stable_sorted_by`] of the previous candidates — repeatedly the
    /// first minimal element under the property order, so the same
    /// candidates in sorted order, with equal keys keeping their previous
    /// relative order (a stable sort over the seed order).
    pub fn sort_by_prop(self, prop: &str) -> (r: QueryExecutor<'a>)
        requires
            self.db.wf(),
        ensures
            r.db == self.db,
            r.operations == self.operations,
            r.result@ == stable_sorted_by(*self.db, prop@, self.result@),
            r.result@.to_multiset() == self.result@.to_multiset(),
    {
        broadcast use vstd::seq_lib::group_to_multiset_ensures;

        let QueryExecutor { db, operations, result } = self;
        let ghost orig = result@;
        let mut src = result;
        let mut out: Vec<NodeID> = Vec::new();
        proof {
            assert(out@.to_multiset().add(src@.to_multiset()) =~= orig.to_multiset());
        }
        while src.len() > 0
            invariant
                db.wf(),
                db == self.db,
                out@.to_multiset().add(src@.to_multiset()) == orig.to_multiset(),
                stable_sorted_by(*db, prop@, orig) == out@ + stable_sorted_by(*db, prop@, src@),
            decreases src.len(),
        {
            let sl = src.len();
            let mut m: usize = 0;
            let mut j: usize = 1;
            while j < sl
                invariant
                    sl == src.len(),
                    0 < sl,
                    0 <= m < sl,
                    1 <= j <= sl,
                    db.wf(),
                    m as int == min_index_upto(*db, prop@, src@, j - 1),
                decreases sl - j,
            {
                if node_prop_lt(db, src[j], src[m], prop) {
                    m = j;
                }
                j = j + 1;
            }
            proof {
                assert(m as int == min_index_upto(*db, prop@, src@, src@.len() - 1));
            }
            let ghost pre = src@;
            let ghost outpre = out@;
            let x = src.remove(m);
            out.push(x);
            proof {
                broadcast use vstd::multiset::group_multiset_axioms;

                pre.to_multiset_ensures();
                outpre.to_multiset_ensures();
                assert(src@.to_multiset() =~= pre.to_multiset().remove(pre[m as int]));
                assert(out@.to_multiset() =~= outpre.to_multiset().insert(pre[m as int]));
                assert(pre.contains(pre[m as int]));
                assert(pre.to_multiset().count(pre[m as int]) > 0);
                assert(out@.to_multiset().add(src@.to_multiset()) =~= orig.to_multiset());
                assert(stable_sorted_by(*db, prop@, pre) == seq![pre[m as int]]
                    + stable_sorted_by(*db, prop@, pre.remove(m as int)));
                assert(out@ + stable_sorted_by(*db, prop@, src@) =~= (out@.drop_last()
                    + stable_sorted_by(*db, prop@, pre)));
            }
        }
        proof {
            broadcast use vstd::multiset::group_multiset_axioms;

            src@.to_multiset_ensures();
            assert(src@.to_multiset() =~= Multiset::<NodeID>::empty());
            assert(out@.to_multiset() =~= orig.to_multiset());
            assert(stable_sorted_by(*db, prop@, src@) =~= Seq::<NodeID>::empty());
            assert(out@ =~= stable_sorted_by(*db, prop@, orig));
        }
        QueryExecutor { db, operations, result: out }
    }

    /// Keep only the first `limit` candidates.
    pub fn limit(self, limit: usize) -> (r: QueryExecutor<'a>)
        ensures
            r.db == self.db,
            r.operations == self.operations,
            r.result@ == if limit <= self.result@.len() {
                self.result@.take(limit as int)
            } else {
                self.result@
            },
    {
        let QueryExecutor { db, operations, mut result } = self;
        if limit <= result.len() {
            result.truncate(limit);
        }
        QueryExecutor { db, operations, result }
    }

    /// Drop the first `skip` candidates.
    pub fn skip(self, skip: usize) -> (r: QueryExecutor<'a>)
        ensures
            r.db == self.db,
            r.operations == self.operations,
            r.result@ == if skip <= self.result@.len() {
                self.result@.skip(skip as int)
            } else {
                Seq::<NodeID>::empty()
            },
    {
        let QueryExecutor { db, operations, result } = self;
        let mut kept: Vec<NodeID> = Vec::new();
        let n = result.len();
        if skip >= n {
            proof {
                if skip <= result@.len() {
                    assert(result@.skip(skip as int) =~= Seq::<NodeID>::empty());
                }
                assert(kept@ =~= Seq::<NodeID>::empty());
            }
            return QueryExecutor { db, operations, result: kept };
        }
        let mut i: usize = skip;
        while i < n
            invariant
                n == result.len(),
                skip <= i <= n,
                kept@ == result@.subrange(skip as int, i as int),
            decreases n - i,
        {
            kept.push(result[i]);
            proof {
                assert(kept@ =~= result@.subrange(skip as int, i + 1));
            }
            i = i + 1;
        }
        proof {
            assert(kept@ =~= result@.skip(skip as int));
        }
        QueryExecutor { db, operations, result: kept }
    }

    /// How many candidates the query has.
    pub fn count(&self) -> (r: Result<usize, DBError>)
        ensures
            r == Ok::<usize, DBError>(self.result@.len() as usize),
    {
        Ok(self.result.len())
    }

    /// Materialize the candidate set into node records, in order. Fails
    /// with the execution error exactly when some candidate identifier no
    /// longer names a stored, decodable node.
    pub fn exec(&self) -> (r: Result<Vec<NodeRecord>, DBError>)
        requires
            self.db.wf(),
        ensures
            r matches Ok(v) ==> v@.len() == self.result@.len() && forall|i: int|
                0 <= i < v@.len() ==> self.db.node_at(self.result@[i]) == Some(#[trigger] v@[i]@),
            r is Err ==> r == Err::<Vec<NodeRecord>, DBError>(DBError::ExecError) && exists|i: int|
                0 <= i < self.result@.len() && self.db.node_at(#[trigger] self.result@[i]) is None,
    {
        let mut v: Vec<NodeRecord> = Vec::new();
        let n = self.result.len();
        let mut i: usize = 0;
        while i < n
            invariant
                n == self.result.len(),
                self.db.wf(),
                0 <= i <= n,
                v@.len() == i,
                forall|j: int|
                    0 <= j < i ==> self.db.node_at(self.result@[j]) == Some(#[trigger] v@[j]@),
            decreases n - i,
        {
            match self.db.get_node(self.result[i]) {
                Ok(rec) => {
                    v.push(rec);
                },
                Err(_) => {
                    assert(self.db.node_at(self.result@[i as int]) is None);
                    return Err(DBError::ExecError);
                },
            }
            i = i + 1;
        }
        Ok(v)
    }
}

} // verus!
