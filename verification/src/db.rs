//! The storage contract: the operation set any backend must implement,
//! carried out here against the in-memory partitioned key-value backend.
//!
//! A [`Database`] keeps three partitions — nodes, edges, entities — and
//! offers get / insert / batched insert / remove / batched remove / update
//! for each resource kind. Canonical keys: a node is stored under the
//! decimal rendering of its identifier, an edge under `"<from>:<to>"`, an
//! entity under its name. Inserting a node lazily creates the owning
//! entity record exactly once and keeps that entity's secondary indexes in
//! step with the node's properties, in the same call that makes the node
//! visible. Batched operations are applied in one call: all of a batch
//! becomes visible, never a partial subset.

use crate::data::Payload;
use crate::edge::EdgeItem;
use crate::edge::EdgeItemView;
use crate::edge::edge_key_view;
use crate::edge::enc_edge_item;
use crate::edge::sd_edge_item;
use crate::entity::EntityItem;
use crate::entity::EntityItemView;
use crate::entity::enc_entity;
use crate::entity::entity_wf;
use crate::entity::index_ids;
use crate::entity::is_declared;
use crate::entity::prop_enc;
use crate::entity::sd_entity;
use crate::id::NodeID;
use crate::kv::Partition;
use crate::kv::insert_all;
use crate::kv::remove_all;
use crate::node::NodeRecord;
use crate::node::NodeRecordView;
use crate::node::Prop;
use crate::node::enc_node;
use crate::node::sd_node;
use crate::text::dec_of;
use crate::text::u64_to_dec;
use vstd::prelude::*;

verus! {

/// Failure of a storage operation: one family per resource kind and
/// operation, each carrying the offending key and an underlying cause,
/// with the not-found conditions distinguishable at the type level.
#[derive(Debug, PartialEq, Clone)]
pub enum DBError {
    ConnectError { error: String },
    GetEntityError { key: String, error: String },
    EntityNotFoundError { key: String },
    InsertEntityError { key: String, error: String },
    RemoveEntityError { key: String, error: String },
    UpdateEntityError { key: String, error: String },
    GetNodeError { key: NodeID, error: String },
    NodeNotFoundError { key: NodeID },
    InsertNodeError { key: NodeID, error: String },
    RemoveNodeError { key: NodeID, error: String },
    UpdateNodeError { key: NodeID, error: String },
    GetEdgeError { key: String, error: String },
    EdgeNotFoundError { key: String },
    PathNotFoundError { from: NodeID, to: NodeID },
    InsertEdgeError { key: String, error: String },
    RemoveEdgeError { key: String, error: String },
    UpdateEdgeError { key: String, error: String },
    QueryError,
    ExecError,
}

impl DBError {
    /// Whether this is one of the not-found conditions, as opposed to a
    /// decode or backend failure.
    pub fn is_not_found(&self) -> (r: bool)
        ensures
            r == (self is EntityNotFoundError || self is NodeNotFoundError
                || self is EdgeNotFoundError || self is PathNotFoundError),
    {
        match self {
            DBError::EntityNotFoundError { .. } => true,
            DBError::NodeNotFoundError { .. } => true,
            DBError::EdgeNotFoundError { .. } => true,
            DBError::PathNotFoundError { .. } => true,
            _ => false,
        }
    }
}

/// How the backend is constructed: a filesystem path for a persistent
/// engine (kept for interface fidelity; the in-memory backend does not
/// read it) and the creation flags of the capability.
#[derive(Debug, Clone, PartialEq, Eq)]
pub struct DatabaseConfig {
    pub path: String,
    pub set_error_if_exists: bool,
    pub create_if_missing: bool,
    pub create_missing_column_families: bool,
}

/// A whole entity record decoded from stored bytes; nothing when the bytes
/// are not exactly one valid encoding.
pub open spec fn dec_entity_full(b: Seq<u8>) -> Option<EntityItemView> {
    match sd_entity(b) {
        Some((e, rest)) => if rest.len() == 0 {
            Some(e)
        } else {
            None
        },
        None => None,
    }
}

/// A whole node record decoded from stored bytes.
pub open spec fn dec_node_full(b: Seq<u8>) -> Option<NodeRecordView> {
    match sd_node(b) {
        Some((n, rest)) => if rest.len() == 0 {
            Some(n)
        } else {
            None
        },
        None => None,
    }
}

/// A whole edge record decoded from stored bytes.
pub open spec fn dec_edge_full(b: Seq<u8>) -> Option<EdgeItemView> {
    match sd_edge_item(b) {
        Some((e, rest)) => if rest.len() == 0 {
            Some(e)
        } else {
            None
        },
        None => None,
    }
}

/// The entity record a fresh insert of a node of kind `en` starts from:
/// the stored record of that name, or a fresh one with no declared
/// indexes.
pub open spec fn entity_base(m: Map<Seq<char>, Seq<u8>>, en: Seq<char>) -> EntityItemView {
    if m.contains_key(en) && dec_entity_full(m[en]) is Some {
        dec_entity_full(m[en]).unwrap()
    } else {
        EntityItemView { name: en, declared: Seq::empty(), indexes: Seq::empty() }
    }
}

/// Insert-then-get, for nodes: a storage state reached by inserting a node
/// record holds exactly that record under the record's identifier, so a
/// get of that identifier returns it. Get on an absent identifier returns
/// the not-found condition, by the get contract.
pub proof fn lemma_insert_then_get_node(db1: Database, db2: Database, n: NodeRecordView)
    requires
        db2.nodes_map() == db1.nodes_map().insert(dec_of(n.id.0 as int), enc_node(n)),
        crate::node::node_fits(n),
    ensures
        db2.node_at(n.id) == Some(n),
{
    crate::node::lemma_node_round_trip(n, Seq::empty());
    assert(enc_node(n) + Seq::<u8>::empty() =~= enc_node(n));
}

/// Insert-then-get, for edges: a storage state reached by inserting an
/// edge record holds exactly that record under its endpoint pair.
pub proof fn lemma_insert_then_get_edge(db1: Database, db2: Database, e: EdgeItemView)
    requires
        db2.edges_map() == db1.edges_map().insert(edge_key_view(e.from, e.to), enc_edge_item(e)),
        crate::edge::edge_item_fits(e),
    ensures
        db2.edge_at(e.from, e.to) == Some(e),
{
    crate::edge::lemma_edge_item_round_trip(e, Seq::empty());
    assert(enc_edge_item(e) + Seq::<u8>::empty() =~= enc_edge_item(e));
}

/// Insert-then-get, for entities: a storage state reached by inserting an
/// entity record holds exactly that record under its name.
pub proof fn lemma_insert_then_get_entity(db1: Database, db2: Database, e: EntityItemView)
    requires
        db2.entities_map() == db1.entities_map().insert(e.name, enc_entity(e)),
        crate::entity::entity_fits(e),
    ensures
        db2.entity_at(e.name) == Some(e),
{
    crate::entity::lemma_entity_round_trip(e, Seq::empty());
    assert(enc_entity(e) + Seq::<u8>::empty() =~= enc_entity(e));
}

/// Entity auto-creation: inserting two nodes of the same new entity name
/// leaves exactly one entity record for that name. The first insert
/// creates the name (the stored names grow by exactly that one name), and
/// the second insert, which finds the name present, adds no other entry.
pub proof fn lemma_entity_created_once(
    m0: Map<Seq<char>, Seq<u8>>,
    en: Seq<char>,
    v1: Seq<u8>,
    v2: Seq<u8>,
)
    requires
        !m0.contains_key(en),
    ensures
        m0.insert(en, v1).dom() == m0.dom().insert(en),
        m0.insert(en, v1).insert(en, v2).dom() == m0.dom().insert(en),
{
    assert(m0.insert(en, v1).dom() =~= m0.dom().insert(en));
    assert(m0.insert(en, v1).insert(en, v2).dom() =~= m0.dom().insert(en));
}

/// Batch atomicity, for node inserts: after one batched insert of records
/// with pairwise distinct identifiers, every record of the batch is
/// retrievable under its identifier — the whole batch is visible, never a
/// partial subset.
pub proof fn lemma_batch_all_visible(
    db1: Database,
    db2: Database,
    batch: Seq<NodeRecordView>,
    i: int,
)
    requires
        db2.nodes_map() == insert_all(
            db1.nodes_map(),
            batch.map_values(|n: NodeRecordView| (dec_of(n.id.0 as int), enc_node(n))),
        ),
        0 <= i < batch.len(),
        forall|j: int, k: int| 0 <= j < k < batch.len() ==> #[trigger] batch[j].id != #[trigger] batch[k].id,
        crate::node::node_fits(batch[i]),
    ensures
        db2.node_at(batch[i].id) == Some(batch[i]),
{
    let items = batch.map_values(|n: NodeRecordView| (dec_of(n.id.0 as int), enc_node(n)));
    assert forall|j: int| i < j < items.len() implies (#[trigger] items[j].0) != items[i].0 by {
        assert(items[j].0 == dec_of(batch[j].id.0 as int));
        assert(items[i].0 == dec_of(batch[i].id.0 as int));
        if items[j].0 == items[i].0 {
            crate::text::lemma_dec_of_injective(batch[j].id.0 as int, batch[i].id.0 as int);
        }
    }
    crate::kv::lemma_insert_all_visible(db1.nodes_map(), items, i);
    crate::node::lemma_node_round_trip(batch[i], Seq::empty());
    assert(enc_node(batch[i]) + Seq::<u8>::empty() =~= enc_node(batch[i]));
}

/// A storage handle over the in-memory backend: three partitions and the
/// handle's name.
#[derive(Debug)]
pub struct Database {
    /// The handle's name.
    pub key: String,
    /// The construction parameters the handle was opened with.
    pub config: DatabaseConfig,
    /// Node records, keyed by the decimal rendering of their identifier.
    pub nodes: Partition,
    /// Edge records, keyed by `"<from>:<to>"`.
    pub edges: Partition,
    /// Entity records, keyed by their name.
    pub entities: Partition,
}

impl Database {
    /// The stored node records, as a map from canonical key to bytes.
    pub open spec fn nodes_map(&self) -> Map<Seq<char>, Seq<u8>> {
        self.nodes.as_map()
    }

    /// The stored edge records, as a map from canonical key to bytes.
    pub open spec fn edges_map(&self) -> Map<Seq<char>, Seq<u8>> {
        self.edges.as_map()
    }

    /// The stored entity records, as a map from canonical key to bytes.
    pub open spec fn entities_map(&self) -> Map<Seq<char>, Seq<u8>> {
        self.entities.as_map()
    }

    /// Every stored value is exactly one valid record encoding whose
    /// canonical key is the key it is stored under, and every stored
    /// entity is well formed.
    pub open spec fn wf(&self) -> bool {
        &&& self.nodes.wf()
        &&& self.edges.wf()
        &&& self.entities.wf()
        &&& forall|k: Seq<char>|
            #[trigger] self.entities_map().contains_key(k) ==> {
                let d = dec_entity_full(self.entities_map()[k]);
                d is Some && entity_wf(d.unwrap()) && d.unwrap().name == k
            }
        &&& forall|k: Seq<char>|
            #[trigger] self.nodes_map().contains_key(k) ==> {
                let d = dec_node_full(self.nodes_map()[k]);
                d is Some && dec_of(d.unwrap().id.0 as int) == k
            }
        &&& forall|k: Seq<char>|
            #[trigger] self.edges_map().contains_key(k) ==> {
                let d = dec_edge_full(self.edges_map()[k]);
                d is Some && edge_key_view(d.unwrap().from, d.unwrap().to) == k
            }
    }

    /// The entity record stored under a name, decoded.
    pub open spec fn entity_at(&self, name: Seq<char>) -> Option<EntityItemView> {
        if self.entities_map().contains_key(name) {
            dec_entity_full(self.entities_map()[name])
        } else {
            None
        }
    }

    /// The node record stored under an identifier, decoded.
    pub open spec fn node_at(&self, id: NodeID) -> Option<NodeRecordView> {
        if self.nodes_map().contains_key(dec_of(id.0 as int)) {
            dec_node_full(self.nodes_map()[dec_of(id.0 as int)])
        } else {
            None
        }
    }

    /// The edge record stored under an endpoint pair, decoded.
    pub open spec fn edge_at(&self, from: NodeID, to: NodeID) -> Option<EdgeItemView> {
        if self.edges_map().contains_key(edge_key_view(from, to)) {
            dec_edge_full(self.edges_map()[edge_key_view(from, to)])
        } else {
            None
        }
    }

    /// The handle's name.
    pub fn key(&self) -> (r: String)
        ensures
            r@ == self.key@,
    {
        self.key.clone()
    }

    /// Build the backend instance a handle works against: the three named
    /// partitions, empty.
    pub fn create_db_instance(config: &DatabaseConfig) -> (r: (Partition, Partition, Partition))
        ensures
            r.0.wf() && r.0.as_map() == Map::<Seq<char>, Seq<u8>>::empty(),
            r.1.wf() && r.1.as_map() == Map::<Seq<char>, Seq<u8>>::empty(),
            r.2.wf() && r.2.as_map() == Map::<Seq<char>, Seq<u8>>::empty(),
    {
        let _ = config;
        (Partition::new(), Partition::new(), Partition::new())
    }

    /// Open a storage handle with the given name and construction
    /// parameters. The in-memory backend always opens, empty.
    pub fn new(key: String, config: &DatabaseConfig) -> (r: Result<Database, DBError>)
        ensures
            r matches Ok(db) && db.wf() && db.key@ == key@ && db.nodes_map() == Map::<
                Seq<char>,
                Seq<u8>,
            >::empty() && db.edges_map() == Map::<Seq<char>, Seq<u8>>::empty()
                && db.entities_map() == Map::<Seq<char>, Seq<u8>>::empty(),
    {
        let (nodes, edges, entities) = Database::create_db_instance(config);
        Ok(Database { key, config: config.clone(), nodes, edges, entities })
    }

    /// Fetch the entity stored under a name: the decoded record, or
    /// `EntityNotFoundError` naming the key when no such entity exists —
    /// distinguishable from any decode or backend failure.
    pub fn get_entity(&self, name: &str) -> (r: Result<EntityItem, DBError>)
        requires
            self.wf(),
        ensures
            match self.entity_at(name@) {
                Some(e) => r matches Ok(item) && item@ == e,
                None => r matches Err(err) && err matches DBError::EntityNotFoundError { key }
                    && key@ == name@,
            },
    {
        match self.entities.get(name) {
            None => Err(DBError::EntityNotFoundError { key: name.to_owned() }),
            Some(bytes) => {
                match EntityItem::from_bytes(bytes) {
                    Ok(item) => Ok(item),
                    Err(_) => Err(
                        DBError::GetEntityError {
                            key: name.to_owned(),
                            error: String::from_str("invalid entity record"),
                        },
                    ),
                }
            },
        }
    }

    /// Persist an entity record under its name, overwriting a previous
    /// record of the same name. Nodes and edges are untouched.
    pub fn insert_entity(&mut self, entity: &EntityItem) -> (r: Result<(), DBError>)
        requires
            old(self).wf(),
            entity_wf(entity@),
        ensures
            final(self).wf(),
            r is Ok,
            final(self).entities_map() == old(self).entities_map().insert(
                entity@.name,
                enc_entity(entity@),
            ),
            final(self).nodes_map() == old(self).nodes_map(),
            final(self).edges_map() == old(self).edges_map(),
            final(self).key@ == old(self).key@,
    {
        let bytes = match entity.to_bytes() {
            Ok(b) => b,
            Err(_) => {
                return Err(
                    DBError::InsertEntityError {
                        key: entity.name.clone(),
                        error: String::from_str("serialization failed"),
                    },
                );
            },
        };
        self.entities.put(entity.name.clone(), bytes);
        proof {
            crate::entity::lemma_entity_round_trip(entity@, Seq::empty());
            assert(enc_entity(entity@) + Seq::<u8>::empty() =~= enc_entity(entity@));
            assert(final(self).wf()) by {
                assert forall|k: Seq<char>|
                    #[trigger] final(self).entities_map().contains_key(k) implies {
                    let d = dec_entity_full(final(self).entities_map()[k]);
                    d is Some && entity_wf(d.unwrap()) && d.unwrap().name == k
                } by {
                    if k != entity@.name {
                        assert(old(self).entities_map().contains_key(k));
                    }
                }
            }
        }
        Ok(())
    }

    /// Persist several entity records as one atomic batch: after the call
    /// every record of the batch is visible under its name.
    pub fn insert_entities(&mut self, entities: &Vec<EntityItem>) -> (r: Result<(), DBError>)
        requires
            old(self).wf(),
            forall|i: int| 0 <= i < entities@.len() ==> entity_wf(#[trigger] entities@[i]@),
        ensures
            final(self).wf(),
            r is Ok,
            final(self).entities_map() == insert_all(
                old(self).entities_map(),
                entities@.map_values(|e: EntityItem| (e@.name, enc_entity(e@))),
            ),
            final(self).nodes_map() == old(self).nodes_map(),
            final(self).edges_map() == old(self).edges_map(),
            final(self).key@ == old(self).key@,
    {
        let ghost items = entities@.map_values(|e: EntityItem| (e@.name, enc_entity(e@)));
        let n = entities.len();
        let mut i: usize = 0;
        proof {
            assert(insert_all(old(self).entities_map(), items.take(0)) == old(
                self,
            ).entities_map());
        }
        while i < n
            invariant
                n == entities.len(),
                0 <= i <= n,
                items == entities@.map_values(|e: EntityItem| (e@.name, enc_entity(e@))),
                forall|j: int| 0 <= j < entities@.len() ==> entity_wf(#[trigger] entities@[j]@),
                self.wf(),
                self.entities_map() == insert_all(old(self).entities_map(), items.take(i as int)),
                self.nodes_map() == old(self).nodes_map(),
                self.edges_map() == old(self).edges_map(),
                self.key@ == old(self).key@,
            decreases n - i,
        {
            let e = &entities[i];
            let res = self.insert_entity(e);
            proof {
                assert(items[i as int] == (entities@[i as int]@.name, enc_entity(
                    entities@[i as int]@,
                )));
                assert(items.take(i + 1).drop_last() =~= items.take(i as int));
                assert(items.take(i + 1).last() == items[i as int]);
            }
            i = i + 1;
        }
        proof {
            assert(items.take(n as int) =~= items);
        }
        Ok(())
    }

    /// Delete the entity stored under a record's name. Deleting an absent
    /// entity is not an error: removal is idempotent.
    pub fn remove_entity(&mut self, entity: &EntityItem) -> (r: Result<(), DBError>)
        requires
            old(self).wf(),
        ensures
            final(self).wf(),
            r is Ok,
            final(self).entities_map() == old(self).entities_map().remove(entity@.name),
            final(self).nodes_map() == old(self).nodes_map(),
            final(self).edges_map() == old(self).edges_map(),
            final(self).key@ == old(self).key@,
    {
        self.entities.del(entity.name.as_str());
        proof {
            assert(final(self).wf()) by {
                assert(forall|k: Seq<char>|
                    #[trigger] final(self).entities_map().contains_key(k) ==> old(
                        self,
                    ).entities_map().contains_key(k) && final(self).entities_map()[k] == old(
                        self,
                    ).entities_map()[k]);
            }
        }
        Ok(())
    }

    /// Delete several entities as one atomic batch.
    pub fn remove_entities(&mut self, entities: &Vec<EntityItem>) -> (r: Result<(), DBError>)
        requires
            old(self).wf(),
        ensures
            final(self).wf(),
            r is Ok,
            final(self).entities_map() == remove_all(
                old(self).entities_map(),
                entities@.map_values(|e: EntityItem| e@.name),
            ),
            final(self).nodes_map() == old(self).nodes_map(),
            final(self).edges_map() == old(self).edges_map(),
            final(self).key@ == old(self).key@,
    {
        let ghost keys = entities@.map_values(|e: EntityItem| e@.name);
        let n = entities.len();
        let mut i: usize = 0;
        while i < n
            invariant
                n == entities.len(),
                0 <= i <= n,
                keys == entities@.map_values(|e: EntityItem| e@.name),
                self.wf(),
                self.entities_map() == remove_all(old(self).entities_map(), keys.take(i as int)),
                self.nodes_map() == old(self).nodes_map(),
                self.edges_map() == old(self).edges_map(),
                self.key@ == old(self).key@,
            decreases n - i,
        {
            let res = self.remove_entity(&entities[i]);
            proof {
                assert(keys[i as int] == entities@[i as int]@.name);
                assert(keys.take(i + 1).drop_last() =~= keys.take(i as int));
                assert(keys.take(i + 1).last() == keys[i as int]);
            }
            i = i + 1;
        }
        proof {
            assert(keys.take(n as int) =~= keys);
        }
        Ok(())
    }

    /// Fetch the node stored under an identifier: the decoded record, or
    /// `NodeNotFoundError` naming the key when no such node exists —
    /// distinguishable from any decode or backend failure.
    pub fn get_node(&self, id: NodeID) -> (r: Result<NodeRecord, DBError>)
        requires
            self.wf(),
        ensures
            match self.node_at(id) {
                Some(n) => r matches Ok(item) && item@ == n,
                None => r matches Err(err) && err matches DBError::NodeNotFoundError { key }
                    && key == id,
            },
    {
        let key = u64_to_dec(id.0);
        match self.nodes.get(key.as_str()) {
            None => Err(DBError::NodeNotFoundError { key: id }),
            Some(bytes) => {
                match NodeRecord::from_bytes(bytes) {
                    Ok(item) => Ok(item),
                    Err(_) => Err(
                        DBError::GetNodeError {
                            key: id,
                            error: String::from_str("invalid node record"),
                        },
                    ),
                }
            },
        }
    }

    /// Persist a node record under the decimal rendering of its
    /// identifier, overwriting a previous record of the same identifier,
    /// and, in the same call, register the owning entity and bring its
    /// secondary indexes in step with the record's properties.
    ///
    /// When the record's entity name has never been seen, its entity
    /// record is created — with no declared indexes — exactly once; a
    /// later insert of the same name finds it and keeps its declarations.
    /// For every declared indexed property the record carries, the
    /// record's identifier is listed under the property's serialized
    /// value, appended in insertion order, and removed from every other
    /// bucket. The node is never visible without its entity.
    #[verifier::rlimit(100)]
    pub fn insert_node(&mut self, node: &NodeRecord) -> (r: Result<(), DBError>)
        requires
            old(self).wf(),
        ensures
            final(self).wf(),
            r is Ok,
            final(self).nodes_map() == old(self).nodes_map().insert(
                dec_of(node@.id.0 as int),
                enc_node(node@),
            ),
            final(self).edges_map() == old(self).edges_map(),
            final(self).key@ == old(self).key@,
            final(self).entities_map().contains_key(node@.entity_name),
            forall|k: Seq<char>|
                k != node@.entity_name ==> #[trigger] final(self).entities_map().contains_key(k)
                    == old(self).entities_map().contains_key(k) && (old(
                    self,
                ).entities_map().contains_key(k) ==> final(self).entities_map()[k] == old(
                    self,
                ).entities_map()[k]),
            final(self).entity_at(node@.entity_name) matches Some(e2) && e2.name
                == node@.entity_name && e2.declared == entity_base(
                old(self).entities_map(),
                node@.entity_name,
            ).declared,
            forall|p: Seq<char>, v: Seq<u8>|
                {
                    let base = entity_base(old(self).entities_map(), node@.entity_name);
                    #[trigger] index_ids(
                        final(self).entity_at(node@.entity_name).unwrap(),
                        p,
                        v,
                    ) == if is_declared(base, p) && prop_enc(node@.props, p) == Some(v) {
                        index_ids(base, p, v).filter(|x: NodeID| x != node@.id).push(node@.id)
                    } else {
                        index_ids(base, p, v).filter(|x: NodeID| x != node@.id)
                    }
                },
    {
        let ghost base = entity_base(old(self).entities_map(), node@.entity_name);
        let key = u64_to_dec(node.id.0);
        let bytes = match node.to_bytes() {
            Ok(b) => b,
            Err(_) => {
                return Err(
                    DBError::InsertNodeError {
                        key: node.id,
                        error: String::from_str("serialization failed"),
                    },
                );
            },
        };
        let mut ent: EntityItem = match self.entities.get(node.entity_name.as_str()) {
            Some(v) => {
                match EntityItem::from_bytes(v) {
                    Ok(e) => e,
                    Err(_) => {
                        return Err(
                            DBError::GetEntityError {
                                key: node.entity_name.clone(),
                                error: String::from_str("invalid entity record"),
                            },
                        );
                    },
                }
            },
            None => EntityItem::new(node.entity_name.clone()),
        };
        proof {
            assert(ent@ == base);
            assert(entity_wf(ent@));
        }
        ent.apply_node_index(node.id, &node.props);
        let ebytes = match ent.to_bytes() {
            Ok(b) => b,
            Err(_) => {
                return Err(
                    DBError::InsertEntityError {
                        key: node.entity_name.clone(),
                        error: String::from_str("serialization failed"),
                    },
                );
            },
        };
        self.entities.put(node.entity_name.clone(), ebytes);
        self.nodes.put(key, bytes);
        proof {
            crate::entity::lemma_entity_round_trip(ent@, Seq::empty());
            assert(enc_entity(ent@) + Seq::<u8>::empty() =~= enc_entity(ent@));
            crate::node::lemma_node_round_trip(node@, Seq::empty());
            assert(enc_node(node@) + Seq::<u8>::empty() =~= enc_node(node@));
            assert(final(self).nodes_map() == old(self).nodes_map().insert(
                dec_of(node@.id.0 as int),
                enc_node(node@),
            ));
            assert(final(self).entity_at(node@.entity_name) == Some(ent@));
            assert(final(self).wf()) by {
                assert forall|k: Seq<char>|
                    #[trigger] final(self).entities_map().contains_key(k) implies {
                    let d = dec_entity_full(final(self).entities_map()[k]);
                    d is Some && entity_wf(d.unwrap()) && d.unwrap().name == k
                } by {
                    if k != node@.entity_name {
                        assert(old(self).entities_map().contains_key(k));
                    }
                }
                assert forall|k: Seq<char>|
                    #[trigger] final(self).nodes_map().contains_key(k) implies {
                    let d = dec_node_full(final(self).nodes_map()[k]);
                    d is Some && dec_of(d.unwrap().id.0 as int) == k
                } by {
                    if k != dec_of(node@.id.0 as int) {
                        assert(old(self).nodes_map().contains_key(k));
                    }
                }
            }
        }
        Ok(())
    }

    /// Persist several node records as one atomic batch: after the call
    /// every record of the batch is visible under its key — never a
    /// partial subset. Each record's entity registration and index
    /// maintenance happens as in a singular insert.
    pub fn insert_nodes(&mut self, nodes: &Vec<NodeRecord>) -> (r: Result<(), DBError>)
        requires
            old(self).wf(),
        ensures
            final(self).wf(),
            r is Ok,
            final(self).nodes_map() == insert_all(
                old(self).nodes_map(),
                nodes@.map_values(|n: NodeRecord| (dec_of(n@.id.0 as int), enc_node(n@))),
            ),
            final(self).edges_map() == old(self).edges_map(),
            final(self).key@ == old(self).key@,
    {
        let ghost items = nodes@.map_values(
            |n: NodeRecord| (dec_of(n@.id.0 as int), enc_node(n@)),
        );
        let n = nodes.len();
        let mut i: usize = 0;
        while i < n
            invariant
                n == nodes.len(),
                0 <= i <= n,
                items == nodes@.map_values(
                    |q: NodeRecord| (dec_of(q@.id.0 as int), enc_node(q@)),
                ),
                self.wf(),
                self.nodes_map() == insert_all(old(self).nodes_map(), items.take(i as int)),
                self.edges_map() == old(self).edges_map(),
                self.key@ == old(self).key@,
            decreases n - i,
        {
            let res = self.insert_node(&nodes[i]);
            proof {
                assert(items[i as int] == (dec_of(nodes@[i as int]@.id.0 as int), enc_node(
                    nodes@[i as int]@,
                )));
                assert(items.take(i + 1).drop_last() =~= items.take(i as int));
                assert(items.take(i + 1).last() == items[i as int]);
            }
            i = i + 1;
        }
        proof {
            assert(items.take(n as int) =~= items);
        }
        Ok(())
    }

    /// Delete the node stored under a record's identifier and remove that
    /// identifier from every index bucket of the record's entity. Removing
    /// an absent node is not an error: removal is idempotent.
    pub fn remove_node(&mut self, node: &NodeRecord) -> (r: Result<(), DBError>)
        requires
            old(self).wf(),
        ensures
            final(self).wf(),
            r is Ok,
            final(self).nodes_map() == old(self).nodes_map().remove(dec_of(node@.id.0 as int)),
            final(self).edges_map() == old(self).edges_map(),
            final(self).key@ == old(self).key@,
            forall|k: Seq<char>|
                k != node@.entity_name ==> #[trigger] final(self).entities_map().contains_key(k)
                    == old(self).entities_map().contains_key(k) && (old(
                    self,
                ).entities_map().contains_key(k) ==> final(self).entities_map()[k] == old(
                    self,
                ).entities_map()[k]),
            old(self).entity_at(node@.entity_name) matches Some(e0) ==> {
                &&& final(self).entity_at(node@.entity_name) matches Some(e2)
                &&& e2.name == e0.name
                &&& e2.declared == e0.declared
                &&& forall|p: Seq<char>, v: Seq<u8>|
                    #[trigger] index_ids(e2, p, v) == index_ids(e0, p, v).filter(
                        |x: NodeID| x != node@.id,
                    )
            },
            old(self).entity_at(node@.entity_name) is None ==> final(self).entities_map() == old(
                self,
            ).entities_map(),
    {
        let key = u64_to_dec(node.id.0);
        self.nodes.del(key.as_str());
        let ent_opt: Option<EntityItem> = match self.entities.get(node.entity_name.as_str()) {
            Some(v) => {
                match EntityItem::from_bytes(v) {
                    Ok(e) => Some(e),
                    Err(_) => None,
                }
            },
            None => None,
        };
        match ent_opt {
            None => {
                proof {
                    assert(final(self).entities_map() =~= old(self).entities_map());
                    assert(final(self).wf()) by {
                        assert(forall|k: Seq<char>|
                            #[trigger] final(self).nodes_map().contains_key(k) ==> old(
                                self,
                            ).nodes_map().contains_key(k) && final(self).nodes_map()[k] == old(
                                self,
                            ).nodes_map()[k]);
                    }
                }
                Ok(())
            },
            Some(mut ent) => {
                ent.remove_from_index(node.id);
                let ebytes = match ent.to_bytes() {
                    Ok(b) => b,
                    Err(_) => {
                        return Err(
                            DBError::RemoveNodeError {
                                key: node.id,
                                error: String::from_str("serialization failed"),
                            },
                        );
                    },
                };
                self.entities.put(node.entity_name.clone(), ebytes);
                proof {
                    crate::entity::lemma_entity_round_trip(ent@, Seq::empty());
                    assert(enc_entity(ent@) + Seq::<u8>::empty() =~= enc_entity(ent@));
                    assert(final(self).entity_at(node@.entity_name) == Some(ent@));
                    assert(final(self).wf()) by {
                        assert forall|k: Seq<char>|
                            #[trigger] final(self).entities_map().contains_key(k) implies {
                            let d = dec_entity_full(final(self).entities_map()[k]);
                            d is Some && entity_wf(d.unwrap()) && d.unwrap().name == k
                        } by {
                            if k != node@.entity_name {
                                assert(old(self).entities_map().contains_key(k));
                            }
                        }
                        assert(forall|k: Seq<char>|
                            #[trigger] final(self).nodes_map().contains_key(k) ==> old(
                                self,
                            ).nodes_map().contains_key(k) && final(self).nodes_map()[k] == old(
                                self,
                            ).nodes_map()[k]);
                    }
                }
                Ok(())
            },
        }
    }

    /// Delete several nodes as one atomic batch, with each record's index
    /// maintenance as in a singular removal.
    pub fn remove_nodes(&mut self, nodes: &Vec<NodeRecord>) -> (r: Result<(), DBError>)
        requires
            old(self).wf(),
        ensures
            final(self).wf(),
            r is Ok,
            final(self).nodes_map() == remove_all(
                old(self).nodes_map(),
                nodes@.map_values(|n: NodeRecord| dec_of(n@.id.0 as int)),
            ),
            final(self).edges_map() == old(self).edges_map(),
            final(self).key@ == old(self).key@,
    {
        let ghost keys = nodes@.map_values(|n: NodeRecord| dec_of(n@.id.0 as int));
        let n = nodes.len();
        let mut i: usize = 0;
        while i < n
            invariant
                n == nodes.len(),
                0 <= i <= n,
                keys == nodes@.map_values(|q: NodeRecord| dec_of(q@.id.0 as int)),
                self.wf(),
                self.nodes_map() == remove_all(old(self).nodes_map(), keys.take(i as int)),
                self.edges_map() == old(self).edges_map(),
                self.key@ == old(self).key@,
            decreases n - i,
        {
            let res = self.remove_node(&nodes[i]);
            proof {
                assert(keys[i as int] == dec_of(nodes@[i as int]@.id.0 as int));
                assert(keys.take(i + 1).drop_last() =~= keys.take(i as int));
                assert(keys.take(i + 1).last() == keys[i as int]);
            }
            i = i + 1;
        }
        proof {
            assert(keys.take(n as int) =~= keys);
        }
        Ok(())
    }

    /// Upsert a node record: overwrite in place under the same key, with
    /// the same entity registration and index maintenance as an insert.
    pub fn update_node(&mut self, node: &NodeRecord) -> (r: Result<(), DBError>)
        requires
            old(self).wf(),
        ensures
            final(self).wf(),
            r is Ok,
            final(self).nodes_map() == old(self).nodes_map().insert(
                dec_of(node@.id.0 as int),
                enc_node(node@),
            ),
            final(self).edges_map() == old(self).edges_map(),
            final(self).key@ == old(self).key@,
            final(self).entities_map().contains_key(node@.entity_name),
            forall|k: Seq<char>|
                k != node@.entity_name ==> #[trigger] final(self).entities_map().contains_key(k)
                    == old(self).entities_map().contains_key(k) && (old(
                    self,
                ).entities_map().contains_key(k) ==> final(self).entities_map()[k] == old(
                    self,
                ).entities_map()[k]),
            final(self).entity_at(node@.entity_name) matches Some(e2) && e2.name
                == node@.entity_name && e2.declared == entity_base(
                old(self).entities_map(),
                node@.entity_name,
            ).declared,
            forall|p: Seq<char>, v: Seq<u8>|
                {
                    let base = entity_base(old(self).entities_map(), node@.entity_name);
                    #[trigger] index_ids(
                        final(self).entity_at(node@.entity_name).unwrap(),
                        p,
                        v,
                    ) == if is_declared(base, p) && prop_enc(node@.props, p) == Some(v) {
                        index_ids(base, p, v).filter(|x: NodeID| x != node@.id).push(node@.id)
                    } else {
                        index_ids(base, p, v).filter(|x: NodeID| x != node@.id)
                    }
                },
    {
        self.insert_node(node)
    }

    /// Fetch the edge stored under an endpoint pair: the decoded record,
    /// or `EdgeNotFoundError` naming the key when no such edge exists —
    /// distinguishable from any decode or backend failure.
    pub fn get_edge(&self, from: NodeID, to: NodeID) -> (r: Result<EdgeItem, DBError>)
        requires
            self.wf(),
        ensures
            match self.edge_at(from, to) {
                Some(e) => r matches Ok(item) && item@ == e,
                None => r matches Err(err) && err matches DBError::EdgeNotFoundError { key }
                    && key@ == edge_key_view(from, to),
            },
    {
        let key = EdgeItem::format_key(from, to);
        match self.edges.get(key.as_str()) {
            None => Err(DBError::EdgeNotFoundError { key }),
            Some(bytes) => {
                match EdgeItem::from_bytes(bytes) {
                    Ok(item) => Ok(item),
                    Err(_) => Err(
                        DBError::GetEdgeError {
                            key,
                            error: String::from_str("invalid edge record"),
                        },
                    ),
                }
            },
        }
    }

    /// Persist an edge record under `"<from>:<to>"`: an edge between the
    /// same ordered pair overwrites the previous one — last write wins by
    /// design. Nodes and entities are untouched.
    pub fn insert_edge(&mut self, edge: &EdgeItem) -> (r: Result<(), DBError>)
        requires
            old(self).wf(),
        ensures
            final(self).wf(),
            r is Ok,
            final(self).edges_map() == old(self).edges_map().insert(
                edge_key_view(edge@.from, edge@.to),
                enc_edge_item(edge@),
            ),
            final(self).nodes_map() == old(self).nodes_map(),
            final(self).entities_map() == old(self).entities_map(),
            final(self).key@ == old(self).key@,
    {
        let key = EdgeItem::format_key(edge.from, edge.to);
        let bytes = match edge.to_bytes() {
            Ok(b) => b,
            Err(_) => {
                return Err(
                    DBError::InsertEdgeError {
                        key,
                        error: String::from_str("serialization failed"),
                    },
                );
            },
        };
        self.edges.put(key, bytes);
        proof {
            crate::edge::lemma_edge_item_round_trip(edge@, Seq::empty());
            assert(enc_edge_item(edge@) + Seq::<u8>::empty() =~= enc_edge_item(edge@));
            assert(final(self).wf()) by {
                assert forall|k: Seq<char>|
                    #[trigger] final(self).edges_map().contains_key(k) implies {
                    let d = dec_edge_full(final(self).edges_map()[k]);
                    d is Some && edge_key_view(d.unwrap().from, d.unwrap().to) == k
                } by {
                    if k != edge_key_view(edge@.from, edge@.to) {
                        assert(old(self).edges_map().contains_key(k));
                    }
                }
            }
        }
        Ok(())
    }

    /// Persist several edge records as one atomic batch: after the call
    /// every record of the batch is visible under its key.
    pub fn insert_edges(&mut self, edges: &Vec<EdgeItem>) -> (r: Result<(), DBError>)
        requires
            old(self).wf(),
        ensures
            final(self).wf(),
            r is Ok,
            final(self).edges_map() == insert_all(
                old(self).edges_map(),
                edges@.map_values(
                    |e: EdgeItem| (edge_key_view(e@.from, e@.to), enc_edge_item(e@)),
                ),
            ),
            final(self).nodes_map() == old(self).nodes_map(),
            final(self).entities_map() == old(self).entities_map(),
            final(self).key@ == old(self).key@,
    {
        let ghost items = edges@.map_values(
            |e: EdgeItem| (edge_key_view(e@.from, e@.to), enc_edge_item(e@)),
        );
        let n = edges.len();
        let mut i: usize = 0;
        while i < n
            invariant
                n == edges.len(),
                0 <= i <= n,
                items == edges@.map_values(
                    |e: EdgeItem| (edge_key_view(e@.from, e@.to), enc_edge_item(e@)),
                ),
                self.wf(),
                self.edges_map() == insert_all(old(self).edges_map(), items.take(i as int)),
                self.nodes_map() == old(self).nodes_map(),
                self.entities_map() == old(self).entities_map(),
                self.key@ == old(self).key@,
            decreases n - i,
        {
            let res = self.insert_edge(&edges[i]);
            proof {
                assert(items[i as int] == (edge_key_view(edges@[i as int]@.from, edges@[i as int]@.to), enc_edge_item(
                    edges@[i as int]@,
                )));
                assert(items.take(i + 1).drop_last() =~= items.take(i as int));
                assert(items.take(i + 1).last() == items[i as int]);
            }
            i = i + 1;
        }
        proof {
            assert(items.take(n as int) =~= items);
        }
        Ok(())
    }

    /// Delete the edge stored under a record's endpoint pair. Removing an
    /// absent edge is not an error: removal is idempotent.
    pub fn remove_edge(&mut self, edge: &EdgeItem) -> (r: Result<(), DBError>)
        requires
            old(self).wf(),
        ensures
            final(self).wf(),
            r is Ok,
            final(self).edges_map() == old(self).edges_map().remove(
                edge_key_view(edge@.from, edge@.to),
            ),
            final(self).nodes_map() == old(self).nodes_map(),
            final(self).entities_map() == old(self).entities_map(),
            final(self).key@ == old(self).key@,
    {
        let key = EdgeItem::format_key(edge.from, edge.to);
        self.edges.del(key.as_str());
        proof {
            assert(final(self).wf()) by {
                assert(forall|k: Seq<char>|
                    #[trigger] final(self).edges_map().contains_key(k) ==> old(
                        self,
                    ).edges_map().contains_key(k) && final(self).edges_map()[k] == old(
                        self,
                    ).edges_map()[k]);
            }
        }
        Ok(())
    }

    /// Delete several edges as one atomic batch.
    pub fn remove_edges(&mut self, edges: &Vec<EdgeItem>) -> (r: Result<(), DBError>)
        requires
            old(self).wf(),
        ensures
            final(self).wf(),
            r is Ok,
            final(self).edges_map() == remove_all(
                old(self).edges_map(),
                edges@.map_values(|e: EdgeItem| edge_key_view(e@.from, e@.to)),
            ),
            final(self).nodes_map() == old(self).nodes_map(),
            final(self).entities_map() == old(self).entities_map(),
            final(self).key@ == old(self).key@,
    {
        let ghost keys = edges@.map_values(|e: EdgeItem| edge_key_view(e@.from, e@.to));
        let n = edges.len();
        let mut i: usize = 0;
        while i < n
            invariant
                n == edges.len(),
                0 <= i <= n,
                keys == edges@.map_values(|e: EdgeItem| edge_key_view(e@.from, e@.to)),
                self.wf(),
                self.edges_map() == remove_all(old(self).edges_map(), keys.take(i as int)),
                self.nodes_map() == old(self).nodes_map(),
                self.entities_map() == old(self).entities_map(),
                self.key@ == old(self).key@,
            decreases n - i,
        {
            let res = self.remove_edge(&edges[i]);
            proof {
                assert(keys[i as int] == edge_key_view(
                    edges@[i as int]@.from,
                    edges@[i as int]@.to,
                ));
                assert(keys.take(i + 1).drop_last() =~= keys.take(i as int));
                assert(keys.take(i + 1).last() == keys[i as int]);
            }
            i = i + 1;
        }
        proof {
            assert(keys.take(n as int) =~= keys);
        }
        Ok(())
    }

    /// Upsert an edge record: overwrite in place under the same key.
    pub fn update_edge(&mut self, edge: &EdgeItem) -> (r: Result<(), DBError>)
        requires
            old(self).wf(),
        ensures
            final(self).wf(),
            r is Ok,
            final(self).edges_map() == old(self).edges_map().insert(
                edge_key_view(edge@.from, edge@.to),
                enc_edge_item(edge@),
            ),
            final(self).nodes_map() == old(self).nodes_map(),
            final(self).entities_map() == old(self).entities_map(),
            final(self).key@ == old(self).key@,
    {
        self.insert_edge(edge)
    }

    /// Upsert an entity record: overwrite in place under the same name.
    pub fn update_entity(&mut self, entity: &EntityItem) -> (r: Result<(), DBError>)
        requires
            old(self).wf(),
            entity_wf(entity@),
        ensures
            final(self).wf(),
            r is Ok,
            final(self).entities_map() == old(self).entities_map().insert(
                entity@.name,
                enc_entity(entity@),
            ),
            final(self).nodes_map() == old(self).nodes_map(),
            final(self).edges_map() == old(self).edges_map(),
            final(self).key@ == old(self).key@,
    {
        self.insert_entity(entity)
    }
}

} // verus!
