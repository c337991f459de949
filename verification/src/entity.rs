//! Entity records: the per-kind grouping of nodes and the durable home of
//! that kind's secondary indexes.
//!
//! One [`EntityItem`] exists per distinct node kind. It carries the names
//! of the properties declared as indexed, and, for each (property,
//! serialized value) pair seen on a node, the ordered set of node
//! identifiers holding that value — in insertion order.

use crate::codec::enc_bytes;
use crate::codec::enc_str;
use crate::codec::enc_u64;
use crate::codec::read_bytes;
use crate::codec::read_str;
use crate::codec::read_u64;
use crate::codec::sd_bytes;
use crate::codec::sd_str;
use crate::codec::sd_u64;
use crate::codec::write_bytes;
use crate::codec::write_str;
use crate::codec::write_u64;
use crate::id::NodeID;
use crate::node::Prop;
use vstd::prelude::*;
use vstd::string::StringExecFns;
use vstd::utf8::encode_utf8;

verus! {

/// Failure of an entity operation.
#[derive(Debug)]
pub enum EntityError {
    /// The record could not be serialized.
    SerializeError,
    /// The bytes do not hold a valid record encoding.
    DeserializeError,
    /// The entity could not be inserted.
    InsertEntityError { key: String, error: String },
}

/// The mathematical value of an [`EntityError`].
pub enum EntityErrorView {
    SerializeError,
    DeserializeError,
    InsertEntityError { key: Seq<char>, error: Seq<char> },
}

impl View for EntityError {
    type V = EntityErrorView;

    open spec fn view(&self) -> EntityErrorView {
        match self {
            EntityError::SerializeError => EntityErrorView::SerializeError,
            EntityError::DeserializeError => EntityErrorView::DeserializeError,
            EntityError::InsertEntityError { key, error } => EntityErrorView::InsertEntityError {
                key: key@,
                error: error@,
            },
        }
    }
}

impl PartialEq for EntityError {
    fn eq(&self, other: &EntityError) -> (r: bool) {
        match (self, other) {
            (EntityError::SerializeError, EntityError::SerializeError) => true,
            (EntityError::DeserializeError, EntityError::DeserializeError) => true,
            (
                EntityError::InsertEntityError { key: k1, error: e1 },
                EntityError::InsertEntityError { key: k2, error: e2 },
            ) => *k1 == *k2 && *e1 == *e2,
            _ => false,
        }
    }
}

impl Eq for EntityError {

}

impl vstd::std_specs::cmp::PartialEqSpecImpl for EntityError {
    open spec fn obeys_eq_spec() -> bool {
        true
    }

    open spec fn eq_spec(&self, other: &EntityError) -> bool {
        self@ == other@
    }
}

/// One secondary-index bucket: the node identifiers whose property `prop`
/// has the serialized value `value`, in insertion order.
#[derive(Debug)]
pub struct IndexEntry {
    /// The indexed property's name.
    pub prop: String,
    /// The property value, in its binary encoding.
    pub value: Vec<u8>,
    /// The identifiers of the nodes holding that value, in insertion order.
    pub ids: Vec<NodeID>,
}

/// The mathematical value of an [`IndexEntry`].
pub struct IndexEntryView {
    pub prop: Seq<char>,
    pub value: Seq<u8>,
    pub ids: Seq<NodeID>,
}

impl View for IndexEntry {
    type V = IndexEntryView;

    open spec fn view(&self) -> IndexEntryView {
        IndexEntryView { prop: self.prop@, value: self.value@, ids: self.ids@ }
    }
}

impl Clone for IndexEntry {
    /// Cloning keeps the entry.
    fn clone(&self) -> (r: IndexEntry)
        ensures
            r@ == self@,
    {
        IndexEntry { prop: self.prop.clone(), value: self.value.clone(), ids: self.ids.clone() }
    }
}

/// The per-kind entity record: the kind's name, its declared indexed
/// properties, and its secondary-index buckets.
#[derive(Debug)]
pub struct EntityItem {
    /// The entity's name, unique among all entities.
    pub name: String,
    /// The names of the properties declared as indexed.
    pub declared: Vec<String>,
    /// The index buckets, keyed by (property, serialized value).
    pub indexes: Vec<IndexEntry>,
}

/// The mathematical value of an [`EntityItem`].
pub struct EntityItemView {
    pub name: Seq<char>,
    pub declared: Seq<Seq<char>>,
    pub indexes: Seq<IndexEntryView>,
}

impl View for EntityItem {
    type V = EntityItemView;

    open spec fn view(&self) -> EntityItemView {
        EntityItemView {
            name: self.name@,
            declared: self.declared@.map_values(|s: String| s@),
            indexes: self.indexes@.map_values(|e: IndexEntry| e@),
        }
    }
}

impl Clone for EntityItem {
    /// Cloning keeps the record.
    fn clone(&self) -> (r: EntityItem)
        ensures
            r@ == self@,
    {
        let mut declared: Vec<String> = Vec::new();
        let dn = self.declared.len();
        let mut i: usize = 0;
        while i < dn
            invariant
                dn == self.declared.len(),
                0 <= i <= dn,
                declared@.len() == i,
                forall|k: int| 0 <= k < i ==> declared@[k]@ == #[trigger] self.declared@[k]@,
            decreases dn - i,
        {
            declared.push(self.declared[i].clone());
            i = i + 1;
        }
        let mut indexes: Vec<IndexEntry> = Vec::new();
        let en = self.indexes.len();
        let mut j: usize = 0;
        while j < en
            invariant
                en == self.indexes.len(),
                0 <= j <= en,
                indexes@.len() == j,
                forall|k: int| 0 <= k < j ==> indexes@[k]@ == #[trigger] self.indexes@[k]@,
            decreases en - j,
        {
            indexes.push(self.indexes[j].clone());
            j = j + 1;
        }
        let r = EntityItem { name: self.name.clone(), declared, indexes };
        proof {
            assert(r@.declared =~= self@.declared);
            assert(r@.indexes =~= self@.indexes);
        }
        r
    }
}

/// Whether the property name is among the declared indexed properties.
pub open spec fn is_declared(e: EntityItemView, prop: Seq<char>) -> bool {
    exists|i: int| 0 <= i < e.declared.len() && #[trigger] e.declared[i] == prop
}

/// The position of the bucket for (`prop`, `value`), if any.
pub open spec fn entry_index(entries: Seq<IndexEntryView>, prop: Seq<char>, value: Seq<u8>) -> int {
    choose|i: int|
        0 <= i < entries.len() && #[trigger] entries[i].prop == prop && entries[i].value == value
}

/// Whether a bucket for (`prop`, `value`) exists.
pub open spec fn has_entry(entries: Seq<IndexEntryView>, prop: Seq<char>, value: Seq<u8>) -> bool {
    exists|i: int|
        0 <= i < entries.len() && #[trigger] entries[i].prop == prop && entries[i].value == value
}

/// The identifiers indexed under (`prop`, `value`), in insertion order;
/// empty when no bucket exists.
pub open spec fn index_ids(e: EntityItemView, prop: Seq<char>, value: Seq<u8>) -> Seq<NodeID> {
    if has_entry(e.indexes, prop, value) {
        e.indexes[entry_index(e.indexes, prop, value)].ids
    } else {
        Seq::empty()
    }
}

/// An entity record is well formed when its buckets have pairwise distinct
/// (property, value) keys.
pub open spec fn entity_wf(e: EntityItemView) -> bool {
    forall|i: int, j: int|
        0 <= i < j < e.indexes.len() ==> !(#[trigger] e.indexes[i].prop == #[trigger] e.indexes[j].prop
            && e.indexes[i].value == e.indexes[j].value)
}

impl EntityItem {
    /// A fresh entity record with the given name, no declared indexes and
    /// no buckets.
    pub fn new(name: String) -> (r: EntityItem)
        ensures
            r@.name == name@,
            r@.declared == Seq::<Seq<char>>::empty(),
            r@.indexes == Seq::<IndexEntryView>::empty(),
            entity_wf(r@),
    {
        let r = EntityItem { name, declared: Vec::new(), indexes: Vec::new() };
        proof {
            assert(r@.declared =~= Seq::<Seq<char>>::empty());
            assert(r@.indexes =~= Seq::<IndexEntryView>::empty());
        }
        r
    }

    /// Declare a property as indexed. Declaring a property twice leaves
    /// one declaration.
    pub fn declare_index(&mut self, prop: &str)
        ensures
            final(self)@.name == old(self)@.name,
            final(self)@.indexes == old(self)@.indexes,
            forall|p: Seq<char>|
                is_declared(final(self)@, p) == (is_declared(old(self)@, p) || p == prop@),
    {
        let ghost oldv = self@;
        let n = self.declared.len();
        let mut i: usize = 0;
        while i < n
            invariant
                n == self.declared.len(),
                0 <= i <= n,
                self@ == oldv,
                forall|k: int| 0 <= k < i ==> oldv.declared[k] != prop@,
            decreases n - i,
        {
            proof {
                assert(oldv.declared[i as int] == self.declared@[i as int]@);
            }
            if crate::text::str_eq(self.declared[i].as_str(), prop) {
                proof {
                    assert(is_declared(oldv, prop@));
                    assert(forall|p: Seq<char>|
                        is_declared(self@, p) == (is_declared(oldv, p) || p == prop@));
                }
                return ;
            }
            i = i + 1;
        }
        self.declared.push(prop.to_owned());
        proof {
            assert(final(self)@.indexes =~= oldv.indexes);
            assert(final(self)@.declared =~= oldv.declared.push(prop@));
            assert forall|p: Seq<char>|
                is_declared(final(self)@, p) == (is_declared(oldv, p) || p == prop@) by {
                let dv = final(self)@.declared;
                assert(dv[dv.len() - 1] == prop@);
                if is_declared(oldv, p) {
                    let w = choose|k: int| 0 <= k < oldv.declared.len() && #[trigger] oldv.declared[k] == p;
                    assert(dv[w] == p);
                }
                if is_declared(final(self)@, p) && p != prop@ {
                    let w = choose|k: int| 0 <= k < dv.len() && #[trigger] dv[k] == p;
                    assert(oldv.declared[w] == p);
                }
            }
        }
    }
}

/// A position holding the key (`prop`, `value`) is the position the lookup
/// uses, when the keys are pairwise distinct.
pub proof fn lemma_entry_index_unique(
    entries: Seq<IndexEntryView>,
    prop: Seq<char>,
    value: Seq<u8>,
    w: int,
)
    requires
        forall|i: int, j: int|
            0 <= i < j < entries.len() ==> !(#[trigger] entries[i].prop == #[trigger] entries[j].prop
                && entries[i].value == entries[j].value),
        0 <= w < entries.len(),
        entries[w].prop == prop,
        entries[w].value == value,
    ensures
        has_entry(entries, prop, value),
        entry_index(entries, prop, value) == w,
{
    assert(has_entry(entries, prop, value));
    let u = entry_index(entries, prop, value);
    if u < w {
        assert(!(entries[u].prop == entries[w].prop && entries[u].value == entries[w].value));
    }
    if w < u {
        assert(!(entries[w].prop == entries[u].prop && entries[w].value == entries[u].value));
    }
}

impl EntityItem {
    /// Whether the property name is declared as indexed.
    pub fn is_declared_exec(&self, prop: &str) -> (r: bool)
        ensures
            r == is_declared(self@, prop@),
    {
        let n = self.declared.len();
        let mut i: usize = 0;
        while i < n
            invariant
                n == self.declared.len(),
                0 <= i <= n,
                forall|k: int| 0 <= k < i ==> self@.declared[k] != prop@,
            decreases n - i,
        {
            proof {
                assert(self@.declared[i as int] == self.declared@[i as int]@);
            }
            if crate::text::str_eq(self.declared[i].as_str(), prop) {
                assert(is_declared(self@, prop@));
                return true;
            }
            i = i + 1;
        }
        assert(!is_declared(self@, prop@));
        false
    }

    /// Remove a node identifier from every index bucket: the bucket keys
    /// stay as they are and every bucket keeps its other identifiers in
    /// order.
    #[verifier::spinoff_prover]
    #[verifier::rlimit(100)]
    pub fn remove_from_index(&mut self, id: NodeID)
        requires
            entity_wf(old(self)@),
        ensures
            final(self)@.name == old(self)@.name,
            final(self)@.declared == old(self)@.declared,
            entity_wf(final(self)@),
            forall|p: Seq<char>, v: Seq<u8>|
                #[trigger] index_ids(final(self)@, p, v) == index_ids(old(self)@, p, v).filter(
                    |x: NodeID| x != id,
                ),
            forall|p: Seq<char>, v: Seq<u8>|
                #[trigger] has_entry(final(self)@.indexes, p, v) == has_entry(
                    old(self)@.indexes,
                    p,
                    v,
                ),
    {
        broadcast use vstd::seq_lib::group_filter_ensures;

        let ghost oldv = self@;
        let n = self.indexes.len();
        let mut i: usize = 0;
        while i < n
            invariant
                n == self.indexes.len(),
                0 <= i <= n,
                entity_wf(oldv),
                self@.name == oldv.name,
                self@.declared == oldv.declared,
                self@.indexes.len() == oldv.indexes.len(),
                forall|j: int|
                    0 <= j < n ==> #[trigger] self@.indexes[j].prop == oldv.indexes[j].prop
                        && self@.indexes[j].value == oldv.indexes[j].value,
                forall|j: int|
                    0 <= j < i ==> #[trigger] self@.indexes[j].ids == oldv.indexes[j].ids.filter(
                        |x: NodeID| x != id,
                    ),
                forall|j: int| i <= j < n ==> #[trigger] self@.indexes[j].ids == oldv.indexes[j].ids,
            decreases n - i,
        {
            let ghost prev = self@;
            let prop = self.indexes[i].prop.clone();
            let value = self.indexes[i].value.clone();
            let m = self.indexes[i].ids.len();
            let mut kept: Vec<NodeID> = Vec::new();
            let mut k: usize = 0;
            proof {
                assert(prev.indexes[i as int].ids.take(0) =~= Seq::<NodeID>::empty());
                assert(prev.indexes[i as int].ids.take(0).filter(|x: NodeID| x != id) =~= Seq::<
                    NodeID,
                >::empty());
            }
            while k < m
                invariant
                    i < n == self.indexes.len(),
                    m == self.indexes@[i as int].ids.len(),
                    0 <= k <= m,
                    self@ == prev,
                    kept@ == prev.indexes[i as int].ids.take(k as int).filter(
                        |x: NodeID| x != id,
                    ),
                decreases m - k,
            {
                let ghost idsv = prev.indexes[i as int].ids;
                proof {
                    assert(idsv == self.indexes@[i as int].ids@);
                    assert(idsv.take(k + 1) =~= idsv.take(k as int) + seq![idsv[k as int]]);
                    Seq::filter_distributes_over_add(
                        idsv.take(k as int),
                        seq![idsv[k as int]],
                        |x: NodeID| x != id,
                    );
                    reveal_with_fuel(Seq::filter, 2);
                    assert(seq![idsv[k as int]].drop_last() =~= Seq::<NodeID>::empty());
                }
                let cur = self.indexes[i].ids[k];
                if cur != id {
                    kept.push(cur);
                    proof {
                        assert(seq![idsv[k as int]].filter(|x: NodeID| x != id) =~= seq![
                            idsv[k as int],
                        ]);
                        assert(kept@ =~= idsv.take(k + 1).filter(|x: NodeID| x != id));
                    }
                } else {
                    proof {
                        assert(seq![idsv[k as int]].filter(|x: NodeID| x != id) =~= Seq::<
                            NodeID,
                        >::empty());
                        assert(kept@ =~= idsv.take(k + 1).filter(|x: NodeID| x != id));
                    }
                }
                k = k + 1;
            }
            proof {
                assert(prev.indexes[i as int].ids.take(m as int) =~= prev.indexes[i as int].ids);
            }
            self.indexes.set(i, IndexEntry { prop, value, ids: kept });
            proof {
                assert(self@.indexes =~= prev.indexes.update(
                    i as int,
                    self.indexes@[i as int]@,
                ));
                assert(self@.indexes[i as int].prop == prev.indexes[i as int].prop);
                assert(self@.indexes[i as int].value == prev.indexes[i as int].value);
                assert(self@.indexes[i as int].prop == oldv.indexes[i as int].prop);
                assert(self@.indexes[i as int].value == oldv.indexes[i as int].value);
                assert(self@.indexes[i as int].ids == oldv.indexes[i as int].ids.filter(
                    |x: NodeID| x != id,
                ));
                assert(forall|j: int|
                    0 <= j < n && j != i ==> #[trigger] self@.indexes[j] == prev.indexes[j]);
            }
            i = i + 1;
        }
        proof {
            lemma_pointwise_index(oldv, final(self)@, id);
        }
    }
}

/// The serialized value of the named property among `props`, if present.
pub open spec fn prop_enc(props: Seq<crate::node::PropView>, name: Seq<char>) -> Option<Seq<u8>> {
    match crate::node::prop_value(props, name) {
        Some(val) => Some(crate::codec::enc_payload(val)),
        None => None,
    }
}

impl EntityItem {
    /// Add a node identifier to the bucket for (`prop`, `value`), creating
    /// the bucket when absent; an identifier already listed is not listed
    /// twice. Every other bucket is untouched.
    #[verifier::spinoff_prover]
    #[verifier::rlimit(100)]
    pub fn add_to_bucket(&mut self, prop: &str, value: Vec<u8>, id: NodeID)
        requires
            entity_wf(old(self)@),
        ensures
            final(self)@.name == old(self)@.name,
            final(self)@.declared == old(self)@.declared,
            entity_wf(final(self)@),
            forall|p: Seq<char>, v: Seq<u8>|
                #[trigger] index_ids(final(self)@, p, v) == if p == prop@ && v == value@ {
                    if index_ids(old(self)@, p, v).contains(id) {
                        index_ids(old(self)@, p, v)
                    } else {
                        index_ids(old(self)@, p, v).push(id)
                    }
                } else {
                    index_ids(old(self)@, p, v)
                },
    {
        let ghost oldv = self@;
        let n = self.indexes.len();
        let mut i: usize = 0;
        while i < n
            invariant
                n == self.indexes.len(),
                0 <= i <= n,
                self@ == oldv,
                oldv == old(self)@,
                entity_wf(oldv),
                forall|j: int|
                    0 <= j < i ==> !(#[trigger] oldv.indexes[j].prop == prop@
                        && oldv.indexes[j].value == value@),
            decreases n - i,
        {
            proof {
                assert(oldv.indexes[i as int] == self.indexes@[i as int]@);
            }
            let same_prop = crate::text::str_eq(self.indexes[i].prop.as_str(), prop);
            let same_value = crate::data::bytes_eq(&self.indexes[i].value, &value);
            if same_prop && same_value {
                proof {
                    lemma_entry_index_unique(oldv.indexes, prop@, value@, i as int);
                }
                let mut present = false;
                let m = self.indexes[i].ids.len();
                let mut k: usize = 0;
                while k < m
                    invariant
                        i < n == self.indexes.len(),
                        m == self.indexes@[i as int].ids.len(),
                        0 <= k <= m,
                        self@ == oldv,
                        present == oldv.indexes[i as int].ids.take(k as int).contains(id),
                    decreases m - k,
                {
                    proof {
                        let idsv = oldv.indexes[i as int].ids;
                        assert(idsv[k as int] == self.indexes@[i as int].ids@[k as int]);
                        assert(idsv.take(k + 1) =~= idsv.take(k as int).push(idsv[k as int]));
                        if !present && self.indexes@[i as int].ids@[k as int] == id {
                            assert(idsv.take(k + 1)[k as int] == id);
                        }
                    }
                    if self.indexes[i].ids[k] == id {
                        present = true;
                    }
                    k = k + 1;
                }
                proof {
                    let idsv = oldv.indexes[i as int].ids;
                    assert(idsv.take(m as int) =~= idsv);
                    assert(present == idsv.contains(id));
                }
                if present {
                    proof {
                        assert forall|p: Seq<char>, v: Seq<u8>|
                            #[trigger] index_ids(self@, p, v) == if p == prop@ && v == value@ {
                                if index_ids(oldv, p, v).contains(id) {
                                    index_ids(oldv, p, v)
                                } else {
                                    index_ids(oldv, p, v).push(id)
                                }
                            } else {
                                index_ids(oldv, p, v)
                            } by {}
                    }
                    return ;
                }
                let ghost prev = self@;
                let eprop = self.indexes[i].prop.clone();
                let evalue = self.indexes[i].value.clone();
                let mut ids = self.indexes[i].ids.clone();
                ids.push(id);
                self.indexes.set(i, IndexEntry { prop: eprop, value: evalue, ids });
                proof {
                    assert(self@.indexes =~= prev.indexes.update(
                        i as int,
                        self.indexes@[i as int]@,
                    ));
                    assert(self@.indexes[i as int].prop == prev.indexes[i as int].prop);
                    assert(self@.indexes[i as int].value == prev.indexes[i as int].value);
                    assert(self@.indexes[i as int].ids == prev.indexes[i as int].ids.push(id));
                    assert(entity_wf(self@));
                    assert forall|p: Seq<char>, v: Seq<u8>|
                        #[trigger] index_ids(self@, p, v) == if p == prop@ && v == value@ {
                            if index_ids(oldv, p, v).contains(id) {
                                index_ids(oldv, p, v)
                            } else {
                                index_ids(oldv, p, v).push(id)
                            }
                        } else {
                            index_ids(oldv, p, v)
                        } by {
                        if has_entry(oldv.indexes, p, v) {
                            let w = entry_index(oldv.indexes, p, v);
                            lemma_entry_index_unique(self@.indexes, p, v, w);
                        }
                        if has_entry(self@.indexes, p, v) {
                            let w2 = entry_index(self@.indexes, p, v);
                            lemma_entry_index_unique(oldv.indexes, p, v, w2);
                        }
                    }
                }
                return ;
            }
            i = i + 1;
        }
        let ghost prev = self@;
        proof {
            assert(forall|j: int|
                0 <= j < n ==> !(#[trigger] oldv.indexes[j].prop == prop@ && oldv.indexes[j].value
                    == value@));
            assert(!has_entry(oldv.indexes, prop@, value@));
        }
        let mut ids: Vec<NodeID> = Vec::new();
        ids.push(id);
        self.indexes.push(IndexEntry { prop: prop.to_owned(), value, ids });
        proof {
            assert(self@.indexes =~= prev.indexes.push(
                self.indexes@[self.indexes@.len() - 1]@,
            ));
            let last = self@.indexes.len() - 1;
            assert(self@.indexes[last].prop == prop@ && self@.indexes[last].value == value@);
            assert(self@.indexes[last].ids =~= Seq::<NodeID>::empty().push(id));
            assert(entity_wf(self@)) by {
                assert(forall|j: int|
                    0 <= j < last ==> #[trigger] self@.indexes[j] == prev.indexes[j]);
            }
            lemma_entry_index_unique(self@.indexes, prop@, value@, last);
            assert forall|p: Seq<char>, v: Seq<u8>|
                #[trigger] index_ids(self@, p, v) == if p == prop@ && v == value@ {
                    if index_ids(oldv, p, v).contains(id) {
                        index_ids(oldv, p, v)
                    } else {
                        index_ids(oldv, p, v).push(id)
                    }
                } else {
                    index_ids(oldv, p, v)
                } by {
                if p == prop@ && v == value@ {
                    assert(!has_entry(oldv.indexes, p, v));
                    assert(index_ids(oldv, p, v) =~= Seq::<NodeID>::empty());
                    assert(index_ids(self@, p, v) =~= Seq::<NodeID>::empty().push(id));
                } else {
                    if has_entry(oldv.indexes, p, v) {
                        let w = entry_index(oldv.indexes, p, v);
                        assert(self@.indexes[w] == prev.indexes[w]);
                        lemma_entry_index_unique(self@.indexes, p, v, w);
                    }
                    if has_entry(self@.indexes, p, v) {
                        let w2 = entry_index(self@.indexes, p, v);
                        assert(w2 != last);
                        lemma_entry_index_unique(oldv.indexes, p, v, w2);
                    }
                }
            }
        }
    }
}

impl EntityItem {
    /// Bring the index up to date with a node's current properties: the
    /// node's identifier is removed from every bucket and then listed, for
    /// each declared indexed property the node carries, under that
    /// property's current serialized value — appended, so a re-inserted
    /// node stands at the back of its buckets. Buckets of undeclared
    /// properties keep only their other identifiers; declared properties
    /// the node does not carry list the node nowhere.
    #[verifier::spinoff_prover]
    #[verifier::rlimit(100)]
    pub fn apply_node_index(&mut self, id: NodeID, props: &Vec<Prop>)
        requires
            entity_wf(old(self)@),
        ensures
            final(self)@.name == old(self)@.name,
            final(self)@.declared == old(self)@.declared,
            entity_wf(final(self)@),
            forall|p: Seq<char>, v: Seq<u8>|
                #[trigger] index_ids(final(self)@, p, v) == if is_declared(old(self)@, p)
                    && prop_enc(props@.map_values(|q: crate::node::Prop| q@), p) == Some(v) {
                    index_ids(old(self)@, p, v).filter(|x: NodeID| x != id).push(id)
                } else {
                    index_ids(old(self)@, p, v).filter(|x: NodeID| x != id)
                },
    {
        let ghost oldv = self@;
        let ghost propsv = props@.map_values(|q: crate::node::Prop| q@);
        self.remove_from_index(id);
        let ghost base = self@;
        let n = self.declared.len();
        let mut i: usize = 0;
        while i < n
            invariant
                n == self.declared.len(),
                0 <= i <= n,
                oldv == old(self)@,
                propsv == props@.map_values(|q: crate::node::Prop| q@),
                entity_wf(self@),
                self@.name == base.name,
                self@.declared == base.declared,
                base.name == oldv.name,
                base.declared == oldv.declared,
                entity_wf(base),
                forall|p: Seq<char>, v: Seq<u8>|
                    #[trigger] index_ids(base, p, v) == index_ids(oldv, p, v).filter(
                        |x: NodeID| x != id,
                    ),
                forall|p: Seq<char>, v: Seq<u8>|
                    #[trigger] index_ids(self@, p, v) == if (exists|k: int|
                        0 <= k < i && #[trigger] base.declared[k] == p && prop_enc(propsv, p)
                            == Some(v)) {
                        index_ids(base, p, v).push(id)
                    } else {
                        index_ids(base, p, v)
                    },
            decreases n - i,
        {
            let ghost prev = self@;
            let d = self.declared[i].clone();
            proof {
                assert(d@ == base.declared[i as int]);
            }
            match crate::node::find_prop(props, d.as_str()) {
                None => {
                    proof {
                        assert(self.declared@.len() == self@.declared.len());
                        assert(prop_enc(propsv, d@) is None);
                        assert forall|p: Seq<char>, v: Seq<u8>|
                            #[trigger] index_ids(self@, p, v) == if (exists|k: int|
                                0 <= k < i + 1 && #[trigger] base.declared[k] == p && prop_enc(
                                    propsv,
                                    p,
                                ) == Some(v)) {
                                index_ids(base, p, v).push(id)
                            } else {
                                index_ids(base, p, v)
                            } by {
                            if exists|k: int|
                                0 <= k < i + 1 && #[trigger] base.declared[k] == p && prop_enc(
                                    propsv,
                                    p,
                                ) == Some(v) {
                                let k = choose|k: int|
                                    0 <= k < i + 1 && #[trigger] base.declared[k] == p
                                        && prop_enc(propsv, p) == Some(v);
                                assert(k < i);
                            }
                        }
                    }
                },
                Some(val) => {
                    let mut venc: Vec<u8> = Vec::new();
                    crate::codec::write_payload(&mut venc, val);
                    proof {
                        assert(venc@ =~= crate::codec::enc_payload(val@));
                        assert(prop_enc(propsv, d@) == Some(venc@));
                    }
                    self.add_to_bucket(d.as_str(), venc, id);
                    proof {
                        assert(self.declared@.len() == self@.declared.len());
                        assert(self@.declared.len() == base.declared.len());
                        assert forall|p: Seq<char>, v: Seq<u8>|
                            #[trigger] index_ids(self@, p, v) == if (exists|k: int|
                                0 <= k < i + 1 && #[trigger] base.declared[k] == p && prop_enc(
                                    propsv,
                                    p,
                                ) == Some(v)) {
                                index_ids(base, p, v).push(id)
                            } else {
                                index_ids(base, p, v)
                            } by {
                            let inset_new = exists|k: int|
                                0 <= k < i + 1 && #[trigger] base.declared[k] == p && prop_enc(
                                    propsv,
                                    p,
                                ) == Some(v);
                            let inset_old = exists|k: int|
                                0 <= k < i && #[trigger] base.declared[k] == p && prop_enc(
                                    propsv,
                                    p,
                                ) == Some(v);
                            if p == d@ && v == venc@ {
                                assert(base.declared[i as int] == p && prop_enc(propsv, p)
                                    == Some(v));
                                assert(inset_new);
                                if inset_old {
                                    assert(index_ids(prev, p, v) == index_ids(base, p, v).push(
                                        id,
                                    ));
                                    assert(index_ids(prev, p, v).contains(id)) by {
                                        assert(index_ids(prev, p, v).last() == id);
                                    }
                                    assert(index_ids(self@, p, v) == index_ids(prev, p, v));
                                } else {
                                    assert(index_ids(prev, p, v) == index_ids(base, p, v));
                                    assert(!index_ids(prev, p, v).contains(id)) by {
                                        assert(index_ids(base, p, v) == index_ids(
                                            oldv,
                                            p,
                                            v,
                                        ).filter(|x: NodeID| x != id));
                                        if index_ids(base, p, v).contains(id) {
                                            broadcast use vstd::seq_lib::group_filter_ensures;

                                            let w = choose|w: int|
                                                0 <= w < index_ids(base, p, v).len()
                                                    && index_ids(base, p, v)[w] == id;
                                            index_ids(oldv, p, v).lemma_filter_pred(
                                                |x: NodeID| x != id,
                                                w,
                                            );
                                        }
                                    }
                                    assert(index_ids(self@, p, v) == index_ids(prev, p, v).push(
                                        id,
                                    ));
                                }
                            } else {
                                assert(index_ids(self@, p, v) == index_ids(prev, p, v));
                                if inset_new && !inset_old {
                                    let k = choose|k: int|
                                        0 <= k < i + 1 && #[trigger] base.declared[k] == p
                                            && prop_enc(propsv, p) == Some(v);
                                    assert(k == i);
                                    assert(p == d@ && prop_enc(propsv, d@) == Some(v));
                                    assert(v == venc@);
                                    assert(false);
                                }
                            }
                        }
                    }
                },
            }
            i = i + 1;
        }
        proof {
            assert forall|p: Seq<char>, v: Seq<u8>|
                #[trigger] index_ids(final(self)@, p, v) == if is_declared(old(self)@, p)
                    && prop_enc(propsv, p) == Some(v) {
                    index_ids(old(self)@, p, v).filter(|x: NodeID| x != id).push(id)
                } else {
                    index_ids(old(self)@, p, v).filter(|x: NodeID| x != id)
                } by {
                let inset = exists|k: int|
                    0 <= k < n && #[trigger] base.declared[k] == p && prop_enc(propsv, p) == Some(
                        v,
                    );
                if is_declared(old(self)@, p) && prop_enc(propsv, p) == Some(v) {
                    let k = choose|k: int|
                        0 <= k < old(self)@.declared.len() && #[trigger] old(self)@.declared[k]
                            == p;
                    assert(base.declared[k] == p);
                    assert(inset);
                }
                if inset {
                    let k = choose|k: int|
                        0 <= k < n && #[trigger] base.declared[k] == p && prop_enc(propsv, p)
                            == Some(v);
                    assert(old(self)@.declared[k] == p);
                    assert(is_declared(old(self)@, p));
                }
            }
        }
    }
}

/// When two entity records agree on bucket keys positionwise and the second
/// record's buckets hold the first's identifiers with `id` filtered out,
/// every lookup in the second is the first's lookup filtered.
pub proof fn lemma_pointwise_index(e1: EntityItemView, e2: EntityItemView, id: NodeID)
    requires
        entity_wf(e1),
        e2.indexes.len() == e1.indexes.len(),
        forall|j: int|
            0 <= j < e1.indexes.len() ==> #[trigger] e2.indexes[j].prop == e1.indexes[j].prop
                && e2.indexes[j].value == e1.indexes[j].value,
        forall|j: int|
            0 <= j < e1.indexes.len() ==> #[trigger] e2.indexes[j].ids == e1.indexes[j].ids.filter(
                |x: NodeID| x != id,
            ),
    ensures
        entity_wf(e2),
        forall|p: Seq<char>, v: Seq<u8>|
            #[trigger] index_ids(e2, p, v) == index_ids(e1, p, v).filter(|x: NodeID| x != id),
        forall|p: Seq<char>, v: Seq<u8>|
            #[trigger] has_entry(e2.indexes, p, v) == has_entry(e1.indexes, p, v),
{
    broadcast use vstd::seq_lib::group_filter_ensures;

    assert forall|p: Seq<char>, v: Seq<u8>|
        #[trigger] has_entry(e2.indexes, p, v) == has_entry(e1.indexes, p, v) by {
        if has_entry(e1.indexes, p, v) {
            let w = entry_index(e1.indexes, p, v);
            assert(e2.indexes[w].prop == p && e2.indexes[w].value == v);
        }
        if has_entry(e2.indexes, p, v) {
            let w = entry_index(e2.indexes, p, v);
            assert(e1.indexes[w].prop == p && e1.indexes[w].value == v);
        }
    }
    assert forall|p: Seq<char>, v: Seq<u8>|
        #[trigger] index_ids(e2, p, v) == index_ids(e1, p, v).filter(|x: NodeID| x != id) by {
        if has_entry(e1.indexes, p, v) {
            let w = entry_index(e1.indexes, p, v);
            lemma_entry_index_unique(e1.indexes, p, v, w);
            lemma_entry_index_unique(e2.indexes, p, v, w);
        } else {
            assert(Seq::<NodeID>::empty().filter(|x: NodeID| x != id) =~= Seq::<NodeID>::empty());
        }
    }
}

impl EntityItem {
    /// The identifiers indexed under (`prop`, serialized `value`), in
    /// insertion order; empty when no bucket exists.
    pub fn get_index_ids(&self, prop: &str, value: &Vec<u8>) -> (r: Vec<NodeID>)
        requires
            entity_wf(self@),
        ensures
            r@ == index_ids(self@, prop@, value@),
    {
        let n = self.indexes.len();
        let mut i: usize = 0;
        while i < n
            invariant
                n == self.indexes.len(),
                0 <= i <= n,
                entity_wf(self@),
                forall|j: int|
                    0 <= j < i ==> !(#[trigger] self@.indexes[j].prop == prop@
                        && self@.indexes[j].value == value@),
            decreases n - i,
        {
            proof {
                assert(self@.indexes[i as int] == self.indexes@[i as int]@);
            }
            let same_prop = crate::text::str_eq(self.indexes[i].prop.as_str(), prop);
            let same_value = crate::data::bytes_eq(&self.indexes[i].value, value);
            if same_prop && same_value {
                proof {
                    lemma_entry_index_unique(self@.indexes, prop@, value@, i as int);
                }
                return self.indexes[i].ids.clone();
            }
            i = i + 1;
        }
        proof {
            assert(!has_entry(self@.indexes, prop@, value@));
            assert(index_ids(self@, prop@, value@) =~= Seq::<NodeID>::empty());
        }
        let r: Vec<NodeID> = Vec::new();
        assert(r@ =~= Seq::<NodeID>::empty());
        r
    }
}

/// The concatenated encodings of an identifier list.
pub open spec fn enc_id_list(ids: Seq<NodeID>) -> Seq<u8>
    decreases ids.len(),
{
    if ids.len() == 0 {
        Seq::empty()
    } else {
        enc_u64(ids[0].0) + enc_id_list(ids.drop_first())
    }
}

/// Appending one identifier appends its encoding.
#[verifier::spinoff_prover]
#[verifier::rlimit(100)]
pub proof fn lemma_enc_id_list_snoc(ids: Seq<NodeID>, i: int)
    requires
        0 <= i < ids.len(),
    ensures
        enc_id_list(ids.take(i + 1)) == enc_id_list(ids.take(i)) + enc_u64(ids[i].0),
    decreases i,
{
    if i == 0 {
        assert(ids.take(1) =~= seq![ids[0]]);
        assert(ids.take(1).drop_first() =~= Seq::<NodeID>::empty());
        assert(ids.take(0) =~= Seq::<NodeID>::empty());
        assert(ids.take(1)[0] == ids[0]);
        assert(enc_id_list(ids.take(1)) == enc_u64(ids[0].0) + enc_id_list(
            Seq::<NodeID>::empty(),
        ));
        assert(enc_id_list(Seq::<NodeID>::empty()) == Seq::<u8>::empty());
        assert(enc_u64(ids[0].0) + Seq::<u8>::empty() =~= enc_u64(ids[0].0));
        assert(enc_id_list(ids.take(0)) + enc_u64(ids[0].0) =~= enc_u64(ids[0].0));
    } else {
        lemma_enc_id_list_snoc(ids.drop_first(), i - 1);
        assert(ids.take(i + 1).drop_first() =~= ids.drop_first().take(i));
        assert(ids.take(i).drop_first() =~= ids.drop_first().take(i - 1));
        assert(ids.take(i + 1)[0] == ids[0]);
        assert(ids.take(i)[0] == ids[0]);
        assert(ids.drop_first()[i - 1] == ids[i]);
        assert(enc_id_list(ids.take(i)) + enc_u64(ids[i].0) =~= enc_u64(ids[0].0) + (enc_id_list(
            ids.drop_first().take(i - 1),
        ) + enc_u64(ids.drop_first()[i - 1].0)));
    }
}

/// Decode `cnt` identifiers from the front of `b`.
pub open spec fn sd_id_list(b: Seq<u8>, cnt: nat) -> Option<(Seq<NodeID>, Seq<u8>)>
    decreases cnt,
{
    if cnt == 0 {
        Some((Seq::empty(), b))
    } else {
        match sd_u64(b) {
            Some((id, r1)) => match sd_id_list(r1, (cnt - 1) as nat) {
                Some((ids, r2)) => Some((seq![NodeID(id)] + ids, r2)),
                None => None,
            },
            None => None,
        }
    }
}

/// Decoding the encoding of an identifier list yields it back.
#[verifier::spinoff_prover]
#[verifier::rlimit(100)]
pub proof fn lemma_id_list_round_trip(ids: Seq<NodeID>, rest: Seq<u8>)
    ensures
        sd_id_list(enc_id_list(ids) + rest, ids.len()) == Some((ids, rest)),
    decreases ids.len(),
{
    if ids.len() == 0 {
        assert(enc_id_list(ids) + rest =~= rest);
        assert(ids =~= Seq::<NodeID>::empty());
    } else {
        let tail = ids.drop_first();
        lemma_id_list_round_trip(tail, rest);
        assert(enc_id_list(ids) + rest =~= enc_u64(ids[0].0) + (enc_id_list(tail) + rest));
        crate::codec::lemma_u64_round_trip(ids[0].0, enc_id_list(tail) + rest);
        assert(seq![NodeID(ids[0].0)] + tail =~= ids);
    }
}

/// Append the encoding of an identifier list (without a count) to a buffer.
pub fn write_id_list(out: &mut Vec<u8>, ids: &Vec<NodeID>)
    ensures
        final(out)@ == old(out)@ + enc_id_list(ids@),
{
    let n = ids.len();
    let mut i: usize = 0;
    proof {
        assert(ids@.take(0) =~= Seq::<NodeID>::empty());
        assert(out@ =~= old(out)@ + enc_id_list(ids@.take(0)));
    }
    while i < n
        invariant
            n == ids.len(),
            0 <= i <= n,
            out@ == old(out)@ + enc_id_list(ids@.take(i as int)),
        decreases n - i,
    {
        write_u64(out, ids[i].0);
        proof {
            lemma_enc_id_list_snoc(ids@, i as int);
        }
        i = i + 1;
    }
    proof {
        assert(ids@.take(n as int) =~= ids@);
    }
}

/// Read `cnt` identifiers from position `pos` of the buffer.
pub fn read_id_list(b: &Vec<u8>, pos: usize, cnt: u64) -> (r: Option<(Vec<NodeID>, usize)>)
    requires
        pos <= b@.len(),
    ensures
        match sd_id_list(b@.skip(pos as int), cnt as nat) {
            Some((ids, rest)) => {
                &&& r matches Some((v, np)) && v@ == ids && np <= b@.len()
                &&& rest == b@.skip(r.unwrap().1 as int)
            },
            None => r is None,
        },
    decreases cnt,
{
    if cnt == 0 {
        let v: Vec<NodeID> = Vec::new();
        assert(v@ =~= Seq::<NodeID>::empty());
        return Some((v, pos));
    }
    match read_u64(b, pos) {
        None => None,
        Some((id, p1)) => {
            match read_id_list(b, p1, cnt - 1) {
                None => None,
                Some((mut ids, p2)) => {
                    ids.insert(0, NodeID(id));
                    assert(ids@ =~= seq![NodeID(id)] + ids@.drop_first());
                    Some((ids, p2))
                },
            }
        },
    }
}

/// The encoding of one index bucket: property name, serialized value,
/// identifier count, identifiers.
#[verifier::opaque]
pub open spec fn enc_entry(e: IndexEntryView) -> Seq<u8> {
    enc_str(e.prop) + enc_bytes(e.value) + enc_u64(e.ids.len() as u64) + enc_id_list(e.ids)
}

/// Whether a bucket is small enough to encode.
pub open spec fn entry_fits(e: IndexEntryView) -> bool {
    &&& encode_utf8(e.prop).len() < 0x10000000000000000
    &&& e.value.len() < 0x10000000000000000
    &&& e.ids.len() < 0x10000000000000000
}

/// Decode one index bucket from the front of `b`.
#[verifier::opaque]
pub open spec fn sd_entry(b: Seq<u8>) -> Option<(IndexEntryView, Seq<u8>)> {
    match sd_str(b) {
        Some((prop, r1)) => match sd_bytes(r1) {
            Some((value, r2)) => match sd_u64(r2) {
                Some((cnt, r3)) => match sd_id_list(r3, cnt as nat) {
                    Some((ids, r4)) => Some((IndexEntryView { prop, value, ids }, r4)),
                    None => None,
                },
                None => None,
            },
            None => None,
        },
        None => None,
    }
}

/// Decoding the encoding of a bucket yields it back.
pub proof fn lemma_entry_round_trip(e: IndexEntryView, rest: Seq<u8>)
    requires
        entry_fits(e),
    ensures
        sd_entry(enc_entry(e) + rest) == Some((e, rest)),
{
    reveal(enc_entry);
    reveal(sd_entry);
    let t1 = enc_bytes(e.value) + (enc_u64(e.ids.len() as u64) + (enc_id_list(e.ids) + rest));
    assert(enc_entry(e) + rest =~= enc_str(e.prop) + t1);
    crate::codec::lemma_str_round_trip(e.prop, t1);
    let t2 = enc_u64(e.ids.len() as u64) + (enc_id_list(e.ids) + rest);
    crate::codec::lemma_bytes_round_trip(e.value, t2);
    let t3 = enc_id_list(e.ids) + rest;
    crate::codec::lemma_u64_round_trip(e.ids.len() as u64, t3);
    lemma_id_list_round_trip(e.ids, rest);
}

/// Append the encoding of one bucket to a buffer.
pub fn write_entry(out: &mut Vec<u8>, e: &IndexEntry)
    ensures
        final(out)@ == old(out)@ + enc_entry(e@),
        entry_fits(e@),
{
    proof {
        reveal(enc_entry);
    }
    write_str(out, e.prop.as_str());
    let vn = e.value.len();
    assert(e.value@.len() == vn);
    write_bytes(out, e.value.as_slice());
    write_u64(out, e.ids.len() as u64);
    write_id_list(out, &e.ids);
    assert(final(out)@ =~= old(out)@ + enc_entry(e@));
}

/// Read one bucket from position `pos` of the buffer.
pub fn read_entry(b: &Vec<u8>, pos: usize) -> (r: Option<(IndexEntry, usize)>)
    requires
        pos <= b@.len(),
    ensures
        match sd_entry(b@.skip(pos as int)) {
            Some((v, rest)) => {
                &&& r matches Some((e, np)) && e@ == v && np <= b@.len()
                &&& rest == b@.skip(r.unwrap().1 as int)
            },
            None => r is None,
        },
{
    proof {
        reveal(sd_entry);
    }
    match read_str(b, pos) {
        None => None,
        Some((prop, p1)) => {
            match read_bytes(b, p1) {
                None => None,
                Some((value, p2)) => {
                    match read_u64(b, p2) {
                        None => None,
                        Some((cnt, p3)) => {
                            match read_id_list(b, p3, cnt) {
                                None => None,
                                Some((ids, p4)) => Some((IndexEntry { prop, value, ids }, p4)),
                            }
                        },
                    }
                },
            }
        },
    }
}

/// The concatenated encodings of a bucket list.
pub open spec fn enc_entry_list(es: Seq<IndexEntryView>) -> Seq<u8>
    decreases es.len(),
{
    if es.len() == 0 {
        Seq::empty()
    } else {
        enc_entry(es[0]) + enc_entry_list(es.drop_first())
    }
}

/// Appending one bucket appends its encoding.
#[verifier::spinoff_prover]
#[verifier::rlimit(100)]
pub proof fn lemma_enc_entry_list_snoc(es: Seq<IndexEntryView>, i: int)
    requires
        0 <= i < es.len(),
    ensures
        enc_entry_list(es.take(i + 1)) == enc_entry_list(es.take(i)) + enc_entry(es[i]),
    decreases i,
{
    if i == 0 {
        assert(es.take(1) =~= seq![es[0]]);
        assert(es.take(1).drop_first() =~= Seq::<IndexEntryView>::empty());
        assert(es.take(0) =~= Seq::<IndexEntryView>::empty());
        assert(es.take(1)[0] == es[0]);
        assert(enc_entry_list(es.take(1)) == enc_entry(es[0]) + enc_entry_list(
            Seq::<IndexEntryView>::empty(),
        ));
        assert(enc_entry_list(Seq::<IndexEntryView>::empty()) == Seq::<u8>::empty());
        assert(enc_entry(es[0]) + Seq::<u8>::empty() =~= enc_entry(es[0]));
        assert(enc_entry_list(es.take(0)) + enc_entry(es[0]) =~= enc_entry(es[0]));
    } else {
        lemma_enc_entry_list_snoc(es.drop_first(), i - 1);
        assert(es.take(i + 1).drop_first() =~= es.drop_first().take(i));
        assert(es.take(i).drop_first() =~= es.drop_first().take(i - 1));
        assert(es.take(i + 1)[0] == es[0]);
        assert(es.take(i)[0] == es[0]);
        assert(es.drop_first()[i - 1] == es[i]);
        assert(enc_entry_list(es.take(i)) + enc_entry(es[i]) =~= enc_entry(es[0]) + (enc_entry_list(
            es.drop_first().take(i - 1),
        ) + enc_entry(es.drop_first()[i - 1])));
    }
}

/// Decode `cnt` buckets from the front of `b`.
pub open spec fn sd_entry_list(b: Seq<u8>, cnt: nat) -> Option<(Seq<IndexEntryView>, Seq<u8>)>
    decreases cnt,
{
    if cnt == 0 {
        Some((Seq::empty(), b))
    } else {
        match sd_entry(b) {
            Some((e, r1)) => match sd_entry_list(r1, (cnt - 1) as nat) {
                Some((es, r2)) => Some((seq![e] + es, r2)),
                None => None,
            },
            None => None,
        }
    }
}

/// Whether every bucket in the list is small enough to encode.
pub open spec fn entry_list_fits(es: Seq<IndexEntryView>) -> bool {
    forall|i: int| 0 <= i < es.len() ==> entry_fits(#[trigger] es[i])
}

/// Decoding the encoding of a bucket list yields it back.
#[verifier::spinoff_prover]
#[verifier::rlimit(100)]
pub proof fn lemma_entry_list_round_trip(es: Seq<IndexEntryView>, rest: Seq<u8>)
    requires
        entry_list_fits(es),
    ensures
        sd_entry_list(enc_entry_list(es) + rest, es.len()) == Some((es, rest)),
    decreases es.len(),
{
    if es.len() == 0 {
        assert(enc_entry_list(es) + rest =~= rest);
        assert(es =~= Seq::<IndexEntryView>::empty());
    } else {
        let tail = es.drop_first();
        assert(entry_list_fits(tail)) by {
            assert(forall|i: int| 0 <= i < tail.len() ==> tail[i] == es[i + 1]);
        }
        lemma_entry_list_round_trip(tail, rest);
        assert(enc_entry_list(es) + rest =~= enc_entry(es[0]) + (enc_entry_list(tail) + rest));
        lemma_entry_round_trip(es[0], enc_entry_list(tail) + rest);
        assert(seq![es[0]] + tail =~= es);
    }
}

/// Append the encoding of a bucket list (without a count) to a buffer.
pub fn write_entry_list(out: &mut Vec<u8>, es: &Vec<IndexEntry>)
    ensures
        final(out)@ == old(out)@ + enc_entry_list(es@.map_values(|e: IndexEntry| e@)),
        entry_list_fits(es@.map_values(|e: IndexEntry| e@)),
{
    let ghost esv = es@.map_values(|e: IndexEntry| e@);
    let n = es.len();
    let mut i: usize = 0;
    proof {
        assert(esv.take(0) =~= Seq::<IndexEntryView>::empty());
        assert(out@ =~= old(out)@ + enc_entry_list(esv.take(0)));
    }
    while i < n
        invariant
            n == es.len(),
            0 <= i <= n,
            esv == es@.map_values(|e: IndexEntry| e@),
            out@ == old(out)@ + enc_entry_list(esv.take(i as int)),
            entry_list_fits(esv.take(i as int)),
        decreases n - i,
    {
        write_entry(out, &es[i]);
        proof {
            lemma_enc_entry_list_snoc(esv, i as int);
            assert(esv[i as int] == es@[i as int]@);
            assert(esv.take(i + 1) =~= esv.take(i as int).push(esv[i as int]));
        }
        i = i + 1;
    }
    proof {
        assert(esv.take(n as int) =~= esv);
    }
}

/// Read `cnt` buckets from position `pos` of the buffer.
pub fn read_entry_list(b: &Vec<u8>, pos: usize, cnt: u64) -> (r: Option<(Vec<IndexEntry>, usize)>)
    requires
        pos <= b@.len(),
    ensures
        match sd_entry_list(b@.skip(pos as int), cnt as nat) {
            Some((es, rest)) => {
                &&& r matches Some((v, np)) && v@.map_values(|e: IndexEntry| e@) == es && np
                    <= b@.len()
                &&& rest == b@.skip(r.unwrap().1 as int)
            },
            None => r is None,
        },
    decreases cnt,
{
    if cnt == 0 {
        let v: Vec<IndexEntry> = Vec::new();
        assert(v@.map_values(|e: IndexEntry| e@) =~= Seq::<IndexEntryView>::empty());
        return Some((v, pos));
    }
    match read_entry(b, pos) {
        None => None,
        Some((e, p1)) => {
            match read_entry_list(b, p1, cnt - 1) {
                None => None,
                Some((mut es, p2)) => {
                    es.insert(0, e);
                    assert(es@.map_values(|q: IndexEntry| q@) =~= seq![
                        sd_entry(b@.skip(pos as int)).unwrap().0,
                    ] + es@.drop_first().map_values(|q: IndexEntry| q@));
                    Some((es, p2))
                },
            }
        },
    }
}

/// The concatenated encodings of a list of strings.
pub open spec fn enc_str_list(ss: Seq<Seq<char>>) -> Seq<u8>
    decreases ss.len(),
{
    if ss.len() == 0 {
        Seq::empty()
    } else {
        enc_str(ss[0]) + enc_str_list(ss.drop_first())
    }
}

/// Appending one string appends its encoding.
#[verifier::spinoff_prover]
#[verifier::rlimit(100)]
pub proof fn lemma_enc_str_list_snoc(ss: Seq<Seq<char>>, i: int)
    requires
        0 <= i < ss.len(),
    ensures
        enc_str_list(ss.take(i + 1)) == enc_str_list(ss.take(i)) + enc_str(ss[i]),
    decreases i,
{
    if i == 0 {
        assert(ss.take(1) =~= seq![ss[0]]);
        assert(ss.take(1).drop_first() =~= Seq::<Seq<char>>::empty());
        assert(ss.take(0) =~= Seq::<Seq<char>>::empty());
        assert(ss.take(1)[0] == ss[0]);
        assert(enc_str_list(ss.take(1)) == enc_str(ss[0]) + enc_str_list(
            Seq::<Seq<char>>::empty(),
        ));
        assert(enc_str_list(Seq::<Seq<char>>::empty()) == Seq::<u8>::empty());
        assert(enc_str(ss[0]) + Seq::<u8>::empty() =~= enc_str(ss[0]));
        assert(enc_str_list(ss.take(0)) + enc_str(ss[0]) =~= enc_str(ss[0]));
    } else {
        lemma_enc_str_list_snoc(ss.drop_first(), i - 1);
        assert(ss.take(i + 1).drop_first() =~= ss.drop_first().take(i));
        assert(ss.take(i).drop_first() =~= ss.drop_first().take(i - 1));
        assert(ss.take(i + 1)[0] == ss[0]);
        assert(ss.take(i)[0] == ss[0]);
        assert(ss.drop_first()[i - 1] == ss[i]);
        assert(enc_str_list(ss.take(i)) + enc_str(ss[i]) =~= enc_str(ss[0]) + (enc_str_list(
            ss.drop_first().take(i - 1),
        ) + enc_str(ss.drop_first()[i - 1])));
    }
}

/// Decode `cnt` strings from the front of `b`.
pub open spec fn sd_str_list(b: Seq<u8>, cnt: nat) -> Option<(Seq<Seq<char>>, Seq<u8>)>
    decreases cnt,
{
    if cnt == 0 {
        Some((Seq::empty(), b))
    } else {
        match sd_str(b) {
            Some((s, r1)) => match sd_str_list(r1, (cnt - 1) as nat) {
                Some((ss, r2)) => Some((seq![s] + ss, r2)),
                None => None,
            },
            None => None,
        }
    }
}

/// Whether every string in the list is small enough to encode.
pub open spec fn str_list_fits(ss: Seq<Seq<char>>) -> bool {
    forall|i: int| 0 <= i < ss.len() ==> encode_utf8(#[trigger] ss[i]).len() < 0x10000000000000000
}

/// Decoding the encoding of a string list yields it back.
#[verifier::spinoff_prover]
#[verifier::rlimit(100)]
pub proof fn lemma_str_list_round_trip(ss: Seq<Seq<char>>, rest: Seq<u8>)
    requires
        str_list_fits(ss),
    ensures
        sd_str_list(enc_str_list(ss) + rest, ss.len()) == Some((ss, rest)),
    decreases ss.len(),
{
    if ss.len() == 0 {
        assert(enc_str_list(ss) + rest =~= rest);
        assert(ss =~= Seq::<Seq<char>>::empty());
    } else {
        let tail = ss.drop_first();
        assert(str_list_fits(tail)) by {
            assert(forall|i: int| 0 <= i < tail.len() ==> tail[i] == ss[i + 1]);
        }
        lemma_str_list_round_trip(tail, rest);
        assert(enc_str_list(ss) + rest =~= enc_str(ss[0]) + (enc_str_list(tail) + rest));
        crate::codec::lemma_str_round_trip(ss[0], enc_str_list(tail) + rest);
        assert(seq![ss[0]] + tail =~= ss);
    }
}

/// Append the encoding of a string list (without a count) to a buffer.
pub fn write_str_list(out: &mut Vec<u8>, ss: &Vec<String>)
    ensures
        final(out)@ == old(out)@ + enc_str_list(ss@.map_values(|s: String| s@)),
        str_list_fits(ss@.map_values(|s: String| s@)),
{
    let ghost ssv = ss@.map_values(|s: String| s@);
    let n = ss.len();
    let mut i: usize = 0;
    proof {
        assert(ssv.take(0) =~= Seq::<Seq<char>>::empty());
        assert(out@ =~= old(out)@ + enc_str_list(ssv.take(0)));
    }
    while i < n
        invariant
            n == ss.len(),
            0 <= i <= n,
            ssv == ss@.map_values(|s: String| s@),
            out@ == old(out)@ + enc_str_list(ssv.take(i as int)),
            str_list_fits(ssv.take(i as int)),
        decreases n - i,
    {
        write_str(out, ss[i].as_str());
        proof {
            lemma_enc_str_list_snoc(ssv, i as int);
            assert(ssv[i as int] == ss@[i as int]@);
            assert(ssv.take(i + 1) =~= ssv.take(i as int).push(ssv[i as int]));
        }
        i = i + 1;
    }
    proof {
        assert(ssv.take(n as int) =~= ssv);
    }
}

/// Read `cnt` strings from position `pos` of the buffer.
pub fn read_str_list(b: &Vec<u8>, pos: usize, cnt: u64) -> (r: Option<(Vec<String>, usize)>)
    requires
        pos <= b@.len(),
    ensures
        match sd_str_list(b@.skip(pos as int), cnt as nat) {
            Some((ss, rest)) => {
                &&& r matches Some((v, np)) && v@.map_values(|s: String| s@) == ss && np
                    <= b@.len()
                &&& rest == b@.skip(r.unwrap().1 as int)
            },
            None => r is None,
        },
    decreases cnt,
{
    if cnt == 0 {
        let v: Vec<String> = Vec::new();
        assert(v@.map_values(|s: String| s@) =~= Seq::<Seq<char>>::empty());
        return Some((v, pos));
    }
    match read_str(b, pos) {
        None => None,
        Some((s, p1)) => {
            match read_str_list(b, p1, cnt - 1) {
                None => None,
                Some((mut ss, p2)) => {
                    ss.insert(0, s);
                    assert(ss@.map_values(|q: String| q@) =~= seq![
                        sd_str(b@.skip(pos as int)).unwrap().0,
                    ] + ss@.drop_first().map_values(|q: String| q@));
                    Some((ss, p2))
                },
            }
        },
    }
}

/// The encoding of an entity record: name, declared-property count and
/// names, bucket count and buckets.
pub open spec fn enc_entity(e: EntityItemView) -> Seq<u8> {
    enc_str(e.name) + enc_u64(e.declared.len() as u64) + enc_str_list(e.declared) + enc_u64(
        e.indexes.len() as u64,
    ) + enc_entry_list(e.indexes)
}

/// Whether an entity record is small enough to encode.
pub open spec fn entity_fits(e: EntityItemView) -> bool {
    &&& encode_utf8(e.name).len() < 0x10000000000000000
    &&& e.declared.len() < 0x10000000000000000
    &&& str_list_fits(e.declared)
    &&& e.indexes.len() < 0x10000000000000000
    &&& entry_list_fits(e.indexes)
}

/// Decode an entity record from the front of `b`.
pub open spec fn sd_entity(b: Seq<u8>) -> Option<(EntityItemView, Seq<u8>)> {
    match sd_str(b) {
        Some((name, r1)) => match sd_u64(r1) {
            Some((dcnt, r2)) => match sd_str_list(r2, dcnt as nat) {
                Some((declared, r3)) => match sd_u64(r3) {
                    Some((ecnt, r4)) => match sd_entry_list(r4, ecnt as nat) {
                        Some((indexes, r5)) => Some(
                            (EntityItemView { name, declared, indexes }, r5),
                        ),
                        None => None,
                    },
                    None => None,
                },
                None => None,
            },
            None => None,
        },
        None => None,
    }
}

/// Decoding the encoding of an entity record yields it back.
#[verifier::spinoff_prover]
#[verifier::rlimit(100)]
pub proof fn lemma_entity_round_trip(e: EntityItemView, rest: Seq<u8>)
    requires
        entity_fits(e),
    ensures
        sd_entity(enc_entity(e) + rest) == Some((e, rest)),
{
    let t1 = enc_u64(e.declared.len() as u64) + (enc_str_list(e.declared) + (enc_u64(
        e.indexes.len() as u64,
    ) + (enc_entry_list(e.indexes) + rest)));
    assert(enc_entity(e) + rest =~= enc_str(e.name) + t1);
    crate::codec::lemma_str_round_trip(e.name, t1);
    let t2 = enc_str_list(e.declared) + (enc_u64(e.indexes.len() as u64) + (enc_entry_list(
        e.indexes,
    ) + rest));
    crate::codec::lemma_u64_round_trip(e.declared.len() as u64, t2);
    let t3 = enc_u64(e.indexes.len() as u64) + (enc_entry_list(e.indexes) + rest);
    lemma_str_list_round_trip(e.declared, t3);
    let t4 = enc_entry_list(e.indexes) + rest;
    crate::codec::lemma_u64_round_trip(e.indexes.len() as u64, t4);
    lemma_entry_list_round_trip(e.indexes, rest);
}

/// Read an entity record from position `pos` of the buffer.
#[verifier::rlimit(100)]
pub fn read_entity(b: &Vec<u8>, pos: usize) -> (r: Option<(EntityItem, usize)>)
    requires
        pos <= b@.len(),
    ensures
        match sd_entity(b@.skip(pos as int)) {
            Some((v, rest)) => {
                &&& r matches Some((e, np)) && e@ == v && np <= b@.len()
                &&& rest == b@.skip(r.unwrap().1 as int)
            },
            None => r is None,
        },
{
    match read_str(b, pos) {
        None => None,
        Some((name, p1)) => {
            match read_u64(b, p1) {
                None => None,
                Some((dcnt, p2)) => {
                    match read_str_list(b, p2, dcnt) {
                        None => None,
                        Some((declared, p3)) => {
                            match read_u64(b, p3) {
                                None => None,
                                Some((ecnt, p4)) => {
                                    match read_entry_list(b, p4, ecnt) {
                                        None => None,
                                        Some((indexes, p5)) => Some(
                                            (EntityItem { name, declared, indexes }, p5),
                                        ),
                                    }
                                },
                            }
                        },
                    }
                },
            }
        },
    }
}

impl EntityItem {
    /// Serialize this record to its binary encoding. Every record
    /// serializes successfully.
    pub fn to_bytes(&self) -> (r: Result<Vec<u8>, EntityError>)
        ensures
            r matches Ok(b) && b@ == enc_entity(self@),
            entity_fits(self@),
    {
        let mut out: Vec<u8> = Vec::new();
        write_str(&mut out, self.name.as_str());
        write_u64(&mut out, self.declared.len() as u64);
        write_str_list(&mut out, &self.declared);
        write_u64(&mut out, self.indexes.len() as u64);
        write_entry_list(&mut out, &self.indexes);
        assert(out@ =~= enc_entity(self@));
        Ok(out)
    }

    /// Decode a record from its binary encoding; fails with a
    /// deserialization error exactly when the bytes are not one whole valid
    /// record encoding.
    pub fn from_bytes(bytes: &Vec<u8>) -> (r: Result<EntityItem, EntityError>)
        ensures
            match sd_entity(bytes@) {
                Some((v, rest)) => if rest.len() == 0 {
                    r matches Ok(e) && e@ == v
                } else {
                    r matches Err(e) && e@ == EntityErrorView::DeserializeError
                },
                None => r matches Err(e) && e@ == EntityErrorView::DeserializeError,
            },
    {
        proof {
            assert(bytes@.skip(0) =~= bytes@);
        }
        match read_entity(bytes, 0) {
            None => Err(EntityError::DeserializeError),
            Some((e, p)) => {
                if p == bytes.len() {
                    assert(bytes@.skip(p as int).len() == 0);
                    Ok(e)
                } else {
                    assert(bytes@.skip(p as int).len() != 0);
                    Err(EntityError::DeserializeError)
                }
            },
        }
    }
}

} // verus!
