//! Edge records and the in-memory builders around them.
//!
//! An [`EdgeItem`] is the persisted, storage-facing record of a directed,
//! labeled relation between two node identifiers, optionally carrying a
//! payload. Its durable key is `"<from>:<to>"`, recomputable from the
//! endpoints alone. [`Edge`] builds a strictly single-target relation;
//! [`EdgeList`] builds a one-to-many relation; [`EdgeRef`] is a non-owning
//! back-reference by identifier.

use crate::codec::enc_data;
use crate::codec::enc_str;
use crate::codec::enc_u64;
use crate::codec::data_fits;
use crate::codec::read_data;
use crate::codec::read_str;
use crate::codec::read_u64;
use crate::codec::sd_data;
use crate::codec::sd_str;
use crate::codec::sd_u64;
use crate::codec::write_data;
use crate::codec::write_str;
use crate::codec::write_u64;
use crate::data::Data;
use crate::data::DataView;
use crate::id::EdgeID;
use crate::id::NodeID;
use crate::node::Node;
use crate::text::dec_of;
use crate::text::u64_to_dec;
use vstd::prelude::*;
use vstd::string::StringExecFns;
use vstd::utf8::encode_utf8;

verus! {

/// Failure of an edge operation.
#[derive(Debug)]
pub enum EdgeError {
    /// The payload stored in an edge's data container is not of the
    /// requested kind.
    EdgeDataMismatch { data_type: String },
    /// An unlink was asked of a list holding no items at all.
    UnlinkFromEmptyList,
    /// An unlink named an endpoint pair that no item of the list links.
    UnlinkFromInexistentNodes(NodeID, NodeID),
    /// The record could not be serialized.
    SerializeError,
    /// The bytes do not hold a valid record encoding.
    DeserializeError,
}

/// The mathematical value of an [`EdgeError`].
pub enum EdgeErrorView {
    EdgeDataMismatch { data_type: Seq<char> },
    UnlinkFromEmptyList,
    UnlinkFromInexistentNodes(NodeID, NodeID),
    SerializeError,
    DeserializeError,
}

impl View for EdgeError {
    type V = EdgeErrorView;

    open spec fn view(&self) -> EdgeErrorView {
        match self {
            EdgeError::EdgeDataMismatch { data_type } => EdgeErrorView::EdgeDataMismatch {
                data_type: data_type@,
            },
            EdgeError::UnlinkFromEmptyList => EdgeErrorView::UnlinkFromEmptyList,
            EdgeError::UnlinkFromInexistentNodes(f, t) => EdgeErrorView::UnlinkFromInexistentNodes(
                *f,
                *t,
            ),
            EdgeError::SerializeError => EdgeErrorView::SerializeError,
            EdgeError::DeserializeError => EdgeErrorView::DeserializeError,
        }
    }
}

impl PartialEq for EdgeError {
    fn eq(&self, other: &EdgeError) -> (r: bool) {
        match (self, other) {
            (
                EdgeError::EdgeDataMismatch { data_type: a },
                EdgeError::EdgeDataMismatch { data_type: b },
            ) => *a == *b,
            (EdgeError::UnlinkFromEmptyList, EdgeError::UnlinkFromEmptyList) => true,
            (
                EdgeError::UnlinkFromInexistentNodes(f1, t1),
                EdgeError::UnlinkFromInexistentNodes(f2, t2),
            ) => f1 == f2 && t1 == t2,
            (EdgeError::SerializeError, EdgeError::SerializeError) => true,
            (EdgeError::DeserializeError, EdgeError::DeserializeError) => true,
            _ => false,
        }
    }
}

impl Eq for EdgeError {

}

impl vstd::std_specs::cmp::PartialEqSpecImpl for EdgeError {
    open spec fn obeys_eq_spec() -> bool {
        true
    }

    open spec fn eq_spec(&self, other: &EdgeError) -> bool {
        self@ == other@
    }
}

/// The persisted edge record: a directed, labeled arc between two node
/// identifiers, optionally carrying a payload.
#[derive(Debug)]
pub struct EdgeItem {
    pub label: String,
    pub from: NodeID,
    pub to: NodeID,
    pub data: Data,
}

/// The mathematical value of an [`EdgeItem`].
pub struct EdgeItemView {
    pub label: Seq<char>,
    pub from: NodeID,
    pub to: NodeID,
    pub data: DataView,
}

impl View for EdgeItem {
    type V = EdgeItemView;

    open spec fn view(&self) -> EdgeItemView {
        EdgeItemView { label: self.label@, from: self.from, to: self.to, data: self.data@ }
    }
}

impl Clone for EdgeItem {
    /// Cloning keeps the record.
    fn clone(&self) -> (r: EdgeItem)
        ensures
            r@ == self@,
    {
        EdgeItem {
            label: self.label.clone(),
            from: self.from,
            to: self.to,
            data: self.data.clone(),
        }
    }
}

impl PartialEq for EdgeItem {
    fn eq(&self, other: &EdgeItem) -> (r: bool) {
        self.label == other.label && self.from == other.from && self.to == other.to && self.data
            == other.data
    }
}

impl Eq for EdgeItem {

}

impl vstd::std_specs::cmp::PartialEqSpecImpl for EdgeItem {
    open spec fn obeys_eq_spec() -> bool {
        true
    }

    open spec fn eq_spec(&self, other: &EdgeItem) -> bool {
        self@ == other@
    }
}

impl Default for EdgeItem {
    /// A fresh record with the placeholder label, sentinel endpoints and no
    /// payload.
    fn default() -> (r: EdgeItem)
        ensures
            r@.label == "edge_item"@,
            r@.from == NodeID(0),
            r@.to == NodeID(0),
            r@.data == DataView::Empty,
    {
        EdgeItem {
            label: String::from_str("edge_item"),
            from: NodeID(0),
            to: NodeID(0),
            data: Data::Empty,
        }
    }
}

/// The durable key of an edge with the given endpoints: the decimal
/// renderings of the two identifiers joined by a colon.
pub open spec fn edge_key_view(from: NodeID, to: NodeID) -> Seq<char> {
    dec_of(from.0 as int) + seq![':'] + dec_of(to.0 as int)
}

/// Edge keys are injective: distinct ordered endpoint pairs never collide.
pub proof fn lemma_edge_key_injective(f1: NodeID, t1: NodeID, f2: NodeID, t2: NodeID)
    requires
        edge_key_view(f1, t1) == edge_key_view(f2, t2),
    ensures
        f1 == f2,
        t1 == t2,
{
    let a1 = dec_of(f1.0 as int);
    let b1 = dec_of(t1.0 as int);
    let a2 = dec_of(f2.0 as int);
    let b2 = dec_of(t2.0 as int);
    crate::text::lemma_dec_of_digits(f1.0 as int);
    crate::text::lemma_dec_of_digits(t1.0 as int);
    crate::text::lemma_dec_of_digits(f2.0 as int);
    crate::text::lemma_dec_of_digits(t2.0 as int);
    let s = edge_key_view(f1, t1);
    assert(s[a1.len() as int] == ':');
    assert(s[a2.len() as int] == ':');
    if a1.len() < a2.len() {
        assert(edge_key_view(f2, t2)[a1.len() as int] == a2[a1.len() as int]);
        assert(false);
    }
    if a2.len() < a1.len() {
        assert(edge_key_view(f1, t1)[a2.len() as int] == a1[a2.len() as int]);
        assert(false);
    }
    assert(a1.len() == a2.len());
    assert forall|i: int| 0 <= i < a1.len() implies a1[i] == a2[i] by {
        assert(s[i] == (a1 + seq![':'])[i]);
        assert(edge_key_view(f2, t2)[i] == (a2 + seq![':'])[i]);
    }
    assert(a1 =~= a2);
    assert(s.len() == a1.len() + 1 + b1.len() && s.len() == a2.len() + 1 + b2.len());
    assert forall|i: int| 0 <= i < b1.len() implies b1[i] == b2[i] by {
        assert(s[a1.len() + 1 + i] == b1[i]);
        assert(edge_key_view(f2, t2)[a2.len() + 1 + i] == b2[i]);
    }
    assert(b1 =~= b2);
    crate::text::lemma_dec_of_injective(f1.0 as int, f2.0 as int);
    crate::text::lemma_dec_of_injective(t1.0 as int, t2.0 as int);
}

impl EdgeItem {
    /// The durable key of an edge from `from` to `to`: `"<from>:<to>"`,
    /// deterministic for every identifier pair, including equal endpoints.
    pub fn format_key(from: NodeID, to: NodeID) -> (r: String)
        ensures
            r@ == edge_key_view(from, to),
    {
        proof {
            reveal_strlit(":");
        }
        let mut s = u64_to_dec(from.0);
        s.append(":");
        let t = u64_to_dec(to.0);
        s.append(t.as_str());
        assert(s@ =~= edge_key_view(from, to));
        s
    }

    /// This record's durable key.
    pub fn key(&self) -> (r: String)
        ensures
            r@ == edge_key_view(self.from, self.to),
    {
        EdgeItem::format_key(self.from, self.to)
    }
}

/// The encoding of an edge record: label, endpoints, payload container.
pub open spec fn enc_edge_item(e: EdgeItemView) -> Seq<u8> {
    enc_str(e.label) + enc_u64(e.from.0) + enc_u64(e.to.0) + enc_data(e.data)
}

/// Whether an edge record is small enough to encode.
pub open spec fn edge_item_fits(e: EdgeItemView) -> bool {
    encode_utf8(e.label).len() < 0x10000000000000000 && data_fits(e.data)
}

/// Decode an edge record from the front of `b`.
pub open spec fn sd_edge_item(b: Seq<u8>) -> Option<(EdgeItemView, Seq<u8>)> {
    match sd_str(b) {
        Some((label, r1)) => match sd_u64(r1) {
            Some((from, r2)) => match sd_u64(r2) {
                Some((to, r3)) => match sd_data(r3) {
                    Some((data, r4)) => Some(
                        (EdgeItemView { label, from: NodeID(from), to: NodeID(to), data }, r4),
                    ),
                    None => None,
                },
                None => None,
            },
            None => None,
        },
        None => None,
    }
}

/// Decoding the encoding of an edge record yields it back.
pub proof fn lemma_edge_item_round_trip(e: EdgeItemView, rest: Seq<u8>)
    requires
        edge_item_fits(e),
    ensures
        sd_edge_item(enc_edge_item(e) + rest) == Some((e, rest)),
{
    let t1 = enc_u64(e.from.0) + (enc_u64(e.to.0) + (enc_data(e.data) + rest));
    assert(enc_edge_item(e) + rest =~= enc_str(e.label) + t1);
    crate::codec::lemma_str_round_trip(e.label, t1);
    let t2 = enc_u64(e.to.0) + (enc_data(e.data) + rest);
    crate::codec::lemma_u64_round_trip(e.from.0, t2);
    let t3 = enc_data(e.data) + rest;
    crate::codec::lemma_u64_round_trip(e.to.0, t3);
    crate::codec::lemma_data_round_trip(e.data, rest);
}

/// Read an edge record from position `pos` of the buffer.
pub fn read_edge_item(b: &Vec<u8>, pos: usize) -> (r: Option<(EdgeItem, usize)>)
    requires
        pos <= b@.len(),
    ensures
        match sd_edge_item(b@.skip(pos as int)) {
            Some((v, rest)) => {
                &&& r matches Some((e, np)) && e@ == v && np <= b@.len()
                &&& rest == b@.skip(r.unwrap().1 as int)
            },
            None => r is None,
        },
{
    match read_str(b, pos) {
        None => None,
        Some((label, p1)) => {
            match read_u64(b, p1) {
                None => None,
                Some((from, p2)) => {
                    match read_u64(b, p2) {
                        None => None,
                        Some((to, p3)) => {
                            match read_data(b, p3) {
                                None => None,
                                Some((data, p4)) => Some(
                                    (
                                        EdgeItem {
                                            label,
                                            from: NodeID(from),
                                            to: NodeID(to),
                                            data,
                                        },
                                        p4,
                                    ),
                                ),
                            }
                        },
                    }
                },
            }
        },
    }
}

impl EdgeItem {
    /// Serialize this record to its binary encoding. Every record
    /// serializes successfully.
    pub fn to_bytes(&self) -> (r: Result<Vec<u8>, EdgeError>)
        ensures
            r matches Ok(b) && b@ == enc_edge_item(self@),
            edge_item_fits(self@),
    {
        let mut out: Vec<u8> = Vec::new();
        write_str(&mut out, self.label.as_str());
        write_u64(&mut out, self.from.0);
        write_u64(&mut out, self.to.0);
        write_data(&mut out, &self.data);
        assert(out@ =~= enc_edge_item(self@));
        Ok(out)
    }

    /// Decode a record from its binary encoding; fails with a
    /// deserialization error exactly when the bytes are not one whole valid
    /// record encoding.
    pub fn from_bytes(bytes: &Vec<u8>) -> (r: Result<EdgeItem, EdgeError>)
        ensures
            match sd_edge_item(bytes@) {
                Some((v, rest)) => if rest.len() == 0 {
                    r matches Ok(e) && e@ == v
                } else {
                    r matches Err(e) && e@ == EdgeErrorView::DeserializeError
                },
                None => r matches Err(e) && e@ == EdgeErrorView::DeserializeError,
            },
    {
        proof {
            assert(bytes@.skip(0) =~= bytes@);
        }
        match read_edge_item(bytes, 0) {
            None => Err(EdgeError::DeserializeError),
            Some((e, p)) => {
                if p == bytes.len() {
                    assert(bytes@.skip(p as int).len() == 0);
                    Ok(e)
                } else {
                    assert(bytes@.skip(p as int).len() != 0);
                    Err(EdgeError::DeserializeError)
                }
            },
        }
    }
}

/// What an edge builder exposes: its label, its identifier, construction
/// and linking. [`Edge`] and [`EdgeList`] implement it.
pub trait EdgeBuilder: Sized {
    /// The builder's identifier, as a mathematical value.
    spec fn spec_key(&self) -> EdgeID;

    /// A fresh builder carrying the given label.
    fn new(label: &str) -> Self;

    /// Record an association from `from` to `to` carrying `data`.
    fn link<F: Node, T: Node>(&mut self, from: &F, to: &T, data: Data);

    /// The builder's label.
    fn label(&self) -> String;

    /// The builder's identifier.
    fn key(&self) -> (r: EdgeID)
        ensures
            r == self.spec_key(),
    ;
}

/// An in-memory builder for a strictly single-target relation: it holds
/// zero or one [`EdgeItem`]. Linking overwrites the association.
#[derive(Debug, Clone, PartialEq, Eq)]
pub struct Edge {
    /// The builder's identifier; the sentinel until one is assigned.
    pub id: EdgeID,
    /// The label every linked item carries.
    pub label: String,
    /// The current association, if any.
    pub item: Option<EdgeItem>,
}

/// The mathematical value of an [`Edge`].
pub struct EdgeView {
    pub id: EdgeID,
    pub label: Seq<char>,
    pub item: Option<EdgeItemView>,
}

impl View for Edge {
    type V = EdgeView;

    open spec fn view(&self) -> EdgeView {
        EdgeView {
            id: self.id,
            label: self.label@,
            item: match self.item {
                Some(e) => Some(e@),
                None => None,
            },
        }
    }
}

impl Edge {
    /// A fresh single-target builder with the given label, no association
    /// and the sentinel identifier.
    pub fn new(label: &str) -> (r: Edge)
        ensures
            r@.label == label@,
            r@.item is None,
            r@.id == EdgeID(0),
    {
        Edge { id: EdgeID(0), label: label.to_owned(), item: None }
    }

    /// The same builder under the given identifier.
    pub fn with_id(self, id: EdgeID) -> (r: Edge)
        ensures
            r@.id == id,
            r@.label == self@.label,
            r@.item == self@.item,
    {
        Edge { id, label: self.label, item: self.item }
    }

    /// Set the association to one from `from` to `to` carrying `data`,
    /// under the builder's label. A previous association is overwritten.
    pub fn link_ids(&mut self, from: NodeID, to: NodeID, data: Data)
        ensures
            final(self)@.item == Some(
                (EdgeItemView { label: old(self)@.label, from, to, data: data@ }),
            ),
            final(self)@.id == old(self)@.id,
            final(self)@.label == old(self)@.label,
    {
        let item = EdgeItem { label: self.label.clone(), from, to, data };
        self.item = Some(item);
    }

    /// Set the association to one from `from` to `to` carrying `data`,
    /// under the builder's label.
    pub fn link<F: Node, T: Node>(&mut self, from: &F, to: &T, data: Data)
        ensures
            final(self)@.item matches Some(e) && e.label == old(self)@.label && e.data == data@,
            final(self)@.id == old(self)@.id,
            final(self)@.label == old(self)@.label,
    {
        let f = from.key();
        let t = to.key();
        self.link_ids(f, t, data);
    }

    /// The builder's label.
    pub fn label(&self) -> (r: String)
        ensures
            r@ == self@.label,
    {
        self.label.clone()
    }

    /// The builder's identifier.
    pub fn key(&self) -> (r: EdgeID)
        ensures
            r == self@.id,
    {
        self.id
    }

    /// Clear the association.
    pub fn unlink(&mut self)
        ensures
            final(self)@.item is None,
            final(self)@.id == old(self)@.id,
            final(self)@.label == old(self)@.label,
    {
        self.item = None;
    }
}

impl EdgeBuilder for Edge {
    open spec fn spec_key(&self) -> EdgeID {
        self.id
    }

    fn new(label: &str) -> Edge {
        Edge::new(label)
    }

    fn link<F: Node, T: Node>(&mut self, from: &F, to: &T, data: Data) {
        Edge::link(self, from, to, data);
    }

    fn label(&self) -> String {
        Edge::label(self)
    }

    fn key(&self) -> EdgeID {
        Edge::key(self)
    }
}

/// Whether some item of the list links `from` to `to`.
pub open spec fn has_pair(items: Seq<EdgeItemView>, from: NodeID, to: NodeID) -> bool {
    exists|i: int| 0 <= i < items.len() && items[i].from == from && #[trigger] items[i].to == to
}

/// Whether an item does not link `from` to `to`.
pub open spec fn keeps_pair(from: NodeID, to: NodeID) -> spec_fn(EdgeItemView) -> bool {
    |e: EdgeItemView| !(e.from == from && e.to == to)
}

/// The items of the list that do not link `from` to `to`, in order.
pub open spec fn remove_pair(items: Seq<EdgeItemView>, from: NodeID, to: NodeID) -> Seq<
    EdgeItemView,
> {
    items.filter(keeps_pair(from, to))
}

/// An in-memory builder for a one-to-many relation: it holds zero or more
/// [`EdgeItem`]s in insertion order. Linking appends an item.
#[derive(Debug, Clone, PartialEq, Eq)]
pub struct EdgeList {
    /// The builder's identifier; the sentinel until one is assigned.
    pub id: EdgeID,
    /// The label every linked item carries.
    pub label: String,
    /// The recorded associations, in insertion order.
    pub items: Vec<EdgeItem>,
}

/// The mathematical value of an [`EdgeList`].
pub struct EdgeListView {
    pub id: EdgeID,
    pub label: Seq<char>,
    pub items: Seq<EdgeItemView>,
}

impl View for EdgeList {
    type V = EdgeListView;

    open spec fn view(&self) -> EdgeListView {
        EdgeListView {
            id: self.id,
            label: self.label@,
            items: self.items@.map_values(|e: EdgeItem| e@),
        }
    }
}

impl EdgeList {
    /// A fresh one-to-many builder with the given label, no items and the
    /// sentinel identifier.
    pub fn new(label: &str) -> (r: EdgeList)
        ensures
            r@.label == label@,
            r@.items == Seq::<EdgeItemView>::empty(),
            r@.id == EdgeID(0),
    {
        let r = EdgeList { id: EdgeID(0), label: label.to_owned(), items: Vec::new() };
        assert(r@.items =~= Seq::<EdgeItemView>::empty());
        r
    }

    /// The same builder under the given identifier.
    pub fn with_id(self, id: EdgeID) -> (r: EdgeList)
        ensures
            r@.id == id,
            r@.label == self@.label,
            r@.items == self@.items,
    {
        EdgeList { id, label: self.label, items: self.items }
    }

    /// Append an association from `from` to `to` carrying `data`, under the
    /// builder's label.
    pub fn link_ids(&mut self, from: NodeID, to: NodeID, data: Data)
        ensures
            final(self)@.items == old(self)@.items.push(
                (EdgeItemView { label: old(self)@.label, from, to, data: data@ }),
            ),
            final(self)@.id == old(self)@.id,
            final(self)@.label == old(self)@.label,
    {
        let item = EdgeItem { label: self.label.clone(), from, to, data };
        self.items.push(item);
        assert(final(self)@.items =~= old(self)@.items.push(
            EdgeItemView { label: old(self)@.label, from, to, data: data@ },
        ));
    }

    /// Append an association from `from` to `to` carrying `data`, under the
    /// builder's label.
    pub fn link<F: Node, T: Node>(&mut self, from: &F, to: &T, data: Data)
        ensures
            final(self)@.items.len() == old(self)@.items.len() + 1,
            final(self)@.items.take(old(self)@.items.len() as int) == old(self)@.items,
            final(self)@.items.last().label == old(self)@.label,
            final(self)@.items.last().data == data@,
            final(self)@.id == old(self)@.id,
            final(self)@.label == old(self)@.label,
    {
        let f = from.key();
        let t = to.key();
        self.link_ids(f, t, data);
        assert(final(self)@.items.take(old(self)@.items.len() as int) =~= old(self)@.items);
    }

    /// The builder's label.
    pub fn label(&self) -> (r: String)
        ensures
            r@ == self@.label,
    {
        self.label.clone()
    }

    /// The builder's identifier.
    pub fn key(&self) -> (r: EdgeID)
        ensures
            r == self@.id,
    {
        self.id
    }

    /// Remove the items linking `from` to `to`, keeping every other item in
    /// order.
    ///
    /// On an empty list this fails with `UnlinkFromEmptyList`; when no item
    /// links exactly that ordered pair it fails with
    /// `UnlinkFromInexistentNodes` naming the pair; both leave the list
    /// unchanged.
    pub fn unlink_ids(&mut self, from: NodeID, to: NodeID) -> (r: Result<(), EdgeError>)
        ensures
            old(self)@.items.len() == 0 ==> (r matches Err(e) && e@
                == EdgeErrorView::UnlinkFromEmptyList),
            old(self)@.items.len() > 0 && !has_pair(old(self)@.items, from, to) ==> (r matches Err(
                e,
            ) && e@ == EdgeErrorView::UnlinkFromInexistentNodes(from, to)),
            r is Ok <==> old(self)@.items.len() > 0 && has_pair(old(self)@.items, from, to),
            r is Ok ==> final(self)@.items == remove_pair(old(self)@.items, from, to),
            r is Err ==> *final(self) == *old(self),
            final(self)@.id == old(self)@.id,
            final(self)@.label == old(self)@.label,
    {
        broadcast use vstd::seq_lib::group_filter_ensures;

        if self.items.len() == 0 {
            return Err(EdgeError::UnlinkFromEmptyList);
        }
        let ghost itemsv = self@.items;
        let ghost pred = keeps_pair(from, to);
        let n = self.items.len();
        let mut found = false;
        let mut kept: Vec<EdgeItem> = Vec::new();
        let mut i: usize = 0;
        proof {
            assert(itemsv.take(0) =~= Seq::<EdgeItemView>::empty());
            assert(itemsv.take(0).filter(pred) =~= Seq::<EdgeItemView>::empty());
        }
        while i < n
            invariant
                n == self.items.len(),
                0 <= i <= n,
                itemsv == self@.items,
                pred == keeps_pair(from, to),
                found == has_pair(itemsv.take(i as int), from, to),
                kept@.map_values(|e: EdgeItem| e@) == itemsv.take(i as int).filter(pred),
            decreases n - i,
        {
            let e = &self.items[i];
            proof {
                assert(itemsv[i as int] == self.items@[i as int]@);
                assert((*e)@ == itemsv[i as int]);
                assert(itemsv.take(i + 1) =~= itemsv.take(i as int).push(itemsv[i as int]));
                Seq::filter_distributes_over_add(
                    itemsv.take(i as int),
                    seq![itemsv[i as int]],
                    pred,
                );
                assert(itemsv.take(i as int) + seq![itemsv[i as int]] =~= itemsv.take(i + 1));
                reveal_with_fuel(Seq::filter, 2);
                assert(seq![itemsv[i as int]].drop_last() =~= Seq::<EdgeItemView>::empty());
                assert(seq![itemsv[i as int]].filter(pred) == if pred(itemsv[i as int]) {
                    seq![itemsv[i as int]]
                } else {
                    Seq::<EdgeItemView>::empty()
                });
            }
            if e.from == from && e.to == to {
                found = true;
                proof {
                    assert(itemsv[i as int].from == from);
                    assert(itemsv[i as int].to == to);
                    assert(!pred(itemsv[i as int]));
                    assert(itemsv.take(i + 1)[i as int] == itemsv[i as int]);
                    assert(itemsv.take(i + 1)[i as int].from == from);
                    assert(itemsv.take(i + 1)[i as int].to == to);
                    assert(has_pair(itemsv.take(i + 1), from, to));
                    assert(kept@.map_values(|q: EdgeItem| q@) =~= itemsv.take(i + 1).filter(pred));
                }
            } else {
                proof {
                    assert(!(itemsv[i as int].from == from && itemsv[i as int].to == to));
                    assert(pred(itemsv[i as int]));
                }
                kept.push(e.clone());
                proof {
                    assert(kept@.map_values(|q: EdgeItem| q@) =~= itemsv.take(i as int).filter(pred)
                        + seq![itemsv[i as int]]);
                    assert(kept@.map_values(|q: EdgeItem| q@) =~= itemsv.take(i + 1).filter(pred));
                    assert(has_pair(itemsv.take(i + 1), from, to) == has_pair(
                        itemsv.take(i as int),
                        from,
                        to,
                    )) by {
                        assert(forall|k: int|
                            0 <= k < i ==> itemsv.take(i + 1)[k] == #[trigger] itemsv.take(
                                i as int,
                            )[k]);
                        assert(itemsv.take(i + 1)[i as int] == itemsv[i as int]);
                        if has_pair(itemsv.take(i + 1), from, to) {
                            let w = choose|k: int|
                                0 <= k < itemsv.take(i + 1).len() && itemsv.take(i + 1)[k].from
                                    == from && #[trigger] itemsv.take(i + 1)[k].to == to;
                            assert(w < i);
                            assert(itemsv.take(i as int)[w].from == from && itemsv.take(
                                i as int,
                            )[w].to == to);
                        }
                    }
                }
            }
            i = i + 1;
        }
        proof {
            assert(itemsv.take(n as int) =~= itemsv);
        }
        if !found {
            return Err(EdgeError::UnlinkFromInexistentNodes(from, to));
        }
        self.items = kept;
        Ok(())
    }

    /// Remove the items linking `from.key()` to `to.key()`; see
    /// [`EdgeList::unlink_ids`] for the failure conditions.
    pub fn unlink<F: Node, T: Node>(&mut self, from: &F, to: &T) -> (r: Result<(), EdgeError>)
        ensures
            old(self)@.items.len() == 0 ==> (r matches Err(e) && e@
                == EdgeErrorView::UnlinkFromEmptyList),
            r is Ok ==> exists|f: NodeID, t: NodeID|
                has_pair(old(self)@.items, f, t) && final(self)@.items == remove_pair(
                    old(self)@.items,
                    f,
                    t,
                ),
            r is Err ==> *final(self) == *old(self),
            final(self)@.id == old(self)@.id,
            final(self)@.label == old(self)@.label,
    {
        let f = from.key();
        let t = to.key();
        self.unlink_ids(f, t)
    }
}

impl EdgeBuilder for EdgeList {
    open spec fn spec_key(&self) -> EdgeID {
        self.id
    }

    fn new(label: &str) -> EdgeList {
        EdgeList::new(label)
    }

    fn link<F: Node, T: Node>(&mut self, from: &F, to: &T, data: Data) {
        EdgeList::link(self, from, to, data);
    }

    fn label(&self) -> String {
        EdgeList::label(self)
    }

    fn key(&self) -> EdgeID {
        EdgeList::key(self)
    }
}

/// A non-owning back-reference to an edge container: a lookup key by
/// identifier, never an ownership relation.
#[derive(Debug, Clone, Copy, PartialEq, Eq, Structural)]
pub struct EdgeRef {
    pub id: EdgeID,
}

impl EdgeRef {
    /// A back-reference to the given builder: it records exactly the
    /// builder's identifier, never an ownership relation.
    pub fn new<T: EdgeBuilder>(edge: &T) -> (r: EdgeRef)
        ensures
            r.id == edge.spec_key(),
    {
        EdgeRef { id: edge.key() }
    }
}

} // verus!
