//! Node records: graph vertices with a stable identifier, an entity name
//! and a set of named properties, together with their binary encoding.

use crate::codec::enc_str;
use crate::codec::enc_u64;
use crate::codec::enc_payload;
use crate::codec::payload_fits;
use crate::codec::read_payload;
use crate::codec::read_str;
use crate::codec::read_u64;
use crate::codec::sd_payload;
use crate::codec::sd_str;
use crate::codec::sd_u64;
use crate::codec::write_payload;
use crate::codec::write_str;
use crate::codec::write_u64;
use crate::data::Payload;
use crate::data::PayloadView;
use crate::id::NodeID;
use vstd::prelude::*;
use vstd::utf8::encode_utf8;

verus! {

/// Failure of encoding or decoding a node record.
#[derive(Debug, Clone, Copy, PartialEq, Eq, Structural)]
pub enum NodeError {
    /// The record could not be serialized.
    SerializeError,
    /// The bytes do not hold a valid record encoding.
    DeserializeError,
}

/// What a node record exposes to the graph layer: a stable key and the
/// name of the entity (kind) it belongs to. User-defined record types
/// implement this; the graph's own [`NodeRecord`] does too.
pub trait Node {
    /// The record's stable identifier.
    fn key(&self) -> NodeID;

    /// The namespaced name of the entity this record belongs to.
    fn entity(&self) -> String;
}

/// One named property of a node record.
#[derive(Debug)]
pub struct Prop {
    pub name: String,
    pub value: Payload,
}

/// The mathematical value of a [`Prop`].
pub struct PropView {
    pub name: Seq<char>,
    pub value: PayloadView,
}

impl View for Prop {
    type V = PropView;

    open spec fn view(&self) -> PropView {
        PropView { name: self.name@, value: self.value@ }
    }
}

/// A concrete node record: the closed record shape the verified storage and
/// query layers work on. User-defined record types convert to and from it.
#[derive(Debug)]
pub struct NodeRecord {
    /// The record's stable identifier.
    pub id: NodeID,
    /// The namespaced name of the entity this record belongs to.
    pub entity_name: String,
    /// The record's named properties, in insertion order.
    pub props: Vec<Prop>,
}

/// The mathematical value of a [`NodeRecord`].
pub struct NodeRecordView {
    pub id: NodeID,
    pub entity_name: Seq<char>,
    pub props: Seq<PropView>,
}

impl View for NodeRecord {
    type V = NodeRecordView;

    open spec fn view(&self) -> NodeRecordView {
        NodeRecordView {
            id: self.id,
            entity_name: self.entity_name@,
            props: self.props@.map_values(|p: Prop| p@),
        }
    }
}

impl Clone for Prop {
    /// Cloning keeps the property.
    fn clone(&self) -> (r: Prop)
        ensures
            r@ == self@,
    {
        Prop { name: self.name.clone(), value: self.value.clone() }
    }
}

impl Clone for NodeRecord {
    /// Cloning keeps the record.
    fn clone(&self) -> (r: NodeRecord)
        ensures
            r@ == self@,
    {
        let mut props: Vec<Prop> = Vec::new();
        let n = self.props.len();
        let mut i: usize = 0;
        while i < n
            invariant
                n == self.props.len(),
                0 <= i <= n,
                props@.len() == i,
                forall|k: int| 0 <= k < i ==> props@[k]@ == #[trigger] self.props@[k]@,
            decreases n - i,
        {
            props.push(self.props[i].clone());
            i = i + 1;
        }
        proof {
            assert(props@.map_values(|p: Prop| p@) =~= self.props@.map_values(|p: Prop| p@));
        }
        NodeRecord { id: self.id, entity_name: self.entity_name.clone(), props }
    }
}

impl Node for NodeRecord {
    fn key(&self) -> NodeID {
        self.id
    }

    fn entity(&self) -> String {
        self.entity_name.clone()
    }
}

/// The value of the named property among `props`, by first match.
pub open spec fn prop_value(props: Seq<PropView>, name: Seq<char>) -> Option<PayloadView>
    decreases props.len(),
{
    if props.len() == 0 {
        None
    } else if props[0].name == name {
        Some(props[0].value)
    } else {
        prop_value(props.drop_first(), name)
    }
}

/// The value of the named property among the given properties, if present.
pub fn find_prop<'a>(props: &'a Vec<Prop>, name: &str) -> (r: Option<&'a Payload>)
    ensures
        match prop_value(props@.map_values(|p: Prop| p@), name@) {
            Some(v) => r matches Some(p) && p@ == v,
            None => r is None,
        },
{
    let ghost psv = props@.map_values(|p: Prop| p@);
    let n = props.len();
    let mut i: usize = 0;
    proof {
        assert(psv.skip(0) =~= psv);
    }
    while i < n
        invariant
            n == props.len(),
            0 <= i <= n,
            psv == props@.map_values(|p: Prop| p@),
            prop_value(psv, name@) == prop_value(psv.skip(i as int), name@),
        decreases n - i,
    {
        proof {
            assert(psv.skip(i as int).drop_first() =~= psv.skip(i + 1));
            assert(psv.skip(i as int)[0] == psv[i as int]);
            assert(psv[i as int] == props@[i as int]@);
        }
        if crate::text::str_eq(props[i].name.as_str(), name) {
            return Some(&props[i].value);
        }
        i = i + 1;
    }
    assert(psv.skip(n as int) =~= Seq::<PropView>::empty());
    None
}

impl NodeRecord {
    /// The value of the record's named property, if present.
    pub fn get_prop(&self, name: &str) -> (r: Option<&Payload>)
        ensures
            match prop_value(self@.props, name@) {
                Some(v) => r matches Some(p) && p@ == v,
                None => r is None,
            },
    {
        find_prop(&self.props, name)
    }
}

/// The encoding of one property: its name, then its value.
#[verifier::opaque]
pub open spec fn enc_prop(p: PropView) -> Seq<u8> {
    enc_str(p.name) + enc_payload(p.value)
}

/// The concatenated encodings of a property list.
pub open spec fn enc_prop_list(ps: Seq<PropView>) -> Seq<u8>
    decreases ps.len(),
{
    if ps.len() == 0 {
        Seq::empty()
    } else {
        enc_prop(ps[0]) + enc_prop_list(ps.drop_first())
    }
}

/// Appending one property to a list appends its encoding.
#[verifier::spinoff_prover]
#[verifier::rlimit(100)]
pub proof fn lemma_enc_prop_list_snoc(ps: Seq<PropView>, i: int)
    requires
        0 <= i < ps.len(),
    ensures
        enc_prop_list(ps.take(i + 1)) == enc_prop_list(ps.take(i)) + enc_prop(ps[i]),
    decreases i,
{
    if i == 0 {
        assert(ps.take(1) =~= seq![ps[0]]);
        assert(ps.take(1).drop_first() =~= Seq::<PropView>::empty());
        assert(ps.take(0) =~= Seq::<PropView>::empty());
        assert(ps.take(1)[0] == ps[0]);
        assert(enc_prop_list(ps.take(1)) == enc_prop(ps[0]) + enc_prop_list(
            Seq::<PropView>::empty(),
        ));
        assert(enc_prop_list(Seq::<PropView>::empty()) == Seq::<u8>::empty());
        assert(enc_prop(ps[0]) + Seq::<u8>::empty() =~= enc_prop(ps[0]));
        assert(enc_prop_list(ps.take(0)) + enc_prop(ps[0]) =~= enc_prop(ps[0]));
    } else {
        lemma_enc_prop_list_snoc(ps.drop_first(), i - 1);
        assert(ps.take(i + 1).drop_first() =~= ps.drop_first().take(i));
        assert(ps.take(i).drop_first() =~= ps.drop_first().take(i - 1));
        assert(ps.take(i + 1)[0] == ps[0]);
        assert(ps.take(i)[0] == ps[0]);
        assert(ps.drop_first()[i - 1] == ps[i]);
        assert(enc_prop_list(ps.take(i + 1)) == enc_prop(ps[0]) + enc_prop_list(
            ps.drop_first().take(i),
        ));
        assert(enc_prop_list(ps.take(i)) + enc_prop(ps[i]) =~= enc_prop(ps[0]) + (enc_prop_list(
            ps.drop_first().take(i - 1),
        ) + enc_prop(ps.drop_first()[i - 1])));
    }
}

/// Decode `cnt` properties from the front of `b`.
pub open spec fn sd_prop_list(b: Seq<u8>, cnt: nat) -> Option<(Seq<PropView>, Seq<u8>)>
    decreases cnt,
{
    if cnt == 0 {
        Some((Seq::empty(), b))
    } else {
        match sd_str(b) {
            Some((name, r1)) => match sd_payload(r1) {
                Some((value, r2)) => match sd_prop_list(r2, (cnt - 1) as nat) {
                    Some((ps, r3)) => Some(
                        (seq![PropView { name, value }] + ps, r3),
                    ),
                    None => None,
                },
                None => None,
            },
            None => None,
        }
    }
}

/// Whether every property in the list is small enough to encode.
pub open spec fn prop_list_fits(ps: Seq<PropView>) -> bool {
    forall|i: int|
        0 <= i < ps.len() ==> encode_utf8(#[trigger] ps[i].name).len() < 0x10000000000000000
            && payload_fits(ps[i].value)
}

/// Decoding the encoding of a property list yields it back.
#[verifier::rlimit(50)]
pub proof fn lemma_prop_list_round_trip(ps: Seq<PropView>, rest: Seq<u8>)
    requires
        prop_list_fits(ps),
    ensures
        sd_prop_list(enc_prop_list(ps) + rest, ps.len()) == Some((ps, rest)),
    decreases ps.len(),
{
    reveal(enc_prop);
    if ps.len() == 0 {
        assert(enc_prop_list(ps) + rest =~= rest);
        assert(sd_prop_list(rest, 0) == Some((Seq::<PropView>::empty(), rest)));
        assert(ps =~= Seq::<PropView>::empty());
    } else {
        let p = ps[0];
        let tail = ps.drop_first();
        assert(prop_list_fits(tail)) by {
            assert(forall|i: int| 0 <= i < tail.len() ==> tail[i] == ps[i + 1]);
        }
        lemma_prop_list_round_trip(tail, rest);
        let body = enc_payload(p.value) + (enc_prop_list(tail) + rest);
        assert(enc_prop_list(ps) + rest =~= enc_str(p.name) + body);
        crate::codec::lemma_str_round_trip(p.name, body);
        let body2 = enc_prop_list(tail) + rest;
        crate::codec::lemma_payload_round_trip(p.value, body2);
        assert(seq![PropView { name: p.name, value: p.value }] + tail =~= ps);
    }
}

/// Append the encoding of a property list (without a count) to a buffer.
pub fn write_prop_list(out: &mut Vec<u8>, ps: &Vec<Prop>)
    ensures
        final(out)@ == old(out)@ + enc_prop_list(ps@.map_values(|p: Prop| p@)),
        prop_list_fits(ps@.map_values(|p: Prop| p@)),
{
    let ghost psv = ps@.map_values(|p: Prop| p@);
    let n = ps.len();
    let mut i: usize = 0;
    proof {
        assert(psv.take(0) =~= Seq::<PropView>::empty());
    }
    while i < n
        invariant
            n == ps.len(),
            0 <= i <= n,
            psv == ps@.map_values(|p: Prop| p@),
            out@ == old(out)@ + enc_prop_list(psv.take(i as int)),
            prop_list_fits(psv.take(i as int)),
        decreases n - i,
    {
        let p = &ps[i];
        write_str(out, p.name.as_str());
        write_payload(out, &p.value);
        proof {
            reveal(enc_prop);
            lemma_enc_prop_list_snoc(psv, i as int);
            assert(psv[i as int] == ps@[i as int]@);
            assert(forall|k: int|
                0 <= k < i + 1 ==> #[trigger] psv.take(i + 1)[k] == psv.take(i as int).push(
                    psv[i as int],
                )[k]);
            assert(psv.take(i + 1) =~= psv.take(i as int).push(psv[i as int]));
        }
        i = i + 1;
    }
    proof {
        assert(psv.take(n as int) =~= psv);
    }
}

/// Read `cnt` properties from position `pos` of the buffer.
#[verifier::spinoff_prover]
#[verifier::rlimit(100)]
pub fn read_prop_list(b: &Vec<u8>, pos: usize, cnt: u64) -> (r: Option<(Vec<Prop>, usize)>)
    requires
        pos <= b@.len(),
    ensures
        match sd_prop_list(b@.skip(pos as int), cnt as nat) {
            Some((ps, rest)) => {
                &&& r matches Some((v, np)) && v@.map_values(|p: Prop| p@) == ps && np
                    <= b@.len()
                &&& rest == b@.skip(r.unwrap().1 as int)
            },
            None => r is None,
        },
    decreases cnt,
{
    if cnt == 0 {
        return Some((Vec::new(), pos));
    }
    match read_str(b, pos) {
        None => None,
        Some((name, p1)) => {
            match read_payload(b, p1) {
                None => None,
                Some((value, p2)) => {
                    match read_prop_list(b, p2, cnt - 1) {
                        None => None,
                        Some((mut ps, p3)) => {
                            ps.insert(0, Prop { name, value });
                            assert(ps@.map_values(|p: Prop| p@) =~= seq![
                                PropView {
                                    name: sd_str(b@.skip(pos as int)).unwrap().0,
                                    value: sd_payload(b@.skip(p1 as int)).unwrap().0,
                                },
                            ] + ps@.drop_first().map_values(|p: Prop| p@));
                            Some((ps, p3))
                        },
                    }
                },
            }
        },
    }
}

/// The encoding of a node record: identifier, entity name, property count,
/// properties.
pub open spec fn enc_node(n: NodeRecordView) -> Seq<u8> {
    enc_u64(n.id.0) + enc_str(n.entity_name) + enc_u64(n.props.len() as u64) + enc_prop_list(
        n.props,
    )
}

/// Whether a node record is small enough to encode.
pub open spec fn node_fits(n: NodeRecordView) -> bool {
    &&& encode_utf8(n.entity_name).len() < 0x10000000000000000
    &&& n.props.len() < 0x10000000000000000
    &&& prop_list_fits(n.props)
}

/// Decode a node record from the front of `b`.
pub open spec fn sd_node(b: Seq<u8>) -> Option<(NodeRecordView, Seq<u8>)> {
    match sd_u64(b) {
        Some((id, r1)) => match sd_str(r1) {
            Some((entity_name, r2)) => match sd_u64(r2) {
                Some((cnt, r3)) => match sd_prop_list(r3, cnt as nat) {
                    Some((props, r4)) => Some(
                        (NodeRecordView { id: NodeID(id), entity_name, props }, r4),
                    ),
                    None => None,
                },
                None => None,
            },
            None => None,
        },
        None => None,
    }
}

/// Decoding the encoding of a node record yields it back.
pub proof fn lemma_node_round_trip(n: NodeRecordView, rest: Seq<u8>)
    requires
        node_fits(n),
    ensures
        sd_node(enc_node(n) + rest) == Some((n, rest)),
{
    let t1 = enc_str(n.entity_name) + (enc_u64(n.props.len() as u64) + (enc_prop_list(n.props)
        + rest));
    assert(enc_node(n) + rest =~= enc_u64(n.id.0) + t1);
    crate::codec::lemma_u64_round_trip(n.id.0, t1);
    let t2 = enc_u64(n.props.len() as u64) + (enc_prop_list(n.props) + rest);
    crate::codec::lemma_str_round_trip(n.entity_name, t2);
    let t3 = enc_prop_list(n.props) + rest;
    crate::codec::lemma_u64_round_trip(n.props.len() as u64, t3);
    lemma_prop_list_round_trip(n.props, rest);
}

impl NodeRecord {
    /// Serialize this record to its binary encoding. Every record
    /// serializes successfully.
    pub fn to_bytes(&self) -> (r: Result<Vec<u8>, NodeError>)
        ensures
            r matches Ok(b) && b@ == enc_node(self@),
            node_fits(self@),
    {
        let mut out: Vec<u8> = Vec::new();
        write_u64(&mut out, self.id.0);
        write_str(&mut out, self.entity_name.as_str());
        write_u64(&mut out, self.props.len() as u64);
        write_prop_list(&mut out, &self.props);
        assert(out@ =~= enc_node(self@));
        Ok(out)
    }

    /// Decode a record from its binary encoding; fails with a
    /// deserialization error exactly when the bytes are not one whole valid
    /// record encoding.
    pub fn from_bytes(bytes: &Vec<u8>) -> (r: Result<NodeRecord, NodeError>)
        ensures
            match sd_node(bytes@) {
                Some((v, rest)) => if rest.len() == 0 {
                    r matches Ok(n) && n@ == v
                } else {
                    r == Err::<NodeRecord, NodeError>(NodeError::DeserializeError)
                },
                None => r == Err::<NodeRecord, NodeError>(NodeError::DeserializeError),
            },
    {
        proof {
            assert(bytes@.skip(0) =~= bytes@);
        }
        match read_node(bytes, 0) {
            None => Err(NodeError::DeserializeError),
            Some((n, p)) => {
                if p == bytes.len() {
                    assert(bytes@.skip(p as int).len() == 0);
                    Ok(n)
                } else {
                    assert(bytes@.skip(p as int).len() != 0);
                    Err(NodeError::DeserializeError)
                }
            },
        }
    }
}

/// Read a node record from position `pos` of the buffer.
#[verifier::rlimit(100)]
pub fn read_node(b: &Vec<u8>, pos: usize) -> (r: Option<(NodeRecord, usize)>)
    requires
        pos <= b@.len(),
    ensures
        match sd_node(b@.skip(pos as int)) {
            Some((v, rest)) => {
                &&& r matches Some((n, np)) && n@ == v && np <= b@.len()
                &&& rest == b@.skip(r.unwrap().1 as int)
            },
            None => r is None,
        },
{
    match read_u64(b, pos) {
        None => None,
        Some((id, p1)) => {
            match read_str(b, p1) {
                None => None,
                Some((entity_name, p2)) => {
                    match read_u64(b, p2) {
                        None => None,
                        Some((cnt, p3)) => {
                            match read_prop_list(b, p3, cnt) {
                                None => None,
                                Some((props, p4)) => {
                                    Some((NodeRecord { id: NodeID(id), entity_name, props }, p4))
                                },
                            }
                        },
                    }
                },
            }
        },
    }
}

} // verus!
