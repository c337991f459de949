//! The tagged value container attached to an edge record.
//!
//! A [`Data`] value is either empty or holds one [`Payload`]: a value of a
//! closed, registered set of payload types, each with its own discriminant
//! ([`PayloadKind`]). Two payloads are equal exactly when they have the same
//! kind and the same value; recovering a typed value of the wrong kind fails
//! with a [`TypeMismatch`] naming the requested and the actual kind. The
//! closed set is what makes a payload serializable: its discriminant is
//! stored alongside its bytes.

use vstd::prelude::*;

verus! {

/// The discriminant of a payload type, also usable as a runtime type
/// descriptor in a [`TypeMismatch`].
#[derive(Debug, Clone, Copy, PartialEq, Eq, Structural)]
pub enum PayloadKind {
    /// An unsigned 64-bit integer.
    Uint,
    /// A signed 64-bit integer.
    Int,
    /// A boolean.
    Flag,
    /// A text string.
    Text,
    /// An opaque byte string.
    Bytes,
    /// No payload at all: the kind reported for an empty container.
    Absent,
}

/// A value of one of the registered payload types.
#[derive(Debug)]
pub enum Payload {
    Uint(u64),
    Int(i64),
    Flag(bool),
    Text(String),
    Bytes(Vec<u8>),
}

/// The mathematical value of a [`Payload`].
pub enum PayloadView {
    Uint(u64),
    Int(i64),
    Flag(bool),
    Text(Seq<char>),
    Bytes(Seq<u8>),
}

impl View for Payload {
    type V = PayloadView;

    open spec fn view(&self) -> PayloadView {
        match self {
            Payload::Uint(v) => PayloadView::Uint(*v),
            Payload::Int(v) => PayloadView::Int(*v),
            Payload::Flag(v) => PayloadView::Flag(*v),
            Payload::Text(v) => PayloadView::Text(v@),
            Payload::Bytes(v) => PayloadView::Bytes(v@),
        }
    }
}

/// The kind of a payload value.
pub open spec fn kind_of(p: PayloadView) -> PayloadKind {
    match p {
        PayloadView::Uint(_) => PayloadKind::Uint,
        PayloadView::Int(_) => PayloadKind::Int,
        PayloadView::Flag(_) => PayloadKind::Flag,
        PayloadView::Text(_) => PayloadKind::Text,
        PayloadView::Bytes(_) => PayloadKind::Bytes,
    }
}

/// Compare two byte vectors by contents.
pub fn bytes_eq(a: &Vec<u8>, b: &Vec<u8>) -> (r: bool)
    ensures
        r == (a@ == b@),
{
    if a.len() != b.len() {
        assert(a@ != b@) by {
            assert(a@.len() != b@.len());
        }
        return false;
    }
    let n = a.len();
    let mut i: usize = 0;
    while i < n
        invariant
            n == a.len() == b.len(),
            0 <= i <= n,
            forall|k: int| 0 <= k < i ==> a@[k] == b@[k],
        decreases n - i,
    {
        if a[i] != b[i] {
            return false;
        }
        i = i + 1;
    }
    assert(a@ =~= b@);
    true
}

impl Payload {
    /// The discriminant of this payload.
    pub fn kind(&self) -> (r: PayloadKind)
        ensures
            r == kind_of(self@),
    {
        match self {
            Payload::Uint(_) => PayloadKind::Uint,
            Payload::Int(_) => PayloadKind::Int,
            Payload::Flag(_) => PayloadKind::Flag,
            Payload::Text(_) => PayloadKind::Text,
            Payload::Bytes(_) => PayloadKind::Bytes,
        }
    }
}

impl Clone for Payload {
    /// Cloning keeps the value.
    fn clone(&self) -> (r: Payload)
        ensures
            r@ == self@,
    {
        match self {
            Payload::Uint(v) => Payload::Uint(*v),
            Payload::Int(v) => Payload::Int(*v),
            Payload::Flag(v) => Payload::Flag(*v),
            Payload::Text(v) => Payload::Text(v.clone()),
            Payload::Bytes(v) => Payload::Bytes(v.clone()),
        }
    }
}

impl PartialEq for Payload {
    /// Payloads are equal exactly when they have the same kind and the same
    /// value; values of different kinds are never equal, also when they
    /// would be numerically equal.
    fn eq(&self, other: &Payload) -> (r: bool) {
        match (self, other) {
            (Payload::Uint(a), Payload::Uint(b)) => a == b,
            (Payload::Int(a), Payload::Int(b)) => a == b,
            (Payload::Flag(a), Payload::Flag(b)) => a == b,
            (Payload::Text(a), Payload::Text(b)) => *a == *b,
            (Payload::Bytes(a), Payload::Bytes(b)) => bytes_eq(a, b),
            _ => false,
        }
    }
}

impl Eq for Payload {

}

impl vstd::std_specs::cmp::PartialEqSpecImpl for Payload {
    open spec fn obeys_eq_spec() -> bool {
        true
    }

    open spec fn eq_spec(&self, other: &Payload) -> bool {
        self@ == other@
    }
}

/// Failure to recover a typed value from a [`Data`] container: the
/// requested and the actually stored payload kinds, distinguishable at the
/// type level.
#[derive(Debug, Clone, Copy, PartialEq, Eq, Structural)]
pub struct TypeMismatch {
    pub expected: PayloadKind,
    pub found: PayloadKind,
}

/// The payload container attached to an edge record: either empty or
/// holding one registered payload value, owned by the edge record that
/// holds it.
#[derive(Debug)]
pub enum Data {
    /// A present payload.
    Value(Payload),
    /// No payload.
    Empty,
}

/// The mathematical value of a [`Data`] container.
pub enum DataView {
    Value(PayloadView),
    Empty,
}

impl View for Data {
    type V = DataView;

    open spec fn view(&self) -> DataView {
        match self {
            Data::Value(p) => DataView::Value(p@),
            Data::Empty => DataView::Empty,
        }
    }
}

/// The kind stored in a container: the payload's kind, or
/// [`PayloadKind::Absent`] for an empty container.
pub open spec fn data_kind_of(d: DataView) -> PayloadKind {
    match d {
        DataView::Value(p) => kind_of(p),
        DataView::Empty => PayloadKind::Absent,
    }
}

impl Data {
    /// Wrap a payload value in a container.
    pub fn new(value: Payload) -> (r: Data)
        ensures
            r@ == DataView::Value(value@),
    {
        Data::Value(value)
    }

    /// The kind stored in this container.
    pub fn kind(&self) -> (r: PayloadKind)
        ensures
            r == data_kind_of(self@),
    {
        match self {
            Data::Value(p) => p.kind(),
            Data::Empty => PayloadKind::Absent,
        }
    }

    /// Recover the stored payload, requesting a given kind.
    ///
    /// Fails with a [`TypeMismatch`] carrying the requested and the actual
    /// kind when the stored payload is of another kind, or when the
    /// container is empty.
    pub fn get(&self, kind: PayloadKind) -> (r: Result<&Payload, TypeMismatch>)
        ensures
            match self {
                Data::Value(p) => {
                    if kind_of(p@) == kind {
                        r matches Ok(q) && q@ == p@
                    } else {
                        r == Err::<&Payload, TypeMismatch>(
                            (TypeMismatch { expected: kind, found: kind_of(p@) }),
                        )
                    }
                },
                Data::Empty => r == Err::<&Payload, TypeMismatch>(
                    (TypeMismatch { expected: kind, found: PayloadKind::Absent }),
                ),
            },
    {
        match self {
            Data::Value(p) => {
                let found = p.kind();
                if found == kind {
                    Ok(p)
                } else {
                    Err(TypeMismatch { expected: kind, found })
                }
            },
            Data::Empty => Err(TypeMismatch { expected: kind, found: PayloadKind::Absent }),
        }
    }
}

impl Clone for Data {
    /// Cloning keeps the value.
    fn clone(&self) -> (r: Data)
        ensures
            r@ == self@,
    {
        match self {
            Data::Value(p) => Data::Value(p.clone()),
            Data::Empty => Data::Empty,
        }
    }
}

impl Data {
    /// Replace the stored payload with one of the same kind: the
    /// kind-checked mutating accessor.
    ///
    /// Succeeds exactly when the container holds a payload of the new
    /// value's kind; otherwise it fails with a [`TypeMismatch`] carrying
    /// the new value's kind and the actual one (or
    /// [`PayloadKind::Absent`] for an empty container) and the container
    /// is unchanged.
    pub fn set(&mut self, value: Payload) -> (r: Result<(), TypeMismatch>)
        ensures
            match old(self)@ {
                DataView::Value(p) => {
                    if kind_of(p) == kind_of(value@) {
                        r is Ok && final(self)@ == DataView::Value(value@)
                    } else {
                        r == Err::<(), TypeMismatch>(
                            (TypeMismatch { expected: kind_of(value@), found: kind_of(p) }),
                        ) && final(self)@ == old(self)@
                    }
                },
                DataView::Empty => r == Err::<(), TypeMismatch>(
                    (TypeMismatch { expected: kind_of(value@), found: PayloadKind::Absent }),
                ) && final(self)@ == old(self)@,
            },
    {
        let expected = value.kind();
        let found = self.kind();
        if found == expected {
            *self = Data::Value(value);
            Ok(())
        } else {
            Err(TypeMismatch { expected, found })
        }
    }
}

impl PartialEq for Data {
    /// Containers are equal exactly when both are empty, or both hold
    /// payloads of the same kind and the same value.
    fn eq(&self, other: &Data) -> (r: bool) {
        match (self, other) {
            (Data::Value(a), Data::Value(b)) => a == b,
            (Data::Empty, Data::Empty) => true,
            _ => false,
        }
    }
}

impl Eq for Data {

}

impl vstd::std_specs::cmp::PartialEqSpecImpl for Data {
    open spec fn obeys_eq_spec() -> bool {
        true
    }

    open spec fn eq_spec(&self, other: &Data) -> bool {
        self@ == other@
    }
}

impl Default for Data {
    /// The default container is empty.
    fn default() -> (r: Data)
        ensures
            r@ == DataView::Empty,
    {
        Data::Empty
    }
}

} // verus!
