//! Snowflake-style 64-bit identifiers and the generator service that mints
//! them.
//!
//! An identifier packs a millisecond timestamp, a generator-instance number
//! and a per-millisecond sequence number into one `u64`, so that identifiers
//! minted by a single generator instance are strictly increasing in
//! generation order. The value `0` is reserved as the "none/unset" sentinel
//! and is never generated.

use vstd::prelude::*;

verus! {

/// Number of distinct sequence values within one millisecond tick.
pub const SEQ_RANGE: u64 = 4096;

/// Number of distinct generator-instance values.
pub const INSTANCE_RANGE: u64 = 1024;

/// Weight of the instance field: an identifier is
/// `timestamp * TS_WEIGHT + instance * INSTANCE_WEIGHT + sequence`.
pub const INSTANCE_WEIGHT: u64 = 4096;

/// Weight of the timestamp field.
pub const TS_WEIGHT: u64 = 4194304;

/// Exclusive upper bound on the timestamp field (41 bits of milliseconds).
pub const TS_RANGE: u64 = 2199023255552;

/// How a timestamp, an instance number and a sequence number combine into
/// one identifier.
pub open spec fn id_compose(ts: int, instance: int, seq: int) -> int {
    ts * (TS_WEIGHT as int) + instance * (INSTANCE_WEIGHT as int) + seq
}

/// The timestamp field of an identifier.
pub open spec fn id_timestamp(id: int) -> int {
    id / (TS_WEIGHT as int)
}

/// The instance field of an identifier.
pub open spec fn id_instance(id: int) -> int {
    (id / (INSTANCE_WEIGHT as int)) % (INSTANCE_RANGE as int)
}

/// The sequence field of an identifier.
pub open spec fn id_sequence(id: int) -> int {
    id % (INSTANCE_WEIGHT as int)
}

/// Composing in-range fields and reading them back yields the same fields.
pub proof fn lemma_id_fields(ts: int, instance: int, seq: int)
    requires
        0 <= ts < TS_RANGE,
        0 <= instance < INSTANCE_RANGE,
        0 <= seq < SEQ_RANGE,
    ensures
        id_timestamp(id_compose(ts, instance, seq)) == ts,
        id_instance(id_compose(ts, instance, seq)) == instance,
        id_sequence(id_compose(ts, instance, seq)) == seq,
        0 <= id_compose(ts, instance, seq) < 0x8000000000000000,
{
    let id = id_compose(ts, instance, seq);
    assert(id == ts * 4194304 + instance * 4096 + seq);
    assert(id / 4194304 == ts && (id / 4096) % 1024 == instance && id % 4096 == seq)
        by (nonlinear_arith)
        requires
            id == ts * 4194304 + instance * 4096 + seq,
            0 <= ts < 2199023255552,
            0 <= instance < 1024,
            0 <= seq < 4096,
    ;
    assert(id < 0x8000000000000000) by (nonlinear_arith)
        requires
            id == ts * 4194304 + instance * 4096 + seq,
            0 <= ts < 2199023255552,
            0 <= instance < 1024,
            0 <= seq < 4096,
    ;
}

/// A graph-vertex identifier. `NodeID(0)` is the "none/unset" sentinel.
#[derive(Debug, Clone, Copy, PartialEq, Eq, Hash, Structural)]
pub struct NodeID(pub u64);

impl NodeID {
    /// The reserved sentinel, distinct from every generated identifier.
    pub fn none() -> (r: NodeID)
        ensures
            r.0 == 0,
    {
        NodeID(0)
    }
}

impl From<u64> for NodeID {
    fn from(id: u64) -> (r: NodeID) {
        NodeID(id)
    }
}

impl vstd::std_specs::convert::FromSpecImpl<u64> for NodeID {
    open spec fn obeys_from_spec() -> bool {
        true
    }

    open spec fn from_spec(id: u64) -> NodeID {
        NodeID(id)
    }
}

/// An edge-container identifier. `EdgeID(0)` is the "none/unset" sentinel.
#[derive(Debug, Clone, Copy, PartialEq, Eq, Hash, Structural)]
pub struct EdgeID(pub u64);

impl EdgeID {
    /// The reserved sentinel, distinct from every generated identifier.
    pub fn none() -> (r: EdgeID)
        ensures
            r.0 == 0,
    {
        EdgeID(0)
    }
}

impl From<u64> for EdgeID {
    fn from(id: u64) -> (r: EdgeID) {
        EdgeID(id)
    }
}

impl vstd::std_specs::convert::FromSpecImpl<u64> for EdgeID {
    open spec fn obeys_from_spec() -> bool {
        true
    }

    open spec fn from_spec(id: u64) -> EdgeID {
        EdgeID(id)
    }
}

/// Failure of identifier generation.
#[derive(Debug, Clone, Copy, PartialEq, Eq, Structural)]
pub enum IdError {
    /// The clock did not advance past the current tick and the sequence
    /// space of that tick is exhausted; generating now would reuse an
    /// identifier, which is forbidden.
    ClockRegression,
}

/// The identifier-generation service. One instance per process (or one per
/// `instance` number); each call to [`IdGenerator::generate`] takes the
/// current wall-clock millisecond tick and mints an identifier strictly
/// greater than every identifier the same instance minted before.
#[derive(Debug, Clone, PartialEq, Eq, Structural)]
pub struct IdGenerator {
    /// Which generator instance this is; part of every minted identifier.
    pub instance: u64,
    /// Timestamp field of the most recently minted identifier.
    pub last_ts: u64,
    /// Sequence field of the most recently minted identifier.
    pub last_seq: u64,
}

impl IdGenerator {
    /// The generator's fields stay inside their bit ranges.
    pub open spec fn wf(&self) -> bool {
        &&& self.instance < INSTANCE_RANGE
        &&& self.last_ts < TS_RANGE
        &&& self.last_seq < SEQ_RANGE
    }

    /// The identifier most recently minted (or, for a fresh generator, a
    /// value every minted identifier exceeds).
    pub open spec fn last_id(&self) -> int {
        id_compose(self.last_ts as int, self.instance as int, self.last_seq as int)
    }

    pub open spec fn spec_instance(&self) -> u64 {
        self.instance
    }

    /// Whether a generation step at tick `now` succeeds: it fails exactly
    /// when the clock has not advanced past the last tick and that tick's
    /// sequence space is exhausted.
    pub open spec fn step_ok(&self, now: u64) -> bool {
        now > self.last_ts || self.last_seq + 1 < SEQ_RANGE
    }

    /// The generator state after a successful generation step at tick `now`.
    pub open spec fn step_state(&self, now: u64) -> IdGenerator {
        if now > self.last_ts {
            IdGenerator { instance: self.instance, last_ts: now, last_seq: 0 }
        } else {
            IdGenerator {
                instance: self.instance,
                last_ts: self.last_ts,
                last_seq: (self.last_seq + 1) as u64,
            }
        }
    }

    /// A fresh generator for the given instance number.
    pub fn new(instance: u64) -> (r: IdGenerator)
        requires
            instance < INSTANCE_RANGE,
        ensures
            r.wf(),
            r.spec_instance() == instance,
            r == (IdGenerator { instance, last_ts: 0u64, last_seq: 0u64 }),
    {
        IdGenerator { instance, last_ts: 0, last_seq: 0 }
    }

    /// Mint an identifier at wall-clock millisecond tick `now_ms`.
    ///
    /// The result is strictly greater than every identifier minted before by
    /// this instance — also when the clock stands still or regresses, in
    /// which case the sequence field advances within the last seen tick. It
    /// is never the sentinel `0`. When the clock has not advanced and the
    /// tick's sequence space is exhausted, the call fails with
    /// [`IdError::ClockRegression`] and the generator is unchanged; silently
    /// reusing an identifier is forbidden.
    pub fn generate(&mut self, now_ms: u64) -> (r: Result<u64, IdError>)
        requires
            old(self).wf(),
            now_ms < TS_RANGE,
        ensures
            final(self).wf(),
            final(self).spec_instance() == old(self).spec_instance(),
            r is Ok <==> old(self).step_ok(now_ms),
            r matches Ok(id) ==> {
                &&& *final(self) == old(self).step_state(now_ms)
                &&& id == final(self).last_id()
                &&& id > old(self).last_id()
                &&& id != 0
            },
            r is Err ==> *final(self) == *old(self) && r == Err::<u64, IdError>(
                IdError::ClockRegression,
            ),
    {
        proof {
            lemma_id_fields(
                old(self).last_ts as int,
                old(self).instance as int,
                old(self).last_seq as int,
            );
        }
        if now_ms > self.last_ts {
            self.last_ts = now_ms;
            self.last_seq = 0;
        } else if self.last_seq + 1 < SEQ_RANGE {
            self.last_seq = self.last_seq + 1;
        } else {
            return Err(IdError::ClockRegression);
        }
        proof {
            lemma_id_fields(self.last_ts as int, self.instance as int, self.last_seq as int);
        }
        let id: u64 = self.last_ts * TS_WEIGHT + self.instance * INSTANCE_WEIGHT + self.last_seq;
        Ok(id)
    }

    /// Mint an identifier and wrap it as a [`NodeID`].
    pub fn generate_node_id(&mut self, now_ms: u64) -> (r: Result<NodeID, IdError>)
        requires
            old(self).wf(),
            now_ms < TS_RANGE,
        ensures
            final(self).wf(),
            final(self).spec_instance() == old(self).spec_instance(),
            r is Ok <==> old(self).step_ok(now_ms),
            r matches Ok(id) ==> {
                &&& *final(self) == old(self).step_state(now_ms)
                &&& id.0 == final(self).last_id()
                &&& id.0 > old(self).last_id()
                &&& id.0 != 0
            },
            r is Err ==> *final(self) == *old(self),
    {
        match self.generate(now_ms) {
            Ok(id) => Ok(NodeID(id)),
            Err(e) => Err(e),
        }
    }

    /// Mint an identifier and wrap it as an [`EdgeID`].
    pub fn generate_edge_id(&mut self, now_ms: u64) -> (r: Result<EdgeID, IdError>)
        requires
            old(self).wf(),
            now_ms < TS_RANGE,
        ensures
            final(self).wf(),
            final(self).spec_instance() == old(self).spec_instance(),
            r is Ok <==> old(self).step_ok(now_ms),
            r matches Ok(id) ==> {
                &&& *final(self) == old(self).step_state(now_ms)
                &&& id.0 == final(self).last_id()
                &&& id.0 > old(self).last_id()
                &&& id.0 != 0
            },
            r is Err ==> *final(self) == *old(self),
    {
        match self.generate(now_ms) {
            Ok(id) => Ok(EdgeID(id)),
            Err(e) => Err(e),
        }
    }
}

/// Every identifier splits back into the fields it was composed from.
pub proof fn lemma_id_recompose(id: int)
    requires
        0 <= id,
    ensures
        id_compose(id_timestamp(id), id_instance(id), id_sequence(id)) == id % (TS_WEIGHT as int)
            + id_timestamp(id) * (TS_WEIGHT as int),
        id == id_timestamp(id) * (TS_WEIGHT as int) + id % (TS_WEIGHT as int),
        id_compose(id_timestamp(id), id_instance(id), id_sequence(id)) == id,
{
    assert((id / 4194304) * 4194304 + ((id / 4096) % 1024) * 4096 + id % 4096 == id)
        by (nonlinear_arith)
        requires
            0 <= id,
    ;
}

/// A successful generation step strictly increases the minted identifier
/// and keeps the generator well formed.
pub proof fn lemma_step_increases(g: IdGenerator, now: u64)
    requires
        g.wf(),
        g.step_ok(now),
        now < TS_RANGE,
    ensures
        g.step_state(now).wf(),
        g.step_state(now).instance == g.instance,
        g.step_state(now).last_id() > g.last_id(),
        g.step_state(now).last_id() > 0,
{
    lemma_id_fields(g.last_ts as int, g.instance as int, g.last_seq as int);
    let s = g.step_state(now);
    lemma_id_fields(s.last_ts as int, s.instance as int, s.last_seq as int);
    if now > g.last_ts {
        assert(s.last_id() > g.last_id()) by (nonlinear_arith)
            requires
                s.last_id() == (now as int) * 4194304 + (g.instance as int) * 4096,
                g.last_id() == (g.last_ts as int) * 4194304 + (g.instance as int) * 4096 + (
                g.last_seq as int),
                now > g.last_ts,
                g.last_seq < 4096,
                0 <= g.last_ts,
                0 <= g.instance,
        ;
    }
}

/// The generator states reached by running one generation step per tick in
/// `ticks`, in order.
pub open spec fn run_state(g: IdGenerator, ticks: Seq<u64>) -> IdGenerator
    decreases ticks.len(),
{
    if ticks.len() == 0 {
        g
    } else {
        run_state(g, ticks.drop_last()).step_state(ticks.last())
    }
}

/// The identifiers minted by running one generation step per tick in
/// `ticks`, in order.
pub open spec fn run_ids(g: IdGenerator, ticks: Seq<u64>) -> Seq<int>
    decreases ticks.len(),
{
    if ticks.len() == 0 {
        Seq::empty()
    } else {
        run_ids(g, ticks.drop_last()).push(run_state(g, ticks).last_id())
    }
}

/// Whether every generation step of the run succeeds.
pub open spec fn run_ok(g: IdGenerator, ticks: Seq<u64>) -> bool
    decreases ticks.len(),
{
    if ticks.len() == 0 {
        true
    } else {
        run_ok(g, ticks.drop_last()) && run_state(g, ticks.drop_last()).step_ok(ticks.last())
    }
}

/// For any number of sequential successful calls to `generate` on one
/// generator instance, the returned identifiers are strictly increasing in
/// generation order — in particular non-decreasing and pairwise distinct —
/// none is the sentinel `0`, and all carry the instance's number.
pub proof fn lemma_generated_ids_strictly_increase(g: IdGenerator, ticks: Seq<u64>)
    requires
        g.wf(),
        forall|k: int| 0 <= k < ticks.len() ==> ticks[k] < TS_RANGE,
        run_ok(g, ticks),
    ensures
        run_ids(g, ticks).len() == ticks.len(),
        forall|i: int, j: int|
            0 <= i < j < ticks.len() ==> run_ids(g, ticks)[i] < run_ids(g, ticks)[j],
        forall|i: int| 0 <= i < ticks.len() ==> run_ids(g, ticks)[i] > g.last_id(),
        forall|i: int|
            0 <= i < ticks.len() ==> id_instance(run_ids(g, ticks)[i]) == g.instance as int,
        run_state(g, ticks).wf(),
        run_state(g, ticks).instance == g.instance,
        ticks.len() > 0 ==> run_ids(g, ticks).last() == run_state(g, ticks).last_id(),
        run_state(g, ticks).last_id() >= g.last_id(),
    decreases ticks.len(),
{
    if ticks.len() > 0 {
        let pre = ticks.drop_last();
        lemma_generated_ids_strictly_increase(g, pre);
        let s = run_state(g, pre);
        lemma_step_increases(s, ticks.last());
        let s2 = run_state(g, ticks);
        lemma_id_fields(s2.last_ts as int, s2.instance as int, s2.last_seq as int);
        assert(run_ids(g, ticks) == run_ids(g, pre).push(s2.last_id()));
        assert(forall|i: int|
            0 <= i < pre.len() ==> run_ids(g, ticks)[i] == run_ids(g, pre)[i]);
    }
}

/// Identifiers minted within the same timestamp tick differ only in their
/// sequence component: their timestamp and instance fields agree and their
/// sequence fields differ.
pub proof fn lemma_same_tick_differs_only_in_sequence(g: IdGenerator, ticks: Seq<u64>, i: int, j: int)
    requires
        g.wf(),
        forall|k: int| 0 <= k < ticks.len() ==> ticks[k] < TS_RANGE,
        run_ok(g, ticks),
        0 <= i < j < ticks.len(),
        id_timestamp(run_ids(g, ticks)[i]) == id_timestamp(run_ids(g, ticks)[j]),
    ensures
        id_instance(run_ids(g, ticks)[i]) == id_instance(run_ids(g, ticks)[j]),
        id_sequence(run_ids(g, ticks)[i]) != id_sequence(run_ids(g, ticks)[j]),
{
    lemma_generated_ids_strictly_increase(g, ticks);
    let a = run_ids(g, ticks)[i];
    let b = run_ids(g, ticks)[j];
    lemma_id_recompose(a);
    lemma_id_recompose(b);
}

/// Split an identifier into its timestamp, instance and sequence fields,
/// for diagnostics.
pub fn decode_id(id: u64) -> (r: (u64, u64, u64))
    ensures
        r.0 == id_timestamp(id as int),
        r.1 == id_instance(id as int),
        r.2 == id_sequence(id as int),
{
    (id / TS_WEIGHT, (id / INSTANCE_WEIGHT) % INSTANCE_RANGE, id % INSTANCE_WEIGHT)
}

} // verus!
