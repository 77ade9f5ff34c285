//! Mathematical model of a signal network.
//!
//! The state of a network is a table of cells, kept here as parallel
//! sequences indexed by signal id. The functions in this module define what
//! every operation of the engine does to that state; the executable code in
//! [`crate::engine`] is proved to follow them exactly.
//!
//! Propagation is the two-phase protocol: `send_spec` overwrites a value and
//! *arms* the transitive fan-out (`walk_one` lists every pending
//! notification in pre-order, `bump` counts them into the dirty counters),
//! and `rel_one` *resolves* one notification, recomputing a receiver exactly
//! when its dirty counter returns to zero.
//!
//! Every receiver edge must lead to a cell of strictly greater rank (see
//! [`NetModel::wf`]); ranks are bounded by the number of cells, which makes
//! the arming walk well founded and bounds the depth of any resolution
//! cascade, so `rel_one` runs on a fuel of one unit per cell.

use vstd::prelude::*;

use crate::{Effect, Processor};

verus! {

/// The computation of a derived cell: the ids whose values it reads, in
/// order, and the pure function applied to them.
#[verifier::ext_equal]
pub ghost struct ProcModel<P> {
    pub deps: Seq<usize>,
    pub func: P,
}

/// State of a whole network: parallel sequences, one entry per signal.
#[verifier::ext_equal]
pub ghost struct NetModel<T, P, E> {
    /// Current value of each cell.
    pub values: Seq<T>,
    /// Computation of each derived cell, `None` for independent cells.
    pub procs: Seq<Option<ProcModel<P>>>,
    /// Observer state of each derived cell.
    pub effects: Seq<Option<E>>,
    /// Ids notified when a cell changes, in registration order.
    pub receivers: Seq<Seq<usize>>,
    /// Number of armed, not yet resolved notifications per cell.
    pub dirty: Seq<usize>,
    /// While set, a cell's `send` updates the value but arms nothing.
    pub suspended: Seq<bool>,
    /// Topological height: every receiver edge strictly increases it.
    pub rank: Seq<usize>,
}

impl<T, P, E> NetModel<T, P, E> {
    /// Number of cells.
    pub open spec fn n(self) -> int {
        self.values.len() as int
    }

    pub open spec fn in_range(self, j: int) -> bool {
        0 <= j < self.n()
    }

    /// Every receiver of cell `i` exists and has strictly greater rank.
    pub open spec fn edges_ok(self, i: int) -> bool {
        forall|k: int|
            0 <= k < self.receivers[i].len() ==> {
                let r = #[trigger] self.receivers[i][k];
                r < self.n() && self.rank[r as int] > self.rank[i]
            }
    }

    /// Every dependency a derived cell reads exists.
    pub open spec fn deps_ok(self, i: int) -> bool {
        match self.procs[i] {
            Some(p) => forall|k: int|
                0 <= k < p.deps.len() ==> (#[trigger] p.deps[k]) < self.n(),
            None => true,
        }
    }

    /// Well-formedness: the parallel sequences agree in length, ranks are
    /// bounded by the cell count, and receiver edges strictly increase the
    /// rank, which rules out cycles.
    pub open spec fn wf(self) -> bool {
        &&& self.procs.len() == self.n()
        &&& self.effects.len() == self.n()
        &&& self.receivers.len() == self.n()
        &&& self.dirty.len() == self.n()
        &&& self.suspended.len() == self.n()
        &&& self.rank.len() == self.n()
        &&& forall|i: int| 0 <= i < self.n() ==> (#[trigger] self.rank[i]) < self.n()
        &&& forall|i: int| 0 <= i < self.n() ==> #[trigger] self.edges_ok(i)
        &&& forall|i: int| 0 <= i < self.n() ==> #[trigger] self.deps_ok(i)
    }

    /// The two states have the same cells, edges, ranks and computations;
    /// only values, observer states, dirty counters and suspension gates may
    /// differ.
    pub open spec fn same_shape(self, other: NetModel<T, P, E>) -> bool {
        &&& other.n() == self.n()
        &&& other.values.len() == self.values.len()
        &&& other.effects.len() == self.effects.len()
        &&& other.dirty.len() == self.dirty.len()
        &&& other.suspended.len() == self.suspended.len()
        &&& other.procs == self.procs
        &&& other.receivers == self.receivers
        &&& other.rank == self.rank
    }

    pub open spec fn set_value(self, i: int, v: T) -> NetModel<T, P, E> {
        NetModel { values: self.values.update(i, v), ..self }
    }

    pub open spec fn set_effect(self, i: int, e: Option<E>) -> NetModel<T, P, E> {
        NetModel { effects: self.effects.update(i, e), ..self }
    }

    pub open spec fn set_dirty(self, i: int, d: usize) -> NetModel<T, P, E> {
        NetModel { dirty: self.dirty.update(i, d), ..self }
    }

    pub open spec fn set_suspended(self, i: int, s: bool) -> NetModel<T, P, E> {
        NetModel { suspended: self.suspended.update(i, s), ..self }
    }

    /// The values cell `i`'s computation reads, in dependency order.
    pub open spec fn dep_vals(self, deps: Seq<usize>) -> Seq<T> {
        deps.map_values(|d: usize| self.values[d as int])
    }

    /// One more pending notification for cell `j`; the counter saturates at
    /// the machine limit.
    pub open spec fn bump_one(self, j: usize) -> NetModel<T, P, E> {
        if (j as int) < self.n() {
            self.set_dirty(j as int, sat_inc(self.dirty[j as int]))
        } else {
            self
        }
    }

    /// Arm every notification in `toks`, in order.
    pub open spec fn bump(self, toks: Seq<usize>) -> NetModel<T, P, E>
        decreases toks.len(),
    {
        if toks.len() == 0 {
            self
        } else {
            self.bump_one(toks[0]).bump(toks.drop_first())
        }
    }

    /// Appending a fresh cell. Used by `new`, `driven` and `deep_clone`.
    pub open spec fn push_cell(
        self,
        value: T,
        proc: Option<ProcModel<P>>,
        effect: Option<E>,
        receivers: Seq<usize>,
        dirty: usize,
        suspended: bool,
        rank: usize,
    ) -> NetModel<T, P, E> {
        NetModel {
            values: self.values.push(value),
            procs: self.procs.push(proc),
            effects: self.effects.push(effect),
            receivers: self.receivers.push(receivers),
            dirty: self.dirty.push(dirty),
            suspended: self.suspended.push(suspended),
            rank: self.rank.push(rank),
        }
    }

    /// What `Signal::new` appends: an independent cell.
    pub open spec fn new_spec(self, value: T) -> NetModel<T, P, E> {
        self.push_cell(value, None, None, Seq::empty(), 0, false, 0)
    }

    /// What `Signal::deep_clone` appends: a copy of cell `i` with its own
    /// value storage; computation, observer state, receiver list and flags
    /// are copied as they stand.
    pub open spec fn deep_clone_spec(self, i: int) -> NetModel<T, P, E> {
        self.push_cell(
            self.values[i],
            self.procs[i],
            self.effects[i],
            self.receivers[i],
            self.dirty[i],
            self.suspended[i],
            self.rank[i],
        )
    }

    /// What `Signal::add_receiver` does: append one edge.
    pub open spec fn add_receiver_spec(self, i: int, r: usize) -> NetModel<T, P, E> {
        NetModel { receivers: self.receivers.update(i, self.receivers[i].push(r)), ..self }
    }
}

/// Saturating increment of a dirty counter.
pub open spec fn sat_inc(d: usize) -> usize {
    if d < usize::MAX {
        (d + 1) as usize
    } else {
        d
    }
}

/// Strict upper bound for the ranks of `deps` in `m`: one more than the
/// greatest of them, `0` when there are none. The rank a derived cell gets.
pub open spec fn rank_bound<T, P, E>(m: NetModel<T, P, E>, deps: Seq<usize>) -> int
    decreases deps.len(),
{
    if deps.len() == 0 {
        0
    } else {
        let rest = rank_bound(m, deps.drop_first());
        let first = m.rank[deps[0] as int] + 1;
        if first > rest {
            first
        } else {
            rest
        }
    }
}

pub proof fn lemma_rank_bound_le<T, P, E>(m: NetModel<T, P, E>, deps: Seq<usize>)
    requires
        m.wf(),
        forall|k: int| 0 <= k < deps.len() ==> (#[trigger] deps[k]) < m.n(),
    ensures
        0 <= rank_bound(m, deps) <= m.n(),
        forall|k: int| 0 <= k < deps.len() ==> m.rank[#[trigger] deps[k] as int] < rank_bound(m, deps),
    decreases deps.len(),
{
    if deps.len() > 0 {
        lemma_rank_bound_le(m, deps.drop_first());
        assert forall|k: int| 0 <= k < deps.len() implies m.rank[#[trigger] deps[k] as int]
            < rank_bound(m, deps) by {
            if k >= 1 {
                assert(deps[k] == deps.drop_first()[k - 1]);
            }
        }
    }
}

/// Well-formedness only looks at the shape, so it carries over to any state
/// of the same shape.
pub proof fn lemma_wf_shape<T, P, E>(a: NetModel<T, P, E>, b: NetModel<T, P, E>)
    requires
        a.wf(),
        a.same_shape(b),
    ensures
        b.wf(),
{
    assert forall|i: int| 0 <= i < b.n() implies #[trigger] b.edges_ok(i) by {
        assert(a.edges_ok(i));
        assert forall|k: int| 0 <= k < b.receivers[i].len() implies {
            let r = #[trigger] b.receivers[i][k];
            r < b.n() && b.rank[r as int] > b.rank[i]
        } by {
            assert(a.receivers[i][k] < a.n() && a.rank[a.receivers[i][k] as int] > a.rank[i]);
        }
    }
    assert forall|i: int| 0 <= i < b.n() implies #[trigger] b.deps_ok(i) by {
        assert(a.deps_ok(i));
    }
}

/// Appending a cell keeps the network well formed, provided the new cell's
/// rank is at most the old cell count and its edges and dependencies lead to
/// existing cells, the edges to cells of strictly greater rank.
pub proof fn lemma_wf_push<T, P, E>(
    m: NetModel<T, P, E>,
    value: T,
    proc: Option<ProcModel<P>>,
    effect: Option<E>,
    receivers: Seq<usize>,
    dirty: usize,
    suspended: bool,
    rank: usize,
)
    requires
        m.wf(),
        rank <= m.n(),
        forall|k: int|
            0 <= k < receivers.len() ==> {
                let r = #[trigger] receivers[k];
                r < m.n() && m.rank[r as int] > rank
            },
        match proc {
            Some(p) => forall|k: int| 0 <= k < p.deps.len() ==> (#[trigger] p.deps[k]) < m.n(),
            None => true,
        },
    ensures
        m.push_cell(value, proc, effect, receivers, dirty, suspended, rank).wf(),
{
    let b = m.push_cell(value, proc, effect, receivers, dirty, suspended, rank);
    assert forall|i: int| 0 <= i < b.n() implies #[trigger] b.edges_ok(i) by {
        if i < m.n() {
            assert(m.edges_ok(i));
            assert forall|k: int| 0 <= k < b.receivers[i].len() implies {
                let r = #[trigger] b.receivers[i][k];
                r < b.n() && b.rank[r as int] > b.rank[i]
            } by {
                assert(m.receivers[i][k] < m.n() && m.rank[m.receivers[i][k] as int] > m.rank[i]);
            }
        } else {
            assert(b.receivers[i] == receivers);
            assert forall|k: int| 0 <= k < b.receivers[i].len() implies {
                let r = #[trigger] b.receivers[i][k];
                r < b.n() && b.rank[r as int] > b.rank[i]
            } by {
                assert(receivers[k] < m.n() && m.rank[receivers[k] as int] > rank);
            }
        }
    }
    assert forall|i: int| 0 <= i < b.n() implies #[trigger] b.deps_ok(i) by {
        if i < m.n() {
            assert(m.deps_ok(i));
        }
    }
}

impl<T, P: Processor<T>, E: Effect<T>> NetModel<T, P, E> {
    /// What `Signal::driven` appends: a derived cell seeded by one
    /// evaluation of its computation. The observer is not run for this
    /// initial evaluation.
    pub open spec fn driven_spec(self, deps: Seq<usize>, func: P, effect: E) -> NetModel<T, P, E> {
        self.push_cell(
            func.apply(self.dep_vals(deps)),
            Some(ProcModel { deps, func }),
            Some(effect),
            Seq::empty(),
            0,
            false,
            rank_bound(self, deps) as usize,
        )
    }

    /// Run cell `i`'s observer on (previous, freshly computed) value.
    pub open spec fn step_effect(self, i: int, before: T, after: T) -> NetModel<T, P, E> {
        match self.effects[i] {
            Some(e) => self.set_effect(i, Some(e.step(before, after))),
            None => self,
        }
    }
}

/// Pre-order of the cells a notification of `j` reaches: `j` itself, then
/// the full walk of each receiver of `j`, in registration order. A cell is
/// listed once per update path that reaches it.
pub open spec fn walk_one<T, P, E>(m: NetModel<T, P, E>, j: int) -> Seq<usize>
    decreases m.n() - m.rank[j], 1int, 0int,
        when m.wf() && m.in_range(j)
{
    seq![j as usize] + walk_list(m, m.receivers[j], m.rank[j])
}

/// The walks of the cells in `rs`, concatenated. `lbr` is a strict lower
/// bound on the ranks in `rs`, which bounds the recursion.
pub open spec fn walk_list<T, P, E>(m: NetModel<T, P, E>, rs: Seq<usize>, lbr: usize) -> Seq<
    usize,
>
    decreases m.n() - lbr, 0int, rs.len(),
        when m.wf() && (lbr as int) < m.n() && (forall|k: int|
            0 <= k < rs.len() ==> {
                let r = #[trigger] rs[k];
                r < m.n() && m.rank[r as int] > lbr
            })
{
    if rs.len() == 0 {
        Seq::empty()
    } else {
        walk_one(m, rs[0] as int) + walk_list(m, rs.drop_first(), lbr)
    }
}

impl<T, P: Processor<T>, E: Effect<T>> NetModel<T, P, E> {
    /// Arm the full transitive fan-out below cell `i` (not `i` itself):
    /// the deferred tokens of every downstream cell, and the dirty counters
    /// they account for.
    pub open spec fn receiver_promise_spec(self, i: int) -> (NetModel<T, P, E>, Seq<usize>) {
        let toks = walk_list(self, self.receivers[i], self.rank[i]);
        (self.bump(toks), toks)
    }

    /// Arm cell `j` itself and its full transitive fan-out.
    pub open spec fn promise_spec(self, j: int) -> (NetModel<T, P, E>, Seq<usize>) {
        let toks = walk_one(self, j);
        (self.bump(toks), toks)
    }

    /// Overwrite cell `i`'s value. A suspended cell arms nothing; otherwise
    /// the whole fan-out is armed before anything resolves.
    pub open spec fn send_spec(self, i: int, v: T) -> (NetModel<T, P, E>, Seq<usize>) {
        let m1 = self.set_value(i, v);
        if self.suspended[i] {
            (m1, Seq::empty())
        } else {
            m1.receiver_promise_spec(i)
        }
    }

    /// Recompute cell `j`: evaluate its computation over the live values of
    /// its dependencies, run the observer on (previous, new) value, then
    /// send the new value to itself.
    pub open spec fn react_spec(self, j: int) -> (NetModel<T, P, E>, Seq<usize>) {
        match self.procs[j] {
            Some(p) => {
                let nv = p.func.apply(self.dep_vals(p.deps));
                let me = self.step_effect(j, self.values[j], nv);
                me.send_spec(j, nv)
            },
            None => (self, Seq::empty()),
        }
    }
}

/// Resolve one notification of cell `j`: its dirty counter goes down by
/// one, and exactly when it thereby returns to zero on a derived cell, that
/// cell recomputes and the notifications of its own send resolve in turn,
/// in order. The fuel only bounds the cascade depth; one unit per rank
/// level, so `m.n()` units always suffice on a well-formed network.
pub open spec fn rel_one<T, P: Processor<T>, E: Effect<T>>(
    m: NetModel<T, P, E>,
    j: int,
    fuel: nat,
) -> NetModel<T, P, E>
    decreases fuel, 0int,
{
    if fuel == 0 || !m.in_range(j) || m.dirty[j] == 0 {
        m
    } else {
        let m1 = m.set_dirty(j, (m.dirty[j] - 1) as usize);
        if m1.dirty[j] == 0 && m1.procs[j] is Some {
            let (m2, toks) = m1.react_spec(j);
            rel_list(m2, toks, (fuel - 1) as nat)
        } else {
            m1
        }
    }
}

/// Resolve the notifications in `toks`, in order.
pub open spec fn rel_list<T, P: Processor<T>, E: Effect<T>>(
    m: NetModel<T, P, E>,
    toks: Seq<usize>,
    fuel: nat,
) -> NetModel<T, P, E>
    decreases fuel, toks.len() + 1,
{
    if toks.len() == 0 {
        m
    } else {
        rel_list(rel_one(m, toks[0] as int, fuel), toks.drop_first(), fuel)
    }
}

impl<T, P: Processor<T>, E: Effect<T>> NetModel<T, P, E> {
    /// Releasing one token on a well-formed network: `m.n()` fuel covers
    /// every possible cascade, since each nesting level strictly increases
    /// the rank and ranks are below `m.n()`.
    pub open spec fn release_spec(self, j: int) -> NetModel<T, P, E> {
        rel_one(self, j, self.n() as nat)
    }

    /// Releasing a batch of tokens, in order.
    pub open spec fn release_all_spec(self, toks: Seq<usize>) -> NetModel<T, P, E> {
        rel_list(self, toks, self.n() as nat)
    }
}

} // verus!
