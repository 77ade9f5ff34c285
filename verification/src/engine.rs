//! The executable propagation engine.
//!
//! A [`Network`] is an arena of signal cells; a [`Signal`] is a copyable
//! handle (a stable id) into it. All operations are verified against the
//! model in [`crate::model`]: each contract states exactly which model state
//! the operation leaves behind.
//!
//! A [`Token`] is a deferred completion token: a one-shot handle for one
//! pending notification, returned by `send` (and `promise` / `react`) and
//! consumed by `release`. Because a token is owned and `release` takes it by
//! value, each token resolves at most once.

use vstd::prelude::*;

use crate::model::{rel_list, rel_one, walk_list, walk_one};
use crate::model::{lemma_rank_bound_le, rank_bound, NetModel, ProcModel};
use crate::{Effect, Processor};

verus! {

/// A handle to one signal of a [`Network`]: its stable id.
#[derive(Clone, Copy)]
pub struct Signal {
    id: usize,
}

impl View for Signal {
    type V = usize;

    closed spec fn view(&self) -> usize {
        self.id
    }
}

impl Signal {
    /// The stable id of this signal within its network.
    pub fn index(self) -> (i: usize)
        ensures
            i == self@,
    {
        self.id
    }
}

/// One pending notification, bound to exactly one receiver. Releasing it
/// decrements that receiver's dirty counter once; tokens are owned and not
/// clonable, so a token cannot resolve twice.
pub struct Token {
    target: usize,
}

impl View for Token {
    type V = usize;

    closed spec fn view(&self) -> usize {
        self.target
    }
}

/// The ids of a sequence of signal handles.
pub open spec fn sig_ids(s: Seq<Signal>) -> Seq<usize> {
    s.map_values(|x: Signal| x@)
}

/// The receivers a sequence of tokens is bound to.
pub open spec fn targets(s: Seq<Token>) -> Seq<usize> {
    s.map_values(|t: Token| t@)
}

/// The computation of a derived signal: the ids it reads and the pure
/// function applied to their values.
pub(crate) struct Proc<P> {
    pub(crate) deps: Vec<usize>,
    pub(crate) func: P,
}

pub(crate) open spec fn proc_view<P>(p: Option<Proc<P>>) -> Option<ProcModel<P>> {
    match p {
        Some(q) => Some(ProcModel { deps: q.deps@, func: q.func }),
        None => None,
    }
}

/// An arena of signal cells, stored as parallel columns indexed by id.
pub struct Network<T, P, E> {
    values: Vec<T>,
    procs: Vec<Option<Proc<P>>>,
    effects: Vec<Option<E>>,
    receivers: Vec<Vec<usize>>,
    dirty: Vec<usize>,
    suspended: Vec<bool>,
    rank: Vec<usize>,
}

impl<T, P, E> View for Network<T, P, E> {
    type V = NetModel<T, P, E>;

    closed spec fn view(&self) -> NetModel<T, P, E> {
        NetModel {
            values: self.values@,
            procs: self.procs@.map_values(|p: Option<Proc<P>>| proc_view(p)),
            effects: self.effects@,
            receivers: self.receivers.deep_view(),
            dirty: self.dirty@,
            suspended: self.suspended@,
            rank: self.rank@,
        }
    }
}

impl<T: Copy, P: Processor<T>, E: Effect<T> + Copy> Network<T, P, E> {
    /// An empty arena.
    pub fn new() -> (net: Network<T, P, E>)
        ensures
            net@.wf(),
            net@.n() == 0,
    {
        let net = Network {
            values: Vec::new(),
            procs: Vec::new(),
            effects: Vec::new(),
            receivers: Vec::new(),
            dirty: Vec::new(),
            suspended: Vec::new(),
            rank: Vec::new(),
        };
        proof {
            assert(net@.receivers =~= Seq::<Seq<usize>>::empty());
            assert(net@.procs =~= Seq::<Option<ProcModel<P>>>::empty());
        }
        net
    }

    /// Number of signals in the arena.
    pub fn len(&self) -> (n: usize)
        ensures
            n == self@.n(),
    {
        self.values.len()
    }

    /// Append one cell row across all columns.
    fn init(
        &mut self,
        value: T,
        proc: Option<Proc<P>>,
        effect: Option<E>,
        receivers: Vec<usize>,
        dirty: usize,
        suspended: bool,
        rank: usize,
    )
        ensures
            final(self)@ == (old(self)@.push_cell(
                value,
                proc_view(proc),
                effect,
                receivers@,
                dirty,
                suspended,
                rank,
            )),
    {
        let ghost m0 = self@;
        let ghost pv = proc_view(proc);
        self.values.push(value);
        self.procs.push(proc);
        self.effects.push(effect);
        self.receivers.push(receivers);
        self.dirty.push(dirty);
        self.suspended.push(suspended);
        self.rank.push(rank);
        proof {
            assert(self@.procs =~= m0.procs.push(pv));
            assert(self@.receivers =~~= m0.receivers.push(receivers@));
        }
    }
}

/// A copy of a list of ids.
fn copy_ids(v: &Vec<usize>) -> (r: Vec<usize>)
    ensures
        r@ == v@,
{
    let mut r: Vec<usize> = Vec::new();
    let mut k: usize = 0;
    while k < v.len()
        invariant
            k <= v@.len(),
            r@ == v@.take(k as int),
        decreases v@.len() - k,
    {
        r.push(v[k]);
        proof {
            assert(r@ =~= v@.take(k + 1));
        }
        k = k + 1;
    }
    proof {
        assert(v@.take(v@.len() as int) =~= v@);
    }
    r
}

impl Signal {
    /// An independent signal holding `value`: no computation, no observer,
    /// no receivers, not dirty, not suspended.
    pub fn new<T: Copy, P: Processor<T>, E: Effect<T> + Copy>(
        net: &mut Network<T, P, E>,
        value: T,
    ) -> (s: Signal)
        requires
            old(net)@.wf(),
        ensures
            final(net)@.wf(),
            s@ == old(net)@.n(),
            final(net)@ == old(net)@.new_spec(value),
    {
        let id = net.values.len();
        let rcv: Vec<usize> = Vec::new();
        proof {
            assert(rcv@ =~= Seq::<usize>::empty());
        }
        net.init(value, None, None, rcv, 0, false, 0);
        proof {
            crate::model::lemma_wf_push(
                old(net)@,
                value,
                None,
                None,
                Seq::<usize>::empty(),
                0,
                false,
                0,
            );
        }
        Signal { id }
    }

    /// A derived signal: `processor` is evaluated once over the current
    /// values of `deps` to seed the value; the observer is stored but not
    /// run for this initial evaluation. The new cell's rank lies strictly
    /// above the rank of every dependency.
    pub fn driven<T: Copy, P: Processor<T>, E: Effect<T> + Copy>(
        net: &mut Network<T, P, E>,
        deps: &Vec<Signal>,
        processor: P,
        effect: E,
    ) -> (s: Signal)
        requires
            old(net)@.wf(),
            forall|k: int| 0 <= k < deps@.len() ==> (#[trigger] deps@[k])@ < old(net)@.n(),
        ensures
            final(net)@.wf(),
            s@ == old(net)@.n(),
            final(net)@ == old(net)@.driven_spec(sig_ids(deps@), processor, effect),
    {
        let ghost m0 = net@;
        let ghost dd = sig_ids(deps@);
        let id = net.values.len();

        let mut ids: Vec<usize> = Vec::new();
        let mut k: usize = 0;
        while k < deps.len()
            invariant
                k <= deps@.len(),
                ids@ == sig_ids(deps@.take(k as int)),
            decreases deps@.len() - k,
        {
            ids.push(deps[k].id);
            proof {
                assert(ids@ =~= sig_ids(deps@.take(k + 1)));
            }
            k = k + 1;
        }
        proof {
            assert(deps@.take(deps@.len() as int) =~= deps@);
            assert(ids@ == dd);
            assert(forall|q: int| 0 <= q < dd.len() ==> (#[trigger] dd[q]) < m0.n());
            lemma_rank_bound_le(m0, dd);
        }

        let mut inputs: Vec<T> = Vec::new();
        k = 0;
        while k < ids.len()
            invariant
                k <= ids@.len(),
                ids@ == dd,
                net@ == m0,
                m0.wf(),
                forall|q: int| 0 <= q < dd.len() ==> (#[trigger] dd[q]) < m0.n(),
                inputs@ == m0.dep_vals(dd.take(k as int)),
            decreases ids@.len() - k,
        {
            let d = ids[k];
            inputs.push(net.values[d]);
            proof {
                assert(inputs@ =~= m0.dep_vals(dd.take(k + 1)));
            }
            k = k + 1;
        }
        proof {
            assert(dd.take(dd.len() as int) =~= dd);
        }
        let v = processor.compute(&inputs);

        let nn = net.values.len();
        let mut rk: usize = 0;
        k = 0;
        while k < ids.len()
            invariant
                k <= ids@.len(),
                ids@ == dd,
                net@ == m0,
                m0.wf(),
                nn == m0.n(),
                forall|q: int| 0 <= q < dd.len() ==> (#[trigger] dd[q]) < m0.n(),
                rank_bound(m0, dd) == (if rank_bound(m0, dd.skip(k as int)) > rk {
                    rank_bound(m0, dd.skip(k as int))
                } else {
                    rk as int
                }),
            decreases ids@.len() - k,
        {
            let r = net.rank[ids[k]];
            proof {
                assert(dd.skip(k as int)[0] == dd[k as int]);
                assert(dd.skip(k as int).drop_first() =~= dd.skip(k + 1));
                assert(m0.rank[dd[k as int] as int] < m0.n());
                assert(r < nn);
            }
            if r >= rk {
                rk = r + 1;
            }
            k = k + 1;
        }
        proof {
            assert(dd.skip(dd.len() as int) =~= Seq::<usize>::empty());
            assert(rk as int == rank_bound(m0, dd));
        }

        let rcv: Vec<usize> = Vec::new();
        proof {
            assert(rcv@ =~= Seq::<usize>::empty());
        }
        net.init(v, Some(Proc { deps: ids, func: processor }), Some(effect), rcv, 0, false, rk);
        proof {
            crate::model::lemma_wf_push(
                m0,
                v,
                Some(ProcModel { deps: dd, func: processor }),
                Some(effect),
                Seq::<usize>::empty(),
                0,
                false,
                rk,
            );
            assert(final(net)@ == m0.driven_spec(dd, processor, effect));
        }
        Signal { id }
    }

    /// The current value; reading neither recomputes nor notifies anything.
    pub fn get<T: Copy, P: Processor<T>, E: Effect<T> + Copy>(
        self,
        net: &Network<T, P, E>,
    ) -> (v: T)
        requires
            self@ < net@.n(),
        ensures
            v == net@.values[self@ as int],
    {
        net.values[self.id]
    }

    /// The current value, by reference.
    pub fn borrow<'a, T: Copy, P: Processor<T>, E: Effect<T> + Copy>(
        self,
        net: &'a Network<T, P, E>,
    ) -> (v: &'a T)
        requires
            self@ < net@.n(),
        ensures
            *v == net@.values[self@ as int],
    {
        &net.values[self.id]
    }

    /// The number of armed, unresolved notifications bound to this signal.
    pub fn dirty<T: Copy, P: Processor<T>, E: Effect<T> + Copy>(
        self,
        net: &Network<T, P, E>,
    ) -> (d: usize)
        requires
            net@.wf(),
            self@ < net@.n(),
        ensures
            d == net@.dirty[self@ as int],
    {
        net.dirty[self.id]
    }

    /// The signal's topological height. `add_receiver` only accepts edges
    /// towards strictly greater ranks.
    pub fn rank<T: Copy, P: Processor<T>, E: Effect<T> + Copy>(
        self,
        net: &Network<T, P, E>,
    ) -> (r: usize)
        requires
            net@.wf(),
            self@ < net@.n(),
        ensures
            r == net@.rank[self@ as int],
    {
        net.rank[self.id]
    }

    /// The current observer state, `None` on an independent signal.
    pub fn effect<T: Copy, P: Processor<T>, E: Effect<T> + Copy>(
        self,
        net: &Network<T, P, E>,
    ) -> (e: Option<E>)
        requires
            net@.wf(),
            self@ < net@.n(),
        ensures
            e == net@.effects[self@ as int],
    {
        net.effects[self.id]
    }

    /// The signal's computation, `None` on an independent signal.
    pub fn processor<'a, T: Copy, P: Processor<T>, E: Effect<T> + Copy>(
        self,
        net: &'a Network<T, P, E>,
    ) -> (p: Option<&'a P>)
        requires
            net@.wf(),
            self@ < net@.n(),
        ensures
            p is Some <==> net@.procs[self@ as int] is Some,
            (p matches Some(f) ==> net@.procs[self@ as int] matches Some(q) && *f == q.func),
    {
        match &net.procs[self.id] {
            Some(pr) => Some(&pr.func),
            None => None,
        }
    }

    /// The signals registered to be notified by this one, in order.
    pub fn receivers<T: Copy, P: Processor<T>, E: Effect<T> + Copy>(
        self,
        net: &Network<T, P, E>,
    ) -> (rs: Vec<Signal>)
        requires
            net@.wf(),
            self@ < net@.n(),
        ensures
            sig_ids(rs@) == net@.receivers[self@ as int],
    {
        let mut rs: Vec<Signal> = Vec::new();
        let row = &net.receivers[self.id];
        let mut k: usize = 0;
        while k < row.len()
            invariant
                k <= row@.len(),
                sig_ids(rs@) == row@.take(k as int),
            decreases row@.len() - k,
        {
            let ghost rs0 = rs@;
            rs.push(Signal { id: row[k] });
            proof {
                assert(sig_ids(rs@) =~= sig_ids(rs0).push(row@[k as int]));
                assert(sig_ids(rs@) =~= row@.take(k + 1));
            }
            k = k + 1;
        }
        proof {
            assert(row@.take(row@.len() as int) =~= row@);
        }
        rs
    }

    /// Gate this signal: while suspended, `send` still overwrites the value
    /// but arms no notifications.
    pub fn suspend<T: Copy, P: Processor<T>, E: Effect<T> + Copy>(
        self,
        net: &mut Network<T, P, E>,
    )
        requires
            old(net)@.wf(),
            self@ < old(net)@.n(),
        ensures
            final(net)@.wf(),
            final(net)@ == old(net)@.set_suspended(self@ as int, true),
    {
        net.suspended[self.id] = true;
        proof {
            assert(final(net)@ =~= old(net)@.set_suspended(self@ as int, true));
            crate::model::lemma_wf_shape(old(net)@, final(net)@);
        }
    }

    /// Lift the suspension. Values sent while suspended are kept but their
    /// missed notifications are not replayed.
    pub fn resume<T: Copy, P: Processor<T>, E: Effect<T> + Copy>(
        self,
        net: &mut Network<T, P, E>,
    )
        requires
            old(net)@.wf(),
            self@ < old(net)@.n(),
        ensures
            final(net)@.wf(),
            final(net)@ == old(net)@.set_suspended(self@ as int, false),
    {
        net.suspended[self.id] = false;
        proof {
            assert(final(net)@ =~= old(net)@.set_suspended(self@ as int, false));
            crate::model::lemma_wf_shape(old(net)@, final(net)@);
        }
    }

    /// Register `receiver` to be notified whenever this signal changes.
    /// The receiver must rank strictly above this signal, which keeps the
    /// graph acyclic; no other cycle check is performed.
    pub fn add_receiver<T: Copy, P: Processor<T>, E: Effect<T> + Copy>(
        self,
        net: &mut Network<T, P, E>,
        receiver: Signal,
    )
        requires
            old(net)@.wf(),
            self@ < old(net)@.n(),
            receiver@ < old(net)@.n(),
            old(net)@.rank[self@ as int] < old(net)@.rank[receiver@ as int],
        ensures
            final(net)@.wf(),
            final(net)@ == old(net)@.add_receiver_spec(self@ as int, receiver@),
    {
        let ghost m0 = net@;
        let ghost i = self@ as int;
        let mut row = copy_ids(&net.receivers[self.id]);
        row.push(receiver.id);
        net.receivers[self.id] = row;
        proof {
            let m1 = net@;
            assert(m1.receivers =~~= m0.receivers.update(i, m0.receivers[i].push(receiver@)));
            assert(m1 =~= m0.add_receiver_spec(i, receiver@));
            assert forall|q: int| 0 <= q < m1.n() implies #[trigger] m1.edges_ok(q) by {
                assert(m0.edges_ok(q));
                assert forall|k: int| 0 <= k < m1.receivers[q].len() implies {
                    let r = #[trigger] m1.receivers[q][k];
                    r < m1.n() && m1.rank[r as int] > m1.rank[q]
                } by {
                    if q == i && k == m0.receivers[i].len() {
                    } else {
                        assert(m1.receivers[q][k] == m0.receivers[q][k]);
                        assert(m0.receivers[q][k] < m0.n()
                            && m0.rank[m0.receivers[q][k] as int] > m0.rank[q]);
                    }
                }
            }
            assert forall|q: int| 0 <= q < m1.n() implies #[trigger] m1.deps_ok(q) by {
                assert(m0.deps_ok(q));
            }
        }
    }
}

impl Signal {
    /// An independent twin of this signal: its own value storage seeded
    /// with a copy of the current value, the same computation and observer
    /// state, a copy of the current receiver list, and copies of the dirty
    /// counter and suspension flag.
    pub fn deep_clone<T: Copy, P: Processor<T> + Copy, E: Effect<T> + Copy>(
        self,
        net: &mut Network<T, P, E>,
    ) -> (s: Signal)
        requires
            old(net)@.wf(),
            self@ < old(net)@.n(),
        ensures
            final(net)@.wf(),
            s@ == old(net)@.n(),
            final(net)@ == old(net)@.deep_clone_spec(self@ as int),
    {
        let ghost m0 = net@;
        let ghost i = self@ as int;
        let id = net.values.len();
        let value = net.values[self.id];
        let proc: Option<Proc<P>> = match &net.procs[self.id] {
            Some(pr) => Some(Proc { deps: copy_ids(&pr.deps), func: pr.func }),
            None => None,
        };
        let effect = net.effects[self.id];
        let recv = copy_ids(&net.receivers[self.id]);
        let d = net.dirty[self.id];
        let sus = net.suspended[self.id];
        let rk = net.rank[self.id];
        proof {
            assert(proc_view(proc) == m0.procs[i]);
            assert(recv@ == m0.receivers[i]);
            assert(m0.edges_ok(i));
            assert(m0.deps_ok(i));
        }
        net.init(value, proc, effect, recv, d, sus, rk);
        proof {
            crate::model::lemma_wf_push(
                m0,
                value,
                m0.procs[i],
                m0.effects[i],
                m0.receivers[i],
                m0.dirty[i],
                m0.suspended[i],
                m0.rank[i],
            );
        }
        Signal { id }
    }
}

/// The tokens bound to the ids in `ts`, in order.
spec fn tokens_of(ts: Seq<usize>) -> Seq<Token> {
    ts.map_values(|u: usize| Token { target: u })
}

proof fn lemma_targets_tokens_of(ts: Seq<usize>)
    ensures
        targets(tokens_of(ts)) =~= ts,
{
}

proof fn lemma_tokens_of_concat(a: Seq<usize>, b: Seq<usize>)
    ensures
        tokens_of(a + b) =~= tokens_of(a) + tokens_of(b),
{
}

/// Append one token per entry of the pre-order walk below `j`, including
/// `j` itself: the arming order of one notification of `j`.
fn collect<T: Copy, P: Processor<T>, E: Effect<T> + Copy>(
    net: &Network<T, P, E>,
    j: usize,
    out: &mut Vec<Token>,
)
    requires
        net@.wf(),
        j < net@.n(),
    ensures
        final(out)@ == old(out)@ + tokens_of(walk_one(net@, j as int)),
        forall|q: int|
            old(out)@.len() <= q < final(out)@.len() ==> {
                let t = (#[trigger] final(out)@[q])@;
                t < net@.n() && net@.rank[t as int] >= net@.rank[j as int]
            },
    decreases net@.n() - net@.rank[j as int],
{
    let ghost m = net@;
    let ghost jj = j as int;
    let ghost base = out@;
    out.push(Token { target: j });
    let row = &net.receivers[j];
    proof {
        assert(row@ =~= m.receivers[jj]);
        assert(m.edges_ok(jj));
        assert(walk_one(m, jj) == seq![j] + walk_list(m, m.receivers[jj], m.rank[jj]));
        assert(out@ =~= base + tokens_of(seq![j]));
        assert(row@.skip(0) =~= row@);
    }
    let ghost lbr = m.rank[jj];
    let mut k: usize = 0;
    while k < row.len()
        invariant
            net@ == m,
            m.wf(),
            jj == j as int,
            j < m.n(),
            row@ == m.receivers[jj],
            lbr == m.rank[jj],
            (lbr as int) < m.n(),
            k <= row@.len(),
            out@ + tokens_of(walk_list(m, row@.skip(k as int), lbr)) == base + tokens_of(
                walk_one(m, jj),
            ),
            forall|q: int|
                base.len() <= q < out@.len() ==> {
                    let t = (#[trigger] out@[q])@;
                    t < m.n() && m.rank[t as int] >= m.rank[jj]
                },
        decreases row@.len() - k,
    {
        let r = row[k];
        proof {
            assert(m.edges_ok(jj));
            assert(row@[k as int] < m.n() && m.rank[row@[k as int] as int] > m.rank[jj]);
        }
        let ghost out_pre = out@;
        collect(net, r, out);
        proof {
            let rest = row@.skip(k as int);
            assert(rest[0] == row@[k as int]);
            assert(rest.drop_first() =~= row@.skip(k + 1));
            assert forall|q: int| 0 <= q < rest.len() implies {
                let x = #[trigger] rest[q];
                x < m.n() && m.rank[x as int] > lbr
            } by {
                assert(rest[q] == row@[k + q]);
                assert(row@[k + q] < m.n() && m.rank[row@[k + q] as int] > m.rank[jj]);
            }
            assert(walk_list(m, rest, lbr) == walk_one(m, rest[0] as int) + walk_list(
                m,
                rest.drop_first(),
                lbr,
            ));
            lemma_tokens_of_concat(walk_one(m, r as int), walk_list(m, row@.skip(k + 1), lbr));
            assert(out@ + tokens_of(walk_list(m, row@.skip(k + 1), lbr)) =~= out_pre + tokens_of(
                walk_list(m, row@.skip(k as int), lbr),
            ));
        }
        k = k + 1;
    }
    proof {
        assert(row@.skip(row@.len() as int) =~= Seq::<usize>::empty());
        assert(tokens_of(Seq::<usize>::empty()) =~= Seq::<Token>::empty());
        assert(out@ + Seq::<Token>::empty() =~= out@);
    }
}

/// Arm the notifications in `toks`, in order: each target's dirty counter
/// goes up by one (saturating at the machine limit).
fn bump_tokens<T: Copy, P: Processor<T>, E: Effect<T> + Copy>(
    net: &mut Network<T, P, E>,
    toks: &Vec<Token>,
)
    requires
        old(net)@.wf(),
        forall|q: int| 0 <= q < toks@.len() ==> ((#[trigger] toks@[q])@) < old(net)@.n(),
    ensures
        final(net)@.wf(),
        final(net)@ == old(net)@.bump(targets(toks@)),
        old(net)@.same_shape(final(net)@),
        final(net)@.values == old(net)@.values,
        final(net)@.effects == old(net)@.effects,
        final(net)@.suspended == old(net)@.suspended,
{
    let ghost m0 = net@;
    let ghost tt = targets(toks@);
    proof {
        assert(tt.skip(0) =~= tt);
    }
    let mut k: usize = 0;
    while k < toks.len()
        invariant
            tt == targets(toks@),
            forall|q: int| 0 <= q < toks@.len() ==> ((#[trigger] toks@[q])@) < m0.n(),
            k <= tt.len(),
            net@.wf(),
            m0.same_shape(net@),
            net@.values == m0.values,
            net@.effects == m0.effects,
            net@.suspended == m0.suspended,
            m0.bump(tt) == net@.bump(tt.skip(k as int)),
        decreases tt.len() - k,
    {
        let tg = toks[k].target;
        proof {
            assert(tg == tt[k as int]);
            assert(tg < m0.n());
        }
        let d = net.dirty[tg];
        let nd = if d < usize::MAX {
            d + 1
        } else {
            d
        };
        let ghost mp = net@;
        net.dirty[tg] = nd;
        proof {
            assert(net@ =~= mp.bump_one(tt[k as int]));
            let rest = tt.skip(k as int);
            assert(rest[0] == tt[k as int]);
            assert(rest.drop_first() =~= tt.skip(k + 1));
            assert(mp.bump(rest) == mp.bump_one(tt[k as int]).bump(tt.skip(k + 1)));
            crate::model::lemma_wf_shape(mp, net@);
        }
        k = k + 1;
    }
    proof {
        assert(tt.skip(tt.len() as int) =~= Seq::<usize>::empty());
    }
}

impl Signal {
    /// Arm one notification of this signal: its dirty counter and, before
    /// anything resolves, the dirty counters of its whole transitive
    /// fan-out. Returns this signal's token first, then the downstream
    /// tokens in pre-order.
    pub fn promise<T: Copy, P: Processor<T>, E: Effect<T> + Copy>(
        self,
        net: &mut Network<T, P, E>,
    ) -> (tokens: Vec<Token>)
        requires
            old(net)@.wf(),
            self@ < old(net)@.n(),
        ensures
            final(net)@.wf(),
            final(net)@ == old(net)@.promise_spec(self@ as int).0,
            targets(tokens@) == old(net)@.promise_spec(self@ as int).1,
            old(net)@.same_shape(final(net)@),
            final(net)@.values == old(net)@.values,
            final(net)@.effects == old(net)@.effects,
            final(net)@.suspended == old(net)@.suspended,
            forall|q: int|
                0 <= q < tokens@.len() ==> {
                    let t = (#[trigger] tokens@[q])@;
                    t < old(net)@.n() && old(net)@.rank[t as int] >= old(net)@.rank[self@ as int]
                },
    {
        let ghost m0 = net@;
        let mut out: Vec<Token> = Vec::new();
        collect(net, self.id, &mut out);
        proof {
            lemma_targets_tokens_of(walk_one(m0, self@ as int));
            assert(out@ =~= Seq::<Token>::empty() + tokens_of(walk_one(m0, self@ as int)));
            assert(out@ =~= tokens_of(walk_one(m0, self@ as int)));
        }
        bump_tokens(net, &out);
        out
    }

    /// Arm one notification of every receiver of this signal (but not of
    /// this signal itself), in registration order, each with its full
    /// transitive fan-out.
    pub fn receiver_promise<T: Copy, P: Processor<T>, E: Effect<T> + Copy>(
        self,
        net: &mut Network<T, P, E>,
    ) -> (tokens: Vec<Token>)
        requires
            old(net)@.wf(),
            self@ < old(net)@.n(),
        ensures
            final(net)@.wf(),
            final(net)@ == old(net)@.receiver_promise_spec(self@ as int).0,
            targets(tokens@) == old(net)@.receiver_promise_spec(self@ as int).1,
            old(net)@.same_shape(final(net)@),
            final(net)@.values == old(net)@.values,
            final(net)@.effects == old(net)@.effects,
            final(net)@.suspended == old(net)@.suspended,
            forall|q: int|
                0 <= q < tokens@.len() ==> {
                    let t = (#[trigger] tokens@[q])@;
                    t < old(net)@.n() && old(net)@.rank[t as int] > old(net)@.rank[self@ as int]
                },
    {
        let ghost m0 = net@;
        let ghost jj = self@ as int;
        let ghost lbr = m0.rank[jj];
        let mut out: Vec<Token> = Vec::new();
        let row = &net.receivers[self.id];
        proof {
            assert(row@ =~= m0.receivers[jj]);
            assert(m0.edges_ok(jj));
            assert(row@.skip(0) =~= row@);
            assert(out@ + tokens_of(walk_list(m0, row@, lbr)) =~= tokens_of(
                walk_list(m0, row@, lbr),
            ));
        }
        let mut k: usize = 0;
        while k < row.len()
            invariant
                net@ == m0,
                m0.wf(),
                jj == self@ as int,
                self@ < m0.n(),
                row@ == m0.receivers[jj],
                lbr == m0.rank[jj],
                (lbr as int) < m0.n(),
                k <= row@.len(),
                out@ + tokens_of(walk_list(m0, row@.skip(k as int), lbr)) == tokens_of(
                    walk_list(m0, row@, lbr),
                ),
                forall|q: int|
                    0 <= q < out@.len() ==> {
                        let t = (#[trigger] out@[q])@;
                        t < m0.n() && m0.rank[t as int] > lbr
                    },
            decreases row@.len() - k,
        {
            let r = row[k];
            proof {
                assert(m0.edges_ok(jj));
                assert(row@[k as int] < m0.n() && m0.rank[row@[k as int] as int] > m0.rank[jj]);
            }
            let ghost out_pre = out@;
            collect(net, r, &mut out);
            proof {
                let rest = row@.skip(k as int);
                assert(rest[0] == row@[k as int]);
                assert(rest.drop_first() =~= row@.skip(k + 1));
                assert forall|q: int| 0 <= q < rest.len() implies {
                    let x = #[trigger] rest[q];
                    x < m0.n() && m0.rank[x as int] > lbr
                } by {
                    assert(rest[q] == row@[k + q]);
                    assert(row@[k + q] < m0.n() && m0.rank[row@[k + q] as int] > m0.rank[jj]);
                }
                assert(walk_list(m0, rest, lbr) == walk_one(m0, rest[0] as int) + walk_list(
                    m0,
                    rest.drop_first(),
                    lbr,
                ));
                lemma_tokens_of_concat(
                    walk_one(m0, r as int),
                    walk_list(m0, row@.skip(k + 1), lbr),
                );
                assert(out@ + tokens_of(walk_list(m0, row@.skip(k + 1), lbr)) =~= out_pre
                    + tokens_of(walk_list(m0, row@.skip(k as int), lbr)));
            }
            k = k + 1;
        }
        proof {
            assert(row@.skip(row@.len() as int) =~= Seq::<usize>::empty());
            assert(tokens_of(Seq::<usize>::empty()) =~= Seq::<Token>::empty());
            assert(out@ + Seq::<Token>::empty() =~= out@);
            lemma_targets_tokens_of(walk_list(m0, m0.receivers[jj], lbr));
        }
        bump_tokens(net, &out);
        out
    }

    /// Overwrite this signal's value. While the signal is suspended nothing
    /// else happens and no tokens are returned. Otherwise the whole
    /// transitive fan-out is armed, and the returned tokens (each direct
    /// receiver's first, followed by its downstream tokens) resolve the
    /// wave when released.
    pub fn send<T: Copy, P: Processor<T>, E: Effect<T> + Copy>(
        self,
        net: &mut Network<T, P, E>,
        value: T,
    ) -> (tokens: Vec<Token>)
        requires
            old(net)@.wf(),
            self@ < old(net)@.n(),
        ensures
            final(net)@.wf(),
            final(net)@ == old(net)@.send_spec(self@ as int, value).0,
            targets(tokens@) == old(net)@.send_spec(self@ as int, value).1,
            old(net)@.same_shape(final(net)@),
            final(net)@.values == old(net)@.values.update(self@ as int, value),
            final(net)@.effects == old(net)@.effects,
            final(net)@.suspended == old(net)@.suspended,
            forall|q: int|
                0 <= q < tokens@.len() ==> {
                    let t = (#[trigger] tokens@[q])@;
                    t < old(net)@.n() && old(net)@.rank[t as int] > old(net)@.rank[self@ as int]
                },
    {
        let ghost m0 = net@;
        let ghost jj = self@ as int;
        net.values[self.id] = value;
        proof {
            assert(net@ =~= m0.set_value(jj, value));
            crate::model::lemma_wf_shape(m0, net@);
        }
        if net.suspended[self.id] {
            let out: Vec<Token> = Vec::new();
            proof {
                assert(targets(out@) =~= Seq::<usize>::empty());
            }
            out
        } else {
            self.receiver_promise(net)
        }
    }

    /// Recompute this signal, which must own a processor: evaluate it over
    /// the live values of the dependencies, run the observer on the
    /// previous and the new value, then send the new value to itself,
    /// returning the tokens of that send.
    pub fn react<T: Copy, P: Processor<T>, E: Effect<T> + Copy>(
        self,
        net: &mut Network<T, P, E>,
    ) -> (tokens: Vec<Token>)
        requires
            old(net)@.wf(),
            self@ < old(net)@.n(),
            old(net)@.procs[self@ as int] is Some,
        ensures
            final(net)@.wf(),
            final(net)@ == old(net)@.react_spec(self@ as int).0,
            targets(tokens@) == old(net)@.react_spec(self@ as int).1,
            old(net)@.same_shape(final(net)@),
            final(net)@.suspended == old(net)@.suspended,
            forall|q: int|
                0 <= q < tokens@.len() ==> {
                    let t = (#[trigger] tokens@[q])@;
                    t < old(net)@.n() && old(net)@.rank[t as int] > old(net)@.rank[self@ as int]
                },
    {
        let ghost m0 = net@;
        let ghost jj = self@ as int;
        let mut inputs: Vec<T> = Vec::new();
        let nv: T;
        match &net.procs[self.id] {
            Some(pr) => {
                let ghost dd = pr.deps@;
                proof {
                    assert(m0.procs[jj] == Some(ProcModel { deps: dd, func: pr.func }));
                    assert(m0.deps_ok(jj));
                    assert(dd.take(0) =~= Seq::<usize>::empty());
                    assert(inputs@ =~= m0.dep_vals(dd.take(0)));
                }
                let mut k: usize = 0;
                while k < pr.deps.len()
                    invariant
                        net@ == m0,
                        m0.wf(),
                        m0.procs[jj] is Some,
                        dd == m0.procs[jj]->Some_0.deps,
                        dd == pr.deps@,
                        k <= dd.len(),
                        forall|q: int| 0 <= q < dd.len() ==> (#[trigger] dd[q]) < m0.n(),
                        inputs@ == m0.dep_vals(dd.take(k as int)),
                    decreases dd.len() - k,
                {
                    let d = pr.deps[k];
                    inputs.push(net.values[d]);
                    proof {
                        assert(inputs@ =~= m0.dep_vals(dd.take(k + 1)));
                    }
                    k = k + 1;
                }
                proof {
                    assert(dd.take(dd.len() as int) =~= dd);
                }
                nv = pr.func.compute(&inputs);
            },
            None => {
                proof {
                    assert(false);
                }
                nv = vstd::pervasive::unreached();
            },
        }
        let before = net.values[self.id];
        let eo: Option<E> = net.effects[self.id];
        match eo {
            Some(e) => {
                let mut e2 = e;
                e2.run(before, nv);
                net.effects[self.id] = Some(e2);
                proof {
                    assert(net@ =~= m0.step_effect(jj, before, nv));
                    crate::model::lemma_wf_shape(m0, net@);
                }
            },
            None => {
                proof {
                    assert(net@ =~= m0.step_effect(jj, before, nv));
                }
            },
        }
        let toks = self.send(net, nv);
        toks
    }
}

/// Resolve one notification of cell `j`: decrement its dirty counter and,
/// exactly when the counter returns to zero on a derived cell, recompute it
/// and resolve the notifications of its own send, in order.
#[verifier::loop_isolation(false)]
fn release_token<T: Copy, P: Processor<T>, E: Effect<T> + Copy>(
    net: &mut Network<T, P, E>,
    j: usize,
)
    requires
        old(net)@.wf(),
        j < old(net)@.n(),
    ensures
        final(net)@.wf(),
        old(net)@.same_shape(final(net)@),
        forall|f: nat|
            f >= old(net)@.n() - old(net)@.rank[j as int] ==> final(net)@ == rel_one(
                old(net)@,
                j as int,
                f,
            ),
    decreases net@.n() - net@.rank[j as int],
{
    let ghost m0 = net@;
    let ghost jj = j as int;
    let ghost rkj = m0.rank[jj] as int;
    proof {
        assert(m0.rank[jj] < m0.n());
    }
    let d = net.dirty[j];
    if d == 0 {
        proof {
            assert forall|f: nat| f >= m0.n() - rkj implies net@ == rel_one(m0, jj, f) by {
                assert(f >= 1);
                assert(rel_one(m0, jj, f) == m0);
            }
        }
        return ;
    }
    let nd = d - 1;
    net.dirty[j] = nd;
    let ghost m1 = net@;
    proof {
        assert(m1 =~= m0.set_dirty(jj, nd));
        crate::model::lemma_wf_shape(m0, m1);
    }
    if nd != 0 {
        proof {
            assert forall|f: nat| f >= m0.n() - rkj implies net@ == rel_one(m0, jj, f) by {
                assert(f >= 1);
                assert(rel_one(m0, jj, f) == m1);
            }
        }
        return ;
    }
    let no_proc = match &net.procs[j] {
        Some(_) => false,
        None => true,
    };
    if no_proc {
        proof {
            assert(m1.procs[jj] is None);
            assert forall|f: nat| f >= m0.n() - rkj implies net@ == rel_one(m0, jj, f) by {
                assert(f >= 1);
                assert(rel_one(m0, jj, f) == m1);
            }
        }
        return ;
    }
    let sig = Signal { id: j };
    let toks = sig.react(net);
    let ghost m2 = net@;
    let ghost tt = targets(toks@);
    let ghost bb: int = m0.n() - rkj - 1;
    proof {
        assert((m2, tt) == m1.react_spec(jj));
        assert(bb >= 0);
        assert(tt.skip(0) =~= tt);
    }
    let mut k: usize = 0;
    while k < toks.len()
        invariant
            net@.wf(),
            m0.same_shape(net@),
            tt == targets(toks@),
            k <= tt.len(),
            bb == m0.n() - rkj - 1,
            forall|q: int|
                0 <= q < tt.len() ==> (#[trigger] tt[q]) < m0.n() && m0.rank[tt[q] as int] > rkj,
            forall|f: nat|
                f >= bb ==> rel_list(m2, tt, f) == rel_list(net@, tt.skip(k as int), f),
        decreases tt.len() - k,
    {
        let tg = toks[k].target;
        proof {
            assert(tg == tt[k as int]);
            assert(tg < m0.n() && m0.rank[tg as int] > rkj);
            assert(net@.n() == m0.n() && net@.rank == m0.rank);
        }
        let ghost mp = net@;
        release_token(net, tg);
        proof {
            assert forall|f: nat|
                f >= bb implies rel_list(m2, tt, f) == rel_list(net@, tt.skip(k + 1), f) by {
                let rest = tt.skip(k as int);
                assert(rest[0] == tt[k as int]);
                assert(rest.drop_first() =~= tt.skip(k + 1));
                assert(f >= mp.n() - mp.rank[tg as int]);
                assert(net@ == rel_one(mp, tg as int, f));
                assert(rel_list(mp, rest, f) == rel_list(rel_one(mp, rest[0] as int, f), tt.skip(k + 1), f));
            }
        }
        k = k + 1;
    }
    proof {
        assert(tt.skip(tt.len() as int) =~= Seq::<usize>::empty());
        assert forall|f: nat| f >= m0.n() - rkj implies net@ == rel_one(m0, jj, f) by {
            assert(f >= 1);
            assert((f - 1) as nat >= bb);
            assert(rel_list(net@, tt.skip(tt.len() as int), (f - 1) as nat) == net@);
            assert(rel_list(m2, tt, (f - 1) as nat) == net@);
            assert(m0.dirty[jj] != 0);
            assert(m1 == m0.set_dirty(jj, (m0.dirty[jj] - 1) as usize));
            assert(m1.dirty[jj] == 0 && m1.procs[jj] is Some);
            assert(rel_one(m0, jj, f) == rel_list(m2, tt, (f - 1) as nat));
        }
    }
}

impl Token {
    /// Resolve this pending notification: the bound receiver's dirty
    /// counter goes down by one, and exactly when it thereby returns to
    /// zero on a derived signal, that signal recomputes and the
    /// notifications of its own send resolve in turn. Consumes the token,
    /// so a token resolves exactly once.
    pub fn release<T: Copy, P: Processor<T>, E: Effect<T> + Copy>(
        self,
        net: &mut Network<T, P, E>,
    )
        requires
            old(net)@.wf(),
        ensures
            final(net)@.wf(),
            final(net)@ == old(net)@.release_spec(self@ as int),
            old(net)@.same_shape(final(net)@),
    {
        let ghost m0 = net@;
        let tg = self.target;
        if tg >= net.values.len() {
            proof {
                assert(net@ == rel_one(m0, tg as int, m0.n() as nat));
            }
            return ;
        }
        release_token(net, tg);
        proof {
            assert(m0.rank[tg as int] >= 0);
            assert(m0.n() as nat >= m0.n() - m0.rank[tg as int]);
        }
    }
}

impl<T: Copy, P: Processor<T>, E: Effect<T> + Copy> Network<T, P, E> {
    /// Release a batch of tokens in order, e.g. everything one `send`
    /// returned: resolves the whole wave.
    pub fn release_all(&mut self, tokens: Vec<Token>)
        requires
            old(self)@.wf(),
        ensures
            final(self)@.wf(),
            final(self)@ == old(self)@.release_all_spec(targets(tokens@)),
            old(self)@.same_shape(final(self)@),
    {
        let ghost m0 = self@;
        let ghost full = targets(tokens@);
        let mut toks = tokens;
        while toks.len() > 0
            invariant
                self@.wf(),
                m0.same_shape(self@),
                rel_list(m0, full, m0.n() as nat) == rel_list(
                    self@,
                    targets(toks@),
                    m0.n() as nat,
                ),
            decreases toks@.len(),
        {
            let ghost mp = self@;
            let ghost rest = targets(toks@);
            let t = toks.remove(0);
            proof {
                assert(t@ == rest[0]);
                assert(targets(toks@) =~= rest.drop_first());
            }
            t.release(self);
            proof {
                assert(self@ == rel_one(mp, rest[0] as int, mp.n() as nat));
                assert(mp.n() == m0.n());
                assert(rel_list(mp, rest, m0.n() as nat) == rel_list(
                    rel_one(mp, rest[0] as int, m0.n() as nat),
                    rest.drop_first(),
                    m0.n() as nat,
                ));
            }
        }
        proof {
            assert(targets(toks@) =~= Seq::<usize>::empty());
            assert(rel_list(self@, targets(toks@), m0.n() as nat) == self@);
        }
    }
}

} // verus!
