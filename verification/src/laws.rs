//! Laws of the propagation protocol, proved over the model in
//! [`crate::model`]. The executable operations in [`crate::engine`] are each
//! proved equal to the model functions these laws speak about, so the laws
//! carry over to the running code.

use vstd::prelude::*;

use crate::model::{rel_list, rel_one, walk_list, walk_one, NetModel, ProcModel};
use crate::{Effect, Processor};

verus! {

/// A freshly created independent signal holds the value it was given, and
/// starts with no pending notifications, not suspended.
pub proof fn lemma_new_get<T, P, E>(m: NetModel<T, P, E>, v: T)
    requires
        m.wf(),
    ensures
        m.new_spec(v).values[m.n()] == v,
        m.new_spec(v).dirty[m.n()] == 0,
        !m.new_spec(v).suspended[m.n()],
{
}

/// Right after `driven` returns, and before any send, the derived signal's
/// value is one evaluation of its processor over the then-current values of
/// its dependencies; its observer has not run.
pub proof fn lemma_driven_initial<T, P: Processor<T>, E: Effect<T>>(
    m: NetModel<T, P, E>,
    deps: Seq<usize>,
    func: P,
    effect: E,
)
    requires
        m.wf(),
    ensures
        m.driven_spec(deps, func, effect).values[m.n()] == func.apply(m.dep_vals(deps)),
        m.driven_spec(deps, func, effect).effects[m.n()] == Some(effect),
        m.driven_spec(deps, func, effect).dirty[m.n()] == 0,
{
}

/// Releasing a token bound to cell `j` decrements its dirty counter by
/// exactly one, and nothing more happens unless the counter thereby reaches
/// zero; a stray token on a cell without pending notifications changes
/// nothing, so the counter never becomes negative.
pub proof fn lemma_release_decrements<T, P: Processor<T>, E: Effect<T>>(
    m: NetModel<T, P, E>,
    j: int,
)
    requires
        m.wf(),
        m.in_range(j),
    ensures
        m.dirty[j] > 1 ==> m.release_spec(j) == m.set_dirty(j, (m.dirty[j] - 1) as usize),
        m.dirty[j] == 1 && m.procs[j] is None ==> m.release_spec(j) == m.set_dirty(j, 0),
        m.dirty[j] == 0 ==> m.release_spec(j) == m,
{
    assert(m.n() >= 1);
}

/// How often `j` occurs in `toks`.
pub open spec fn occurrences(toks: Seq<usize>, j: usize) -> nat
    decreases toks.len(),
{
    if toks.len() == 0 {
        0
    } else {
        occurrences(toks.drop_first(), j) + (if toks[0] == j {
            1nat
        } else {
            0nat
        })
    }
}

/// Arming a wave accounts exactly: every cell's dirty counter grows by the
/// number of tokens bound to it (short of the machine limit, where the
/// counter saturates), and nothing else changes. Together with
/// `lemma_release_decrements` this keeps each dirty counter equal to the
/// number of unreleased tokens bound to its cell.
pub proof fn lemma_bump_counts<T, P, E>(m: NetModel<T, P, E>, toks: Seq<usize>, j: usize)
    requires
        m.wf(),
        (j as int) < m.n(),
        forall|q: int| 0 <= q < toks.len() ==> (#[trigger] toks[q]) < m.n(),
        m.dirty[j as int] + occurrences(toks, j) < usize::MAX,
    ensures
        m.bump(toks).dirty[j as int] == m.dirty[j as int] + occurrences(toks, j),
        m.bump(toks).values == m.values,
        m.bump(toks).effects == m.effects,
        m.same_shape(m.bump(toks)),
    decreases toks.len(),
{
    if toks.len() > 0 {
        let m1 = m.bump_one(toks[0]);
        crate::model::lemma_wf_shape(m, m1);
        assert(forall|q: int|
            0 <= q < toks.drop_first().len() ==> (#[trigger] toks.drop_first()[q]) < m1.n());
        lemma_bump_counts(m1, toks.drop_first(), j);
    }
}

/// Suspension: a send to a suspended signal overwrites the value and does
/// nothing else — no token is produced, no dirty counter moves, no observer
/// runs. After resuming, the network is exactly the one in which the
/// suspended send had only written the value, so later sends propagate
/// normally and the missed notifications are never replayed.
pub proof fn lemma_suspension<T, P: Processor<T>, E: Effect<T>>(m: NetModel<T, P, E>, i: int, v: T)
    requires
        m.wf(),
        m.in_range(i),
        !m.suspended[i],
    ensures
        ({
            let gated = m.set_suspended(i, true);
            let (m1, toks) = gated.send_spec(i, v);
            let resumed = m1.set_suspended(i, false);
            &&& m1.values == m.values.update(i, v)
            &&& toks == Seq::<usize>::empty()
            &&& m1.dirty == m.dirty
            &&& m1.effects == m.effects
            &&& resumed == m.set_value(i, v)
        }),
{
    let gated = m.set_suspended(i, true);
    let (m1, toks) = gated.send_spec(i, v);
    let resumed = m1.set_suspended(i, false);
    assert(resumed.suspended =~= m.suspended);
    assert(resumed =~= m.set_value(i, v));
}


proof fn lemma_walk_nil<T, P: Processor<T>, E: Effect<T>>(m: NetModel<T, P, E>, lbr: usize)
    requires
        m.wf(),
        (lbr as int) < m.n(),
    ensures
        walk_list(m, Seq::<usize>::empty(), lbr) == Seq::<usize>::empty(),
{
}

proof fn lemma_walk_list1<T, P: Processor<T>, E: Effect<T>>(
    m: NetModel<T, P, E>,
    a: usize,
    lbr: usize,
)
    requires
        m.wf(),
        (lbr as int) < m.n(),
        (a as int) < m.n(),
        m.rank[a as int] > lbr,
    ensures
        walk_list(m, seq![a], lbr) == walk_one(m, a as int),
{
    let rs = seq![a];
    assert forall|k: int| 0 <= k < rs.len() implies {
        let r = #[trigger] rs[k];
        r < m.n() && m.rank[r as int] > lbr
    } by {
        assert(rs[k] == a);
    }
    assert(rs.drop_first() =~= Seq::<usize>::empty());
    lemma_walk_nil(m, lbr);
    assert(walk_list(m, rs, lbr) == walk_one(m, a as int) + Seq::<usize>::empty());
    assert(walk_one(m, a as int) + Seq::<usize>::empty() =~= walk_one(m, a as int));
}

proof fn lemma_walk_list2<T, P: Processor<T>, E: Effect<T>>(
    m: NetModel<T, P, E>,
    a: usize,
    b: usize,
    lbr: usize,
)
    requires
        m.wf(),
        (lbr as int) < m.n(),
        (a as int) < m.n(),
        (b as int) < m.n(),
        m.rank[a as int] > lbr,
        m.rank[b as int] > lbr,
    ensures
        walk_list(m, seq![a, b], lbr) == walk_one(m, a as int) + walk_one(m, b as int),
{
    let rs = seq![a, b];
    assert forall|k: int| 0 <= k < rs.len() implies {
        let r = #[trigger] rs[k];
        r < m.n() && m.rank[r as int] > lbr
    } by {
        assert(k == 0 || k == 1);
    }
    assert(rs.drop_first() =~= seq![b]);
    lemma_walk_list1(m, b, lbr);
    assert(walk_list(m, rs, lbr) == walk_one(m, a as int) + walk_one(m, b as int));
}

/// The network of the diamond: an independent signal `A` (id 0), derived
/// signals `B = pb(A)` (id 1) and `C = pc(A)` (id 2), and `D = pd(B, C)`
/// (id 3); `A` notifies `B` and `C`, both of which notify `D`.
pub open spec fn diamond<T, P: Processor<T>, E: Effect<T>>(
    va: T,
    vb: T,
    vc: T,
    vd: T,
    pb: P,
    pc: P,
    pd: P,
    eb: E,
    ec: E,
    ed: E,
) -> NetModel<T, P, E> {
    NetModel {
        values: seq![va, vb, vc, vd],
        procs: seq![
            None,
            Some(ProcModel { deps: seq![0usize], func: pb }),
            Some(ProcModel { deps: seq![0usize], func: pc }),
            Some(ProcModel { deps: seq![1usize, 2usize], func: pd }),
        ],
        effects: seq![None, Some(eb), Some(ec), Some(ed)],
        receivers: seq![seq![1usize, 2usize], seq![3usize], seq![3usize], Seq::<usize>::empty()],
        dirty: seq![0usize, 0usize, 0usize, 0usize],
        suspended: seq![false, false, false, false],
        rank: seq![0usize, 1usize, 1usize, 2usize],
    }
}

pub proof fn lemma_diamond_wf<T, P: Processor<T>, E: Effect<T>>(
    va: T,
    vb: T,
    vc: T,
    vd: T,
    pb: P,
    pc: P,
    pd: P,
    eb: E,
    ec: E,
    ed: E,
)
    ensures
        diamond(va, vb, vc, vd, pb, pc, pd, eb, ec, ed).wf(),
{
    let m = diamond(va, vb, vc, vd, pb, pc, pd, eb, ec, ed);
    assert forall|i: int| 0 <= i < m.n() implies #[trigger] m.edges_ok(i) by {
        assert(m.receivers[0] == seq![1usize, 2usize]);
        assert(m.receivers[1] == seq![3usize]);
        assert(m.receivers[2] == seq![3usize]);
        assert(m.receivers[3] == Seq::<usize>::empty());
    }
    assert forall|i: int| 0 <= i < m.n() implies #[trigger] m.deps_ok(i) by {
        if i == 1 || i == 2 {
            assert(m.procs[i]->Some_0.deps == seq![0usize]);
        }
        if i == 3 {
            assert(m.procs[i]->Some_0.deps == seq![1usize, 2usize]);
        }
    }
}

/// Glitch-freedom on the diamond. One send of `x` on `A` arms the whole
/// fan-out first — the returned tokens are `[B, D, C, D]`, so `D`'s counter
/// reaches two before anything resolves — and releasing the batch leaves:
/// `B` and `C` recomputed from the updated `A`, and `D` recomputed *exactly
/// once* (its observer steps a single time), from the already-updated `B`
/// and `C`, never from a partial combination. All counters return to zero.
pub proof fn lemma_diamond<T, P: Processor<T>, E: Effect<T>>(
    va: T,
    vb: T,
    vc: T,
    vd: T,
    pb: P,
    pc: P,
    pd: P,
    eb: E,
    ec: E,
    ed: E,
    x: T,
)
    ensures
        ({
            let m0 = diamond(va, vb, vc, vd, pb, pc, pd, eb, ec, ed);
            let (m1, toks) = m0.send_spec(0, x);
            let mend = m1.release_all_spec(toks);
            let fb = pb.apply(seq![x]);
            let fc = pc.apply(seq![x]);
            let fd = pd.apply(seq![fb, fc]);
            &&& toks == seq![1usize, 3usize, 2usize, 3usize]
            &&& mend.values == seq![x, fb, fc, fd]
            &&& mend.effects[1] == Some(eb.step(vb, fb))
            &&& mend.effects[2] == Some(ec.step(vc, fc))
            &&& mend.effects[3] == Some(ed.step(vd, fd))
            &&& mend.dirty == seq![0usize, 0usize, 0usize, 0usize]
        }),
{
    let m0 = diamond(va, vb, vc, vd, pb, pc, pd, eb, ec, ed);
    lemma_diamond_wf(va, vb, vc, vd, pb, pc, pd, eb, ec, ed);
    let fb = pb.apply(seq![x]);
    let fc = pc.apply(seq![x]);
    let fd = pd.apply(seq![fb, fc]);

    // Arming: the walk below A lists B, D, C, D.
    let ma = m0.set_value(0, x);
    crate::model::lemma_wf_shape(m0, ma);
    lemma_walk_nil(ma, 2);
    assert(walk_one(ma, 3) =~= seq![3usize]);
    lemma_walk_list1(ma, 3, 1);
    assert(walk_one(ma, 1) =~= seq![1usize, 3usize]);
    assert(walk_one(ma, 2) =~= seq![2usize, 3usize]);
    lemma_walk_list2(ma, 1, 2, 0);
    assert(walk_list(ma, seq![1usize, 2usize], 0) =~= seq![1usize, 3usize, 2usize, 3usize]);

    let toks = seq![1usize, 3usize, 2usize, 3usize];
    assert(m0.send_spec(0, x).1 =~= toks);
    let m2 = ma.bump(toks);
    assert(m0.send_spec(0, x).0 == m2);
    assert(toks.drop_first() =~= seq![3usize, 2usize, 3usize]);
    assert(seq![3usize, 2usize, 3usize].drop_first() =~= seq![2usize, 3usize]);
    assert(seq![2usize, 3usize].drop_first() =~= seq![3usize]);
    assert(seq![3usize].drop_first() =~= Seq::<usize>::empty());
    let b1 = ma.bump_one(1usize);
    let b2 = b1.bump_one(3usize);
    let b3 = b2.bump_one(2usize);
    let b4 = b3.bump_one(3usize);
    assert(ma.bump(toks) == b1.bump(seq![3usize, 2usize, 3usize]));
    assert(b1.bump(seq![3usize, 2usize, 3usize]) == b2.bump(seq![2usize, 3usize]));
    assert(b2.bump(seq![2usize, 3usize]) == b3.bump(seq![3usize]));
    assert(b3.bump(seq![3usize]) == b4.bump(Seq::<usize>::empty()));
    assert(b4.bump(Seq::<usize>::empty()) == b4);
    assert(m2.dirty =~= seq![0usize, 1usize, 1usize, 2usize]);
    assert(ma.values =~= seq![x, vb, vc, vd]);
    assert(m2.values == seq![x, vb, vc, vd]);
    crate::model::lemma_wf_shape(m0, m2);

    // Resolution, token by token. Fuel is the cell count, 4.
    assert(m2.n() == 4);

    // Token B: dirty(B) 1 -> 0, B recomputes from the updated A.
    let mb = rel_one(m2, 1, 4);
    assert(mb == {
        let m3 = m2.set_dirty(1, 0);
        let (m4, t4) = m3.react_spec(1);
        rel_list(m4, t4, 3)
    });
    let m3 = m2.set_dirty(1, 0);
    assert(m3.dep_vals(seq![0usize]) =~= seq![x]);
    let m4 = m3.step_effect(1, vb, fb).set_value(1, fb);
    crate::model::lemma_wf_shape(m0, m4);
    lemma_walk_nil(m4, 2);
    assert(walk_one(m4, 3) =~= seq![3usize]);
    lemma_walk_list1(m4, 3, 1);
    assert(walk_list(m4, seq![3usize], 1) =~= seq![3usize]);
    assert(m3.react_spec(1).0 == m4.bump(seq![3usize]));
    assert(m3.react_spec(1).1 == seq![3usize]);
    let m5 = m4.bump(seq![3usize]);
    assert(seq![3usize].drop_first() =~= Seq::<usize>::empty());
    assert(m5 == m4.bump_one(3usize).bump(Seq::<usize>::empty()));
    assert(m5 == m4.bump_one(3usize));
    assert(m5.dirty =~= seq![0usize, 0usize, 1usize, 3usize]);
    // B's send pre-arms D once more; that token resolves at once: 3 -> 2.
    assert(rel_list(m5, seq![3usize], 3) == rel_list(rel_one(m5, 3, 3), Seq::<usize>::empty(), 3));
    assert(rel_list(rel_one(m5, 3, 3), Seq::<usize>::empty(), 3) == rel_one(m5, 3, 3));
    assert(rel_one(m5, 3, 3) == m5.set_dirty(3, 2));
    assert(mb == m5.set_dirty(3, 2));
    assert(mb.dirty =~= seq![0usize, 0usize, 1usize, 2usize]);
    assert(mb.values =~= seq![x, fb, vc, vd]);
    assert(mb.effects =~= seq![None, Some(eb.step(vb, fb)), Some(ec), Some(ed)]);

    // Token D (first of two): dirty(D) 2 -> 1, no recomputation.
    let md1 = rel_one(mb, 3, 4);
    assert(md1 == mb.set_dirty(3, 1));

    // Token C: dirty(C) 1 -> 0, C recomputes from the updated A.
    crate::model::lemma_wf_shape(m0, md1);
    let mc = rel_one(md1, 2, 4);
    let m6 = md1.set_dirty(2, 0);
    assert(m6.dep_vals(seq![0usize]) =~= seq![x]);
    let m7 = m6.step_effect(2, vc, fc).set_value(2, fc);
    crate::model::lemma_wf_shape(m0, m7);
    lemma_walk_nil(m7, 2);
    assert(walk_one(m7, 3) =~= seq![3usize]);
    lemma_walk_list1(m7, 3, 1);
    assert(walk_list(m7, seq![3usize], 1) =~= seq![3usize]);
    assert(m6.react_spec(2).0 == m7.bump(seq![3usize]));
    assert(m6.react_spec(2).1 == seq![3usize]);
    let m8 = m7.bump(seq![3usize]);
    assert(seq![3usize].drop_first() =~= Seq::<usize>::empty());
    assert(m8 == m7.bump_one(3usize).bump(Seq::<usize>::empty()));
    assert(m8 == m7.bump_one(3usize));
    assert(m8.dirty =~= seq![0usize, 0usize, 0usize, 2usize]);
    assert(rel_list(m8, seq![3usize], 3) == rel_list(rel_one(m8, 3, 3), Seq::<usize>::empty(), 3));
    assert(rel_list(rel_one(m8, 3, 3), Seq::<usize>::empty(), 3) == rel_one(m8, 3, 3));
    assert(rel_one(m8, 3, 3) == m8.set_dirty(3, 1));
    assert(mc == m8.set_dirty(3, 1));
    assert(mc.dirty =~= seq![0usize, 0usize, 0usize, 1usize]);
    assert(mc.values =~= seq![x, fb, fc, vd]);
    assert(mc.effects =~= seq![None, Some(eb.step(vb, fb)), Some(ec.step(vc, fc)), Some(ed)]);

    // Token D (second): dirty(D) 1 -> 0. Only now, with B and C both
    // updated, D recomputes — once.
    crate::model::lemma_wf_shape(m0, mc);
    let md = rel_one(mc, 3, 4);
    let m9 = mc.set_dirty(3, 0);
    assert(m9.dep_vals(seq![1usize, 2usize]) =~= seq![fb, fc]);
    let m10 = m9.step_effect(3, vd, fd).set_value(3, fd);
    crate::model::lemma_wf_shape(m0, m10);
    lemma_walk_nil(m10, 2);
    assert(m9.react_spec(3).0 == m10.bump(Seq::<usize>::empty()));
    assert(m10.bump(Seq::<usize>::empty()) == m10);
    assert(m9.react_spec(3).1 =~= Seq::<usize>::empty());
    assert(rel_list(m10, Seq::<usize>::empty(), 3) == m10);
    assert(md == m10);
    assert(md.values =~= seq![x, fb, fc, fd]);
    assert(md.dirty =~= seq![0usize, 0usize, 0usize, 0usize]);
    assert(md.effects =~= seq![
        None,
        Some(eb.step(vb, fb)),
        Some(ec.step(vc, fc)),
        Some(ed.step(vd, fd)),
    ]);

    // The batch release resolves the four tokens in exactly this order.
    assert(rel_list(m2, toks, 4) == rel_list(mb, toks.drop_first(), 4));
    assert(rel_list(mb, seq![3usize, 2usize, 3usize], 4) == rel_list(md1, seq![2usize, 3usize], 4));
    assert(seq![2usize, 3usize].drop_first() =~= seq![3usize]);
    assert(rel_list(md1, seq![2usize, 3usize], 4) == rel_list(mc, seq![3usize], 4));
    assert(rel_list(mc, seq![3usize], 4) == rel_list(md, Seq::<usize>::empty(), 4));
    assert(m2.release_all_spec(toks) == md);
}

/// The network of the chain: an independent signal `X` (id 0), a derived
/// `Y = py(X)` (id 1) notified by `X`, and a derived `Z = pz(Y)` (id 2)
/// notified by `Y`.
pub open spec fn chain<T, P: Processor<T>, E: Effect<T>>(
    vx: T,
    vy: T,
    vz: T,
    py: P,
    pz: P,
    ey: E,
    ez: E,
) -> NetModel<T, P, E> {
    NetModel {
        values: seq![vx, vy, vz],
        procs: seq![
            None,
            Some(ProcModel { deps: seq![0usize], func: py }),
            Some(ProcModel { deps: seq![1usize], func: pz }),
        ],
        effects: seq![None, Some(ey), Some(ez)],
        receivers: seq![seq![1usize], seq![2usize], Seq::<usize>::empty()],
        dirty: seq![0usize, 0usize, 0usize],
        suspended: seq![false, false, false],
        rank: seq![0usize, 1usize, 2usize],
    }
}

pub proof fn lemma_chain_wf<T, P: Processor<T>, E: Effect<T>>(
    vx: T,
    vy: T,
    vz: T,
    py: P,
    pz: P,
    ey: E,
    ez: E,
)
    ensures
        chain(vx, vy, vz, py, pz, ey, ez).wf(),
{
    let m = chain(vx, vy, vz, py, pz, ey, ez);
    assert forall|i: int| 0 <= i < m.n() implies #[trigger] m.edges_ok(i) by {
        assert(m.receivers[0] == seq![1usize]);
        assert(m.receivers[1] == seq![2usize]);
        assert(m.receivers[2] == Seq::<usize>::empty());
    }
    assert forall|i: int| 0 <= i < m.n() implies #[trigger] m.deps_ok(i) by {
        if i == 1 {
            assert(m.procs[i]->Some_0.deps == seq![0usize]);
        }
        if i == 2 {
            assert(m.procs[i]->Some_0.deps == seq![1usize]);
        }
    }
}

/// Exactly-once down a chain. One send of `x` on `X` arms both `Y` and `Z`
/// before anything resolves (tokens `[Y, Z]`). Resolving `Y`'s token
/// recomputes `Y` and re-arms `Z` — whose counter is then two, so the token
/// of that inner send resolves without recomputing. Only `Z`'s own wave
/// token, arriving last, brings the counter to zero: `Z` recomputes exactly
/// once, from the already-updated `Y`.
pub proof fn lemma_chain<T, P: Processor<T>, E: Effect<T>>(
    vx: T,
    vy: T,
    vz: T,
    py: P,
    pz: P,
    ey: E,
    ez: E,
    x: T,
)
    ensures
        ({
            let m0 = chain(vx, vy, vz, py, pz, ey, ez);
            let (m1, toks) = m0.send_spec(0, x);
            let mend = m1.release_all_spec(toks);
            let fy = py.apply(seq![x]);
            let fz = pz.apply(seq![fy]);
            &&& toks == seq![1usize, 2usize]
            &&& mend.values == seq![x, fy, fz]
            &&& mend.effects[1] == Some(ey.step(vy, fy))
            &&& mend.effects[2] == Some(ez.step(vz, fz))
            &&& mend.dirty == seq![0usize, 0usize, 0usize]
        }),
{
    let m0 = chain(vx, vy, vz, py, pz, ey, ez);
    lemma_chain_wf(vx, vy, vz, py, pz, ey, ez);
    let fy = py.apply(seq![x]);
    let fz = pz.apply(seq![fy]);

    // Arming: the walk below X lists Y, then Z.
    let ma = m0.set_value(0, x);
    crate::model::lemma_wf_shape(m0, ma);
    lemma_walk_nil(ma, 2);
    assert(walk_one(ma, 2) =~= seq![2usize]);
    lemma_walk_list1(ma, 2, 1);
    assert(walk_one(ma, 1) =~= seq![1usize, 2usize]);
    lemma_walk_list1(ma, 1, 0);
    assert(walk_list(ma, seq![1usize], 0) =~= seq![1usize, 2usize]);

    let toks = seq![1usize, 2usize];
    assert(m0.send_spec(0, x).1 =~= toks);
    let m2 = ma.bump(toks);
    assert(m0.send_spec(0, x).0 == m2);
    assert(toks.drop_first() =~= seq![2usize]);
    assert(seq![2usize].drop_first() =~= Seq::<usize>::empty());
    assert(ma.bump(toks) == ma.bump_one(1usize).bump(seq![2usize]));
    assert(ma.bump(seq![2usize]) == ma.bump_one(2usize).bump(Seq::<usize>::empty()));
    let b1 = ma.bump_one(1usize);
    assert(b1.bump(seq![2usize]) == b1.bump_one(2usize).bump(Seq::<usize>::empty()));
    assert(b1.bump_one(2usize).bump(Seq::<usize>::empty()) == b1.bump_one(2usize));
    assert(m2 == b1.bump_one(2usize));
    assert(m2.dirty =~= seq![0usize, 1usize, 1usize]);
    assert(m2.values =~= seq![x, vy, vz]);
    crate::model::lemma_wf_shape(m0, m2);
    assert(m2.n() == 3);

    // Token Y: dirty(Y) 1 -> 0; Y recomputes and its own send re-arms Z.
    let my = rel_one(m2, 1, 3);
    let m3 = m2.set_dirty(1, 0);
    assert(m3.dep_vals(seq![0usize]) =~= seq![x]);
    let m4 = m3.step_effect(1, vy, fy).set_value(1, fy);
    crate::model::lemma_wf_shape(m0, m4);
    lemma_walk_nil(m4, 2);
    assert(walk_one(m4, 2) =~= seq![2usize]);
    lemma_walk_list1(m4, 2, 1);
    assert(m3.react_spec(1).0 == m4.bump(seq![2usize]));
    assert(m3.react_spec(1).1 == seq![2usize]);
    let m5 = m4.bump(seq![2usize]);
    assert(m5 == m4.bump_one(2usize).bump(Seq::<usize>::empty()));
    assert(m5 == m4.bump_one(2usize));
    assert(m5.dirty =~= seq![0usize, 0usize, 2usize]);
    // The inner token resolves at once: 2 -> 1, no recomputation of Z yet.
    assert(rel_list(m5, seq![2usize], 2) == rel_list(rel_one(m5, 2, 2), Seq::<usize>::empty(), 2));
    assert(rel_list(rel_one(m5, 2, 2), Seq::<usize>::empty(), 2) == rel_one(m5, 2, 2));
    assert(rel_one(m5, 2, 2) == m5.set_dirty(2, 1));
    assert(my == m5.set_dirty(2, 1));
    assert(my.dirty =~= seq![0usize, 0usize, 1usize]);
    assert(my.values =~= seq![x, fy, vz]);
    assert(my.effects =~= seq![None, Some(ey.step(vy, fy)), Some(ez)]);

    // Token Z: dirty(Z) 1 -> 0; only now Z recomputes, reading the new Y.
    crate::model::lemma_wf_shape(m0, my);
    let mz = rel_one(my, 2, 3);
    let m6 = my.set_dirty(2, 0);
    assert(m6.dep_vals(seq![1usize]) =~= seq![fy]);
    let m7 = m6.step_effect(2, vz, fz).set_value(2, fz);
    crate::model::lemma_wf_shape(m0, m7);
    lemma_walk_nil(m7, 2);
    assert(m6.react_spec(2).0 == m7.bump(Seq::<usize>::empty()));
    assert(m7.bump(Seq::<usize>::empty()) == m7);
    assert(m6.react_spec(2).1 =~= Seq::<usize>::empty());
    assert(rel_list(m7, Seq::<usize>::empty(), 2) == m7);
    assert(mz == m7);
    assert(mz.values =~= seq![x, fy, fz]);
    assert(mz.dirty =~= seq![0usize, 0usize, 0usize]);
    assert(mz.effects =~= seq![None, Some(ey.step(vy, fy)), Some(ez.step(vz, fz))]);

    // The batch resolves the two tokens in this order.
    assert(rel_list(m2, toks, 3) == rel_list(my, seq![2usize], 3));
    assert(rel_list(my, seq![2usize], 3) == rel_list(mz, Seq::<usize>::empty(), 3));
    assert(m2.release_all_spec(toks) == mz);
}

} // verus!
