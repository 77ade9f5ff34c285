use reactivity::procs::{Arith, Silent, Trace};
use reactivity::{Network, Signal};

fn fresh() -> Network<u64, Arith, Trace> {
    Network::new()
}

#[test]
fn new_get_returns_value() {
    let mut net = fresh();
    let x = Signal::new(&mut net, 41);
    assert_eq!(x.get(&net), 41);
    assert_eq!(*x.borrow(&net), 41);
    assert_eq!(x.dirty(&net), 0);
    assert_eq!(net.len(), 1);
}

#[test]
fn driven_seeds_value_without_effect() {
    let mut net = fresh();
    let x = Signal::new(&mut net, 7);
    let y = Signal::driven(&mut net, &vec![x], Arith::Scale(2), Trace::empty());
    // The processor ran once to seed the value ...
    assert_eq!(y.get(&net), 14);
    // ... but the effect is only run on later recomputations.
    assert_eq!(y.effect(&net).unwrap().fired, 0);
    assert!(x.effect(&net).is_none());
}

#[test]
fn scenario_double() {
    // x = new(1); y = driven(|| x.get() * 2); x.add_receiver(y); x.send(5)
    let mut net = fresh();
    let x = Signal::new(&mut net, 1);
    let y = Signal::driven(&mut net, &vec![x], Arith::Scale(2), Trace::empty());
    x.add_receiver(&mut net, y);
    let tokens = x.send(&mut net, 5);
    net.release_all(tokens);
    assert_eq!(y.get(&net), 10);
    assert_eq!(x.get(&net), 5);
    assert_eq!(y.effect(&net).unwrap().fired, 1);
    assert_eq!(y.effect(&net).unwrap().before, 2);
    assert_eq!(y.effect(&net).unwrap().after, 10);
}

#[test]
fn scenario_sum_two_sources() {
    // a = new(1); b = new(2); sum = driven(|| a.get() + b.get())
    let mut net = fresh();
    let a = Signal::new(&mut net, 1);
    let b = Signal::new(&mut net, 2);
    let sum = Signal::driven(&mut net, &vec![a, b], Arith::Sum, Trace::empty());
    a.add_receiver(&mut net, sum);
    b.add_receiver(&mut net, sum);
    assert_eq!(sum.get(&net), 3);
    let tokens = a.send(&mut net, 10);
    net.release_all(tokens);
    assert_eq!(sum.get(&net), 12);
    let tokens = b.send(&mut net, 20);
    net.release_all(tokens);
    assert_eq!(sum.get(&net), 30);
    assert_eq!(sum.effect(&net).unwrap().fired, 2);
}

#[test]
fn scenario_diamond_recomputes_once() {
    // x = 1; d = x * 2; t = x * 3; s = d + t; then x.send(2).
    let mut net = fresh();
    let x = Signal::new(&mut net, 1);
    let d = Signal::driven(&mut net, &vec![x], Arith::Scale(2), Trace::empty());
    let t = Signal::driven(&mut net, &vec![x], Arith::Scale(3), Trace::empty());
    let s = Signal::driven(&mut net, &vec![d, t], Arith::Sum, Trace::empty());
    x.add_receiver(&mut net, d);
    x.add_receiver(&mut net, t);
    d.add_receiver(&mut net, s);
    t.add_receiver(&mut net, s);
    assert_eq!(s.get(&net), 5);
    let tokens = x.send(&mut net, 2);
    // The whole fan-out is armed before anything resolves: one pending
    // notification per update path, two of them for s.
    assert_eq!(d.dirty(&net), 1);
    assert_eq!(t.dirty(&net), 1);
    assert_eq!(s.dirty(&net), 2);
    net.release_all(tokens);
    // Glitch-free: s is 10, not 3 (stale d and t) nor 9 (t recomputed, d
    // stale), and its effect ran exactly once for this send.
    assert_eq!(s.get(&net), 10);
    assert_eq!(s.effect(&net).unwrap().fired, 1);
    assert_eq!(s.effect(&net).unwrap().before, 5);
    assert_eq!(s.effect(&net).unwrap().after, 10);
    assert_eq!(d.get(&net), 4);
    assert_eq!(t.get(&net), 6);
    assert_eq!(d.dirty(&net), 0);
    assert_eq!(t.dirty(&net), 0);
    assert_eq!(s.dirty(&net), 0);
}

#[test]
fn suspension_gates_fanout_and_drops_missed_sends() {
    let mut net = fresh();
    let x = Signal::new(&mut net, 1);
    let y = Signal::driven(&mut net, &vec![x], Arith::Scale(2), Trace::empty());
    x.add_receiver(&mut net, y);
    x.suspend(&mut net);
    let tokens = x.send(&mut net, 5);
    // The value is overwritten, but nothing was armed and no effect ran.
    assert_eq!(tokens.len(), 0);
    net.release_all(tokens);
    assert_eq!(x.get(&net), 5);
    assert_eq!(y.get(&net), 2);
    assert_eq!(y.dirty(&net), 0);
    assert_eq!(y.effect(&net).unwrap().fired, 0);
    x.resume(&mut net);
    // The missed send is not replayed ...
    assert_eq!(y.get(&net), 2);
    // ... and the next send propagates normally.
    let tokens = x.send(&mut net, 7);
    assert_eq!(tokens.len(), 1);
    net.release_all(tokens);
    assert_eq!(y.get(&net), 14);
    assert_eq!(y.effect(&net).unwrap().fired, 1);
}

#[test]
fn token_release_decrements_exactly_once() {
    let mut net = fresh();
    let x = Signal::new(&mut net, 1);
    let y = Signal::driven(&mut net, &vec![x], Arith::Scale(2), Trace::empty());
    x.add_receiver(&mut net, y);
    let mut tokens = x.send(&mut net, 3);
    assert_eq!(tokens.len(), 1);
    assert_eq!(y.dirty(&net), 1);
    // Before the token resolves, y still holds the stale value.
    assert_eq!(y.get(&net), 2);
    let tok = tokens.remove(0);
    tok.release(&mut net);
    // Exactly one decrement: 1 -> 0, which triggers the recomputation.
    assert_eq!(y.dirty(&net), 0);
    assert_eq!(y.get(&net), 6);
    assert_eq!(y.effect(&net).unwrap().fired, 1);
    // A second wave counts from zero again; the counter never goes below 0.
    let tokens = x.send(&mut net, 4);
    assert_eq!(y.dirty(&net), 1);
    net.release_all(tokens);
    assert_eq!(y.dirty(&net), 0);
    assert_eq!(y.effect(&net).unwrap().fired, 2);
}

#[test]
fn promise_arms_and_react_recomputes() {
    let mut net = fresh();
    let x = Signal::new(&mut net, 4);
    let y = Signal::driven(&mut net, &vec![x], Arith::Scale(5), Trace::empty());
    x.add_receiver(&mut net, y);
    // promise() arms one notification of y and pre-walks its (empty)
    // fan-out.
    let tokens = y.promise(&mut net);
    assert_eq!(tokens.len(), 1);
    assert_eq!(y.dirty(&net), 1);
    net.release_all(tokens);
    // Resolving it recomputed y from the live value of x.
    assert_eq!(y.get(&net), 20);
    // react() recomputes unconditionally and returns the tokens of the
    // send to itself.
    let x_tokens = x.send(&mut net, 6);
    net.release_all(x_tokens);
    assert_eq!(y.get(&net), 30);
    let tokens = y.react(&mut net);
    assert_eq!(tokens.len(), 0);
    net.release_all(tokens);
    assert_eq!(y.get(&net), 30);
    assert_eq!(y.effect(&net).unwrap().fired, 3);
}

#[test]
fn receiver_promise_walks_all_receivers() {
    let mut net = fresh();
    let x = Signal::new(&mut net, 0);
    let d = Signal::driven(&mut net, &vec![x], Arith::Scale(2), Trace::empty());
    let t = Signal::driven(&mut net, &vec![x], Arith::Scale(3), Trace::empty());
    x.add_receiver(&mut net, d);
    x.add_receiver(&mut net, t);
    let tokens = x.receiver_promise(&mut net);
    assert_eq!(tokens.len(), 2);
    assert_eq!(d.dirty(&net), 1);
    assert_eq!(t.dirty(&net), 1);
    assert_eq!(x.dirty(&net), 0);
    net.release_all(tokens);
    assert_eq!(d.dirty(&net), 0);
    assert_eq!(t.dirty(&net), 0);
}

#[test]
fn deep_clone_copies_cell_and_shares_nothing() {
    let mut net = fresh();
    let x = Signal::new(&mut net, 3);
    let y = Signal::driven(&mut net, &vec![x], Arith::Scale(2), Trace::empty());
    x.add_receiver(&mut net, y);
    let x2 = x.deep_clone(&mut net);
    // The clone has its own storage with a copy of the value and of the
    // receiver list.
    assert_eq!(x2.get(&net), 3);
    assert_eq!(x2.receivers(&net).len(), 1);
    assert_eq!(x2.receivers(&net)[0].index(), y.index());
    // Sending to the clone notifies y, which recomputes from its own
    // dependency — the original x, whose value the clone's send does not
    // touch.
    let tokens = x2.send(&mut net, 9);
    net.release_all(tokens);
    assert_eq!(x.get(&net), 3);
    assert_eq!(x2.get(&net), 9);
    assert_eq!(y.get(&net), 6);
    // Sending to the original still drives y as well.
    let tokens = x.send(&mut net, 5);
    net.release_all(tokens);
    assert_eq!(y.get(&net), 10);
}

#[test]
fn getters_expose_structure() {
    let mut net = fresh();
    let x = Signal::new(&mut net, 0);
    let y = Signal::driven(&mut net, &vec![x], Arith::Sum, Trace::empty());
    x.add_receiver(&mut net, y);
    assert_eq!(x.index(), 0);
    assert_eq!(y.index(), 1);
    assert_eq!(x.rank(&net), 0);
    assert_eq!(y.rank(&net), 1);
    assert!(x.processor(&net).is_none());
    assert!(matches!(y.processor(&net), Some(&Arith::Sum)));
    let rs = x.receivers(&net);
    assert_eq!(rs.len(), 1);
    assert_eq!(rs[0].index(), 1);
    assert_eq!(y.receivers(&net).len(), 0);
}

#[test]
fn scale_without_dependency_yields_zero() {
    let mut net = fresh();
    let y = Signal::driven(&mut net, &vec![], Arith::Scale(2), Trace::empty());
    assert_eq!(y.get(&net), 0);
    let s = Signal::driven(&mut net, &vec![], Arith::Sum, Trace::empty());
    assert_eq!(s.get(&net), 0);
}

#[test]
fn arithmetic_wraps_at_the_limit() {
    let mut net = fresh();
    let x = Signal::new(&mut net, u64::MAX);
    let y = Signal::driven(&mut net, &vec![x], Arith::Scale(2), Trace::empty());
    x.add_receiver(&mut net, y);
    assert_eq!(y.get(&net), u64::MAX.wrapping_mul(2));
    let a = Signal::new(&mut net, u64::MAX);
    let b = Signal::new(&mut net, 3);
    let sum = Signal::driven(&mut net, &vec![a, b], Arith::Sum, Trace::empty());
    assert_eq!(sum.get(&net), u64::MAX.wrapping_add(3));
}

#[test]
fn chain_propagates_through_intermediate_signal() {
    // x -> y (x * 2) -> z (y * 3): the wave cascades through y into z.
    let mut net = fresh();
    let x = Signal::new(&mut net, 1);
    let y = Signal::driven(&mut net, &vec![x], Arith::Scale(2), Trace::empty());
    let z = Signal::driven(&mut net, &vec![y], Arith::Scale(3), Trace::empty());
    x.add_receiver(&mut net, y);
    y.add_receiver(&mut net, z);
    let tokens = x.send(&mut net, 4);
    assert_eq!(tokens.len(), 2);
    net.release_all(tokens);
    assert_eq!(y.get(&net), 8);
    assert_eq!(z.get(&net), 24);
    assert_eq!(z.effect(&net).unwrap().fired, 1);
}

#[test]
fn silent_effect_observes_nothing() {
    let mut net: Network<u64, Arith, Silent> = Network::new();
    let x = Signal::new(&mut net, 2);
    let y = Signal::driven(&mut net, &vec![x], Arith::Scale(10), Silent);
    x.add_receiver(&mut net, y);
    let tokens = x.send(&mut net, 3);
    net.release_all(tokens);
    assert_eq!(y.get(&net), 30);
    assert!(matches!(y.effect(&net), Some(Silent)));
}
