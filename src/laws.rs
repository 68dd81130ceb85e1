//! Laws of evaluation: priority of the branching instructions, merging of
//! converging paths, range steps, and reuse of an engine.
use vstd::prelude::*;
use core::ops::RangeInclusive;
use crate::pattern::Pattern;
use crate::program::{advance, evaluate, expand, lemma_stalled, register, run, Inst, Threads};
use crate::step::{in_range, Step};
use crate::weight::{merged, Weight};

verus! {

/// Priority of `PreferTarget`: the matches completed through the target are
/// the higher-priority side of the merge, those through the next instruction
/// the lower one, and when both complete the result is the target's weight
/// merged with the other.
pub proof fn lemma_prefer_target<S: Step<T, W>, T, W: Weight>(
    prog: Seq<Inst<S>>,
    pc: int,
    to: usize,
    w: W,
    x: T,
    list: Threads<W>,
    fuel: nat,
)
    requires
        0 <= pc < prog.len(),
        prog[pc] == Inst::<S>::PreferTarget(to),
        fuel > 0,
    ensures
        ({
            let (l1, a) = expand(prog, to as int, w, x, list, (fuel - 1) as nat);
            let (l2, b) = expand(prog, pc + 1, w, x, l1, (fuel - 1) as nat);
            &&& expand(prog, pc, w, x, list, fuel) == (l2, merged(a, b))
            &&& a is Some && b is Some ==> expand(prog, pc, w, x, list, fuel).1 == Some(
                a->0.plus(b->0),
            )
        }),
{
}

/// Priority of `PreferNext`: the matches completed through the next
/// instruction are the higher-priority side of the merge, those through the
/// target the lower one.
pub proof fn lemma_prefer_next<S: Step<T, W>, T, W: Weight>(
    prog: Seq<Inst<S>>,
    pc: int,
    to: usize,
    w: W,
    x: T,
    list: Threads<W>,
    fuel: nat,
)
    requires
        0 <= pc < prog.len(),
        prog[pc] == Inst::<S>::PreferNext(to),
        fuel > 0,
    ensures
        ({
            let (l1, a) = expand(prog, pc + 1, w, x, list, (fuel - 1) as nat);
            let (l2, b) = expand(prog, to as int, w, x, l1, (fuel - 1) as nat);
            &&& expand(prog, pc, w, x, list, fuel) == (l2, merged(a, b))
            &&& a is Some && b is Some ==> expand(prog, pc, w, x, list, fuel).1 == Some(
                a->0.plus(b->0),
            )
        }),
{
}

/// Convergence: when two paths reach `pc` at one input position, first with
/// `w1` and then with `w2`, a single thread stands there, at the place of the
/// first, and its weight is `w1` merged with `w2`.
pub proof fn lemma_convergence<W: Weight>(list: Threads<W>, pc: usize, w1: W, w2: W)
    requires
        forall|i: int| 0 <= i < list.len() ==> (#[trigger] list[i]).0 != pc,
    ensures
        register(register(list, pc, w1), pc, w2) == list.push((pc, w1.plus(w2))),
{
    let once = register(list, pc, w1);
    assert(!exists|i: int| 0 <= i < list.len() && list[i].0 == pc);
    assert(once == list.push((pc, w1)));
    assert(once[list.len() as int].0 == pc);
    let j = choose|j: int| 0 <= j < once.len() && once[j].0 == pc;
    if j < list.len() {
        assert(once[j] == list[j]);
    }
    assert(once.update(j, (pc, once[j].1.plus(w2))) =~= list.push((pc, w1.plus(w2))));
}

/// A program of one range `Step` accepts a first symbol within the range with
/// the identity weight, and rejects one outside it. The match is reported
/// when the next symbol is read, so a symbol must follow an accepted one.
pub proof fn lemma_range_step<W: Weight>(r: RangeInclusive<u8>, x: u8, rest: Seq<u8>)
    requires
        W::one().times(&W::one()) == Some(W::one()),
    ensures
        !in_range(r, x) ==> evaluate::<RangeInclusive<u8>, u8, W>(seq![Inst::Step(r)], seq![x]
            + rest)
            is None,
        in_range(r, x) && rest.len() > 0 ==> evaluate::<RangeInclusive<u8>, u8, W>(
            seq![Inst::Step(r)],
            seq![x] + rest,
        ) == Some(W::one()),
{
    let prog = seq![Inst::<RangeInclusive<u8>>::Step(r)];
    let first = seq![x];
    assert(first.drop_last() =~= Seq::<u8>::empty());
    let (t1, r1) = run::<RangeInclusive<u8>, u8, W>(prog, first);
    let start = seq![(0usize, W::one())];
    assert(start.drop_last() =~= Seq::<(usize, W)>::empty());
    assert(run::<RangeInclusive<u8>, u8, W>(prog, first.drop_last()) == (start, None::<W>));
    let acc: Option<W> = r.accepts(x);
    let (l0, m0) = expand::<RangeInclusive<u8>, u8, W>(prog, 0, W::one(), x, Seq::empty(), 1);
    if in_range(r, x) {
        assert(acc == Some(W::one()));
        assert(!exists|i: int| 0 <= i < 0 && Seq::<(usize, W)>::empty()[i].0 == 1usize);
        assert(l0 =~= seq![(1usize, W::one())]);
    } else {
        assert(acc is None);
        assert(l0.len() == 0);
    }
    assert(advance::<RangeInclusive<u8>, u8, W>(prog, start.drop_last(), x)
        == (Seq::<(usize, W)>::empty(), None::<W>));
    assert(advance::<RangeInclusive<u8>, u8, W>(prog, start, x) == (l0, merged(None::<W>, m0)));
    if !in_range(r, x) {
        assert(t1.len() == 0);
        lemma_stalled::<RangeInclusive<u8>, u8, W>(prog, first, rest);
    } else if rest.len() > 0 {
        assert(t1 =~= seq![(1usize, W::one())]);
        let two = seq![x, rest[0]];
        assert(two.drop_last() =~= first);
        assert(t1.drop_last() =~= Seq::<(usize, W)>::empty());
        assert(advance::<RangeInclusive<u8>, u8, W>(prog, t1.drop_last(), rest[0])
            == (Seq::<(usize, W)>::empty(), None::<W>));
        let (l1, m1) = expand::<RangeInclusive<u8>, u8, W>(
            prog,
            1,
            W::one(),
            rest[0],
            Seq::empty(),
            1,
        );
        assert(l1.len() == 0 && m1 == Some(W::one()));
        assert(advance::<RangeInclusive<u8>, u8, W>(prog, t1, rest[0])
            == (l1, merged(None::<W>, m1)));
        let (t2, r2) = run::<RangeInclusive<u8>, u8, W>(prog, two);
        assert(t2.len() == 0);
        assert(r2 == Some(W::one()));
        lemma_stalled::<RangeInclusive<u8>, u8, W>(prog, two, rest.drop_first());
        assert(two + rest.drop_first() =~= first + rest);
    }
}

/// Reuse: the result of an evaluation depends on the program and the input
/// alone, and evaluation keeps the program, so evaluating the same input
/// twice on one engine gives the same result both times.
pub proof fn lemma_reuse<'a, S: Step<T, W>, T, W: Weight>(
    before: Pattern<'a, S, T, W>,
    after: Pattern<'a, S, T, W>,
    input: Seq<T>,
    first: Option<W>,
    second: Option<W>,
)
    requires
        first == evaluate::<S, T, W>(before.program(), input),
        after.program() == before.program(),
        second == evaluate::<S, T, W>(after.program(), input),
    ensures
        first == second,
{
}

} // verus!
