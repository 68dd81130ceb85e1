//! Which inputs a program accepts, stated through the paths that its
//! instructions allow, and the proof that evaluation with the unit weight
//! answers exactly that.
use vstd::prelude::*;
use crate::program::{advance, evaluate, expand, register, run, settles, well_formed, Inst, Threads};
use crate::step::Step;
use crate::weight::Weight;

verus! {

/// The non-consuming instruction at `pc` may continue at `q`.
pub open spec fn moves<S>(prog: Seq<Inst<S>>, pc: int, q: int) -> bool {
    &&& 0 <= pc < prog.len()
    &&& match prog[pc] {
        Inst::Step(_) => false,
        Inst::Jump(to) => q == to as int,
        Inst::PreferTarget(to) => q == to as int || q == pc + 1,
        Inst::PreferNext(to) => q == to as int || q == pc + 1,
    }
}

/// `q` is reached from `pc` by `k` non-consuming moves.
pub open spec fn reaches<S>(prog: Seq<Inst<S>>, pc: int, q: int, k: nat) -> bool
    decreases k,
{
    if k == 0 {
        q == pc
    } else {
        exists|m: int| #[trigger] moves(prog, pc, m) && reaches(prog, m, q, (k - 1) as nat)
    }
}

/// The instruction at `q` is a `Step` that accepts `x`.
pub open spec fn consumes<S: Step<T, ()>, T>(prog: Seq<Inst<S>>, q: int, x: T) -> bool {
    &&& 0 <= q < prog.len()
    &&& prog[q] is Step
    &&& prog[q]->Step_0.accepts(x) is Some
}

/// From `pc`, a path of non-consuming moves reaches a `Step` that accepts `x`
/// and continues at `p`.
pub open spec fn feeds<S: Step<T, ()>, T>(prog: Seq<Inst<S>>, pc: int, x: T, p: int) -> bool {
    exists|q: int, k: nat| #[trigger] reaches(prog, pc, q, k) && consumes(prog, q, x) && p == q + 1
}

/// From `pc`, a path of non-consuming moves walks off the end of the program.
pub open spec fn finishes<S>(prog: Seq<Inst<S>>, pc: int) -> bool {
    exists|e: int, k: nat| #[trigger] reaches(prog, pc, e, k) && !(0 <= e < prog.len())
}

/// A path of the program stands at `pc` once all of `input` has been read.
pub open spec fn stands<S: Step<T, ()>, T>(prog: Seq<Inst<S>>, input: Seq<T>, pc: int) -> bool
    decreases input.len(),
{
    if input.len() == 0 {
        pc == 0
    } else {
        exists|p: int| stands(prog, input.drop_last(), p)
            && #[trigger] feeds(prog, p, input.last(), pc)
    }
}

/// A path of the program completes a match once all of `input` has been read.
pub open spec fn completes<S: Step<T, ()>, T>(prog: Seq<Inst<S>>, input: Seq<T>) -> bool {
    exists|p: int| #[trigger] stands(prog, input, p) && finishes(prog, p)
}

/// Some path completes a match after a proper prefix of `input`: a match is
/// reported when the symbol after it is read.
pub open spec fn accepted<S: Step<T, ()>, T>(prog: Seq<Inst<S>>, input: Seq<T>) -> bool {
    exists|i: int| 0 <= i < input.len() && #[trigger] completes(prog, input.subrange(0, i))
}

/// Some thread of `list` stands at `p`.
pub open spec fn has<W>(list: Threads<W>, p: int) -> bool {
    exists|j: int| 0 <= j < list.len() && #[trigger] list[j].0 == p
}

/// A non-consuming instruction feeds and finishes exactly where one of the
/// instructions it moves to does.
proof fn lemma_control<S: Step<T, ()>, T>(prog: Seq<Inst<S>>, pc: int, x: T)
    requires
        0 <= pc < prog.len(),
        !(prog[pc] is Step),
    ensures
        forall|p: int|
            #[trigger] feeds(prog, pc, x, p) <==> exists|m: int|
                moves(prog, pc, m) && #[trigger] feeds(prog, m, x, p),
        finishes(prog, pc) <==> exists|m: int| moves(prog, pc, m) && #[trigger] finishes(prog, m),
{
    assert forall|p: int|
        #[trigger] feeds(prog, pc, x, p) <==> exists|m: int|
            moves(prog, pc, m) && #[trigger] feeds(prog, m, x, p) by {
        if feeds(prog, pc, x, p) {
            let (q, k) = choose|q: int, k: nat|
                #[trigger] reaches(prog, pc, q, k) && consumes(prog, q, x) && p == q + 1;
            assert(k != 0);
            let m = choose|m: int|
                #[trigger] moves(prog, pc, m) && reaches(prog, m, q, (k - 1) as nat);
            assert(reaches(prog, m, q, (k - 1) as nat));
            assert(feeds(prog, m, x, p));
        }
        if exists|m: int| moves(prog, pc, m) && #[trigger] feeds(prog, m, x, p) {
            let m = choose|m: int| moves(prog, pc, m) && #[trigger] feeds(prog, m, x, p);
            let (q, k) = choose|q: int, k: nat|
                #[trigger] reaches(prog, m, q, k) && consumes(prog, q, x) && p == q + 1;
            assert(reaches(prog, pc, q, k + 1));
        }
    }
    if finishes(prog, pc) {
        let (e, k) = choose|e: int, k: nat|
            #[trigger] reaches(prog, pc, e, k) && !(0 <= e < prog.len());
        assert(k != 0);
        let m = choose|m: int| #[trigger] moves(prog, pc, m) && reaches(prog, m, e, (k - 1) as nat);
        assert(reaches(prog, m, e, (k - 1) as nat));
        assert(finishes(prog, m));
    }
    if exists|m: int| moves(prog, pc, m) && #[trigger] finishes(prog, m) {
        let m = choose|m: int| moves(prog, pc, m) && #[trigger] finishes(prog, m);
        let (e, k) = choose|e: int, k: nat|
            #[trigger] reaches(prog, m, e, k) && !(0 <= e < prog.len());
        assert(reaches(prog, pc, e, k + 1));
    }
}

/// With the unit weight, expanding a thread at `pc` registers exactly the
/// places that `pc` feeds, and completes a match exactly when `pc` finishes.
proof fn lemma_expand<S: Step<T, ()>, T>(
    prog: Seq<Inst<S>>,
    pc: int,
    x: T,
    list: Threads<()>,
    fuel: nat,
)
    requires
        settles(prog, pc, fuel),
        prog.len() < usize::MAX,
    ensures
        forall|p: int|
            #[trigger] has(expand(prog, pc, (), x, list, fuel).0, p) <==> has(list, p) || feeds(
                prog,
                pc,
                x,
                p,
            ),
        expand(prog, pc, (), x, list, fuel).1 is Some <==> finishes(prog, pc),
    decreases fuel,
{
    let (l, m) = expand(prog, pc, (), x, list, fuel);
    if pc < 0 || pc >= prog.len() {
        assert(reaches(prog, pc, pc, 0));
        assert forall|p: int| #[trigger] has(l, p) <==> has(list, p) || feeds(prog, pc, x, p) by {
            if feeds(prog, pc, x, p) {
                let (q, k) = choose|q: int, k: nat|
                    #[trigger] reaches(prog, pc, q, k) && consumes(prog, q, x) && p == q + 1;
                assert(k != 0);
            }
        }
    } else {
        match prog[pc] {
            Inst::Step(s) => {
                assert forall|q: int, k: nat| #[trigger] reaches(prog, pc, q, k) implies q
                    == pc by {
                    if k != 0 {
                        let m = choose|m: int| #[trigger] moves(prog, pc, m)
                            && reaches(prog, m, q, (k - 1) as nat);
                    }
                }
                assert forall|p: int| #[trigger] has(l, p)
                    <==> has(list, p) || feeds(prog, pc, x, p) by {
                    if s.accepts(x) is Some {
                        assert(reaches(prog, pc, pc, 0));
                        let next = (pc + 1) as usize;
                        if exists|i: int| 0 <= i < list.len() && list[i].0 == next {
                            let i = choose|i: int| 0 <= i < list.len() && list[i].0 == next;
                            assert(l == list.update(i, (next, list[i].1.plus(()))));
                            if has(list, p) {
                                let j = choose|j: int| 0 <= j < list.len() && #[trigger] list[j].0
                                    == p;
                                assert(l[j].0 == p);
                            }
                            if has(l, p) {
                                let j = choose|j: int| 0 <= j < l.len() && #[trigger] l[j].0 == p;
                                if j != i {
                                    assert(list[j].0 == p);
                                }
                            }
                        } else {
                            assert(l == list.push((next, ())));
                            if has(list, p) {
                                let j = choose|j: int| 0 <= j < list.len() && #[trigger] list[j].0
                                    == p;
                                assert(l[j].0 == p);
                            }
                            if has(l, p) {
                                let j = choose|j: int| 0 <= j < l.len() && #[trigger] l[j].0 == p;
                                if j < list.len() {
                                    assert(list[j].0 == p);
                                }
                            }
                            if p == pc + 1 {
                                assert(l[list.len() as int].0 == p);
                            }
                        }
                    }
                }
                if finishes(prog, pc) {
                    let (e, k) = choose|e: int, k: nat|
                        #[trigger] reaches(prog, pc, e, k) && !(0 <= e < prog.len());
                }
            },
            Inst::Jump(to) => {
                lemma_control(prog, pc, x);
                lemma_expand(prog, to as int, x, list, (fuel - 1) as nat);
                assert forall|p: int| #[trigger] has(l, p)
                    <==> has(list, p) || feeds(prog, pc, x, p) by {
                    if feeds(prog, to as int, x, p) {
                        assert(moves(prog, pc, to as int));
                    }
                }
                if finishes(prog, to as int) {
                    assert(moves(prog, pc, to as int));
                }
            },
            Inst::PreferTarget(to) => {
                lemma_control(prog, pc, x);
                let (l1, a) = expand(prog, to as int, (), x, list, (fuel - 1) as nat);
                lemma_expand(prog, to as int, x, list, (fuel - 1) as nat);
                lemma_expand(prog, pc + 1, x, l1, (fuel - 1) as nat);
                assert forall|p: int| #[trigger] has(l, p)
                    <==> has(list, p) || feeds(prog, pc, x, p) by {
                    assert(has(l1, p) <==> has(list, p) || feeds(prog, to as int, x, p));
                    if feeds(prog, to as int, x, p) {
                        assert(moves(prog, pc, to as int));
                    }
                    if feeds(prog, pc + 1, x, p) {
                        assert(moves(prog, pc, pc + 1));
                    }
                }
                if finishes(prog, to as int) {
                    assert(moves(prog, pc, to as int));
                }
                if finishes(prog, pc + 1) {
                    assert(moves(prog, pc, pc + 1));
                }
            },
            Inst::PreferNext(to) => {
                lemma_control(prog, pc, x);
                let (l1, a) = expand(prog, pc + 1, (), x, list, (fuel - 1) as nat);
                lemma_expand(prog, pc + 1, x, list, (fuel - 1) as nat);
                lemma_expand(prog, to as int, x, l1, (fuel - 1) as nat);
                assert forall|p: int| #[trigger] has(l, p)
                    <==> has(list, p) || feeds(prog, pc, x, p) by {
                    assert(has(l1, p) <==> has(list, p) || feeds(prog, pc + 1, x, p));
                    if feeds(prog, to as int, x, p) {
                        assert(moves(prog, pc, to as int));
                    }
                    if feeds(prog, pc + 1, x, p) {
                        assert(moves(prog, pc, pc + 1));
                    }
                }
                if finishes(prog, to as int) {
                    assert(moves(prog, pc, to as int));
                }
                if finishes(prog, pc + 1) {
                    assert(moves(prog, pc, pc + 1));
                }
            },
        }
    }
}

/// With the unit weight, the threads of the next position stand where the
/// threads of `threads` feed, and a match completes where one of them finishes.
proof fn lemma_advance<S: Step<T, ()>, T>(prog: Seq<Inst<S>>, threads: Threads<()>, x: T)
    requires
        well_formed(prog),
        prog.len() < usize::MAX,
        forall|j: int| 0 <= j < threads.len() ==> (#[trigger] threads[j]).0 <= prog.len(),
    ensures
        forall|p: int|
            #[trigger] has(advance(prog, threads, x).0, p) <==> exists|j: int|
                0 <= j < threads.len() && #[trigger] feeds(prog, threads[j].0 as int, x, p),
        advance(prog, threads, x).1 is Some <==> exists|j: int|
            0 <= j < threads.len() && #[trigger] finishes(prog, threads[j].0 as int),
    decreases threads.len(),
{
    if threads.len() > 0 {
        let rest = threads.drop_last();
        let n = threads.len() - 1;
        lemma_advance(prog, rest, x);
        let (list, matched) = advance(prog, rest, x);
        let (pc, w) = threads.last();
        assert(threads[n].0 <= prog.len());
        assert(settles(prog, pc as int, prog.len() as nat));
        lemma_expand(prog, pc as int, x, list, prog.len() as nat);
        assert forall|p: int|
            #[trigger] has(advance(prog, threads, x).0, p) <==> exists|j: int|
                0 <= j < threads.len() && #[trigger] feeds(prog, threads[j].0 as int, x, p) by {
            if exists|j: int| 0 <= j < threads.len()
                && #[trigger] feeds(prog, threads[j].0 as int, x, p) {
                let j = choose|j: int| 0 <= j < threads.len()
                    && #[trigger] feeds(prog, threads[j].0 as int, x, p);
                if j < n {
                    assert(rest[j] == threads[j]);
                }
            }
            if exists|j: int| 0 <= j < rest.len()
                && #[trigger] feeds(prog, rest[j].0 as int, x, p) {
                let j = choose|j: int| 0 <= j < rest.len()
                    && #[trigger] feeds(prog, rest[j].0 as int, x, p);
                assert(rest[j] == threads[j]);
            }
        }
        if exists|j: int| 0 <= j < threads.len() && #[trigger] finishes(prog, threads[j].0 as int) {
            let j = choose|j: int| 0 <= j < threads.len()
                && #[trigger] finishes(prog, threads[j].0 as int);
            if j < n {
                assert(rest[j] == threads[j]);
            }
        }
        if exists|j: int| 0 <= j < rest.len() && #[trigger] finishes(prog, rest[j].0 as int) {
            let j = choose|j: int| 0 <= j < rest.len()
                && #[trigger] finishes(prog, rest[j].0 as int);
            assert(rest[j] == threads[j]);
        }
    }
}

/// A match completes on a proper prefix of `input` when it completes on a
/// proper prefix of all but the last symbol, or on all but the last symbol.
proof fn lemma_accepted_step<S: Step<T, ()>, T>(prog: Seq<Inst<S>>, input: Seq<T>)
    requires
        input.len() > 0,
    ensures
        accepted(prog, input) <==> accepted(prog, input.drop_last()) || completes(
            prog,
            input.drop_last(),
        ),
{
    let d = input.drop_last();
    assert(input.subrange(0, d.len() as int) =~= d);
    if accepted(prog, input) {
        let i = choose|i: int| 0 <= i < input.len()
            && #[trigger] completes(prog, input.subrange(0, i));
        if i < d.len() {
            assert(input.subrange(0, i) =~= d.subrange(0, i));
        }
    }
    if accepted(prog, d) {
        let i = choose|i: int| 0 <= i < d.len() && #[trigger] completes(prog, d.subrange(0, i));
        assert(input.subrange(0, i) =~= d.subrange(0, i));
    }
    if completes(prog, d) {
        assert(completes(prog, input.subrange(0, d.len() as int)));
    }
}

/// With the unit weight, the threads after `input` stand exactly where paths
/// of the program stand, and the result is present exactly when a match
/// completed on a proper prefix.
proof fn lemma_run<S: Step<T, ()>, T>(prog: Seq<Inst<S>>, input: Seq<T>)
    requires
        well_formed(prog),
        prog.len() < usize::MAX,
    ensures
        forall|j: int|
            0 <= j < run::<S, T, ()>(prog, input).0.len() ==> (#[trigger] run::<S, T, ()>(
                prog,
                input,
            ).0[j]).0 <= prog.len(),
        forall|p: int| #[trigger] has(run::<S, T, ()>(prog, input).0, p)
            <==> stands(prog, input, p),
        run::<S, T, ()>(prog, input).1 is Some <==> accepted(prog, input),
    decreases input.len(),
{
    if input.len() == 0 {
        let th = run::<S, T, ()>(prog, input).0;
        assert forall|p: int| #[trigger] has(th, p) <==> stands(prog, input, p) by {
            if p == 0 {
                assert(th[0].0 == 0);
            }
        }
    } else {
        let d = input.drop_last();
        let x = input.last();
        lemma_run(prog, d);
        lemma_accepted_step(prog, input);
        let (th0, res0) = run::<S, T, ()>(prog, d);
        if th0.len() == 0 {
            assert forall|p: int| #[trigger] has(th0, p) <==> stands(prog, input, p) by {
                if stands(prog, input, p) {
                    let q = choose|q: int| stands(prog, d, q) && #[trigger] feeds(prog, q, x, p);
                    assert(has(th0, q));
                }
            }
            if completes(prog, d) {
                let q = choose|q: int| #[trigger] stands(prog, d, q) && finishes(prog, q);
                assert(has(th0, q));
            }
        } else {
            lemma_advance(prog, th0, x);
            let (next, matched) = advance(prog, th0, x);
            assert forall|p: int| #[trigger] has(next, p) <==> stands(prog, input, p) by {
                if stands(prog, input, p) {
                    let q = choose|q: int| stands(prog, d, q) && #[trigger] feeds(prog, q, x, p);
                    assert(has(th0, q));
                    let j = choose|j: int| 0 <= j < th0.len() && #[trigger] th0[j].0 == q;
                    assert(feeds(prog, th0[j].0 as int, x, p));
                }
                if has(next, p) {
                    let j = choose|j: int| 0 <= j < th0.len()
                        && #[trigger] feeds(prog, th0[j].0 as int, x, p);
                    assert(has(th0, th0[j].0 as int));
                    assert(stands(prog, d, th0[j].0 as int));
                }
            }
            if completes(prog, d) {
                let q = choose|q: int| #[trigger] stands(prog, d, q) && finishes(prog, q);
                assert(has(th0, q));
                let j = choose|j: int| 0 <= j < th0.len() && #[trigger] th0[j].0 == q;
                assert(finishes(prog, th0[j].0 as int));
            }
            if matched is Some {
                let j = choose|j: int| 0 <= j < th0.len()
                    && #[trigger] finishes(prog, th0[j].0 as int);
                assert(has(th0, th0[j].0 as int));
                assert(stands(prog, d, th0[j].0 as int));
            }
            let th = run::<S, T, ()>(prog, input).0;
            assert forall|j: int| 0 <= j < th.len() implies (#[trigger] th[j]).0 <= prog.len() by {
                assert(has(next, th[j].0 as int));
            }
        }
    }
}

/// With the unit weight, evaluation yields `Some(())` when some path of the
/// program completes a match on a proper prefix of the input (a match is
/// reported when the symbol after it is read), and `None` when none does.
pub proof fn lemma_unit_weight<S: Step<T, ()>, T>(prog: Seq<Inst<S>>, input: Seq<T>)
    requires
        well_formed(prog),
        prog.len() < usize::MAX,
    ensures
        evaluate::<S, T, ()>(prog, input) == if accepted(prog, input) {
            Some(())
        } else {
            None
        },
{
    lemma_run(prog, input);
}

} // verus!
