//! Programs and what running them means: the instruction set, and the
//! thread-list semantics that [`crate::Pattern`] implements.
use vstd::prelude::*;
use crate::step::Step;
use crate::weight::{merged, Weight};

verus! {

/// One instruction of a program. Program counters index the program; the
/// position one past the last instruction (or any later one) means that the
/// match is complete.
pub enum Inst<S> {
    /// Evaluate the given [Step] on the current input. Discard the thread if
    /// either `step` or `concat` reports that the match has failed. Otherwise,
    /// update the thread's weight and continue at the next instruction.
    Step(S),
    /// Continue executing this thread at the given program counter.
    Jump(usize),
    /// Continue executing this thread at the given program counter, and add a
    /// lower-priority thread that starts at the instruction after this one.
    PreferTarget(usize),
    /// Continue executing this thread at the instruction after this one, and
    /// add a lower-priority thread that starts at the given program counter.
    PreferNext(usize),
}

/// Every path of non-consuming instructions from `pc` reaches a `Step` or the
/// end of the program within `fuel` moves.
pub open spec fn settles<S>(prog: Seq<Inst<S>>, pc: int, fuel: nat) -> bool
    decreases fuel,
{
    if pc < 0 || pc >= prog.len() {
        true
    } else if prog[pc] is Step {
        true
    } else if fuel == 0 {
        false
    } else {
        match prog[pc] {
            Inst::Jump(to) => settles(prog, to as int, (fuel - 1) as nat),
            Inst::PreferTarget(to) => settles(prog, to as int, (fuel - 1) as nat) && settles(
                prog,
                pc + 1,
                (fuel - 1) as nat,
            ),
            Inst::PreferNext(to) => settles(prog, pc + 1, (fuel - 1) as nat) && settles(
                prog,
                to as int,
                (fuel - 1) as nat,
            ),
            Inst::Step(_) => true,
        }
    }
}

/// Every cycle of the program passes through a `Step`: from each instruction,
/// every path of non-consuming instructions reaches a `Step` or the end within
/// as many moves as the program has instructions.
pub open spec fn well_formed<S>(prog: Seq<Inst<S>>) -> bool {
    forall|pc: int| 0 <= pc < prog.len() ==> #[trigger] settles(prog, pc, prog.len() as nat)
}

/// A list of threads: program counters paired with accumulated weights, in
/// priority order.
pub type Threads<W> = Seq<(usize, W)>;

/// Adds a thread at `pc` with weight `w` to the list: appended when no thread
/// stands there yet, else merged into the weight of the thread found earlier.
pub open spec fn register<W: Weight>(list: Threads<W>, pc: usize, w: W) -> Threads<W> {
    if exists|i: int| 0 <= i < list.len() && list[i].0 == pc {
        let i = choose|i: int| 0 <= i < list.len() && list[i].0 == pc;
        list.update(i, (pc, list[i].1.plus(w)))
    } else {
        list.push((pc, w))
    }
}

/// Runs a thread at `pc` with weight `w` against the symbol `x`, following
/// non-consuming instructions at once. Returns the list of next-position
/// threads with those registered on the way, and the weight of a match
/// completed on the way, if any.
pub open spec fn expand<S: Step<T, W>, T, W: Weight>(
    prog: Seq<Inst<S>>,
    pc: int,
    w: W,
    x: T,
    list: Threads<W>,
    fuel: nat,
) -> (Threads<W>, Option<W>)
    decreases fuel,
{
    if pc < 0 || pc >= prog.len() {
        (list, Some(w))
    } else {
        match prog[pc] {
            Inst::Step(s) => match s.accepts(x) {
                Some(c) => match w.times(&c) {
                    Some(v) => (register(list, (pc + 1) as usize, v), None),
                    None => (list, None),
                },
                None => (list, None),
            },
            Inst::Jump(to) => if fuel == 0 {
                (list, None)
            } else {
                expand(prog, to as int, w, x, list, (fuel - 1) as nat)
            },
            Inst::PreferTarget(to) => if fuel == 0 {
                (list, None)
            } else {
                let (l1, a) = expand(prog, to as int, w, x, list, (fuel - 1) as nat);
                let (l2, b) = expand(prog, pc + 1, w, x, l1, (fuel - 1) as nat);
                (l2, merged(a, b))
            },
            Inst::PreferNext(to) => if fuel == 0 {
                (list, None)
            } else {
                let (l1, a) = expand(prog, pc + 1, w, x, list, (fuel - 1) as nat);
                let (l2, b) = expand(prog, to as int, w, x, l1, (fuel - 1) as nat);
                (l2, merged(a, b))
            },
        }
    }
}

/// Runs every thread of `threads`, in order, against the symbol `x`. Returns
/// the threads of the next position and the completed matches folded by
/// priority.
pub open spec fn advance<S: Step<T, W>, T, W: Weight>(
    prog: Seq<Inst<S>>,
    threads: Threads<W>,
    x: T,
) -> (Threads<W>, Option<W>)
    decreases threads.len(),
{
    if threads.len() == 0 {
        (Seq::empty(), None)
    } else {
        let (list, matched) = advance(prog, threads.drop_last(), x);
        let (pc, w) = threads.last();
        let (next, m) = expand(prog, pc as int, w, x, list, prog.len() as nat);
        (next, merged(matched, m))
    }
}

/// The threads and the result after the symbols of `input` have been read:
/// a match completed at a later position replaces an earlier one, and once no
/// thread is left nothing changes any more.
pub open spec fn run<S: Step<T, W>, T, W: Weight>(prog: Seq<Inst<S>>, input: Seq<T>) -> (
    Threads<W>,
    Option<W>,
)
    decreases input.len(),
{
    if input.len() == 0 {
        (seq![(0usize, W::one())], None)
    } else {
        let (threads, result) = run(prog, input.drop_last());
        if threads.len() == 0 {
            (threads, result)
        } else {
            let (next, matched) = advance(prog, threads, input.last());
            (
                next,
                match matched {
                    Some(_) => matched,
                    None => result,
                },
            )
        }
    }
}

/// The result of evaluating `prog` on `input`.
pub open spec fn evaluate<S: Step<T, W>, T, W: Weight>(
    prog: Seq<Inst<S>>,
    input: Seq<T>,
) -> Option<W> {
    run(prog, input).1
}

/// Once no thread is left, no further symbol changes the threads or the
/// result, however many follow.
pub proof fn lemma_stalled<S: Step<T, W>, T, W: Weight>(
    prog: Seq<Inst<S>>,
    input: Seq<T>,
    rest: Seq<T>,
)
    requires
        run::<S, T, W>(prog, input).0.len() == 0,
    ensures
        run::<S, T, W>(prog, input + rest) == run::<S, T, W>(prog, input),
    decreases rest.len(),
{
    if rest.len() > 0 {
        lemma_stalled::<S, T, W>(prog, input, rest.drop_last());
        assert((input + rest).drop_last() =~= input + rest.drop_last());
    } else {
        assert(input + rest =~= input);
    }
}

} // verus!
