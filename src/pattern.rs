//! The matching engine.
use vstd::prelude::*;
use core::marker::PhantomData;
use crate::program::{
    advance, evaluate, expand, lemma_stalled, register, run, settles, well_formed, Inst, Threads,
};
use crate::step::Step;
use crate::weight::{merge, Weight};

verus! {

/// A matching engine over a borrowed program, with scratch space that is
/// reused from one evaluation to the next.
pub struct Pattern<'a, S, T, W> {
    pattern: &'a [Inst<S>],
    threads: Vec<(usize, W)>,
    index: Vec<Option<usize>>,
    _phantom: PhantomData<T>,
}

/// `index` maps each program counter to the position of the thread standing
/// there in `list`, and every thread of `list` is found through it.
pub open spec fn indexed<W>(list: Threads<W>, index: Seq<Option<usize>>) -> bool {
    &&& forall|i: int|
        0 <= i < list.len() ==> (#[trigger] list[i]).0 < index.len() && index[list[i].0 as int]
            == Some(i as usize)
    &&& forall|p: int|
        0 <= p < index.len() && #[trigger] index[p] is Some ==> index[p]->0 < list.len()
            && list[index[p]->0 as int].0 == p
}

impl<'a, S, T, W> Pattern<'a, S, T, W> {
    /// The program this engine runs.
    pub closed spec fn program(&self) -> Seq<Inst<S>> {
        self.pattern@
    }

    /// The scratch space fits the program.
    pub closed spec fn wf(&self) -> bool {
        self.index@.len() == self.pattern@.len() + 1
    }
}

impl<'a, S, T, W> Pattern<'a, S, T, W> where S: Step<T, W>, W: Weight + Copy {
    /// Binds an engine to `pattern`. The program is not checked.
    pub fn new(pattern: &'a [Inst<S>]) -> (r: Self)
        requires
            pattern@.len() < usize::MAX,
        ensures
            r.program() == pattern@,
            r.wf(),
    {
        let mut index: Vec<Option<usize>> = Vec::new();
        let mut p: usize = 0;
        while p <= pattern.len()
            invariant
                p <= pattern@.len() + 1,
                pattern@.len() < usize::MAX,
                index@.len() == p,
            decreases pattern@.len() + 1 - p,
        {
            index.push(None);
            p = p + 1;
        }
        Pattern { pattern, threads: Vec::new(), index, _phantom: PhantomData }
    }

    /// Runs the program over `input` and returns the weight of the match
    /// completed at the latest position, if any. When several matches complete
    /// at that position, their weights are merged by priority.
    pub fn eval(&mut self, input: &[T]) -> (r: Option<W>)
        requires
            old(self).wf(),
            well_formed(old(self).program()),
        ensures
            final(self).program() == old(self).program(),
            final(self).wf(),
            r == evaluate::<S, T, W>(old(self).program(), input@),
    {
        let ghost prog = self.pattern@;
        let ghost len = prog.len();
        self.threads.clear();
        self.threads.push((0, W::success()));
        let mut result: Option<W> = None;
        let mut i: usize = 0;
        assert(input@.subrange(0, 0) =~= Seq::<T>::empty());
        assert(self.threads@ =~= seq![(0usize, W::one())]);
        while i < input.len() && self.threads.len() > 0
            invariant
                self.pattern@ == prog,
                len == prog.len(),
                self.wf(),
                well_formed(prog),
                i <= input@.len(),
                (self.threads@, result) == run::<S, T, W>(prog, input@.subrange(0, i as int)),
                forall|j: int|
                    0 <= j < self.threads@.len() ==> (#[trigger] self.threads@[j]).0 <= len,
            decreases input@.len() - i,
        {
            let x = &input[i];
            let ghost before = self.threads@;
            let mut p: usize = 0;
            while p < self.index.len()
                invariant
                    self.pattern@ == prog,
                    self.wf(),
                    p <= self.index@.len(),
                    self.threads@ == before,
                    forall|q: int| 0 <= q < p ==> #[trigger] self.index@[q] is None,
                decreases self.index@.len() - p,
            {
                self.index.set(p, None);
                p = p + 1;
            }
            let mut current: Vec<(usize, W)> = Vec::new();
            std::mem::swap(&mut self.threads, &mut current);
            let mut matched: Option<W> = None;
            let mut k: usize = 0;
            assert(current@.subrange(0, 0) =~= Seq::<(usize, W)>::empty());
            while k < current.len()
                invariant
                    self.pattern@ == prog,
                    len == prog.len(),
                    self.wf(),
                    well_formed(prog),
                    current@ == before,
                    k <= current@.len(),
                    forall|j: int| 0 <= j < before.len() ==> (#[trigger] before[j]).0 <= len,
                    indexed(self.threads@, self.index@),
                    (self.threads@, matched)
                        == advance::<S, T, W>(prog, current@.subrange(0, k as int), *x),
                decreases current@.len() - k,
            {
                let (pc, weight) = current[k];
                assert(settles(prog, pc as int, prog.len() as nat));
                let m = self.add(pc, weight, x, Ghost(len as nat));
                matched = merge(matched, m);
                assert(current@.subrange(0, k + 1).drop_last() =~= current@.subrange(0, k as int));
                k = k + 1;
            }
            assert(current@.subrange(0, k as int) =~= current@);
            assert(input@.subrange(0, i + 1).drop_last() =~= input@.subrange(0, i as int));
            result = match matched {
                Some(_) => matched,
                None => result,
            };
            i = i + 1;
        }
        proof {
            if i < input@.len() {
                let read = input@.subrange(0, i as int);
                let unread = input@.subrange(i as int, input@.len() as int);
                lemma_stalled::<S, T, W>(prog, read, unread);
                assert(read + unread =~= input@);
            } else {
                assert(input@.subrange(0, i as int) =~= input@);
            }
        }
        result
    }

    /// Runs the thread at `pc` with weight `weight` against `input`,
    /// registering the threads it leaves for the next position; returns the
    /// weight of a match it completes.
    fn add(&mut self, pc: usize, weight: W, input: &T, Ghost(fuel): Ghost<nat>) -> (r: Option<W>)
        requires
            old(self).wf(),
            indexed(old(self).threads@, old(self).index@),
            settles(old(self).pattern@, pc as int, fuel),
        ensures
            final(self).pattern == old(self).pattern,
            final(self).wf(),
            indexed(final(self).threads@, final(self).index@),
            (final(self).threads@, r) == expand(
                old(self).pattern@,
                pc as int,
                weight,
                *input,
                old(self).threads@,
                fuel,
            ),
        decreases fuel,
    {
        let prog = self.pattern;
        if pc >= prog.len() {
            // Walking off the end of the program is a successful match.
            return Some(weight);
        }
        match &prog[pc] {
            Inst::Step(s) => {
                if let Some(cur) = s.step(input) {
                    if let Some(new) = weight.concat(&cur) {
                        self.register(pc + 1, new);
                    }
                }
                None
            },
            Inst::Jump(to) => self.add(*to, weight, input, Ghost((fuel - 1) as nat)),
            Inst::PreferTarget(to) => {
                let a = self.add(*to, weight, input, Ghost((fuel - 1) as nat));
                let b = self.add(pc + 1, weight, input, Ghost((fuel - 1) as nat));
                merge(a, b)
            },
            Inst::PreferNext(to) => {
                let a = self.add(pc + 1, weight, input, Ghost((fuel - 1) as nat));
                let b = self.add(*to, weight, input, Ghost((fuel - 1) as nat));
                merge(a, b)
            },
        }
    }

    /// Adds a thread at `next` for the next position, merging its weight into
    /// that of a thread already there.
    fn register(&mut self, next: usize, weight: W)
        requires
            old(self).wf(),
            indexed(old(self).threads@, old(self).index@),
            1 <= next <= old(self).pattern@.len(),
        ensures
            final(self).pattern == old(self).pattern,
            final(self).wf(),
            indexed(final(self).threads@, final(self).index@),
            final(self).threads@ == register(old(self).threads@, next, weight),
    {
        let ghost list = self.threads@;
        let n = self.threads.len();
        match self.index[next] {
            None => {
                assert(!exists|i: int| 0 <= i < list.len() && list[i].0 == next);
                self.index.set(next, Some(n));
                self.threads.push((next, weight));
            },
            Some(i) => {
                let mut kept = self.threads[i].1;
                kept.merge(weight);
                self.threads.set(i, (next, kept));
                proof {
                    assert(list[i as int].0 == next);
                    let j = choose|j: int| 0 <= j < list.len() && list[j].0 == next;
                    assert(self.index@[list[j].0 as int] == Some(j as usize));
                    assert(self.threads@ =~= list.update(j, (next, list[j].1.plus(weight))));
                }
            },
        }
    }
}

} // verus!
