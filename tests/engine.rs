use parsink::weight::merge;
use parsink::{Inst, Pattern, Step, Weight};

/// Records the order in which weights were combined, one decimal digit per
/// step and two per merge.
#[derive(Clone, Copy, Debug, Eq, PartialEq)]
struct Trail(u64);

impl Weight for Trail {
    fn success() -> Self {
        Trail(0)
    }

    fn concat(&self, other: &Self) -> Option<Self> {
        Some(Trail(self.0 * 10 + other.0))
    }

    fn merge(&mut self, other: Self) {
        self.0 = self.0 * 100 + other.0;
    }
}

/// Accepts one byte and tags the path with a digit.
struct Tagged(u8, u64);

impl Step<u8, Trail> for Tagged {
    fn step(&self, input: &u8) -> Option<Trail> {
        if *input == self.0 {
            Some(Trail(self.1))
        } else {
            None
        }
    }
}

/// A weight whose concatenation can fail: the set of digits allowed so far.
#[derive(Clone, Copy, Debug, Eq, PartialEq)]
struct Allowed(u16);

impl Weight for Allowed {
    fn success() -> Self {
        Allowed(0x3FF)
    }

    fn concat(&self, other: &Self) -> Option<Self> {
        let both = self.0 & other.0;
        if both == 0 {
            None
        } else {
            Some(Allowed(both))
        }
    }

    fn merge(&mut self, other: Self) {
        self.0 |= other.0;
    }
}

struct Mask(u8, u16);

impl Step<u8, Allowed> for Mask {
    fn step(&self, input: &u8) -> Option<Allowed> {
        if *input == self.0 {
            Some(Allowed(self.1))
        } else {
            None
        }
    }
}

#[test]
fn unit_weight_rejects_input_no_path_satisfies() {
    let program = [Inst::Step(b'a'..=b'c'), Inst::Step(b'x'..=b'x')];
    let mut pattern: Pattern<_, _, ()> = Pattern::new(&program);
    assert_eq!(pattern.eval(b"zz"), None);
    assert_eq!(pattern.eval(b"ay0"), None);
}

#[test]
fn unit_weight_accepts_input_a_path_satisfies() {
    let program = [Inst::Step(b'a'..=b'c'), Inst::Step(b'x'..=b'x')];
    let mut pattern = Pattern::new(&program);
    assert_eq!(pattern.eval(b"bx0"), Some(()));
}

#[test]
fn range_step_inside_gives_identity() {
    let program = [Inst::Step(b'a'..=b'f')];
    let mut pattern = Pattern::new(&program);
    assert_eq!(pattern.eval(b"a!"), Some(()));
    assert_eq!(pattern.eval(b"f!"), Some(()));
}

#[test]
fn range_step_outside_gives_nothing() {
    let program = [Inst::Step(b'a'..=b'f')];
    let mut pattern: Pattern<_, _, ()> = Pattern::new(&program);
    assert_eq!(pattern.eval(b"g!"), None);
    assert_eq!(pattern.eval(b"`"), None);
}

#[test]
fn match_is_reported_on_the_following_symbol() {
    let program = [Inst::Step(b'a'..=b'f')];
    let mut pattern: Pattern<_, _, ()> = Pattern::new(&program);
    assert_eq!(pattern.eval(b"a"), None);
}

#[test]
fn empty_input_gives_nothing() {
    let empty: [Inst<std::ops::RangeInclusive<u8>>; 0] = [];
    let mut pattern = Pattern::new(&empty);
    assert_eq!(pattern.eval(b""), None::<()>);
    assert_eq!(pattern.eval(b"x"), Some(()));
}

#[test]
fn jump_past_the_end_completes() {
    let program = [Inst::Jump(10), Inst::Step(b'a'..=b'a')];
    let mut pattern = Pattern::new(&program);
    assert_eq!(pattern.eval(b"z"), Some(()));
}

#[test]
fn prefer_target_puts_target_first() {
    let program = [
        Inst::PreferTarget(3),
        Inst::Step(Tagged(b'a', 1)),
        Inst::Jump(4),
        Inst::Step(Tagged(b'a', 2)),
    ];
    let mut pattern = Pattern::new(&program);
    assert_eq!(pattern.eval(b"a."), Some(Trail(201)));
}

#[test]
fn prefer_next_puts_fallthrough_first() {
    let program = [
        Inst::PreferNext(3),
        Inst::Step(Tagged(b'a', 1)),
        Inst::Jump(4),
        Inst::Step(Tagged(b'a', 2)),
    ];
    let mut pattern = Pattern::new(&program);
    assert_eq!(pattern.eval(b"a."), Some(Trail(102)));
}

#[test]
fn converging_paths_merge_in_discovery_order() {
    let program = [
        Inst::PreferTarget(3),
        Inst::Step(Tagged(b'a', 1)),
        Inst::Jump(5),
        Inst::Step(Tagged(b'a', 2)),
        Inst::Jump(5),
        Inst::Step(Tagged(b'b', 3)),
    ];
    let mut pattern = Pattern::new(&program);
    assert_eq!(pattern.eval(b"ab."), Some(Trail(2313)));
}

#[test]
fn later_match_replaces_earlier_one() {
    // Matches "a" and then "ab"; the match at the later position wins.
    let program = [
        Inst::Step(Tagged(b'a', 1)),
        Inst::PreferNext(4),
        Inst::Step(Tagged(b'b', 2)),
        Inst::Jump(4),
    ];
    let mut pattern = Pattern::new(&program);
    assert_eq!(pattern.eval(b"a."), Some(Trail(1)));
    assert_eq!(pattern.eval(b"ab."), Some(Trail(12)));
}

#[test]
fn failed_concat_kills_the_thread() {
    let program = [Inst::Step(Mask(b'a', 0b0110)), Inst::Step(Mask(b'b', 0b1001))];
    let mut pattern = Pattern::new(&program);
    assert_eq!(pattern.eval(b"ab."), None);
    let program = [Inst::Step(Mask(b'a', 0b0110)), Inst::Step(Mask(b'b', 0b0011))];
    let mut pattern = Pattern::new(&program);
    assert_eq!(pattern.eval(b"ab."), Some(Allowed(0b0010)));
}

#[test]
fn evaluating_twice_gives_the_same_result() {
    let program = [
        Inst::Step(Tagged(b'a', 1)),
        Inst::PreferTarget(0),
        Inst::Step(Tagged(b'b', 2)),
    ];
    let mut pattern = Pattern::new(&program);
    let first = pattern.eval(b"aab.");
    let second = pattern.eval(b"aab.");
    assert_eq!(first, Some(Trail(112)));
    assert_eq!(first, second);
}

#[test]
fn no_symbol_matters_once_every_thread_died() {
    let program = [Inst::Step(b'a'..=b'a'), Inst::Step(b'b'..=b'b')];
    let mut pattern = Pattern::new(&program);
    assert_eq!(pattern.eval(b"x"), None);
    assert_eq!(pattern.eval(b"xab."), None);
    assert_eq!(pattern.eval(b"ab.ab."), Some(()));
    assert_eq!(pattern.eval(b"ab.zzzz"), Some(()));
}

#[test]
fn merge_folds_by_priority() {
    assert_eq!(merge::<Trail>(None, None), None);
    assert_eq!(merge(Some(Trail(3)), None), Some(Trail(3)));
    assert_eq!(merge(None, Some(Trail(4))), Some(Trail(4)));
    assert_eq!(merge(Some(Trail(3)), Some(Trail(4))), Some(Trail(304)));
}

#[test]
fn unit_weight_operations() {
    <() as Weight>::success();
    assert_eq!(().concat(&()), Some(()));
    let mut unit = ();
    unit.merge(());
    assert_eq!(unit, ());
}
