use parsink::{Inst, Pattern};

#[test]
fn recognize() {
    let mut pattern = Pattern::new(&[
        Inst::Step(b'A'..=b'A'),
        Inst::Step(b'a'..=b'z'),
        Inst::PreferTarget(0),
    ]);

    assert_eq!(pattern.eval(b"0"), None);
    assert_eq!(pattern.eval(b"AbAz0"), Some(()));
}
