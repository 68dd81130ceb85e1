use parsink::{Inst, Pattern, Step, Weight};
use std::num::NonZeroU128;

/// The set of Caesar shifts still consistent with what was seen, one bit each.
#[derive(Clone, Copy, Debug, Eq, PartialEq)]
struct CaesarKeys(NonZeroU128);

impl Weight for CaesarKeys {
    fn success() -> Self {
        CaesarKeys(NonZeroU128::new(!0).unwrap())
    }

    fn concat(&self, other: &Self) -> Option<Self> {
        NonZeroU128::new(self.0.get() & other.0.get()).map(CaesarKeys)
    }

    fn merge(&mut self, other: Self) {
        self.0 |= other.0;
    }
}

/// A range of plaintext bytes, tested against a ciphertext byte.
struct CaesarRange(std::ops::RangeInclusive<u8>);

impl Step<u8, CaesarKeys> for CaesarRange {
    fn step(&self, &input: &u8) -> Option<CaesarKeys> {
        // If C=P+K (mod 128), then K=C-P (mod 128).
        let mask = (1u128 << self.0.len()) - 1;
        let key_start = input.wrapping_sub(*self.0.end()) % 128;
        let mask = mask.rotate_left(key_start.into());
        NonZeroU128::new(mask).map(CaesarKeys)
    }
}

#[test]
fn caesar_key_recovered_for_every_shift() {
    let program = [
        Inst::Step(CaesarRange(b'a'..=b'z')),
        Inst::PreferTarget(0),
        Inst::Step(CaesarRange(b'_'..=b'_')),
        Inst::Step(CaesarRange(b'a'..=b'z')),
        Inst::PreferTarget(3),
    ];
    let mut pattern = Pattern::new(&program);

    let message = b"hello_world";
    for key in 0..128u8 {
        let ciphertext: Vec<u8> = message.iter().map(|&p| p.wrapping_add(key) & 0x7F).collect();
        let expected = CaesarKeys(NonZeroU128::new(1u128 << key).unwrap());
        assert_eq!(pattern.eval(&ciphertext), Some(expected), "key {}", key);
    }
}
