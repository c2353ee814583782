//! A handler that looks for one fixed string.

use crate::Bonk;
use vstd::prelude::*;

verus! {

/// The string that `Attacker` looks for: `CTF{bru3e_f0rc3}`.
pub open spec fn secret() -> Seq<u8> {
    seq![67u8, 84, 70, 123, 98, 114, 117, 51, 101, 95, 102, 48, 114, 99, 51, 125]
}

/// The bytes of `secret`.
pub fn secret_bytes() -> (bytes: [u8; 16])
    ensures
        bytes@ == secret(),
{
    let bytes: [u8; 16] = [67, 84, 70, 123, 98, 114, 117, 51, 101, 95, 102, 48, 114, 99, 51, 125];
    assert(bytes@ =~= secret());
    bytes
}

/// A handler that takes exactly `secret` for a match.
pub struct Attacker {}

impl Bonk for Attacker {
    fn new(_id: usize) -> (attacker: Self) {
        Self {  }
    }

    fn check(&mut self, buf: &[u8]) -> (found: bool)
        ensures
            found == (buf@ == secret()),
    {
        let wanted = secret_bytes();
        if buf.len() != 16 {
            return false;
        }
        let mut i: usize = 0;
        while i < 16
            invariant
                i <= 16,
                buf@.len() == 16,
                wanted@ == secret(),
                forall|k: int| 0 <= k < i ==> buf@[k] == secret()[k],
            decreases 16 - i,
        {
            if buf[i] != wanted[i] {
                return false;
            }
            i += 1;
        }
        assert(buf@ =~= secret());
        true
    }
}

} // verus!
