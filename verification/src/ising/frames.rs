//! The spin array of a recorded lattice frame: `[` then the spins in
//! row-major order, `1` for up and `-1` for down, separated by commas, then
//! `]`.

use vstd::prelude::*;

verus! {

/// The text of one spin.
pub open spec fn spin_text(v: i8) -> Seq<u8> {
    if v == 1 {
        seq![49u8]
    } else {
        seq![45u8, 49u8]
    }
}

/// The spins' texts joined by commas.
pub open spec fn spins_joined(s: Seq<i8>) -> Seq<u8>
    decreases s.len(),
{
    if s.len() == 0 {
        Seq::empty()
    } else if s.len() == 1 {
        spin_text(s[0])
    } else {
        spins_joined(s.drop_last()) + seq![44u8] + spin_text(s.last())
    }
}

/// The bracketed spin array.
pub open spec fn spins_array(s: Seq<i8>) -> Seq<u8> {
    seq![91u8] + spins_joined(s) + seq![93u8]
}

/// The bytes of the spin array of a frame.
pub fn spins_array_bytes(spins: &[i8]) -> (out: Vec<u8>)
    ensures
        out@ == spins_array(spins@),
{
    let mut out: Vec<u8> = Vec::new();
    out.push(91u8);
    let mut i: usize = 0;
    while i < spins.len()
        invariant
            i <= spins@.len(),
            out@ == seq![91u8] + spins_joined(spins@.take(i as int)),
        decreases spins@.len() - i,
    {
        if i > 0 {
            out.push(44u8);
        }
        if spins[i] == 1 {
            out.push(49u8);
        } else {
            out.push(45u8);
            out.push(49u8);
        }
        proof {
            let next = spins@.take(i + 1);
            assert(next.drop_last() =~= spins@.take(i as int));
            assert(next.last() == spins@[i as int]);
            assert(out@ =~= seq![91u8] + spins_joined(next));
        }
        i += 1;
    }
    out.push(93u8);
    proof {
        assert(spins@.take(spins@.len() as int) =~= spins@);
        assert(out@ =~= spins_array(spins@));
    }
    out
}

} // verus!
