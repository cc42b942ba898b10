//! The textual path artifact: the peg count on its own line, then every peg
//! index of the path in order, each followed by a comma.

use vstd::prelude::*;

verus! {

/// The ASCII decimal representation of `n`, most significant digit first.
pub open spec fn dec_rep(n: int) -> Seq<u8>
    recommends
        n >= 0,
    decreases n,
{
    if n < 10 {
        seq![(48 + n) as u8]
    } else {
        dec_rep(n / 10).push((48 + n % 10) as u8)
    }
}

/// The byte content of the path artifact for a peg count and a path.
pub open spec fn path_text_rep(circle_points: int, path: Seq<u16>) -> Seq<u8>
    decreases path.len(),
{
    if path.len() == 0 {
        dec_rep(circle_points).push(10u8)
    } else {
        path_text_rep(circle_points, path.drop_last()) + dec_rep(path.last() as int) + seq![44u8]
    }
}

/// Writes `n` in ASCII decimal, most significant digit first.
pub fn dec_bytes(n: usize) -> (r: Vec<u8>)
    ensures
        r@ == dec_rep(n as int),
    decreases n,
{
    if n < 10 {
        let mut v: Vec<u8> = Vec::new();
        v.push(48 + n as u8);
        proof {
            assert(v@ =~= dec_rep(n as int));
        }
        v
    } else {
        let mut v: Vec<u8> = dec_bytes(n / 10);
        v.push(48 + (n % 10) as u8);
        v
    }
}

/// Builds the path artifact: the peg count, a newline, then every peg index
/// in path order, each followed by a comma.
pub fn path_text(circle_points: usize, path: &Vec<u16>) -> (r: Vec<u8>)
    ensures
        r@ == path_text_rep(circle_points as int, path@),
{
    let mut out: Vec<u8> = dec_bytes(circle_points);
    out.push(10u8);
    proof {
        assert(path@.take(0) =~= Seq::<u16>::empty());
        assert(out@ =~= path_text_rep(circle_points as int, path@.take(0)));
    }
    let mut i: usize = 0;
    while i < path.len()
        invariant
            0 <= i <= path@.len(),
            out@ == path_text_rep(circle_points as int, path@.take(i as int)),
        decreases path@.len() - i,
    {
        let mut digits: Vec<u8> = dec_bytes(path[i] as usize);
        out.append(&mut digits);
        out.push(44u8);
        proof {
            assert(path@.take(i + 1).drop_last() =~= path@.take(i as int));
            assert(path@.take(i + 1).last() == path@[i as int]);
        }
        i = i + 1;
    }
    proof {
        assert(path@.take(path@.len() as int) =~= path@);
    }
    out
}

} // verus!
