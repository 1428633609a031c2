//! The Towers of Hanoi solver: the classic recursive move sequence,
//! pinned exactly by a recursive specification.

use vstd::prelude::*;

verus! {

/// A peg of the Towers of Hanoi puzzle.
#[derive(Clone, Copy, Debug, Eq, PartialEq, Structural)]
pub enum Peg {
    A,
    B,
    C,
}

/// A move between two pegs: (source, destination).
pub type Move = (Peg, Peg);

/// The move sequence that carries `num_discs` discs from `src` to
/// `dst` through `aux`: solve for one disc fewer onto the auxiliary
/// peg, move the largest disc, then bring the rest on top of it.
pub open spec fn hanoi_moves(num_discs: nat, src: Peg, aux: Peg, dst: Peg) -> Seq<Move>
    decreases num_discs,
{
    if num_discs == 0 {
        Seq::empty()
    } else {
        hanoi_moves((num_discs - 1) as nat, src, dst, aux) + seq![(src, dst)] + hanoi_moves(
            (num_discs - 1) as nat,
            aux,
            src,
            dst,
        )
    }
}

/// Doubling, used to count the moves of a solution.
pub open spec fn pow2_of(n: nat) -> nat
    decreases n,
{
    if n == 0 {
        1
    } else {
        2 * pow2_of((n - 1) as nat)
    }
}

/// A solution for `n` discs takes exactly `2^n - 1` moves.
pub proof fn lemma_hanoi_move_count(n: nat, src: Peg, aux: Peg, dst: Peg)
    ensures
        hanoi_moves(n, src, aux, dst).len() == pow2_of(n) - 1,
    decreases n,
{
    if n > 0 {
        lemma_hanoi_move_count((n - 1) as nat, src, dst, aux);
        lemma_hanoi_move_count((n - 1) as nat, aux, src, dst);
    }
}

/// Solves for the sequence of moves required to move all discs from
/// `src` to `dst`.
pub fn hanoi(num_discs: u32, src: Peg, aux: Peg, dst: Peg) -> (moves: Vec<Move>)
    ensures
        moves@ == hanoi_moves(num_discs as nat, src, aux, dst),
    decreases num_discs,
{
    if num_discs == 0 {
        let empty: Vec<Move> = Vec::new();
        proof {
            assert(empty@ =~= hanoi_moves(0, src, aux, dst));
        }
        return empty;
    }
    let mut on_aux = hanoi(num_discs - 1, src, dst, aux);
    on_aux.push((src, dst));
    let mut on_dst = hanoi(num_discs - 1, aux, src, dst);
    on_aux.append(&mut on_dst);
    proof {
        assert(on_aux@ =~= hanoi_moves(num_discs as nat, src, aux, dst));
    }
    on_aux
}

} // verus!
