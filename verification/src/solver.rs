//! The recursive solver: generates the move sequence for `n` disks and the
//! laws that hold of it — its exact length, the legality of every move, the
//! peg ordering at every intermediate state, and the final position.

use crate::state::{
    full_stack, lemma_tower_has_three_pegs, peg_bounded, peg_ordered, pegs_complete, Tower,
    TowerView,
};
use vstd::prelude::*;

verus! {

/// One move: the disk of size `disk` leaves the top of peg `from` for the
/// top of peg `to`. Pegs are indexed 0 (A), 1 (B), 2 (C).
#[derive(Clone, Copy, Debug, PartialEq, Eq, Structural)]
pub struct Move {
    pub disk: u32,
    pub from: usize,
    pub to: usize,
}

/// `2^n`.
pub open spec fn pow2(n: nat) -> nat
    decreases n,
{
    if n == 0 {
        1
    } else {
        2 * pow2((n - 1) as nat)
    }
}

/// The move sequence of the classic recursive solution: move `n - 1` disks
/// out of the way, move disk `n`, move the `n - 1` disks back on top of it.
pub open spec fn hanoi_moves(n: nat, source: usize, destination: usize, auxiliary: usize) -> Seq<
    Move,
>
    decreases n,
{
    if n == 0 {
        Seq::empty()
    } else {
        hanoi_moves((n - 1) as nat, source, auxiliary, destination) + seq![
            Move { disk: n as u32, from: source, to: destination },
        ] + hanoi_moves((n - 1) as nat, auxiliary, destination, source)
    }
}

/// The pegs after `m` is played on `pegs`: the top of `m.from` is removed
/// and appended to `m.to`. Meaningful when `m` is legal in `pegs`.
pub open spec fn play_move(pegs: Seq<Seq<u32>>, m: Move) -> Seq<Seq<u32>> {
    pegs.update(m.from as int, pegs[m.from as int].drop_last()).update(
        m.to as int,
        pegs[m.to as int].push(pegs[m.from as int].last()),
    )
}

/// The pegs after the whole sequence `ms` is played on `pegs`, first move
/// first.
pub open spec fn play_moves(pegs: Seq<Seq<u32>>, ms: Seq<Move>) -> Seq<Seq<u32>>
    decreases ms.len(),
{
    if ms.len() == 0 {
        pegs
    } else {
        play_moves(play_move(pegs, ms[0]), ms.drop_first())
    }
}

/// A move is legal in `pegs` when it names two distinct pegs, takes the
/// disk actually on top of its source peg, and puts it on an empty peg or
/// on a strictly larger disk.
pub open spec fn legal_move(pegs: Seq<Seq<u32>>, m: Move) -> bool {
    &&& m.from < 3
    &&& m.to < 3
    &&& m.from != m.to
    &&& pegs[m.from as int].len() > 0
    &&& pegs[m.from as int].last() == m.disk
    &&& (pegs[m.to as int].len() == 0 || pegs[m.to as int].last() > m.disk)
}

/// Every move of `ms` is legal in the state reached by playing the moves
/// before it, starting from `pegs`.
pub open spec fn legal_moves(pegs: Seq<Seq<u32>>, ms: Seq<Move>) -> bool
    decreases ms.len(),
{
    ms.len() == 0 || (legal_move(pegs, ms[0]) && legal_moves(play_move(pegs, ms[0]), ms.drop_first()))
}

/// Every disk on `p` is larger than `n`.
pub open spec fn all_larger(p: Seq<u32>, n: nat) -> bool {
    forall|i: int| 0 <= i < p.len() ==> #[trigger] p[i] > n
}

/// Playing a concatenation is playing the first part, then the second on
/// what the first left behind.
pub proof fn lemma_play_moves_concat(pegs: Seq<Seq<u32>>, x: Seq<Move>, y: Seq<Move>)
    ensures
        play_moves(pegs, x + y) == play_moves(play_moves(pegs, x), y),
    decreases x.len(),
{
    if x.len() == 0 {
        assert(x + y =~= y);
    } else {
        assert((x + y).drop_first() =~= x.drop_first() + y);
        lemma_play_moves_concat(play_move(pegs, x[0]), x.drop_first(), y);
    }
}

/// A concatenation is legal exactly when the first part is legal and the
/// second is legal in the state the first part leaves behind.
pub proof fn lemma_legal_moves_concat(pegs: Seq<Seq<u32>>, x: Seq<Move>, y: Seq<Move>)
    ensures
        legal_moves(pegs, x + y) <==> (legal_moves(pegs, x) && legal_moves(
            play_moves(pegs, x),
            y,
        )),
    decreases x.len(),
{
    if x.len() == 0 {
        assert(x + y =~= y);
    } else {
        assert((x + y).drop_first() =~= x.drop_first() + y);
        lemma_legal_moves_concat(play_move(pegs, x[0]), x.drop_first(), y);
    }
}

/// The generated sequence has exactly `2^n - 1` moves.
pub proof fn lemma_move_count(n: nat, source: usize, destination: usize, auxiliary: usize)
    ensures
        hanoi_moves(n, source, destination, auxiliary).len() == pow2(n) - 1,
    decreases n,
{
    if n > 0 {
        lemma_move_count((n - 1) as nat, source, auxiliary, destination);
        lemma_move_count((n - 1) as nat, auxiliary, destination, source);
    }
}

/// Correctness of the generated sequence. If the top `n` disks of peg `s`
/// are `n, ..., 1` and every other disk anywhere is larger than `n`, then
/// the sequence is legal throughout, carries those `n` disks onto peg `d`
/// in the same order, and leaves peg `a` as it was.
pub proof fn lemma_hanoi_moves_correct(pegs: Seq<Seq<u32>>, n: nat, s: usize, d: usize, a: usize)
    requires
        n <= u32::MAX,
        pegs.len() == 3,
        s < 3,
        d < 3,
        a < 3,
        s != d,
        s != a,
        d != a,
        n <= pegs[s as int].len(),
        pegs[s as int].skip(pegs[s as int].len() - n) == full_stack(n),
        all_larger(pegs[s as int].take(pegs[s as int].len() - n), n),
        all_larger(pegs[d as int], n),
        all_larger(pegs[a as int], n),
    ensures
        legal_moves(pegs, hanoi_moves(n, s, d, a)),
        play_moves(pegs, hanoi_moves(n, s, d, a)).len() == 3,
        play_moves(pegs, hanoi_moves(n, s, d, a))[s as int] == pegs[s as int].take(
            pegs[s as int].len() - n,
        ),
        play_moves(pegs, hanoi_moves(n, s, d, a))[d as int] == pegs[d as int] + full_stack(n),
        play_moves(pegs, hanoi_moves(n, s, d, a))[a as int] == pegs[a as int],
    decreases n,
{
    let len = pegs[s as int].len() as int;
    if n == 0 {
        assert(pegs[s as int].take(len) =~= pegs[s as int]);
        assert(pegs[d as int] + full_stack(0) =~= pegs[d as int]);
    } else {
        let m = (n - 1) as nat;
        let m1 = hanoi_moves(m, s, a, d);
        let mid = seq![Move { disk: n as u32, from: s, to: d }];
        let m2 = hanoi_moves(m, a, d, s);
        assert(hanoi_moves(n, s, d, a) == m1 + mid + m2);

        // Each of the top n entries of peg s is the matching disk size.
        assert forall|i: int| 0 <= i < n implies #[trigger] pegs[s as int][len - n + i] == (n
            - i) as u32 by {
            assert(pegs[s as int].skip(len - n)[i] == full_stack(n)[i]);
        }

        // First half: the n-1 smaller disks go from s to a, above only
        // disks larger than n-1.
        assert(pegs[s as int].skip(len - m) =~= full_stack(m)) by {
            assert forall|i: int| 0 <= i < m implies #[trigger] pegs[s as int].skip(len - m)[i]
                == (m - i) as u32 by {
                assert(pegs[s as int][len - n + (i + 1)] == (n - (i + 1)) as u32);
            }
        }
        assert(pegs[s as int][len - n + 0] == (n - 0) as u32);
        assert(pegs[s as int][len - n] == n as u32);
        assert(all_larger(pegs[s as int].take(len - m), m)) by {
            assert forall|i: int| 0 <= i < len - m implies #[trigger] pegs[s as int].take(
                len - m,
            )[i] > m by {
                if i < len - n {
                    assert(pegs[s as int].take(len - n)[i] > n);
                }
            }
        }
        lemma_hanoi_moves_correct(pegs, m, s, a, d);
        let p1 = play_moves(pegs, m1);
        assert(p1[s as int] == pegs[s as int].take(len - m));
        assert(p1[a as int] == pegs[a as int] + full_stack(m));
        assert(p1[d as int] == pegs[d as int]);

        // The middle move: disk n from s to d.
        let mv = Move { disk: n as u32, from: s, to: d };
        assert(p1[s as int].len() == len - m);
        assert(p1[s as int].last() == pegs[s as int][len - n]);
        assert(legal_move(p1, mv));
        let p2 = play_move(p1, mv);
        assert(p2[s as int] =~= pegs[s as int].take(len - n)) by {
            assert(p2[s as int] == p1[s as int].drop_last());
        }
        assert(p2[d as int] == pegs[d as int].push(n as u32));
        assert(p2[a as int] == pegs[a as int] + full_stack(m));
        assert(play_moves(p1, mid) == p2) by {
            assert(mid.drop_first() =~= Seq::<Move>::empty());
            assert(play_moves(play_move(p1, mv), mid.drop_first()) == p2);
        }
        assert(legal_moves(p1, mid)) by {
            assert(mid[0] == mv);
            assert(mid.drop_first() =~= Seq::<Move>::empty());
            assert(legal_moves(p2, Seq::<Move>::empty()));
        }

        // Second half: the n-1 disks go from a onto disk n on d.
        let len2 = p2[a as int].len() as int;
        assert(p2[a as int].skip(len2 - m) =~= full_stack(m));
        assert(all_larger(p2[a as int].take(len2 - m), m)) by {
            assert(p2[a as int].take(len2 - m) =~= pegs[a as int]);
        }
        assert(all_larger(p2[d as int], m)) by {
            assert forall|i: int| 0 <= i < p2[d as int].len() implies #[trigger] p2[d as int][i]
                > m by {
                if i < pegs[d as int].len() {
                    assert(pegs[d as int][i] > n);
                }
            }
        }
        assert(all_larger(p2[s as int], m)) by {
            assert forall|i: int| 0 <= i < p2[s as int].len() implies #[trigger] p2[s as int][i]
                > m by {
                assert(pegs[s as int].take(len - n)[i] > n);
            }
        }
        lemma_hanoi_moves_correct(p2, m, a, d, s);
        let fin = play_moves(p2, m2);
        assert(fin[a as int] =~= pegs[a as int]) by {
            assert(fin[a as int] == p2[a as int].take(len2 - m));
        }
        assert(fin[d as int] =~= pegs[d as int] + full_stack(n)) by {
            assert(fin[d as int] == p2[d as int] + full_stack(m));
            assert forall|i: int| 0 <= i < n implies (pegs[d as int].push(n as u32) + full_stack(
                m,
            ))[pegs[d as int].len() + i] == full_stack(n)[i] by {}
        }
        assert(fin[s as int] == pegs[s as int].take(len - n));

        // Stitch the three parts together.
        lemma_play_moves_concat(pegs, m1 + mid, m2);
        lemma_play_moves_concat(pegs, m1, mid);
        assert(play_moves(pegs, m1 + mid) == p2);
        assert(play_moves(pegs, hanoi_moves(n, s, d, a)) == fin);
        lemma_legal_moves_concat(pegs, m1 + mid, m2);
        lemma_legal_moves_concat(pegs, m1, mid);
    }
}

/// The pegs of a freshly created puzzle: all `n` disks on peg A, largest
/// at the bottom, pegs B and C empty.
pub open spec fn initial_pegs(n: nat) -> Seq<Seq<u32>> {
    seq![full_stack(n), Seq::<u32>::empty(), Seq::<u32>::empty()]
}

/// Solving a fresh puzzle: the generated sequence is legal from the first
/// move to the last, and playing all of it leaves pegs A and B empty and
/// all `n` disks on peg C in decreasing size, the smallest on top.
pub proof fn lemma_solve_solves(n: nat)
    requires
        n <= u32::MAX,
    ensures
        legal_moves(initial_pegs(n), hanoi_moves(n, 0, 2, 1)),
        play_moves(initial_pegs(n), hanoi_moves(n, 0, 2, 1)) == seq![
            Seq::<u32>::empty(),
            Seq::<u32>::empty(),
            full_stack(n),
        ],
{
    let pegs = initial_pegs(n);
    assert(pegs[0].skip(0) =~= full_stack(n));
    assert(all_larger(pegs[0].take(0), n));
    lemma_hanoi_moves_correct(pegs, n, 0, 2, 1);
    let fin = play_moves(pegs, hanoi_moves(n, 0, 2, 1));
    assert(fin[0] =~= Seq::<u32>::empty());
    assert(fin[2] =~= full_stack(n)) by {
        assert(fin[2] == Seq::<u32>::empty() + full_stack(n));
    }
    assert(fin =~= seq![Seq::<u32>::empty(), Seq::<u32>::empty(), full_stack(n)]);
}

/// All three pegs satisfy the ordering invariant: no disk rests on a
/// smaller one.
pub open spec fn all_ordered(pegs: Seq<Seq<u32>>) -> bool {
    forall|k: int| 0 <= k < pegs.len() ==> peg_ordered(#[trigger] pegs[k])
}

/// A legal move keeps every peg ordered: the disk leaves a top and lands
/// on an empty peg or a strictly larger disk.
pub proof fn lemma_legal_move_keeps_order(pegs: Seq<Seq<u32>>, m: Move)
    requires
        pegs.len() == 3,
        all_ordered(pegs),
        legal_move(pegs, m),
    ensures
        all_ordered(play_move(pegs, m)),
{
    let after = play_move(pegs, m);
    let from = m.from as int;
    let to = m.to as int;
    assert(peg_ordered(after[from])) by {
        assert forall|i: int, j: int| 0 <= i < j < after[from].len() implies after[from][i]
            > after[from][j] by {
            assert(pegs[from][i] > pegs[from][j]);
        }
    }
    assert(peg_ordered(after[to])) by {
        let old_len = pegs[to].len() as int;
        assert forall|i: int, j: int| 0 <= i < j < after[to].len() implies after[to][i]
            > after[to][j] by {
            if j < old_len {
                assert(pegs[to][i] > pegs[to][j]);
            } else {
                assert(after[to][j] == m.disk);
                if i < old_len - 1 {
                    assert(pegs[to][i] > pegs[to][old_len - 1]);
                }
            }
        }
    }
}

/// The ordering invariant holds at every intermediate state while a legal
/// sequence is played: after any prefix of the moves, every peg is still
/// ordered.
pub proof fn lemma_order_invariant(pegs: Seq<Seq<u32>>, ms: Seq<Move>)
    requires
        pegs.len() == 3,
        all_ordered(pegs),
        legal_moves(pegs, ms),
    ensures
        forall|k: int|
            0 <= k <= ms.len() ==> all_ordered(play_moves(pegs, #[trigger] ms.take(k))),
    decreases ms.len(),
{
    assert forall|k: int|
        0 <= k <= ms.len() implies all_ordered(play_moves(pegs, #[trigger] ms.take(k))) by {
        if k == 0 {
            assert(ms.take(0) =~= Seq::<Move>::empty());
        } else {
            lemma_legal_move_keeps_order(pegs, ms[0]);
            let next = play_move(pegs, ms[0]);
            lemma_order_invariant(next, ms.drop_first());
            assert(ms.take(k).drop_first() =~= ms.drop_first().take(k - 1));
            assert(all_ordered(play_moves(next, ms.drop_first().take(k - 1))));
            assert(play_moves(pegs, ms.take(k)) == play_moves(next, ms.take(k).drop_first()));
        }
    }
}

/// A legal move never loses, duplicates or resizes a disk: the disks
/// spread over the pegs stay exactly `{1, ..., n}`.
pub proof fn lemma_play_move_keeps_disks(pegs: Seq<Seq<u32>>, m: Move, n: u32)
    requires
        pegs.len() == 3,
        m.from < 3,
        m.to < 3,
        m.from != m.to,
        pegs[m.from as int].len() > 0,
        pegs_complete(pegs, n),
    ensures
        pegs_complete(play_move(pegs, m), n),
{
    broadcast use vstd::seq_lib::group_to_multiset_ensures;
    broadcast use vstd::multiset::group_multiset_axioms;

    let from = m.from as int;
    let to = m.to as int;
    let x = pegs[from].last();
    let after = play_move(pegs, m);
    assert(pegs[from].drop_last() =~= pegs[from].remove(pegs[from].len() - 1));
    assert(after[from].to_multiset() == pegs[from].to_multiset().remove(x));
    assert(after[to].to_multiset() == pegs[to].to_multiset().insert(x));
    assert(pegs[from].contains(x));
    assert(pegs[from].to_multiset().count(x) > 0);
    assert(after[0].to_multiset().add(after[1].to_multiset()).add(after[2].to_multiset())
        =~= pegs[0].to_multiset().add(pegs[1].to_multiset()).add(pegs[2].to_multiset()));
}

/// A legal move takes one well-formed state to another: the pegs stay
/// ordered, the disk sizes stay in range, and every disk stays present
/// exactly once.
pub proof fn lemma_legal_move_keeps_wf(v: TowerView, m: Move)
    requires
        v.wf(),
        legal_move(v.pegs, m),
    ensures
        (TowerView { pegs: play_move(v.pegs, m), ..v }).wf(),
{
    lemma_legal_move_keeps_order(v.pegs, m);
    lemma_play_move_keeps_disks(v.pegs, m, v.disk_count);
    let after = play_move(v.pegs, m);
    assert forall|k: int| 0 <= k < 3 implies peg_bounded(#[trigger] after[k], v.disk_count) by {
        let from = m.from as int;
        let to = m.to as int;
        assert forall|i: int| 0 <= i < after[k].len() implies 1 <= #[trigger] after[k][i]
            <= v.disk_count by {
            if k == to && i == after[to].len() - 1 {
                assert(v.pegs[from].last() == v.pegs[from][v.pegs[from].len() - 1]);
            } else {
                assert(after[k][i] == v.pegs[k][i]);
            }
        }
    }
}

/// Generates the move sequence solving `n` disks from `source` to
/// `destination` via `auxiliary`. The result is a function of the
/// arguments alone, so two calls on the same inputs return the same
/// sequence.
pub fn solve(n: u32, source: usize, destination: usize, auxiliary: usize) -> (moves: Vec<Move>)
    ensures
        moves@ == hanoi_moves(n as nat, source, destination, auxiliary),
    decreases n,
{
    if n == 0 {
        Vec::new()
    } else {
        let mut moves = solve(n - 1, source, auxiliary, destination);
        moves.push(Move { disk: n, from: source, to: destination });
        let mut tail = solve(n - 1, auxiliary, destination, source);
        moves.append(&mut tail);
        proof {
            assert(moves@ =~= hanoi_moves(n as nat, source, destination, auxiliary));
        }
        moves
    }
}

/// Plays a legal move sequence on the tower, one `move_disk` at a time.
/// Afterwards the pegs are exactly the spec-level result of the sequence,
/// and the last-moved disk is the one the final move carried.
pub fn replay(t: &mut Tower, moves: &Vec<Move>)
    requires
        legal_moves(old(t)@.pegs, moves@),
    ensures
        final(t)@.pegs == play_moves(old(t)@.pegs, moves@),
        final(t)@.disk_count == old(t)@.disk_count,
        final(t)@.destination_peg == old(t)@.destination_peg,
        moves@.len() > 0 ==> final(t)@.last_moved == Some(moves@.last().disk),
        moves@.len() == 0 ==> final(t)@.last_moved == old(t)@.last_moved,
{
    proof {
        lemma_tower_has_three_pegs(*t);
        assert(moves@.skip(0) =~= moves@);
        assert(moves@.take(0) =~= Seq::<Move>::empty());
    }
    let ghost orig = t@.pegs;
    let mut i: usize = 0;
    while i < moves.len()
        invariant
            i <= moves@.len(),
            t@.pegs.len() == 3,
            t@.pegs == play_moves(orig, moves@.take(i as int)),
            legal_moves(t@.pegs, moves@.skip(i as int)),
            t@.disk_count == old(t)@.disk_count,
            t@.destination_peg == old(t)@.destination_peg,
            i > 0 ==> t@.last_moved == Some(moves@[i - 1].disk),
            i == 0 ==> t@.last_moved == old(t)@.last_moved,
        decreases moves@.len() - i,
    {
        let m = moves[i];
        proof {
            assert(moves@.skip(i as int)[0] == moves@[i as int]);
            assert(legal_move(t@.pegs, m));
        }
        let ghost before = t@.pegs;
        t.move_disk(m.from, m.to);
        proof {
            assert(t@.pegs =~= play_move(before, m));
            assert(moves@.take(i + 1) =~= moves@.take(i as int) + seq![m]);
            lemma_play_moves_concat(orig, moves@.take(i as int), seq![m]);
            assert(seq![m][0] == m);
            assert(seq![m].drop_first() =~= Seq::<Move>::empty());
            assert(play_moves(play_move(before, m), Seq::<Move>::empty()) == play_move(
                before,
                m,
            ));
            assert(play_moves(before, seq![m]) == play_move(before, m));
            assert(moves@.skip(i as int).drop_first() =~= moves@.skip(i + 1));
        }
        i = i + 1;
    }
    proof {
        assert(moves@.take(moves@.len() as int) =~= moves@);
    }
}

/// Runs a whole puzzle: creates a fresh tower of `n` disks and plays the
/// generated solution on it. The returned tower provably has pegs A and B
/// empty and all `n` disks on peg C, largest at the bottom.
pub fn solve_puzzle(n: u32) -> (t: Tower)
    ensures
        t@.pegs == seq![Seq::<u32>::empty(), Seq::<u32>::empty(), full_stack(n as nat)],
        t@.disk_count == n,
        t@.destination_peg == 2,
{
    let mut t = Tower::new(n);
    let moves = solve(n, 0, 2, 1);
    proof {
        lemma_tower_has_three_pegs(t);
        assert(t@.pegs =~= initial_pegs(n as nat));
        lemma_solve_solves(n as nat);
    }
    replay(&mut t, &moves);
    t
}

/// `pow2` never decreases.
pub proof fn lemma_pow2_mono(a: nat, b: nat)
    requires
        a <= b,
    ensures
        pow2(a) <= pow2(b),
    decreases b,
{
    if a < b {
        lemma_pow2_mono(a, (b - 1) as nat);
    }
}

/// `pow2(n)` fits a `u64` for every `n` up to 63.
pub proof fn lemma_pow2_fits(n: nat)
    requires
        n <= 63,
    ensures
        1 <= pow2(n) <= 0x8000_0000_0000_0000,
{
    lemma_pow2_mono(0, n);
    lemma_pow2_mono(n, 63);
    assert(pow2(16) == 0x1_0000) by {
        reveal_with_fuel(pow2, 17);
    }
    assert(pow2(32) == 0x1_0000_0000) by {
        reveal_with_fuel(pow2, 17);
    }
    assert(pow2(48) == 0x1_0000_0000_0000) by {
        reveal_with_fuel(pow2, 17);
    }
    assert(pow2(63) == 0x8000_0000_0000_0000) by {
        reveal_with_fuel(pow2, 16);
    }
}

/// The number of moves the solver takes for `n` disks: `2^n - 1`. This is
/// a property of the recurrence, not a tunable.
pub fn total_moves(n: u32) -> (r: u64)
    requires
        n <= 63,
    ensures
        r == pow2(n as nat) - 1,
{
    let mut i: u32 = 0;
    let mut p: u64 = 1;
    while i < n
        invariant
            i <= n,
            n <= 63,
            p == pow2(i as nat),
            p >= 1,
        decreases n - i,
    {
        proof {
            lemma_pow2_fits((i + 1) as nat);
        }
        p = p * 2;
        i = i + 1;
    }
    p - 1
}

} // verus!
