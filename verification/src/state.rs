//! The puzzle state: three pegs of disks, the last disk moved, and the peg
//! highlighted while rendering.

use vstd::multiset::Multiset;
use vstd::prelude::*;

verus! {

/// Mathematical view of a [`Tower`]: the three peg stacks as sequences
/// (index 0 is the bottom of a peg, the last element its top), together
/// with the bookkeeping the renderer reads.
pub ghost struct TowerView {
    /// Contents of pegs A, B and C, in that order; always three sequences.
    pub pegs: Seq<Seq<u32>>,
    /// Number of disks the puzzle was created with.
    pub disk_count: u32,
    /// The disk moved by the most recent move, if any.
    pub last_moved: Option<u32>,
    /// The peg whose resident disks the renderer highlights.
    pub destination_peg: usize,
}

/// The stack `[n, n - 1, ..., 1]` read from bottom to top: all `n` disks
/// piled in decreasing size, the smallest on top.
pub open spec fn full_stack(n: nat) -> Seq<u32> {
    Seq::new(n, |i: int| (n - i) as u32)
}

/// A peg is ordered when sizes strictly decrease from bottom to top, so no
/// disk ever rests on a smaller one.
pub open spec fn peg_ordered(p: Seq<u32>) -> bool {
    forall|i: int, j: int| 0 <= i < j < p.len() ==> p[i] > p[j]
}

/// Every disk on `p` is a size in `1 ..= n`.
pub open spec fn peg_bounded(p: Seq<u32>, n: u32) -> bool {
    forall|i: int| 0 <= i < p.len() ==> 1 <= #[trigger] p[i] <= n
}

/// The disks spread over the three pegs are exactly `{1, ..., n}`, each
/// size present exactly once.
pub open spec fn pegs_complete(pegs: Seq<Seq<u32>>, n: u32) -> bool {
    pegs[0].to_multiset().add(pegs[1].to_multiset()).add(pegs[2].to_multiset())
        == full_stack(n as nat).to_multiset()
}

impl TowerView {
    /// The state invariant: three pegs, each ordered and holding only disk
    /// sizes of this puzzle, all disks present exactly once, and a valid
    /// highlight peg.
    pub open spec fn wf(self) -> bool {
        &&& self.pegs.len() == 3
        &&& forall|k: int| 0 <= k < 3 ==> peg_ordered(#[trigger] self.pegs[k])
        &&& forall|k: int| 0 <= k < 3 ==> peg_bounded(#[trigger] self.pegs[k], self.disk_count)
        &&& pegs_complete(self.pegs, self.disk_count)
        &&& self.destination_peg < 3
    }
}

/// The puzzle state. Pegs are addressed by index: 0 is A, 1 is B, 2 is C.
pub struct Tower {
    peg_a: Vec<u32>,
    peg_b: Vec<u32>,
    peg_c: Vec<u32>,
    max_disk_size: u32,
    last_moved_disk: Option<u32>,
    destination_peg: usize,
}

impl View for Tower {
    type V = TowerView;

    closed spec fn view(&self) -> TowerView {
        TowerView {
            pegs: seq![self.peg_a@, self.peg_b@, self.peg_c@],
            disk_count: self.max_disk_size,
            last_moved: self.last_moved_disk,
            destination_peg: self.destination_peg,
        }
    }
}

impl Tower {
    /// Creates the puzzle with all `num_disks` disks stacked on peg A in
    /// decreasing size, the largest at the bottom. A count of zero is a
    /// valid no-move puzzle with three empty pegs. The highlight peg is C,
    /// the overall destination.
    pub fn new(num_disks: u32) -> (t: Tower)
        ensures
            t@.pegs[0] == full_stack(num_disks as nat),
            t@.pegs[1] == Seq::<u32>::empty(),
            t@.pegs[2] == Seq::<u32>::empty(),
            t@.disk_count == num_disks,
            t@.last_moved is None,
            t@.destination_peg == 2,
            t@.wf(),
    {
        let mut first: Vec<u32> = Vec::new();
        let mut disk: u32 = num_disks;
        while disk >= 1
            invariant
                disk <= num_disks,
                first@.len() == num_disks - disk,
                forall|i: int|
                    0 <= i < first@.len() ==> #[trigger] first@[i] == num_disks - i,
            decreases disk,
        {
            first.push(disk);
            disk = disk - 1;
        }
        assert(first@ =~= full_stack(num_disks as nat));
        let t = Tower {
            peg_a: first,
            peg_b: Vec::new(),
            peg_c: Vec::new(),
            max_disk_size: num_disks,
            last_moved_disk: None,
            destination_peg: 2,
        };
        proof {
            lemma_full_stack_ordered(num_disks as nat);
            assert(pegs_complete(t@.pegs, num_disks)) by {
                broadcast use vstd::seq_lib::group_to_multiset_ensures;
                broadcast use vstd::multiset::group_multiset_axioms;

                assert(Seq::<u32>::empty().to_multiset() =~= Multiset::<u32>::empty());
                assert(t@.pegs[0].to_multiset().add(t@.pegs[1].to_multiset()).add(
                    t@.pegs[2].to_multiset(),
                ) =~= full_stack(num_disks as nat).to_multiset());
            }
        }
        t
    }

    /// Read access to one peg's stack, bottom first.
    pub fn peg(&self, idx: usize) -> (p: &Vec<u32>)
        requires
            idx < 3,
        ensures
            p@ == self@.pegs[idx as int],
    {
        match idx {
            0 => &self.peg_a,
            1 => &self.peg_b,
            _ => &self.peg_c,
        }
    }

    /// The number of disks the puzzle was created with.
    pub fn disk_count(&self) -> (n: u32)
        ensures
            n == self@.disk_count,
    {
        self.max_disk_size
    }

    /// The disk moved by the most recent move, if any move happened yet.
    pub fn last_moved(&self) -> (d: Option<u32>)
        ensures
            d == self@.last_moved,
    {
        self.last_moved_disk
    }

    /// The peg the renderer highlights: the overall destination.
    pub fn destination_peg(&self) -> (p: usize)
        ensures
            p == self@.destination_peg,
    {
        self.destination_peg
    }

    /// Moves the top disk of peg `from` onto peg `to` and records it as the
    /// last-moved disk. The caller must hand it a non-empty source peg: a
    /// correctly generated move sequence never violates this, so a breach
    /// would be a solver bug, not a runtime condition.
    pub fn move_disk(&mut self, from: usize, to: usize)
        requires
            from < 3,
            to < 3,
            from != to,
            old(self)@.pegs[from as int].len() > 0,
        ensures
            final(self)@.pegs.len() == 3,
            final(self)@.pegs[from as int] == old(self)@.pegs[from as int].drop_last(),
            final(self)@.pegs[to as int] == old(self)@.pegs[to as int].push(
                old(self)@.pegs[from as int].last(),
            ),
            forall|k: int|
                0 <= k < 3 && k != from && k != to ==> final(self)@.pegs[k] == old(
                    self,
                )@.pegs[k],
            final(self)@.last_moved == Some(old(self)@.pegs[from as int].last()),
            final(self)@.disk_count == old(self)@.disk_count,
            final(self)@.destination_peg == old(self)@.destination_peg,
    {
        let disk: u32 = match from {
            0 => self.peg_a.pop().unwrap(),
            1 => self.peg_b.pop().unwrap(),
            _ => self.peg_c.pop().unwrap(),
        };
        self.last_moved_disk = Some(disk);
        match to {
            0 => self.peg_a.push(disk),
            1 => self.peg_b.push(disk),
            _ => self.peg_c.push(disk),
        }
    }
}

/// A `Tower` always has exactly three pegs in its view.
pub proof fn lemma_tower_has_three_pegs(t: Tower)
    ensures
        t@.pegs.len() == 3,
{
}

/// The full starting stack is ordered and holds only sizes `1 ..= n`.
pub proof fn lemma_full_stack_ordered(n: nat)
    requires
        n <= u32::MAX,
    ensures
        peg_ordered(full_stack(n)),
        peg_bounded(full_stack(n), n as u32),
{
    assert forall|i: int, j: int| 0 <= i < j < n implies full_stack(n)[i] > full_stack(
        n,
    )[j] by {
        assert(full_stack(n)[i] == (n - i) as u32);
    }
}

} // verus!
