//! Rendering one frame of the puzzle as fixed-width rows of `=` bars with
//! ANSI color accents: the last-moved disk in red, other disks resting on
//! the highlight peg in green.

use crate::state::{lemma_tower_has_three_pegs, peg_bounded, Tower, TowerView};
use vstd::prelude::*;
use vstd::string::StringExecFns;

verus! {

/// How one disk is colored in a frame.
#[derive(Clone, Copy, Debug, PartialEq, Eq, Structural)]
pub enum DiskColor {
    /// The disk moved by the most recent move: red, wherever it sits.
    LastMoved,
    /// Any other disk resting on the highlight peg: green.
    OnDestination,
    /// Everything else: uncolored.
    Plain,
}

/// The coloring rule. Last-moved takes precedence: a disk that was just
/// moved onto the highlight peg is red, not green.
pub open spec fn disk_color_spec(
    last_moved: Option<u32>,
    destination: int,
    peg: int,
    size: u32,
) -> DiskColor {
    if last_moved == Some(size) {
        DiskColor::LastMoved
    } else if peg == destination {
        DiskColor::OnDestination
    } else {
        DiskColor::Plain
    }
}

/// `n` copies of `c` (empty when `n` is negative).
pub open spec fn char_rep(c: char, n: int) -> Seq<char> {
    Seq::new(
        if n >= 0 {
            n as nat
        } else {
            0
        },
        |i: int| c,
    )
}

/// The escape sequence that switches the terminal to red.
pub open spec fn esc_red() -> Seq<char> {
    seq!['\x1b', '[', '3', '1', 'm']
}

/// The escape sequence that switches the terminal to green.
pub open spec fn esc_green() -> Seq<char> {
    seq!['\x1b', '[', '3', '2', 'm']
}

/// The escape sequence that restores the terminal's default color.
pub open spec fn esc_reset() -> Seq<char> {
    seq!['\x1b', '[', '0', 'm']
}

/// A bar of `w` equals signs, wrapped in color codes as `c` asks.
pub open spec fn colored_bar(c: DiskColor, w: int) -> Seq<char> {
    match c {
        DiskColor::LastMoved => esc_red() + char_rep('=', w) + esc_reset(),
        DiskColor::OnDestination => esc_green() + char_rep('=', w) + esc_reset(),
        DiskColor::Plain => char_rep('=', w),
    }
}

/// One grid cell: the slot of peg `p` in row `row` (row 0 is the top).
/// A disk of size `s` shows as a centered bar of width `2s - 1`; an empty
/// slot shows the rod. A single space separates neighbouring cells.
pub open spec fn cell_spec(v: TowerView, row: int, p: int) -> Seq<char> {
    let m = v.disk_count as int;
    let pos = m - row - 1;
    if 0 <= pos < v.pegs[p].len() {
        let size = v.pegs[p][pos];
        let color = disk_color_spec(v.last_moved, v.destination_peg as int, p, size);
        char_rep(' ', m - size) + colored_bar(color, 2 * (size as int) - 1) + char_rep(
            ' ',
            m - size,
        ) + seq![' ']
    } else {
        char_rep(' ', m - 1) + seq!['|'] + char_rep(' ', m - 1) + seq![' ']
    }
}

/// The first `k` cells of row `row`.
pub open spec fn row_prefix(v: TowerView, row: int, k: int) -> Seq<char>
    decreases k,
{
    if k <= 0 {
        Seq::empty()
    } else {
        row_prefix(v, row, k - 1) + cell_spec(v, row, k - 1)
    }
}

/// One full row of the grid: the three cells and a newline.
pub open spec fn row_spec(v: TowerView, row: int) -> Seq<char> {
    row_prefix(v, row, 3) + seq!['\n']
}

/// The first `k` rows of the grid.
pub open spec fn rows_prefix(v: TowerView, k: int) -> Seq<char>
    decreases k,
{
    if k <= 0 {
        Seq::empty()
    } else {
        rows_prefix(v, k - 1) + row_spec(v, k - 1)
    }
}

/// The first `k` segments of the base row: each peg gets a bar of width
/// `2m` and a separating space.
pub open spec fn base_prefix(m: int, k: int) -> Seq<char>
    decreases k,
{
    if k <= 0 {
        Seq::empty()
    } else {
        base_prefix(m, k - 1) + char_rep('=', 2 * m) + seq![' ']
    }
}

/// The single-letter label of peg `i`.
pub open spec fn label_seq(i: int) -> Seq<char> {
    if i == 0 {
        seq!['A']
    } else if i == 1 {
        seq!['B']
    } else {
        seq!['C']
    }
}

/// The first `k` segments of the label row: each label centered in its
/// peg's column, followed by a separating space.
pub open spec fn label_prefix(m: int, k: int) -> Seq<char>
    decreases k,
{
    if k <= 0 {
        Seq::empty()
    } else {
        label_prefix(m, k - 1) + char_rep(' ', m - 1) + label_seq(k - 1) + char_rep(' ', m - 1)
            + seq![' ']
    }
}

/// One whole frame: `disk_count` grid rows top to bottom, the base row,
/// and the label row.
pub open spec fn render_spec(v: TowerView) -> Seq<char> {
    let m = v.disk_count as int;
    rows_prefix(v, m) + base_prefix(m, 3) + seq!['\n'] + label_prefix(m, 3) + seq!['\n']
}

/// Appends `n` spaces.
fn push_spaces(out: &mut String, n: usize)
    ensures
        final(out)@ == old(out)@ + char_rep(' ', n as int),
{
    proof {
        assert(old(out)@ + char_rep(' ', 0) =~= old(out)@);
    }
    let mut i: usize = 0;
    while i < n
        invariant
            i <= n,
            out@ == old(out)@ + char_rep(' ', i as int),
        decreases n - i,
    {
        proof {
            reveal_strlit(" ");
        }
        out.append(" ");
        proof {
            assert(out@ =~= old(out)@ + char_rep(' ', i + 1));
        }
        i = i + 1;
    }
}

/// Appends a bar of `n` equals signs.
fn push_bars(out: &mut String, n: usize)
    ensures
        final(out)@ == old(out)@ + char_rep('=', n as int),
{
    proof {
        assert(old(out)@ + char_rep('=', 0) =~= old(out)@);
    }
    let mut i: usize = 0;
    while i < n
        invariant
            i <= n,
            out@ == old(out)@ + char_rep('=', i as int),
        decreases n - i,
    {
        proof {
            reveal_strlit("=");
        }
        out.append("=");
        proof {
            assert(out@ =~= old(out)@ + char_rep('=', i + 1));
        }
        i = i + 1;
    }
}

/// Appends the code that switches to red.
fn push_red(out: &mut String)
    ensures
        final(out)@ == old(out)@ + esc_red(),
{
    proof {
        reveal_strlit("\x1b[31m");
    }
    out.append("\x1b[31m");
    proof {
        assert(out@ =~= old(out)@ + esc_red());
    }
}

/// Appends the code that switches to green.
fn push_green(out: &mut String)
    ensures
        final(out)@ == old(out)@ + esc_green(),
{
    proof {
        reveal_strlit("\x1b[32m");
    }
    out.append("\x1b[32m");
    proof {
        assert(out@ =~= old(out)@ + esc_green());
    }
}

/// Appends the code that restores the default color.
fn push_reset(out: &mut String)
    ensures
        final(out)@ == old(out)@ + esc_reset(),
{
    proof {
        reveal_strlit("\x1b[0m");
    }
    out.append("\x1b[0m");
    proof {
        assert(out@ =~= old(out)@ + esc_reset());
    }
}

/// Appends a newline.
fn push_newline(out: &mut String)
    ensures
        final(out)@ == old(out)@ + seq!['\n'],
{
    proof {
        reveal_strlit("\n");
    }
    out.append("\n");
    proof {
        assert(out@ =~= old(out)@ + seq!['\n']);
    }
}

/// Appends a single space.
fn push_space(out: &mut String)
    ensures
        final(out)@ == old(out)@ + seq![' '],
{
    proof {
        reveal_strlit(" ");
    }
    out.append(" ");
    proof {
        assert(out@ =~= old(out)@ + seq![' ']);
    }
}

/// Appends the rod character.
fn push_rod(out: &mut String)
    ensures
        final(out)@ == old(out)@ + seq!['|'],
{
    proof {
        reveal_strlit("|");
    }
    out.append("|");
    proof {
        assert(out@ =~= old(out)@ + seq!['|']);
    }
}

/// Appends peg `i`'s label.
fn push_label(out: &mut String, i: usize)
    requires
        i < 3,
    ensures
        final(out)@ == old(out)@ + label_seq(i as int),
{
    match i {
        0 => {
            proof {
                reveal_strlit("A");
            }
            out.append("A");
        },
        1 => {
            proof {
                reveal_strlit("B");
            }
            out.append("B");
        },
        _ => {
            proof {
                reveal_strlit("C");
            }
            out.append("C");
        },
    }
    proof {
        assert(out@ =~= old(out)@ + label_seq(i as int));
    }
}

/// Appends one grid cell of the frame.
fn push_cell(t: &Tower, row: u32, p: usize, out: &mut String)
    requires
        1 <= t@.disk_count <= 0x3FFF_FFFF,
        row < t@.disk_count,
        p < 3,
        peg_bounded(t@.pegs[p as int], t@.disk_count),
    ensures
        final(out)@ == old(out)@ + cell_spec(t@, row as int, p as int),
{
    let m = t.disk_count();
    let pos = m - row - 1;
    let peg = t.peg(p);
    if (pos as usize) < peg.len() {
        let size = peg[pos as usize];
        assert(1 <= size <= m);
        let pad = (m - size) as usize;
        let w = (2 * size - 1) as usize;
        push_spaces(out, pad);
        match t.disk_color(p, size) {
            DiskColor::LastMoved => {
                push_red(out);
                push_bars(out, w);
                push_reset(out);
            },
            DiskColor::OnDestination => {
                push_green(out);
                push_bars(out, w);
                push_reset(out);
            },
            DiskColor::Plain => {
                push_bars(out, w);
            },
        }
        push_spaces(out, pad);
        push_space(out);
        proof {
            assert(out@ =~= old(out)@ + cell_spec(t@, row as int, p as int));
        }
    } else {
        let pad = (m - 1) as usize;
        push_spaces(out, pad);
        push_rod(out);
        push_spaces(out, pad);
        push_space(out);
        proof {
            assert(out@ =~= old(out)@ + cell_spec(t@, row as int, p as int));
        }
    }
}

impl Tower {
    /// Which color the disk of size `disk_size`, resting on peg `peg_idx`,
    /// gets in a frame. The last-moved disk is red wherever it is; only
    /// other disks on the highlight peg are green.
    pub fn disk_color(&self, peg_idx: usize, disk_size: u32) -> (c: DiskColor)
        ensures
            c == disk_color_spec(
                self@.last_moved,
                self@.destination_peg as int,
                peg_idx as int,
                disk_size,
            ),
    {
        let is_last = match self.last_moved() {
            Some(d) => d == disk_size,
            None => false,
        };
        if is_last {
            DiskColor::LastMoved
        } else if peg_idx == self.destination_peg() {
            DiskColor::OnDestination
        } else {
            DiskColor::Plain
        }
    }

    /// Produces one frame of the animation: `disk_count` grid rows, the
    /// base row, and the peg labels, exactly as `render_spec` lays them
    /// out. A puzzle needs at least one disk to have a drawable grid, and
    /// the disk count is bounded so every column width fits the machine.
    pub fn render(&self) -> (out: String)
        requires
            1 <= self@.disk_count <= 0x3FFF_FFFF,
            forall|k: int| 0 <= k < 3 ==> peg_bounded(#[trigger] self@.pegs[k], self@.disk_count),
        ensures
            out@ == render_spec(self@),
    {
        proof {
            lemma_tower_has_three_pegs(*self);
        }
        let m = self.disk_count();
        let mut out = String::new();
        proof {
            assert(out@ =~= rows_prefix(self@, 0));
        }
        let mut row: u32 = 0;
        while row < m
            invariant
                row <= m,
                m == self@.disk_count,
                1 <= m <= 0x3FFF_FFFF,
                forall|k: int|
                    0 <= k < 3 ==> peg_bounded(#[trigger] self@.pegs[k], self@.disk_count),
                out@ == rows_prefix(self@, row as int),
            decreases m - row,
        {
            let mut p: usize = 0;
            proof {
                assert(out@ + row_prefix(self@, row as int, 0) =~= out@);
            }
            while p < 3
                invariant
                    p <= 3,
                    row < m,
                    m == self@.disk_count,
                    1 <= m <= 0x3FFF_FFFF,
                    forall|k: int|
                        0 <= k < 3 ==> peg_bounded(#[trigger] self@.pegs[k], self@.disk_count),
                    out@ == rows_prefix(self@, row as int) + row_prefix(
                        self@,
                        row as int,
                        p as int,
                    ),
                decreases 3 - p,
            {
                push_cell(self, row, p, &mut out);
                proof {
                    assert(out@ =~= rows_prefix(self@, row as int) + row_prefix(
                        self@,
                        row as int,
                        p + 1,
                    ));
                }
                p = p + 1;
            }
            push_newline(&mut out);
            proof {
                assert(out@ =~= rows_prefix(self@, row as int + 1));
            }
            row = row + 1;
        }
        let ghost grid = rows_prefix(self@, m as int);
        let mut p: usize = 0;
        proof {
            assert(out@ + base_prefix(m as int, 0) =~= out@);
        }
        while p < 3
            invariant
                p <= 3,
                m == self@.disk_count,
                1 <= m <= 0x3FFF_FFFF,
                out@ == grid + base_prefix(m as int, p as int),
            decreases 3 - p,
        {
            push_bars(&mut out, (2 * m) as usize);
            push_space(&mut out);
            proof {
                assert(out@ =~= grid + base_prefix(m as int, p + 1));
            }
            p = p + 1;
        }
        push_newline(&mut out);
        let ghost based = grid + base_prefix(m as int, 3) + seq!['\n'];
        proof {
            assert(out@ =~= based);
            assert(out@ + label_prefix(m as int, 0) =~= out@);
        }
        let mut p: usize = 0;
        while p < 3
            invariant
                p <= 3,
                m == self@.disk_count,
                1 <= m <= 0x3FFF_FFFF,
                out@ == based + label_prefix(m as int, p as int),
            decreases 3 - p,
        {
            push_spaces(&mut out, (m - 1) as usize);
            push_label(&mut out, p);
            push_spaces(&mut out, (m - 1) as usize);
            push_space(&mut out);
            proof {
                assert(out@ =~= based + label_prefix(m as int, p + 1));
            }
            p = p + 1;
        }
        push_newline(&mut out);
        proof {
            assert(out@ =~= render_spec(self@));
        }
        out
    }
}

} // verus!
