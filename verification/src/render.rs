//! The text rendering of a maze: one top border line of underscores, then
//! for each row a line showing the EAST walls between cells and — for all
//! but the last row — a line showing the SOUTH walls toward the next row.
//!
//! The contract counts the `#` markers: the dump holds one marker per
//! enabled interior EAST or SOUTH wall, plus a fixed frame of fillers,
//! so the text is an exact projection of the wall state it renders.

use crate::grid::Maze;
use crate::grid::TileDirection;
use vstd::prelude::*;

verus! {

/// How often `c` occurs in `s`.
pub open spec fn count_char(s: Seq<char>, c: char) -> int
    decreases s.len(),
{
    if s.len() == 0 {
        0
    } else {
        count_char(s.drop_last(), c) + if s.last() == c {
            1int
        } else {
            0int
        }
    }
}

proof fn lemma_count_char_push(s: Seq<char>, x: char, c: char)
    ensures
        count_char(s.push(x), c) == count_char(s, c) + if x == c {
            1int
        } else {
            0int
        },
{
    assert(s.push(x).drop_last() =~= s);
}

proof fn lemma_count_char_append(a: Seq<char>, b: Seq<char>, c: char)
    ensures
        count_char(a + b, c) == count_char(a, c) + count_char(b, c),
    decreases b.len(),
{
    if b.len() == 0 {
        assert(a + b =~= a);
    } else {
        assert((a + b).drop_last() =~= a + b.drop_last());
        lemma_count_char_append(a, b.drop_last(), c);
    }
}

/// The number of `true` entries of `s` (a row of wall queries).
pub open spec fn count_marks(s: Seq<bool>) -> int
    decreases s.len(),
{
    if s.len() == 0 {
        0
    } else {
        count_marks(s.drop_last()) + if s.last() {
            1int
        } else {
            0int
        }
    }
}

/// The total number of `true` entries over several rows.
pub open spec fn count_marks_grid(g: Seq<Seq<bool>>) -> int
    decreases g.len(),
{
    if g.len() == 0 {
        0
    } else {
        count_marks_grid(g.drop_last()) + count_marks(g.last())
    }
}

/// What the EAST-wall line of row `j` shows: one entry per cell except the
/// last column, true when the wall toward the next column is enabled.
pub open spec fn east_row(m: Maze, j: int) -> Seq<bool> {
    Seq::new(
        (m.size.width - 1) as nat,
        |i: int| m.spec_wall_enabled((i as usize, j as usize), TileDirection::EAST),
    )
}

/// What the SOUTH-wall line of row `j` shows: one entry per cell except
/// the last column, true when the wall toward the next row is enabled.
pub open spec fn south_row(m: Maze, j: int) -> Seq<bool> {
    Seq::new(
        (m.size.width - 1) as nat,
        |i: int| m.spec_wall_enabled((i as usize, j as usize), TileDirection::SOUTH),
    )
}

/// All EAST markers of the dump, one row of entries per grid row.
pub open spec fn east_marks(m: Maze) -> Seq<Seq<bool>> {
    Seq::new(m.size.height as nat, |j: int| east_row(m, j))
}

/// All SOUTH markers of the dump: the last grid row shows none.
pub open spec fn south_marks(m: Maze) -> Seq<Seq<bool>> {
    Seq::new((m.size.height - 1) as nat, |j: int| south_row(m, j))
}

/// How many SOUTH-wall lines stand in the dump once `j` grid rows are
/// rendered: one per row but none for the last.
pub open spec fn south_lines_done(j: int, height: int) -> int {
    if j < height - 1 {
        j
    } else {
        height - 1
    }
}

/// The character a wall query shows: a mark when the wall is enabled.
pub open spec fn mark_char(b: bool) -> char {
    if b {
        '#'
    } else {
        ' '
    }
}

/// The first `i` cells of row `j`'s EAST-wall line: a blank, then the
/// mark of the wall toward the next column, per cell.
pub open spec fn east_cells(m: Maze, j: int, i: int) -> Seq<char>
    decreases i,
{
    if i <= 0 {
        Seq::empty()
    } else {
        east_cells(m, j, i - 1) + seq![
            ' ',
            mark_char(
                m.spec_wall_enabled((((i - 1) as usize), (j as usize)), TileDirection::EAST),
            ),
        ]
    }
}

/// The first `i` cells of row `j`'s SOUTH-wall line: the mark of the wall
/// toward the next row, then a filler mark, per cell.
pub open spec fn south_cells(m: Maze, j: int, i: int) -> Seq<char>
    decreases i,
{
    if i <= 0 {
        Seq::empty()
    } else {
        south_cells(m, j, i - 1) + seq![
            mark_char(
                m.spec_wall_enabled((((i - 1) as usize), (j as usize)), TileDirection::SOUTH),
            ),
            '#',
        ]
    }
}

/// The top border: one blank, then an underscore per half-step of the
/// width, then a newline.
pub open spec fn top_line(w: int) -> Seq<char> {
    seq![' '] + Seq::new((2 * w - 1) as nat, |k: int| '_') + seq!['\n']
}

/// Row `j`'s EAST-wall text line, bordered by `|`.
pub open spec fn east_line(m: Maze, j: int) -> Seq<char> {
    seq!['|'] + east_cells(m, j, m.size.width - 1) + seq![' ', '|', '\n']
}

/// Row `j`'s SOUTH-wall text line, bordered by `|`.
pub open spec fn south_line(m: Maze, j: int) -> Seq<char> {
    seq!['|'] + south_cells(m, j, m.size.width - 1) + seq!['#', '|', '\n']
}

/// The text of the first `j` grid rows: per row its EAST-wall line and,
/// for every row but the last of the grid, its SOUTH-wall line.
pub open spec fn rows_text(m: Maze, j: int) -> Seq<char>
    decreases j,
{
    if j <= 0 {
        Seq::empty()
    } else {
        rows_text(m, j - 1) + east_line(m, j - 1) + (if j - 1 < m.size.height - 1 {
            south_line(m, j - 1)
        } else {
            Seq::empty()
        })
    }
}

/// The whole text dump of `m`, character by character.
pub open spec fn render_text(m: Maze) -> Seq<char> {
    top_line(m.size.width as int) + rows_text(m, m.size.height as int)
}

/// Relies on `Iterator::collect` for `String` from `char`s: the string
/// holds exactly the characters handed in, in order.
#[verifier::external_body]
fn chars_to_string(v: &Vec<char>) -> (r: String)
    ensures
        r@ == v@,
{
    v.iter().collect()
}

/// Appends all of `line` to `out`.
fn append_chars(out: &mut Vec<char>, line: &Vec<char>)
    ensures
        final(out)@ == old(out)@ + line@,
{
    let mut k: usize = 0;
    while k < line.len()
        invariant
            k <= line@.len(),
            out@ == old(out)@ + line@.take(k as int),
        decreases line@.len() - k,
    {
        let ghost prev = out@;
        out.push(line[k]);
        proof {
            assert(prev.push(line@[k as int]) =~= old(out)@ + line@.take(k + 1));
        }
        k = k + 1;
    }
    proof {
        assert(line@.take(line@.len() as int) =~= line@);
    }
}

impl Maze {
    /// The text dump as a sequence of characters: exactly [`render_text`].
    /// Its `#` markers count the enabled interior EAST and SOUTH walls
    /// exactly, beside a fixed frame of `width` filler markers per
    /// interior row boundary.
    #[verifier::rlimit(100)]
    pub fn render(&self) -> (r: Vec<char>)
        requires
            self.wf(),
            2 * self.size.width <= usize::MAX,
        ensures
            r@ == render_text(*self),
            count_char(r@, '#') == count_marks_grid(east_marks(*self)) + count_marks_grid(
                south_marks(*self),
            ) + (self.size.height - 1) * self.size.width,
    {
        let width = self.size.width;
        let height = self.size.height;
        let mut out: Vec<char> = Vec::new();
        out.push(' ');
        let top: usize = 2 * width - 1;
        let mut u: usize = 0;
        proof {
            lemma_count_char_push(Seq::empty(), ' ', '#');
        }
        while u < top
            invariant
                u <= top,
                count_char(out@, '#') == 0,
                out@ == seq![' '] + Seq::new(u as nat, |k: int| '_'),
            decreases top - u,
        {
            let ghost prev = out@;
            out.push('_');
            proof {
                lemma_count_char_push(prev, '_', '#');
                assert(out@ =~= seq![' '] + Seq::new((u + 1) as nat, |k: int| '_'));
            }
            u = u + 1;
        }
        let ghost prev = out@;
        out.push('\n');
        proof {
            lemma_count_char_push(prev, '\n', '#');
            assert(out@ =~= top_line(width as int));
        }
        let mut j: usize = 0;
        proof {
            assert(count_char(out@, '#') == 0);
            assert(count_marks_grid(east_marks(*self).take(0)) == 0);
            assert(count_marks_grid(south_marks(*self).take(0)) == 0);
            assert(south_lines_done(0, height as int) == 0);
        }
        while j < height
            invariant
                self.wf(),
                width == self.size.width,
                height == self.size.height,
                2 * width <= usize::MAX,
                j <= height,
                count_char(out@, '#') == count_marks_grid(east_marks(*self).take(j as int))
                    + count_marks_grid(
                    south_marks(*self).take(south_lines_done(j as int, height as int)),
                ) + south_lines_done(j as int, height as int) * width,
                out@ == top_line(width as int) + rows_text(*self, j as int),
            decreases height - j,
        {
            let mut first_line: Vec<char> = Vec::new();
            let mut second_line: Vec<char> = Vec::new();
            let mut i: usize = 0;
            while i < width - 1
                invariant
                    self.wf(),
                    width == self.size.width,
                    height == self.size.height,
                    j < height,
                    i <= width - 1,
                    count_char(first_line@, '#') == count_marks(east_row(*self, j as int).take(
                        i as int,
                    )),
                    j < height - 1 ==> count_char(second_line@, '#') == count_marks(
                        south_row(*self, j as int).take(i as int),
                    ) + i,
                    first_line@ == east_cells(*self, j as int, i as int),
                    j < height - 1 ==> second_line@ == south_cells(*self, j as int, i as int),
                decreases width - 1 - i,
            {
                let ghost pf = first_line@;
                let ghost ps = second_line@;
                first_line.push(' ');
                if self.is_wall_enabled((i, j), &TileDirection::EAST) {
                    first_line.push('#');
                } else {
                    first_line.push(' ');
                }
                if self.is_wall_enabled((i, j), &TileDirection::SOUTH) {
                    second_line.push('#');
                } else {
                    second_line.push(' ');
                }
                second_line.push('#');
                proof {
                    let er = east_row(*self, j as int);
                    lemma_count_char_push(pf, ' ', '#');
                    lemma_count_char_push(
                        pf.push(' '),
                        if er[i as int] {
                            '#'
                        } else {
                            ' '
                        },
                        '#',
                    );
                    assert(er.take(i + 1).drop_last() =~= er.take(i as int));
                    if j < height - 1 {
                        let sr = south_row(*self, j as int);
                        lemma_count_char_push(
                            ps,
                            if sr[i as int] {
                                '#'
                            } else {
                                ' '
                            },
                            '#',
                        );
                        lemma_count_char_push(
                            ps.push(
                                if sr[i as int] {
                                    '#'
                                } else {
                                    ' '
                                },
                            ),
                            '#',
                            '#',
                        );
                        assert(sr.take(i + 1).drop_last() =~= sr.take(i as int));
                    }
                    assert(first_line@ =~= east_cells(*self, j as int, i + 1));
                    if j < height - 1 {
                        assert(second_line@ =~= south_cells(*self, j as int, i + 1));
                    }
                }
                i = i + 1;
            }
            let ghost pre_row = out@;
            out.push('|');
            append_chars(&mut out, &first_line);
            out.push(' ');
            out.push('|');
            out.push('\n');
            proof {
                let er = east_row(*self, j as int);
                assert(er.take((width - 1) as int) =~= er);
                lemma_count_char_push(pre_row, '|', '#');
                lemma_count_char_append(pre_row.push('|'), first_line@, '#');
                lemma_count_char_push(pre_row.push('|') + first_line@, ' ', '#');
                lemma_count_char_push((pre_row.push('|') + first_line@).push(' '), '|', '#');
                lemma_count_char_push(
                    (pre_row.push('|') + first_line@).push(' ').push('|'),
                    '\n',
                    '#',
                );
                assert(out@ =~= pre_row + east_line(*self, j as int));
            }
            if j < height - 1 {
                let ghost pre_s = out@;
                out.push('|');
                append_chars(&mut out, &second_line);
                out.push('#');
                out.push('|');
                out.push('\n');
                proof {
                    let sr = south_row(*self, j as int);
                    assert(sr.take((width - 1) as int) =~= sr);
                    lemma_count_char_push(pre_s, '|', '#');
                    lemma_count_char_append(pre_s.push('|'), second_line@, '#');
                    lemma_count_char_push(pre_s.push('|') + second_line@, '#', '#');
                    lemma_count_char_push((pre_s.push('|') + second_line@).push('#'), '|', '#');
                    lemma_count_char_push(
                        ((pre_s.push('|') + second_line@).push('#')).push('|'),
                        '\n',
                        '#',
                    );
                    assert(out@ =~= pre_s + south_line(*self, j as int));
                }
            }
            proof {
                let em = east_marks(*self);
                let sm = south_marks(*self);
                assert(em.take(j + 1).drop_last() =~= em.take(j as int));
                assert(em.take(j + 1).last() == east_row(*self, j as int));
                if j < height - 1 {
                    assert(sm.take(j + 1).drop_last() =~= sm.take(j as int));
                    assert(sm.take(j + 1).last() == south_row(*self, j as int));
                    assert((j + 1) * width == j * width + width) by (nonlinear_arith);
                }
                assert(out@ =~= top_line(width as int) + rows_text(*self, j + 1));
            }
            j = j + 1;
        }
        proof {
            assert(east_marks(*self).take(height as int) =~= east_marks(*self));
            assert(south_marks(*self).take((height - 1) as int) =~= south_marks(*self));
            assert(out@ == render_text(*self));
        }
        out
    }

    /// The text dump as a `String`: the same characters and marker count
    /// as [`Maze::render`].
    pub fn display_string(&self) -> (r: String)
        requires
            self.wf(),
            2 * self.size.width <= usize::MAX,
        ensures
            r@ == render_text(*self),
            count_char(r@, '#') == count_marks_grid(east_marks(*self)) + count_marks_grid(
                south_marks(*self),
            ) + (self.size.height - 1) * self.size.width,
    {
        let chars = self.render();
        chars_to_string(&chars)
    }
}

} // verus!
