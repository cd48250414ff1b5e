use vstd::prelude::*;
use vstd::string::StrSliceExecFns;
use crate::square::{Square, square_of_glyph};
use crate::grid::{Grid, rows_view};

verus! {

/// Why a map description could not be read.
#[derive(Copy, Clone, Debug, PartialEq, Eq, Structural)]
pub enum MapError {
    /// A character that stands for no terrain class, at `column` of the
    /// `row`-th non-empty line.
    InvalidMapCharacter { ch: char, column: usize, row: usize },
    /// No non-empty line at all.
    EmptyMap,
}

pub open spec fn glyph_square(c: char) -> Square {
    match square_of_glyph(c) {
        Some(s) => s,
        None => Square::Empty,
    }
}

pub open spec fn glyph_ok(c: char) -> bool {
    c == '\n' || square_of_glyph(c) is Some
}

/// After reading `s`: the non-empty lines that a newline has closed, and the
/// line being read.
pub open spec fn scan(s: Seq<char>) -> (Seq<Seq<Square>>, Seq<Square>)
    decreases s.len(),
{
    if s.len() == 0 {
        (Seq::empty(), Seq::empty())
    } else {
        let (done, cur) = scan(s.drop_last());
        if s.last() == '\n' {
            if cur.len() > 0 {
                (done.push(cur), Seq::empty())
            } else {
                (done, cur)
            }
        } else {
            (done, cur.push(glyph_square(s.last())))
        }
    }
}

/// The non-empty lines of `s`, each read as terrain classes.
pub open spec fn map_lines(s: Seq<char>) -> Seq<Seq<Square>> {
    let (done, cur) = scan(s);
    if cur.len() > 0 {
        done.push(cur)
    } else {
        done
    }
}

pub open spec fn max_len(ls: Seq<Seq<Square>>) -> nat
    decreases ls.len(),
{
    if ls.len() == 0 {
        0
    } else {
        let m = max_len(ls.drop_last());
        if ls.last().len() > m {
            ls.last().len()
        } else {
            m
        }
    }
}

/// A line right-padded with Empty up to width `w`.
pub open spec fn pad(l: Seq<Square>, w: nat) -> Seq<Square> {
    l + Seq::new((w - l.len()) as nat, |i: int| Square::Empty)
}

pub open spec fn padded(ls: Seq<Seq<Square>>, w: nat) -> Seq<Seq<Square>> {
    Seq::new(ls.len(), |i: int| pad(ls[i], w))
}

/// The first character of `s` that stands for no terrain class is at `k`.
pub open spec fn first_bad_glyph(s: Seq<char>, k: int) -> bool {
    &&& 0 <= k < s.len()
    &&& !glyph_ok(s[k])
    &&& forall|j: int| 0 <= j < k ==> glyph_ok(#[trigger] s[j])
}

proof fn lemma_scan_nonempty(s: Seq<char>)
    ensures
        forall|j: int| 0 <= j < scan(s).0.len() ==> #[trigger] scan(s).0[j].len() > 0,
    decreases s.len(),
{
    if s.len() > 0 {
        lemma_scan_nonempty(s.drop_last());
        let (done, cur) = scan(s.drop_last());
        if s.last() == '\n' && cur.len() > 0 {
            assert forall|j: int| 0 <= j < done.push(cur).len() implies #[trigger] done.push(cur)[j].len() > 0 by {
                if j < done.len() {
                    assert(done.push(cur)[j] == done[j]);
                }
            }
        }
    }
}

proof fn lemma_max_len(ls: Seq<Seq<Square>>)
    ensures
        forall|j: int| 0 <= j < ls.len() ==> #[trigger] ls[j].len() <= max_len(ls),
        ls.len() > 0 ==> exists|j: int| 0 <= j < ls.len() && #[trigger] ls[j].len() == max_len(ls),
    decreases ls.len(),
{
    if ls.len() > 0 {
        let init = ls.drop_last();
        lemma_max_len(init);
        assert forall|j: int| 0 <= j < ls.len() implies #[trigger] ls[j].len() <= max_len(ls) by {
            if j < init.len() {
                assert(ls[j] == init[j]);
            }
        }
        if ls.last().len() <= max_len(init) && init.len() > 0 {
            let j = choose|j: int| 0 <= j < init.len() && #[trigger] init[j].len() == max_len(init);
            assert(ls[j] == init[j]);
        }
        if init.len() == 0 {
            assert(ls[0] == ls.last());
        }
    }
}

impl Grid {
    /// Reads a map description: one row per non-empty line, ' ' Empty,
    /// '#' Wall, '^' SpawnPoint, '$' Destination, rows right-padded with
    /// Empty to the longest line.
    pub fn new(desc: &str) -> (r: Result<Grid, MapError>)
        ensures
            r is Ok <==> (forall|j: int| 0 <= j < desc@.len() ==> glyph_ok(#[trigger] desc@[j]))
                && map_lines(desc@).len() > 0,
            r matches Ok(g) ==> g.wf()
                && g.spec_width() == max_len(map_lines(desc@))
                && g@ == padded(map_lines(desc@), max_len(map_lines(desc@)))
                && (forall|j: int| 0 <= j < map_lines(desc@).len() ==>
                    #[trigger] map_lines(desc@)[j].len() <= g.spec_width())
                && (exists|j: int| 0 <= j < map_lines(desc@).len() &&
                    #[trigger] map_lines(desc@)[j].len() == g.spec_width()),
            r matches Err(MapError::EmptyMap) ==> map_lines(desc@).len() == 0,
            r matches Err(MapError::InvalidMapCharacter { ch, column, row }) ==> exists|k: int|
                #[trigger] first_bad_glyph(desc@, k)
                && ch == desc@[k]
                && column == scan(desc@.take(k)).1.len()
                && row == scan(desc@.take(k)).0.len(),
    {
        let n = desc.unicode_len();
        let mut rows: Vec<Vec<Square>> = Vec::new();
        let mut cur: Vec<Square> = Vec::new();
        let mut i: usize = 0;
        while i < n
            invariant
                n == desc@.len(),
                i <= n,
                rows_view(rows@) == scan(desc@.take(i as int)).0,
                cur@ == scan(desc@.take(i as int)).1,
                forall|j: int| 0 <= j < i ==> glyph_ok(#[trigger] desc@[j]),
            decreases n - i,
        {
            let c = desc.get_char(i);
            let ghost pre = desc@.take(i as int);
            assert(desc@.take(i + 1).drop_last() == pre);
            assert(desc@.take(i + 1).last() == c);
            if c == '\n' {
                if cur.len() > 0 {
                    rows.push(cur);
                    cur = Vec::new();
                    assert(rows_view(rows@) =~= scan(pre).0.push(scan(pre).1));
                }
            } else {
                match Square::fr_char(c) {
                    Some(sq) => {
                        cur.push(sq);
                    },
                    None => {
                        let e = MapError::InvalidMapCharacter { ch: c, column: cur.len(), row: rows.len() };
                        assert(first_bad_glyph(desc@, i as int));
                        return Err(e);
                    },
                }
            }
            i = i + 1;
        }
        assert(desc@.take(n as int) == desc@);
        proof {
            lemma_scan_nonempty(desc@);
        }
        if cur.len() > 0 {
            rows.push(cur);
            assert(rows_view(rows@) =~= map_lines(desc@));
        } else {
            assert(rows_view(rows@) =~= map_lines(desc@));
        }
        if rows.len() == 0 {
            return Err(MapError::EmptyMap);
        }
        let ghost ls = map_lines(desc@);
        let mut width: usize = 0;
        let mut j: usize = 0;
        while j < rows.len()
            invariant
                ls == rows_view(rows@),
                j <= rows@.len(),
                width == max_len(ls.take(j as int)),
            decreases rows@.len() - j,
        {
            assert(ls.take(j + 1).drop_last() == ls.take(j as int));
            assert(ls.take(j + 1).last() == rows@[j as int]@);
            if rows[j].len() > width {
                width = rows[j].len();
            }
            j = j + 1;
        }
        assert(ls.take(rows@.len() as int) == ls);
        proof {
            lemma_max_len(ls);
            assert(ls[0].len() > 0);
        }
        let mut out: Vec<Vec<Square>> = Vec::new();
        let mut y: usize = 0;
        while y < rows.len()
            invariant
                ls == rows_view(rows@),
                width == max_len(ls),
                forall|t: int| 0 <= t < ls.len() ==> #[trigger] ls[t].len() <= width,
                y <= rows@.len(),
                rows_view(out@) == padded(ls, width as nat).take(y as int),
            decreases rows@.len() - y,
        {
            let mut row: Vec<Square> = Vec::new();
            let mut x: usize = 0;
            let ghost target = pad(ls[y as int], width as nat);
            assert(ls[y as int].len() <= width);
            while x < width
                invariant
                    y < rows@.len(),
                    ls == rows_view(rows@),
                    target == pad(ls[y as int], width as nat),
                    target.len() == width,
                    x <= width,
                    row@ == target.take(x as int),
                decreases width - x,
            {
                if x < rows[y].len() {
                    row.push(rows[y][x]);
                } else {
                    row.push(Square::Empty);
                }
                assert(row@ =~= target.take(x + 1));
                x = x + 1;
            }
            assert(row@ =~= target);
            assert(padded(ls, width as nat)[y as int] == target);
            let ghost prev = out@;
            assert(rows_view(prev).len() == y);
            assert(prev.len() == y);
            out.push(row);
            assert(out@[y as int]@ == target);
            assert(rows_view(out@)[y as int] == target);
            assert forall|t: int| 0 <= t < y implies rows_view(out@)[t] == #[trigger] rows_view(prev)[t] by {
                assert(out@[t] == prev[t]);
            }
            assert(rows_view(out@) =~= padded(ls, width as nat).take(y + 1));
            y = y + 1;
        }
        assert(rows_view(out@) =~= padded(ls, width as nat));
        proof {
            assert forall|t: int| 0 <= t < out@.len() implies #[trigger] out@[t]@.len() == width by {
                assert(rows_view(out@)[t] == out@[t]@);
            }
        }
        Ok(Grid::from_rows(out, width))
    }
}

} // verus!
