use crate::coord::{spec_manhattan, Coord};
use crate::search::Space;
use crate::tile::{spec_tile_char, spec_tile_color, spec_tile_from, Tile};
use vstd::prelude::*;
use vstd::string::StringExecFns;

verus! {

/// The printable characters of one row of tiles.
pub open spec fn row_chars(row: Seq<Tile>) -> Seq<char> {
    row.map_values(|t: Tile| spec_tile_char(t))
}

/// The coloured rendering of one row of tiles.
pub open spec fn row_colors(row: Seq<Tile>) -> Seq<char>
    decreases row.len(),
{
    if row.len() == 0 {
        Seq::empty()
    } else {
        row_colors(row.drop_last()) + spec_tile_color(row.last())
    }
}

/// Rows of text joined by line breaks.
pub open spec fn joined(rows: Seq<Seq<char>>) -> Seq<char>
    decreases rows.len(),
{
    if rows.len() == 0 {
        Seq::empty()
    } else if rows.len() == 1 {
        rows[0]
    } else {
        joined(rows.drop_last()) + seq!['\n'] + rows.last()
    }
}

/// A rectangular map of tiles with one start and one goal coordinate.
/// Implementing `Space` makes it a domain the search engine can explore:
/// the passable neighbours of a square are its states, every step costs one,
/// and the Manhattan distance to the goal serves as the heuristic.
#[derive(Debug)]
pub struct Grid {
    pub start: Coord,
    pub goal: Coord,
    pub width: i32,
    pub height: i32,
    pub tiles: Vec<Vec<Tile>>,
}

/// Whether some coordinate of `p` lies at column `x`, row `y`.
pub open spec fn on_path(p: Seq<Coord>, x: int, y: int) -> bool {
    exists|i: int| 0 <= i < p.len() && (#[trigger] p[i]).x == x && p[i].y == y
}

/// A decimal digit.
pub open spec fn is_digit(c: char) -> bool {
    '0' <= c <= '9'
}

/// The value of a digit string, most significant digit first.
pub open spec fn digits_value(s: Seq<char>) -> int
    decreases s.len(),
{
    if s.len() == 0 {
        0
    } else {
        digits_value(s.drop_last()) * 10 + (s.last() as int - '0' as int)
    }
}

/// The digits of an integer token, with any leading sign removed.
pub open spec fn token_digits(s: Seq<char>) -> Seq<char> {
    if s.len() > 0 && (s[0] == '-' || s[0] == '+') {
        s.skip(1)
    } else {
        s
    }
}

/// The value an integer token denotes.
pub open spec fn token_value(s: Seq<char>) -> int {
    if s.len() > 0 && s[0] == '-' {
        -digits_value(s.skip(1))
    } else {
        digits_value(token_digits(s))
    }
}

/// An optional sign, then at least one digit, denoting a value that fits in
/// `i32`.
pub open spec fn valid_i32_token(s: Seq<char>) -> bool {
    &&& token_digits(s).len() > 0
    &&& forall|i: int| 0 <= i < token_digits(s).len() ==> is_digit(#[trigger] token_digits(s)[i])
    &&& i32::MIN <= token_value(s) <= i32::MAX
}

/// The position of the first `c` in `s`, or the length of `s` when there is
/// none.
pub open spec fn first_occurrence(s: Seq<char>, c: char) -> nat
    decreases s.len(),
{
    if s.len() == 0 {
        0
    } else if s[0] == c {
        0
    } else {
        (1 + first_occurrence(s.skip(1), c)) as nat
    }
}

proof fn lemma_first_occurrence(s: Seq<char>, c: char)
    ensures
        first_occurrence(s, c) <= s.len(),
        forall|j: int| 0 <= j < first_occurrence(s, c) ==> s[j] != c,
        first_occurrence(s, c) < s.len() ==> s[first_occurrence(s, c) as int] == c,
    decreases s.len(),
{
    if s.len() == 0 {
    } else if s[0] == c {
    } else {
        lemma_first_occurrence(s.skip(1), c);
        let f = first_occurrence(s, c);
        assert(f == 1 + first_occurrence(s.skip(1), c));
        assert forall|j: int| 0 <= j < f implies s[j] != c by {
            if j > 0 {
                assert(s.skip(1)[j - 1] == s[j]);
            }
        }
        if f < s.len() {
            assert(s.skip(1)[f - 1] == s[f as int]);
        }
    }
}

/// The first occurrence is pinned down by its characteristic facts.
proof fn lemma_first_occurrence_is(s: Seq<char>, c: char, k: int)
    requires
        0 <= k <= s.len(),
        forall|j: int| 0 <= j < k ==> s[j] != c,
        k < s.len() ==> s[k] == c,
    ensures
        first_occurrence(s, c) == k,
{
    lemma_first_occurrence(s, c);
    let f = first_occurrence(s, c);
    if f < k {
        assert(s[f as int] == c);
        assert(false);
    }
    if k < f {
        assert(s[k] == c);
        assert(false);
    }
}

/// One or more valid integer tokens separated by single spaces.
pub open spec fn valid_int_list(s: Seq<char>) -> bool
    decreases s.len(),
{
    let p = first_occurrence(s, ' ');
    if p >= s.len() {
        valid_i32_token(s)
    } else {
        valid_i32_token(s.take(p as int)) && valid_int_list(s.skip(p as int + 1))
    }
}

/// The values of the tokens of an integer list.
pub open spec fn int_list_values(s: Seq<char>) -> Seq<int>
    decreases s.len(),
{
    let p = first_occurrence(s, ' ');
    if p >= s.len() {
        seq![token_value(s)]
    } else {
        seq![token_value(s.take(p as int))] + int_list_values(s.skip(p as int + 1))
    }
}

proof fn lemma_digits_nonneg(s: Seq<char>)
    requires
        forall|i: int| 0 <= i < s.len() ==> is_digit(#[trigger] s[i]),
    ensures
        digits_value(s) >= 0,
    decreases s.len(),
{
    if s.len() > 0 {
        assert forall|i: int| 0 <= i < s.drop_last().len() implies is_digit(
            #[trigger] s.drop_last()[i],
        ) by {
            assert(s.drop_last()[i] == s[i]);
        }
        lemma_digits_nonneg(s.drop_last());
        assert(is_digit(s.last()));
    }
}

/// A digit string's value only grows as more digits follow.
proof fn lemma_digits_prefix_le(s: Seq<char>, k: int)
    requires
        forall|i: int| 0 <= i < s.len() ==> is_digit(#[trigger] s[i]),
        0 <= k <= s.len(),
    ensures
        0 <= digits_value(s.take(k)) <= digits_value(s),
    decreases s.len() - k,
{
    assert forall|j: int, i: int| 0 <= j <= s.len() && 0 <= i < s.take(j).len() implies is_digit(
        #[trigger] s.take(j)[i],
    ) by {
        assert(s.take(j)[i] == s[i]);
    }
    lemma_digits_nonneg(s.take(k));
    if k == s.len() {
        assert(s.take(k) =~= s);
    } else {
        lemma_digits_prefix_le(s, k + 1);
        assert(s.take(k + 1).drop_last() =~= s.take(k));
        assert(digits_value(s.take(k + 1)) == digits_value(s.take(k)) * 10 + (s.take(k + 1).last()
            as int - '0' as int));
        assert(is_digit(s[k]));
        assert(s.take(k + 1).last() == s[k]);
        assert(digits_value(s.take(k)) * 10 >= digits_value(s.take(k)));
    }
}

/// Parse the digits-and-sign token held in `b` at `[lo, hi)`; `t` is the same
/// range read as characters.
#[verifier::loop_isolation(false)]
fn parse_token(b: &[u8], lo: usize, hi: usize, t: Ghost<Seq<char>>) -> (v: i32)
    requires
        lo <= hi <= b@.len(),
        t@.len() == hi - lo,
        forall|j: int|
            0 <= j < t@.len() ==> '\0' <= #[trigger] t@[j] <= '\u{7f}' && b@[lo + j] == t@[j]
                as u8,
        valid_i32_token(t@),
    ensures
        v as int == token_value(t@),
{
    let ghost ds = token_digits(t@);
    let mut j = lo;
    let mut neg = false;
    if b[lo] == 45 {
        neg = true;
        j = lo + 1;
    } else if b[lo] == 43 {
        j = lo + 1;
    }
    proof {
        assert(t@[0] as u8 == b@[lo as int]);
        if b@[lo as int] == 45 {
            assert(t@[0] == '-');
        } else if b@[lo as int] == 43 {
            assert(t@[0] == '+');
        } else {
            assert(t@[0] != '-' && t@[0] != '+');
        }
        assert(ds =~= t@.skip(j - lo));
        lemma_digits_prefix_le(ds, 0);
        assert(ds.take(0) =~= Seq::empty());
        if neg {
            assert(token_value(t@) == -digits_value(ds));
        } else {
            assert(token_value(t@) == digits_value(ds));
        }
        lemma_digits_nonneg(ds);
        assert(digits_value(ds) <= 0x8000_0000);
    }
    let ghost off = j;
    let mut acc: i64 = 0;
    while j < hi
        invariant
            off <= j <= hi,
            acc == digits_value(ds.take(j - off)),
            0 <= acc <= 0x8000_0000,
        decreases hi - j,
    {
        proof {
            assert(ds[j - off] == t@[j - lo]);
            assert(is_digit(ds[j - off]));
            assert(b@[j as int] == t@[j - lo] as u8);
            assert(48 <= b@[j as int] <= 57);
            assert(ds.take(j - off + 1).drop_last() =~= ds.take(j - off));
            assert(ds.take(j - off + 1).last() == ds[j - off]);
            lemma_digits_prefix_le(ds, j - off + 1);
        }
        let d = b[j] - 48;
        acc = acc * 10 + (d as i64);
        j = j + 1;
    }
    proof {
        assert(ds.take(hi - off) =~= ds);
    }
    if neg {
        (-acc) as i32
    } else {
        acc as i32
    }
}

/// Parse the space-separated integer tokens held in `b` at `[lo, hi)`; `t` is
/// the same range read as characters.
#[verifier::loop_isolation(false)]
fn parse_int_list_range(b: &[u8], lo: usize, hi: usize, t: Ghost<Seq<char>>) -> (r: Vec<i32>)
    requires
        lo <= hi <= b@.len(),
        t@.len() == hi - lo,
        forall|j: int|
            0 <= j < t@.len() ==> '\0' <= #[trigger] t@[j] <= '\u{7f}' && b@[lo + j] == t@[j]
                as u8,
        valid_int_list(t@),
    ensures
        r@.map_values(|v: i32| v as int) == int_list_values(t@),
{
    let mut out: Vec<i32> = Vec::new();
    let mut pos = lo;
    let mut done = false;
    proof {
        assert(t@.skip(0) =~= t@);
        assert(out@.map_values(|v: i32| v as int) =~= Seq::<int>::empty());
        assert(Seq::<int>::empty() + int_list_values(t@) =~= int_list_values(t@));
    }
    while !done
        invariant
            lo <= pos <= hi,
            !done ==> valid_int_list(t@.skip(pos - lo)),
            !done ==> int_list_values(t@) == out@.map_values(|v: i32| v as int)
                + int_list_values(t@.skip(pos - lo)),
            done ==> out@.map_values(|v: i32| v as int) == int_list_values(t@),
        decreases hi - pos + (if done { 0int } else { 1int }),
    {
        let ghost rem = t@.skip(pos - lo);
        let mut e = pos;
        while e < hi && b[e] != 32
            invariant
                pos <= e <= hi,
                forall|j: int| pos <= j < e ==> b@[j] != 32,
            decreases hi - e,
        {
            e = e + 1;
        }
        proof {
            assert forall|j: int| 0 <= j < e - pos implies rem[j] != ' ' by {
                assert(rem[j] == t@[pos - lo + j]);
                assert(b@[pos + j] == t@[pos - lo + j] as u8);
            }
            if e < hi {
                assert(rem[e - pos] == t@[e - lo]);
                assert(b@[e as int] == t@[e - lo] as u8);
                assert(rem[e - pos] == ' ');
            }
            lemma_first_occurrence_is(rem, ' ', e - pos);
            assert(rem.take(e - pos) =~= t@.subrange(pos - lo, e - lo));
        }
        let v = parse_token(b, pos, e, Ghost(t@.subrange(pos - lo, e - lo)));
        let ghost out0 = out@;
        out.push(v);
        proof {
            assert(out@.map_values(|v: i32| v as int) =~= out0.map_values(|v: i32| v as int)
                + seq![v as int]);
        }
        if e == hi {
            proof {
                assert(rem.take(e - pos) =~= rem);
                assert(int_list_values(rem) == seq![token_value(rem)]);
            }
            done = true;
        } else {
            proof {
                assert(rem.skip(e - pos + 1) =~= t@.skip(e + 1 - lo));
                assert(int_list_values(rem) == seq![token_value(rem.take(e - pos))]
                    + int_list_values(rem.skip(e - pos + 1)));
            }
            pos = e + 1;
        }
    }
    out
}

/// The character position of column `x` in row `y` of the map body, after a
/// header of length `hl`.
pub open spec fn cell_pos(hl: int, w: int, y: int, x: int) -> int {
    hl + 1 + y * (w + 1) + x
}

/// The map body after the header line: `h` rows of `w` tiles separated by
/// line breaks.
pub open spec fn grid_text_shape(t: Seq<char>, hl: int, w: int, h: int) -> bool {
    &&& 0 <= hl < t.len()
    &&& 1 <= h
    &&& 0 <= w
    &&& t.len() == hl + h * (w + 1)
    &&& forall|y: int, x: int|
        0 <= y < h && 0 <= x < w ==> t[cell_pos(hl, w, y, x)] != '\n'
    &&& forall|y: int| 0 <= y < h - 1 ==> t[cell_pos(hl, w, y, w)] == '\n'
}

/// The tile at column `x`, row `y` of the map body.
pub open spec fn text_tile(t: Seq<char>, hl: int, w: int, y: int, x: int) -> Tile {
    spec_tile_from(t[cell_pos(hl, w, y, x)])
}

/// Whether the map body holds a start marker at column `x`, row `y`.
pub open spec fn text_start_at(t: Seq<char>, hl: int, w: int, h: int, y: int, x: int) -> bool {
    0 <= y < h && 0 <= x < w && text_tile(t, hl, w, y, x) == Tile::Start
}

/// Whether the map body holds a goal marker at column `x`, row `y`.
pub open spec fn text_goal_at(t: Seq<char>, hl: int, w: int, h: int, y: int, x: int) -> bool {
    0 <= y < h && 0 <= x < w && text_tile(t, hl, w, y, x) == Tile::Goal
}

/// `(y1, x1)` does not come after `(y2, x2)` in reading order.
pub open spec fn reading_le(y1: int, x1: int, y2: int, x2: int) -> bool {
    y1 < y2 || (y1 == y2 && x1 <= x2)
}

/// `(y, x)` comes strictly before the scan point `(sy, sx)` in reading order.
pub open spec fn scanned_before(y: int, x: int, sy: int, sx: int) -> bool {
    y < sy || (y == sy && x < sx)
}

/// A well-formed textual map: an integer header giving the width and the
/// height, then exactly that many rows of tiles, holding at least one start
/// marker and exactly one goal marker.
pub open spec fn valid_grid_text(t: Seq<char>) -> bool {
    let hl = first_occurrence(t, '\n') as int;
    let vals = int_list_values(t.take(hl));
    &&& vstd::utf8::is_ascii_chars(t)
    &&& hl < t.len()
    &&& valid_int_list(t.take(hl))
    &&& vals.len() >= 2
    &&& grid_text_shape(t, hl, vals[0], vals[1])
    &&& exists|y: int, x: int| text_start_at(t, hl, vals[0], vals[1], y, x)
    &&& exists|y: int, x: int| text_goal_at(t, hl, vals[0], vals[1], y, x)
    &&& forall|y1: int, x1: int, y2: int, x2: int|
        text_goal_at(t, hl, vals[0], vals[1], y1, x1) && text_goal_at(
            t,
            hl,
            vals[0],
            vals[1],
            y2,
            x2,
        ) ==> y1 == y2 && x1 == x2
}

/// What parsing a well-formed textual map produces: the declared size, the
/// tile of every map character, the goal marker's coordinate, and the last
/// start marker in reading order.
pub open spec fn grid_of_text(g: Grid, t: Seq<char>) -> bool {
    let hl = first_occurrence(t, '\n') as int;
    let vals = int_list_values(t.take(hl));
    &&& g.width as int == vals[0]
    &&& g.height as int == vals[1]
    &&& g.wf()
    &&& forall|y: int, x: int|
        0 <= y < vals[1] && 0 <= x < vals[0] ==> (#[trigger] g.tiles@[y]@[x]) == text_tile(
            t,
            hl,
            vals[0],
            y,
            x,
        )
    &&& text_start_at(t, hl, vals[0], vals[1], g.start.y as int, g.start.x as int)
    &&& forall|y: int, x: int|
        text_start_at(t, hl, vals[0], vals[1], y, x) ==> reading_le(
            y,
            x,
            g.start.y as int,
            g.start.x as int,
        )
    &&& text_goal_at(t, hl, vals[0], vals[1], g.goal.y as int, g.goal.x as int)
}

/// Split on spaces and read every piece as an integer.
pub fn parse_integers(string: &str) -> (r: Vec<i32>)
    requires
        vstd::utf8::is_ascii_chars(string@),
        valid_int_list(string@),
    ensures
        r@.map_values(|v: i32| v as int) == int_list_values(string@),
{
    proof {
        vstd::utf8::is_ascii_chars_encode_utf8(string@);
    }
    let b = string.as_bytes();
    proof {
        assert(b@.len() == string@.len());
        assert(string@.skip(0) =~= string@);
    }
    parse_int_list_range(b, 0, b.len(), Ghost(string@))
}

impl Grid {
    /// The declared size matches the tile storage.
    pub open spec fn wf(self) -> bool {
        &&& 0 <= self.width
        &&& 0 <= self.height
        &&& self.tiles@.len() == self.height
        &&& forall|y: int|
            0 <= y < self.tiles@.len() ==> (#[trigger] self.tiles@[y])@.len() == self.width
    }

    pub open spec fn spec_in_range(self, c: Coord) -> bool {
        0 <= c.x < self.width && 0 <= c.y < self.height
    }

    pub open spec fn spec_tile_at(self, c: Coord) -> Option<Tile> {
        if self.spec_in_range(c) {
            Some(self.tiles@[c.y as int]@[c.x as int])
        } else {
            None
        }
    }

    /// The square at column `x`, row `y` exists and is not blocked.
    pub open spec fn int_passable(self, x: int, y: int) -> bool {
        &&& 0 <= x < self.width
        &&& 0 <= y < self.height
        &&& self.tiles@[y]@[x] != Tile::Blocked
    }

    /// The passable neighbours of `c`, in up, left, right, down order.
    pub open spec fn spec_neighbors(self, c: Coord) -> Seq<Coord> {
        let cx = c.x as int;
        let cy = c.y as int;
        self.neighbor_seq(cx, cy - 1) + self.neighbor_seq(cx - 1, cy) + self.neighbor_seq(
            cx + 1,
            cy,
        ) + self.neighbor_seq(cx, cy + 1)
    }

    /// A one-element sequence holding the square at (`x`, `y`) when it is
    /// passable, and an empty one otherwise.
    pub open spec fn neighbor_seq(self, x: int, y: int) -> Seq<Coord> {
        if self.int_passable(x, y) {
            seq![Coord { x: x as i32, y: y as i32 }]
        } else {
            Seq::empty()
        }
    }

    fn in_range(&self, coord: &Coord) -> (r: bool)
        ensures
            r == self.spec_in_range(*coord),
    {
        coord.x >= 0 && coord.x < self.width && coord.y >= 0 && coord.y < self.height
    }

    /// The tile at `coord`, or `None` when `coord` lies outside the grid.
    pub fn tile_at(&self, coord: &Coord) -> (r: Option<Tile>)
        requires
            self.wf(),
        ensures
            r == self.spec_tile_at(*coord),
    {
        if self.in_range(coord) {
            Some(self.tiles[coord.y as usize][coord.x as usize])
        } else {
            None
        }
    }

    /// Append the square at (`nx`, `ny`) to `out` when it is passable.
    fn push_if_passable(&self, out: &mut Vec<Coord>, nx: i64, ny: i64)
        requires
            self.wf(),
        ensures
            final(out)@ == old(out)@ + self.neighbor_seq(nx as int, ny as int),
    {
        if nx >= 0 && ny >= 0 && nx < self.width as i64 && ny < self.height as i64 {
            let t = self.tiles[ny as usize][nx as usize];
            if !(t == Tile::Blocked) {
                out.push(Coord { x: nx as i32, y: ny as i32 });
                proof {
                    assert(final(out)@ =~= old(out)@ + self.neighbor_seq(nx as int, ny as int));
                }
                return ;
            }
        }
        proof {
            assert(!self.int_passable(nx as int, ny as int));
            assert(final(out)@ =~= old(out)@ + self.neighbor_seq(nx as int, ny as int));
        }
    }

    /// All passable squares one step from `coord`, in up, left, right, down
    /// order.
    pub fn expand(&self, coord: Coord) -> (r: Vec<Coord>)
        requires
            self.wf(),
        ensures
            r@ == self.spec_neighbors(coord),
    {
        let mut r: Vec<Coord> = Vec::new();
        let cx = coord.x as i64;
        let cy = coord.y as i64;
        self.push_if_passable(&mut r, cx, cy - 1);
        self.push_if_passable(&mut r, cx - 1, cy);
        self.push_if_passable(&mut r, cx + 1, cy);
        self.push_if_passable(&mut r, cx, cy + 1);
        proof {
            assert(r@ =~= self.spec_neighbors(coord));
        }
        r
    }

    /// Parse a textual map: a header line giving the width and the height,
    /// then the rows of tiles.  A later start marker supersedes an earlier
    /// one.
    #[verifier::loop_isolation(false)]
    pub fn from(s: &str) -> (g: Grid)
        requires
            valid_grid_text(s@),
        ensures
            grid_of_text(g, s@),
    {
        let ghost t = s@;
        let ghost hl0 = first_occurrence(t, '\n') as int;
        let ghost vals = int_list_values(t.take(hl0));
        let ghost wi = vals[0];
        let ghost hi = vals[1];
        proof {
            vstd::utf8::is_ascii_chars_encode_utf8(t);
            lemma_first_occurrence(t, '\n');
        }
        let b = s.as_bytes();
        let n = b.len();
        let mut hl: usize = 0;
        while b[hl] != 10
            invariant
                0 <= hl <= hl0,
            decreases hl0 - hl,
        {
            proof {
                assert(b@[hl as int] == t[hl as int] as u8);
                assert(t[hl as int] != '\n');
                assert(hl < hl0);
            }
            hl = hl + 1;
        }
        proof {
            assert(b@[hl as int] == t[hl as int] as u8);
            assert(t[hl as int] == '\n');
            assert(hl == hl0);
            assert forall|j: int| 0 <= j < t.take(hl as int).len() implies '\0'
                <= #[trigger] t.take(hl as int)[j] <= '\u{7f}' && b@[j] == t.take(hl as int)[j]
                as u8 by {
                assert(t.take(hl as int)[j] == t[j]);
            }
        }
        let dims = parse_int_list_range(b, 0, hl, Ghost(t.take(hl0)));
        proof {
            assert(dims@.map_values(|v: i32| v as int).len() == dims@.len());
            assert(dims@[0] as int == vals[0]);
            assert(dims@[1] as int == vals[1]);
        }
        let width = dims[0];
        let height = dims[1];
        let w = width as usize;
        let h = height as usize;
        let mut tiles: Vec<Vec<Tile>> = Vec::new();
        let mut start: Option<Coord> = None;
        let mut goal: Option<Coord> = None;
        let mut p: usize = hl + 1;
        let mut y: usize = 0;
        while y < h
            invariant
                y <= h,
                y < h ==> p == cell_pos(hl0, wi, y as int, 0),
                tiles@.len() == y,
                forall|yy: int| 0 <= yy < y ==> (#[trigger] tiles@[yy])@.len() == wi,
                forall|yy: int, xx: int|
                    0 <= yy < y && 0 <= xx < wi ==> (#[trigger] tiles@[yy]@[xx]) == text_tile(
                        t,
                        hl0,
                        wi,
                        yy,
                        xx,
                    ),
                start is None ==> forall|yy: int, xx: int|
                    #[trigger] text_start_at(t, hl0, wi, hi, yy, xx) ==> !scanned_before(yy, xx, y as int, 0),
                start matches Some(c) ==> {
                    &&& text_start_at(t, hl0, wi, hi, c.y as int, c.x as int)
                    &&& scanned_before(c.y as int, c.x as int, y as int, 0)
                    &&& forall|yy: int, xx: int|
                        #[trigger] text_start_at(t, hl0, wi, hi, yy, xx) && scanned_before(
                            yy,
                            xx,
                            y as int,
                            0,
                        ) ==> reading_le(yy, xx, c.y as int, c.x as int)
                },
                goal is None ==> forall|yy: int, xx: int|
                    #[trigger] text_goal_at(t, hl0, wi, hi, yy, xx) ==> !scanned_before(yy, xx, y as int, 0),
                goal matches Some(c) ==> text_goal_at(t, hl0, wi, hi, c.y as int, c.x as int),
            decreases h - y,
        {
            let mut row: Vec<Tile> = Vec::new();
            let mut x: usize = 0;
            while x < w
                invariant
                    y < h,
                    x <= w,
                    row@.len() == x,
                    forall|xx: int|
                        0 <= xx < x ==> (#[trigger] row@[xx]) == text_tile(t, hl0, wi, y as int, xx),
                    start is None ==> forall|yy: int, xx: int|
                        #[trigger] text_start_at(t, hl0, wi, hi, yy, xx) ==> !scanned_before(
                            yy,
                            xx,
                            y as int,
                            x as int,
                        ),
                    start matches Some(c) ==> {
                        &&& text_start_at(t, hl0, wi, hi, c.y as int, c.x as int)
                        &&& scanned_before(c.y as int, c.x as int, y as int, x as int)
                        &&& forall|yy: int, xx: int|
                            #[trigger] text_start_at(t, hl0, wi, hi, yy, xx) && scanned_before(
                                yy,
                                xx,
                                y as int,
                                x as int,
                            ) ==> reading_le(yy, xx, c.y as int, c.x as int)
                    },
                    goal is None ==> forall|yy: int, xx: int|
                        #[trigger] text_goal_at(t, hl0, wi, hi, yy, xx) ==> !scanned_before(
                            yy,
                            xx,
                            y as int,
                            x as int,
                        ),
                    goal matches Some(c) ==> text_goal_at(t, hl0, wi, hi, c.y as int, c.x as int),
                decreases w - x,
            {
                proof {
                    assert((y as int + 1) * (wi + 1) <= hi * (wi + 1)) by (nonlinear_arith)
                        requires
                            y as int + 1 <= hi,
                            0 <= wi,
                    ;
                    assert((y as int + 1) * (wi + 1) == y as int * (wi + 1) + (wi + 1))
                        by (nonlinear_arith);
                    assert(p + x < n);
                }
                let cb = b[p + x];
                let c = cb as char;
                proof {
                    assert(p + x == cell_pos(hl0, wi, y as int, x as int));
                    assert(b@[p + x] == t[p + x] as u8);
                    assert(c == t[cell_pos(hl0, wi, y as int, x as int)]);
                }
                let tile = Tile::from(c);
                let ghost start0 = start;
                let ghost goal0 = goal;
                match tile {
                    Tile::Start => {
                        start = Some(Coord::new(x as i32, y as i32));
                    },
                    Tile::Goal => {
                        goal = Some(Coord::new(x as i32, y as i32));
                    },
                    _ => {},
                }
                row.push(tile);
                proof {
                    assert(tile == text_tile(t, hl0, wi, y as int, x as int));
                    if tile == Tile::Start {
                        assert(text_start_at(t, hl0, wi, hi, y as int, x as int));
                        assert forall|yy: int, xx: int|
                            #[trigger] text_start_at(t, hl0, wi, hi, yy, xx) && scanned_before(
                                yy,
                                xx,
                                y as int,
                                x as int + 1,
                            ) implies reading_le(yy, xx, y as int, x as int) by {}
                    } else {
                        assert(!text_start_at(t, hl0, wi, hi, y as int, x as int));
                    }
                    if tile == Tile::Goal {
                        assert(text_goal_at(t, hl0, wi, hi, y as int, x as int));
                    } else {
                        assert(!text_goal_at(t, hl0, wi, hi, y as int, x as int));
                    }
                    if !(tile == Tile::Start) {
                        assert forall|yy: int, xx: int|
                            #[trigger] text_start_at(t, hl0, wi, hi, yy, xx) && scanned_before(
                                yy,
                                xx,
                                y as int,
                                x as int + 1,
                            ) implies scanned_before(yy, xx, y as int, x as int) by {
                            if yy == y as int && xx == x as int {
                                assert(false);
                            }
                        }
                    }
                    if !(tile == Tile::Goal) {
                        assert forall|yy: int, xx: int|
                            #[trigger] text_goal_at(t, hl0, wi, hi, yy, xx) && scanned_before(
                                yy,
                                xx,
                                y as int,
                                x as int + 1,
                            ) implies scanned_before(yy, xx, y as int, x as int) by {
                            if yy == y as int && xx == x as int {
                                assert(false);
                            }
                        }
                    }
                }
                x = x + 1;
            }
            tiles.push(row);
            y = y + 1;
            proof {
                assert(w as int == wi);
                assert forall|yy: int, xx: int|
                    #[trigger] text_start_at(t, hl0, wi, hi, yy, xx) && scanned_before(
                        yy,
                        xx,
                        y as int,
                        0,
                    ) implies scanned_before(yy, xx, y as int - 1, wi) by {}
                assert forall|yy: int, xx: int|
                    #[trigger] text_goal_at(t, hl0, wi, hi, yy, xx) && scanned_before(
                        yy,
                        xx,
                        y as int,
                        0,
                    ) implies scanned_before(yy, xx, y as int - 1, wi) by {}
            }
            if y < h {
                proof {
                    assert((y as int) * (wi + 1) == (y as int - 1) * (wi + 1) + (wi + 1))
                        by (nonlinear_arith);
                    assert((y as int) * (wi + 1) <= (hi - 1) * (wi + 1)) by (nonlinear_arith)
                        requires
                            y as int <= hi - 1,
                            0 <= wi,
                    ;
                    assert((hi - 1) * (wi + 1) == hi * (wi + 1) - (wi + 1)) by (nonlinear_arith);
                    assert(p + w + 1 <= n);
                }
                p = p + w + 1;
            }
        }
        proof {
            if start is None {
                let (sy, sx) = choose|sy: int, sx: int| text_start_at(t, hl0, wi, hi, sy, sx);
                assert(scanned_before(sy, sx, h as int, 0));
                assert(false);
            }
            if goal is None {
                let (gy, gx) = choose|gy: int, gx: int| text_goal_at(t, hl0, wi, hi, gy, gx);
                assert(scanned_before(gy, gx, h as int, 0));
                assert(false);
            }
        }
        proof {
            assert(h as int == hi);
            assert(w as int == wi);
            assert forall|yy: int, xx: int|
                text_start_at(t, hl0, wi, hi, yy, xx) implies scanned_before(
                yy,
                xx,
                h as int,
                0,
            ) by {}
        }
        let g = Grid { start: start.unwrap(), goal: goal.unwrap(), width, height, tiles };
        proof {
            assert(g.wf());
            assert(g.width as int == vals[0]);
            assert(g.height as int == vals[1]);
            assert(forall|y: int, x: int|
                0 <= y < vals[1] && 0 <= x < vals[0] ==> (#[trigger] g.tiles@[y]@[x]) == text_tile(
                    t,
                    hl0,
                    vals[0],
                    y,
                    x,
                ));
            assert(text_start_at(t, hl0, wi, hi, g.start.y as int, g.start.x as int));
            assert forall|yy: int, xx: int|
                #[trigger] text_start_at(t, hl0, wi, hi, yy, xx) implies reading_le(
                yy,
                xx,
                g.start.y as int,
                g.start.x as int,
            ) by {
                assert(scanned_before(yy, xx, h as int, 0));
            }
            assert(text_goal_at(t, hl0, wi, hi, g.goal.y as int, g.goal.x as int));
            assert(grid_of_text(g, t));
        }
        g
    }

    /// The plain-text rendering of the grid.
    pub open spec fn spec_rendering(self) -> Seq<char> {
        joined(self.tiles@.map_values(|row: Vec<Tile>| row_chars(row@)))
    }

    /// The coloured rendering of the grid.
    pub open spec fn spec_color_rendering(self) -> Seq<char> {
        joined(self.tiles@.map_values(|row: Vec<Tile>| row_colors(row@)))
    }

    /// Render the grid as text: one character per tile, rows separated by
    /// line breaks.
    #[verifier::loop_isolation(false)]
    pub fn to_string(&self) -> (r: String)
        ensures
            r@ == self.spec_rendering(),
    {
        let ghost rows = self.tiles@.map_values(|row: Vec<Tile>| row_chars(row@));
        let mut r = String::new();
        let mut y: usize = 0;
        while y < self.tiles.len()
            invariant
                y <= self.tiles@.len(),
                r@ == joined(rows.take(y as int)),
            decreases self.tiles@.len() - y,
        {
            if y > 0 {
                r.append("\n");
                proof {
                    reveal_strlit("\n");
                }
            }
            let ghost base = r@;
            let row_len = self.tiles[y].len();
            let mut x: usize = 0;
            while x < row_len
                invariant
                    y < self.tiles@.len(),
                    x <= row_len,
                    row_len == self.tiles@[y as int]@.len(),
                    r@ == base + row_chars(self.tiles@[y as int]@.take(x as int)),
                decreases row_len - x,
            {
                let t = self.tiles[y][x];
                let piece: &str = match t {
                    Tile::Open => " ",
                    Tile::Blocked => "#",
                    Tile::Start => "s",
                    Tile::Goal => "g",
                    Tile::Path => "\u{2022}",
                };
                r.append(piece);
                proof {
                    reveal_strlit(" ");
                    reveal_strlit("#");
                    reveal_strlit("s");
                    reveal_strlit("g");
                    reveal_strlit("\u{2022}");
                    let rv = self.tiles@[y as int]@;
                    assert(piece@ =~= seq![spec_tile_char(rv[x as int])]);
                    assert(row_chars(rv.take(x + 1)) =~= row_chars(rv.take(x as int)).push(
                        spec_tile_char(rv[x as int]),
                    ));
                    assert(r@ =~= base + row_chars(rv.take(x + 1)));
                }
                x = x + 1;
            }
            proof {
                let rv = self.tiles@[y as int]@;
                assert(rv.take(rv.len() as int) =~= rv);
                assert(rows[y as int] == row_chars(rv));
                if y > 0 {
                    assert(rows.take(y + 1).drop_last() =~= rows.take(y as int));
                    assert(rows.take(y + 1).last() == rows[y as int]);
                } else {
                    assert(joined(rows.take(1)) == rows.take(1)[0]);
                }
                assert(r@ =~= joined(rows.take(y + 1)));
            }
            y = y + 1;
        }
        proof {
            assert(rows.take(rows.len() as int) =~= rows);
        }
        r
    }

    /// Render the grid with terminal colours, rows separated by line breaks.
    #[verifier::loop_isolation(false)]
    pub fn to_color_string(&self) -> (r: String)
        ensures
            r@ == self.spec_color_rendering(),
    {
        let ghost rows = self.tiles@.map_values(|row: Vec<Tile>| row_colors(row@));
        let mut r = String::new();
        let mut y: usize = 0;
        while y < self.tiles.len()
            invariant
                y <= self.tiles@.len(),
                r@ == joined(rows.take(y as int)),
            decreases self.tiles@.len() - y,
        {
            if y > 0 {
                r.append("\n");
                proof {
                    reveal_strlit("\n");
                }
            }
            let ghost base = r@;
            let row_len = self.tiles[y].len();
            let mut x: usize = 0;
            while x < row_len
                invariant
                    y < self.tiles@.len(),
                    x <= row_len,
                    row_len == self.tiles@[y as int]@.len(),
                    r@ == base + row_colors(self.tiles@[y as int]@.take(x as int)),
                decreases row_len - x,
            {
                let t = self.tiles[y][x];
                let piece = t.to_color_string();
                r.append(piece.as_str());
                proof {
                    let rv = self.tiles@[y as int]@;
                    assert(rv.take(x + 1).drop_last() =~= rv.take(x as int));
                    assert(rv.take(x + 1).last() == rv[x as int]);
                    assert(row_colors(rv.take(x + 1)) =~= row_colors(rv.take(x as int))
                        + spec_tile_color(rv[x as int]));
                    assert(r@ =~= base + row_colors(rv.take(x + 1)));
                }
                x = x + 1;
            }
            proof {
                let rv = self.tiles@[y as int]@;
                assert(rv.take(rv.len() as int) =~= rv);
                assert(rows[y as int] == row_colors(rv));
                if y > 0 {
                    assert(rows.take(y + 1).drop_last() =~= rows.take(y as int));
                    assert(rows.take(y + 1).last() == rows[y as int]);
                } else {
                    assert(joined(rows.take(1)) == rows.take(1)[0]);
                }
                assert(r@ =~= joined(rows.take(y + 1)));
            }
            y = y + 1;
        }
        proof {
            assert(rows.take(rows.len() as int) =~= rows);
        }
        r
    }

    /// Mark every path coordinate as a path tile, leaving the start and goal
    /// markers in place.
    pub fn set_path(&mut self, path: &[Coord])
        requires
            old(self).wf(),
            forall|i: int| 0 <= i < path@.len() ==> old(self).spec_in_range(#[trigger] path@[i]),
        ensures
            final(self).wf(),
            final(self).width == old(self).width,
            final(self).height == old(self).height,
            final(self).start == old(self).start,
            final(self).goal == old(self).goal,
            forall|y: int, x: int|
                #![trigger final(self).tiles@[y]@[x]]
                0 <= y < old(self).tiles@.len() && 0 <= x < old(self).tiles@[y]@.len()
                    ==> final(self).tiles@[y]@[x] == (if on_path(path@, x, y) && old(
                    self,
                ).tiles@[y]@[x] != Tile::Start && old(self).tiles@[y]@[x] != Tile::Goal {
                    Tile::Path
                } else {
                    old(self).tiles@[y]@[x]
                }),
    {
        let ghost g0 = *self;
        let mut i: usize = 0;
        while i < path.len()
            invariant
                self.wf(),
                self.width == g0.width,
                self.height == g0.height,
                self.start == g0.start,
                self.goal == g0.goal,
                g0.wf(),
                forall|j: int| 0 <= j < path@.len() ==> g0.spec_in_range(#[trigger] path@[j]),
                i <= path@.len(),
                forall|y: int, x: int|
                    #![trigger self.tiles@[y]@[x]]
                    0 <= y < g0.tiles@.len() && 0 <= x < g0.tiles@[y]@.len() ==> self.tiles@[y]@[x]
                        == (if on_path(path@.take(i as int), x, y) && g0.tiles@[y]@[x]
                        != Tile::Start && g0.tiles@[y]@[x] != Tile::Goal {
                        Tile::Path
                    } else {
                        g0.tiles@[y]@[x]
                    }),
            decreases path@.len() - i,
        {
            let c = path[i];
            let ghost pre = self.tiles@;
            let cy = c.y as usize;
            let cx = c.x as usize;
            let tile = self.tiles[cy][cx];
            if !(tile == Tile::Start) && !(tile == Tile::Goal) {
                self.tiles[cy][cx] = Tile::Path;
            }
            proof {
                assert(path@.take(i + 1).last() == c);
                assert forall|y: int, x: int|
                    0 <= y < g0.tiles@.len() && 0 <= x < g0.tiles@[y]@.len() implies #[trigger] self
                    .tiles@[y]@[x] == (if on_path(path@.take(i + 1), x, y) && g0.tiles@[y]@[x]
                    != Tile::Start && g0.tiles@[y]@[x] != Tile::Goal {
                    Tile::Path
                } else {
                    g0.tiles@[y]@[x]
                }) by {
                    if y == cy && x == cx {
                        assert(on_path(path@.take(i + 1), x, y)) by {
                            assert(path@.take(i + 1)[i as int] == c);
                        }
                    } else {
                        assert(self.tiles@[y]@[x] == pre[y]@[x]);
                        assert(on_path(path@.take(i + 1), x, y) == on_path(
                            path@.take(i as int),
                            x,
                            y,
                        )) by {
                            if on_path(path@.take(i + 1), x, y) {
                                let j = choose|j: int|
                                    0 <= j < path@.take(i + 1).len() && (#[trigger] path@.take(
                                        i + 1,
                                    )[j]).x == x && path@.take(i + 1)[j].y == y;
                                assert(j != i);
                                assert(path@.take(i as int)[j] == path@.take(i + 1)[j]);
                            } else if on_path(path@.take(i as int), x, y) {
                                let j = choose|j: int|
                                    0 <= j < path@.take(i as int).len() && (#[trigger] path@.take(
                                        i as int,
                                    )[j]).x == x && path@.take(i as int)[j].y == y;
                                assert(path@.take(i + 1)[j] == path@.take(i as int)[j]);
                            }
                        }
                    }
                }
            }
            i = i + 1;
        }
        proof {
            assert(path@.take(path@.len() as int) =~= path@);
        }
    }
}

impl Space for Grid {
    type T = Coord;

    open spec fn inv(&self) -> bool {
        self.wf()
    }

    open spec fn spec_start(&self) -> Coord {
        self.start
    }

    open spec fn spec_is_goal(&self, s: Coord) -> bool {
        s == self.goal
    }

    open spec fn spec_expand(&self, s: Coord) -> Seq<Coord> {
        self.spec_neighbors(s)
    }

    open spec fn spec_distance(&self, from: Coord, to: Coord) -> u32 {
        1
    }

    open spec fn spec_heuristic(&self, s: Coord) -> u32 {
        spec_manhattan(s, self.goal)
    }

    fn start(&self) -> (r: Coord) {
        self.start
    }

    fn is_goal(&self, s: &Coord) -> (r: bool) {
        *s == self.goal
    }

    fn expand(&self, s: &Coord) -> (r: Vec<Coord>) {
        Grid::expand(self, *s)
    }

    fn distance(&self, from: &Coord, to: &Coord) -> (r: u32) {
        1
    }

    fn heuristic(&self, s: &Coord) -> (r: u32) {
        Coord::distance(s, &self.goal)
    }
}

} // verus!
