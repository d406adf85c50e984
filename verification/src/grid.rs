//! Cube coordinates on a hexagonal grid, the six compass directions, and the
//! bounded sparse grid of cells.

use vstd::prelude::*;

verus! {

/// The six directions an ant can face, in clockwise order starting at North.
#[derive(Debug, Clone, Copy, PartialEq, Eq, Structural)]
pub enum Direction {
    North,
    NorthEast,
    SouthEast,
    South,
    SouthWest,
    NorthWest,
}

/// Unit offset of one step in direction `d`, as `(dr, ds, dq)`.
///
/// Every offset sums to zero, so a step preserves the cube-coordinate
/// invariant `r + s + q == 0`.
pub open spec fn spec_dir_offset(d: Direction) -> (int, int, int) {
    match d {
        Direction::North => (-1int, 1int, 0int),
        Direction::NorthEast => (-1int, 0int, 1int),
        Direction::SouthEast => (0int, -1int, 1int),
        Direction::South => (1int, -1int, 0int),
        Direction::SouthWest => (1int, 0int, -1int),
        Direction::NorthWest => (0int, 1int, -1int),
    }
}

impl Direction {
    /// The `(dr, ds, dq)` cube offset of one step in this direction.
    pub fn to_cube(&self) -> (r: (i32, i32, i32))
        ensures
            (r.0 as int, r.1 as int, r.2 as int) == spec_dir_offset(*self),
            r.0 + r.1 + r.2 == 0,
    {
        match self {
            Direction::North => (-1, 1, 0),
            Direction::NorthEast => (-1, 0, 1),
            Direction::SouthEast => (0, -1, 1),
            Direction::South => (1, -1, 0),
            Direction::SouthWest => (1, 0, -1),
            Direction::NorthWest => (0, 1, -1),
        }
    }
}

/// A cube coordinate on the hex grid.
///
/// Well-formed coordinates satisfy `r + s + q == 0`; construction does not
/// validate this, but every offset-producing operation preserves it.
#[derive(Debug, Clone, Copy, PartialEq, Eq, Hash, Structural)]
pub struct Coord {
    pub r: i32,
    pub s: i32,
    pub q: i32,
}

/// The cube-coordinate invariant: the three axes sum to zero.
pub open spec fn zero_sum(c: Coord) -> bool {
    c.r + c.s + c.q == 0
}

/// A coordinate far enough from the `i32` boundary that one unit step in any
/// direction cannot overflow.
pub open spec fn step_safe(c: Coord) -> bool {
    &&& i32::MIN < c.r < i32::MAX
    &&& i32::MIN < c.s < i32::MAX
    &&& i32::MIN < c.q < i32::MAX
}

/// The coordinate one step from `c` in direction `d`, using the offset table
/// of [`spec_dir_offset`].
pub open spec fn spec_neighbor(c: Coord, d: Direction) -> Coord {
    let (dr, ds, dq) = spec_dir_offset(d);
    Coord { r: (c.r + dr) as i32, s: (c.s + ds) as i32, q: (c.q + dq) as i32 }
}

impl Coord {
    pub fn new(r: i32, s: i32, q: i32) -> (c: Coord)
        ensures
            c == (Coord { r, s, q }),
    {
        Coord { r, s, q }
    }

    /// Move an arbitrary signed distance along one axis pair (used by
    /// rendering, not by the interpreter).  Preserves the zero-sum invariant.
    pub fn move_x(&self, dr: i32) -> (c: Coord)
        requires
            i32::MIN <= self.s + dr <= i32::MAX,
            i32::MIN <= self.q - dr <= i32::MAX,
        ensures
            c == (Coord { r: self.r, s: (self.s + dr) as i32, q: (self.q - dr) as i32 }),
            zero_sum(*self) ==> zero_sum(c),
    {
        Coord::new(self.r, self.s + dr, self.q - dr)
    }

    /// The coordinate one step away in direction `d`.
    ///
    /// Uses the same offset table as [`Direction::to_cube`], so the zero-sum
    /// invariant is preserved.
    pub fn offset_by(&self, dir: Direction) -> (c: Coord)
        requires
            step_safe(*self),
        ensures
            c == spec_neighbor(*self, dir),
            zero_sum(*self) ==> zero_sum(c),
    {
        match dir {
            Direction::North => Coord::new(self.r - 1, self.s + 1, self.q),
            Direction::NorthEast => Coord::new(self.r - 1, self.s, self.q + 1),
            Direction::SouthEast => Coord::new(self.r, self.s - 1, self.q + 1),
            Direction::South => Coord::new(self.r + 1, self.s - 1, self.q),
            Direction::SouthWest => Coord::new(self.r + 1, self.s, self.q - 1),
            Direction::NorthWest => Coord::new(self.r, self.s + 1, self.q - 1),
        }
    }
}

/// One step in direction `d` followed by one step in the opposite direction
/// returns to the starting coordinate.
pub proof fn lemma_neighbor_round_trip(c: Coord, d: Direction)
    requires
        step_safe(c),
    ensures
        spec_neighbor(spec_neighbor(c, d), spec_opposite(d)) == c,
{
}

/// Every coordinate produced by stepping preserves the cube-coordinate
/// invariant: the direction offsets sum to zero on the three axes, so a
/// step from a zero-sum coordinate lands on a zero-sum coordinate.
pub proof fn lemma_step_preserves_zero_sum(c: Coord, d: Direction)
    requires
        zero_sum(c),
        step_safe(c),
    ensures
        spec_dir_offset(d).0 + spec_dir_offset(d).1 + spec_dir_offset(d).2 == 0,
        zero_sum(spec_neighbor(c, d)),
{
}

/// The direction opposite to `d` (three positions around the compass).
pub open spec fn spec_opposite(d: Direction) -> Direction {
    match d {
        Direction::North => Direction::South,
        Direction::NorthEast => Direction::SouthWest,
        Direction::SouthEast => Direction::NorthWest,
        Direction::South => Direction::North,
        Direction::SouthWest => Direction::NorthEast,
        Direction::NorthWest => Direction::SouthEast,
    }
}

/// A coordinate lies in the hexagonal disc of radius `n`: it satisfies the
/// zero-sum invariant and `max(|r|, |s|, |q|) <= n`.
pub open spec fn in_radius(c: Coord, n: int) -> bool {
    &&& zero_sum(c)
    &&& -n <= c.r <= n
    &&& -n <= c.s <= n
    &&& -n <= c.q <= n
}

/// The association list `s`, read as a map; later entries shadow earlier ones
/// (irrelevant when keys are distinct).
pub open spec fn pairs_to_map<T>(s: Seq<(Coord, T)>) -> Map<Coord, T>
    decreases s.len(),
{
    if s.len() == 0 {
        Map::empty()
    } else {
        pairs_to_map(s.drop_last()).insert(s.last().0, s.last().1)
    }
}

/// The entries of `s` carry pairwise-distinct coordinates.
pub open spec fn distinct_keys<T>(s: Seq<(Coord, T)>) -> bool {
    forall|i: int, j: int| 0 <= i < j < s.len() ==> (#[trigger] s[i]).0 != (#[trigger] s[j]).0
}

/// A coordinate is in the map iff some entry of the list carries it.
pub proof fn lemma_pairs_to_map_contains<T>(s: Seq<(Coord, T)>)
    ensures
        forall|c: Coord|
            pairs_to_map(s).dom().contains(c) <==> exists|i: int|
                0 <= i < s.len() && (#[trigger] s[i]).0 == c,
    decreases s.len(),
{
    if s.len() > 0 {
        lemma_pairs_to_map_contains(s.drop_last());
        assert forall|c: Coord| pairs_to_map(s).dom().contains(c) implies exists|i: int|
            0 <= i < s.len() && (#[trigger] s[i]).0 == c by {
            if c == s.last().0 {
                assert(s[s.len() - 1].0 == c);
            } else {
                assert(pairs_to_map(s.drop_last()).dom().contains(c));
                let i = choose|i: int|
                    0 <= i < s.drop_last().len() && (#[trigger] s.drop_last()[i]).0 == c;
                assert(s.drop_last()[i] == s[i]);
                assert(s[i].0 == c);
            }
        }
        assert forall|c: Coord|
            (exists|i: int| 0 <= i < s.len() && (#[trigger] s[i]).0 == c) implies pairs_to_map(
            s,
        ).dom().contains(c) by {
            let i = choose|i: int| 0 <= i < s.len() && (#[trigger] s[i]).0 == c;
            if i < s.len() - 1 {
                assert(s.drop_last()[i].0 == c);
                assert(pairs_to_map(s.drop_last()).dom().contains(c));
            } else {
                assert(c == s.last().0);
            }
        }
    }
}

/// With distinct keys, the map sends each listed coordinate to its entry.
pub proof fn lemma_pairs_to_map_index<T>(s: Seq<(Coord, T)>, i: int)
    requires
        distinct_keys(s),
        0 <= i < s.len(),
    ensures
        pairs_to_map(s).dom().contains(s[i].0),
        pairs_to_map(s)[s[i].0] == s[i].1,
    decreases s.len(),
{
    lemma_pairs_to_map_contains(s);
    if i < s.len() - 1 {
        assert(distinct_keys(s.drop_last())) by {
            assert forall|a: int, b: int|
                0 <= a < b < s.drop_last().len() implies (#[trigger] s.drop_last()[a]).0 != (
            #[trigger] s.drop_last()[b]).0 by {
                assert(s[a].0 != s[b].0);
            }
        }
        lemma_pairs_to_map_index(s.drop_last(), i);
        assert(s.drop_last()[i] == s[i]);
        assert(s[i].0 != s.last().0);
    }
}

/// With distinct keys, the map's domain has exactly one element per entry.
pub proof fn lemma_pairs_to_map_len<T>(s: Seq<(Coord, T)>)
    requires
        distinct_keys(s),
    ensures
        pairs_to_map(s).dom().finite(),
        pairs_to_map(s).dom().len() == s.len(),
    decreases s.len(),
{
    if s.len() > 0 {
        let d = s.drop_last();
        assert(distinct_keys(d)) by {
            assert forall|a: int, b: int|
                0 <= a < b < d.len() implies (#[trigger] d[a]).0 != (#[trigger] d[b]).0 by {
                assert(s[a].0 != s[b].0);
            }
        }
        lemma_pairs_to_map_len(d);
        lemma_pairs_to_map_contains(d);
        assert(!pairs_to_map(d).dom().contains(s.last().0)) by {
            if pairs_to_map(d).dom().contains(s.last().0) {
                let i = choose|i: int| 0 <= i < d.len() && (#[trigger] d[i]).0 == s.last().0;
                assert(s[i].0 == s[s.len() - 1].0);
            }
        }
        assert(pairs_to_map(s).dom() =~= pairs_to_map(d).dom().insert(s.last().0));
    }
}

/// Number of coordinates of the hexagonal disc of radius `n` whose first axis
/// equals `r` (meaningful for `-n <= r <= n`).
pub open spec fn row_len(n: int, r: int) -> int {
    if r < 0 {
        2 * n + 1 + r
    } else {
        2 * n + 1 - r
    }
}

/// Number of coordinates of the hexagonal disc of radius `n` whose first axis
/// is below `r` (meaningful for `-n <= r <= n + 1`).
pub open spec fn count_below(n: int, r: int) -> int
    decreases r + n,
{
    if r <= -n {
        0
    } else {
        count_below(n, r - 1) + row_len(n, r - 1)
    }
}

/// Closed form for the partial row sums of the hexagonal disc.
proof fn lemma_count_closed(n: int, r: int)
    requires
        n >= 0,
        -n <= r <= n + 1,
    ensures
        2 * count_below(n, r) == if r <= 0 {
            (r + n) * (3 * n + r + 1)
        } else {
            3 * n * n + n + 4 * n * r + 3 * r - r * r
        },
    decreases r + n,
{
    if r == -n {
        assert((r + n) * (3 * n + r + 1) == 0) by (nonlinear_arith)
            requires r == -n;
    } else {
        lemma_count_closed(n, r - 1);
        if r <= 0 {
            assert((r - 1 + n) * (3 * n + r) + 2 * (2 * n + 1 + (r - 1)) == (r + n) * (3 * n + r
                + 1)) by (nonlinear_arith);
        } else if r == 1 {
            assert((n) * (3 * n + 1) + 2 * (2 * n + 1) == 3 * n * n + n + 4 * n + 3 - 1)
                by (nonlinear_arith);
        } else {
            assert(3 * n * n + n + 4 * n * (r - 1) + 3 * (r - 1) - (r - 1) * (r - 1) + 2 * (2 * n
                + 1 - (r - 1)) == 3 * n * n + n + 4 * n * r + 3 * r - r * r) by (nonlinear_arith);
        }
    }
}

/// The whole hexagonal disc of radius `n` holds `3n^2 + 3n + 1` coordinates.
pub proof fn lemma_count_full(n: int)
    requires
        n >= 0,
    ensures
        count_below(n, n + 1) == 3 * n * n + 3 * n + 1,
{
    lemma_count_closed(n, n + 1);
    assert(3 * n * n + n + 4 * n * (n + 1) + 3 * (n + 1) - (n + 1) * (n + 1) == 2 * (3 * n * n + 3
        * n + 1)) by (nonlinear_arith);
}

/// With distinct keys, overwriting entry `i` in place updates the map at that
/// entry's coordinate and nothing else.
pub proof fn lemma_pairs_to_map_update<T>(s: Seq<(Coord, T)>, i: int, v: T)
    requires
        distinct_keys(s),
        0 <= i < s.len(),
    ensures
        pairs_to_map(s.update(i, (s[i].0, v))) =~= pairs_to_map(s).insert(s[i].0, v),
    decreases s.len(),
{
    let c = s[i].0;
    let s2 = s.update(i, (c, v));
    if i == s.len() - 1 {
        assert(s2.drop_last() =~= s.drop_last());
    } else {
        let d = s.drop_last();
        assert(distinct_keys(d)) by {
            assert forall|a: int, b: int|
                0 <= a < b < d.len() implies (#[trigger] d[a]).0 != (#[trigger] d[b]).0 by {
                assert(s[a].0 != s[b].0);
            }
        }
        assert(d[i] == s[i]);
        lemma_pairs_to_map_update(d, i, v);
        assert(s2.drop_last() =~= d.update(i, (c, v)));
        assert(s2.last() == s.last());
        assert(s.last().0 != c);
        // inserting at `c` and then at the distinct last key commutes
        assert(pairs_to_map(s2) =~= pairs_to_map(s).insert(c, v));
    }
}

/// A bounded sparse map from cube coordinates to cell payloads, stored as an
/// association list with pairwise-distinct keys.
#[derive(Debug)]
pub struct Grid<T> {
    pub cells: Vec<(Coord, T)>,
}

impl<T> View for Grid<T> {
    type V = Map<Coord, T>;

    open spec fn view(&self) -> Map<Coord, T> {
        pairs_to_map(self.cells@)
    }
}

impl<T: Copy> Grid<T> {
    /// The entries carry pairwise-distinct coordinates, so the grid reads as
    /// a map.  Constructors establish this and every method preserves it.
    pub open spec fn wf(self) -> bool {
        distinct_keys(self.cells@)
    }

    /// Construct the full hexagonal disc of radius `size`, every cell set to
    /// `default`.
    ///
    /// The result contains exactly the coordinates `(r, s, q)` with
    /// `r + s + q == 0` and `max(|r|, |s|, |q|) <= size` — that is,
    /// `3·size² + 3·size + 1` cells — and nothing else.
    pub fn new(size: u32, default: T) -> (g: Grid<T>)
        requires
            size <= 1_000_000_000,
        ensures
            g.wf(),
            forall|c: Coord| g@.dom().contains(c) <==> in_radius(c, size as int),
            forall|c: Coord| in_radius(c, size as int) ==> g@[c] == default,
            g.cells@.len() == 3 * (size as int) * (size as int) + 3 * (size as int) + 1,
            g@.dom().finite(),
            g@.dom().len() == 3 * (size as int) * (size as int) + 3 * (size as int) + 1,
    {
        let n: i32 = size as i32;
        let ghost ni: int = n as int;
        let mut cells: Vec<(Coord, T)> = Vec::new();
        let mut r: i32 = -n;
        while r <= n
            invariant
                0 <= ni <= 1_000_000_000,
                ni == size as int,
                n as int == ni,
                -ni <= r as int <= ni + 1,
                cells@.len() == count_below(ni, r as int),
                distinct_keys(cells@),
                forall|i: int|
                    0 <= i < cells@.len() ==> in_radius((#[trigger] cells@[i]).0, ni),
                forall|i: int| 0 <= i < cells@.len() ==> (#[trigger] cells@[i]).1 == default,
                forall|i: int| 0 <= i < cells@.len() ==> (#[trigger] cells@[i]).0.r < r as int,
                forall|c: Coord|
                    in_radius(c, ni) && c.r < r as int ==> exists|i: int|
                        0 <= i < cells@.len() && (#[trigger] cells@[i]).0 == c,
            decreases ni + 1 - r as int,
        {
            let lo: i32 = if r >= 0 { -n } else { -n - r };
            let hi: i32 = if r >= 0 { n - r } else { n };
            let mut s: i32 = lo;
            while s <= hi
                invariant
                    0 <= ni <= 1_000_000_000,
                    n as int == ni,
                    -ni <= r as int <= ni,
                    lo as int == if r >= 0 { -ni } else { -ni - r as int },
                    hi as int == if r >= 0 { ni - r as int } else { ni },
                    lo as int <= s as int <= hi as int + 1,
                    cells@.len() == count_below(ni, r as int) + (s as int - lo as int),
                    distinct_keys(cells@),
                    forall|i: int|
                        0 <= i < cells@.len() ==> in_radius((#[trigger] cells@[i]).0, ni),
                    forall|i: int| 0 <= i < cells@.len() ==> (#[trigger] cells@[i]).1 == default,
                    forall|i: int|
                        0 <= i < cells@.len() ==> (#[trigger] cells@[i]).0.r < r as int || (
                        cells@[i].0.r == r as int && cells@[i].0.s < s as int),
                    forall|c: Coord|
                        in_radius(c, ni) && (c.r < r as int || (c.r == r as int && c.s
                            < s as int)) ==> exists|i: int|
                            0 <= i < cells@.len() && (#[trigger] cells@[i]).0 == c,
                decreases hi as int + 1 - s as int,
            {
                let c = Coord { r, s, q: 0 - r - s };
                let ghost before = cells@;
                cells.push((c, default));
                proof {
                    assert forall|c2: Coord|
                        in_radius(c2, ni) && (c2.r < r as int || (c2.r == r as int && c2.s
                            < s as int + 1)) implies exists|i: int|
                        0 <= i < cells@.len() && (#[trigger] cells@[i]).0 == c2 by {
                        if c2.r == r as int && c2.s == s as int {
                            assert(cells@[cells@.len() - 1].0 == c2);
                        } else {
                            let i = choose|i: int|
                                0 <= i < before.len() && (#[trigger] before[i]).0 == c2;
                            assert(cells@[i].0 == c2);
                        }
                    }
                }
                s = s + 1;
            }
            assert(cells@.len() == count_below(ni, r as int + 1));
            assert forall|c: Coord| in_radius(c, ni) && c.r < r as int + 1 implies exists|i: int|
                0 <= i < cells@.len() && (#[trigger] cells@[i]).0 == c by {
                if c.r == r as int {
                    assert(lo as int <= c.s <= hi as int);
                }
            }
            r = r + 1;
        }
        proof {
            lemma_count_full(ni);
            lemma_pairs_to_map_contains(cells@);
            lemma_pairs_to_map_len(cells@);
            assert forall|c: Coord| in_radius(c, ni) implies pairs_to_map(cells@)[c]
                == default by {
                let i = choose|i: int| 0 <= i < cells@.len() && (#[trigger] cells@[i]).0 == c;
                lemma_pairs_to_map_index(cells@, i);
            }
        }
        Grid { cells }
    }

    /// Number of cells in the grid.
    pub fn len(&self) -> (l: usize)
        requires
            self.wf(),
        ensures
            l == self.cells@.len(),
            l == self@.dom().len(),
            self@.dom().finite(),
    {
        proof {
            lemma_pairs_to_map_len(self.cells@);
        }
        self.cells.len()
    }

    /// The cell at `coord`, absent when `coord` is outside the grid.
    pub fn get(&self, coord: &Coord) -> (r: Option<&T>)
        requires
            self.wf(),
        ensures
            match r {
                Some(v) => self@.dom().contains(*coord) && *v == self@[*coord],
                None => !self@.dom().contains(*coord),
            },
    {
        proof {
            lemma_pairs_to_map_contains(self.cells@);
        }
        let mut i: usize = 0;
        while i < self.cells.len()
            invariant
                self.wf(),
                i <= self.cells@.len(),
                forall|j: int| 0 <= j < i ==> (#[trigger] self.cells@[j]).0 != *coord,
            decreases self.cells@.len() - i,
        {
            if self.cells[i].0 == *coord {
                proof {
                    lemma_pairs_to_map_index(self.cells@, i as int);
                }
                return Some(&self.cells[i].1);
            }
            i = i + 1;
        }
        None
    }

    /// Overwrite the cell at `coord`; a no-op when `coord` is outside the
    /// grid (the grid's coordinate set never changes after construction).
    pub fn set(&mut self, coord: Coord, value: T)
        requires
            old(self).wf(),
        ensures
            final(self).wf(),
            final(self).cells@.len() == old(self).cells@.len(),
            final(self)@ == if old(self)@.dom().contains(coord) {
                old(self)@.insert(coord, value)
            } else {
                old(self)@
            },
    {
        proof {
            lemma_pairs_to_map_contains(self.cells@);
        }
        let mut i: usize = 0;
        while i < self.cells.len()
            invariant
                self.wf(),
                *self == *old(self),
                i <= self.cells@.len(),
                forall|j: int| 0 <= j < i ==> (#[trigger] self.cells@[j]).0 != coord,
            decreases self.cells@.len() - i,
        {
            if self.cells[i].0 == coord {
                proof {
                    lemma_pairs_to_map_contains(self.cells@);
                    lemma_pairs_to_map_update(self.cells@, i as int, value);
                    assert(old(self).cells@[i as int].0 == coord);
                    assert(old(self)@.dom().contains(coord));
                }
                self.cells.set(i, (coord, value));
                proof {
                    assert(self.cells@ =~= old(self).cells@.update(
                        i as int,
                        (old(self).cells@[i as int].0, value),
                    ));
                    assert(distinct_keys(self.cells@)) by {
                        assert forall|a: int, b: int|
                            0 <= a < b < self.cells@.len() implies (#[trigger] self.cells@[a]).0
                            != (#[trigger] self.cells@[b]).0 by {
                            assert(old(self).cells@[a].0 != old(self).cells@[b].0);
                        }
                    }
                }
                return ;
            }
            i = i + 1;
        }
    }

    /// All `(coordinate, cell)` pairs, in unspecified order.
    pub fn iter(&self) -> (r: Vec<(Coord, T)>)
        ensures
            r@ == self.cells@,
    {
        let mut out: Vec<(Coord, T)> = Vec::new();
        let mut i: usize = 0;
        while i < self.cells.len()
            invariant
                i <= self.cells@.len(),
                out@ == self.cells@.take(i as int),
            decreases self.cells@.len() - i,
        {
            out.push(self.cells[i]);
            proof {
                assert(out@ =~= self.cells@.take(i as int + 1));
            }
            i = i + 1;
        }
        proof {
            assert(out@ =~= self.cells@);
        }
        out
    }

    /// All coordinates of the grid, in the same unspecified order as
    /// [`Grid::iter`].
    pub fn keys(&self) -> (r: Vec<Coord>)
        ensures
            r@.len() == self.cells@.len(),
            forall|i: int| 0 <= i < r@.len() ==> r@[i] == (#[trigger] self.cells@[i]).0,
    {
        let mut out: Vec<Coord> = Vec::new();
        let mut i: usize = 0;
        while i < self.cells.len()
            invariant
                i <= self.cells@.len(),
                out@.len() == i,
                forall|j: int| 0 <= j < i ==> out@[j] == (#[trigger] self.cells@[j]).0,
            decreases self.cells@.len() - i,
        {
            out.push(self.cells[i].0);
            i = i + 1;
        }
        out
    }

    /// The coordinate one step from `coord` in direction `dir`.
    ///
    /// A pure function of its arguments: it does not check membership, so
    /// callers must separately query whether the neighbor is present.
    pub fn get_neighbor(&self, coord: &Coord, dir: &Direction) -> (c: Coord)
        requires
            step_safe(*coord),
        ensures
            c == spec_neighbor(*coord, *dir),
    {
        let (dr, ds, dq) = dir.to_cube();
        Coord::new(coord.r + dr, coord.s + ds, coord.q + dq)
    }
}

} // verus!
