//! Slopes: how many marked cells a straight descent through a grid meets.
//!
//! The descent starts in the first row and first column and moves `down`
//! rows and `right` columns at a time. A row repeats without end to the
//! right, so the column is taken modulo the width of the row that is
//! visited. A row without cells holds no marked cell.

use crate::lexer::{lines, span_len, spec_lines, CharClass};
use vstd::arithmetic::div_mod::{lemma_div_plus_one, lemma_mod_add_multiples_vanish};
use vstd::prelude::*;
use vstd::utf8::{encode_utf8, is_ascii_chars, is_ascii_chars_encode_utf8};

verus! {

/// The descent visits row `i` and finds `marker` there.
pub open spec fn is_hit<T>(grid: Seq<Seq<T>>, marker: T, right: nat, down: nat, i: int) -> bool {
    &&& i % (down as int) == 0
    &&& grid[i].len() > 0
    &&& grid[i][((i / (down as int)) * right) % (grid[i].len() as int)] == marker
}

/// How many of the first `n` rows the descent visits and finds `marker` in.
pub open spec fn hits<T>(grid: Seq<Seq<T>>, marker: T, right: nat, down: nat, n: nat) -> nat
    decreases n,
{
    if n == 0 {
        0
    } else {
        let here: nat = if is_hit(grid, marker, right, down, n - 1) {
            1
        } else {
            0
        };
        hits(grid, marker, right, down, (n - 1) as nat) + here
    }
}

/// How many times the descent finds `marker` in the grid.
pub open spec fn slope_hits<T>(grid: Seq<Seq<T>>, marker: T, right: nat, down: nat) -> nat {
    hits(grid, marker, right, down, grid.len())
}

/// Each row as the bytes that encode it.
pub open spec fn byte_rows(rows: Seq<Seq<char>>) -> Seq<Seq<u8>> {
    Seq::new(rows.len(), |i: int| encode_utf8(rows[i]))
}

/// The rows of a grid in memory.
pub open spec fn grid_view(map: &Vec<Vec<char>>) -> Seq<Seq<char>> {
    Seq::new(map@.len(), |i: int| map@[i]@)
}

/// The rows between two stops of the descent hold no hit.
proof fn lemma_hits_between<T>(
    grid: Seq<Seq<T>>,
    marker: T,
    right: nat,
    down: nat,
    from: nat,
    to: nat,
)
    requires
        down > 0,
        from % down == 0,
        from < to <= from + down,
    ensures
        hits(grid, marker, right, down, to) == hits(grid, marker, right, down, from + 1),
    decreases to,
{
    if to > from + 1 {
        lemma_hits_between(grid, marker, right, down, from, (to - 1) as nat);
        let r = (to - 1) as int;
        let d = down as int;
        let a = from as int;
        assert(r % d != 0) by (nonlinear_arith)
            requires
                d > 0,
                a % d == 0,
                a < r < a + d,
        ;
    }
}

/// Counts the `#` that the descent meets in the lines of a text, each line
/// taken as its bytes.
pub fn count_trees(lines: &str, right: usize, down: usize) -> (count: usize)
    requires
        down > 0,
    ensures
        count == slope_hits(byte_rows(spec_lines(lines@)), 0x23u8, right as nat, down as nat),
{
    let rows = crate::lexer::lines(lines);
    let ghost grid = byte_rows(spec_lines(lines@));
    let mut count: usize = 0;
    let mut i: usize = 0;
    while i < rows.len()
        invariant
            down > 0,
            i <= rows.len(),
            rows@.len() == spec_lines(lines@).len(),
            forall|k: int| 0 <= k < rows@.len() ==> (#[trigger] rows@[k])@ == spec_lines(lines@)[k],
            grid == byte_rows(spec_lines(lines@)),
            count == hits(grid, 0x23u8, right as nat, down as nat, i as nat),
            count <= i,
        decreases rows.len() - i,
    {
        if i % down == 0 {
            let bytes = rows[i].as_bytes();
            let width = bytes.len();
            assert(bytes@ == grid[i as int]);
            if width > 0 {
                let step = i / down;
                assert(step * right <= usize::MAX * usize::MAX) by (nonlinear_arith)
                    requires
                        0 <= step <= usize::MAX,
                        0 <= right <= usize::MAX,
                ;
                let col = ((step as u128 * right as u128) % (width as u128)) as usize;
                if bytes[col] == 0x23u8 {
                    count = count + 1;
                }
            }
        }
        i = i + 1;
    }
    count
}

/// Counts the `#` that the descent meets in a grid of characters.
pub fn count_trees2(map: &Vec<Vec<char>>, right: usize, down: usize) -> (count: usize)
    requires
        down > 0,
    ensures
        count == slope_hits(grid_view(map), '#', right as nat, down as nat),
{
    let ghost grid = grid_view(map);
    let mut i: usize = 0;
    let mut j: u128 = 0;
    let mut count: usize = 0;
    while i < map.len()
        invariant
            down > 0,
            grid == grid_view(map),
            i <= map.len(),
            i % down == 0,
            j == (i / down) * right,
            count == hits(grid, '#', right as nat, down as nat, i as nat),
            count <= i,
        decreases map.len() - i,
    {
        let width = map[i].len();
        assert(map@[i as int]@ == grid[i as int]);
        if width > 0 && map[i][(j % (width as u128)) as usize] == '#' {
            count = count + 1;
        }
        if down >= map.len() - i {
            proof {
                lemma_hits_between(
                    grid,
                    '#',
                    right as nat,
                    down as nat,
                    i as nat,
                    map.len() as nat,
                );
            }
            return count;
        }
        proof {
            lemma_hits_between(grid, '#', right as nat, down as nat, i as nat, (i + down) as nat);
            let d = down as int;
            let a = i as int;
            lemma_mod_add_multiples_vanish(a, d);
            lemma_div_plus_one(a, d);
            assert(d + a == a + d);
            let step = (a + d) / d;
            assert(step * right == (a / d) * right + right) by (nonlinear_arith)
                requires
                    step == a / d + 1,
            ;
            assert(step * right <= usize::MAX * usize::MAX) by (nonlinear_arith)
                requires
                    0 <= step <= usize::MAX,
                    0 <= right <= usize::MAX,
            ;
        }
        i = i + down;
        j = j + right as u128;
    }
    count
}

/// The lines of a text as a grid of characters.
pub fn read_map(lines: &str) -> (map: Vec<Vec<char>>)
    ensures
        grid_view(&map) == spec_lines(lines@),
{
    let rows = crate::lexer::lines(lines);
    let mut map: Vec<Vec<char>> = Vec::new();
    let mut n: usize = 0;
    while n < rows.len()
        invariant
            n <= rows.len(),
            rows@.len() == spec_lines(lines@).len(),
            forall|k: int| 0 <= k < rows@.len() ==> (#[trigger] rows@[k])@ == spec_lines(lines@)[k],
            map@.len() == n,
            forall|k: int| 0 <= k < n ==> (#[trigger] map@[k])@ == spec_lines(lines@)[k],
        decreases rows.len() - n,
    {
        let row = rows[n];
        let mut cells: Vec<char> = Vec::new();
        for c in it: row.chars()
            invariant
                it.seq() == row@,
                cells@ == row@.take(it.index() as int),
        {
            cells.push(c);
            assert(cells@ =~= row@.take(it.index() + 1));
        }
        assert(cells@ =~= row@);
        map.push(cells);
        n = n + 1;
    }
    assert(grid_view(&map) =~= spec_lines(lines@));
    map
}

/// The lines of a text of ASCII characters hold ASCII characters only.
proof fn lemma_lines_ascii(text: Seq<char>, i: int)
    requires
        is_ascii_chars(text),
        0 <= i < spec_lines(text).len(),
    ensures
        is_ascii_chars(spec_lines(text)[i]),
    decreases text.len(),
{
    let n = span_len(text, CharClass::Line);
    if text.len() > 0 && n < text.len() {
        if i > 0 {
            lemma_lines_ascii(text.skip(n as int + 1), i - 1);
        }
    }
}

/// Taken as bytes or as characters, the rows of an ASCII text hold the same
/// hits.
proof fn lemma_hits_agree(text: Seq<char>, right: nat, down: nat, n: nat)
    requires
        is_ascii_chars(text),
        n <= spec_lines(text).len(),
    ensures
        hits(byte_rows(spec_lines(text)), 0x23u8, right, down, n) == hits(
            spec_lines(text),
            '#',
            right,
            down,
            n,
        ),
    decreases n,
{
    if n > 0 {
        lemma_hits_agree(text, right, down, (n - 1) as nat);
        let row = spec_lines(text)[n - 1];
        lemma_lines_ascii(text, n - 1);
        is_ascii_chars_encode_utf8(row);
        if row.len() > 0 {
            let col = ((n - 1) / (down as int) * right) % (row.len() as int);
            assert(row[col] as u8 == encode_utf8(row)[col]);
            assert((row[col] == '#') == (row[col] as u8 == 0x23u8));
        }
    }
}

/// On a text of ASCII characters it makes no difference whether a descent
/// looks at the bytes of each line or at its characters: `count_trees` on the
/// text and `count_trees2` on the grid that `read_map` makes of it give the
/// same count.
pub proof fn lemma_counts_agree(text: Seq<char>, right: nat, down: nat)
    requires
        is_ascii_chars(text),
    ensures
        slope_hits(byte_rows(spec_lines(text)), 0x23u8, right, down) == slope_hits(
            spec_lines(text),
            '#',
            right,
            down,
        ),
{
    lemma_hits_agree(text, right, down, spec_lines(text).len());
}

/// The descent of three to the right and one down, counted twice: by the
/// bytes of the text and by the characters of its grid.
pub fn solve_a(text: &str) -> (counts: (usize, usize))
    ensures
        counts.0 == slope_hits(byte_rows(spec_lines(text@)), 0x23u8, 3, 1),
        counts.1 == slope_hits(spec_lines(text@), '#', 3, 1),
        is_ascii_chars(text@) ==> counts.0 == counts.1,
{
    let by_bytes = count_trees(text, 3, 1);
    let map = read_map(text);
    let by_chars = count_trees2(&map, 3, 1);
    proof {
        if is_ascii_chars(text@) {
            lemma_counts_agree(text@, 3, 1);
        }
    }
    (by_bytes, by_chars)
}

/// The product of the numbers of a sequence; one for none.
pub open spec fn spec_product(s: Seq<usize>) -> nat
    decreases s.len(),
{
    if s.len() == 0 {
        1
    } else {
        spec_product(s.drop_last()) * (s.last() as nat)
    }
}

/// The product of the counts, where it fits.
pub fn product(counts: &Vec<usize>) -> (r: Option<usize>)
    ensures
        match r {
            Some(p) => p == spec_product(counts@),
            None => spec_product(counts@) > usize::MAX,
        },
{
    let mut acc: Option<usize> = Some(1);
    let mut n: usize = 0;
    while n < counts.len()
        invariant
            n <= counts.len(),
            match acc {
                Some(p) => p == spec_product(counts@.take(n as int)),
                None => spec_product(counts@.take(n as int)) > usize::MAX,
            },
        decreases counts.len() - n,
    {
        let factor = counts[n];
        proof {
            assert(counts@.take(n + 1).drop_last() =~= counts@.take(n as int));
            assert(counts@.take(n + 1).last() == factor);
        }
        let ghost before = spec_product(counts@.take(n as int));
        if factor == 0 {
            assert(before * 0 == 0) by (nonlinear_arith);
            acc = Some(0);
        } else {
            acc = match acc {
                Some(p) => p.checked_mul(factor),
                None => {
                    assert(before * factor >= before) by (nonlinear_arith)
                        requires
                            factor >= 1,
                            before >= 0,
                    ;
                    None
                },
            };
        }
        n = n + 1;
    }
    assert(counts@.take(n as int) =~= counts@);
    acc
}

/// The five descents that are asked for, as steps to the right and down.
pub open spec fn spec_slopes() -> Seq<(nat, nat)> {
    seq![(1, 1), (3, 1), (5, 1), (7, 1), (1, 2)]
}

/// The counts of the five descents through the grid of a text, and their
/// product where it fits.
pub fn solve_b(text: &str) -> (r: (Vec<usize>, Option<usize>))
    ensures
        r.0@.len() == 5,
        forall|k: int|
            0 <= k < 5 ==> #[trigger] r.0@[k] == slope_hits(
                spec_lines(text@),
                '#',
                spec_slopes()[k].0,
                spec_slopes()[k].1,
            ),
        match r.1 {
            Some(p) => p == spec_product(r.0@),
            None => spec_product(r.0@) > usize::MAX,
        },
{
    let map = read_map(text);
    let mut counts: Vec<usize> = Vec::new();
    counts.push(count_trees2(&map, 1, 1));
    counts.push(count_trees2(&map, 3, 1));
    counts.push(count_trees2(&map, 5, 1));
    counts.push(count_trees2(&map, 7, 1));
    counts.push(count_trees2(&map, 1, 2));
    let total = product(&counts);
    (counts, total)
}

} // verus!
