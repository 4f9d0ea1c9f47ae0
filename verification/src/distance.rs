//! Damerau–Levenshtein distance between two character sequences.
//!
//! The distance counts insertions, deletions, substitutions and
//! transpositions of two adjacent characters, each at cost one. It is the
//! unrestricted variant: a transposed pair may have characters inserted or
//! deleted between its halves, so repeated substrings are not undercounted.
//!
//! [`prefix_distance`] defines the distance by the usual recurrence over
//! prefixes; [`damerau_levenshtein`] fills a table bottom-up and is proved to
//! return exactly that value.

use crate::strings::to_chars;
use std::collections::HashMap;
use vstd::prelude::*;

verus! {

broadcast use vstd::std_specs::hash::group_hash_axioms;

/// The smaller of two numbers.
pub open spec fn smaller(x: nat, y: nat) -> nat {
    if x <= y {
        x
    } else {
        y
    }
}

/// One-based position of the last occurrence of `c` among the first `n`
/// characters of `s`, or 0 when `c` does not occur there.
pub open spec fn last_position(s: Seq<char>, c: char, n: nat) -> nat
    decreases n,
{
    if n == 0 {
        0
    } else if n <= s.len() && s[n - 1] == c {
        n
    } else {
        last_position(s, c, (n - 1) as nat)
    }
}

/// Distance between the first `i` characters of `a` and the first `j`
/// characters of `b`.
///
/// Turning a prefix into the empty sequence deletes all of it. Otherwise the
/// last step is the cheapest of: dropping `a[i-1]`, adding `b[j-1]`,
/// replacing one by the other (free when they are equal), or, when both
/// characters occurred earlier in the other sequence at positions `k` and
/// `l`, swapping that pair and paying for everything in between.
pub open spec fn prefix_distance(a: Seq<char>, b: Seq<char>, i: nat, j: nat) -> nat
    decreases i + j,
{
    if i == 0 {
        j
    } else if j == 0 {
        i
    } else {
        let deletion = prefix_distance(a, b, (i - 1) as nat, j) + 1;
        let insertion = prefix_distance(a, b, i, (j - 1) as nat) + 1;
        let substitution = prefix_distance(a, b, (i - 1) as nat, (j - 1) as nat) + if a[i - 1]
            == b[j - 1] {
            0nat
        } else {
            1nat
        };
        let plain = smaller(substitution, smaller(deletion, insertion));
        let k = last_position(a, b[j - 1], (i - 1) as nat);
        let l = last_position(b, a[i - 1], (j - 1) as nat);
        if 0 < k < i && 0 < l < j {
            let transposition = prefix_distance(a, b, (k - 1) as nat, (l - 1) as nat) + (i - k
                - 1) + 1 + (j - l - 1);
            smaller(plain, transposition as nat)
        } else {
            plain
        }
    }
}

/// Damerau–Levenshtein distance between `a` and `b`.
pub open spec fn distance(a: Seq<char>, b: Seq<char>) -> nat {
    prefix_distance(a, b, a.len(), b.len())
}

/// Whether the working table for sequences of `m` and `n` characters can be
/// indexed by a `usize`. Empty sequences need no table.
pub open spec fn table_fits(m: nat, n: nat) -> bool {
    m == 0 || n == 0 || (m + 2) * (n + 2) <= usize::MAX
}

/// The distance is symmetric: `distance(a, b) == distance(b, a)`.
pub proof fn lemma_distance_symmetric(a: Seq<char>, b: Seq<char>)
    ensures
        distance(a, b) == distance(b, a),
{
    lemma_prefix_distance_symmetric(a, b, a.len(), b.len());
}

/// A sequence is at distance 0 from itself.
pub proof fn lemma_distance_identity(a: Seq<char>)
    ensures
        distance(a, a) == 0,
{
    lemma_prefix_distance_identity(a, a.len());
}

/// The distance to the empty sequence is the length of the other sequence.
pub proof fn lemma_distance_empty(s: Seq<char>)
    ensures
        distance(Seq::<char>::empty(), s) == s.len(),
        distance(s, Seq::<char>::empty()) == s.len(),
{
}

/// The distance never exceeds the length of the longer sequence.
pub proof fn lemma_distance_upper_bound(a: Seq<char>, b: Seq<char>)
    ensures
        distance(a, b) <= if a.len() >= b.len() {
            a.len()
        } else {
            b.len()
        },
{
    lemma_prefix_distance_upper_bound(a, b, a.len(), b.len());
}

/// Swapping the two sequences, prefix lengths included, keeps the distance.
pub proof fn lemma_prefix_distance_symmetric(a: Seq<char>, b: Seq<char>, i: nat, j: nat)
    ensures
        prefix_distance(a, b, i, j) == prefix_distance(b, a, j, i),
    decreases i + j,
{
    if i > 0 && j > 0 {
        lemma_prefix_distance_symmetric(a, b, (i - 1) as nat, j);
        lemma_prefix_distance_symmetric(a, b, i, (j - 1) as nat);
        lemma_prefix_distance_symmetric(a, b, (i - 1) as nat, (j - 1) as nat);
        let k = last_position(a, b[j - 1], (i - 1) as nat);
        let l = last_position(b, a[i - 1], (j - 1) as nat);
        if 0 < k < i && 0 < l < j {
            lemma_prefix_distance_symmetric(a, b, (k - 1) as nat, (l - 1) as nat);
        }
    }
}

/// Equal prefixes of one sequence are at distance 0.
pub proof fn lemma_prefix_distance_identity(a: Seq<char>, i: nat)
    ensures
        prefix_distance(a, a, i, i) == 0,
    decreases i,
{
    if i > 0 {
        lemma_prefix_distance_identity(a, (i - 1) as nat);
    }
}

/// Prefixes of lengths `i` and `j` are at most `max(i, j)` apart.
pub proof fn lemma_prefix_distance_upper_bound(a: Seq<char>, b: Seq<char>, i: nat, j: nat)
    ensures
        prefix_distance(a, b, i, j) <= if i >= j {
            i
        } else {
            j
        },
    decreases i + j,
{
    if i > 0 && j > 0 {
        lemma_prefix_distance_upper_bound(a, b, (i - 1) as nat, j);
        lemma_prefix_distance_upper_bound(a, b, i, (j - 1) as nat);
        lemma_prefix_distance_upper_bound(a, b, (i - 1) as nat, (j - 1) as nat);
    }
}

/// Prefixes of lengths `i` and `j` are at least `|i - j|` apart.
pub proof fn lemma_prefix_distance_lower_bound(a: Seq<char>, b: Seq<char>, i: nat, j: nat)
    ensures
        i - j <= prefix_distance(a, b, i, j),
        j - i <= prefix_distance(a, b, i, j),
    decreases i + j,
{
    if i > 0 && j > 0 {
        lemma_prefix_distance_lower_bound(a, b, (i - 1) as nat, j);
        lemma_prefix_distance_lower_bound(a, b, i, (j - 1) as nat);
        lemma_prefix_distance_lower_bound(a, b, (i - 1) as nat, (j - 1) as nat);
        let k = last_position(a, b[j - 1], (i - 1) as nat);
        let l = last_position(b, a[i - 1], (j - 1) as nat);
        if 0 < k < i && 0 < l < j {
            lemma_prefix_distance_lower_bound(a, b, (k - 1) as nat, (l - 1) as nat);
        }
    }
}

/// The distance is at least the difference of the lengths. A word at
/// distance `d` from another is therefore at most `d` characters longer or
/// shorter.
pub proof fn lemma_distance_lower_bound(a: Seq<char>, b: Seq<char>)
    ensures
        a.len() - b.len() <= distance(a, b),
        b.len() - a.len() <= distance(a, b),
{
    lemma_prefix_distance_lower_bound(a, b, a.len(), b.len());
}

/// Only equal prefixes are at distance 0.
pub proof fn lemma_prefix_distance_zero(a: Seq<char>, b: Seq<char>, i: nat, j: nat)
    requires
        i <= a.len(),
        j <= b.len(),
        prefix_distance(a, b, i, j) == 0,
    ensures
        i == j,
        a.take(i as int) == b.take(j as int),
    decreases i + j,
{
    if i > 0 && j > 0 {
        lemma_prefix_distance_zero(a, b, (i - 1) as nat, (j - 1) as nat);
        assert(a.take(i as int) =~= a.take(i - 1).push(a[i - 1]));
        assert(b.take(j as int) =~= b.take(j - 1).push(b[j - 1]));
    } else {
        assert(a.take(0) =~= b.take(0));
    }
}

/// Two sequences are at distance 0 exactly when they are equal.
pub proof fn lemma_distance_zero(a: Seq<char>, b: Seq<char>)
    ensures
        distance(a, b) == 0 <==> a == b,
{
    if distance(a, b) == 0 {
        lemma_prefix_distance_zero(a, b, a.len(), b.len());
        assert(a.take(a.len() as int) =~= a);
        assert(b.take(b.len() as int) =~= b);
    }
    if a == b {
        lemma_distance_identity(a);
    }
}

/// Prefixes that agree character by character are at distance 0.
pub proof fn lemma_common_prefix(a: Seq<char>, b: Seq<char>, i: nat)
    requires
        forall|q: int| 0 <= q < i ==> a[q] == b[q],
    ensures
        prefix_distance(a, b, i, i) == 0,
    decreases i,
{
    if i > 0 {
        lemma_common_prefix(a, b, (i - 1) as nat);
    }
}

/// Extending two prefixes by `n` characters that agree pair by pair does
/// not increase their distance.
pub proof fn lemma_common_extension(a: Seq<char>, b: Seq<char>, i: nat, j: nat, n: nat)
    requires
        forall|q: int| i <= q < i + n ==> #[trigger] a[q] == b[q - i + j],
    ensures
        prefix_distance(a, b, i + n, j + n) <= prefix_distance(a, b, i, j),
    decreases n,
{
    if n > 0 {
        lemma_common_extension(a, b, i, j, (n - 1) as nat);
        assert(a[i + n - 1] == b[i + n - 1 - i + j]);
    }
}

/// Replacing one character by a different one costs exactly 1.
pub proof fn lemma_substitution_costs_one(a: Seq<char>, p: int, c: char)
    requires
        0 <= p < a.len(),
        a[p] != c,
    ensures
        distance(a, a.update(p, c)) == 1,
{
    let b = a.update(p, c);
    lemma_common_prefix(a, b, p as nat);
    lemma_common_extension(a, b, (p + 1) as nat, (p + 1) as nat, (a.len() - p - 1) as nat);
    lemma_distance_zero(a, b);
    assert(a[p] != b[p]);
}

/// Swapping two adjacent characters that differ costs exactly 1.
pub proof fn lemma_transposition_costs_one(a: Seq<char>, p: int)
    requires
        0 <= p,
        p + 1 < a.len(),
        a[p] != a[p + 1],
    ensures
        distance(a, a.update(p, a[p + 1]).update(p + 1, a[p])) == 1,
{
    let b = a.update(p, a[p + 1]).update(p + 1, a[p]);
    lemma_common_prefix(a, b, p as nat);
    assert(last_position(a, b[p + 1], (p + 1) as nat) == p + 1);
    assert(last_position(b, a[p + 1], (p + 1) as nat) == p + 1);
    assert(prefix_distance(a, b, (p + 2) as nat, (p + 2) as nat) <= 1);
    lemma_common_extension(a, b, (p + 2) as nat, (p + 2) as nat, (a.len() - p - 2) as nat);
    lemma_distance_zero(a, b);
    assert(a[p] != b[p]);
}

/// Inserting one character, or deleting it again, costs exactly 1.
pub proof fn lemma_insertion_costs_one(a: Seq<char>, p: int, c: char)
    requires
        0 <= p <= a.len(),
    ensures
        distance(a, a.insert(p, c)) == 1,
        distance(a.insert(p, c), a) == 1,
{
    let b = a.insert(p, c);
    lemma_common_prefix(a, b, p as nat);
    assert(prefix_distance(a, b, p as nat, (p + 1) as nat) <= 1);
    lemma_common_extension(a, b, p as nat, (p + 1) as nat, (a.len() - p) as nat);
    lemma_distance_lower_bound(a, b);
    lemma_distance_symmetric(a, b);
}

/// `last_position` stays within the prefix it searches and points at `c`.
pub proof fn lemma_last_position(s: Seq<char>, c: char, n: nat)
    requires
        n <= s.len(),
    ensures
        last_position(s, c, n) <= n,
        last_position(s, c, n) > 0 ==> s[last_position(s, c, n) - 1] == c,
    decreases n,
{
    if n > 0 && s[n - 1] != c {
        lemma_last_position(s, c, (n - 1) as nat);
    }
}

/// Position of cell `(i, j)` in a table stored column after column, each
/// column holding `width` cells.
pub open spec fn flat(i: int, j: int, width: int) -> int {
    j * width + i
}

proof fn lemma_flat_bounds(i: int, j: int, width: int, height: int)
    requires
        0 <= i < width,
        0 <= j < height,
    ensures
        0 <= flat(i, j, width) < width * height,
{
    assert(0 <= j * width) by (nonlinear_arith)
        requires
            0 <= j,
            0 < width,
    ;
    assert(j * width + width <= width * height) by (nonlinear_arith)
        requires
            0 <= j < height,
            0 < width,
    ;
}

proof fn lemma_flat_injective(i1: int, j1: int, i2: int, j2: int, width: int)
    requires
        0 <= i1 < width,
        0 <= i2 < width,
        0 <= j1,
        0 <= j2,
        i1 != i2 || j1 != j2,
    ensures
        flat(i1, j1, width) != flat(i2, j2, width),
{
    if j1 < j2 {
        assert(j1 * width + width <= j2 * width) by (nonlinear_arith)
            requires
                j1 < j2,
                0 < width,
        ;
    } else if j2 < j1 {
        assert(j2 * width + width <= j1 * width) by (nonlinear_arith)
            requires
                j2 < j1,
                0 < width,
        ;
    }
}

/// When the table fits, so do all the sums the algorithm forms.
proof fn lemma_table_size(m: nat, n: nat)
    requires
        m >= 1,
        n >= 1,
        (m + 2) * (n + 2) <= usize::MAX,
    ensures
        2 * (m + n) + 5 <= (m + 2) * (n + 2),
{
    assert(2 * (m + n) + 5 <= (m + 2) * (n + 2)) by (nonlinear_arith)
        requires
            m >= 1,
            n >= 1,
    ;
}

/// Index of cell `(i, j)` in the flattened table.
fn flat_index(i: usize, j: usize, width: usize) -> (index: usize)
    requires
        j * width + i <= usize::MAX,
    ensures
        index == flat(i as int, j as int, width as int),
{
    assert(j * width <= usize::MAX) by (nonlinear_arith)
        requires
            j * width + i <= usize::MAX,
            0 <= i,
    ;
    j * width + i
}

fn least(x: usize, y: usize) -> (z: usize)
    ensures
        z == smaller(x as nat, y as nat),
{
    if x <= y {
        x
    } else {
        y
    }
}

/// State of the table while it is being filled.
///
/// Row 0 and column 0 hold the sentinel `a.len() + b.len()`, which is larger
/// than any distance. Every other cell `(r, c)` that has been computed holds
/// the distance between the first `r - 1` characters of `a` and the first
/// `c - 1` characters of `b`. Computed are rows `1..=rows` entirely, column 1
/// entirely, and row `rows + 1` up to column `cols`.
#[verifier::opaque]
spec fn table_filled(t: Seq<usize>, a: Seq<char>, b: Seq<char>, rows: int, cols: int) -> bool {
    let width = a.len() as int + 2;
    let height = b.len() as int + 2;
    &&& t.len() == width * height
    &&& forall|r: int, c: int|
        0 <= r < width && 0 <= c < height && (r == 0 || c == 0) ==> t[#[trigger] flat(r, c, width)]
            == a.len() + b.len()
    &&& forall|r: int, c: int|
        1 <= r < width && 1 <= c < height && computed(r, c, rows, cols) ==> t[#[trigger] flat(
            r,
            c,
            width,
        )] == prefix_distance(a, b, (r - 1) as nat, (c - 1) as nat)
}

/// Whether cell `(r, c)` has been computed once rows `1..=rows` are done and
/// row `rows + 1` is done up to column `cols`.
spec fn computed(r: int, c: int, rows: int, cols: int) -> bool {
    r <= rows || c == 1 || (r == rows + 1 && c <= cols)
}

/// Every cell lies inside the table, and distinct cells do not overlap.
proof fn lemma_cells(row: int, col: int, width: int, height: int)
    requires
        0 <= row < width,
        0 <= col < height,
    ensures
        0 <= flat(row, col, width) < width * height,
        forall|r: int, c: int|
            0 <= r < width && 0 <= c < height ==> {
                &&& 0 <= #[trigger] flat(r, c, width) < width * height
                &&& (r != row || c != col) ==> flat(r, c, width) != flat(row, col, width)
            },
{
    lemma_flat_bounds(row, col, width, height);
    assert forall|r: int, c: int| 0 <= r < width && 0 <= c < height implies {
        &&& 0 <= #[trigger] flat(r, c, width) < width * height
        &&& (r != row || c != col) ==> flat(r, c, width) != flat(row, col, width)
    } by {
        lemma_flat_bounds(r, c, width, height);
        if r != row || c != col {
            lemma_flat_injective(r, c, row, col, width);
        }
    }
}

/// What a filled table holds in a sentinel cell.
proof fn lemma_read_sentinel(
    t: Seq<usize>,
    a: Seq<char>,
    b: Seq<char>,
    rows: int,
    cols: int,
    r: int,
    c: int,
)
    requires
        table_filled(t, a, b, rows, cols),
        0 <= r < a.len() + 2,
        0 <= c < b.len() + 2,
        r == 0 || c == 0,
    ensures
        0 <= flat(r, c, a.len() as int + 2) < t.len(),
        t[flat(r, c, a.len() as int + 2)] == a.len() + b.len(),
{
    reveal(table_filled);
    lemma_flat_bounds(r, c, a.len() as int + 2, b.len() as int + 2);
}

/// What a filled table holds in a computed cell.
proof fn lemma_read_computed(
    t: Seq<usize>,
    a: Seq<char>,
    b: Seq<char>,
    rows: int,
    cols: int,
    r: int,
    c: int,
)
    requires
        table_filled(t, a, b, rows, cols),
        1 <= r < a.len() + 2,
        1 <= c < b.len() + 2,
        computed(r, c, rows, cols),
    ensures
        0 <= flat(r, c, a.len() as int + 2) < t.len(),
        t[flat(r, c, a.len() as int + 2)] == prefix_distance(a, b, (r - 1) as nat, (c - 1) as nat),
{
    reveal(table_filled);
    lemma_flat_bounds(r, c, a.len() as int + 2, b.len() as int + 2);
}

/// Storing the distance for the next cell of the current row extends the
/// computed part of the table by that cell.
proof fn lemma_write_computed(
    t: Seq<usize>,
    a: Seq<char>,
    b: Seq<char>,
    rows: int,
    cols: int,
    cost: usize,
)
    requires
        table_filled(t, a, b, rows, cols),
        1 <= rows <= a.len(),
        1 <= cols <= b.len(),
        cost == prefix_distance(a, b, rows as nat, cols as nat),
    ensures
        table_filled(
            t.update(flat(rows + 1, cols + 1, a.len() as int + 2), cost),
            a,
            b,
            rows,
            cols + 1,
        ),
{
    reveal(table_filled);
    lemma_cells(rows + 1, cols + 1, a.len() as int + 2, b.len() as int + 2);
}

/// A finished row counts as one more computed row.
proof fn lemma_next_row(t: Seq<usize>, a: Seq<char>, b: Seq<char>, rows: int)
    requires
        table_filled(t, a, b, rows, b.len() as int + 1),
    ensures
        table_filled(t, a, b, rows + 1, 1),
{
    reveal(table_filled);
}

/// Row in which `c` was last seen, according to the map `rows`; 0 if never.
spec fn last_row(rows: Map<u32, usize>, c: char) -> nat {
    if rows.contains_key(c as u32) {
        rows[c as u32] as nat
    } else {
        0
    }
}

/// Looks up the row in which `c` was last seen.
fn row_of(rows: &HashMap<u32, usize>, c: char) -> (row: usize)
    ensures
        row == last_row(rows@, c),
{
    match rows.get(&(c as u32)) {
        Some(row) => *row,
        None => 0,
    }
}

/// The cheapest of the four candidate costs for cell `(i, j)` is the
/// distance between the prefixes of lengths `i` and `j`. Where no earlier
/// pair can be transposed, the table hands out its sentinel, which makes the
/// transposition the most expensive candidate.
proof fn lemma_cell_cost(
    a: Seq<char>,
    b: Seq<char>,
    i: nat,
    j: nat,
    k: nat,
    l: nat,
    above: nat,
    beside: nat,
    diagonal: nat,
    far: nat,
)
    requires
        1 <= i <= a.len(),
        1 <= j <= b.len(),
        k == last_position(a, b[j - 1], (i - 1) as nat),
        l == last_position(b, a[i - 1], (j - 1) as nat),
        above == prefix_distance(a, b, (i - 1) as nat, j),
        beside == prefix_distance(a, b, i, (j - 1) as nat),
        diagonal == prefix_distance(a, b, (i - 1) as nat, (j - 1) as nat),
        far == if k > 0 && l > 0 {
            prefix_distance(a, b, (k - 1) as nat, (l - 1) as nat)
        } else {
            a.len() + b.len()
        },
    ensures
        k < i,
        l < j,
        prefix_distance(a, b, i, j) == smaller(
            if a[i - 1] == b[j - 1] {
                diagonal
            } else {
                diagonal + 1
            },
            smaller(above + 1, smaller(beside + 1, (far + (i - k - 1) + 1 + (j - l - 1)) as nat)),
        ),
{
    lemma_last_position(a, b[j - 1], (i - 1) as nat);
    lemma_last_position(b, a[i - 1], (j - 1) as nat);
    lemma_prefix_distance_upper_bound(a, b, (i - 1) as nat, (j - 1) as nat);
}

/// Computes the Damerau–Levenshtein distance between `word` and `target`.
///
/// The distance is taken over characters, not bytes. The working table has
/// `(|word| + 2) * (|target| + 2)` cells, which must be addressable.
#[verifier::rlimit(50)]
pub fn damerau_levenshtein(word: &str, target: &str) -> (d: usize)
    requires
        table_fits(word@.len(), target@.len()),
    ensures
        d == distance(word@, target@),
{
    let a = to_chars(word);
    let b = to_chars(target);
    let a_len = a.len();
    let b_len = b.len();

    if a_len == 0 {
        return b_len;
    }
    if b_len == 0 {
        return a_len;
    }
    proof {
        lemma_table_size(a_len as nat, b_len as nat);
    }

    let width = a_len + 2;
    let height = b_len + 2;
    let max_distance = a_len + b_len;
    let mut distances: Vec<usize> = vec![0; width * height];
    proof {
        lemma_cells(0, 0, width as int, height as int);
    }
    distances.set(0, max_distance);

    let mut i: usize = 0;
    while i < a_len + 1
        invariant
            0 <= i <= a_len + 1,
            a_len >= 1,
            b_len >= 1,
            width == a_len + 2,
            height == b_len + 2,
            max_distance == a_len + b_len,
            width * height <= usize::MAX,
            distances@.len() == width * height,
            forall|r: int|
                0 <= r <= i ==> distances@[#[trigger] flat(r, 0, width as int)] == max_distance,
            forall|r: int| 1 <= r <= i ==> distances@[#[trigger] flat(r, 1, width as int)] == r - 1,
        decreases a_len + 1 - i,
    {
        proof {
            lemma_cells(i + 1, 0, width as int, height as int);
            lemma_cells(i + 1, 1, width as int, height as int);
        }
        distances.set(flat_index(i + 1, 0, width), max_distance);
        distances.set(flat_index(i + 1, 1, width), i);
        i += 1;
    }

    let mut j: usize = 0;
    while j < b_len + 1
        invariant
            0 <= j <= b_len + 1,
            a_len >= 1,
            b_len >= 1,
            width == a_len + 2,
            height == b_len + 2,
            max_distance == a_len + b_len,
            width * height <= usize::MAX,
            distances@.len() == width * height,
            forall|r: int|
                0 <= r < width ==> distances@[#[trigger] flat(r, 0, width as int)] == max_distance,
            forall|r: int| 1 <= r < width ==> distances@[#[trigger] flat(r, 1, width as int)] == r - 1,
            forall|c: int|
                1 <= c <= j ==> distances@[#[trigger] flat(0, c, width as int)] == max_distance,
            forall|c: int| 1 <= c <= j ==> distances@[#[trigger] flat(1, c, width as int)] == c - 1,
        decreases b_len + 1 - j,
    {
        proof {
            lemma_cells(0, j + 1, width as int, height as int);
            lemma_cells(1, j + 1, width as int, height as int);
        }
        distances.set(flat_index(0, j + 1, width), max_distance);
        distances.set(flat_index(1, j + 1, width), j);
        j += 1;
    }

    let mut elems: HashMap<u32, usize> = HashMap::with_capacity(64);
    proof {
        assert(table_filled(distances@, a@, b@, 1, 1)) by {
            reveal(table_filled);
        }
        assert forall|c: char| #[trigger]
            last_row(elems@, c) == last_position(a@, c, 0) by {}
    }

    let mut i: usize = 1;
    while i < a_len + 1
        invariant
            1 <= i <= a_len + 1,
            a_len >= 1,
            b_len >= 1,
            a_len == a@.len(),
            b_len == b@.len(),
            width == a_len + 2,
            height == b_len + 2,
            width * height <= usize::MAX,
            2 * (a_len + b_len) + 5 <= width * height,
            distances@.len() == width * height,
            table_filled(distances@, a@, b@, i as int, 1),
            forall|c: char| #[trigger] last_row(elems@, c) == last_position(a@, c, (i - 1) as nat),
        decreases a_len + 1 - i,
    {
        let mut db: usize = 0;

        let mut j: usize = 1;
        while j < b_len + 1
            invariant
                1 <= i <= a_len,
                1 <= j <= b_len + 1,
                a_len == a@.len(),
                b_len == b@.len(),
                width == a_len + 2,
                height == b_len + 2,
                width * height <= usize::MAX,
                2 * (a_len + b_len) + 5 <= width * height,
                distances@.len() == width * height,
                table_filled(distances@, a@, b@, i as int, j as int),
                forall|c: char|
                    #[trigger] last_row(elems@, c) == last_position(a@, c, (i - 1) as nat),
                db == last_position(b@, a@[i - 1], (j - 1) as nat),
            decreases b_len + 1 - j,
        {
            let k = row_of(&elems, b[j - 1]);
            proof {
                lemma_last_position(a@, b@[j - 1], (i - 1) as nat);
                lemma_last_position(b@, a@[i - 1], (j - 1) as nat);
                lemma_read_computed(distances@, a@, b@, i as int, j as int, i as int, j + 1);
                lemma_read_computed(distances@, a@, b@, i as int, j as int, i + 1, j as int);
                lemma_read_computed(distances@, a@, b@, i as int, j as int, i as int, j as int);
                lemma_flat_bounds(i + 1, j + 1, width as int, height as int);
                lemma_prefix_distance_upper_bound(a@, b@, (i - 1) as nat, j as nat);
                lemma_prefix_distance_upper_bound(a@, b@, i as nat, (j - 1) as nat);
                lemma_prefix_distance_upper_bound(a@, b@, (i - 1) as nat, (j - 1) as nat);
                if k > 0 && db > 0 {
                    lemma_read_computed(distances@, a@, b@, i as int, j as int, k as int, db as int);
                    lemma_prefix_distance_upper_bound(a@, b@, (k - 1) as nat, (db - 1) as nat);
                } else {
                    lemma_read_sentinel(distances@, a@, b@, i as int, j as int, k as int, db as int);
                }
            }

            let above = distances[flat_index(i, j + 1, width)];
            let beside = distances[flat_index(i + 1, j, width)];
            let far = distances[flat_index(k, db, width)];
            let diagonal = distances[flat_index(i, j, width)];
            let ghost l = db;

            let insertion_cost = above + 1;
            let deletion_cost = beside + 1;
            let transposition_cost = far + (i - k - 1) + 1 + (j - db - 1);

            let mut substitution_cost = diagonal + 1;
            if a[i - 1] == b[j - 1] {
                db = j;
                substitution_cost -= 1;
            }
            let cost = least(
                substitution_cost,
                least(insertion_cost, least(deletion_cost, transposition_cost)),
            );
            proof {
                lemma_cell_cost(
                    a@,
                    b@,
                    i as nat,
                    j as nat,
                    k as nat,
                    l as nat,
                    above as nat,
                    beside as nat,
                    diagonal as nat,
                    far as nat,
                );
                lemma_write_computed(distances@, a@, b@, i as int, j as int, cost);
            }
            distances.set(flat_index(i + 1, j + 1, width), cost);
            j += 1;
        }

        let ghost seen = elems@;
        elems.insert(a[i - 1] as u32, i);
        proof {
            lemma_next_row(distances@, a@, b@, i as int);
            assert(elems@ == seen.insert(a@[i - 1] as u32, i));
            assert forall|c: char| #[trigger]
                last_row(elems@, c) == last_position(a@, c, i as nat) by {
                assert(last_row(seen, c) == last_position(a@, c, (i - 1) as nat));
                if c != a@[i - 1] {
                    vstd::utf8::char_u32_cast(c, c as u32);
                    vstd::utf8::char_u32_cast(a@[i - 1], a@[i - 1] as u32);
                }
            }
        }
        i += 1;
    }

    proof {
        lemma_read_computed(
            distances@,
            a@,
            b@,
            a_len + 1,
            1,
            a_len + 1,
            b_len + 1,
        );
    }
    distances[flat_index(a_len + 1, b_len + 1, width)]
}

} // verus!
