use crate::sums::{
    lemma_sum_agree, lemma_sum_bounds, lemma_sum_change_one, lemma_sum_pointwise_add, lemma_sum_zero,
    sum_to,
};
use vstd::prelude::*;

verus! {

/// A matrix of booleans as a sequence of rows.
pub open spec fn grid(m: &Vec<Vec<bool>>) -> Seq<Seq<bool>> {
    Seq::new(m@.len(), |i: int| m@[i]@)
}

/// `g` has `n` rows of `n` cells each.
pub open spec fn is_square(g: Seq<Seq<bool>>, n: int) -> bool {
    g.len() == n && forall|i: int| 0 <= i < n ==> (#[trigger] g[i]).len() == n
}

/// The relation `g` holds between `i` and `j`.
pub open spec fn linked(g: Seq<Seq<bool>>, i: int, j: int) -> bool {
    0 <= i < g.len() && 0 <= j < g[i].len() && g[i][j]
}

/// Whatever `g` links one way it links the other way.
pub open spec fn is_symmetric(g: Seq<Seq<bool>>) -> bool {
    forall|i: int, j: int| #[trigger] linked(g, i, j) ==> linked(g, j, i)
}

/// `g` links no node to itself.
pub open spec fn has_no_loop(g: Seq<Seq<bool>>) -> bool {
    forall|i: int| !#[trigger] linked(g, i, i)
}

/// `g` links nothing.
pub open spec fn is_empty_relation(g: Seq<Seq<bool>>) -> bool {
    forall|i: int, j: int| !#[trigger] linked(g, i, j)
}

/// A symmetric relation without self-loops over exactly `n` nodes.
pub open spec fn is_tie_relation(g: Seq<Seq<bool>>, n: int) -> bool {
    is_square(g, n) && is_symmetric(g) && has_no_loop(g)
}

/// One for each cell of `row` that holds, zero elsewhere.
pub open spec fn indicator(row: Seq<bool>) -> spec_fn(int) -> int {
    |j: int| if 0 <= j < row.len() && row[j] { 1int } else { 0int }
}

/// The number of cells of `row` that hold.
pub open spec fn row_count(row: Seq<bool>) -> int {
    sum_to(indicator(row), row.len() as int)
}

/// The number of nodes that `i` is linked to; zero for a node outside `g`.
pub open spec fn degree_of(g: Seq<Seq<bool>>, i: int) -> int {
    if 0 <= i < g.len() {
        row_count(g[i])
    } else {
        0
    }
}

/// One for each cell of `row` behind place `i` that holds, zero elsewhere.
pub open spec fn upper_indicator(row: Seq<bool>, i: int) -> spec_fn(int) -> int {
    |j: int| if i < j < row.len() && row[j] { 1int } else { 0int }
}

/// For each node `i`, the number of nodes `j > i` that it is linked to.
pub open spec fn upper_row_count(g: Seq<Seq<bool>>) -> spec_fn(int) -> int {
    |i: int| if 0 <= i < g.len() { sum_to(upper_indicator(g[i], i), g[i].len() as int) } else { 0int }
}

/// The number of unordered pairs `i < j` that `g` links.
pub open spec fn tie_count(g: Seq<Seq<bool>>) -> int {
    sum_to(upper_row_count(g), g.len() as int)
}

/// `g` with the cells `(i, j)` and `(j, i)` both set to `val`.
pub open spec fn with_tie(g: Seq<Seq<bool>>, i: int, j: int, val: bool) -> Seq<Seq<bool>> {
    let h = g.update(i, g[i].update(j, val));
    h.update(j, h[j].update(i, val))
}

pub proof fn lemma_row_count_bounds(row: Seq<bool>)
    ensures
        0 <= row_count(row) <= row.len(),
{
    let f = indicator(row);
    assert forall|j: int| 0 <= j < row.len() implies 0 <= #[trigger] f(j) <= 1 by {}
    lemma_sum_bounds(f, row.len() as int, 0, 1);
}

/// Changing one cell changes the count by what the cell gains or loses.
pub proof fn lemma_row_count_update(row: Seq<bool>, j: int, val: bool)
    requires
        0 <= j < row.len(),
    ensures
        row_count(row.update(j, val)) == row_count(row) + (if val { 1int } else { 0int }) - (if row[j] {
            1int
        } else {
            0int
        }),
{
    let f = indicator(row);
    let g = indicator(row.update(j, val));
    assert forall|i: int| 0 <= i < row.len() && i != j implies #[trigger] f(i) == g(i) by {}
    lemma_sum_change_one(f, g, row.len() as int, j);
}

/// Where every cell of `c` holds just when that of `a` or that of `b` does, and
/// never both do, the counts of `a` and `b` add up to that of `c`.
pub proof fn lemma_row_count_union(a: Seq<bool>, b: Seq<bool>, c: Seq<bool>)
    requires
        a.len() == c.len(),
        b.len() == c.len(),
        forall|j: int| 0 <= j < c.len() ==> #[trigger] c[j] == (a[j] || b[j]),
        forall|j: int| 0 <= j < c.len() ==> !(#[trigger] a[j] && b[j]),
    ensures
        row_count(c) == row_count(a) + row_count(b),
{
    let fa = indicator(a);
    let fb = indicator(b);
    let fc = indicator(c);
    assert forall|j: int| 0 <= j < c.len() implies #[trigger] fc(j) == fa(j) + fb(j) by {
        assert(c[j] == (a[j] || b[j]));
        assert(!(a[j] && b[j]));
    }
    lemma_sum_pointwise_add(fa, fb, fc, c.len() as int);
}

pub proof fn lemma_tie_count_bounds(g: Seq<Seq<bool>>, n: int)
    requires
        is_square(g, n),
    ensures
        0 <= tie_count(g) <= n * n,
{
    let f = upper_row_count(g);
    assert forall|i: int| 0 <= i < n implies 0 <= #[trigger] f(i) <= n by {
        let u = upper_indicator(g[i], i);
        assert forall|j: int| 0 <= j < n implies 0 <= #[trigger] u(j) <= 1 by {}
        lemma_sum_bounds(u, n, 0, 1);
    }
    lemma_sum_bounds(f, n, 0, n);
}

/// Setting or clearing the tie between two distinct nodes changes the number
/// of ties by what the pair gains or loses.
pub proof fn lemma_tie_count_with_tie(g: Seq<Seq<bool>>, n: int, i: int, j: int, val: bool)
    requires
        is_square(g, n),
        0 <= i < n,
        0 <= j < n,
        i != j,
        g[i][j] == g[j][i],
    ensures
        is_square(with_tie(g, i, j, val), n),
        tie_count(with_tie(g, i, j, val)) == tie_count(g) + (if val { 1int } else { 0int }) - (if g[i][j] {
            1int
        } else {
            0int
        }),
{
    let h = with_tie(g, i, j, val);
    let lo = if i < j { i } else { j };
    let hi = if i < j { j } else { i };
    let f = upper_row_count(g);
    let fh = upper_row_count(h);
    assert(is_square(h, n));
    assert forall|r: int| 0 <= r < n && r != lo implies #[trigger] f(r) == fh(r) by {
        let u = upper_indicator(g[r], r);
        let uh = upper_indicator(h[r], r);
        assert forall|c: int| 0 <= c < n implies #[trigger] u(c) == uh(c) by {}
        lemma_sum_agree(u, uh, n);
    }
    let u = upper_indicator(g[lo], lo);
    let uh = upper_indicator(h[lo], lo);
    assert forall|c: int| 0 <= c < n && c != hi implies #[trigger] u(c) == uh(c) by {}
    lemma_sum_change_one(u, uh, n, hi);
    lemma_sum_change_one(f, fh, n, lo);
}

/// Every tie of `a` is a tie of `b`.
pub open spec fn includes(b: Seq<Seq<bool>>, a: Seq<Seq<bool>>) -> bool {
    forall|i: int, j: int| #[trigger] linked(a, i, j) ==> linked(b, i, j)
}

/// A relation that links nothing has no ties.
pub proof fn lemma_empty_tie_count(g: Seq<Seq<bool>>)
    requires
        is_empty_relation(g),
    ensures
        tie_count(g) == 0,
{
    let f = upper_row_count(g);
    assert forall|i: int| 0 <= i < g.len() implies #[trigger] f(i) == 0 by {
        let u = upper_indicator(g[i], i);
        assert forall|j: int| 0 <= j < g[i].len() implies #[trigger] u(j) == 0 by {
            assert(!linked(g, i, j));
        }
        lemma_sum_zero(u, g[i].len() as int);
    }
    lemma_sum_zero(f, g.len() as int);
}

/// `g` links every two distinct nodes among `n`.
pub open spec fn is_complete(g: Seq<Seq<bool>>, n: int) -> bool {
    forall|i: int, j: int| 0 <= i < n && 0 <= j < n && i != j ==> #[trigger] linked(g, i, j)
}

/// In a relation that links every two distinct nodes, the first `k` cells of
/// row `i` hold as many later nodes as lie between `i` and `k`.
proof fn lemma_complete_upper_row(g: Seq<Seq<bool>>, n: int, i: int, k: int)
    requires
        is_square(g, n),
        is_complete(g, n),
        0 <= i < n,
        0 <= k <= n,
    ensures
        sum_to(upper_indicator(g[i], i), k) == (if k > i + 1 {
            k - i - 1
        } else {
            0
        }),
    decreases k,
{
    if k > 0 {
        lemma_complete_upper_row(g, n, i, k - 1);
        if i < k - 1 {
            assert(linked(g, i, k - 1));
        }
    }
}

proof fn lemma_complete_upper_rows(g: Seq<Seq<bool>>, n: int, m: int)
    requires
        is_square(g, n),
        is_complete(g, n),
        0 <= m <= n,
    ensures
        2 * sum_to(upper_row_count(g), m) == m * (2 * n - m - 1),
    decreases m,
{
    if m > 0 {
        lemma_complete_upper_rows(g, n, m - 1);
        lemma_complete_upper_row(g, n, m - 1, n);
        assert((m - 1) * (2 * n - (m - 1) - 1) + 2 * (n - m) == m * (2 * n - m - 1))
            by (nonlinear_arith);
    } else {
        assert(m * (2 * n - m - 1) == 0) by (nonlinear_arith)
            requires
                m == 0,
        ;
    }
}

/// A relation that links every two distinct nodes among `n` holds
/// `n * (n - 1) / 2` ties.
pub proof fn lemma_complete_tie_count(g: Seq<Seq<bool>>, n: int)
    requires
        is_square(g, n),
        is_complete(g, n),
    ensures
        2 * tie_count(g) == n * (n - 1),
{
    lemma_complete_upper_rows(g, n, n);
    assert(n * (2 * n - n - 1) == n * (n - 1)) by (nonlinear_arith);
}

/// A node that is not linked to some other node has a degree of at most
/// `n - 2`.
pub proof fn lemma_untied_degree(g: Seq<Seq<bool>>, n: int, i: int, j: int)
    requires
        is_tie_relation(g, n),
        0 <= i < n,
        0 <= j < n,
        i != j,
        !linked(g, i, j),
    ensures
        degree_of(g, i) <= n - 2,
{
    let row = g[i];
    assert(row.len() == n);
    assert(!linked(g, i, i));
    lemma_row_count_update(row, i, true);
    let row2 = row.update(i, true);
    lemma_row_count_update(row2, j, true);
    lemma_row_count_bounds(row2.update(j, true));
}

/// `with_tie` keeps a relation symmetric and free of self-loops, and changes
/// it between the two nodes only.
pub proof fn lemma_with_tie_relation(g: Seq<Seq<bool>>, n: int, i: int, j: int, val: bool)
    requires
        is_tie_relation(g, n),
        0 <= i < n,
        0 <= j < n,
        i != j,
    ensures
        is_tie_relation(with_tie(g, i, j, val), n),
        forall|a: int, b: int|
            #[trigger] linked(with_tie(g, i, j, val), a, b) == (if (a == i && b == j) || (a == j && b
                == i) {
                val
            } else {
                linked(g, a, b)
            }),
{
    let h = with_tie(g, i, j, val);
    assert forall|a: int, b: int|
        #[trigger] linked(h, a, b) == (if (a == i && b == j) || (a == j && b == i) {
            val
        } else {
            linked(g, a, b)
        }) by {}
    assert forall|a: int, b: int| #[trigger] linked(h, a, b) implies linked(h, b, a) by {
        if !((a == i && b == j) || (a == j && b == i)) {
            assert(linked(g, a, b));
            assert(linked(g, b, a));
        }
    }
    assert forall|a: int| !#[trigger] linked(h, a, a) by {
        assert(!linked(g, a, a));
    }
}

/// A matrix of `n` rows of `n` cells, none of which holds.
pub fn new_grid(n: usize) -> (m: Vec<Vec<bool>>)
    ensures
        is_square(grid(&m), n as int),
        is_empty_relation(grid(&m)),
{
    let mut m: Vec<Vec<bool>> = Vec::new();
    let mut i: usize = 0;
    while i < n
        invariant
            i <= n,
            m@.len() == i,
            forall|r: int| 0 <= r < i ==> (#[trigger] m@[r])@.len() == n,
            forall|r: int, c: int| 0 <= r < i && 0 <= c < n ==> !(#[trigger] m@[r]@[c]),
        decreases n - i,
    {
        let mut row: Vec<bool> = Vec::new();
        let mut j: usize = 0;
        while j < n
            invariant
                j <= n,
                row@.len() == j,
                forall|c: int| 0 <= c < j ==> !(#[trigger] row@[c]),
            decreases n - j,
        {
            row.push(false);
            j += 1;
        }
        m.push(row);
        i += 1;
    }
    proof {
        let g = grid(&m);
        assert forall|r: int| 0 <= r < n implies (#[trigger] g[r]).len() == n by {
            assert(m@[r]@.len() == n);
        }
        assert forall|a: int, b: int| !#[trigger] linked(g, a, b) by {
            if 0 <= a < n && 0 <= b < n {
                assert(!m@[a]@[b]);
            }
        }
    }
    m
}

/// A copy of the matrix.
pub fn copy_grid(m: &Vec<Vec<bool>>) -> (copy: Vec<Vec<bool>>)
    ensures
        grid(&copy) == grid(m),
{
    let n = m.len();
    let mut copy: Vec<Vec<bool>> = Vec::new();
    let mut i: usize = 0;
    while i < n
        invariant
            i <= n,
            n == m@.len(),
            copy@.len() == i,
            forall|r: int| 0 <= r < i ==> (#[trigger] copy@[r])@ == m@[r]@,
        decreases n - i,
    {
        let len = m[i].len();
        let mut row: Vec<bool> = Vec::new();
        let mut j: usize = 0;
        while j < len
            invariant
                j <= len,
                i < n,
                n == m@.len(),
                len == m@[i as int]@.len(),
                row@.len() == j,
                forall|c: int| 0 <= c < j ==> #[trigger] row@[c] == m@[i as int]@[c],
            decreases len - j,
        {
            row.push(m[i][j]);
            j += 1;
        }
        assert(row@ =~= m@[i as int]@);
        copy.push(row);
        i += 1;
    }
    assert(grid(&copy) =~= grid(m));
    copy
}

/// A copy of the counters.
pub fn copy_counters(v: &Vec<usize>) -> (copy: Vec<usize>)
    ensures
        copy@ == v@,
{
    let n = v.len();
    let mut copy: Vec<usize> = Vec::new();
    let mut i: usize = 0;
    while i < n
        invariant
            i <= n,
            n == v@.len(),
            copy@.len() == i,
            forall|k: int| 0 <= k < i ==> #[trigger] copy@[k] == v@[k],
        decreases n - i,
    {
        copy.push(v[i]);
        i += 1;
    }
    assert(copy@ =~= v@);
    copy
}

/// Sets the cells `(i, j)` and `(j, i)` of `m` to `val`.
pub fn set_tie(m: &mut Vec<Vec<bool>>, i: usize, j: usize, val: bool)
    requires
        i < grid(old(m)).len(),
        j < grid(old(m)).len(),
        j < grid(old(m))[i as int].len(),
        i < grid(old(m))[j as int].len(),
    ensures
        grid(final(m)) == with_tie(grid(old(m)), i as int, j as int, val),
{
    let ghost g0 = grid(m);
    m[i][j] = val;
    m[j][i] = val;
    proof {
        let g = grid(m);
        let w = with_tie(g0, i as int, j as int, val);
        assert(g.len() == w.len());
        assert forall|r: int| 0 <= r < g.len() implies g[r] =~= w[r] by {}
        assert(g =~= w);
    }
}

/// Whether `m` is a symmetric relation without self-loops over exactly `n`
/// nodes.
pub fn check_tie_relation(m: &Vec<Vec<bool>>, n: usize) -> (ok: bool)
    ensures
        ok == is_tie_relation(grid(m), n as int),
{
    let ghost g = grid(m);
    if m.len() != n {
        return false;
    }
    let mut i: usize = 0;
    while i < n
        invariant
            i <= n,
            m@.len() == n,
            g == grid(m),
            forall|r: int| 0 <= r < i ==> (#[trigger] g[r]).len() == n,
        decreases n - i,
    {
        if m[i].len() != n {
            assert(g[i as int].len() != n);
            return false;
        }
        i += 1;
    }
    assert(is_square(g, n as int));
    let mut i: usize = 0;
    while i < n
        invariant
            i <= n,
            is_square(g, n as int),
            g == grid(m),
            forall|a: int, b: int| 0 <= a < i && #[trigger] linked(g, a, b) ==> linked(g, b, a),
            forall|a: int| 0 <= a < i ==> !#[trigger] linked(g, a, a),
        decreases n - i,
    {
        assert(g[i as int].len() == n);
        if m[i][i] {
            assert(linked(g, i as int, i as int));
            return false;
        }
        let mut j: usize = 0;
        while j < n
            invariant
                j <= n,
                i < n,
                is_square(g, n as int),
                g == grid(m),
                forall|b: int| 0 <= b < j && #[trigger] linked(g, i as int, b) ==> linked(g, b, i as int),
            decreases n - j,
        {
            assert(g[i as int].len() == n);
            assert(g[j as int].len() == n);
            if m[i][j] && !m[j][i] {
                assert(linked(g, i as int, j as int));
                assert(!linked(g, j as int, i as int));
                return false;
            }
            j += 1;
        }
        i += 1;
    }
    true
}

} // verus!
