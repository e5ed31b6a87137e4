use crate::network::Network;
use crate::relation::{grid, linked};
use vstd::prelude::*;

verus! {

/// One row of the edge list: the two nodes of a tie, the smaller first, and
/// whether the tie is formal.
pub type EdgeRow = (usize, usize, bool);

/// Row `a` stands before row `b` in the order of the edge list.
pub open spec fn row_before(a: EdgeRow, b: EdgeRow) -> bool {
    a.0 < b.0 || (a.0 == b.0 && a.1 < b.1)
}

/// `rows` lists every tie of the network once, in rising order of its nodes,
/// each with the mark of whether it is formal.
pub open spec fn is_edge_list(rows: Seq<EdgeRow>, net: &Network) -> bool {
    &&& forall|k: int|
        0 <= k < rows.len() ==> {
            &&& (#[trigger] rows[k]).0 < rows[k].1 < net.n
            &&& linked(grid(&net.overall), rows[k].0 as int, rows[k].1 as int)
            &&& rows[k].2 == linked(grid(&net.formal), rows[k].0 as int, rows[k].1 as int)
        }
    &&& forall|k: int, l: int| 0 <= k < l < rows.len() ==> row_before(#[trigger] rows[k], #[trigger] rows[l])
    &&& forall|i: int, j: int|
        0 <= i < j < net.n && #[trigger] linked(grid(&net.overall), i, j) ==> exists|k: int|
            0 <= k < rows.len() && (#[trigger] rows[k]).0 == i && rows[k].1 == j
}

impl Network {
    /// The ties of the network as rows of source, target and formality.
    pub fn edge_list(&self) -> (rows: Vec<EdgeRow>)
        requires
            self.wf(),
        ensures
            is_edge_list(rows@, self),
    {
        let n = self.n;
        let ghost o = grid(&self.overall);
        let mut rows: Vec<EdgeRow> = Vec::new();
        let mut i: usize = 0;
        while i < n
            invariant
                i <= n,
                n == self.n,
                self.wf(),
                o == grid(&self.overall),
                forall|k: int|
                    0 <= k < rows@.len() ==> {
                        &&& (#[trigger] rows@[k]).0 < rows@[k].1 < n
                        &&& rows@[k].0 < i
                        &&& linked(o, rows@[k].0 as int, rows@[k].1 as int)
                        &&& rows@[k].2 == linked(grid(&self.formal), rows@[k].0 as int, rows@[k].1 as int)
                    },
                forall|k: int, l: int|
                    0 <= k < l < rows@.len() ==> row_before(#[trigger] rows@[k], #[trigger] rows@[l]),
                forall|a: int, b: int|
                    0 <= a < b < n && a < i && #[trigger] linked(o, a, b) ==> exists|k: int|
                        0 <= k < rows@.len() && (#[trigger] rows@[k]).0 == a && rows@[k].1 == b,
            decreases n - i,
        {
            let mut j: usize = i + 1;
            while j < n
                invariant
                    i < j <= n,
                    n == self.n,
                    self.wf(),
                    o == grid(&self.overall),
                    forall|k: int|
                        0 <= k < rows@.len() ==> {
                            &&& (#[trigger] rows@[k]).0 < rows@[k].1 < n
                            &&& (rows@[k].0 < i || (rows@[k].0 == i && rows@[k].1 < j))
                            &&& linked(o, rows@[k].0 as int, rows@[k].1 as int)
                            &&& rows@[k].2 == linked(
                                grid(&self.formal),
                                rows@[k].0 as int,
                                rows@[k].1 as int,
                            )
                        },
                    forall|k: int, l: int|
                        0 <= k < l < rows@.len() ==> row_before(#[trigger] rows@[k], #[trigger] rows@[l]),
                    forall|a: int, b: int|
                        0 <= a < b < n && (a < i || (a == i && b < j)) && #[trigger] linked(o, a, b)
                            ==> exists|k: int|
                            0 <= k < rows@.len() && (#[trigger] rows@[k]).0 == a && rows@[k].1 == b,
                decreases n - j,
            {
                if self.is_tied(i, j) {
                    let enforced = self.is_formal(i, j);
                    let ghost before = rows@;
                    rows.push((i, j, enforced));
                    proof {
                        assert(rows@[before.len() as int] == (i, j, enforced));
                        assert forall|a: int, b: int|
                            0 <= a < b < n && (a < i || (a == i && b < j + 1)) && #[trigger] linked(
                                o,
                                a,
                                b,
                            ) implies exists|k: int|
                            0 <= k < rows@.len() && (#[trigger] rows@[k]).0 == a && rows@[k].1 == b by {
                            if a == i && b == j {
                                assert(rows@[before.len() as int].0 == a);
                            } else {
                                let k = choose|k: int|
                                    0 <= k < before.len() && (#[trigger] before[k]).0 == a && before[k].1
                                        == b;
                                assert(rows@[k] == before[k]);
                            }
                        }
                    }
                }
                j += 1;
            }
            i += 1;
        }
        rows
    }
}

/// The decimal digits of `n` as text.
pub open spec fn digits(n: nat) -> Seq<u8>
    decreases n,
{
    if n < 10 {
        seq![(48 + n) as u8]
    } else {
        digits(n / 10).push((48 + n % 10) as u8)
    }
}

/// The first line of the table: the names of the three columns.
pub open spec fn csv_header() -> Seq<u8> {
    seq![
        83u8, 79u8, 85u8, 82u8, 67u8, 69u8, 44u8, 84u8, 65u8, 82u8, 71u8, 69u8, 84u8, 44u8, 84u8, 73u8,
        69u8, 95u8, 69u8, 78u8, 70u8, 79u8, 82u8, 67u8, 69u8, 68u8, 10u8,
    ]
}

/// The word for a truth value: `true` or `false`.
pub open spec fn truth_text(b: bool) -> Seq<u8> {
    if b {
        seq![116u8, 114u8, 117u8, 101u8]
    } else {
        seq![102u8, 97u8, 108u8, 115u8, 101u8]
    }
}

/// The line of one tie: source, target and formality, parted by commas.
pub open spec fn csv_row(row: EdgeRow) -> Seq<u8> {
    digits(row.0 as nat) + seq![44u8] + digits(row.1 as nat) + seq![44u8] + truth_text(row.2) + seq![
        10u8,
    ]
}

/// The lines of the first `k` ties.
pub open spec fn csv_rows(rows: Seq<EdgeRow>, k: int) -> Seq<u8>
    decreases k,
{
    if k <= 0 {
        Seq::empty()
    } else {
        csv_rows(rows, k - 1) + csv_row(rows[k - 1])
    }
}

/// The line that shows node `i` by itself: its number and two empty
/// columns.
pub open spec fn csv_node_row(i: nat) -> Seq<u8> {
    digits(i) + seq![44u8, 44u8, 10u8]
}

/// The lines of the first `n` nodes.
pub open spec fn csv_nodes(n: int) -> Seq<u8>
    decreases n,
{
    if n <= 0 {
        Seq::empty()
    } else {
        csv_nodes(n - 1) + csv_node_row((n - 1) as nat)
    }
}

/// The whole table: the header, a line for every tie, and a line for every
/// node.
pub open spec fn csv_text(rows: Seq<EdgeRow>, n: int) -> Seq<u8> {
    csv_header() + csv_rows(rows, rows.len() as int) + csv_nodes(n)
}

/// Appends the decimal digits of `value`.
pub fn push_decimal(out: &mut Vec<u8>, value: usize)
    ensures
        final(out)@ == old(out)@ + digits(value as nat),
    decreases value,
{
    if value >= 10 {
        push_decimal(out, value / 10);
    }
    let digit: u8 = 48 + (value % 10) as u8;
    out.push(digit);
    proof {
        if value >= 10 {
            assert(out@ =~= old(out)@ + digits((value / 10) as nat).push(digit));
            assert((value as nat) / 10 == (value / 10) as nat);
        } else {
            assert(out@ =~= old(out)@ + seq![digit]);
        }
    }
}

/// Appends `text`.
pub fn push_text(out: &mut Vec<u8>, text: &Vec<u8>)
    ensures
        final(out)@ == old(out)@ + text@,
{
    let n = text.len();
    let mut k: usize = 0;
    while k < n
        invariant
            k <= n,
            n == text@.len(),
            out@ == old(out)@ + text@.subrange(0, k as int),
        decreases n - k,
    {
        out.push(text[k]);
        assert(out@ =~= old(out)@ + text@.subrange(0, k + 1));
        k += 1;
    }
    assert(text@.subrange(0, n as int) =~= text@);
}

/// The table of the ties in `rows` among `n` nodes, as text.
pub fn csv_of(rows: &Vec<EdgeRow>, n: usize) -> (text: Vec<u8>)
    ensures
        text@ == csv_text(rows@, n as int),
{
    let mut out: Vec<u8> = vec![
        83u8, 79u8, 85u8, 82u8, 67u8, 69u8, 44u8, 84u8, 65u8, 82u8, 71u8, 69u8, 84u8, 44u8, 84u8, 73u8,
        69u8, 95u8, 69u8, 78u8, 70u8, 79u8, 82u8, 67u8, 69u8, 68u8, 10u8,
    ];
    assert(out@ =~= csv_header());
    let yes: Vec<u8> = vec![116u8, 114u8, 117u8, 101u8];
    let no: Vec<u8> = vec![102u8, 97u8, 108u8, 115u8, 101u8];
    assert(yes@ =~= truth_text(true));
    assert(no@ =~= truth_text(false));
    let len = rows.len();
    let mut k: usize = 0;
    while k < len
        invariant
            k <= len,
            len == rows@.len(),
            yes@ == truth_text(true),
            no@ == truth_text(false),
            out@ == csv_header() + csv_rows(rows@, k as int),
        decreases len - k,
    {
        let row = rows[k];
        let ghost before = out@;
        push_decimal(&mut out, row.0);
        out.push(44u8);
        push_decimal(&mut out, row.1);
        out.push(44u8);
        if row.2 {
            push_text(&mut out, &yes);
        } else {
            push_text(&mut out, &no);
        }
        out.push(10u8);
        assert(out@ =~= before + csv_row(rows@[k as int]));
        assert(out@ =~= csv_header() + csv_rows(rows@, k + 1));
        k += 1;
    }
    let mut i: usize = 0;
    while i < n
        invariant
            i <= n,
            out@ == csv_header() + csv_rows(rows@, rows@.len() as int) + csv_nodes(i as int),
        decreases n - i,
    {
        let ghost before = out@;
        push_decimal(&mut out, i);
        out.push(44u8);
        out.push(44u8);
        out.push(10u8);
        assert(out@ =~= before + csv_node_row(i as nat));
        assert(out@ =~= csv_header() + csv_rows(rows@, rows@.len() as int) + csv_nodes(i + 1));
        i += 1;
    }
    out
}

impl Network {
    /// The table of the ties of the network as text: a header, one line for
    /// every tie in rising order of its nodes, and one line for every node.
    pub fn export_network_csv(&self) -> (text: Vec<u8>)
        requires
            self.wf(),
        ensures
            exists|rows: Seq<EdgeRow>| is_edge_list(rows, self) && text@ == #[trigger] csv_text(
                rows,
                self.n as int,
            ),
    {
        let rows = self.edge_list();
        let text = csv_of(&rows, self.n);
        assert(text@ == csv_text(rows@, self.n as int));
        text
    }
}

} // verus!
