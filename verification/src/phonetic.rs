//! The transition model: which phonetic character follows which, and how
//! often, and the choice of a follower by a draw weighted with those counts.

use crate::draw::{lemma_threshold, threshold, weight_threshold, DRAW_SPAN};
use crate::sorted_vec::{insertion_point, lookup_index, SortKey, SortedVec, SortedVecBuilder};
use vstd::prelude::*;

verus! {

/// One more than the largest code a character has.
pub const CODE_LIMIT: u32 = 0x11_0000;

/// How many of `pairs` lead from `a` to a character with a code from `lo` up
/// to, but not including, `hi`.
pub open spec fn tally(pairs: Seq<(char, char)>, a: char, lo: int, hi: int) -> nat
    decreases pairs.len(),
{
    if pairs.len() == 0 {
        0
    } else {
        let rest = tally(pairs.drop_last(), a, lo, hi);
        if pairs.last().0 == a && lo <= pairs.last().1 as int && (pairs.last().1 as int) < hi {
            rest + 1
        } else {
            rest
        }
    }
}

/// How often `pairs` hold the transition from `a` to `b`.
pub open spec fn observed(pairs: Seq<(char, char)>, a: char, b: char) -> nat {
    tally(pairs, a, b as int, b as int + 1)
}

/// How many of `pairs` lead from `a` to `b` or to a character before `b`:
/// the cumulative weight of `b` among the followers of `a`.
pub open spec fn upto(pairs: Seq<(char, char)>, a: char, b: char) -> nat {
    tally(pairs, a, 0, b as int + 1)
}

/// How many of `pairs` lead away from `a`.
pub open spec fn leaving(pairs: Seq<(char, char)>, a: char) -> nat {
    tally(pairs, a, 0, CODE_LIMIT as int)
}

/// The cumulative share of `b` among the followers of `a` is at least `draw`.
pub open spec fn reaches(pairs: Seq<(char, char)>, a: char, b: char, draw: u64) -> bool {
    upto(pairs, a, b) * (DRAW_SPAN as int) >= (draw as int) * leaving(pairs, a)
}

/// `b` is the follower of `a` that `draw` picks: the first character, in the
/// order of codes, that was seen behind `a` and whose cumulative share
/// reaches the draw.
pub open spec fn is_follower(pairs: Seq<(char, char)>, a: char, draw: u64, b: char) -> bool {
    &&& observed(pairs, a, b) > 0
    &&& reaches(pairs, a, b, draw)
    &&& forall|c: char|
        (c as int) < (b as int) && #[trigger] observed(pairs, a, c) > 0 ==> !reaches(
            pairs,
            a,
            c,
            draw,
        )
}

/// The follower of `a` that `draw` picks.
pub open spec fn follower(pairs: Seq<(char, char)>, a: char, draw: u64) -> char {
    choose|b: char| is_follower(pairs, a, draw, b)
}

/// The codes that characters have.
pub proof fn lemma_code_range(c: char)
    ensures
        0 <= c as int,
        (c as int) < CODE_LIMIT as int,
{
}

/// A draw picks one follower only.
pub proof fn lemma_follower_unique(pairs: Seq<(char, char)>, a: char, draw: u64, b: char, c: char)
    requires
        is_follower(pairs, a, draw, b),
        is_follower(pairs, a, draw, c),
    ensures
        b == c,
{
}

/// The first code from `from` on up to which the tally reaches `goal`.
proof fn lemma_first_reaching(pairs: Seq<(char, char)>, a: char, goal: int, from: int) -> (k: int)
    requires
        0 <= from < CODE_LIMIT as int,
        goal <= leaving(pairs, a),
        tally(pairs, a, 0, from) < goal,
    ensures
        from <= k < CODE_LIMIT as int,
        tally(pairs, a, 0, k) < goal <= tally(pairs, a, 0, k + 1),
    decreases CODE_LIMIT as int - from,
{
    if tally(pairs, a, 0, from + 1) >= goal {
        from
    } else {
        lemma_first_reaching(pairs, a, goal, from + 1)
    }
}

/// Every draw picks a follower of a character that was left.
pub proof fn lemma_follower_exists(pairs: Seq<(char, char)>, a: char, draw: u64)
    requires
        leaving(pairs, a) > 0,
    ensures
        is_follower(pairs, a, draw, follower(pairs, a, draw)),
{
    let total = leaving(pairs, a);
    let least = threshold(draw, total);
    lemma_threshold(draw, total, 0);
    let goal = if least >= 1 {
        least
    } else {
        1
    };
    lemma_tally_split(pairs, a, 0, 0, 0);
    let k = lemma_first_reaching(pairs, a, goal, 0);
    lemma_tally_split(pairs, a, 0, k, k + 1);
    let b = lemma_tally_witness(pairs, a, k, k + 1);
    assert forall|c: char|
        (c as int) < (b as int) && #[trigger] observed(pairs, a, c) > 0 implies !reaches(
        pairs,
        a,
        c,
        draw,
    ) by {
        lemma_code_range(c);
        lemma_tally_split(pairs, a, 0, c as int, c as int + 1);
        lemma_tally_split(pairs, a, 0, c as int + 1, k);
    }
    assert(is_follower(pairs, a, draw, b));
}

/// A follower was seen behind the character it follows.
pub proof fn lemma_follower_observed(pairs: Seq<(char, char)>, a: char, draw: u64)
    requires
        leaving(pairs, a) > 0,
    ensures
        pairs.contains((a, follower(pairs, a, draw))),
{
    lemma_follower_exists(pairs, a, draw);
    lemma_observed_contains(pairs, a, follower(pairs, a, draw));
}

/// A character with a follower among the pairs was left.
pub proof fn lemma_contains_leaves(pairs: Seq<(char, char)>, a: char, b: char)
    requires
        pairs.contains((a, b)),
    ensures
        leaving(pairs, a) > 0,
{
    lemma_observed_contains(pairs, a, b);
    lemma_tally_split(pairs, a, 0, b as int, b as int + 1);
    lemma_tally_split(pairs, a, 0, b as int + 1, CODE_LIMIT as int);
}

/// What one more pair does to a tally.
pub proof fn lemma_tally_push(pairs: Seq<(char, char)>, p: (char, char), a: char, lo: int, hi: int)
    ensures
        tally(pairs.push(p), a, lo, hi) == tally(pairs, a, lo, hi) + if p.0 == a && lo <= p.1 as int
            && (p.1 as int) < hi {
            1nat
        } else {
            0nat
        },
{
    assert(pairs.push(p).drop_last() =~= pairs);
}

/// A tally over a range is the sum of the tallies over its two parts.
pub proof fn lemma_tally_split(pairs: Seq<(char, char)>, a: char, lo: int, mid: int, hi: int)
    requires
        lo <= mid <= hi,
    ensures
        tally(pairs, a, lo, hi) == tally(pairs, a, lo, mid) + tally(pairs, a, mid, hi),
    decreases pairs.len(),
{
    if pairs.len() > 0 {
        lemma_tally_split(pairs.drop_last(), a, lo, mid, hi);
    }
}

/// No tally counts more pairs than there are.
pub proof fn lemma_tally_bound(pairs: Seq<(char, char)>, a: char, lo: int, hi: int)
    ensures
        tally(pairs, a, lo, hi) <= pairs.len(),
    decreases pairs.len(),
{
    if pairs.len() > 0 {
        lemma_tally_bound(pairs.drop_last(), a, lo, hi);
    }
}

/// A tally that is not zero counts a pair: some character of the range was
/// seen behind `a`.
pub proof fn lemma_tally_witness(pairs: Seq<(char, char)>, a: char, lo: int, hi: int) -> (c: char)
    requires
        tally(pairs, a, lo, hi) > 0,
    ensures
        lo <= c as int,
        (c as int) < hi,
        observed(pairs, a, c) > 0,
        pairs.contains((a, c)),
    decreases pairs.len(),
{
    let last = pairs.last();
    if last.0 == a && lo <= last.1 as int && (last.1 as int) < hi {
        assert(pairs[pairs.len() - 1] == (a, last.1));
        last.1
    } else {
        let c = lemma_tally_witness(pairs.drop_last(), a, lo, hi);
        let k = choose|k: int| 0 <= k < pairs.drop_last().len() && pairs.drop_last()[k] == (a, c);
        assert(pairs[k] == (a, c));
        c
    }
}

/// A transition that `pairs` hold has been observed, and the other way round.
pub proof fn lemma_observed_contains(pairs: Seq<(char, char)>, a: char, b: char)
    ensures
        observed(pairs, a, b) > 0 <==> pairs.contains((a, b)),
    decreases pairs.len(),
{
    if pairs.len() > 0 {
        lemma_observed_contains(pairs.drop_last(), a, b);
        if pairs.contains((a, b)) {
            let k = choose|k: int| 0 <= k < pairs.len() && pairs[k] == (a, b);
            if k < pairs.len() - 1 {
                assert(pairs.drop_last()[k] == (a, b));
            }
        }
        if pairs.drop_last().contains((a, b)) {
            let k = choose|k: int| 0 <= k < pairs.drop_last().len() && pairs.drop_last()[k] == (a, b);
        }
    }
}

/// The codes of the keys rise strictly from one entry to the next.
pub open spec fn rising<T>(s: Seq<(char, T)>) -> bool {
    forall|i: int, j: int| 0 <= i < j < s.len() ==> (s[i].0 as int) < (s[j].0 as int)
}

/// The counts kept for one character: its followers with the number of times
/// each was seen.
type Row = (char, Vec<(char, usize)>);

/// The rows hold a count for the transition from `a` to `b`.
spec fn listed(rows: Seq<Row>, a: char, b: char) -> bool {
    exists|i: int, j: int|
        0 <= i < rows.len() && 0 <= j < rows[i].1@.len() && rows[i].0 == a && (
        #[trigger] rows[i].1@[j]).0 == b
}

/// The rows count what `pairs` hold: one row for each character that was
/// left, in the order of codes, and in it one count for each follower seen,
/// in the order of codes.
spec fn tracks(rows: Seq<Row>, pairs: Seq<(char, char)>) -> bool {
    &&& rising(rows)
    &&& forall|i: int| 0 <= i < rows.len() ==> rising(#[trigger] rows[i].1@) && rows[i].1@.len() > 0
    &&& forall|i: int, j: int|
        0 <= i < rows.len() && 0 <= j < rows[i].1@.len() ==> (#[trigger] rows[i].1@[j]).1
            == observed(pairs, rows[i].0, rows[i].1@[j].0) && rows[i].1@[j].1 > 0
    &&& forall|a: char, b: char| #[trigger] observed(pairs, a, b) > 0 ==> listed(rows, a, b)
}

/// Where the rows hold the count for the transition from `a` to `b`.
proof fn lemma_listed_where(rows: Seq<Row>, a: char, b: char) -> (at: (int, int))
    requires
        listed(rows, a, b),
    ensures
        0 <= at.0 < rows.len(),
        0 <= at.1 < rows[at.0].1@.len(),
        rows[at.0].0 == a,
        rows[at.0].1@[at.1].0 == b,
{
    choose|i: int, j: int|
        0 <= i < rows.len() && 0 <= j < rows[i].1@.len() && rows[i].0 == a && (
        #[trigger] rows[i].1@[j]).0 == b
}

/// No follower of row `i` with a code from `lo` up to `hi` means that no
/// pair leads from that row's character into the range.
proof fn lemma_gap(rows: Seq<Row>, pairs: Seq<(char, char)>, i: int, lo: int, hi: int)
    requires
        tracks(rows, pairs),
        0 <= i < rows.len(),
        forall|j: int|
            0 <= j < rows[i].1@.len() ==> !(lo <= (#[trigger] rows[i].1@[j]).0 as int && (
            rows[i].1@[j].0 as int) < hi),
    ensures
        tally(pairs, rows[i].0, lo, hi) == 0,
{
    if tally(pairs, rows[i].0, lo, hi) > 0 {
        let c = lemma_tally_witness(pairs, rows[i].0, lo, hi);
        let at = lemma_listed_where(rows, rows[i].0, c);
        assert(at.0 == i);
    }
}

/// A character that no row stands for was never left.
proof fn lemma_no_row(rows: Seq<Row>, pairs: Seq<(char, char)>, a: char, lo: int, hi: int)
    requires
        tracks(rows, pairs),
        forall|i: int| 0 <= i < rows.len() ==> (#[trigger] rows[i]).0 != a,
    ensures
        tally(pairs, a, lo, hi) == 0,
{
    if tally(pairs, a, lo, hi) > 0 {
        let c = lemma_tally_witness(pairs, a, lo, hi);
        let at = lemma_listed_where(rows, a, c);
    }
}

/// Counting one more pair in a cell that is there keeps the rows true.
proof fn lemma_count_again(
    rows: Seq<Row>,
    after: Seq<Row>,
    pairs: Seq<(char, char)>,
    a: char,
    b: char,
    i: int,
    j: int,
)
    requires
        tracks(rows, pairs),
        0 <= i < rows.len(),
        0 <= j < rows[i].1@.len(),
        rows[i].0 == a,
        rows[i].1@[j].0 == b,
        rows[i].1@[j].1 < usize::MAX,
        after.len() == rows.len(),
        after[i].0 == a,
        after[i].1@ == rows[i].1@.update(j, (b, (rows[i].1@[j].1 + 1) as usize)),
        forall|k: int| 0 <= k < rows.len() && k != i ==> after[k] == rows[k],
    ensures
        tracks(after, pairs.push((a, b))),
{
    let more = pairs.push((a, b));
    assert forall|k: int| 0 <= k < after.len() implies rising(#[trigger] after[k].1@)
        && after[k].1@.len() > 0 by {
        assert(rising(rows[k].1@));
        if k == i {
            assert forall|m: int, n: int| 0 <= m < n < after[k].1@.len() implies (
            after[k].1@[m].0 as int) < (after[k].1@[n].0 as int) by {
                assert(after[k].1@[m].0 == rows[k].1@[m].0);
                assert(after[k].1@[n].0 == rows[k].1@[n].0);
            }
        }
    }
    assert forall|k: int, m: int| 0 <= k < after.len() && 0 <= m < after[k].1@.len() implies (
    #[trigger] after[k].1@[m]).1 == observed(more, after[k].0, after[k].1@[m].0) && after[k].1@[m].1
        > 0 by {
        let x = rows[k].0;
        let y = rows[k].1@[m].0;
        assert(rows[k].1@[m].1 == observed(pairs, x, y));
        lemma_tally_push(pairs, (a, b), x, y as int, y as int + 1);
        assert(rising(rows[k].1@));
        if k == i && m != j {
            assert(y != b);
        }
    }
    assert forall|x: char, y: char| #[trigger] observed(more, x, y) > 0 implies listed(
        after,
        x,
        y,
    ) by {
        lemma_tally_push(pairs, (a, b), x, y as int, y as int + 1);
        if x == a && y == b {
            assert(after[i].1@[j].0 == b);
        } else {
            assert(observed(pairs, x, y) > 0);
            let at = lemma_listed_where(rows, x, y);
            assert(after[at.0].1@[at.1].0 == y);
        }
    }
}

/// A new cell for a follower that the row has not yet keeps the rows true.
proof fn lemma_count_new_cell(
    rows: Seq<Row>,
    after: Seq<Row>,
    pairs: Seq<(char, char)>,
    a: char,
    b: char,
    i: int,
    j: int,
)
    requires
        tracks(rows, pairs),
        0 <= i < rows.len(),
        0 <= j <= rows[i].1@.len(),
        rows[i].0 == a,
        forall|m: int| 0 <= m < j ==> (rows[i].1@[m].0 as int) < (b as int),
        forall|m: int| j <= m < rows[i].1@.len() ==> (rows[i].1@[m].0 as int) > (b as int),
        after.len() == rows.len(),
        after[i].0 == a,
        after[i].1@ == rows[i].1@.insert(j, (b, 1usize)),
        forall|k: int| 0 <= k < rows.len() && k != i ==> after[k] == rows[k],
    ensures
        tracks(after, pairs.push((a, b))),
{
    let more = pairs.push((a, b));
    let old_cells = rows[i].1@;
    let new_cells = after[i].1@;
    assert forall|m: int| 0 <= m < new_cells.len() implies #[trigger] new_cells[m] == (if m < j {
        old_cells[m]
    } else if m == j {
        (b, 1usize)
    } else {
        old_cells[m - 1]
    }) by {}
    lemma_gap(rows, pairs, i, b as int, b as int + 1);
    assert forall|k: int, m: int| 0 <= k < after.len() && 0 <= m < after[k].1@.len() implies (
    #[trigger] after[k].1@[m]).1 == observed(more, after[k].0, after[k].1@[m].0) && after[k].1@[m].1
        > 0 by {
        let x = after[k].0;
        let y = after[k].1@[m].0;
        lemma_tally_push(pairs, (a, b), x, y as int, y as int + 1);
        if k != i {
            assert(rows[k].1@[m].1 == observed(pairs, x, y));
        } else if m > j {
            assert(new_cells[m] == old_cells[m - 1]);
            assert(old_cells[m - 1].1 == observed(pairs, a, old_cells[m - 1].0));
        } else if m < j {
            assert(new_cells[m] == old_cells[m]);
        }
    }
    assert forall|x: char, y: char| #[trigger] observed(more, x, y) > 0 implies listed(
        after,
        x,
        y,
    ) by {
        lemma_tally_push(pairs, (a, b), x, y as int, y as int + 1);
        if x == a && y == b {
            assert(after[i].1@[j].0 == b);
        } else {
            assert(observed(pairs, x, y) > 0);
            let at = lemma_listed_where(rows, x, y);
            if at.0 == i && at.1 >= j {
                assert(after[i].1@[at.1 + 1].0 == y);
            } else {
                assert(after[at.0].1@[at.1].0 == y);
            }
        }
    }
}

/// A new row for a character that was not yet left keeps the rows true.
proof fn lemma_count_new_row(
    rows: Seq<Row>,
    after: Seq<Row>,
    pairs: Seq<(char, char)>,
    a: char,
    b: char,
    i: int,
)
    requires
        tracks(rows, pairs),
        0 <= i <= rows.len(),
        forall|k: int| 0 <= k < i ==> (rows[k].0 as int) < (a as int),
        forall|k: int| i <= k < rows.len() ==> (rows[k].0 as int) > (a as int),
        after.len() == rows.len() + 1,
        after[i].0 == a,
        after[i].1@ == seq![(b, 1usize)],
        forall|k: int| 0 <= k < i ==> after[k] == rows[k],
        forall|k: int| i < k < after.len() ==> after[k] == rows[k - 1],
    ensures
        tracks(after, pairs.push((a, b))),
{
    let more = pairs.push((a, b));
    lemma_no_row(rows, pairs, a, b as int, b as int + 1);
    assert forall|k: int, m: int| 0 <= k < after.len() && 0 <= m < after[k].1@.len() implies (
    #[trigger] after[k].1@[m]).1 == observed(more, after[k].0, after[k].1@[m].0) && after[k].1@[m].1
        > 0 by {
        let x = after[k].0;
        let y = after[k].1@[m].0;
        lemma_tally_push(pairs, (a, b), x, y as int, y as int + 1);
    }
    assert forall|x: char, y: char| #[trigger] observed(more, x, y) > 0 implies listed(
        after,
        x,
        y,
    ) by {
        lemma_tally_push(pairs, (a, b), x, y as int, y as int + 1);
        if x == a && y == b {
            assert(after[i].1@[0].0 == b);
        } else {
            assert(observed(pairs, x, y) > 0);
            let at = lemma_listed_where(rows, x, y);
            if at.0 >= i {
                assert(after[at.0 + 1].1@[at.1].0 == y);
            } else {
                assert(after[at.0].1@[at.1].0 == y);
            }
        }
    }
}

/// Counts the transitions that it is given, to make a [`PhoneticConnection`]
/// of them.
pub struct PhoneticConnectionBuilder {
    conn: Vec<(char, Vec<(char, usize)>)>,
    recorded: Ghost<Seq<(char, char)>>,
}

impl View for PhoneticConnectionBuilder {
    type V = Seq<(char, char)>;

    /// The transitions counted so far, in the order they came.
    closed spec fn view(&self) -> Seq<(char, char)> {
        self.recorded@
    }
}

impl PhoneticConnectionBuilder {
    /// The counts agree with the transitions given.
    pub closed spec fn wf(&self) -> bool {
        &&& tracks(self.conn@, self.recorded@)
        &&& self.recorded@.len() <= usize::MAX
    }

    /// A builder that has counted nothing.
    pub fn new() -> (r: Self)
        ensures
            r.wf(),
            r@ == Seq::<(char, char)>::empty(),
    {
        PhoneticConnectionBuilder { conn: Vec::new(), recorded: Ghost(Seq::empty()) }
    }

    /// Counts the transition from `incoming_char` to `outgoing_char` once
    /// more.
    pub fn add_char_pair(&mut self, incoming_char: char, outgoing_char: char)
        requires
            old(self).wf(),
            old(self)@.len() < usize::MAX,
        ensures
            final(self).wf(),
            final(self)@ == old(self)@.push((incoming_char, outgoing_char)),
    {
        let ghost rows = self.conn@;
        let ghost pairs = self.recorded@;
        let i = insertion_point(&self.conn, &incoming_char);
        if i < self.conn.len() && self.conn[i].0 == incoming_char {
            let j = insertion_point(&self.conn[i].1, &outgoing_char);
            if j < self.conn[i].1.len() && self.conn[i].1[j].0 == outgoing_char {
                let n = self.conn[i].1[j].1;
                proof {
                    lemma_tally_bound(
                        pairs,
                        incoming_char,
                        outgoing_char as int,
                        outgoing_char as int + 1,
                    );
                }
                let row = &mut self.conn[i];
                row.1[j] = (outgoing_char, n + 1);
                proof {
                    lemma_count_again(
                        rows,
                        self.conn@,
                        pairs,
                        incoming_char,
                        outgoing_char,
                        i as int,
                        j as int,
                    );
                }
            } else {
                let row = &mut self.conn[i];
                row.1.insert(j, (outgoing_char, 1));
                proof {
                    lemma_count_new_cell(
                        rows,
                        self.conn@,
                        pairs,
                        incoming_char,
                        outgoing_char,
                        i as int,
                        j as int,
                    );
                }
            }
        } else {
            let mut cells: Vec<(char, usize)> = Vec::new();
            cells.push((outgoing_char, 1));
            self.conn.insert(i, (incoming_char, cells));
            proof {
                lemma_count_new_row(
                    rows,
                    self.conn@,
                    pairs,
                    incoming_char,
                    outgoing_char,
                    i as int,
                );
            }
        }
        self.recorded = Ghost(pairs.push((incoming_char, outgoing_char)));
    }
}

/// The followers of one character: how many pairs left the character, and
/// the followers by cumulative weight.
struct Followers {
    total: usize,
    index: SortedVec<usize, char>,
}

/// The table holds an entry for the transition from `a` to `b`.
spec fn indexed(table: Seq<(char, Followers)>, a: char, b: char) -> bool {
    exists|i: int, j: int|
        0 <= i < table.len() && 0 <= j < table[i].1.index@.len() && table[i].0 == a && (
        #[trigger] table[i].1.index@[j]).1 == b
}

/// Where the table holds the entry for the transition from `a` to `b`.
proof fn lemma_indexed_where(table: Seq<(char, Followers)>, a: char, b: char) -> (at: (int, int))
    requires
        indexed(table, a, b),
    ensures
        0 <= at.0 < table.len(),
        0 <= at.1 < table[at.0].1.index@.len(),
        table[at.0].0 == a,
        table[at.0].1.index@[at.1].1 == b,
{
    choose|i: int, j: int|
        0 <= i < table.len() && 0 <= j < table[i].1.index@.len() && table[i].0 == a && (
        #[trigger] table[i].1.index@[j]).1 == b
}

/// The followers `f` of `a` are what `pairs` show: each follower seen, in
/// the order of codes, under its cumulative weight.
spec fn follows(f: Followers, a: char, pairs: Seq<(char, char)>) -> bool {
    &&& f.index.wf()
    &&& f.index@.len() > 0
    &&& f.total == leaving(pairs, a)
    &&& forall|j: int, k: int|
        0 <= j < k < f.index@.len() ==> (f.index@[j].1 as int) < (f.index@[k].1 as int)
    &&& forall|j: int|
        0 <= j < f.index@.len() ==> (#[trigger] f.index@[j]).0 == upto(pairs, a, f.index@[j].1)
            && observed(pairs, a, f.index@[j].1) > 0
}

/// The table is the model that `pairs` give: one entry for each character
/// that was left, in the order of codes, with its followers.
spec fn models(table: Seq<(char, Followers)>, pairs: Seq<(char, char)>) -> bool {
    &&& rising(table)
    &&& forall|i: int| 0 <= i < table.len() ==> follows((#[trigger] table[i]).1, table[i].0, pairs)
    &&& forall|a: char, b: char| #[trigger] observed(pairs, a, b) > 0 ==> indexed(table, a, b)
}

/// A follower that was seen weighs in the whole that left the character.
proof fn lemma_observed_leaves(pairs: Seq<(char, char)>, a: char, b: char)
    ensures
        observed(pairs, a, b) <= upto(pairs, a, b) <= leaving(pairs, a),
{
    lemma_tally_split(pairs, a, 0, b as int, b as int + 1);
    lemma_tally_split(pairs, a, 0, b as int + 1, CODE_LIMIT as int);
}

/// A character that was left has an entry in the table.
proof fn lemma_left_has_entry(table: Seq<(char, Followers)>, pairs: Seq<(char, char)>, a: char) -> (i:
    int)
    requires
        models(table, pairs),
        leaving(pairs, a) > 0,
    ensures
        0 <= i < table.len(),
        table[i].0 == a,
{
    let c = lemma_tally_witness(pairs, a, 0, CODE_LIMIT as int);
    let at = lemma_indexed_where(table, a, c);
    at.0
}

/// The model of the transitions: for each character that was left, its
/// followers weighted by how often each was seen.
pub struct PhoneticConnection {
    conn: SortedVec<char, Followers>,
    recorded: Ghost<Seq<(char, char)>>,
}

impl View for PhoneticConnection {
    type V = Seq<(char, char)>;

    /// The transitions that the model was made of, in the order they came.
    closed spec fn view(&self) -> Seq<(char, char)> {
        self.recorded@
    }
}

impl PhoneticConnectionBuilder {
    /// The model of the transitions counted.
    pub fn build(self) -> (r: PhoneticConnection)
        requires
            self.wf(),
        ensures
            r.wf(),
            r@ == self@,
    {
        let ghost rows = self.conn@;
        let ghost pairs = self.recorded@;
        let mut builder: SortedVecBuilder<char, Followers> = SortedVecBuilder::new();
        let mut i: usize = 0;
        while i < self.conn.len()
            invariant
                rows == self.conn@,
                tracks(rows, pairs),
                pairs.len() <= usize::MAX,
                i <= rows.len(),
                builder@.len() == i,
                forall|k: int|
                    0 <= k < i ==> (#[trigger] builder@[k]).0 == rows[k].0 && follows(
                        builder@[k].1,
                        rows[k].0,
                        pairs,
                    ),
                forall|k: int|
                    0 <= k < i ==> (#[trigger] builder@[k]).1.index@.len() == rows[k].1@.len(),
                forall|k: int, j: int|
                    0 <= k < i && 0 <= j < rows[k].1@.len() ==> (
                    #[trigger] builder@[k].1.index@[j]).1 == rows[k].1@[j].0,
            decreases rows.len() - i,
        {
            let a = self.conn[i].0;
            let row = &self.conn[i].1;
            let ghost cells = row@;
            let mut set: SortedVecBuilder<usize, char> = SortedVecBuilder::new();
            let mut prop: usize = 0;
            let mut j: usize = 0;
            proof {
                assert(tally(pairs, a, 0, 0) == 0) by {
                    lemma_tally_split(pairs, a, 0, 0, 0);
                }
            }
            while j < row.len()
                invariant
                    rows == self.conn@,
                    tracks(rows, pairs),
                    pairs.len() <= usize::MAX,
                    i < rows.len(),
                    a == rows[i as int].0,
                    cells == rows[i as int].1@,
                    cells == row@,
                    rising(cells),
                    j <= cells.len(),
                    set@.len() == j,
                    prop == tally(
                        pairs,
                        a,
                        0,
                        if j == 0 {
                            0
                        } else {
                            cells[j - 1].0 as int + 1
                        },
                    ),
                    forall|m: int|
                        0 <= m < j ==> (#[trigger] set@[m]).1 == cells[m].0 && set@[m].0 == upto(
                            pairs,
                            a,
                            cells[m].0,
                        ),
                decreases cells.len() - j,
            {
                let b = row[j].0;
                let n = row[j].1;
                let ghost lo = if j == 0 {
                    0
                } else {
                    cells[j - 1].0 as int + 1
                };
                proof {
                    lemma_code_range(b);
                    if j > 0 {
                        lemma_code_range(cells[j - 1].0);
                    }
                    lemma_gap(rows, pairs, i as int, lo, b as int);
                    lemma_tally_split(pairs, a, 0, lo, b as int);
                    lemma_tally_split(pairs, a, 0, b as int, b as int + 1);
                    lemma_tally_bound(pairs, a, 0, b as int + 1);
                }
                prop = prop + n;
                set.push(prop, b);
                j += 1;
            }
            let ghost pushed = set@;
            proof {
                let lo = if j == 0 {
                    0
                } else {
                    cells[j - 1].0 as int + 1
                };
                if j > 0 {
                    lemma_code_range(cells[j - 1].0);
                }
                lemma_gap(rows, pairs, i as int, lo, CODE_LIMIT as int);
                lemma_tally_split(pairs, a, 0, lo, CODE_LIMIT as int);
                assert forall|m: int, n: int| 0 <= m < n < pushed.len() implies pushed[m].0.rank()
                    <= pushed[n].0.rank() by {
                    lemma_code_range(cells[m].0);
                    lemma_tally_split(pairs, a, 0, cells[m].0 as int + 1, cells[n].0 as int + 1);
                }
            }
            let index = set.build();
            builder.push(a, Followers { total: prop, index });
            i += 1;
        }
        let ghost pushed = builder@;
        let conn = builder.build();
        proof {
            assert forall|a: char, b: char| #[trigger] observed(pairs, a, b) > 0 implies indexed(
                conn@,
                a,
                b,
            ) by {
                let at = lemma_listed_where(rows, a, b);
                assert(pushed[at.0].1.index@[at.1].1 == b);
            }
        }
        PhoneticConnection { conn, recorded: self.recorded }
    }
}

impl PhoneticConnection {
    /// The model is the one that its transitions give.
    pub closed spec fn wf(&self) -> bool {
        models(self.conn@, self.recorded@)
    }

    /// Whether any transition leaves `character`.
    pub fn knows(&self, character: char) -> (r: bool)
        requires
            self.wf(),
        ensures
            r == (leaving(self@, character) > 0),
    {
        let ghost table = self.conn@;
        let ghost pairs = self.recorded@;
        if self.conn.len() == 0 {
            proof {
                if leaving(pairs, character) > 0 {
                    lemma_left_has_entry(table, pairs, character);
                }
            }
            return false;
        }
        let entry = self.conn.find(character);
        proof {
            let at = lookup_index(table, character.rank());
            if entry.0 == character {
                let b = table[at].1.index@[0].1;
                lemma_observed_leaves(pairs, character, b);
            } else if leaving(pairs, character) > 0 {
                lemma_left_has_entry(table, pairs, character);
            }
        }
        entry.0 == character
    }

    /// The character to follow `character` that `draw` picks: the first of
    /// the followers seen, in the order of codes, whose cumulative share of
    /// the transitions that leave `character` reaches the draw. A character
    /// that no transition leaves has no follower.
    pub fn extract_forward(&self, character: char, draw: u64) -> (r: char)
        requires
            self.wf(),
            leaving(self@, character) > 0,
        ensures
            is_follower(self@, character, draw, r),
            r == follower(self@, character, draw),
    {
        let ghost table = self.conn@;
        let ghost pairs = self.recorded@;
        proof {
            lemma_left_has_entry(table, pairs, character);
        }
        let entry = self.conn.find(character);
        let set = &entry.1;
        let ghost cells = set.index@;
        let query = weight_threshold(draw, set.total);
        let found = set.index.find(query);
        let ghost pos = lookup_index(cells, query.rank());
        proof {
            let b = found.1;
            lemma_code_range(b);
            if pos == cells.len() - 1 {
                // nothing follows the last follower, so its weight is the whole
                if tally(pairs, character, b as int + 1, CODE_LIMIT as int) > 0 {
                    lemma_tally_witness(pairs, character, b as int + 1, CODE_LIMIT as int);
                }
                lemma_tally_split(pairs, character, 0, b as int + 1, CODE_LIMIT as int);
            }
            assert(is_follower(pairs, character, draw, b));
        }
        found.1
    }
}

} // verus!
