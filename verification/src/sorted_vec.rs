//! A weighted index: entries kept in the order of their keys, and the lookup
//! of the first entry whose key reaches a given one.

use vstd::prelude::*;

verus! {

/// A key by which the entries of a [`SortedVec`] are ordered.
///
/// The order is the order of the integers that `rank` gives: two keys of one
/// rank count as equal.
pub trait SortKey: Sized {
    /// The integer that stands for this key in the order.
    spec fn rank(&self) -> int;

    /// Whether this key comes strictly before `other`.
    fn precedes(&self, other: &Self) -> (r: bool)
        ensures
            r == (self.rank() < other.rank()),
    ;
}

impl SortKey for char {
    open spec fn rank(&self) -> int {
        *self as int
    }

    fn precedes(&self, other: &Self) -> (r: bool) {
        *self < *other
    }
}

impl SortKey for u32 {
    open spec fn rank(&self) -> int {
        *self as int
    }

    fn precedes(&self, other: &Self) -> (r: bool) {
        *self < *other
    }
}

impl SortKey for u64 {
    open spec fn rank(&self) -> int {
        *self as int
    }

    fn precedes(&self, other: &Self) -> (r: bool) {
        *self < *other
    }
}

impl SortKey for usize {
    open spec fn rank(&self) -> int {
        *self as int
    }

    fn precedes(&self, other: &Self) -> (r: bool) {
        *self < *other
    }
}

/// The keys of `s` never decrease from one entry to the next.
pub open spec fn ordered<C: SortKey, V>(s: Seq<(C, V)>) -> bool {
    forall|i: int, j: int| 0 <= i < j < s.len() ==> s[i].0.rank() <= s[j].0.rank()
}

/// The test that an entry's key has rank `q`.
pub open spec fn has_rank<C: SortKey, V>(q: int) -> spec_fn((C, V)) -> bool {
    |e: (C, V)| e.0.rank() == q
}

/// The entries of `s` whose key has rank `q`, in the order they have in `s`.
pub open spec fn sharing_rank<C: SortKey, V>(s: Seq<(C, V)>, q: int) -> Seq<(C, V)> {
    s.filter(has_rank(q))
}

/// `i` is where a lookup of rank `q` in `s` ends: every entry before `i` has a
/// smaller key, and the entry at `i` has a key of at least `q`, or is the last
/// one because no key reaches `q`.
pub open spec fn found_at<C: SortKey, V>(s: Seq<(C, V)>, q: int, i: int) -> bool {
    &&& 0 <= i < s.len()
    &&& forall|j: int| 0 <= j < i ==> s[j].0.rank() < q
    &&& (s[i].0.rank() >= q || i == s.len() - 1)
}

/// The position where a lookup of rank `q` in `s` ends.
pub open spec fn lookup_index<C: SortKey, V>(s: Seq<(C, V)>, q: int) -> int {
    choose|i: int| found_at(s, q, i)
}

/// A lookup ends at one position only.
pub proof fn lemma_found_at_unique<C: SortKey, V>(s: Seq<(C, V)>, q: int, i: int, j: int)
    requires
        found_at(s, q, i),
        found_at(s, q, j),
    ensures
        i == j,
{
}

/// In an ordered sequence the lookup of `q` ends at the first entry whose key
/// is at least `q`: every later entry reaches `q` too.
pub proof fn lemma_found_at_is_first<C: SortKey, V>(s: Seq<(C, V)>, q: int, i: int, j: int)
    requires
        ordered(s),
        found_at(s, q, i),
        0 <= j < s.len(),
        s[j].0.rank() >= q,
    ensures
        i <= j,
        s[i].0.rank() >= q,
{
}

/// Where `key` would go in `v`: behind every entry with a smaller key, and
/// before every other.
pub fn insertion_point<C: SortKey, V>(v: &Vec<(C, V)>, key: &C) -> (pos: usize)
    requires
        ordered(v@),
    ensures
        pos <= v@.len(),
        forall|j: int| 0 <= j < pos ==> v@[j].0.rank() < key.rank(),
        forall|j: int| pos <= j < v@.len() ==> v@[j].0.rank() >= key.rank(),
{
    let mut lo: usize = 0;
    let mut hi: usize = v.len();
    while lo < hi
        invariant
            lo <= hi <= v@.len(),
            ordered(v@),
            forall|j: int| 0 <= j < lo ==> v@[j].0.rank() < key.rank(),
            forall|j: int| hi <= j < v@.len() ==> v@[j].0.rank() >= key.rank(),
        decreases hi - lo,
    {
        let mid = lo + (hi - lo) / 2;
        if v[mid].0.precedes(key) {
            lo = mid + 1;
        } else {
            hi = mid;
        }
    }
    lo
}

/// Collects entries in any order, to be sorted by `build`.
pub struct SortedVecBuilder<C: SortKey, V> {
    elements: Vec<(C, V)>,
}

impl<C: SortKey, V> View for SortedVecBuilder<C, V> {
    type V = Seq<(C, V)>;

    /// The entries in the order they were pushed.
    closed spec fn view(&self) -> Seq<(C, V)> {
        self.elements@
    }
}

impl<C: SortKey, V> SortedVecBuilder<C, V> {
    /// A builder without entries.
    pub fn new() -> (r: Self)
        ensures
            r@ == Seq::<(C, V)>::empty(),
    {
        SortedVecBuilder { elements: Vec::new() }
    }

    /// Adds the entry `(key, value)` behind those already there.
    pub fn push(&mut self, key: C, value: V)
        ensures
            final(self)@ == old(self)@.push((key, value)),
    {
        self.elements.push((key, value));
    }

    /// Sorts the entries by key. Entries of equal keys stay in the order they
    /// were pushed, so the result is determined: it is ordered, and for each
    /// rank it holds the entries of that rank as the builder held them.
    pub fn build(self) -> (r: SortedVec<C, V>)
        ensures
            r.wf(),
            r@.to_multiset() == self@.to_multiset(),
            forall|q: int| sharing_rank(r@, q) == sharing_rank(self@, q),
            ordered(self@) ==> r@ == self@,
    {
        let ghost all = self.elements@;
        let mut rest = self.elements;
        let mut sorted: Vec<(C, V)> = Vec::new();
        proof {
            assert(all.subrange(all.len() as int, all.len() as int) =~= sorted@);
        }
        while rest.len() > 0
            invariant
                rest@.len() <= all.len(),
                rest@ == all.subrange(0, rest@.len() as int),
                ordered(sorted@),
                sorted@.to_multiset() == all.subrange(
                    rest@.len() as int,
                    all.len() as int,
                ).to_multiset(),
                forall|q: int|
                    sharing_rank(sorted@, q) == sharing_rank(
                        all.subrange(rest@.len() as int, all.len() as int),
                        q,
                    ),
                ordered(all) ==> sorted@ == all.subrange(rest@.len() as int, all.len() as int),
            decreases rest@.len(),
        {
            let ghost k = rest@.len() - 1;
            let ghost before = sorted@;
            let ghost tail = all.subrange(k + 1, all.len() as int);
            match rest.pop() {
                Some(e) => {
                    let pos = insertion_point(&sorted, &e.0);
                    sorted.insert(pos, e);
                    proof {
                        assert(all.subrange(k, all.len() as int) =~= tail.insert(0, e));
                        vstd::seq_lib::to_multiset_insert(before, pos as int, e);
                        vstd::seq_lib::to_multiset_insert(tail, 0, e);
                        assert forall|q: int|
                            sharing_rank(sorted@, q) == sharing_rank(tail.insert(0, e), q) by {
                            lemma_insert_sharing_rank(before, pos as int, e, q);
                            lemma_insert_sharing_rank(tail, 0, e, q);
                        }
                    }
                },
                None => {},
            }
        }
        SortedVec { elements: sorted }
    }
}

/// What an insertion behind the smaller keys and before the others does to the
/// entries of one rank: those of the new entry's rank get it in front, the
/// others stay.
proof fn lemma_insert_sharing_rank<C: SortKey, V>(s: Seq<(C, V)>, pos: int, e: (C, V), q: int)
    requires
        0 <= pos <= s.len(),
        forall|j: int| 0 <= j < pos ==> s[j].0.rank() < e.0.rank(),
    ensures
        sharing_rank(s.insert(pos, e), q) == if e.0.rank() == q {
            seq![e] + sharing_rank(s, q)
        } else {
            sharing_rank(s, q)
        },
{
    let pred = has_rank::<C, V>(q);
    let head = s.subrange(0, pos);
    let back = s.subrange(pos, s.len() as int);
    let one = seq![e];
    assert(s =~= head + back);
    assert(s.insert(pos, e) =~= (head + one) + back);
    Seq::<(C, V)>::empty().lemma_filter_push(e, pred);
    if e.0.rank() == q {
        head.lemma_all_neg_filter_empty(pred);
    }
}

/// An entry of rank `q` among the entries of `s`, where `s` has one.
proof fn lemma_shared_rank_member<C: SortKey, V>(s: Seq<(C, V)>, q: int) -> (i: int)
    requires
        sharing_rank(s, q).len() > 0,
    ensures
        0 <= i < s.len(),
        s[i].0.rank() == q,
{
    let first = sharing_rank(s, q)[0];
    s.lemma_filter_contains_rev(has_rank(q), first);
    choose|i: int| 0 <= i < s.len() && s[i] == first
}

/// What the first entry does to the entries of one rank: it stands in front
/// of those of its own rank, and the others are those of the rest.
proof fn lemma_front_sharing_rank<C: SortKey, V>(s: Seq<(C, V)>, q: int)
    requires
        s.len() > 0,
    ensures
        sharing_rank(s, q) == if s[0].0.rank() == q {
            seq![s[0]] + sharing_rank(s.drop_first(), q)
        } else {
            sharing_rank(s.drop_first(), q)
        },
{
    assert(s =~= seq![s[0]] + s.drop_first());
    s.drop_first().lemma_filter_prepend(s[0], has_rank(q));
}

/// Sorting has one result. Two ordered sequences that hold, for each rank,
/// the same entries in the same order are the same sequence: so what `build`
/// promises of its result is true of one sequence only.
pub proof fn lemma_order_is_determined<C: SortKey, V>(a: Seq<(C, V)>, b: Seq<(C, V)>)
    requires
        ordered(a),
        ordered(b),
        forall|q: int| sharing_rank(a, q) == sharing_rank(b, q),
    ensures
        a == b,
    decreases a.len() + b.len(),
{
    if a.len() == 0 || b.len() == 0 {
        if a.len() + b.len() > 0 {
            let full = if a.len() == 0 {
                b
            } else {
                a
            };
            let none = if a.len() == 0 {
                a
            } else {
                b
            };
            let q = full[0].0.rank();
            lemma_front_sharing_rank(full, q);
            none.lemma_filter_len(has_rank(q));
        }
    } else {
        let qa = a[0].0.rank();
        let qb = b[0].0.rank();
        lemma_front_sharing_rank(a, qa);
        lemma_front_sharing_rank(b, qb);
        lemma_shared_rank_member(b, qa);
        lemma_shared_rank_member(a, qb);
        assert(a[0] == sharing_rank(a, qa)[0]);
        let rest_a = a.drop_first();
        let rest_b = b.drop_first();
        assert forall|q: int| sharing_rank(rest_a, q) == sharing_rank(rest_b, q) by {
            lemma_front_sharing_rank(a, q);
            lemma_front_sharing_rank(b, q);
            if q == qa {
                assert(sharing_rank(a, q).drop_first() =~= sharing_rank(rest_a, q));
            }
        }
        lemma_order_is_determined(rest_a, rest_b);
        assert(a =~= seq![a[0]] + rest_a);
    }
}

/// Entries in the order of their keys.
#[derive(Debug)]
pub struct SortedVec<C: SortKey, V> {
    elements: Vec<(C, V)>,
}

impl<C: SortKey, V> View for SortedVec<C, V> {
    type V = Seq<(C, V)>;

    /// The entries, first to last.
    closed spec fn view(&self) -> Seq<(C, V)> {
        self.elements@
    }
}

impl<C: SortKey, V> SortedVec<C, V> {
    /// The entries are in the order of their keys.
    pub open spec fn wf(&self) -> bool {
        ordered(self@)
    }

    /// How many entries there are.
    pub fn len(&self) -> (n: usize)
        ensures
            n == self@.len(),
    {
        self.elements.len()
    }

    /// The first entry whose key is at least `key`; where no key reaches
    /// `key`, the last entry. An index without entries answers no lookup.
    pub fn find(&self, key: C) -> (r: &(C, V))
        requires
            self.wf(),
            self@.len() > 0,
        ensures
            found_at(self@, key.rank(), lookup_index(self@, key.rank())),
            *r == self@[lookup_index(self@, key.rank())],
    {
        let pos = insertion_point(&self.elements, &key);
        let idx = if pos == self.elements.len() {
            pos - 1
        } else {
            pos
        };
        proof {
            assert(found_at(self@, key.rank(), idx as int));
        }
        &self.elements[idx]
    }
}

} // verus!
