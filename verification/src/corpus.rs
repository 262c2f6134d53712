//! What a corpus of names gives the generator: the blocks that may start a
//! name, the blocks that may continue one, and the transitions between
//! neighbouring blocks. All of it is stated over the blocks of the names.

use crate::name::{all_voiced, transition_pairs, Block};
use vstd::prelude::*;

verus! {

/// A block of the corpus: the index of its name, then its index in the name.
pub type Place = (int, int);

/// A block that may continue a generated name: the index of its name, its
/// index in the name, and whether the name goes on behind it.
pub type Exit = (int, int, bool);

/// Every block of every name has a phonetic form.
pub open spec fn voiced(names: Seq<Seq<Block>>) -> bool {
    forall|n: int| 0 <= n < names.len() ==> all_voiced(#[trigger] names[n])
}

/// `p` is a block of the corpus.
pub open spec fn is_place(names: Seq<Seq<Block>>, p: Place) -> bool {
    0 <= p.0 < names.len() && 0 <= p.1 < names[p.0].len()
}

/// The block at `p`.
pub open spec fn block_at(names: Seq<Seq<Block>>, p: Place) -> Block {
    names[p.0][p.1]
}

/// The name of `p` goes on behind it.
pub open spec fn goes_on(names: Seq<Seq<Block>>, p: Place) -> bool {
    p.1 + 1 < names[p.0].len()
}

/// The last phonetic character of the block at `p`.
pub open spec fn tail_char(names: Seq<Seq<Block>>, p: Place) -> char {
    block_at(names, p).1.last()
}

/// The first phonetic character of the block at `p`.
pub open spec fn head_char(names: Seq<Seq<Block>>, p: Place) -> char {
    block_at(names, p).1.first()
}

/// The transitions of the corpus: those of the first name, then those of the
/// second, and so on. No transition leads from one name into another.
pub open spec fn corpus_pairs(names: Seq<Seq<Block>>) -> Seq<(char, char)>
    decreases names.len(),
{
    if names.len() == 0 {
        Seq::empty()
    } else {
        corpus_pairs(names.drop_last()) + transition_pairs(names.last())
    }
}

/// The blocks that may start a generated name: the first block of each name
/// that has a block, in the order of the names.
pub open spec fn incoming(names: Seq<Seq<Block>>) -> Seq<Place>
    decreases names.len(),
{
    if names.len() == 0 {
        Seq::empty()
    } else if names.last().len() > 0 {
        incoming(names.drop_last()).push((names.len() - 1, 0))
    } else {
        incoming(names.drop_last())
    }
}

/// The exits of the name with index `n`: each of its blocks but the first.
pub open spec fn name_exits(n: int, name: Seq<Block>) -> Seq<Exit> {
    Seq::new(
        if name.len() > 0 {
            (name.len() - 1) as nat
        } else {
            0
        },
        |i: int| (n, i + 1, i + 2 < name.len()),
    )
}

/// The blocks that may continue a generated name: the exits of the first
/// name, then those of the second, and so on.
pub open spec fn outgoing(names: Seq<Seq<Block>>) -> Seq<Exit>
    decreases names.len(),
{
    if names.len() == 0 {
        Seq::empty()
    } else {
        outgoing(names.drop_last()) + name_exits(names.len() - 1, names.last())
    }
}

/// Where `c` stands in `s`, first to last.
pub open spec fn positions(s: Seq<char>, c: char) -> Seq<int>
    decreases s.len(),
{
    if s.len() == 0 {
        Seq::empty()
    } else if s.last() == c {
        positions(s.drop_last(), c).push(s.len() - 1)
    } else {
        positions(s.drop_last(), c)
    }
}

/// The characters that the transitions lead to, one for each transition.
pub open spec fn targets(pairs: Seq<(char, char)>) -> Seq<char> {
    Seq::new(pairs.len(), |k: int| pairs[k].1)
}

/// The first phonetic character of the block of each exit.
pub open spec fn exit_heads(names: Seq<Seq<Block>>) -> Seq<char> {
    Seq::new(
        outgoing(names).len(),
        |k: int| head_char(names, (outgoing(names)[k].0, outgoing(names)[k].1)),
    )
}

/// The exits whose block begins with the phonetic character `c`, as indices
/// into `outgoing`, first to last.
pub open spec fn bucket(names: Seq<Seq<Block>>, c: char) -> Seq<int> {
    positions(exit_heads(names), c)
}

/// Every position of `c` in `s` is an index of `s` at which `c` stands.
pub proof fn lemma_positions_valid(s: Seq<char>, c: char, m: int)
    requires
        0 <= m < positions(s, c).len(),
    ensures
        0 <= positions(s, c)[m] < s.len(),
        s[positions(s, c)[m]] == c,
    decreases s.len(),
{
    if s.len() > 0 {
        if m < positions(s.drop_last(), c).len() {
            lemma_positions_valid(s.drop_last(), c, m);
        }
    }
}

/// Every index at which `c` stands is among the positions of `c`.
pub proof fn lemma_positions_complete(s: Seq<char>, c: char, k: int)
    requires
        0 <= k < s.len(),
        s[k] == c,
    ensures
        positions(s, c).contains(k),
        positions(s, c).len() > 0,
    decreases s.len(),
{
    if k == s.len() - 1 {
        assert(positions(s, c).last() == k);
    } else {
        lemma_positions_complete(s.drop_last(), c, k);
        let m = choose|m: int|
            0 <= m < positions(s.drop_last(), c).len() && positions(s.drop_last(), c)[m] == k;
        assert(positions(s, c)[m] == k);
    }
}

/// What one more element does to the positions of `c`.
pub proof fn lemma_positions_push(s: Seq<char>, x: char, c: char)
    ensures
        positions(s.push(x), c) == if x == c {
            positions(s, c).push(s.len() as int)
        } else {
            positions(s, c)
        },
{
    assert(s.push(x).drop_last() =~= s);
}

/// The corpus as far as its first `n` names, with the first `m` transitions
/// of the name behind them.
pub open spec fn pairs_so_far(names: Seq<Seq<Block>>, n: int, m: int) -> Seq<(char, char)> {
    corpus_pairs(names.take(n)) + transition_pairs(names[n]).take(m)
}

/// The exits of the first `n` names, with the first `m` exits of the name
/// behind them.
pub open spec fn exits_so_far(names: Seq<Seq<Block>>, n: int, m: int) -> Seq<Exit> {
    outgoing(names.take(n)) + name_exits(n, names[n]).take(m)
}

/// A whole name more: its transitions and exits are what a name more adds.
pub proof fn lemma_name_done(names: Seq<Seq<Block>>, n: int)
    requires
        0 <= n < names.len(),
    ensures
        pairs_so_far(names, n, transition_pairs(names[n]).len() as int) == corpus_pairs(
            names.take(n + 1),
        ),
        exits_so_far(names, n, name_exits(n, names[n]).len() as int) == outgoing(names.take(n + 1)),
        incoming(names.take(n + 1)) == if names[n].len() > 0 {
            incoming(names.take(n)).push((n, 0))
        } else {
            incoming(names.take(n))
        },
{
    assert(names.take(n + 1).drop_last() =~= names.take(n));
}

/// There are as many exits as transitions, and each transition leads from
/// the block before an exit to the exit: transition `k` is the one from the
/// last phonetic character of the block before exit `k` to the first of the
/// block of exit `k`.
pub proof fn lemma_exit_of_pair(names: Seq<Seq<Block>>, k: int)
    requires
        0 <= k < outgoing(names).len(),
    ensures
        outgoing(names).len() == corpus_pairs(names).len(),
        is_place(names, (outgoing(names)[k].0, outgoing(names)[k].1)),
        outgoing(names)[k].1 >= 1,
        outgoing(names)[k].2 == goes_on(names, (outgoing(names)[k].0, outgoing(names)[k].1)),
        corpus_pairs(names)[k] == (
            tail_char(names, (outgoing(names)[k].0, outgoing(names)[k].1 - 1)),
            head_char(names, (outgoing(names)[k].0, outgoing(names)[k].1)),
        ),
    decreases names.len(),
{
    lemma_exits_match_pairs(names);
    let before = names.drop_last();
    if k < outgoing(before).len() {
        lemma_exit_of_pair(before, k);
    }
}

/// There are as many exits as transitions.
pub proof fn lemma_exits_match_pairs(names: Seq<Seq<Block>>)
    ensures
        outgoing(names).len() == corpus_pairs(names).len(),
    decreases names.len(),
{
    if names.len() > 0 {
        lemma_exits_match_pairs(names.drop_last());
    }
}

/// Every starting block is the first block of a name.
pub proof fn lemma_incoming_valid(names: Seq<Seq<Block>>, k: int)
    requires
        0 <= k < incoming(names).len(),
    ensures
        is_place(names, incoming(names)[k]),
        incoming(names)[k].1 == 0,
    decreases names.len(),
{
    let before = names.drop_last();
    if k < incoming(before).len() {
        lemma_incoming_valid(before, k);
    }
}

/// A name with a block gives a starting block.
pub proof fn lemma_incoming_complete(names: Seq<Seq<Block>>, n: int)
    requires
        0 <= n < names.len(),
        names[n].len() > 0,
    ensures
        incoming(names).contains((n, 0)),
        incoming(names).len() > 0,
    decreases names.len(),
{
    if n == names.len() - 1 {
        assert(incoming(names).last() == (n, 0int));
    } else {
        let before = names.drop_last();
        lemma_incoming_complete(before, n);
        let k = choose|k: int| 0 <= k < incoming(before).len() && incoming(before)[k] == (n, 0int);
        assert(incoming(names)[k] == (n, 0int));
    }
}

/// The transition from a block to the block behind it in its name is one of
/// the transitions of the corpus.
pub proof fn lemma_pair_of_place(names: Seq<Seq<Block>>, p: Place)
    requires
        is_place(names, p),
        goes_on(names, p),
    ensures
        corpus_pairs(names).contains((tail_char(names, p), head_char(names, (p.0, p.1 + 1)))),
    decreases names.len(),
{
    let pair = (tail_char(names, p), head_char(names, (p.0, p.1 + 1)));
    let before = names.drop_last();
    if p.0 == names.len() - 1 {
        assert(corpus_pairs(names)[corpus_pairs(before).len() + p.1] == pair);
    } else {
        lemma_pair_of_place(before, p);
        let k = choose|k: int| 0 <= k < corpus_pairs(before).len() && corpus_pairs(before)[k] == pair;
        assert(corpus_pairs(names)[k] == pair);
    }
}

/// Each exit begins with the character that its transition leads to.
pub proof fn lemma_heads_are_targets(names: Seq<Seq<Block>>)
    ensures
        exit_heads(names) == targets(corpus_pairs(names)),
{
    lemma_exits_match_pairs(names);
    assert forall|k: int| 0 <= k < outgoing(names).len() implies exit_heads(names)[k] == targets(
        corpus_pairs(names),
    )[k] by {
        lemma_exit_of_pair(names, k);
    }
}

/// Every index in a bucket is the index of an exit whose block begins with
/// the character of the bucket.
pub proof fn lemma_bucket_valid(names: Seq<Seq<Block>>, c: char, m: int)
    requires
        0 <= m < bucket(names, c).len(),
    ensures
        0 <= bucket(names, c)[m] < outgoing(names).len(),
        head_char(
            names,
            (outgoing(names)[bucket(names, c)[m]].0, outgoing(names)[bucket(names, c)[m]].1),
        ) == c,
{
    lemma_positions_valid(exit_heads(names), c, m);
}

/// A character that a transition leads to has a bucket that is not empty.
pub proof fn lemma_bucket_filled(names: Seq<Seq<Block>>, a: char, c: char)
    requires
        corpus_pairs(names).contains((a, c)),
    ensures
        bucket(names, c).len() > 0,
{
    let pairs = corpus_pairs(names);
    let k = choose|k: int| 0 <= k < pairs.len() && pairs[k] == (a, c);
    lemma_heads_are_targets(names);
    lemma_positions_complete(exit_heads(names), c, k);
}

/// Every block of a name but the first is an exit, flagged with whether the
/// name goes on behind it.
pub proof fn lemma_outgoing_complete(names: Seq<Seq<Block>>, p: Place)
    requires
        is_place(names, p),
        p.1 >= 1,
    ensures
        outgoing(names).contains((p.0, p.1, goes_on(names, p))),
    decreases names.len(),
{
    let exit = (p.0, p.1, goes_on(names, p));
    let before = names.drop_last();
    if p.0 == names.len() - 1 {
        assert(outgoing(names)[outgoing(before).len() + p.1 - 1] == exit);
    } else {
        lemma_outgoing_complete(before, p);
        let k = choose|k: int| 0 <= k < outgoing(before).len() && outgoing(before)[k] == exit;
        assert(outgoing(names)[k] == exit);
    }
}

/// Every exit is in the bucket of the phonetic character that its block
/// begins with.
pub proof fn lemma_bucket_complete(names: Seq<Seq<Block>>, k: int)
    requires
        0 <= k < outgoing(names).len(),
    ensures
        bucket(names, head_char(names, (outgoing(names)[k].0, outgoing(names)[k].1))).contains(k),
{
    let heads = exit_heads(names);
    lemma_positions_complete(heads, heads[k], k);
}

} // verus!
