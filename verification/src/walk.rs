//! What the generator makes of a corpus and a sequence of draws: the walk
//! from block to block, the dropping of blocks that repeat their neighbour,
//! and the name that the blocks left over spell. The laws of generation are
//! proved here.

use crate::corpus::{
    block_at, bucket, corpus_pairs, goes_on, head_char, incoming, is_place, lemma_bucket_filled,
    lemma_bucket_valid, lemma_exit_of_pair, lemma_incoming_complete, lemma_incoming_valid,
    lemma_pair_of_place, outgoing, tail_char, voiced, Exit, Place,
};
use crate::draw::{lemma_scaled_in_range, scaled};
use crate::name::{lemma_written_form_push, phonetic_form, written_form, Block};
use crate::phonetic::{
    follower, leaving, lemma_contains_leaves, lemma_follower_observed, lemma_observed_contains,
    observed,
};
use vstd::prelude::*;

verus! {

/// The block that a walk starts with: the draw picks one of the starting
/// blocks, each with the same chance.
pub open spec fn first_place(names: Seq<Seq<Block>>, draw: u64) -> Place {
    incoming(names)[scaled(draw, incoming(names).len())]
}

/// The exit that a walk takes from the block at `p`: the first draw picks a
/// follower of the last phonetic character of the block, weighted by how
/// often the corpus shows it; the second picks one of the exits that begin
/// with that follower, each with the same chance.
pub open spec fn next_exit(names: Seq<Seq<Block>>, p: Place, d0: u64, d1: u64) -> Exit {
    let b = follower(corpus_pairs(names), tail_char(names, p), d0);
    let exits = bucket(names, b);
    outgoing(names)[exits[scaled(d1, exits.len())]]
}

/// The walk that goes on from `walk` with `draws`: as long as the name of
/// the last block goes on behind it, two draws pick the next block. `None`
/// when the draws run out before the walk ends.
pub open spec fn walk_from(names: Seq<Seq<Block>>, walk: Seq<Place>, draws: Seq<u64>) -> Option<
    Seq<Place>,
>
    decreases draws.len(),
{
    if !goes_on(names, walk.last()) {
        Some(walk)
    } else if draws.len() < 2 {
        None
    } else {
        let e = next_exit(names, walk.last(), draws[0], draws[1]);
        walk_from(names, walk.push((e.0, e.1)), draws.skip(2))
    }
}

/// The walk that `draws` give: the first draw picks the starting block, and
/// each step takes two more. `None` when the draws run out before the walk
/// ends.
pub open spec fn raw_walk(names: Seq<Seq<Block>>, draws: Seq<u64>) -> Option<Seq<Place>> {
    if draws.len() == 0 {
        None
    } else {
        walk_from(names, seq![first_place(names, draws[0])], draws.skip(1))
    }
}

/// The blocks at `p` and `q` are written alike and end on the same phonetic
/// character.
pub open spec fn same_key(names: Seq<Seq<Block>>, p: Place, q: Place) -> bool {
    block_at(names, p).0 == block_at(names, q).0 && tail_char(names, p) == tail_char(names, q)
}

/// The walk without the blocks that repeat the block before them.
pub open spec fn collapse(names: Seq<Seq<Block>>, walk: Seq<Place>) -> Seq<Place>
    decreases walk.len(),
{
    if walk.len() <= 1 {
        walk
    } else if same_key(names, walk[walk.len() - 2], walk.last()) {
        collapse(names, walk.drop_last())
    } else {
        collapse(names, walk.drop_last()).push(walk.last())
    }
}

/// The blocks at `places`.
pub open spec fn blocks_at(names: Seq<Seq<Block>>, places: Seq<Place>) -> Seq<Block> {
    Seq::new(places.len(), |i: int| block_at(names, places[i]))
}

/// A generated name as the contracts see it.
pub ghost struct Generated {
    /// The name as written.
    pub written: Seq<char>,
    /// The name as spoken.
    pub phonetic: Seq<char>,
    /// The blocks that the name is made of, first to last.
    pub places: Seq<Place>,
}

/// What `places` spell, how they sound, and `places` themselves.
pub open spec fn spelled(names: Seq<Seq<Block>>, places: Seq<Place>) -> Generated {
    Generated {
        written: written_form(blocks_at(names, places)),
        phonetic: phonetic_form(blocks_at(names, places)),
        places,
    }
}

/// The name that `draws` generate from the corpus: as written, as spoken,
/// and the blocks it was made of. `None` when the draws run out before the
/// walk ends.
pub open spec fn generated(names: Seq<Seq<Block>>, draws: Seq<u64>) -> Option<Generated> {
    match raw_walk(names, draws) {
        Some(walk) => Some(spelled(names, collapse(names, walk))),
        None => None,
    }
}

/// All of `places` are blocks of the corpus.
pub open spec fn all_places(names: Seq<Seq<Block>>, places: Seq<Place>) -> bool {
    forall|i: int| 0 <= i < places.len() ==> is_place(names, #[trigger] places[i])
}

/// From each of `places` to the next, the corpus shows the transition: the
/// last phonetic character of the one is followed somewhere in the corpus by
/// the first of the other.
pub open spec fn linked(names: Seq<Seq<Block>>, places: Seq<Place>) -> bool {
    forall|i: int, j: int|
        0 <= i && j == i + 1 && j < places.len() ==> observed(
            corpus_pairs(names),
            tail_char(names, #[trigger] places[i]),
            head_char(names, #[trigger] places[j]),
        ) > 0
}

/// No block of `places` repeats the one before it.
pub open spec fn no_repeat(names: Seq<Seq<Block>>, places: Seq<Place>) -> bool {
    forall|i: int, j: int|
        0 <= i && j == i + 1 && j < places.len() ==> !same_key(
            names,
            #[trigger] places[i],
            #[trigger] places[j],
        )
}

/// The starting block is a block of a name that has one.
pub proof fn lemma_first_place(names: Seq<Seq<Block>>, draw: u64)
    requires
        incoming(names).len() > 0,
    ensures
        is_place(names, first_place(names, draw)),
        first_place(names, draw).1 == 0,
{
    lemma_scaled_in_range(draw, incoming(names).len());
    lemma_incoming_valid(names, scaled(draw, incoming(names).len()));
}

/// The corpus has a block to start a name with exactly when one of its
/// names has a block.
pub proof fn lemma_can_start(names: Seq<Seq<Block>>)
    ensures
        incoming(names).len() > 0 <==> exists|n: int|
            0 <= n < names.len() && (#[trigger] names[n]).len() > 0,
{
    if incoming(names).len() > 0 {
        lemma_incoming_valid(names, 0);
    }
    if exists|n: int| 0 <= n < names.len() && (#[trigger] names[n]).len() > 0 {
        let n = choose|n: int| 0 <= n < names.len() && (#[trigger] names[n]).len() > 0;
        lemma_incoming_complete(names, n);
    }
}

/// The model knows every character that a walk may have to leave: a block
/// whose name goes on behind it ends on a character that some transition of
/// the corpus leaves.
pub proof fn lemma_tail_is_left(names: Seq<Seq<Block>>, p: Place)
    requires
        is_place(names, p),
        goes_on(names, p),
    ensures
        leaving(corpus_pairs(names), tail_char(names, p)) > 0,
{
    lemma_pair_of_place(names, p);
    lemma_contains_leaves(
        corpus_pairs(names),
        tail_char(names, p),
        head_char(names, (p.0, p.1 + 1)),
    );
}

/// Every character that the model may pick has an exit: the follower of a
/// character that was left begins a block that may continue a name.
pub proof fn lemma_follower_has_exit(names: Seq<Seq<Block>>, a: char, draw: u64)
    requires
        leaving(corpus_pairs(names), a) > 0,
    ensures
        bucket(names, follower(corpus_pairs(names), a, draw)).len() > 0,
{
    lemma_follower_observed(corpus_pairs(names), a, draw);
    lemma_bucket_filled(names, a, follower(corpus_pairs(names), a, draw));
}

/// A step leads from a block whose name goes on to a block of the corpus,
/// along a transition that the corpus shows; and the flag of the exit says
/// whether the name of that block goes on.
pub proof fn lemma_next_exit(names: Seq<Seq<Block>>, p: Place, d0: u64, d1: u64)
    requires
        is_place(names, p),
        goes_on(names, p),
    ensures
        is_place(names, (next_exit(names, p, d0, d1).0, next_exit(names, p, d0, d1).1)),
        next_exit(names, p, d0, d1).2 == goes_on(
            names,
            (next_exit(names, p, d0, d1).0, next_exit(names, p, d0, d1).1),
        ),
        observed(
            corpus_pairs(names),
            tail_char(names, p),
            head_char(names, (next_exit(names, p, d0, d1).0, next_exit(names, p, d0, d1).1)),
        ) > 0,
{
    let pairs = corpus_pairs(names);
    let a = tail_char(names, p);
    lemma_tail_is_left(names, p);
    lemma_follower_observed(pairs, a, d0);
    lemma_follower_has_exit(names, a, d0);
    let b = follower(pairs, a, d0);
    let exits = bucket(names, b);
    lemma_scaled_in_range(d1, exits.len());
    let m = scaled(d1, exits.len());
    lemma_bucket_valid(names, b, m);
    lemma_exit_of_pair(names, exits[m]);
    lemma_observed_contains(pairs, a, b);
}

/// A walk that goes on from blocks of the corpus, linked by transitions
/// that the corpus shows, is such a walk again; it begins as it began, and
/// ends with the last block of a name.
pub proof fn lemma_walk_from(names: Seq<Seq<Block>>, walk: Seq<Place>, draws: Seq<u64>)
    requires
        walk.len() > 0,
        all_places(names, walk),
        linked(names, walk),
        walk_from(names, walk, draws) is Some,
    ensures
        walk_from(names, walk, draws).unwrap().len() >= walk.len(),
        walk_from(names, walk, draws).unwrap().take(walk.len() as int) == walk,
        all_places(names, walk_from(names, walk, draws).unwrap()),
        linked(names, walk_from(names, walk, draws).unwrap()),
        !goes_on(names, walk_from(names, walk, draws).unwrap().last()),
    decreases draws.len(),
{
    if goes_on(names, walk.last()) {
        let e = next_exit(names, walk.last(), draws[0], draws[1]);
        lemma_next_exit(names, walk.last(), draws[0], draws[1]);
        lemma_walk_from(names, walk.push((e.0, e.1)), draws.skip(2));
    }
}

/// The walk that draws give goes over blocks of the corpus, linked by
/// transitions that the corpus shows, from a starting block to the last
/// block of a name.
pub proof fn lemma_raw_walk(names: Seq<Seq<Block>>, draws: Seq<u64>)
    requires
        incoming(names).len() > 0,
        raw_walk(names, draws) is Some,
    ensures
        raw_walk(names, draws).unwrap().len() > 0,
        raw_walk(names, draws).unwrap()[0] == first_place(names, draws[0]),
        all_places(names, raw_walk(names, draws).unwrap()),
        linked(names, raw_walk(names, draws).unwrap()),
        !goes_on(names, raw_walk(names, draws).unwrap().last()),
{
    lemma_first_place(names, draws[0]);
    lemma_walk_from(names, seq![first_place(names, draws[0])], draws.skip(1));
}

/// What is left of a walk when the repeats are dropped: it begins with the
/// same block and ends with a block like the last; it goes over blocks of
/// the corpus if the walk did; and none of its blocks repeats the one
/// before.
pub proof fn lemma_collapse(names: Seq<Seq<Block>>, walk: Seq<Place>)
    requires
        walk.len() > 0,
    ensures
        0 < collapse(names, walk).len() <= walk.len(),
        collapse(names, walk)[0] == walk[0],
        same_key(names, collapse(names, walk).last(), walk.last()),
        all_places(names, walk) ==> all_places(names, collapse(names, walk)),
        no_repeat(names, collapse(names, walk)),
    decreases walk.len(),
{
    if walk.len() > 1 {
        lemma_collapse(names, walk.drop_last());
    }
}

/// Dropping the repeats keeps the links: a block dropped ends on the same
/// phonetic character as the block before it, so what followed the one may
/// follow the other.
pub proof fn lemma_collapse_linked(names: Seq<Seq<Block>>, walk: Seq<Place>)
    requires
        walk.len() > 0,
        linked(names, walk),
    ensures
        linked(names, collapse(names, walk)),
    decreases walk.len(),
{
    if walk.len() > 1 {
        lemma_collapse_linked(names, walk.drop_last());
        lemma_collapse(names, walk.drop_last());
    }
}

/// Blocks spell something exactly when one of them has a written form.
pub proof fn lemma_spells(blocks: Seq<Block>)
    ensures
        written_form(blocks).len() > 0 <==> exists|i: int|
            0 <= i < blocks.len() && (#[trigger] blocks[i]).0.len() > 0,
    decreases blocks.len(),
{
    if blocks.len() > 0 {
        let before = blocks.drop_last();
        assert(blocks =~= before.push(blocks.last()));
        lemma_written_form_push(before, blocks.last());
        lemma_spells(before);
        if written_form(before).len() > 0 {
            let i = choose|i: int| 0 <= i < before.len() && (#[trigger] before[i]).0.len() > 0;
            assert(blocks[i].0.len() > 0);
        }
        if exists|i: int| 0 <= i < blocks.len() && (#[trigger] blocks[i]).0.len() > 0 {
            let i = choose|i: int| 0 <= i < blocks.len() && (#[trigger] blocks[i]).0.len() > 0;
            assert(i == blocks.len() - 1 || before[i].0.len() > 0);
        }
    }
}

/// A generated name is made of blocks of the corpus, beginning with a
/// starting block.
pub proof fn lemma_generated_places(names: Seq<Seq<Block>>, draws: Seq<u64>)
    requires
        incoming(names).len() > 0,
        generated(names, draws) is Some,
    ensures
        generated(names, draws).unwrap().places.len() > 0,
        generated(names, draws).unwrap().places[0] == first_place(names, draws[0]),
        all_places(names, generated(names, draws).unwrap().places),
{
    lemma_raw_walk(names, draws);
    lemma_collapse(names, raw_walk(names, draws).unwrap());
}

/// A generated name sounds: its phonetic form is never empty. It spells
/// something exactly when one of its blocks has a written form, which the
/// corpus does not demand of a block.
pub proof fn lemma_generated_well_formed(names: Seq<Seq<Block>>, draws: Seq<u64>)
    requires
        voiced(names),
        incoming(names).len() > 0,
        generated(names, draws) is Some,
    ensures
        generated(names, draws).unwrap().phonetic.len() > 0,
        generated(names, draws).unwrap().written.len() > 0 <==> exists|i: int|
            0 <= i < generated(names, draws).unwrap().places.len() && block_at(
                names,
                #[trigger] generated(names, draws).unwrap().places[i],
            ).0.len() > 0,
{
    lemma_generated_places(names, draws);
    let places = generated(names, draws).unwrap().places;
    let blocks = blocks_at(names, places);
    lemma_spells(blocks);
    if exists|i: int| 0 <= i < blocks.len() && (#[trigger] blocks[i]).0.len() > 0 {
        let i = choose|i: int| 0 <= i < blocks.len() && (#[trigger] blocks[i]).0.len() > 0;
        assert(block_at(names, places[i]).0.len() > 0);
    }
    if exists|i: int| 0 <= i < places.len() && block_at(names, #[trigger] places[i]).0.len() > 0 {
        let i = choose|i: int|
            0 <= i < places.len() && block_at(names, #[trigger] places[i]).0.len() > 0;
        assert(blocks[i].0.len() > 0);
    }
}

/// No block of a generated name repeats the block before it: no two
/// neighbours are written alike and end on the same phonetic character.
pub proof fn lemma_generated_no_repeat(names: Seq<Seq<Block>>, draws: Seq<u64>)
    requires
        incoming(names).len() > 0,
        generated(names, draws) is Some,
    ensures
        no_repeat(names, generated(names, draws).unwrap().places),
{
    lemma_raw_walk(names, draws);
    lemma_collapse(names, raw_walk(names, draws).unwrap());
}

/// A generated name invents no transition: from each of its blocks to the
/// next, the last phonetic character of the one and the first of the other
/// are a transition of the corpus.
pub proof fn lemma_generated_linked(names: Seq<Seq<Block>>, draws: Seq<u64>)
    requires
        incoming(names).len() > 0,
        generated(names, draws) is Some,
    ensures
        linked(names, generated(names, draws).unwrap().places),
        forall|i: int, j: int|
            0 <= i && j == i + 1 && j < generated(names, draws).unwrap().places.len()
                ==> corpus_pairs(names).contains(
                (
                    tail_char(names, #[trigger] generated(names, draws).unwrap().places[i]),
                    head_char(names, #[trigger] generated(names, draws).unwrap().places[j]),
                ),
            ),
{
    lemma_raw_walk(names, draws);
    lemma_collapse_linked(names, raw_walk(names, draws).unwrap());
    let places = generated(names, draws).unwrap().places;
    assert forall|i: int, j: int|
        0 <= i && j == i + 1 && j < places.len() implies corpus_pairs(names).contains(
        (tail_char(names, #[trigger] places[i]), head_char(names, #[trigger] places[j])),
    ) by {
        lemma_observed_contains(
            corpus_pairs(names),
            tail_char(names, places[i]),
            head_char(names, places[j]),
        );
    }
}

} // verus!
