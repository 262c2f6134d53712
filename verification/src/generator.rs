//! The generator: built once from a corpus of names, it makes a name of
//! each sequence of draws it is given.

use crate::corpus::{
    block_at, bucket, corpus_pairs, exit_heads, exits_so_far, goes_on, incoming, is_place,
    lemma_bucket_valid, lemma_exits_match_pairs, lemma_heads_are_targets, lemma_name_done,
    lemma_positions_push, outgoing, pairs_so_far, positions, targets, voiced, Exit, Place,
};
use crate::draw::{lemma_scaled_in_range, scale, scaled};
use crate::name::{
    lemma_phonetic_form_push, lemma_written_form_push, phonetic_form, transition_pairs,
    written_form, Block, Name,
};
use crate::phonetic::{lemma_code_range, PhoneticConnection, PhoneticConnectionBuilder};
use crate::walk::{
    all_places, blocks_at, collapse, first_place, generated, lemma_collapse,
    lemma_collapse_linked, lemma_first_place, lemma_follower_has_exit, lemma_next_exit,
    lemma_tail_is_left, linked, next_exit, no_repeat, raw_walk, same_key, spelled, walk_from,
};
use std::collections::HashMap;
use vstd::prelude::*;

verus! {

broadcast use vstd::std_specs::hash::group_hash_axioms;

/// Where a syllable of a generated name comes from.
#[derive(Debug)]
pub struct SyllableInfo {
    /// The index of the name in the corpus.
    pub name_index: usize,
    /// The index of the syllable in the name.
    pub syllable_index: usize,
}

impl View for SyllableInfo {
    type V = Place;

    /// The place of the syllable: the index of its name, then its index in
    /// the name.
    open spec fn view(&self) -> Place {
        (self.name_index as int, self.syllable_index as int)
    }
}

/// The places that `infos` name.
pub open spec fn places_of(infos: Seq<SyllableInfo>) -> Seq<Place> {
    Seq::new(infos.len(), |i: int| infos[i]@)
}

/// The corpus that `names` are: the blocks of each.
pub open spec fn corpus_of(names: Seq<Name>) -> Seq<Seq<Block>> {
    Seq::new(names.len(), |n: int| names[n]@)
}

/// The places that the pairs of indices name.
pub open spec fn pair_places(v: Seq<(usize, usize)>) -> Seq<Place> {
    Seq::new(v.len(), |i: int| (v[i].0 as int, v[i].1 as int))
}

/// The exits that the triples name.
pub open spec fn triple_exits(v: Seq<(usize, usize, bool)>) -> Seq<Exit> {
    Seq::new(v.len(), |i: int| (v[i].0 as int, v[i].1 as int, v[i].2))
}

/// The indices as integers.
pub open spec fn indices_of(v: Seq<usize>) -> Seq<int> {
    Seq::new(v.len(), |i: int| v[i] as int)
}

/// The map holds, under the code of each character, where the character
/// stands in `heads`, and nothing under the code of a character that does
/// not stand there.
spec fn tree_holds(tree: Map<u32, Vec<usize>>, heads: Seq<char>) -> bool {
    forall|c: char|
        {
            &&& tree.contains_key(c as u32) <==> (#[trigger] positions(heads, c)).len() > 0
            &&& tree.contains_key(c as u32) ==> indices_of(tree[c as u32]@) == positions(heads, c)
        }
}

/// Collects the names of a corpus, to make a [`NameGenerator`] of them.
pub struct NameGeneratorBuilder {
    names: Vec<Name>,
}

impl View for NameGeneratorBuilder {
    type V = Seq<Seq<Block>>;

    /// The names collected so far, each as its blocks.
    closed spec fn view(&self) -> Seq<Seq<Block>> {
        corpus_of(self.names@)
    }
}

impl Default for NameGeneratorBuilder {
    fn default() -> (r: Self)
        ensures
            r@ == Seq::<Seq<Block>>::empty(),
            r.wf(),
    {
        Self::new()
    }
}

impl NameGeneratorBuilder {
    /// Every syllable of every name collected has a phonetic form.
    pub open spec fn wf(&self) -> bool {
        voiced(self@)
    }

    /// A builder without names.
    pub fn new() -> (r: Self)
        ensures
            r@ == Seq::<Seq<Block>>::empty(),
            r.wf(),
    {
        NameGeneratorBuilder { names: Vec::new() }
    }

    /// The builder with `name` behind the names it has.
    pub fn add_name(self, name: Name) -> (r: Self)
        requires
            self.wf(),
            name.wf(),
        ensures
            r.wf(),
            r@ == self@.push(name@),
    {
        let mut all = self.names;
        all.push(name);
        NameGeneratorBuilder { names: all }
    }

    /// The builder with `names` behind the names it has, in their order.
    pub fn bulk_add_names(self, names: Vec<Name>) -> (r: Self)
        requires
            self.wf(),
            voiced(corpus_of(names@)),
        ensures
            r.wf(),
            r@ == self@ + corpus_of(names@),
    {
        let mut all = self.names;
        let mut more = names;
        all.append(&mut more);
        NameGeneratorBuilder { names: all }
    }

    /// The generator for the names collected: it holds the names, the blocks
    /// that may start a name, the blocks that may continue one, and the
    /// model of the transitions between neighbouring blocks.
    pub fn build(self) -> (r: NameGenerator)
        requires
            self.wf(),
        ensures
            r.wf(),
            r@ == self@,
    {
        let ghost corpus = self@;
        let mut conn_builder = PhoneticConnectionBuilder::new();
        let mut outgoing_tree: HashMap<u32, Vec<usize>> = HashMap::new();
        let mut incoming_syllables: Vec<(usize, usize)> = Vec::new();
        let mut outgoing_syllables: Vec<(usize, usize, bool)> = Vec::new();
        let mut ipn: usize = 0;
        while ipn < self.names.len()
            invariant
                corpus == corpus_of(self.names@),
                voiced(corpus),
                ipn <= corpus.len(),
                conn_builder.wf(),
                conn_builder@ == corpus_pairs(corpus.take(ipn as int)),
                pair_places(incoming_syllables@) == incoming(corpus.take(ipn as int)),
                triple_exits(outgoing_syllables@) == outgoing(corpus.take(ipn as int)),
                tree_holds(outgoing_tree@, targets(conn_builder@)),
            decreases corpus.len() - ipn,
        {
            let name = &self.names[ipn];
            let ghost blocks = name@;
            let n = name.len();
            if n > 0 {
                incoming_syllables.push((ipn, 0));
            }
            proof {
                lemma_name_done(corpus, ipn as int);
            }
            let pairs = name.connection_pairs();
            let mut ipc: usize = 0;
            while ipc < pairs.len()
                invariant
                    corpus == corpus_of(self.names@),
                    ipn < corpus.len(),
                    blocks == corpus[ipn as int],
                    n == blocks.len(),
                    pairs@ == transition_pairs(blocks),
                    ipc <= pairs@.len(),
                    conn_builder.wf(),
                    conn_builder@ == pairs_so_far(corpus, ipn as int, ipc as int),
                    triple_exits(outgoing_syllables@) == exits_so_far(
                        corpus,
                        ipn as int,
                        ipc as int,
                    ),
                    tree_holds(outgoing_tree@, targets(conn_builder@)),
                decreases pairs@.len() - ipc,
            {
                let pair = pairs[ipc];
                let to_restore = ipc + 1 != n - 1;
                let ghost heads = targets(conn_builder@);
                outgoing_syllables.push((ipn, ipc + 1, to_restore));
                let at = outgoing_syllables.len() - 1;
                let ghost exit: Exit = (ipn as int, ipc + 1, ipc + 2 < n);
                proof {
                    lemma_exits_match_pairs(corpus.take(ipn as int));
                    assert(exits_so_far(corpus, ipn as int, ipc + 1) =~= exits_so_far(
                        corpus,
                        ipn as int,
                        ipc as int,
                    ).push(exit));
                    lemma_code_range(pair.1);
                }
                conn_builder.add_char_pair(pair.0, pair.1);
                let key = pair.1 as u32;
                proof {
                    assert(targets(conn_builder@) =~= heads.push(pair.1));
                }
                match outgoing_tree.remove(&key) {
                    Some(found) => {
                        let mut list = found;
                        list.push(at);
                        outgoing_tree.insert(key, list);
                    },
                    None => {
                        let mut list: Vec<usize> = Vec::new();
                        list.push(at);
                        outgoing_tree.insert(key, list);
                    },
                }
                proof {
                    assert forall|c: char|
                        {
                            &&& outgoing_tree@.contains_key(c as u32) <==> (#[trigger] positions(
                                heads.push(pair.1),
                                c,
                            )).len() > 0
                            &&& outgoing_tree@.contains_key(c as u32) ==> indices_of(
                                outgoing_tree@[c as u32]@,
                            ) == positions(heads.push(pair.1), c)
                        } by {
                        lemma_positions_push(heads, pair.1, c);
                        lemma_code_range(c);
                    }
                }
                ipc += 1;
            }
            ipn += 1;
        }
        proof {
            assert(corpus.take(ipn as int) =~= corpus);
            lemma_heads_are_targets(corpus);
        }
        NameGenerator {
            names: self.names,
            incoming_syllables,
            outgoing_syllables,
            outgoing_tree,
            conn: conn_builder.build(),
        }
    }
}

/// Makes names from a corpus: it holds the names, the blocks that may start
/// a name, the blocks that may continue one, and the model of the
/// transitions between neighbouring blocks.
pub struct NameGenerator {
    names: Vec<Name>,
    incoming_syllables: Vec<(usize, usize)>,
    outgoing_syllables: Vec<(usize, usize, bool)>,
    outgoing_tree: HashMap<u32, Vec<usize>>,
    conn: PhoneticConnection,
}

impl View for NameGenerator {
    type V = Seq<Seq<Block>>;

    /// The corpus: the names, each as its blocks.
    closed spec fn view(&self) -> Seq<Seq<Block>> {
        corpus_of(self.names@)
    }
}

impl NameGenerator {
    /// What the generator holds is what its corpus gives.
    pub closed spec fn wf(&self) -> bool {
        &&& voiced(self@)
        &&& pair_places(self.incoming_syllables@) == incoming(self@)
        &&& triple_exits(self.outgoing_syllables@) == outgoing(self@)
        &&& tree_holds(self.outgoing_tree@, exit_heads(self@))
        &&& self.conn.wf()
        &&& self.conn@ == corpus_pairs(self@)
    }

    /// The names of the corpus.
    pub fn names(&self) -> (r: &Vec<Name>)
        ensures
            corpus_of(r@) == self@,
    {
        &self.names
    }

    /// Whether the corpus has a block to start a name with. A generator that
    /// has none generates nothing.
    pub fn can_generate(&self) -> (r: bool)
        requires
            self.wf(),
        ensures
            r == (incoming(self@).len() > 0),
    {
        self.incoming_syllables.len() > 0
    }

    /// Whether `current` is a block of the corpus whose name goes on behind
    /// it: a block from which a walk takes a step.
    pub fn has_next(&self, current: &SyllableInfo) -> (r: bool)
        ensures
            r == (is_place(self@, current@) && goes_on(self@, current@)),
    {
        current.name_index < self.names.len() && current.syllable_index
            < self.names[current.name_index].len() && current.syllable_index + 1
            < self.names[current.name_index].len()
    }

    /// The block that a walk starts with, and whether the walk goes on from
    /// it.
    pub fn first_syllable(&self, draw: u64) -> (r: (SyllableInfo, bool))
        requires
            self.wf(),
            incoming(self@).len() > 0,
        ensures
            r.0@ == first_place(self@, draw),
            is_place(self@, r.0@),
            r.1 == goes_on(self@, r.0@),
    {
        let k = scale(draw, self.incoming_syllables.len());
        let start = self.incoming_syllables[k];
        proof {
            lemma_first_place(self@, draw);
        }
        let more = self.names[start.0].len() > 1;
        (SyllableInfo { name_index: start.0, syllable_index: start.1 }, more)
    }

    /// The block that a walk goes to from `current`, and whether the walk
    /// goes on from there. The first draw picks the phonetic character to
    /// begin with, the second the block.
    pub fn query_next(&self, current: &SyllableInfo, d0: u64, d1: u64) -> (r: (SyllableInfo, bool))
        requires
            self.wf(),
            is_place(self@, current@),
            goes_on(self@, current@),
        ensures
            (r.0@.0, r.0@.1, r.1) == next_exit(self@, current@, d0, d1),
            is_place(self@, r.0@),
            r.1 == goes_on(self@, r.0@),
    {
        let ghost corpus = self@;
        let ghost here = current@;
        let last = self.names[current.name_index].last_char_of_syllable(current.syllable_index);
        proof {
            lemma_tail_is_left(corpus, here);
        }
        let connection_syllable = self.conn.extract_forward(last, d0);
        let ghost exits = bucket(corpus, connection_syllable);
        proof {
            lemma_follower_has_exit(corpus, last, d0);
            lemma_next_exit(corpus, here, d0, d1);
            lemma_scaled_in_range(d1, exits.len());
            lemma_bucket_valid(corpus, connection_syllable, scaled(d1, exits.len()));
        }
        let key = connection_syllable as u32;
        let found = self.outgoing_tree.get(&key);
        match found {
            Some(list) => {
                let k = scale(d1, list.len());
                let at = list[k];
                let exit = self.outgoing_syllables[at];
                (SyllableInfo { name_index: exit.0, syllable_index: exit.1 }, exit.2)
            },
            None => vstd::pervasive::unreached(),
        }
    }

    /// Whether the blocks at `p` and `q` are written alike and end on the
    /// same phonetic character.
    fn repeats(&self, p: &SyllableInfo, q: &SyllableInfo) -> (r: bool)
        requires
            self.wf(),
            is_place(self@, p@),
            is_place(self@, q@),
        ensures
            r == same_key(self@, p@, q@),
    {
        let first = self.names[p.name_index].syllables();
        let second = self.names[q.name_index].syllables();
        let alike = first[p.syllable_index].0 == second[q.syllable_index].0;
        if alike {
            let a = self.names[p.name_index].last_char_of_syllable(p.syllable_index);
            let b = self.names[q.name_index].last_char_of_syllable(q.syllable_index);
            a == b
        } else {
            false
        }
    }

    /// The name that a walk gives: the blocks that repeat the block before
    /// them are dropped, and the written forms and the phonetic forms of the
    /// others are joined. With them comes the place of each block that is
    /// left.
    pub fn assemble(&self, walk: &Vec<SyllableInfo>) -> (r: (String, String, Vec<SyllableInfo>))
        requires
            self.wf(),
            all_places(self@, places_of(walk@)),
        ensures
            places_of(r.2@) == collapse(self@, places_of(walk@)),
            r.0@ == spelled(self@, places_of(r.2@)).written,
            r.1@ == spelled(self@, places_of(r.2@)).phonetic,
            all_places(self@, places_of(r.2@)),
            no_repeat(self@, places_of(r.2@)),
            walk@.len() > 0 ==> r.2@.len() > 0,
    {
        let ghost corpus = self@;
        let ghost route = places_of(walk@);
        let mut content = String::new();
        let mut script = String::new();
        let mut kept: Vec<SyllableInfo> = Vec::new();
        let mut i: usize = 0;
        while i < walk.len()
            invariant
                self.wf(),
                corpus == self@,
                route == places_of(walk@),
                all_places(corpus, route),
                i <= walk@.len(),
                places_of(kept@) == collapse(corpus, route.take(i as int)),
                content@ == written_form(blocks_at(corpus, places_of(kept@))),
                script@ == phonetic_form(blocks_at(corpus, places_of(kept@))),
            decreases walk@.len() - i,
        {
            let here = &walk[i];
            proof {
                assert(route[i as int] == here@);
                assert(route.take(i + 1).drop_last() =~= route.take(i as int));
            }
            let dropped = i > 0 && self.repeats(&walk[i - 1], here);
            if !dropped {
                let ghost before = places_of(kept@);
                let syllables = self.names[here.name_index].syllables();
                proof {
                    lemma_written_form_push(blocks_at(corpus, before), block_at(corpus, here@));
                    lemma_phonetic_form_push(blocks_at(corpus, before), block_at(corpus, here@));
                }
                content.append(syllables[here.syllable_index].0.as_str());
                script.append(syllables[here.syllable_index].1.as_str());
                kept.push(
                    SyllableInfo {
                        name_index: here.name_index,
                        syllable_index: here.syllable_index,
                    },
                );
                proof {
                    assert(blocks_at(corpus, places_of(kept@)) =~= blocks_at(corpus, before).push(
                        block_at(corpus, here@),
                    ));
                }
            }
            i += 1;
        }
        proof {
            assert(route.take(i as int) =~= route);
            if route.len() > 0 {
                lemma_collapse(corpus, route);
            }
        }
        (content, script, kept)
    }

    /// `out` is what the generator makes of `draws`: the name that the
    /// corpus and the draws determine, with the place of each of its
    /// blocks; nothing when the draws run out before the walk ends.
    pub open spec fn generates_verbose(
        &self,
        draws: Seq<u64>,
        out: Option<(String, String, Vec<SyllableInfo>)>,
    ) -> bool {
        match generated(self@, draws) {
            Some(name) => out matches Some(made) && made.0@ == name.written && made.1@
                == name.phonetic && places_of(made.2@) == name.places,
            None => out is None,
        }
    }

    /// `out` is what the generator makes of `draws`: the name that the
    /// corpus and the draws determine; nothing when the draws run out before
    /// the walk ends.
    pub open spec fn generates(&self, draws: Seq<u64>, out: Option<(String, String)>) -> bool {
        match generated(self@, draws) {
            Some(name) => out matches Some(made) && made.0@ == name.written && made.1@
                == name.phonetic,
            None => out is None,
        }
    }

    /// Generates a name, and tells for each of its syllables where in the
    /// corpus it comes from. The first draw picks the block to start with;
    /// each step of the walk takes two draws more, and the walk ends with a
    /// block that is the last of its name. Draws left over are not looked
    /// at; where they run out before the walk ends, nothing is generated.
    ///
    /// The name sounds, none of its blocks repeats the block before it, and
    /// from each of its blocks to the next the corpus shows the transition.
    pub fn generate_verbose(&self, draws: &Vec<u64>) -> (r: Option<
        (String, String, Vec<SyllableInfo>),
    >)
        requires
            self.wf(),
            incoming(self@).len() > 0,
        ensures
            self.generates_verbose(draws@, r),
            r matches Some(made) ==> {
                &&& made.1@.len() > 0
                &&& made.2@.len() > 0
                &&& all_places(self@, places_of(made.2@))
                &&& no_repeat(self@, places_of(made.2@))
                &&& linked(self@, places_of(made.2@))
            },
    {
        let ghost corpus = self@;
        if draws.len() == 0 {
            return None;
        }
        let first = self.first_syllable(draws[0]);
        let mut restore_flag = first.1;
        let mut syllables_vec: Vec<SyllableInfo> = Vec::new();
        syllables_vec.push(first.0);
        let mut used: usize = 1;
        proof {
            assert(places_of(syllables_vec@) =~= seq![first_place(corpus, draws@[0])]);
        }
        while restore_flag
            invariant
                self.wf(),
                corpus == self@,
                incoming(corpus).len() > 0,
                1 <= used <= draws@.len(),
                syllables_vec@.len() > 0,
                all_places(corpus, places_of(syllables_vec@)),
                linked(corpus, places_of(syllables_vec@)),
                restore_flag == goes_on(corpus, places_of(syllables_vec@).last()),
                raw_walk(corpus, draws@) == walk_from(
                    corpus,
                    places_of(syllables_vec@),
                    draws@.skip(used as int),
                ),
            decreases draws@.len() - used,
        {
            let ghost route = places_of(syllables_vec@);
            let ghost rest = draws@.skip(used as int);
            if draws.len() - used < 2 {
                return None;
            }
            let here = &syllables_vec[syllables_vec.len() - 1];
            proof {
                assert(rest.skip(2) =~= draws@.skip(used + 2));
                lemma_next_exit(corpus, here@, rest[0], rest[1]);
            }
            let next = self.query_next(here, draws[used], draws[used + 1]);
            syllables_vec.push(next.0);
            restore_flag = next.1;
            used += 2;
            proof {
                assert(places_of(syllables_vec@) =~= route.push(next.0@));
            }
        }
        proof {
            lemma_collapse_linked(corpus, places_of(syllables_vec@));
        }
        Some(self.assemble(&syllables_vec))
    }

    /// Generates a name: as written, then as spoken. The first draw picks
    /// the block to start with; each step of the walk takes two draws more.
    /// Where the draws run out before the walk ends, nothing is generated.
    pub fn generate(&self, draws: &Vec<u64>) -> (r: Option<(String, String)>)
        requires
            self.wf(),
            incoming(self@).len() > 0,
        ensures
            self.generates(draws@, r),
            r matches Some(made) ==> made.1@.len() > 0,
    {
        match self.generate_verbose(draws) {
            Some(made) => Some((made.0, made.1)),
            None => None,
        }
    }
}

/// One corpus and one sequence of draws give one name: whatever two
/// generators of the same corpus make of the same draws is the same, as
/// written and as spoken.
pub proof fn lemma_generate_is_determined(
    one: NameGenerator,
    other: NameGenerator,
    draws: Seq<u64>,
    first: Option<(String, String)>,
    second: Option<(String, String)>,
)
    requires
        one@ == other@,
        one.generates(draws, first),
        other.generates(draws, second),
    ensures
        first is Some <==> second is Some,
        first matches Some(a) ==> second matches Some(b) && a.0@ == b.0@ && a.1@ == b.1@,
{
}

/// One corpus and one sequence of draws give one name, made of the same
/// blocks.
pub proof fn lemma_generate_verbose_is_determined(
    one: NameGenerator,
    other: NameGenerator,
    draws: Seq<u64>,
    first: Option<(String, String, Vec<SyllableInfo>)>,
    second: Option<(String, String, Vec<SyllableInfo>)>,
)
    requires
        one@ == other@,
        one.generates_verbose(draws, first),
        other.generates_verbose(draws, second),
    ensures
        first is Some <==> second is Some,
        first matches Some(a) ==> second matches Some(b) && a.0@ == b.0@ && a.1@ == b.1@
            && places_of(a.2@) == places_of(b.2@),
{
}

} // verus!
