//! Names of the corpus: each a sequence of syllables, and each syllable a
//! written form together with a phonetic form.

use vstd::prelude::*;

verus! {

/// A syllable as the contracts see it: the written form, then the phonetic
/// form.
pub type Block = (Seq<char>, Seq<char>);

/// Why a name could not be built.
#[derive(Debug)]
pub enum NameError {
    /// A syllable came without a phonetic form.
    EmptyString,
}

impl NameError {
    /// The error in words.
    pub fn message(&self) -> (r: String)
        ensures
            r@ == "empty string detected"@,
    {
        match self {
            NameError::EmptyString => "empty string detected".to_owned(),
        }
    }
}

/// The blocks that a vector of syllables stands for.
pub open spec fn blocks_of(v: Seq<(String, String)>) -> Seq<Block> {
    Seq::new(v.len(), |i: int| (v[i].0@, v[i].1@))
}

/// The blocks that a vector of borrowed syllables stands for.
pub open spec fn blocks_of_strs(v: Seq<(&str, &str)>) -> Seq<Block> {
    Seq::new(v.len(), |i: int| (v[i].0@, v[i].1@))
}

/// Every block has a phonetic form.
pub open spec fn all_voiced(blocks: Seq<Block>) -> bool {
    forall|i: int| 0 <= i < blocks.len() ==> (#[trigger] blocks[i]).1.len() > 0
}

/// The transitions inside a name: for each block but the last, the last
/// phonetic character of the block and the first of the block behind it.
pub open spec fn transition_pairs(blocks: Seq<Block>) -> Seq<(char, char)> {
    Seq::new(
        if blocks.len() > 0 {
            (blocks.len() - 1) as nat
        } else {
            0
        },
        |i: int| (blocks[i].1.last(), blocks[i + 1].1.first()),
    )
}

/// The written forms of the blocks, one after the other.
pub open spec fn written_parts(blocks: Seq<Block>) -> Seq<Seq<char>> {
    blocks.map_values(|b: Block| b.0)
}

/// The phonetic forms of the blocks, one after the other.
pub open spec fn phonetic_parts(blocks: Seq<Block>) -> Seq<Seq<char>> {
    blocks.map_values(|b: Block| b.1)
}

/// What the blocks spell: their written forms joined.
pub open spec fn written_form(blocks: Seq<Block>) -> Seq<char> {
    written_parts(blocks).flatten()
}

/// How the blocks sound: their phonetic forms joined.
pub open spec fn phonetic_form(blocks: Seq<Block>) -> Seq<char> {
    phonetic_parts(blocks).flatten()
}

/// Spelling block by block: a block more adds its written form at the end.
pub proof fn lemma_written_form_push(blocks: Seq<Block>, b: Block)
    ensures
        written_form(blocks.push(b)) == written_form(blocks) + b.0,
{
    assert(written_parts(blocks.push(b)) =~= written_parts(blocks).push(b.0));
    written_parts(blocks).lemma_flatten_push(b.0);
}

/// Sounding block by block: a block more adds its phonetic form at the end.
pub proof fn lemma_phonetic_form_push(blocks: Seq<Block>, b: Block)
    ensures
        phonetic_form(blocks.push(b)) == phonetic_form(blocks) + b.1,
{
    assert(phonetic_parts(blocks.push(b)) =~= phonetic_parts(blocks).push(b.1));
    phonetic_parts(blocks).lemma_flatten_push(b.1);
}

/// A name: its syllables in order, each with a phonetic form that is not
/// empty.
///
/// `Name::new(vec![("bed", "ˈbɛd"), ("ford", "fərd")])` is Bedford.
#[derive(Debug)]
pub struct Name {
    syllables: Vec<(String, String)>,
}

impl View for Name {
    type V = Seq<Block>;

    /// The blocks of the name, first to last.
    closed spec fn view(&self) -> Seq<Block> {
        blocks_of(self.syllables@)
    }
}

impl Name {
    /// Every syllable of the name has a phonetic form.
    pub open spec fn wf(&self) -> bool {
        all_voiced(self@)
    }

    /// The name made of `syllables`, each a written form and a phonetic form.
    /// It is refused when a phonetic form is empty, and only then.
    pub fn new(syllables: Vec<(&str, &str)>) -> (r: Result<Self, NameError>)
        ensures
            r is Ok <==> all_voiced(blocks_of_strs(syllables@)),
            r matches Ok(name) ==> name@ == blocks_of_strs(syllables@) && name.wf(),
            r matches Err(e) ==> e == NameError::EmptyString,
    {
        let mut owned: Vec<(String, String)> = Vec::new();
        let mut i: usize = 0;
        while i < syllables.len()
            invariant
                i <= syllables@.len(),
                owned@.len() == i,
                forall|j: int|
                    0 <= j < i ==> (#[trigger] owned@[j]).0@ == syllables@[j].0@ && owned@[j].1@
                        == syllables@[j].1@,
            decreases syllables@.len() - i,
        {
            let pair = &syllables[i];
            owned.push((pair.0.to_owned(), pair.1.to_owned()));
            i += 1;
        }
        proof {
            assert(blocks_of(owned@) =~= blocks_of_strs(syllables@));
        }
        Self::from_string(owned)
    }

    /// The name made of `syllables`, each a written form and a phonetic form.
    /// It is refused when a phonetic form is empty, and only then.
    pub fn from_string(syllables: Vec<(String, String)>) -> (r: Result<Self, NameError>)
        ensures
            r is Ok <==> all_voiced(blocks_of(syllables@)),
            r matches Ok(name) ==> name@ == blocks_of(syllables@) && name.wf(),
            r matches Err(e) ==> e == NameError::EmptyString,
    {
        let mut i: usize = 0;
        while i < syllables.len()
            invariant
                i <= syllables@.len(),
                forall|j: int| 0 <= j < i ==> syllables@[j].1@.len() > 0,
            decreases syllables@.len() - i,
        {
            if syllables[i].1.as_str().is_empty() {
                proof {
                    assert(blocks_of(syllables@)[i as int].1.len() == 0);
                }
                return Err(NameError::EmptyString);
            }
            i += 1;
        }
        Ok(Name { syllables })
    }

    /// How many syllables the name has.
    pub fn len(&self) -> (n: usize)
        ensures
            n == self@.len(),
    {
        self.syllables.len()
    }

    /// The transitions inside the name, first to last.
    pub fn connection_pairs(&self) -> (pairs: Vec<(char, char)>)
        requires
            self.wf(),
        ensures
            pairs@ == transition_pairs(self@),
    {
        let mut pairs: Vec<(char, char)> = Vec::new();
        let n = self.syllables.len();
        if n == 0 {
            return pairs;
        }
        let mut i: usize = 0;
        while i < n - 1
            invariant
                n == self@.len(),
                n > 0,
                self.wf(),
                i <= n - 1,
                pairs@.len() == i,
                forall|j: int| 0 <= j < i ==> pairs@[j] == transition_pairs(self@)[j],
            decreases n - i,
        {
            let a = self.last_char_of_syllable(i);
            let b = self.first_char_of_syllable(i + 1);
            pairs.push((a, b));
            i += 1;
        }
        pairs
    }

    /// The last phonetic character of syllable `i`.
    pub fn last_char_of_syllable(&self, i: usize) -> (c: char)
        requires
            self.wf(),
            i < self@.len(),
        ensures
            c == self@[i as int].1.last(),
    {
        let phonetic = self.syllables[i].1.as_str();
        let n = phonetic.unicode_len();
        proof {
            assert(self@[i as int].1 == phonetic@);
        }
        phonetic.get_char(n - 1)
    }

    /// The first phonetic character of syllable `i`.
    pub fn first_char_of_syllable(&self, i: usize) -> (c: char)
        requires
            self.wf(),
            i < self@.len(),
        ensures
            c == self@[i as int].1.first(),
    {
        let phonetic = self.syllables[i].1.as_str();
        proof {
            assert(self@[i as int].1 == phonetic@);
        }
        phonetic.get_char(0)
    }

    /// The name as written: the written forms of its syllables joined.
    pub fn content(&self) -> (r: String)
        ensures
            r@ == written_form(self@),
    {
        let mut out = String::new();
        let mut i: usize = 0;
        while i < self.syllables.len()
            invariant
                i <= self@.len(),
                self@.len() == self.syllables@.len(),
                out@ == written_form(self@.take(i as int)),
            decreases self@.len() - i,
        {
            proof {
                lemma_written_form_push(self@.take(i as int), self@[i as int]);
                assert(self@.take(i + 1) =~= self@.take(i as int).push(self@[i as int]));
            }
            out.append(self.syllables[i].0.as_str());
            i += 1;
        }
        proof {
            assert(self@.take(i as int) =~= self@);
        }
        out
    }

    /// The name as spoken: the phonetic forms of its syllables joined.
    pub fn script(&self) -> (r: String)
        ensures
            r@ == phonetic_form(self@),
    {
        let mut out = String::new();
        let mut i: usize = 0;
        while i < self.syllables.len()
            invariant
                i <= self@.len(),
                self@.len() == self.syllables@.len(),
                out@ == phonetic_form(self@.take(i as int)),
            decreases self@.len() - i,
        {
            proof {
                lemma_phonetic_form_push(self@.take(i as int), self@[i as int]);
                assert(self@.take(i + 1) =~= self@.take(i as int).push(self@[i as int]));
            }
            out.append(self.syllables[i].1.as_str());
            i += 1;
        }
        proof {
            assert(self@.take(i as int) =~= self@);
        }
        out
    }

    /// The syllables of the name, each a written form and a phonetic form.
    pub fn syllables(&self) -> (r: &Vec<(String, String)>)
        ensures
            blocks_of(r@) == self@,
    {
        &self.syllables
    }
}

} // verus!
