use name_engine::{Name, NameGenerator, NameGeneratorBuilder, SyllableInfo};

const HALF: u64 = 1 << 63;

fn generator_of(names: Vec<Vec<(&str, &str)>>) -> NameGenerator {
    let mut builder = NameGeneratorBuilder::new();
    for syllables in names {
        builder = builder.add_name(Name::new(syllables).unwrap());
    }
    builder.build()
}

fn places(infos: &[SyllableInfo]) -> Vec<(usize, usize)> {
    infos.iter().map(|info| (info.name_index, info.syllable_index)).collect()
}

fn two_names() -> NameGenerator {
    generator_of(vec![vec![("A", "a"), ("B", "b")], vec![("C", "b"), ("D", "c")]])
}

fn crossing_names() -> NameGenerator {
    generator_of(vec![vec![("A", "a"), ("B", "b")], vec![("C", "a"), ("D", "b")]])
}

fn repeating_name() -> NameGenerator {
    generator_of(vec![vec![("a", "x"), ("b", "x"), ("c", "y")]])
}

#[test]
fn walk_follows_the_transitions_of_the_corpus() {
    let generator = two_names();
    let (written, phonetic, provenance) = generator.generate_verbose(&vec![0, 0, 0]).unwrap();
    assert_eq!(written, "AB");
    assert_eq!(phonetic, "ab");
    assert_eq!(places(&provenance), vec![(0, 0), (0, 1)]);
}

#[test]
fn walk_starts_with_the_block_that_the_first_draw_picks() {
    let generator = two_names();
    assert_eq!(generator.generate(&vec![HALF - 1, 0, 0]).unwrap().0, "AB");
    let (written, phonetic, provenance) = generator.generate_verbose(&vec![HALF, 0, 0]).unwrap();
    assert_eq!(written, "CD");
    assert_eq!(phonetic, "bc");
    assert_eq!(places(&provenance), vec![(1, 0), (1, 1)]);
    assert_eq!(generator.generate(&vec![u64::MAX, u64::MAX, u64::MAX]).unwrap().0, "CD");
}

#[test]
fn walk_stitches_blocks_of_two_names() {
    let generator = crossing_names();
    let (written, phonetic, provenance) =
        generator.generate_verbose(&vec![0, 0, HALF]).unwrap();
    assert_eq!(written, "AD");
    assert_eq!(phonetic, "ab");
    assert_eq!(places(&provenance), vec![(0, 0), (1, 1)]);
    let (written, _, provenance) = generator.generate_verbose(&vec![HALF, 0, 0]).unwrap();
    assert_eq!(written, "CB");
    assert_eq!(places(&provenance), vec![(1, 0), (0, 1)]);
}

#[test]
fn generate_gives_what_generate_verbose_gives() {
    let generator = crossing_names();
    for draws in [vec![0, 0, HALF], vec![HALF, 7, 9], vec![u64::MAX, 1, u64::MAX]] {
        let (written, phonetic, _) = generator.generate_verbose(&draws).unwrap();
        assert_eq!(generator.generate(&draws), Some((written, phonetic)));
    }
}

#[test]
fn same_draws_give_the_same_name() {
    let generator = crossing_names();
    let draws = vec![HALF + 12345, 987654321, HALF - 1];
    let first = generator.generate(&draws);
    let second = generator.generate(&draws);
    assert_eq!(first, second);
    assert_eq!(first, Some(("CB".to_string(), "ab".to_string())));
    let rebuilt = crossing_names();
    assert_eq!(rebuilt.generate(&draws), first);
}

#[test]
fn draws_left_over_are_not_looked_at() {
    let generator = two_names();
    assert_eq!(
        generator.generate(&vec![0, 0, 0, u64::MAX, 5]),
        Some(("AB".to_string(), "ab".to_string()))
    );
}

#[test]
fn nothing_is_generated_when_the_draws_run_out() {
    let generator = two_names();
    assert_eq!(generator.generate(&vec![]), None);
    assert_eq!(generator.generate(&vec![0]), None);
    assert_eq!(generator.generate(&vec![0, 0]), None);
    assert!(generator.generate_verbose(&vec![0, 0]).is_none());
    let longer = repeating_name();
    assert_eq!(longer.generate(&vec![0, 0, 0]), None);
    assert_eq!(longer.generate(&vec![0, 0, 0, u64::MAX]), None);
}

#[test]
fn block_that_repeats_its_neighbour_is_dropped() {
    // the walk goes a, b, b, c: the second b is written like the first and
    // ends on the same phonetic character
    let generator = repeating_name();
    let draws = vec![0, 0, 0, 0, 0, u64::MAX, 0];
    let (written, phonetic, provenance) = generator.generate_verbose(&draws).unwrap();
    assert_eq!(written, "abc");
    assert_eq!(phonetic, "xxy");
    assert_eq!(places(&provenance), vec![(0, 0), (0, 1), (0, 2)]);
}

#[test]
fn several_repeats_in_a_row_leave_one_block() {
    let generator = repeating_name();
    let draws = vec![0, 0, 0, 0, 0, 0, 0, 0, 0, u64::MAX, 0];
    let (written, phonetic, provenance) = generator.generate_verbose(&draws).unwrap();
    assert_eq!(written, "abc");
    assert_eq!(phonetic, "xxy");
    assert_eq!(places(&provenance), vec![(0, 0), (0, 1), (0, 2)]);
}

#[test]
fn walk_without_repeat_is_kept_whole() {
    let generator = repeating_name();
    let (written, phonetic, provenance) =
        generator.generate_verbose(&vec![0, 0, 0, u64::MAX, 0]).unwrap();
    assert_eq!(written, "abc");
    assert_eq!(phonetic, "xxy");
    assert_eq!(places(&provenance), vec![(0, 0), (0, 1), (0, 2)]);
    let (written, _, provenance) = generator.generate_verbose(&vec![0, u64::MAX, 0]).unwrap();
    assert_eq!(written, "ac");
    assert_eq!(places(&provenance), vec![(0, 0), (0, 2)]);
}

#[test]
fn blocks_written_alike_with_other_endings_are_kept() {
    let generator = generator_of(vec![vec![("s", "a"), ("t", "ab"), ("t", "bc")]]);
    let (written, phonetic, provenance) =
        generator.generate_verbose(&vec![0, 0, 0, 0, 0]).unwrap();
    assert_eq!(written, "stt");
    assert_eq!(phonetic, "aabbc");
    assert_eq!(places(&provenance), vec![(0, 0), (0, 1), (0, 2)]);
}

#[test]
fn assemble_drops_only_neighbours() {
    let generator = repeating_name();
    let walk = vec![
        SyllableInfo { name_index: 0, syllable_index: 1 },
        SyllableInfo { name_index: 0, syllable_index: 0 },
        SyllableInfo { name_index: 0, syllable_index: 1 },
        SyllableInfo { name_index: 0, syllable_index: 1 },
        SyllableInfo { name_index: 0, syllable_index: 2 },
        SyllableInfo { name_index: 0, syllable_index: 2 },
        SyllableInfo { name_index: 0, syllable_index: 1 },
    ];
    let (written, phonetic, provenance) = generator.assemble(&walk);
    assert_eq!(written, "babcb");
    assert_eq!(phonetic, "xxxyx");
    assert_eq!(places(&provenance), vec![(0, 1), (0, 0), (0, 1), (0, 2), (0, 1)]);
}

#[test]
fn assemble_compares_written_form_and_last_character() {
    // "b" of the first name and "b" of the second are written alike and end
    // on the same character, though they sound different
    let generator = generator_of(vec![
        vec![("a", "x"), ("b", "xz")],
        vec![("a", "y"), ("b", "yz")],
    ]);
    let walk = vec![
        SyllableInfo { name_index: 0, syllable_index: 0 },
        SyllableInfo { name_index: 1, syllable_index: 0 },
        SyllableInfo { name_index: 0, syllable_index: 1 },
        SyllableInfo { name_index: 1, syllable_index: 1 },
    ];
    let (written, phonetic, provenance) = generator.assemble(&walk);
    assert_eq!(written, "aab");
    assert_eq!(phonetic, "xyxz");
    assert_eq!(places(&provenance), vec![(0, 0), (1, 0), (0, 1)]);
}

#[test]
fn assemble_of_nothing_is_empty() {
    let generator = two_names();
    let (written, phonetic, provenance) = generator.assemble(&vec![]);
    assert_eq!(written, "");
    assert_eq!(phonetic, "");
    assert!(provenance.is_empty());
}

#[test]
fn name_of_one_block_is_generated_alone() {
    let generator = generator_of(vec![vec![("A", "a")]]);
    assert!(generator.can_generate());
    let (written, phonetic, provenance) = generator.generate_verbose(&vec![123]).unwrap();
    assert_eq!(written, "A");
    assert_eq!(phonetic, "a");
    assert_eq!(places(&provenance), vec![(0, 0)]);
}

#[test]
fn names_of_one_block_start_walks_beside_longer_names() {
    let generator = generator_of(vec![vec![("A", "a")], vec![("B", "b"), ("C", "c")]]);
    assert_eq!(generator.generate(&vec![0]), Some(("A".to_string(), "a".to_string())));
    assert_eq!(generator.generate(&vec![HALF]), None);
    assert_eq!(
        generator.generate(&vec![HALF, 0, 0]),
        Some(("BC".to_string(), "bc".to_string()))
    );
}

#[test]
fn names_without_blocks_start_nothing() {
    let generator = generator_of(vec![vec![], vec![("A", "a"), ("B", "b")], vec![]]);
    assert!(generator.can_generate());
    for first in [0, HALF, u64::MAX] {
        let (written, _, provenance) = generator.generate_verbose(&vec![first, 0, 0]).unwrap();
        assert_eq!(written, "AB");
        assert_eq!(places(&provenance), vec![(1, 0), (1, 1)]);
    }
}

#[test]
fn corpus_without_blocks_cannot_generate() {
    assert!(!NameGeneratorBuilder::new().build().can_generate());
    assert!(!NameGeneratorBuilder::default().build().can_generate());
    assert!(!generator_of(vec![vec![], vec![]]).can_generate());
}

#[test]
fn empty_written_forms_spell_nothing() {
    let generator = generator_of(vec![vec![("", "a"), ("", "b")]]);
    let (written, phonetic, provenance) = generator.generate_verbose(&vec![0, 0, 0]).unwrap();
    assert_eq!(written, "");
    assert_eq!(phonetic, "ab");
    assert_eq!(places(&provenance), vec![(0, 0), (0, 1)]);
}

#[test]
fn first_syllable_picks_among_the_starting_blocks() {
    let generator = generator_of(vec![
        vec![("A", "a"), ("B", "b")],
        vec![("C", "c")],
        vec![("D", "d"), ("E", "e")],
    ]);
    let third = u64::MAX / 3;
    let (first, more) = generator.first_syllable(0);
    assert_eq!((first.name_index, first.syllable_index, more), (0, 0, true));
    let (first, more) = generator.first_syllable(third);
    assert_eq!((first.name_index, first.syllable_index, more), (0, 0, true));
    let (first, more) = generator.first_syllable(third + 1);
    assert_eq!((first.name_index, first.syllable_index, more), (1, 0, false));
    let (first, more) = generator.first_syllable(u64::MAX);
    assert_eq!((first.name_index, first.syllable_index, more), (2, 0, true));
}

#[test]
fn query_next_picks_follower_then_block() {
    // behind 'a' the corpus shows 'b' twice and 'c' once
    let generator = generator_of(vec![
        vec![("A", "a"), ("B", "b"), ("X", "x")],
        vec![("C", "a"), ("D", "b")],
        vec![("E", "a"), ("F", "c")],
    ]);
    let start = SyllableInfo { name_index: 2, syllable_index: 0 };
    let two_thirds = u64::MAX / 3 * 2;
    let (next, more) = generator.query_next(&start, 0, 0);
    assert_eq!((next.name_index, next.syllable_index, more), (0, 1, true));
    let (next, more) = generator.query_next(&start, two_thirds, HALF - 1);
    assert_eq!((next.name_index, next.syllable_index, more), (0, 1, true));
    let (next, more) = generator.query_next(&start, two_thirds, HALF);
    assert_eq!((next.name_index, next.syllable_index, more), (1, 1, false));
    let (next, more) = generator.query_next(&start, two_thirds + 2, 0);
    assert_eq!((next.name_index, next.syllable_index, more), (2, 1, false));
    let (next, more) = generator.query_next(&start, u64::MAX, u64::MAX);
    assert_eq!((next.name_index, next.syllable_index, more), (2, 1, false));
}

#[test]
fn has_next_tells_blocks_with_a_block_behind() {
    let generator = generator_of(vec![vec![("A", "a"), ("B", "b"), ("X", "x")], vec![("C", "c")]]);
    assert!(generator.has_next(&SyllableInfo { name_index: 0, syllable_index: 0 }));
    assert!(generator.has_next(&SyllableInfo { name_index: 0, syllable_index: 1 }));
    assert!(!generator.has_next(&SyllableInfo { name_index: 0, syllable_index: 2 }));
    assert!(!generator.has_next(&SyllableInfo { name_index: 0, syllable_index: 3 }));
    assert!(!generator.has_next(&SyllableInfo { name_index: 1, syllable_index: 0 }));
    assert!(!generator.has_next(&SyllableInfo { name_index: 2, syllable_index: 0 }));
    assert!(!generator.has_next(&SyllableInfo { name_index: usize::MAX, syllable_index: usize::MAX }));
}

#[test]
fn names_gives_the_corpus_back() {
    let generator = two_names();
    let names = generator.names();
    assert_eq!(names.len(), 2);
    assert_eq!(names[0].content(), "AB");
    assert_eq!(names[1].content(), "CD");
    assert_eq!(names[1].script(), "bc");
}

#[test]
fn bulk_add_names_keeps_the_order() {
    let first = Name::new(vec![("A", "a"), ("B", "b")]).unwrap();
    let more = vec![
        Name::new(vec![("C", "a"), ("D", "b")]).unwrap(),
        Name::new(vec![("E", "e")]).unwrap(),
    ];
    let generator = NameGeneratorBuilder::new().add_name(first).bulk_add_names(more).build();
    let names = generator.names();
    assert_eq!(names.len(), 3);
    assert_eq!(names[0].content(), "AB");
    assert_eq!(names[1].content(), "CD");
    assert_eq!(names[2].content(), "E");
    let (written, _, provenance) = generator.generate_verbose(&vec![0, 0, HALF]).unwrap();
    assert_eq!(written, "AD");
    assert_eq!(places(&provenance), vec![(0, 0), (1, 1)]);
}
