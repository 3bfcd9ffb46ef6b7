use std::collections::HashMap;

use spyglass::normalize::{chars_of, sentences_of, string_of};
use spyglass::record::{sort_leaves, sort_matches};
use spyglass::{
    CharLocation, EdgeMatchKind, Leaf, Match, MatcherConfig, StoredDocument, SuffixTrie, Text,
    WorkingMatchesSet,
};

fn positions(matches: &Vec<Match>) -> Vec<(usize, usize)> {
    matches.iter().map(|m| (m.text_index, m.index_in_str)).collect()
}

fn same_fields(a: &Vec<Match>, b: &Vec<Match>) -> bool {
    a.len() == b.len()
        && a.iter().zip(b.iter()).all(|(x, y)| {
            x.text_index == y.text_index
                && x.index_in_str == y.index_in_str
                && x.start_line == y.start_line
                && x.end_line == y.end_line
                && x.length == y.length
                && x.errors == y.errors
        })
}

fn chars(s: &str) -> Vec<char> {
    s.chars().collect()
}

#[test]
fn aba_has_three_leaves() {
    let trie = SuffixTrie::new("aba");
    // the root, "a" with "ba" below it, and "ba"
    assert_eq!(trie.len(), 4);
    let leaves = trie.get_all_leaf_descendants(0);
    let found: Vec<usize> = leaves.iter().map(|l| l.index_in_str).collect();
    assert_eq!(found, vec![0, 1, 2]);
}

#[test]
fn registering_again_adds_matches_of_new_document_only() {
    let mut trie = SuffixTrie::empty();
    trie.add_sentences_from_text("first", "aba");
    assert_eq!(positions(&trie.find_exact("a", false)), vec![(0, 0), (0, 2)]);
    assert_eq!(positions(&trie.find_exact("ab", false)), vec![(0, 0)]);
    let nodes = trie.len();
    trie.add_sentences_from_text("second", "aba");
    assert_eq!(trie.len(), nodes);
    assert_eq!(positions(&trie.find_exact("ab", false)), vec![(0, 0), (1, 0)]);
    assert_eq!(positions(&trie.find_exact("a", false)), vec![(0, 0), (0, 2), (1, 0), (1, 2)]);
    assert_eq!(positions(&trie.find_exact("ab", false)), vec![(0, 0), (1, 0)]);
}

#[test]
fn zero_errors_finds_what_exact_search_finds() {
    let mut trie = SuffixTrie::empty();
    trie.add_sentences_from_text("one", "the cat sat on the mat\nthe end");
    trie.add_sentences_from_text("two", "that<<STOP>>the thesis");
    for pattern in ["the", "t", "at", "e", "thesis", "zebra", "", " "] {
        let exact = trie.find_exact(pattern, false);
        let within_zero = trie.find_edit_distance(pattern, 0);
        assert!(same_fields(&exact, &within_zero), "pattern {:?}", pattern);
    }
    assert_eq!(
        positions(&trie.find_exact("the", false)),
        vec![(0, 0), (0, 15), (0, 23), (1, 4), (1, 8)]
    );
}

#[test]
fn line_locator_boundaries() {
    let text = Text { line_start_indices: vec![0, 10, 20, 30], ..Text::new("lines", 0) };
    assert_eq!(text.get_line_of_character(9), 0);
    assert_eq!(text.get_line_of_character(10), 1);
    assert_eq!(text.get_line_of_character(29), 2);
    assert_eq!(text.get_line_of_character(30), 3);
    assert_eq!(text.get_line_of_character(31), 3);
    assert_eq!(text.get_line_of_character(1000), 3);
    assert_eq!(text.get_line_of_character(usize::MAX), 3);
    assert_eq!(text.get_lines_of_substring(9, 1), (0, 1));
    assert_eq!(text.get_lines_of_substring(5, 30), (0, 3));
    assert!(text.char_before_line(9, 1));
    assert!(!text.char_before_line(10, 1));
    assert!(text.char_before_line(1000, 4));
}

#[test]
fn line_locator_without_lines() {
    let text = Text { line_start_indices: vec![], ..Text::new("none", 0) };
    assert_eq!(text.get_line_of_character(0), 0);
    assert_eq!(text.get_line_of_character(17), 0);
    let text = Text { line_start_indices: vec![5, 8], ..Text::new("late", 0) };
    assert_eq!(text.get_line_of_character(3), 0);
    assert_eq!(text.get_line_of_character(5), 0);
    assert_eq!(text.get_line_of_character(8), 1);
}

#[test]
fn fewer_errors_sort_first() {
    let clean = Match {
        text_index: 9,
        index_in_str: 900,
        start_line: 7,
        end_line: 8,
        length: 50,
        errors: 0,
    };
    let faulty =
        Match { text_index: 0, index_in_str: 0, start_line: 0, end_line: 0, length: 1, errors: 1 };
    assert!(clean < faulty);
    assert!(!(faulty < clean));
    assert!(clean.sorts_before(&faulty));
    assert!(clean != faulty);
    let sorted = sort_matches(vec![faulty, clean]);
    assert_eq!(sorted[0].errors, 0);
    assert_eq!(sorted[1].errors, 1);
    assert_eq!(clean.sort_key(), (0, 50, 9, 900));
}

#[test]
fn matches_are_ordered_by_errors_length_document_position() {
    let base =
        Match { text_index: 1, index_in_str: 5, start_line: 0, end_line: 0, length: 3, errors: 1 };
    let unsorted = vec![
        Match { index_in_str: 6, ..base },
        Match { text_index: 2, index_in_str: 0, ..base },
        Match { length: 4, index_in_str: 0, text_index: 0, ..base },
        Match { errors: 0, length: 9, text_index: 7, index_in_str: 70, ..base },
        base,
    ];
    let keys: Vec<(usize, usize, usize, usize)> =
        sort_matches(unsorted).iter().map(|m| m.sort_key()).collect();
    assert_eq!(keys, vec![(0, 9, 7, 70), (1, 3, 1, 5), (1, 3, 1, 6), (1, 3, 2, 0), (1, 4, 0, 0)]);
    // equality goes by the same key, whatever the lines
    assert_eq!(base, Match { start_line: 4, end_line: 9, ..base });
}

#[test]
fn leaves_are_ordered_by_document_then_position() {
    let sorted = sort_leaves(vec![Leaf::new(3, 1), Leaf::new(9, 0), Leaf::new(0, 1), Leaf::new(1, 0)]);
    let pairs: Vec<(usize, usize)> = sorted.iter().map(|l| (l.text_index, l.index_in_str)).collect();
    assert_eq!(pairs, vec![(0, 1), (0, 9), (1, 0), (1, 3)]);
    assert!(Leaf::new(9, 0).sorts_before(&Leaf::new(0, 1)));
}

#[test]
fn stored_documents_give_the_same_answers() {
    let mut trie = SuffixTrie::empty();
    trie.add_sentences_from_text("poem", "Ælfred sings. All fled…<<STOP>>he sang\nagain");
    trie.add_sentences_from_text("note", "alfred");
    let stored = trie.documents();
    assert_eq!(stored.len(), 2);
    assert_eq!(stored[0].name, "poem");
    let first: Vec<String> = stored[0].sentences.iter().map(|s| s.iter().collect()).collect();
    assert_eq!(first, vec!["AElfred sings. All fled...".to_string(), "he sang\nagain".to_string()]);
    let restored = SuffixTrie::from_documents(&stored);
    let again = trie.rebuilt();
    assert_eq!(restored.get_text_names(), trie.get_text_names());
    for pattern in ["l", "fled", "sang", "A", "...", "again"] {
        assert!(same_fields(&trie.find_exact(pattern, false), &restored.find_exact(pattern, false)));
        assert!(same_fields(&trie.find_exact(pattern, true), &again.find_exact(pattern, true)));
        for errors in 0..3 {
            assert!(same_fields(
                &trie.find_edit_distance(pattern, errors),
                &restored.find_edit_distance(pattern, errors)
            ));
        }
    }
}

#[test]
fn index_from_plain_documents() {
    let docs = vec![
        StoredDocument { name: "a".to_string(), sentences: vec![chars("abc"), chars("bcd")] },
        StoredDocument { name: "b".to_string(), sentences: vec![] },
        StoredDocument { name: "c".to_string(), sentences: vec![chars(""), chars("cab")] },
    ];
    let trie = SuffixTrie::from_documents(&docs);
    assert_eq!(trie.get_text_names(), vec!["a", "b", "c"]);
    assert_eq!(positions(&trie.find_exact("bc", false)), vec![(0, 1), (0, 3)]);
    assert_eq!(positions(&trie.find_exact("cb", false)), vec![]);
    assert_eq!(positions(&trie.find_exact("c", false)), vec![(0, 2), (0, 4), (2, 0)]);
    assert_eq!(trie.get_sentences(2), vec![chars(""), chars("cab")]);
    assert_eq!(trie.get_sentences(1), Vec::<Vec<char>>::new());
}

#[test]
fn empty_pattern_matches_nothing() {
    let trie = SuffixTrie::new("aba");
    assert!(trie.find_exact("", false).is_empty());
    assert!(trie.find_exact("", true).is_empty());
    assert!(trie.find_edit_distance("", 0).is_empty());
    assert!(trie.find_edit_distance("", 2).is_empty());
    assert!(trie.find_edit_distance_ignore("", 1, HashMap::new(), true).is_empty());
    let config =
        MatcherConfig { ignored_characters: HashMap::new(), max_errors: 2, case_insensitive: false };
    let mut matcher = spyglass::SuffixTrieEditMatcher::new(config);
    assert!(matcher.find_exact(&trie, &Vec::new()).is_empty());
    assert!(matcher.find_edit_distance_ignore(&trie, &Vec::new()).is_empty());
    assert_eq!(positions(&matcher.find_exact(&trie, &chars("a"))), vec![(0, 0), (0, 2)]);
}

#[test]
fn nothing_is_found_in_an_empty_index() {
    let trie = SuffixTrie::empty();
    assert_eq!(trie.len(), 1);
    assert!(trie.find_exact("a", false).is_empty());
    assert!(trie.find_exact("", false).is_empty());
    assert!(trie.find_edit_distance("abc", 5).is_empty());
    assert!(trie.get_text_names().is_empty());
    let trie = SuffixTrie::new("");
    assert_eq!(trie.len(), 1);
    assert_eq!(trie.get_text_names(), vec!["first text"]);
    assert!(trie.find_exact("", false).is_empty());
    assert!(trie.find_edit_distance("a", 1).is_empty());
}

#[test]
fn pattern_that_does_not_occur() {
    let trie = SuffixTrie::new("abcabc");
    assert!(trie.find_exact("abd", false).is_empty());
    assert!(trie.find_exact("abcabca", false).is_empty());
    assert!(trie.find_edit_distance("xyzxyz", 2).is_empty());
}

#[test]
fn sentences_split_at_the_separator() {
    let split = |s: &str| -> Vec<String> {
        sentences_of(&chars(s)).iter().map(|v| v.iter().collect()).collect()
    };
    assert_eq!(split(""), vec![""]);
    assert_eq!(split("abc"), vec!["abc"]);
    assert_eq!(split("a<<STOP>>b"), vec!["a", "b"]);
    assert_eq!(split("<<STOP>>"), vec!["", ""]);
    assert_eq!(split("a<<STOP>><<STOP>>b<<STOP>>"), vec!["a", "", "b", ""]);
    assert_eq!(split("<<<STOP>>>"), vec!["<", ">"]);
    assert_eq!(split("<<STOP>"), vec!["<<STOP>"]);
    assert_eq!(split("<<stop>>"), vec!["<<stop>>"]);
}

#[test]
fn matches_do_not_reach_across_sentences() {
    let mut trie = SuffixTrie::empty();
    trie.add_sentences_from_text("cut", "abc<<STOP>>def");
    assert_eq!(trie.get_sentences(0), vec![chars("abc"), chars("def")]);
    assert_eq!(positions(&trie.find_exact("bc", false)), vec![(0, 1)]);
    assert_eq!(positions(&trie.find_exact("de", false)), vec![(0, 3)]);
    assert!(trie.find_exact("cd", false).is_empty());
    assert!(trie.find_exact("abcdef", false).is_empty());
    assert!(trie.find_exact("<<STOP>>", false).is_empty());
}

#[test]
fn text_is_transliterated_before_it_is_indexed() {
    let trie = SuffixTrie::new("xÆlfred…");
    assert_eq!(trie.get_sentences(0), vec![chars("xAElfred...")]);
    assert_eq!(positions(&trie.find_exact("AElf", false)), vec![(0, 1)]);
    assert_eq!(positions(&trie.find_exact("Ælf", false)), vec![(0, 1)]);
    assert_eq!(positions(&trie.find_exact("d…", false)), vec![(0, 7)]);
    assert_eq!(positions(&trie.find_edit_distance("Ælfrid", 1)), vec![(0, 1)]);
    let matches = trie.find_exact("Ælfred", false);
    assert_eq!(matches[0].length, 7);
}

#[test]
fn ignored_characters_match_anything() {
    let mut ignored = HashMap::new();
    ignored.insert('-', true);
    let config =
        MatcherConfig { ignored_characters: ignored.clone(), max_errors: 0, case_insensitive: false };
    assert!(config.chars_match(&'a', &'a'));
    assert!(config.chars_match(&'-', &'a'));
    assert!(config.chars_match(&'a', &'-'));
    assert!(!config.chars_match(&'a', &'b'));
    assert!(!config.chars_match(&'a', &'A'));
    let exact = MatcherConfig::exact();
    assert!(!exact.chars_match(&'-', &'a'));
    assert_eq!(exact.max_errors, 0);

    let trie = SuffixTrie::new("co-op coop co op");
    let found = trie.find_edit_distance_ignore("co-op", 0, ignored.clone(), false);
    assert_eq!(positions(&found), vec![(0, 0), (0, 11)]);
    let found = trie.find_edit_distance_ignore("co op", 0, ignored, false);
    assert_eq!(positions(&found), vec![(0, 0), (0, 11)]);
    let found = trie.find_edit_distance_ignore("co op", 0, HashMap::new(), false);
    assert_eq!(positions(&found), vec![(0, 11)]);
}

#[test]
fn case_is_folded_for_ascii_letters_only() {
    let config =
        MatcherConfig { ignored_characters: HashMap::new(), max_errors: 0, case_insensitive: true };
    assert!(config.chars_match(&'a', &'A'));
    assert!(config.chars_match(&'Z', &'z'));
    assert!(!config.chars_match(&'a', &'b'));
    assert!(!config.chars_match(&'@', &'`'));
    assert!(!config.chars_match(&'[', &'{'));
    assert!(!config.chars_match(&'é', &'É'));
    assert_eq!(spyglass::config::to_ascii_lower('Q'), 'q');
    assert_eq!(spyglass::config::to_ascii_lower('q'), 'q');
    assert_eq!(spyglass::config::to_ascii_lower('1'), '1');
}

#[test]
fn ignored_characters_and_case_work_together() {
    let mut ignored = HashMap::new();
    ignored.insert('\'', true);
    let trie = SuffixTrie::new("Wrack'd wrackEd");
    let found = trie.find_edit_distance_ignore("WRACKED", 0, ignored, true);
    assert_eq!(positions(&found), vec![(0, 0), (0, 8)]);
}

#[test]
fn errors_and_lengths_of_approximate_matches() {
    let trie = SuffixTrie::new("abcd");
    let found = trie.find_edit_distance("abc", 1);
    let got: Vec<(usize, usize, usize)> =
        found.iter().map(|m| (m.errors, m.length, m.index_in_str)).collect();
    assert_eq!(got, vec![(0, 3, 0), (1, 2, 0), (1, 2, 1)]);

    // a character left out at the end of the pattern, at the end of the text
    let trie = SuffixTrie::new("abc");
    let found = trie.find_edit_distance("abcd", 1);
    let got: Vec<(usize, usize, usize)> =
        found.iter().map(|m| (m.errors, m.length, m.index_in_str)).collect();
    assert_eq!(got, vec![(1, 3, 0)]);

    // the budget is a bound, not a target
    let trie = SuffixTrie::new("kitten sitting");
    assert!(trie.find_edit_distance("mitten", 0).is_empty());
    let found = trie.find_edit_distance("mitten", 1);
    let got: Vec<(usize, usize, usize)> =
        found.iter().map(|m| (m.errors, m.length, m.index_in_str)).collect();
    assert_eq!(got, vec![(1, 5, 1), (1, 6, 0)]);
}

#[test]
fn matches_carry_their_lines() {
    let trie = SuffixTrie::new("one\ntwo\nthree\n");
    let found = trie.find_exact("two", false);
    assert_eq!(found.len(), 1);
    assert_eq!((found[0].start_line, found[0].end_line), (1, 1));
    let found = trie.find_exact("o\nth", false);
    assert_eq!((found[0].index_in_str, found[0].start_line, found[0].end_line), (6, 1, 2));
    let found = trie.find_exact("three\n", false);
    assert_eq!((found[0].start_line, found[0].end_line), (2, 3));
}

#[test]
fn strings_around_a_match() {
    let mut trie = SuffixTrie::empty();
    trie.add_sentences_from_text("other", "padding\n");
    trie.add_sentences_from_text("lines", "zero\none\ntwo hello two\nthree\nfour\nfive");
    let found = trie.find_exact("hello", false);
    assert_eq!(found.len(), 1);
    let m = found[0];
    assert_eq!((m.text_index, m.index_in_str, m.start_line, m.end_line), (1, 13, 2, 2));
    assert!(trie.is_match_of(&m));

    let (before, matching, after) = trie.get_strings_of_match(&m, 0);
    assert_eq!((before.as_str(), matching.as_str(), after.as_str()), ("two ", "hello", " two\n"));
    let (before, matching, after) = trie.get_strings_of_match(&m, 1);
    assert_eq!(
        (before.as_str(), matching.as_str(), after.as_str()),
        ("one\ntwo ", "hello", " two\nthree\n")
    );
    let (before, _, after) = trie.get_strings_of_match(&m, 2);
    assert_eq!((before.as_str(), after.as_str()), ("zero\none\ntwo ", " two\nthree\nfour\n"));
    let (before, _, after) = trie.get_strings_of_match(&m, usize::MAX);
    assert_eq!((before.as_str(), after.as_str()), ("zero\none\ntwo ", " two\nthree\nfour\nfive"));

    assert!(!trie.is_match_of(&Match { text_index: 2, ..m }));
    assert!(!trie.is_match_of(&Match { length: 500, ..m }));
    assert!(!trie.is_match_of(&Match { start_line: 1, ..m }));
    assert!(!trie.is_match_of(&Match { end_line: 3, ..m }));
    assert!(trie.is_match_of(&Match { errors: 3, ..m }));
}

#[test]
fn line_breaks_around_matches() {
    let mut contents = String::new();
    for line in 0..30 {
        contents.push_str(&format!("line {} says hello\n", line));
    }
    let trie = SuffixTrie::new(&contents);
    let matches = trie.find_exact("ell", false);
    assert_eq!(matches.len(), 30);
    for match_obj in matches {
        for context in vec![0, 1, 5, 10, 18] {
            let (before, matching, after) = trie.get_strings_of_match(&match_obj, context);
            assert_eq!("ell", matching);
            let line_breaks_before = std::cmp::min(context, match_obj.start_line);
            assert_eq!(before.match_indices('\n').count(), line_breaks_before);
            let line_breaks_after = std::cmp::min(context + 1, 30 - match_obj.start_line);
            assert_eq!(after.match_indices('\n').count(), line_breaks_after);
        }
    }
}

#[test]
fn names_of_documents_in_registration_order() {
    let mut trie = SuffixTrie::empty();
    trie.add_sentences_from_text("zebra", "z");
    trie.add_sentences_from_text("apple", "a");
    trie.add_sentences_from_text("zebra", "again");
    assert_eq!(trie.get_text_names(), vec!["zebra", "apple", "zebra"]);
    let trie = SuffixTrie::new("anything");
    assert_eq!(trie.get_text_names(), vec!["first text"]);
}

#[test]
fn strings_and_characters() {
    assert_eq!(chars_of("aé…"), vec!['a', 'é', '…']);
    assert_eq!(chars_of(""), Vec::<char>::new());
    let text = chars("hello world");
    assert_eq!(string_of(&text, 6, 11), "world");
    assert_eq!(string_of(&text, 3, 3), "");
    assert_eq!(string_of(&text, 0, 11), "hello world");
}

#[test]
fn edges_are_split_where_suffixes_part() {
    let trie = SuffixTrie::new("abab");
    // root, "ab", "ab" below it, "b", "ab" below it
    assert_eq!(trie.len(), 5);
    let root = trie.get_node(0);
    assert_eq!(root.children.len(), 2);
    assert_eq!(root.edge_length, 0);
    assert!(root.leaf_children.is_empty());
    let a = trie.get_node(root.get_child_index('a').unwrap());
    assert_eq!((a.edge_start_index, a.edge_length), (0, 2));
    assert_eq!(a.leaf_children, vec![Leaf::new(2, 0)]);
    assert_eq!(root.get_child_index('x'), None);
    let below = trie.get_node(a.get_child_index('a').unwrap());
    assert_eq!((below.edge_start_index, below.edge_length), (2, 2));
    assert_eq!(below.leaf_children, vec![Leaf::new(0, 0)]);
    assert_eq!(below.node_index, a.get_child_index('a').unwrap());
    let entries = root.child_entries();
    assert_eq!(entries.len(), 2);
}

#[test]
fn comparing_a_text_with_an_edge() {
    let trie = SuffixTrie::new("abcdef");
    let node = trie.get_node(0).get_child_index('a').unwrap();
    let exact = MatcherConfig::exact();

    let whole = trie.consume_all_shared_length(node, &chars("abcdefgh"), 0, 8, &exact);
    assert!(matches!(whole.overlap_type, EdgeMatchKind::WholeMatch));
    assert_eq!(whole.shared_length, 6);

    let early = trie.consume_all_shared_length(node, &chars("xxabc"), 2, 5, &exact);
    assert!(matches!(early.overlap_type, EdgeMatchKind::EarlyStop));
    assert_eq!(early.shared_length, 3);

    let diverge = trie.consume_all_shared_length(node, &chars("abXdef"), 0, 6, &exact);
    assert!(matches!(diverge.overlap_type, EdgeMatchKind::Diverge('X')));
    assert_eq!(diverge.shared_length, 2);

    let folded =
        MatcherConfig { ignored_characters: HashMap::new(), max_errors: 0, case_insensitive: true };
    let whole = trie.consume_all_shared_length(node, &chars("aBCDEF"), 0, 6, &folded);
    assert!(matches!(whole.overlap_type, EdgeMatchKind::WholeMatch));
}

#[test]
fn locations_one_character_further() {
    let trie = SuffixTrie::new("abab");
    let root = CharLocation { node_index: 0, index_in_edge: 0 };
    let mut steps = trie.generation_after_char_dict(root);
    steps.sort_by_key(|s| s.0);
    assert_eq!(steps.len(), 2);
    assert_eq!((steps[0].0, steps[0].1.index_in_edge), ('a', 0));
    assert_eq!((steps[1].0, steps[1].1.index_in_edge), ('b', 0));
    let inside = trie.generation_after_char_dict(steps[0].1);
    assert_eq!(inside.len(), 1);
    assert_eq!(inside[0].0, 'b');
    assert_eq!(inside[0].1, CharLocation { node_index: steps[0].1.node_index, index_in_edge: 1 });
    assert_eq!(inside[0].1.sort_key(), (steps[0].1.node_index, 1));
}

#[test]
fn a_generation_keeps_the_fewest_errors() {
    let here = CharLocation { node_index: 4, index_in_edge: 2 };
    let there = CharLocation { node_index: 2, index_in_edge: 4 };
    let mut set = WorkingMatchesSet::empty();
    assert!(set.is_empty());
    set.add_working_match(here, 3, 7);
    set.add_working_match(there, 1, 5);
    set.add_working_match(here, 2, 7);
    set.add_working_match(here, 5, 7);
    assert!(!set.is_empty());
    let mut taken = vec![];
    while let Some(m) = set.next() {
        taken.push((m.starting_char, m.errors, m.length));
    }
    taken.sort_by_key(|t| t.1);
    assert_eq!(taken, vec![(there, 1, 5), (here, 2, 7)]);
    assert!(set.is_empty());
    assert!(set.next().is_none());

    let mut root = WorkingMatchesSet::only_root_node();
    let first = root.next().unwrap();
    assert_eq!((first.starting_char.node_index, first.errors, first.length), (0, 0, 0));
    assert!(root.is_empty());
}

#[test]
fn documents_are_numbered_as_they_are_registered() {
    let mut trie = SuffixTrie::empty();
    assert_eq!(trie.add_sentences_from_text("one", "abc"), 0);
    assert_eq!(trie.add_sentences_from_text("two", ""), 1);
    assert_eq!(trie.add_sentences_from_text("three", "abc<<STOP>>abd"), 2);
    let found = trie.find_exact("ab", false);
    assert_eq!(positions(&found), vec![(0, 0), (2, 0), (2, 3)]);
}

#[test]
fn compressed_edges_keep_the_trie_small() {
    for text in ["", "a", "aaaaaaaa", "abababab", "mississippi", "abcdefgh", "aabbaabb aabb"] {
        let trie = SuffixTrie::new(text);
        assert!(trie.len() >= 1);
        assert!(trie.len() <= 2 * text.len() + 1, "{:?} has {} nodes", text, trie.len());
        let leaves = trie.get_all_leaf_descendants(0);
        let found: Vec<usize> = leaves.iter().map(|l| l.index_in_str).collect();
        let all: Vec<usize> = (0..text.len()).collect();
        assert_eq!(found, all);
    }
    assert_eq!(SuffixTrie::new("aaaa").len(), 5);
    assert_eq!(SuffixTrie::new("abcd").len(), 5);
}

#[test]
fn sentences_added_to_the_last_document() {
    let mut trie = SuffixTrie::empty();
    trie.add_sentences_from_text("grows", "abc");
    assert_eq!(trie.add_normalized_suffixes(&chars("bcd"), 3, 0), 3);
    assert_eq!(trie.add_string_suffixes(&chars("É…"), 6, 0), 4);
    assert_eq!(trie.get_sentences(0), vec![chars("abc"), chars("bcd"), chars("E...")]);
    assert_eq!(positions(&trie.find_exact("bc", false)), vec![(0, 1), (0, 3)]);
    assert_eq!(positions(&trie.find_exact("E.", false)), vec![(0, 6)]);
    assert!(trie.find_exact("cb", false).is_empty());
    assert!(trie.find_exact("dE", false).is_empty());
}

#[test]
fn a_matcher_can_search_again() {
    let trie = SuffixTrie::new("abcabd");
    let config =
        MatcherConfig { ignored_characters: HashMap::new(), max_errors: 1, case_insensitive: false };
    let mut matcher = spyglass::SuffixTrieEditMatcher::new(config);
    let first = matcher.find_edit_distance_ignore(&trie, &chars("abd"));
    let again = matcher.find_edit_distance_ignore(&trie, &chars("abd"));
    assert!(same_fields(&first, &again));
    let got: Vec<(usize, usize, usize)> =
        first.iter().map(|m| (m.errors, m.length, m.index_in_str)).collect();
    // "abd" itself; "ab", "ab" and "bd" with a character of the pattern left
    // out; "abc" with one character changed; "cabd" with its "c" left out
    assert_eq!(got, vec![(0, 3, 3), (1, 2, 0), (1, 2, 3), (1, 2, 4), (1, 3, 0), (1, 4, 2)]);
    let exact = matcher.find_exact(&trie, &chars("ab"));
    assert_eq!(positions(&exact), vec![(0, 0), (0, 3)]);
}

#[test]
fn text_after_a_match_ends_with_its_line() {
    let mut trie = SuffixTrie::empty();
    trie.add_sentences_from_text("t", "ab\ncd\nef");
    let found = trie.find_exact("c", false);
    assert_eq!(found.len(), 1);
    let m = found[0];
    assert_eq!((m.index_in_str, m.start_line, m.end_line), (3, 1, 1));
    let (before, matching, after) = trie.get_strings_of_match(&m, 0);
    assert_eq!((before.as_str(), matching.as_str(), after.as_str()), ("", "c", "d\n"));
    let (before, _, after) = trie.get_strings_of_match(&m, 1);
    assert_eq!((before.as_str(), after.as_str()), ("ab\n", "d\nef"));
    let last = trie.find_exact("e", false)[0];
    let (before, _, after) = trie.get_strings_of_match(&last, 0);
    assert_eq!((before.as_str(), after.as_str()), ("", "f"));
}

fn texts_with_a_node(sentences: &[&str]) -> std::collections::BTreeSet<Vec<char>> {
    let mut suffixes: Vec<Vec<char>> = Vec::new();
    for sentence in sentences {
        let all = chars(sentence);
        for start in 0..all.len() {
            suffixes.push(all[start..].to_vec());
        }
    }
    let mut texts = std::collections::BTreeSet::new();
    for s in &suffixes {
        texts.insert(s.clone());
        for len in 1..s.len() {
            let parts = suffixes
                .iter()
                .any(|o| o.len() > len && o[..len] == s[..len] && o[len] != s[len]);
            if parts {
                texts.insert(s[..len].to_vec());
            }
        }
    }
    texts
}

#[test]
fn one_node_for_each_end_and_each_parting_of_suffixes() {
    let corpora: Vec<Vec<&str>> = vec![
        vec!["aba"],
        vec!["abab"],
        vec!["mississippi"],
        vec!["ABCDE.", "ABCDE.", "ABCDE."],
        vec!["abcabd", "bcab", "x"],
        vec!["aaaa", "aa", "aaaaaa"],
    ];
    for sentences in corpora {
        let mut trie = SuffixTrie::empty();
        trie.add_sentences_from_text("t", &sentences.join("<<STOP>>"));
        assert_eq!(trie.len(), 1 + texts_with_a_node(&sentences).len(), "{:?}", sentences);
        for node_index in 1..trie.len() {
            let node = trie.get_node(node_index);
            assert!(!node.leaf_children.is_empty() || node.children.len() >= 2);
        }
        let nodes = trie.len();
        trie.add_sentences_from_text("again", &sentences.join("<<STOP>>"));
        assert_eq!(trie.len(), nodes);
    }
    assert_eq!(SuffixTrie::new("abab").len(), 5);
}

#[test]
fn a_suffix_that_leaves_an_edge_gets_a_node_below_the_cut() {
    // "ab" lies on one edge until "ac" parts from it after "a"
    let mut trie = SuffixTrie::empty();
    trie.add_sentences_from_text("t", "ab<<STOP>>ac");
    // root, "a" cut from "ab", "b" below it, "b" of the root, "c" below "a", "c" of the root
    assert_eq!(trie.len(), 6);
    let root = trie.get_node(0);
    let a = trie.get_node(root.children[&('a' as u32)]);
    assert_eq!(a.edge_length, 1);
    assert!(a.leaf_children.is_empty());
    assert_eq!(a.children.len(), 2);
    let c = trie.get_node(a.children[&('c' as u32)]);
    assert_eq!((c.edge_start_index, c.edge_length), (3, 1));
    assert_eq!(c.leaf_children, vec![Leaf { index_in_str: 2, text_index: 0 }]);
    // "a" ends inside the edge "ab": the edge is cut, and the marker sits on the cut
    let mut trie = SuffixTrie::empty();
    trie.add_sentences_from_text("t", "ab<<STOP>>a");
    assert_eq!(trie.len(), 4);
    let root = trie.get_node(0);
    let a = trie.get_node(root.children[&('a' as u32)]);
    assert_eq!(a.edge_length, 1);
    assert_eq!(a.leaf_children, vec![Leaf { index_in_str: 2, text_index: 0 }]);
    assert_eq!(a.children.len(), 1);
}

#[test]
fn text_below_u007f_is_indexed_as_it_is() {
    let all: String = (0u8..0x7f).map(|b| b as char).collect();
    let trie = SuffixTrie::new(&all);
    assert_eq!(trie.get_sentences(0), vec![chars(&all)]);
    assert_eq!(positions(&trie.find_exact("xyz{|}~", false)), vec![(0, 0x78)]);
    let mut trie = SuffixTrie::empty();
    trie.add_sentences_from_text("t", "a\tb\n<<STOP>>~c<<STOP>>");
    assert_eq!(trie.get_sentences(0), vec![chars("a\tb\n"), chars("~c"), chars("")]);
}
