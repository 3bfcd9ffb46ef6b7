use std::collections::HashMap;

use spyglass::{Match, SuffixTrie};

fn compare_match_indices(matches: Vec<Match>, indices: Vec<usize>) {
    let match_indices: Vec<usize> = matches.iter().map(|l| l.index_in_str).collect();
    assert_eq!(match_indices, indices);
}

fn compare_matches(mut expected: Vec<Match>, mut matches: Vec<Match>) {
    expected.sort_by(|a, b| a.partial_cmp(b).unwrap());
    matches.sort_by(|a, b| a.partial_cmp(b).unwrap());
    assert_eq!(expected, matches);
}

/// Seven lines of twenty-two characters, cut into two sentences after
/// the fourth line.
fn simple_contents() -> String {
    let line = "ABCDEFGHIJ ABCDEFGHIJ\n";
    format!("{}{}{}{}<<STOP>>{}{}{}", line, line, line, line, line, line, line)
}

fn simple_trie() -> SuffixTrie {
    let mut trie = SuffixTrie::empty();
    let contents = simple_contents();
    trie.add_sentences_from_text("./resources/tests/simple/a.txt", &contents);
    trie.add_sentences_from_text("./resources/tests/simple/b.txt", &contents);
    trie.add_sentences_from_text("./resources/tests/simple/c.txt", &contents);
    trie
}

fn small_contents() -> &'static str {
    "What shall we do with the drunken sailor,\n\
     What shall we do with the drunken sailor,\n\
     What shall we do with the drunken sailor,\n\
     early in the morning?\n"
}

#[test]
fn find_matches() {
    let trie = SuffixTrie::new("aba");

    let matches = trie.find_exact("a", false);
    compare_match_indices(matches, vec![0, 2]);

    let trie = SuffixTrie::new("bananaBal");

    let matches = trie.find_exact("an", false);
    compare_match_indices(matches, vec![1, 3]);

    let matches = trie.find_exact("ab", false);
    compare_match_indices(matches, vec![]);
}

#[test]
fn find_matches_0_edit_no_branches() {
    let trie = SuffixTrie::new("abcdef");

    let matches = trie.find_edit_distance("bcd", 0);
    compare_match_indices(matches, vec![1]);
}

#[test]
fn find_matches_0_edit() {
    let trie = SuffixTrie::new("aba");

    let matches = trie.find_edit_distance("a", 0);
    compare_match_indices(matches, vec![0, 2]);

    let trie = SuffixTrie::new("bananaBal");

    let matches = trie.find_edit_distance("an", 0);
    compare_match_indices(matches, vec![1, 3]);

    let matches = trie.find_edit_distance("ab", 0);
    compare_match_indices(matches, vec![]);
}

#[test]
fn find_case_insensitive() {
    let trie = SuffixTrie::new("aBcABCabcaBcaBC");

    let ignored = HashMap::new();
    let matches = trie.find_edit_distance_ignore("ABc", 0, ignored.clone(), false);
    compare_match_indices(matches, vec![]);

    let matches = trie.find_edit_distance_ignore("ABC", 0, ignored.clone(), true);
    compare_match_indices(matches, vec![0, 3, 6, 9, 12]);

    let matches = trie.find_edit_distance_ignore("Abc", 0, ignored.clone(), true);
    compare_match_indices(matches, vec![0, 3, 6, 9, 12]);

    let matches = trie.find_exact("ABc", false);
    compare_match_indices(matches, vec![]);

    let matches = trie.find_exact("ABC", true);
    compare_match_indices(matches, vec![0, 3, 6, 9, 12]);

    let matches = trie.find_exact("Abc", true);
    compare_match_indices(matches, vec![0, 3, 6, 9, 12]);
}

#[test]
fn find_matches_mismatch() {
    let trie = SuffixTrie::new("abcXef abXdef");

    let matches = trie.find_edit_distance("abcdef", 1);
    compare_match_indices(matches, vec![0, 7]);
}

#[test]
fn find_matches_insert_delete() {
    let trie = SuffixTrie::new("abcXdefg");

    // Delete from text
    let matches = trie.find_edit_distance("abcdefg", 1);
    compare_match_indices(matches, vec![0]);

    // Delete from pattern
    let matches = trie.find_edit_distance("aXbc", 1);
    compare_match_indices(matches, vec![0]);
}

#[test]
fn find_partial_matches_ignore() {
    let trie = SuffixTrie::new("He wracked wrack'd wrack'ed");

    let mut ignored = HashMap::new();
    ignored.insert('e', true);
    ignored.insert('\'', true);
    let matches = trie.find_edit_distance_ignore("wrackd", 0, ignored.clone(), false);
    compare_match_indices(matches, vec![3, 11, 19]);
    let matches = trie.find_edit_distance_ignore("wrack'de", 0, ignored.clone(), false);
    compare_match_indices(matches, vec![3, 11, 19]);
}

#[test]
fn matches_from_directory() {
    let trie = simple_trie();

    let matches_a = trie.find_exact("ABCDEF", false);
    let matches_e = trie.find_exact("EFGHIJ", false);
    let matches_e_error = trie.find_edit_distance("EFxHIJ", 1);
    let matches_e_del = trie.find_edit_distance("EFHIJ", 1);
    let matches_e_ins = trie.find_edit_distance("EFGxHIJ", 1);
    let matches_h = trie.find_exact("HIJ\nA", false);

    let mut expected_a: Vec<Match> = vec![];
    let mut expected_e: Vec<Match> = vec![];
    let mut expected_e_error: Vec<Match> = vec![];
    let mut expected_e_del: Vec<Match> = vec![];
    let mut expected_e_ins: Vec<Match> = vec![];
    let mut expected_h: Vec<Match> = vec![];
    for text_index in vec![0, 1, 2] {
        for line in 0..7 {
            let first_match_a = Match {
                text_index,
                index_in_str: 0 + 22 * line,
                start_line: line,
                end_line: line,
                length: 6,
                errors: 0,
            };
            let second_match_a = Match { index_in_str: 11 + 22 * line, ..first_match_a };

            let first_match_e = Match { index_in_str: 4 + 22 * line, ..first_match_a };
            let second_match_e = Match { index_in_str: 15 + 22 * line, ..first_match_a };
            let first_match_e_error = Match { errors: 1, ..first_match_e };
            let second_match_e_error = Match { errors: 1, ..second_match_e };
            expected_a.push(first_match_a);
            expected_a.push(second_match_a);
            expected_e.push(first_match_e);
            expected_e.push(second_match_e);
            expected_e_error.push(first_match_e_error.clone());
            expected_e_error.push(second_match_e_error.clone());
            expected_e_del.push(first_match_e_error.clone());
            expected_e_del.push(second_match_e_error.clone());
            expected_e_ins.push(first_match_e_error.clone());
            expected_e_ins.push(second_match_e_error.clone());
        }
    }
    compare_matches(expected_a, matches_a);
    compare_matches(expected_e, matches_e);
    compare_matches(expected_e_error, matches_e_error);
    compare_matches(expected_e_del, matches_e_del);
    compare_matches(expected_e_ins, matches_e_ins);

    for text_index in vec![0, 1, 2] {
        for line in vec![0, 1, 2, 4, 5] {
            let match_h = Match {
                text_index,
                index_in_str: 18 + 22 * line,
                start_line: line,
                end_line: line + 1,
                length: 5,
                errors: 0,
            };
            expected_h.push(match_h);
        }
    }
    compare_matches(expected_h, matches_h);
}

#[test]
fn build_trie_from_file() {
    let trie = SuffixTrie::from_file("resources/tests/simple/small.txt", small_contents());
    assert_eq!(trie.get_text_names(), vec!["resources/tests/simple/small.txt".to_string()]);
}

#[test]
fn find_exact() {
    let trie = SuffixTrie::from_file("resources/tests/simple/small.txt", small_contents());
    let matches = trie.find_exact("drunken", false);
    assert_eq!(matches.len(), 3);
    let matches = trie.find_exact("early", false);
    assert_eq!(matches.len(), 1);
}

#[test]
fn build_dodgy_characters() {
    let _trie = SuffixTrie::new("father’s");
    let _trie = SuffixTrie::new("Ælfred");
    let _trie = SuffixTrie::new("…he");
    let _trie = SuffixTrie::new("father’s xxÆlfredxxÆlfredxxAlfredxxAElfred…he");
    let _trie = SuffixTrie::new("father’s xxÆlfredxxÆlfredxxAlfredxxAElfred<<STOP>>…he");
}

#[test]
fn match_dodgy_characters() {
    //                          012345678901234567890123456789012345678901
    let trie = SuffixTrie::new("father’s xxÆlfredxxÆlfredxxAlfrixxAElfredxx<<STOP>>…he");
    let alf_matches = trie.find_exact("xxÆlf", false);
    let alf_matches_edit_0 = trie.find_edit_distance("xxÆlf", 0);
    let alf_match = Match {
        text_index: 0,
        index_in_str: 9,
        length: 6,
        start_line: 0,
        end_line: 0,
        errors: 0,
    };
    let alf_match2 = Match { index_in_str: 18, ..alf_match };
    let alf_match4 = Match { index_in_str: 34, ..alf_match };
    let alf_expected = vec![alf_match.clone(), alf_match2.clone(), alf_match4.clone()];
    compare_matches(alf_expected.clone(), alf_matches);
    compare_matches(alf_expected, alf_matches_edit_0);

    let alfric_matches = trie.find_edit_distance("xxÆlfricxx", 2);
    let alfric_match = Match { errors: 2, length: 11, ..alf_match };
    let alfric_match2 = Match { index_in_str: 18, ..alfric_match };
    let alfric_match3 = Match { index_in_str: 27, length: 9, ..alfric_match };
    let alfric_match4 = Match { index_in_str: 34, ..alfric_match };
    let alfric_expected = vec![alfric_match, alfric_match2, alfric_match3, alfric_match4];
    compare_matches(alfric_expected, alfric_matches);
}
