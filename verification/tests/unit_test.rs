use std::collections::HashSet;

use spyglass::{SuffixTrie, Text};

fn helper_test_leaves(string: &str) {
    let trie = SuffixTrie::new(string);

    let expected: HashSet<usize> = (0..string.len()).collect();
    // Gather together all leaf children from the SuffixTrie
    let mut actual: HashSet<usize> = HashSet::new();
    for node_index in 0..trie.len() {
        let node = trie.get_node(node_index);
        for leaf_child in node.leaf_children.iter() {
            // Insert node to list, and assert that it wasn't already present
            assert!(actual.insert(leaf_child.index_in_str));
        }
    }
    // Check for equality
    assert!(actual.is_superset(&expected));
    assert!(expected.is_superset(&actual));
}

#[test]
fn test_build_size() {
    let mut trie = SuffixTrie::empty();
    trie.add_sentences_from_text("test", "ABCDE.<<STOP>>ABCDE.<<STOP>>ABCDE.");
    assert_eq!(trie.len(), 7);
    trie.add_sentences_from_text("duplicate", "ABCDE.<<STOP>>ABCDE.<<STOP>>ABCDE.");
    assert_eq!(trie.len(), 7);

    let trie = SuffixTrie::new("abcabdabe");
    assert_eq!(trie.len(), 12);
}

#[test]
fn test_build_leaves() {
    helper_test_leaves("abcdefghijk");
    helper_test_leaves("ababacababccbabcbabccbabcbababcbcbabcbbacbcbabcab");
}

#[test]
fn line_number_calculation() {
    let text = Text {
        line_start_indices: vec![0, 10, 20, 30, 40, 50, 60, 70],
        ..Text::new("noname", 0)
    };
    for index in 0..9 {
        for line in 0..7 {
            assert_eq!(text.get_line_of_character(index + line * 10), line);
        }
        for line in 8..10 {
            assert_eq!(text.get_line_of_character(index + line * 10), 7);
        }
    }
    assert_eq!(text.get_line_of_character(0), 0);
    assert_eq!(text.get_line_of_character(1), 0);
    assert_eq!(text.get_line_of_character(2), 0);
    assert_eq!(text.get_line_of_character(9), 0);
    assert_eq!(text.get_line_of_character(10), 1);
    assert_eq!(text.get_line_of_character(29), 2);
    assert_eq!(text.get_line_of_character(30), 3);
    assert_eq!(text.get_line_of_character(31), 3);
    assert_eq!(text.get_line_of_character(139), 7);
}
