use gaddag_movegen::constants::PIVOT;
use gaddag_movegen::gaddag::{Gaddag, GaddagNode};

fn traverse<'a>(node: &'a GaddagNode, path: &[char]) -> Option<&'a GaddagNode> {
    let mut cur: &'a GaddagNode = node;
    for &c in path {
        cur = cur.get_child(c)?;
    }
    Some(cur)
}

#[test]
fn single_word_basic_paths() {
    // Insert a simple path C A T (no pivot) using insert_path directly to avoid
    // depending on PIVOT handling in insert_gaddag.
    let mut root = GaddagNode::new();
    root.insert_path(&['C', 'A', 'T']);

    // Check full path exists and is marked as a word
    let n = traverse(&root, &['C', 'A', 'T']).expect("path should exist");
    assert!(n.is_word(), "CAT should be a word");

    // Check prefix nodes exist but are not words (C and CA)
    let c = traverse(&root, &['C']).expect("C node should exist");
    assert!(!c.is_word(), "C should not be marked as a word");

    let ca = traverse(&root, &['C', 'A']).expect("CA node should exist");
    assert!(!ca.is_word(), "CA should not be marked as a word");

    // Non-existing child
    assert!(traverse(&root, &['C', 'X']).is_none());
}

#[test]
fn multiple_words_shared_nodes() {
    // Use direct insert_path to create CAT and CATS without pivots
    let mut root = GaddagNode::new();
    root.insert_path(&['C', 'A', 'T']);
    root.insert_path(&['C', 'A', 'T', 'S']);

    // CAT present
    let cat = traverse(&root, &['C', 'A', 'T']).expect("CAT path");
    assert!(cat.is_word(), "CAT should be present as a word");

    // CATS present (longer)
    let cats = traverse(&root, &['C', 'A', 'T', 'S']).expect("CATS path");
    assert!(cats.is_word(), "CATS should be present as a word");

    // Ensure CAT node is still a word (prefix)
    assert!(
        cat.is_word(),
        "CAT should remain a word after inserting CATS"
    );
}

#[test]
fn insert_path_marks_word() {
    // Directly use insert_path on a fresh node
    let mut node = GaddagNode::new();
    node.insert_path(&['M', 'A', 'N']);
    let n = traverse(&node, &['M', 'A', 'N']).expect("MAN path");
    assert!(n.is_word(), "Inserted path should be marked as a word");
}

#[test]
fn pivot_paths_from_insert_gaddag() {
    // Insert the word using insert_gaddag which creates paths containing the pivot
    let mut root = GaddagNode::new();
    root.insert_gaddag(&"CAT".to_string());

    // i = 0 path: [PIVOT, 'C', 'A', 'T']
    let path0 = traverse(&root, &[PIVOT, 'C', 'A', 'T']).expect("pivot-start path");
    assert!(path0.is_word(), "Path starting with pivot should be a word");

    // i = 1 path: ['C', PIVOT, 'A', 'T']
    let path1 = traverse(&root, &['C', PIVOT, 'A', 'T']).expect("pivot-middle path");
    assert!(path1.is_word(), "Path with pivot in middle should be a word");

    // i = 3 path: ['T', 'A', 'C', PIVOT]
    let path3 = traverse(&root, &['T', 'A', 'C', PIVOT]).expect("pivot-end path");
    assert!(path3.is_word(), "Path ending with pivot should be a word");
}

#[test]
fn insert_ordering_marks_existing_node() {
    // Ensure inserting a longer path first then a shorter path still marks the
    // shorter path's endpoint as a word.
    let mut root = GaddagNode::new();

    // Insert C A T S first
    root.insert_path(&['C', 'A', 'T', 'S']);
    // Now insert CAT which ends on an existing node
    root.insert_path(&['C', 'A', 'T']);

    let cat = traverse(&root, &['C', 'A', 'T']).expect("CAT path after CATS");
    assert!(
        cat.is_word(),
        "CAT should be marked as a word even when inserted after CATS"
    );
}

#[test]
fn gaddag_is_word_method() {
    // Build a gaddag from a small word list and test positives and negatives
    let words = vec!["CAT".to_string(), "CATS".to_string(), "DOG".to_string()];
    let g = Gaddag::from_wordlist(&words);

    // Positive cases
    assert!(g.is_word("CAT"), "CAT should be found by is_word");
    assert!(g.is_word("CATS"), "CATS should be found by is_word");
    assert!(g.is_word("DOG"), "DOG should be found by is_word");

    // Negative cases
    assert!(!g.is_word("DO"), "DO is a prefix but not a word");
    assert!(!g.is_word("ACT"), "ACT is not in the wordlist");
    assert!(!g.is_word(""), "Empty string should not be found");
}

#[test]
fn single_word_dictionary_lookups() {
    let g = Gaddag::from_wordlist(&vec!["CAT".to_string()]);
    assert!(g.is_word("CAT"));
    assert!(!g.is_word("CA"));
    assert!(!g.is_word("CATS"));
    assert!(!g.is_word(""));
    assert!(!g.is_word("TAC"));
    assert!(!g.is_word("AT"));
}

#[test]
fn inserted_word_is_found_and_others_are_not() {
    for w in ["A", "QI", "ZEBRA", "AARDVARK"] {
        let g = Gaddag::from_wordlist(&vec![w.to_string()]);
        assert!(g.is_word(w));
        let longer = format!("{}S", w);
        assert!(!g.is_word(&longer));
        assert!(!g.is_word(&w[1..]));
    }
}

#[test]
fn empty_strings_are_skipped() {
    let g = Gaddag::from_wordlist(&vec!["".to_string(), "GO".to_string()]);
    assert!(!g.is_word(""));
    assert!(g.is_word("GO"));
    assert!(!g.get_root().has_child('X'));
    assert!(g.get_root().has_child(PIVOT));
    assert!(g.get_root().has_child('G'));
    assert!(g.get_root().has_child('O'));
}

#[test]
fn lower_case_letters_fold_to_upper_case() {
    let g = Gaddag::from_wordlist(&vec!["cat".to_string()]);
    assert!(g.is_word("CAT"));
    assert!(g.is_word("cat"));
    assert!(!g.is_word("CAB"));
}

#[test]
fn children_follow_mask_order() {
    // Insert edges out of alphabetical order; each child keeps its own flag.
    let mut root = GaddagNode::new();
    root.insert_path(&['Z']);
    root.insert_path(&['B', 'X']);
    root.insert_path(&[PIVOT]);
    root.insert_path(&['A']);
    root.insert_path(&['M', 'Q']);
    assert!(root.get_child('A').unwrap().is_word());
    assert!(!root.get_child('B').unwrap().is_word());
    assert!(root.get_child('B').unwrap().get_child('X').unwrap().is_word());
    assert!(!root.get_child('M').unwrap().is_word());
    assert!(root.get_child('M').unwrap().get_child('Q').unwrap().is_word());
    assert!(root.get_child('Z').unwrap().is_word());
    assert!(root.get_child(PIVOT).unwrap().is_word());
    assert!(root.get_child('C').is_none());
    assert!(root.has_child('M'));
    assert!(!root.has_child('Y'));
}
