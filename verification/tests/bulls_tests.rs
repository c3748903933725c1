use consistent_hash::bulls_and_cows::compute_score;
use consistent_hash::bulls_and_cows::decode_score;
use consistent_hash::bulls_and_cows::encode_score;
use consistent_hash::bulls_and_cows::get_class;
use consistent_hash::bulls_and_cows::group_possibilities_by_score;
use consistent_hash::bulls_and_cows::guess_to_string;
use consistent_hash::bulls_and_cows::initialize_possibilities;
use consistent_hash::bulls_and_cows::initialize_possibilities_with_params;
use consistent_hash::bulls_and_cows::output_json;
use consistent_hash::bulls_and_cows::score_to_string;
use consistent_hash::bulls_and_cows::search;
use consistent_hash::bulls_and_cows::singleton_node;
use consistent_hash::bulls_and_cows::tree_height;
use consistent_hash::bulls_and_cows::tree_size;
use consistent_hash::bulls_and_cows::tree_to_string;
use consistent_hash::bulls_and_cows::NN;

#[test]
fn possibilities_count_all_arrangements() {
    let possibilities = initialize_possibilities();
    // 10 * 9 * 8 * 7 arrangements of four distinct digits.
    assert_eq!(possibilities.len(), 5040);
    assert!(possibilities.iter().any(|p| *p == [0, 1, 2, 3]));
    assert!(possibilities.iter().any(|p| *p == [9, 8, 7, 6]));
    assert!(!possibilities.iter().any(|p| *p == [1, 1, 2, 3]));
}

#[test]
fn possibilities_respect_length_and_visited_mask() {
    let pairs = initialize_possibilities_with_params(2, 0);
    assert_eq!(pairs.len(), 90);
    // With digit 0 already visited only nine digits remain.
    let singles = initialize_possibilities_with_params(1, 1);
    assert_eq!(singles.len(), 9);
    assert!(!singles.iter().any(|p| p[0] == 0));
}

#[test]
fn score_counts_perfect_and_imperfect_matches() {
    assert_eq!(compute_score(&[0, 1, 2, 3], &[0, 1, 2, 3]), (4, 0));
    assert_eq!(compute_score(&[0, 1, 2, 3], &[3, 2, 1, 0]), (0, 4));
    assert_eq!(compute_score(&[0, 1, 2, 3], &[0, 2, 1, 4]), (1, 2));
    assert_eq!(compute_score(&[0, 1, 2, 3], &[4, 5, 6, 7]), (0, 0));
}

#[test]
fn score_encoding_round_trips() {
    assert_eq!(encode_score((2, 1)), 11);
    assert_eq!(decode_score(11), (2, 1));
    for p in 0..=4i32 {
        for f in 0..=4i32 {
            assert_eq!(decode_score(encode_score((p, f))), (p, f));
        }
    }
}

#[test]
fn score_renders_as_pair() {
    assert_eq!(score_to_string((1, 2)), "(1, 2)");
    assert_eq!(score_to_string((4, 0)), "(4, 0)");
}

#[test]
fn guess_renders_as_list() {
    assert_eq!(guess_to_string(&[0, 1, 2, 3]), "[0, 1, 2, 3]");
    assert_eq!(guess_to_string(&[9, 0, 9, 0]), "[9, 0, 9, 0]");
}

#[test]
fn class_ignores_unvisited_digits() {
    // Nothing visited: every guess is in class 0.
    assert_eq!(get_class(0, &[1, 2, 3, 4]), 0);
    // Digit 1 visited, in position 0: contributes (1 + 1) * 11^0.
    assert_eq!(get_class(0b10, &[1, 2, 3, 4]), 2);
    // Digit 4 visited, in position 3: contributes (4 + 1) * 11^3.
    assert_eq!(get_class(0b10000, &[1, 2, 3, 4]), 5 * 1331);
}

#[test]
fn singleton_has_no_children() {
    let leaf = singleton_node(&[5, 6, 7, 8]);
    assert_eq!(leaf.guess, [5, 6, 7, 8]);
    assert_eq!(leaf.children.len(), NN);
    assert!(leaf.children.iter().all(|c| c.is_none()));
    assert_eq!(tree_size(&leaf), 1);
    assert_eq!(tree_height(&leaf), 1);
}

#[test]
fn grouping_splits_by_score() {
    let possibilities = vec![[0, 1, 2, 3], [3, 2, 1, 0], [0, 1, 2, 4]];
    let buckets = group_possibilities_by_score(&[0, 1, 2, 3], &possibilities);
    assert_eq!(buckets.len(), NN);
    // (4, 0) encodes to 20, (0, 4) to 4, (3, 0) to 15.
    assert_eq!(buckets[20], vec![[0, 1, 2, 3]]);
    assert_eq!(buckets[4], vec![[3, 2, 1, 0]]);
    assert_eq!(buckets[15], vec![[0, 1, 2, 4]]);
    let occupied: usize = buckets.iter().filter(|b| !b.is_empty()).count();
    assert_eq!(occupied, 3);
}

#[test]
fn search_answers_single_possibility_directly() {
    let tree = search(vec![[7, 3, 1, 0]], 0, 0);
    assert_eq!(tree.guess, [7, 3, 1, 0]);
    assert!(tree.children.iter().all(|c| c.is_none()));
}

#[test]
fn search_separates_two_possibilities() {
    let tree = search(vec![[0, 1, 2, 3], [0, 1, 2, 4]], 0, 0);
    assert_eq!(tree.guess, [0, 1, 2, 3]);
    assert_eq!(tree_height(&tree), 2);
    assert_eq!(tree_size(&tree), 3);
}

#[test]
fn tree_renders_in_viewer_format() {
    let leaf = singleton_node(&[0, 1, 2, 3]);
    assert_eq!(tree_to_string(&leaf), "{'guess': [0, 1, 2, 3], 'subtree': {}}");
    assert_eq!(
        output_json(&leaf),
        "const decisionTree = {'guess': [0, 1, 2, 3], 'subtree': {}};"
    );

    let tree = search(vec![[0, 1, 2, 3], [0, 1, 2, 4]], 0, 0);
    assert_eq!(
        tree_to_string(&tree),
        "{'guess': [0, 1, 2, 3], 'subtree': {\
         '(3, 0)': {'guess': [0, 1, 2, 4], 'subtree': {}}, \
         '(4, 0)': {'guess': [0, 1, 2, 3], 'subtree': {}}}}"
    );
}
