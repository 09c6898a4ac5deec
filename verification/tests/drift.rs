use codescout::embed::drift::{greedy_assignment, merge_flags, pair_identical, snippet, unpaired_indices};

fn strings(v: &[&str]) -> Vec<String> {
    v.iter().map(|s| s.to_string()).collect()
}

#[test]
fn identical_chunks_are_paired() {
    let (old, new) = pair_identical(&strings(&["fn a() {}"]), &strings(&["fn a() {}"]));
    assert_eq!(old, vec![true]);
    assert_eq!(new, vec![true]);
}

#[test]
fn pairing_takes_first_free_equal_chunk() {
    let (old, new) = pair_identical(
        &strings(&["x", "x", "y"]),
        &strings(&["z", "x", "x", "x"]),
    );
    assert_eq!(old, vec![true, true, false]);
    assert_eq!(new, vec![false, true, true, false]);
    assert_eq!(unpaired_indices(&old), vec![2]);
    assert_eq!(unpaired_indices(&new), vec![0, 3]);
}

#[test]
fn empty_sides_pair_nothing() {
    let (old, new) = pair_identical(&Vec::new(), &strings(&["fn new_func() {}"]));
    assert!(old.is_empty());
    assert_eq!(new, vec![false]);
    assert_eq!(unpaired_indices(&new), vec![0]);
}

#[test]
fn snippet_keeps_short_content() {
    assert_eq!(snippet("fn stable() {}"), "fn stable() {}");
    let exact: String = "a".repeat(200);
    assert_eq!(snippet(&exact), exact);
}

#[test]
fn snippet_truncates_long_content() {
    let long: String = "b".repeat(250);
    let s = snippet(&long);
    assert_eq!(s.chars().count(), 200);
    assert_eq!(s, "b".repeat(200));
    // 100 two-byte characters: kept whole
    let wide: String = "é".repeat(100);
    assert_eq!(snippet(&wide), wide);
    // 201 two-byte characters: cut to 200 characters
    let wider: String = "é".repeat(201);
    assert_eq!(snippet(&wider), "é".repeat(200));
}

#[test]
fn greedy_accepts_pairs_with_free_chunks_only() {
    // candidates in descending similarity: (old, new)
    let pairs = vec![(1usize, 0usize), (1, 2), (0, 0), (0, 2), (2, 1)];
    let (old, new, accepted) = greedy_assignment(3, 3, &pairs);
    assert_eq!(accepted, vec![true, false, false, true, true]);
    assert_eq!(old, vec![true, true, true]);
    assert_eq!(new, vec![true, true, true]);
}

#[test]
fn greedy_with_no_candidates_assigns_nothing() {
    let (old, new, accepted) = greedy_assignment(2, 1, &Vec::new());
    assert_eq!(old, vec![false, false]);
    assert_eq!(new, vec![false]);
    assert!(accepted.is_empty());
}

#[test]
fn merged_flags_leave_only_unmatched_and_unassigned() {
    let matched = vec![true, false, false, false];
    let assigned = vec![false, true, false, false];
    let merged = merge_flags(&matched, &assigned);
    assert_eq!(merged, vec![true, true, false, false]);
    assert_eq!(unpaired_indices(&merged), vec![2, 3]);
}

fn count(flags: &[bool]) -> usize {
    flags.iter().filter(|f| **f).count()
}

#[test]
fn pairings_consume_one_chunk_per_side() {
    let (old, new) = pair_identical(
        &strings(&["x", "x", "y", "z"]),
        &strings(&["x", "y", "y", "w", "x", "x"]),
    );
    assert_eq!(count(&old), count(&new));
    assert_eq!(count(&old), 3);
    let pairs = vec![(0usize, 1usize), (0, 2), (1, 1), (2, 0), (2, 2)];
    let (o, n, acc) = greedy_assignment(3, 3, &pairs);
    assert_eq!(count(&o), count(&acc));
    assert_eq!(count(&n), count(&acc));
    assert_eq!(count(&acc), 2);
}
