use threadkit::dna::{
    find_sub, subsequence4, subsequence5_iter, subsequences1, subsequences2, subsequences3,
    DNAIter, SimpleDNAIter,
};

#[test]
fn the_scan_stops_at_the_last_character_found() {
    assert_eq!(find_sub("AACGGTAACC", "AC"), Some((1, "AC")));
    assert_eq!(find_sub("AXB", "AB"), Some((1, "XB")));
    assert_eq!(find_sub("AACGGTAACC", "TT"), None);
    assert_eq!(find_sub("", "A"), None);
    assert_eq!(find_sub("A", ""), None);
    assert_eq!(find_sub("ACGT", "ACGT"), Some((0, "ACGT")));
    assert_eq!(find_sub("ACGT", "é"), None);
    assert_eq!(find_sub("éaxb", "ab"), Some((2, "xb")));
    assert_eq!(find_sub("aéb", "éb"), Some((1, "éb")));
}

#[test]
fn scan_after_scan_goes_on_behind_what_was_found() {
    assert_eq!(subsequences1("AACGGTAACC", "AC"), vec![(1, "AC"), (7, "AC")]);
    assert_eq!(subsequences1("AACGGTAACC", "A1-1,C2-4"), vec![]);
    assert_eq!(subsequences1("AAAA", "A"), vec![(0, "A"), (1, "A"), (2, "A"), (3, "A")]);
    assert_eq!(subsequences1("AAAA", ""), vec![]);
    assert_eq!(subsequences1("éAéA", "A"), vec![(1, "A"), (3, "A")]);
    assert_eq!(
        subsequences2("éAéA", &["éA", "A"]),
        vec![(0, "éA", "éA"), (2, "éA", "éA"), (1, "A", "A"), (3, "A", "A")]
    );
}

#[test]
fn several_patterns_are_searched_one_after_the_other() {
    assert_eq!(
        subsequences2("AACGGTAACC", &["AC", "GT"]),
        vec![(1, "AC", "AC"), (7, "AC", "AC"), (4, "GT", "GT")]
    );
    assert_eq!(subsequences2("AACGGTAACC", &[]), vec![]);
}

#[test]
fn positions_of_occurrences_do_not_overlap() {
    assert_eq!(subsequences3("AACGGTAACC", "AC"), vec![1, 7]);
    assert_eq!(subsequences3("AAAA", "AA"), vec![0, 2]);
    assert_eq!(subsequences3("AAAAA", "AA"), vec![0, 2]);
    assert_eq!(subsequences3("ACGT", "X"), Vec::<usize>::new());
    assert_eq!(subsequences3("héllo héllo", "llo"), vec![3, 10]);
}

#[test]
fn each_occurrence_is_handed_to_the_closure() {
    let seen = std::cell::RefCell::new(Vec::new());
    subsequence4("ACGTACGTAC", "AC", |start, piece| {
        seen.borrow_mut().push((start, piece.to_string()));
    });
    assert_eq!(
        seen.into_inner(),
        vec![(0, "AC".to_string()), (4, "AC".to_string()), (8, "AC".to_string())]
    );
}

#[test]
fn the_search_is_asked_for_one_occurrence_at_a_time() {
    let mut search = SimpleDNAIter::new("ACGTACGTACGTACGT", "AC");
    assert_eq!(search.next(), Some((0, "AC")));
    assert_eq!(search.next(), Some((4, "AC")));
    assert_eq!(search.next(), Some((8, "AC")));
    assert_eq!(search.next(), Some((12, "AC")));
    assert_eq!(search.next(), None);
    assert_eq!(search.next(), None);
}

#[test]
fn an_empty_pattern_is_found_where_the_search_stands() {
    let mut search = SimpleDNAIter::new("AC", "");
    assert_eq!(search.next(), Some((0, "")));
    assert_eq!(search.next(), Some((0, "")));
}

#[test]
fn occurrences_are_handed_out_one_by_one() {
    let mut search = DNAIter::new("ACGTACGTAAACCCGTACGT", "ACGT");
    let mut found = Vec::new();
    while let Some(hit) = search.next() {
        found.push(hit);
    }
    assert_eq!(found, vec![(0, "ACGT"), (4, "ACGT"), (16, "ACGT")]);
    let mut other = subsequence5_iter("ACGTACGTAAACCGTACGT", "ACGT");
    assert_eq!(other.next(), Some((0, "ACGT")));
    assert_eq!(other.next(), Some((4, "ACGT")));
    assert_eq!(other.next(), Some((15, "ACGT")));
    assert_eq!(other.next(), None);
}
