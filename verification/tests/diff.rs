use dhd::diff::{diff, Diff, DiffType};
use dhd::hashlist::{fingerprint, HashList};

fn list(values: &[u32]) -> HashList {
    HashList::new(values.iter().map(|u| dhd::hashlist::Hash::new(*u)).collect())
}

fn shape(segments: &[Diff]) -> Vec<(DiffType, Vec<u32>)> {
    segments
        .iter()
        .map(|segment| {
            (segment.diff_type(), segment.data().iter().map(|hash| hash.value()).collect())
        })
        .collect()
}

fn side(segments: &[Diff], keep: DiffType) -> Vec<u32> {
    let mut out = Vec::new();
    for segment in segments {
        if segment.diff_type() == DiffType::Same || segment.diff_type() == keep {
            out.extend(segment.data().iter().map(|hash| hash.value()));
        }
    }
    out
}

fn changed(segments: &[Diff]) -> usize {
    segments
        .iter()
        .filter(|segment| segment.diff_type() != DiffType::Same)
        .map(|segment| segment.data().len())
        .sum()
}

#[test]
fn single_line_change() {
    let f1 = fingerprint(b"one").value();
    let f2 = fingerprint(b"two").value();
    let f3 = fingerprint(b"three").value();
    let f4 = fingerprint(b"four").value();
    let segments = diff(&list(&[f1, f2, f3]), &list(&[f1, f4, f3]));
    assert_eq!(
        shape(&segments),
        vec![
            (DiffType::Same, vec![f1]),
            (DiffType::Rem, vec![f2]),
            (DiffType::Add, vec![f4]),
            (DiffType::Same, vec![f3]),
        ]
    );
}

#[test]
fn equal_lists_are_one_same_segment() {
    let segments = diff(&list(&[1, 2, 3]), &list(&[1, 2, 3]));
    assert_eq!(shape(&segments), vec![(DiffType::Same, vec![1, 2, 3])]);
}

#[test]
fn empty_lists_have_no_difference() {
    assert!(diff(&list(&[]), &list(&[])).is_empty());
}

#[test]
fn against_an_empty_list() {
    assert_eq!(shape(&diff(&list(&[1, 2]), &list(&[]))), vec![(DiffType::Rem, vec![1, 2])]);
    assert_eq!(shape(&diff(&list(&[]), &list(&[1, 2]))), vec![(DiffType::Add, vec![1, 2])]);
}

#[test]
fn nothing_in_common() {
    let segments = diff(&list(&[1, 2]), &list(&[3, 4]));
    assert_eq!(shape(&segments), vec![(DiffType::Rem, vec![1, 2]), (DiffType::Add, vec![3, 4])]);
}

#[test]
fn removal_comes_first_on_a_tie() {
    let segments = diff(&list(&[1, 2]), &list(&[2, 1]));
    assert_eq!(
        shape(&segments),
        vec![(DiffType::Rem, vec![1]), (DiffType::Same, vec![2]), (DiffType::Add, vec![1])]
    );
}

#[test]
fn insertion_and_deletion() {
    let segments = diff(&list(&[1, 2, 3, 4, 5]), &list(&[1, 3, 4, 9, 5, 6]));
    assert_eq!(
        shape(&segments),
        vec![
            (DiffType::Same, vec![1]),
            (DiffType::Rem, vec![2]),
            (DiffType::Same, vec![3, 4]),
            (DiffType::Add, vec![9]),
            (DiffType::Same, vec![5]),
            (DiffType::Add, vec![6]),
        ]
    );
}

#[test]
fn repeated_fingerprints() {
    let segments = diff(&list(&[7, 7, 7]), &list(&[7, 7]));
    assert_eq!(side(&segments, DiffType::Rem), vec![7, 7, 7]);
    assert_eq!(side(&segments, DiffType::Add), vec![7, 7]);
    assert_eq!(changed(&segments), 1);
}

#[test]
fn both_sides_are_reconstructed() {
    let cases: Vec<(Vec<u32>, Vec<u32>)> = vec![
        (vec![], vec![]),
        (vec![1], vec![]),
        (vec![], vec![1]),
        (vec![1, 2, 3, 4], vec![4, 3, 2, 1]),
        (vec![1, 2, 3, 1, 2, 3], vec![3, 2, 1, 3, 2, 1]),
        (vec![5, 1, 5, 2, 5, 3], vec![5, 5, 5]),
        (vec![10, 20, 30, 40, 50], vec![20, 30, 35, 50, 60, 70]),
        (vec![0, 0, 1, 0], vec![0, 1, 0, 0]),
    ];
    for (a, b) in cases {
        let segments = diff(&list(&a), &list(&b));
        assert_eq!(side(&segments, DiffType::Rem), a);
        assert_eq!(side(&segments, DiffType::Add), b);
    }
}

#[test]
fn segments_are_maximal_runs() {
    let segments = diff(&list(&[1, 2, 3, 9, 9, 4, 5]), &list(&[1, 2, 8, 8, 8, 4, 5, 6]));
    for segment in &segments {
        assert!(!segment.data().is_empty());
    }
    for pair in segments.windows(2) {
        assert_ne!(pair[0].diff_type(), pair[1].diff_type());
    }
}

#[test]
fn edit_script_is_shortest() {
    // The longest common subsequence of these has length 4.
    let a = [1, 2, 3, 4, 1, 2];
    let b = [2, 4, 3, 1, 2, 5];
    let segments = diff(&list(&a), &list(&b));
    assert_eq!(changed(&segments), a.len() + b.len() - 2 * 4);
}

#[test]
fn segment_accessors() {
    let segment = Diff::new(DiffType::Add, vec![dhd::hashlist::Hash::new(3)]);
    assert_eq!(segment.diff_type(), DiffType::Add);
    assert_eq!(segment.data().to_vec(), vec![dhd::hashlist::Hash::new(3)]);
}

#[test]
fn segment_as_canonical_string() {
    let segment = Diff::new(
        DiffType::Rem,
        vec![dhd::hashlist::Hash::new(1), dhd::hashlist::Hash::new(u32::MAX)],
    );
    assert_eq!(segment.data_string(), "1\n4294967295");
    assert_eq!(Diff::new(DiffType::Same, vec![]).data_string(), "");
}

#[test]
fn segment_from_canonical_string() {
    let segment = Diff::from_data_string(DiffType::Add, "7\n8").unwrap();
    assert_eq!(segment.diff_type(), DiffType::Add);
    assert_eq!(
        segment.data().to_vec(),
        vec![dhd::hashlist::Hash::new(7), dhd::hashlist::Hash::new(8)]
    );
    let malformed = Diff::from_data_string(DiffType::Add, "7\nx\n8");
    assert_eq!(malformed.err().map(|e| e.line), Some(1));
    assert_eq!(Diff::from_data_string(DiffType::Same, "").err().map(|e| e.line), Some(0));
}
