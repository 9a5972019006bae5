use proteus_lib::cover_map::{map_cover, normalize_ranges, Cover, TransitionDirection};

#[test]
fn normalize_merges_and_sorts() {
    assert_eq!(normalize_ranges(vec![(5, 7), (0, 2), (2, 3), (6, 9), (4, 4)]), vec![(0, 3), (5, 9)]);
    assert_eq!(normalize_ranges(vec![]), vec![]);
}

#[test]
fn map_cover_without_transitions_interleaves() {
    assert_eq!(
        map_cover(&vec![(2, 4), (6, 8)], 10, None),
        vec![
            Cover::Underlay((0, 2)),
            Cover::Overlap((2, 4)),
            Cover::Underlay((4, 6)),
            Cover::Overlap((6, 8)),
            Cover::Underlay((8, 10)),
        ]
    );
    assert_eq!(map_cover(&vec![], 4, None), vec![Cover::Underlay((0, 4))]);
    assert_eq!(map_cover(&vec![(0, 3)], 0, Some(2)), vec![]);
}

#[test]
fn map_cover_adds_fades_around_interior_overlap() {
    assert_eq!(
        map_cover(&vec![(10, 20)], 30, Some(4)),
        vec![
            Cover::Underlay((0, 8)),
            Cover::Transition((TransitionDirection::Up, (8, 12))),
            Cover::Overlap((12, 18)),
            Cover::Transition((TransitionDirection::Down, (18, 22))),
            Cover::Underlay((22, 30)),
        ]
    );
}

#[test]
fn map_cover_whole_range_overlap_has_no_fades() {
    assert_eq!(map_cover(&vec![(0, 30)], 30, Some(4)), vec![Cover::Overlap((0, 30))]);
}

#[test]
fn map_cover_drops_too_short_overlaps_and_merges_small_gaps() {
    assert_eq!(map_cover(&vec![(10, 12)], 30, Some(4)), vec![Cover::Underlay((0, 30))]);
    assert_eq!(
        map_cover(&vec![(10, 20), (22, 28)], 40, Some(4)),
        vec![
            Cover::Underlay((0, 8)),
            Cover::Transition((TransitionDirection::Up, (8, 12))),
            Cover::Overlap((12, 26)),
            Cover::Transition((TransitionDirection::Down, (26, 30))),
            Cover::Underlay((30, 40)),
        ]
    );
}

#[test]
fn map_cover_edge_overlap_gets_one_fade() {
    assert_eq!(
        map_cover(&vec![(0, 5)], 20, Some(4)),
        vec![
            Cover::Overlap((0, 3)),
            Cover::Transition((TransitionDirection::Down, (3, 7))),
            Cover::Underlay((7, 20)),
        ]
    );
}

#[test]
fn map_cover_without_transitions_marks_exactly_the_covered_points() {
    let ranges = vec![(3, 6), (5, 9), (12, 30), (0, 1)];
    let len = 20;
    let out = map_cover(&ranges, len, None);
    for p in 0..len {
        let in_overlap = out.iter().any(|c| matches!(c, Cover::Overlap((s, e)) if *s <= p && p < *e));
        let covered = ranges.iter().any(|&(s, e)| s.min(len) <= p && p < e.min(len));
        assert_eq!(in_overlap, covered, "point {p}");
    }
}

#[test]
fn map_cover_transitions_are_full_unless_cut_at_an_edge() {
    let len = 100;
    let t = 10;
    let out = map_cover(&vec![(2, 30), (50, 70), (96, 200)], len, Some(t));
    let mut transitions = 0;
    for c in &out {
        if let Cover::Transition((_, (a, b))) = c {
            transitions += 1;
            assert!(a < b && b - a <= t);
            assert!(b - a == t || *a == 0 || *b == len);
        }
    }
    assert!(transitions > 0);
    let plain = map_cover(&vec![(0, 5), (5, 9), (20, 30)], 40, None);
    for pair in plain.windows(2) {
        assert!(!matches!(pair, [Cover::Overlap(_), Cover::Overlap(_)] | [Cover::Underlay(_), Cover::Underlay(_)]));
    }
    assert!(plain.iter().all(|c| !matches!(c, Cover::Transition(_))));
}
