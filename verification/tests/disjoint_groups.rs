use core::ops::Range;
use slvr_rust_lib::disjoint_groups::check_valid_disjoint_groups;
use slvr_rust_lib::disjoint_groups::GetManyDisjointGrouped;
use slvr_rust_lib::disjoint_groups::GetManyDisjointGroupedError;

type Groups = Vec<Vec<Range<usize>>>;

/// Builds a groups structure out of consecutive segments of the index space:
/// each segment either pads (no group) or appends its range to one group.
/// The segments never overlap, so the result is valid for any sequence that
/// holds every covered index.
fn build_disjoint_groups(segments: &[(Option<usize>, usize)]) -> Groups {
    let mut max_group: usize = 0;
    for (group, _len) in segments {
        if let Some(g) = group {
            if *g > max_group {
                max_group = *g;
            }
        }
    }
    let mut groups: Groups = Vec::with_capacity(max_group + 1);
    for _ in 0..=max_group {
        groups.push(Vec::new());
    }
    let mut count: usize = 0;
    for (group, len) in segments {
        match group {
            None => {
                count += len;
            }
            Some(group) => {
                groups[*group].push(Range { start: count, end: count + *len });
                count += len;
            }
        }
    }
    groups
}

/// A deterministic family of segment lists, spanning up to 10 segments, up
/// to 10 groups and segment lengths up to 10.
fn segment_cases() -> Vec<Vec<(Option<usize>, usize)>> {
    let mut cases = Vec::new();
    for a in 0..10usize {
        for b in 0..10usize {
            let mut segments = Vec::new();
            for s in 0..a {
                let group = if (s + b) % 3 == 0 { None } else { Some((s * 7 + b) % 10) };
                let len = (s * 5 + b) % 10 + 1;
                segments.push((group, len));
            }
            cases.push(segments);
        }
    }
    cases
}

fn max_end(groups: &Groups) -> usize {
    let mut max: usize = 0;
    for group in groups {
        for r in group {
            if r.end > max {
                max = r.end;
            }
        }
    }
    max
}

#[test]
fn test_valid_groups() {
    for segments in segment_cases() {
        let groups = build_disjoint_groups(&segments);
        let max = max_end(&groups);
        let mut vslice = Vec::new();
        for _ in 0..max {
            vslice.push(true);
        }
        match vslice.check_valid_disjoint_groups(&groups) {
            Ok(()) => {}
            Err(e) => panic!("{} - slice len: {}", e.message(), vslice.len()),
        }
    }
}

#[test]
fn test_short_groups() {
    for segments in segment_cases() {
        let groups = build_disjoint_groups(&segments);
        let max = max_end(&groups).saturating_sub(1);
        if max == 0 {
            continue;
        }
        let mut vslice = Vec::new();
        for _ in 0..max {
            vslice.push(true);
        }
        match vslice.check_valid_disjoint_groups(&groups) {
            Err(GetManyDisjointGroupedError::OutOfBounds) => {}
            Ok(()) => panic!("should have errored due to out of bounds - slice len: {}", vslice.len()),
            Err(e) => panic!("{} - slice len: {}", e.message(), vslice.len()),
        }
    }
}

#[derive(Debug, PartialEq)]
enum Expected {
    Pass,
    NotDisjoint,
    OutOfBounds,
}

/// Builds one (groups, bounds, expected outcome) case out of consecutive
/// segments, where a segment may shift its range backwards onto the previous
/// one (making the request overlap) and the bounds may be shrunk below the
/// covered maximum (pushing the request out of bounds).
fn bounds_case(
    oob_count: Option<usize>,
    segments: Vec<(Option<usize>, usize, Option<usize>)>,
) -> (Groups, Range<usize>, Expected) {
    let mut max_group: usize = 0;
    for (group, _len, _shift) in &segments {
        if let Some(g) = group {
            if *g > max_group {
                max_group = *g;
            }
        }
    }
    let mut groups: Groups = Vec::with_capacity(max_group + 1);
    for _ in 0..=max_group {
        groups.push(Vec::new());
    }
    let mut expected = Expected::Pass;
    if oob_count.is_some() {
        expected = Expected::OutOfBounds;
    }
    let mut count: usize = 0;
    let mut last_end: usize = 0;
    let mut last_start: usize = 0;
    let mut max: usize = 0;
    let mut min: usize = usize::MIN;
    for (group, len, overlap_shift) in segments {
        match group {
            None => {
                count += len;
            }
            Some(group) => {
                if let Some(shift) = overlap_shift {
                    if count > shift && last_end > shift && last_start < count.saturating_sub(shift)
                    {
                        count = count.saturating_sub(shift);
                        if count < last_end {
                            expected = Expected::NotDisjoint;
                        }
                    }
                }
                min = min.min(len);
                groups[group].push(Range { start: count, end: count + len });
                last_start = count;
                count += len;
                last_end = count;
                max = max.max(count);
            }
        }
    }
    let mut bounds = Range { start: min, end: max };
    if let Some(oob) = oob_count {
        if bounds.len() > 1 {
            bounds.end = bounds.end.saturating_sub(oob);
        } else if expected == Expected::OutOfBounds {
            expected = Expected::Pass;
        }
    }
    (groups, bounds, expected)
}

fn next(state: &mut u64) -> u64 {
    *state = state
        .wrapping_mul(6364136223846793005)
        .wrapping_add(1442695040888963407);
    *state >> 33
}

#[test]
fn test_groups() {
    let mut state: u64 = 20;
    for _ in 0..=100 {
        let oob_count = if next(&mut state) % 2 == 0 {
            Some(1 + next(&mut state) as usize % (20 * 3 - 1))
        } else {
            None
        };
        let n_segments = next(&mut state) as usize % 20;
        let mut segments = Vec::new();
        for _ in 0..n_segments {
            let group = if next(&mut state) % 4 == 0 {
                None
            } else {
                Some(next(&mut state) as usize % 20)
            };
            let len = 1 + next(&mut state) as usize % 20;
            let shift = if next(&mut state) % 2 == 0 {
                Some(1 + next(&mut state) as usize % 19)
            } else {
                None
            };
            segments.push((group, len, shift));
        }
        let (groups, bounds, expected) = bounds_case(oob_count, segments);
        let result = check_valid_disjoint_groups(&bounds, &groups);
        match (result, expected) {
            (Ok(()), Expected::Pass) => {}
            (Err(GetManyDisjointGroupedError::OutOfBounds), Expected::OutOfBounds) => {}
            (Err(GetManyDisjointGroupedError::NotDisjoint), Expected::NotDisjoint) => {}
            (res, expected) => panic!("got {:?} expected {:?}", res, expected),
        }
    }
}

#[test]
fn scenario_two_disjoint_groups() {
    let items: Vec<u32> = (0..10).collect();
    let groups: Groups = vec![vec![0..3], vec![3..6]];
    let out = items.get_many_disjoint_grouped(groups).unwrap();
    assert_eq!(out.len(), 2);
    assert_eq!(out[0], vec![&0, &1, &2]);
    assert_eq!(out[1], vec![&3, &4, &5]);
}

#[test]
fn scenario_overlapping_groups() {
    let items: Vec<u32> = (0..10).collect();
    let groups: Groups = vec![vec![0..5], vec![4..8]];
    let err = items.get_many_disjoint_grouped(groups).unwrap_err();
    assert_eq!(err, GetManyDisjointGroupedError::NotDisjoint);
}

#[test]
fn scenario_out_of_bounds() {
    let items: Vec<u32> = (0..5).collect();
    let groups: Groups = vec![vec![0..3], vec![3..7]];
    let err = items.get_many_disjoint_grouped(groups).unwrap_err();
    assert_eq!(err, GetManyDisjointGroupedError::OutOfBounds);
}

#[test]
fn scenario_empty_range() {
    let items: Vec<u32> = (0..10).collect();
    let groups: Groups = vec![vec![2..2]];
    let out = items.get_many_disjoint_grouped(groups).unwrap();
    assert_eq!(out.len(), 1);
    assert!(out[0].is_empty());
}

#[test]
fn scenario_no_groups() {
    let items: Vec<u32> = (0..10).collect();
    let groups: Groups = Vec::new();
    let out = items.get_many_disjoint_grouped(groups).unwrap();
    assert!(out.is_empty());
}

#[test]
fn not_disjoint_takes_precedence_over_out_of_bounds() {
    // Both failures at once: ranges [0, 8) and [5, 12) overlap, and their
    // envelope also leaves the bounds [0, 10).
    let items: Vec<u32> = (0..10).collect();
    let groups: Groups = vec![vec![0..8], vec![5..12]];
    let err = items.get_many_disjoint_grouped(groups).unwrap_err();
    assert_eq!(err, GetManyDisjointGroupedError::NotDisjoint);
}

#[test]
fn overlap_within_one_group_rejected() {
    let items: Vec<u32> = (0..10).collect();
    let groups: Groups = vec![vec![1..4, 3..5]];
    assert_eq!(
        items.check_valid_disjoint_groups(&groups),
        Err(GetManyDisjointGroupedError::NotDisjoint)
    );
}

#[test]
fn duplicate_range_rejected() {
    let items: Vec<u32> = (0..10).collect();
    let groups: Groups = vec![vec![2..4], vec![2..4]];
    assert_eq!(
        items.check_valid_disjoint_groups(&groups),
        Err(GetManyDisjointGroupedError::NotDisjoint)
    );
}

#[test]
fn unsorted_disjoint_ranges_accepted() {
    let items: Vec<u32> = (0..10).collect();
    let groups: Groups = vec![vec![5..7, 0..2], vec![8..10]];
    let out = items.get_many_disjoint_grouped(groups).unwrap();
    // Each group keeps its declared range order, each range ascending order.
    assert_eq!(out[0], vec![&5, &6, &0, &1]);
    assert_eq!(out[1], vec![&8, &9]);
}

#[test]
fn bounds_reports_extent() {
    let items: Vec<u32> = (0..7).collect();
    let b = items.bounds();
    assert_eq!(b, 0..7);
    let empty: Vec<u32> = Vec::new();
    assert_eq!(empty.bounds(), 0..0);
}

#[test]
fn unchecked_matches_checked() {
    let items: Vec<u32> = (0..10).collect();
    let groups: Groups = vec![vec![5..7, 0..2], vec![8..10]];
    let checked = items.get_many_disjoint_grouped(groups.clone()).unwrap();
    let unchecked = items.get_many_disjoint_grouped_unchecked(&groups);
    assert_eq!(checked, unchecked);
}

#[test]
fn mut_handles_are_disjoint_and_complete() {
    let items: Vec<u32> = (0..10).collect();
    let groups: Groups = vec![vec![5..7, 0..2], vec![8..10], vec![3..3]];
    let handles = items.get_many_disjoint_grouped_mut(groups).unwrap();
    assert_eq!(handles.len(), 3);
    assert_eq!(handles[0], vec![5, 6, 0, 1]);
    assert_eq!(handles[1], vec![8, 9]);
    assert!(handles[2].is_empty());
    let mut all: Vec<usize> = handles.iter().flatten().copied().collect();
    assert_eq!(all.len(), 6);
    all.sort();
    all.dedup();
    // No index is handed out twice, and all of them are in bounds.
    assert_eq!(all.len(), 6);
    assert!(all.iter().all(|&i| i < items.len()));
}

#[test]
fn mut_handles_grant_exclusive_access() {
    let mut items: Vec<u32> = (0..10).collect();
    let groups: Groups = vec![vec![0..2], vec![4..6]];
    let handles = items.get_many_disjoint_grouped_mut(groups).unwrap();
    for (g, group) in handles.iter().enumerate() {
        for &i in group {
            items[i] = 100 + g as u32;
        }
    }
    assert_eq!(items, vec![100, 100, 2, 3, 101, 101, 6, 7, 8, 9]);
}

#[test]
fn error_messages() {
    assert_eq!(
        GetManyDisjointGroupedError::OutOfBounds.message(),
        "At least one group exceeds the bounds of the slice"
    );
    assert_eq!(
        GetManyDisjointGroupedError::NotDisjoint.message(),
        "At least one group overlaps another group"
    );
}
