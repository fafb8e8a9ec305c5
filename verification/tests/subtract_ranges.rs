use kernel_core::memory::subtract_ranges;

/// Sorts the sub-ranges and merges those that overlap or touch.
fn sort_and_merge_subranges(sub_ranges: Vec<(u64, usize)>) -> Vec<(u64, usize)> {
    let mut ranges: Vec<(u64, u64)> = sub_ranges
        .iter()
        .map(|(start, len)| (*start, start.saturating_add(*len as u64)))
        .collect();
    ranges.sort_by_key(|&(start, _)| start);
    let mut merged_ranges: Vec<(u64, u64)> = Vec::new();
    for (start, end) in ranges {
        if let Some((_, last_end)) = merged_ranges.last_mut() {
            if start <= *last_end {
                *last_end = (*last_end).max(end);
            } else {
                merged_ranges.push((start, end));
            }
        } else {
            merged_ranges.push((start, end));
        }
    }
    merged_ranges
        .into_iter()
        .map(|(start, end)| (start, end.saturating_sub(start) as usize))
        .collect()
}

#[test]
fn it_works() {
    println!("hello");
    assert_eq!(2 + 2, 4);
}

#[test]
fn test_no_subranges() {
    let whole = (0x1000u64, 1000usize);
    let sub_ranges = vec![];
    let result = subtract_ranges(whole, sub_ranges).collect();
    assert_eq!(result.len(), 1);
    assert_eq!(result[0], whole);
}

#[test]
fn test_subranges_within_whole() {
    let whole = (0x1000u64, 1000usize);
    let sub_ranges = vec![(0x1100u64, 100usize), (0x1200, 200)];
    let result = subtract_ranges(whole, sub_ranges).collect();
    assert_eq!(result.len(), 3);
    assert_eq!(result[0], (0x1000, 256));
    assert_eq!(result[1], (0x1164, 156));
    assert_eq!(result[2], (0x12C8, 288));
}

#[test]
fn test_subranges_outside_whole() {
    let whole = (0x1000u64, 1000usize);
    let sub_ranges = vec![(0x0F00u64, 256usize), (0x13E8, 500), (0x1500, 100)];
    let result = subtract_ranges(whole, sub_ranges).collect();
    assert_eq!(result.len(), 1);
    assert_eq!(result[0], whole);
}

#[test]
fn test_overlapping_subranges() {
    let whole = (0x1000u64, 1000usize);
    let sub_ranges = vec![(0x1100u64, 200usize), (0x1150, 300)];
    let sub_ranges = sort_and_merge_subranges(sub_ranges);
    let result = subtract_ranges(whole, sub_ranges).collect();
    assert_eq!(result.len(), 2);
    assert_eq!(result[0], (0x1000, 256));
    assert_eq!(result[1], (0x127C, 364));
}

#[test]
fn test_subranges_cover_whole() {
    let whole = (0x1000u64, 1000usize);
    let sub_ranges = vec![(0x0F00u64, 2000usize)];
    let result = subtract_ranges(whole, sub_ranges).collect();
    assert!(result.is_empty());
}

#[test]
fn test_subranges_with_gaps() {
    let whole = (0x1000u64, 1000usize);
    let sub_ranges = vec![
        (0x1000u64, 100usize),
        (0x1100, 100),
        (0x1200, 100),
        (0x1300, 100),
    ];
    let result = subtract_ranges(whole, sub_ranges).collect();
    assert_eq!(result.len(), 4);
    assert_eq!(result[0], (0x1064, 156));
    assert_eq!(result[1], (0x1164, 156));
    assert_eq!(result[2], (0x1264, 156));
    assert_eq!(result[3], (0x1364, 132));
}

#[test]
fn test_subranges_unordered() {
    let whole = (0x1000u64, 1000usize);
    let sub_ranges = vec![(0x1200u64, 100usize), (0x1100, 100), (0x1300, 100)];
    let sub_ranges = sort_and_merge_subranges(sub_ranges);
    let result = subtract_ranges(whole, sub_ranges).collect();
    assert_eq!(result.len(), 4);
    assert_eq!(result[0], (0x1000, 256));
    assert_eq!(result[1], (0x1164, 156));
    assert_eq!(result[2], (0x1264, 156));
    assert_eq!(result[3], (0x1364, 132));
}

#[test]
fn test_subranges_with_overlaps_and_unordered() {
    let whole = (0x1000u64, 1000usize);
    let sub_ranges = vec![(0x1200u64, 300usize), (0x1100, 200), (0x1300, 100)];
    let sub_ranges = sort_and_merge_subranges(sub_ranges);
    let result = subtract_ranges(whole, sub_ranges).collect();
    assert_eq!(result.len(), 3);
    assert_eq!(result[0], (0x1000, 256));
    assert_eq!(result[1], (0x11C8, 56));
    assert_eq!(result[2], (0x1364, 132));
}

#[test]
fn subtract_ranges_real_world_4gib() {
    let whole = (0xffff_0000_4000_0000u64, 0x1_0000_0000usize);
    let ranges = vec![
        (0xffff_0000_4100_0000u64, 0x41_bc00usize),
        (0xffff_0000_ffef_c000, 0x2000),
    ];
    let res = subtract_ranges(whole, ranges).collect();
    println!("result = {res:x?}");
    assert_eq!(res.len(), 3);
    assert_eq!(res[0], (0xffff_0000_4000_0000, 0x0100_0000));
    assert_eq!(res[1], (0xffff_0000_4141_bc00, 0xbeae_0400));
    assert_eq!(res[2], (0xffff_0000_ffef_e000, 0x4010_2000));
}

#[test]
fn subtract_ranges_yields_one_range_at_a_time() {
    let mut ranges = subtract_ranges((100, 50), vec![(110, 10), (130, 5)]);
    assert_eq!(ranges.next(), Some((100, 10)));
    assert_eq!(ranges.next(), Some((120, 10)));
    assert_eq!(ranges.next(), Some((135, 15)));
    assert_eq!(ranges.next(), None);
    assert_eq!(ranges.next(), None);
}

#[test]
fn subtract_ranges_result_is_disjoint_and_covers_the_rest() {
    let whole = (1000u64, 200usize);
    let reserved = vec![(990u64, 20usize), (1050, 1), (1100, 50), (1190, 100)];
    let result = subtract_ranges(whole, reserved.clone()).collect();
    for window in result.windows(2) {
        assert!(window[0].0 + window[0].1 as u64 <= window[1].0);
    }
    for (_, len) in &result {
        assert!(*len > 0);
    }
    for x in 900u64..1400 {
        let in_whole = (1000..1200).contains(&x);
        let in_reserved = reserved
            .iter()
            .any(|(s, l)| *s <= x && x < *s + *l as u64);
        let in_result = result.iter().any(|(s, l)| *s <= x && x < *s + *l as u64);
        assert_eq!(in_result, in_whole && !in_reserved, "address {x}");
    }
}

#[test]
fn subtract_ranges_clips_at_the_end_of_the_address_space() {
    let result = subtract_ranges((u64::MAX - 10, 100), vec![(u64::MAX - 5, 2)]).collect();
    assert_eq!(result, vec![(u64::MAX - 10, 5), (u64::MAX - 3, 3)]);
}
