//! Tests for the range-remapping engine: single lookups, range splitting,
//! table traversal, chain queries, and the parser.

use advent23::day05::{Correspondence, ResourceMap, SeedData};

fn correspondence(source: u64, destination: u64, length: u64) -> Correspondence {
    Correspondence::new(source, destination, length)
}

#[test]
fn lookup_translates_inside_and_rejects_outside() {
    let c = correspondence(98, 50, 2);
    assert_eq!(c.lookup(97), None);
    assert_eq!(c.lookup(98), Some(50));
    assert_eq!(c.lookup(99), Some(51));
    // the source interval is closed: source_start + range_length is covered
    assert_eq!(c.lookup(100), Some(52));
    assert_eq!(c.lookup(101), None);
}

#[test]
fn split_range_no_intersection_returns_range_unchanged() {
    let c = correspondence(98, 50, 2);
    let (overlap, rem) = c.split_range((79, 93));
    assert_eq!(overlap, None);
    assert_eq!(rem, vec![(79, 93)]);
}

#[test]
fn split_range_partial_intersection_translates_the_covered_part() {
    let c = correspondence(98, 50, 2);
    let (overlap, rem) = c.split_range((96, 99));
    assert_eq!(overlap, Some((50, 51)));
    assert_eq!(rem, vec![(96, 97)]);
}

#[test]
fn split_range_spanning_range_leaves_two_remainders() {
    let c = correspondence(10, 100, 4);
    let (overlap, rem) = c.split_range((5, 20));
    assert_eq!(overlap, Some((100, 104)));
    assert_eq!(rem, vec![(5, 9), (15, 20)]);
}

#[test]
fn split_range_fully_inside_leaves_no_remainder() {
    let c = correspondence(10, 100, 10);
    let (overlap, rem) = c.split_range((12, 15));
    assert_eq!(overlap, Some((102, 105)));
    assert_eq!(rem, Vec::<(u64, u64)>::new());
}

#[test]
fn partition_reconstructs_the_input_range() {
    // every value of the input range lands in exactly one output piece
    let c = correspondence(10, 100, 4);
    let (overlap, rem) = c.split_range((5, 20));
    for v in 5u64..=20 {
        let covered = 10 <= v && v <= 14;
        let in_overlap = match overlap {
            Some((a, b)) => {
                let w = v - 10 + 100;
                covered && a <= w && w <= b
            },
            None => false,
        };
        let in_rem = rem.iter().filter(|(a, b)| *a <= v && v <= *b).count();
        if covered {
            assert!(in_overlap && in_rem == 0);
        } else {
            assert!(!in_overlap && in_rem == 1);
        }
    }
}

#[test]
fn correspondence_overlaps_splits_each_range() {
    let c = correspondence(98, 50, 2);
    let (leftovers, overlaps) = c.overlaps(&vec![(79, 93), (96, 99)]);
    assert_eq!(leftovers, vec![(79, 93), (96, 97)]);
    assert_eq!(overlaps, vec![(50, 51)]);
}

#[test]
fn table_lookup_uses_first_rule_and_identity() {
    let mut table = ResourceMap::new(String::from("seed"), String::from("soil"));
    table.add_correspondence_from_line("50 98 2");
    table.add_correspondence_from_line("52 50 48");
    assert_eq!(table.lookup(98), 50);
    assert_eq!(table.lookup(99), 51);
    assert_eq!(table.lookup(53), 55);
    // identity: a value outside every source interval passes through
    assert_eq!(table.lookup(10), 10);
}

#[test]
fn table_order_does_not_change_lookup() {
    let mut forward = ResourceMap::new(String::from("a"), String::from("b"));
    forward.add_correspondence_from_line("50 98 2");
    forward.add_correspondence_from_line("52 50 40");
    let mut backward = ResourceMap::new(String::from("a"), String::from("b"));
    backward.add_correspondence_from_line("52 50 40");
    backward.add_correspondence_from_line("50 98 2");
    for v in 0u64..=120 {
        assert_eq!(forward.lookup(v), backward.lookup(v));
    }
}

#[test]
fn table_order_does_not_change_range_results() {
    let mut forward = ResourceMap::new(String::from("a"), String::from("b"));
    forward.add_correspondence_from_line("50 98 2");
    forward.add_correspondence_from_line("52 50 40");
    let mut backward = ResourceMap::new(String::from("a"), String::from("b"));
    backward.add_correspondence_from_line("52 50 40");
    backward.add_correspondence_from_line("50 98 2");
    let values = |ranges: Vec<(u64, u64)>| {
        let mut vs: Vec<u64> = ranges.iter().flat_map(|(a, b)| *a..=*b).collect();
        vs.sort();
        vs.dedup();
        vs
    };
    assert_eq!(values(forward.overlaps(40, 110)), values(backward.overlaps(40, 110)));
}

#[test]
fn table_overlaps_identity_for_uncovered_range() {
    let mut table = ResourceMap::new(String::from("a"), String::from("b"));
    table.add_correspondence_from_line("50 98 2");
    let out = table.overlaps(79, 93);
    assert_eq!(out, vec![(79, 93)]);
}

#[test]
fn describe_renders_the_rule_list() {
    let mut table = ResourceMap::new(String::from("seed"), String::from("soil"));
    table.add_correspondence_from_line("50 98 2");
    assert_eq!(table.describe(), "seed to soil:\n    98-100 -> 50-52\n");
}

#[test]
fn from_line_reads_the_category_names() {
    let table = ResourceMap::from_line("seed-to-soil map:");
    assert_eq!(table.from, "seed");
    assert_eq!(table.to, "soil");
}

#[test]
fn correspondence_from_line_reads_destination_first() {
    let c = Correspondence::from_line("50 98 2");
    assert_eq!(c.source_start, 98);
    assert_eq!(c.destination_start, 50);
    assert_eq!(c.range_length, 2);
}

const SAMPLE: &str = "seeds: 79 14 55 13\n\nseed-to-soil map:\n50 98 2\n52 50 48\n\nsoil-to-location map:\n10 50 19\n";

#[test]
fn from_string_reads_seeds_and_tables() {
    let data = SeedData::from_string(SAMPLE).unwrap();
    assert_eq!(data.seeds, vec![79, 14, 55, 13]);
    // the initial empty table plus the two parsed ones
    assert_eq!(data.resource_maps.len(), 3);
    assert_eq!(data.resource_maps[1].from, "seed");
    assert_eq!(data.resource_maps[1].to, "soil");
    assert_eq!(data.resource_maps[2].from, "soil");
    assert_eq!(data.resource_maps[2].to, "location");
}

#[test]
fn single_value_and_singleton_range_agree() {
    let data = SeedData::from_string(SAMPLE).unwrap();
    for v in [0u64, 49, 50, 55, 79, 97, 98, 99, 100, 200] {
        let point = data.smallest_location_for_seed(v);
        let range = data.smallest_location_for_range(v, v);
        assert_eq!(point, range);
    }
}

#[test]
fn range_traversal_matches_brute_force() {
    let data = SeedData::from_string(SAMPLE).unwrap();
    // pairwise reading: (79, 14) and (55, 13), both ends included
    let mut brute = u64::MAX;
    for (start, len) in [(79u64, 14u64), (55, 13)] {
        for v in start..=start + len {
            let loc = data.smallest_location_for_seed(v);
            if loc < brute {
                brute = loc;
            }
        }
    }
    assert_eq!(data.smallest_location_for_all_ranges(), brute);
}

#[test]
fn all_seeds_takes_the_minimum_over_single_values() {
    let data = SeedData::from_string(SAMPLE).unwrap();
    let mut brute = u64::MAX;
    for v in [79u64, 14, 55, 13] {
        let loc = data.smallest_location_for_seed(v);
        if loc < brute {
            brute = loc;
        }
    }
    assert_eq!(data.smallest_location_for_all_seeds(), brute);
}

#[test]
fn empty_input_yields_no_seeds_and_one_table() {
    let data = SeedData::from_string("").unwrap();
    assert_eq!(data.seeds, Vec::<u64>::new());
    assert_eq!(data.resource_maps.len(), 1);
    assert_eq!(data.resource_maps[0].from, "seed");
}

#[test]
fn no_ranges_means_max_location() {
    let data = SeedData::from_string("seeds:\n").unwrap();
    assert_eq!(data.smallest_location_for_all_ranges(), u64::MAX);
}
