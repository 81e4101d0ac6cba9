use almanac::parse::Seeds;
use almanac::solve::{min_in_range, solve_ranged, solve_single, split_into_chunks, RangeError, CHUNK_LEN};
use almanac::{is_almanac, parse, part_one, part_two, seeds_pair_up, IntervalMap, MapSection};

const EXAMPLE: &str = "seeds: 79 14 55 13

seed-to-soil map:
50 98 2
52 50 48

soil-to-fertilizer map:
0 15 37
37 52 2
39 0 15

fertilizer-to-water map:
49 53 8
0 11 42
42 0 7
57 7 4

water-to-light map:
88 18 7
18 25 70

light-to-temperature map:
45 77 23
81 45 19
68 64 13

temperature-to-humidity map:
0 69 1
1 0 69

humidity-to-location map:
60 56 37
56 93 4
";

const LIGHT_TO_TEMPERATURE: &str = "light-to-temperature map:
45 77 23
81 45 19
68 64 13";

fn section(maps: &[(u64, u64, u64)]) -> MapSection {
    MapSection {
        source: "a".to_string(),
        dest: "b".to_string(),
        map: maps
            .iter()
            .map(|&(dest_start, source_start, len)| IntervalMap {
                source_start,
                dest_start,
                len,
            })
            .collect(),
    }
}

#[test]
fn test_parse_seeds() {
    let input = "seeds: 79 14 55 13  141";
    let (input, seeds) = Seeds::parse(input).unwrap();
    assert_eq!(input, "");
    assert_eq!(seeds, Seeds(vec![79, 14, 55, 13, 141]));
}

#[test]
fn test_parse_map() {
    let input = "60 56 37";
    let (input, map) = IntervalMap::parse(input).unwrap();
    assert_eq!(input, "");
    assert_eq!(
        map,
        IntervalMap {
            source_start: 56,
            dest_start: 60,
            len: 37
        }
    );
}

#[test]
fn test_parse_map_section() {
    let input = LIGHT_TO_TEMPERATURE;
    let (input, map_section) = MapSection::parse(input).unwrap();
    assert_eq!(input, "");
    assert_eq!(
        map_section,
        MapSection {
            source: "light".to_string(),
            dest: "temperature".to_string(),
            map: vec![
                IntervalMap {
                    source_start: 77,
                    dest_start: 45,
                    len: 23
                },
                IntervalMap {
                    source_start: 45,
                    dest_start: 81,
                    len: 19
                },
                IntervalMap {
                    source_start: 64,
                    dest_start: 68,
                    len: 13
                }
            ]
        }
    )
}

#[test]
fn test_parse_example() {
    parse(EXAMPLE);
    assert!(is_almanac(EXAMPLE));
}

#[test]
fn test_map() {
    let map = IntervalMap {
        source_start: 53,
        dest_start: 49,
        len: 8,
    };
    assert_eq!(map.process(53), Some(49));
    assert_eq!(map.process(55), Some(51));
    assert_eq!(map.process(49), None);
}

#[test]
fn test_map_section() {
    let input = LIGHT_TO_TEMPERATURE;
    let (_, map_section) = MapSection::parse(input).unwrap();
    assert_eq!(map_section.process(77), 45);
    assert_eq!(map_section.process(50), 86);
    assert_eq!(map_section.process(66), 70);
    assert_eq!(map_section.process(2000), 2000);
}

#[test]
fn test_part_one() {
    let result = part_one(EXAMPLE);
    assert_eq!(result, Some(35));
}

#[test]
fn test_part_two() {
    let result = part_two(EXAMPLE);
    assert_eq!(result, Some(46));
}

#[test]
fn interval_map_bounds() {
    let map = IntervalMap {
        source_start: 10,
        dest_start: 100,
        len: 5,
    };
    assert_eq!(map.process(10), Some(100));
    assert_eq!(map.process(14), Some(104));
    assert_eq!(map.process(15), None);
    assert_eq!(map.process(9), None);
    let top = IntervalMap {
        source_start: u64::MAX - 1,
        dest_start: 0,
        len: 2,
    };
    assert_eq!(top.process(u64::MAX), Some(1));
}

#[test]
fn stage_without_match_keeps_value() {
    let sec = section(&[(0, 10, 5), (100, 20, 5)]);
    assert_eq!(sec.process(15), 15);
    assert_eq!(sec.process(0), 0);
    assert_eq!(section(&[]).process(42), 42);
}

#[test]
fn stage_first_match_wins() {
    let sec = section(&[(100, 10, 10), (500, 5, 20)]);
    assert_eq!(sec.process(12), 102);
    assert_eq!(sec.process(7), 502);
}

#[test]
fn pipeline_order_matters() {
    let (seeds, sections) = parse(EXAMPLE);
    let mut reversed: Vec<MapSection> = sections.clone();
    reversed.reverse();
    assert_eq!(solve_single(&sections, &seeds.0), Some(35));
    assert_ne!(solve_single(&reversed, &seeds.0), Some(35));
    let mut v = 79;
    for sec in sections.iter() {
        v = sec.process(v);
    }
    assert_eq!(v, 82);
    assert_eq!(almanac::resolve::resolve_all(&sections, 79), 82);
}

#[test]
fn singleton_ranges_match_single_seeds() {
    let (seeds, sections) = parse(EXAMPLE);
    let pairs: Vec<u64> = seeds.0.iter().flat_map(|&s| [s, 1]).collect();
    assert_eq!(
        solve_ranged(&sections, &pairs),
        Ok(solve_single(&sections, &seeds.0))
    );
    assert_eq!(solve_ranged(&sections, &pairs), Ok(Some(35)));
}

#[test]
fn chunked_minimum_matches_full_enumeration() {
    let (_, sections) = parse(EXAMPLE);
    let ranges = vec![(0u64, 2 * CHUNK_LEN + 17), (79, 14)];
    let chunks = split_into_chunks(&ranges);
    assert!(chunks.len() >= 4);
    assert!(chunks.iter().all(|c| c.1 > 0 && c.1 <= CHUNK_LEN));
    let whole = min_in_range(&sections, 0, 2 * CHUNK_LEN + 17);
    let by_chunk = chunks
        .iter()
        .filter_map(|c| min_in_range(&sections, c.0, c.1))
        .min();
    assert_eq!(by_chunk, whole.min(min_in_range(&sections, 79, 14)));
    let flat = vec![0u64, 2 * CHUNK_LEN + 17, 79, 14];
    assert_eq!(solve_ranged(&sections, &flat), Ok(by_chunk));
    assert_eq!(solve_ranged(&sections, &flat), Ok(Some(0)));
}

#[test]
fn ranged_example_split_three_ways() {
    let (_, sections) = parse(EXAMPLE);
    let split = vec![79u64, 5, 84, 9, 55, 13];
    assert_eq!(solve_ranged(&sections, &split), Ok(Some(46)));
}

#[test]
fn odd_seed_count_is_an_error() {
    let (_, sections) = parse(EXAMPLE);
    assert_eq!(
        solve_ranged(&sections, &vec![79, 14, 55]),
        Err(RangeError::OddSeedCount)
    );
    let odd = EXAMPLE.replacen("seeds: 79 14 55 13", "seeds: 79 14 55", 1);
    assert!(is_almanac(&odd));
    assert_eq!(part_one(&odd), Some(43));
    assert!(!seeds_pair_up(&odd));
    assert!(seeds_pair_up(EXAMPLE));
}

#[test]
fn overflowing_range_is_an_error() {
    let (_, sections) = parse(EXAMPLE);
    assert_eq!(
        solve_ranged(&sections, &vec![u64::MAX, 1]),
        Err(RangeError::RangeOverflow)
    );
    assert_eq!(solve_ranged(&sections, &vec![u64::MAX - 1, 1]), Ok(Some(u64::MAX - 1)));
}

#[test]
fn empty_ranges_have_no_minimum() {
    let (_, sections) = parse(EXAMPLE);
    assert_eq!(solve_ranged(&sections, &vec![5, 0]), Ok(None));
}

#[test]
fn malformed_map_line_is_rejected() {
    let bad = EXAMPLE.replacen("50 98 2", "50 98", 1);
    assert!(!is_almanac(&bad));
    assert!(IntervalMap::parse("60 56").is_none());
}

#[test]
fn missing_seeds_prefix_is_rejected() {
    let bad = EXAMPLE.replacen("seeds:", "", 1);
    assert!(!is_almanac(&bad));
    assert!(Seeds::parse("seeds:\n").is_none());
    assert!(Seeds::parse("79 14").is_none());
    assert!(Seeds::parse("seeds:79").is_none());
}

#[test]
fn leftover_text_is_rejected() {
    let trailing = format!("{}\n", EXAMPLE);
    assert!(!is_almanac(&trailing));
    let unterminated = EXAMPLE.trim_end();
    assert!(!is_almanac(unterminated));
    let junk = format!("{}x\n", EXAMPLE);
    assert!(!is_almanac(&junk));
}

#[test]
fn number_too_large_is_rejected() {
    assert!(Seeds::parse("seeds: 18446744073709551616").is_none());
    let (rest, seeds) = Seeds::parse("seeds: 18446744073709551615").unwrap();
    assert_eq!(rest, "");
    assert_eq!(seeds, Seeds(vec![u64::MAX]));
}

#[test]
fn empty_or_unrepresentable_rule_is_rejected() {
    assert!(IntervalMap::parse("60 56 0").is_none());
    assert!(IntervalMap::parse("18446744073709551615 0 2").is_none());
    assert!(IntervalMap::parse("0 18446744073709551615 2").is_none());
    assert!(IntervalMap::parse("18446744073709551615 0 1").is_some());
}

#[test]
fn parse_stops_where_the_grammar_stops() {
    let (rest, seeds) = Seeds::parse("seeds: 1 2 \nx").unwrap();
    assert_eq!(rest, " \nx");
    assert_eq!(seeds, Seeds(vec![1, 2]));
    let (rest, (src, dst)) = MapSection::parse_header("seed-to-soil map:\n1 2 3").unwrap();
    assert_eq!(rest, "\n1 2 3");
    assert_eq!(src, "seed");
    assert_eq!(dst, "soil");
    assert!(MapSection::parse_header("seed-to-soil map").is_none());
    let (rest, sec) = MapSection::parse("a-to-b map:\n1 2 3\n\nc").unwrap();
    assert_eq!(rest, "\n\nc");
    assert_eq!(sec.map.len(), 1);
}

#[test]
fn tabs_and_blank_runs_separate_tokens() {
    let text = "seeds:\t3 \t4\n\r\nx-to-y map:\n10\t3  2\n";
    assert_eq!(part_one(text), Some(10));
    assert_eq!(part_two(text), Some(5));
}

#[test]
fn non_ascii_rest_is_handed_back() {
    let (rest, seeds) = Seeds::parse("seeds: 1é").unwrap();
    assert_eq!(rest, "é");
    assert_eq!(seeds, Seeds(vec![1]));
    let (rest, seeds) = Seeds::parse("seeds: 1\né").unwrap();
    assert_eq!(rest, "\né");
    assert_eq!(seeds, Seeds(vec![1]));
    let (rest, m) = IntervalMap::parse("1 2 3\né").unwrap();
    assert_eq!(rest, "\né");
    assert_eq!(m, IntervalMap { source_start: 2, dest_start: 1, len: 3 });
    let (rest, (src, dst)) = MapSection::parse_header("a-to-b map:é").unwrap();
    assert_eq!(rest, "é");
    assert_eq!((src.as_str(), dst.as_str()), ("a", "b"));
    assert!(!is_almanac("seeds: 1\n\nä-to-b map:\n1 2 3\n"));
}

#[test]
fn reversed_stages_change_the_answer() {
    let header_end = EXAMPLE.find("\n\n").unwrap();
    let seed_line = &EXAMPLE[..header_end];
    let sections: Vec<&str> = EXAMPLE[header_end + 2..].trim_end().split("\n\n").collect();
    let reversed: Vec<&str> = sections.into_iter().rev().collect();
    let text = format!("{}\n\n{}\n", seed_line, reversed.join("\n\n"));
    assert!(is_almanac(&text));
    assert_eq!(part_one(&text), Some(18));
    assert_ne!(part_one(&text), part_one(EXAMPLE));
}

#[test]
fn unrelated_labels_are_kept_in_file_order() {
    let text = "seeds: 1\n\na-to-b map:\n1 2 3\n\nc-to-d map:\n4 5 6\n";
    let (seeds, sections) = parse(text);
    assert_eq!(seeds, Seeds(vec![1]));
    assert_eq!(sections.len(), 2);
    assert_eq!((sections[0].source.as_str(), sections[0].dest.as_str()), ("a", "b"));
    assert_eq!((sections[1].source.as_str(), sections[1].dest.as_str()), ("c", "d"));
    assert_eq!(sections[1].map, vec![IntervalMap { source_start: 5, dest_start: 4, len: 6 }]);
}

#[test]
fn all_empty_ranges_give_no_location() {
    let text = "seeds: 5 0\n\na-to-b map:\n1 2 3\n";
    assert!(seeds_pair_up(text));
    assert_eq!(part_two(text), None);
    assert_eq!(part_one(text), Some(0));
}
