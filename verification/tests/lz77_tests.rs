use zstd_rs::encoder::lz77::{parse, parse_ranges, parse_with_sink, prefer_match, Event, Match, MatchConfig, MatchFinder, Strategy};

fn replay(events: &[Event], data: &[u8]) -> Vec<u8> {
    let mut out = Vec::new();
    for e in events {
        match e {
            Event::Literals(s, end) => out.extend_from_slice(&data[*s..*end]),
            Event::Match { pos: _, offset, length } => {
                let src = out.len() - offset;
                for i in 0..*length {
                    let b = out[src + i];
                    out.push(b);
                }
            }
        }
    }
    out
}

#[test]
fn test_no_match_on_random_data() {
    let data: Vec<u8> = (0..128).map(|i| (i * 37 + 11) as u8).collect();
    let events = parse(&data, &MatchConfig::default());
    let literal_bytes: usize = events
        .iter()
        .filter_map(|e| if let Event::Literals(s, end) = e { Some(end - s) } else { None })
        .sum();
    assert!(literal_bytes > 0);
}

#[test]
fn test_match_on_repetitive_data() {
    let data = b"abcabcabcabcabcabcabcabc".repeat(4);
    let events = parse(&data, &MatchConfig::default());
    let has_match = events.iter().any(|e| matches!(e, Event::Match { .. }));
    assert!(has_match, "should find matches in repetitive data");
}

const LEVEL_PARAMS: &[(usize, usize, usize, usize, usize, usize)] = &[
    (19, 13, 14, 1, 7, 0),
    (20, 15, 16, 1, 6, 0),
    (21, 16, 17, 1, 5, 0),
    (21, 18, 18, 1, 5, 0),
    (21, 18, 19, 3, 5, 2),
    (21, 18, 19, 3, 5, 4),
    (21, 19, 20, 4, 5, 8),
    (21, 19, 20, 4, 5, 16),
    (22, 20, 21, 4, 5, 16),
    (22, 21, 22, 5, 5, 16),
    (22, 21, 22, 6, 5, 16),
    (22, 22, 23, 6, 5, 32),
    (22, 22, 22, 4, 5, 32),
    (22, 22, 23, 5, 5, 32),
    (22, 23, 23, 6, 5, 32),
    (22, 22, 22, 5, 5, 48),
    (23, 23, 22, 5, 4, 64),
    (23, 23, 22, 6, 3, 64),
    (23, 24, 22, 7, 3, 256),
];

const LEVEL_STRATEGIES: &[Strategy] = &[
    Strategy::Fast,
    Strategy::Fast,
    Strategy::DFast,
    Strategy::DFast,
    Strategy::Greedy,
    Strategy::Lazy,
    Strategy::Lazy,
    Strategy::Lazy2,
    Strategy::Lazy2,
    Strategy::Lazy2,
    Strategy::Lazy2,
    Strategy::Lazy2,
    Strategy::BtLazy2,
    Strategy::BtLazy2,
    Strategy::BtLazy2,
    Strategy::BtOpt,
    Strategy::BtOpt,
    Strategy::BtUltra,
    Strategy::BtUltra2,
];

#[test]
fn test_for_level_params() {
    for (i, &(wlog, clog, hlog, slog, mml, tlen)) in LEVEL_PARAMS.iter().enumerate() {
        let level = (i + 1) as i32;
        let cfg = MatchConfig::for_level(level);
        assert_eq!(cfg.window_log, wlog, "window_log mismatch at level {level}");
        assert_eq!(cfg.chain_log, clog, "chain_log mismatch at level {level}");
        assert_eq!(cfg.hash_log, hlog, "hash_log mismatch at level {level}");
        assert_eq!(cfg.search_log, slog, "search_log mismatch at level {level}");
        assert_eq!(cfg.min_match, mml, "min_match mismatch at level {level}");
        assert_eq!(cfg.target_length, tlen, "target_length mismatch at level {level}");
    }
}

#[test]
fn test_for_level_strategy() {
    for (i, &expected) in LEVEL_STRATEGIES.iter().enumerate() {
        let level = (i + 1) as i32;
        let cfg = MatchConfig::for_level(level);
        assert_eq!(cfg.strategy, expected, "strategy mismatch at level {level}");
    }
}

#[test]
fn test_for_level_clamp() {
    let base = MatchConfig::for_level(19);
    for level in [20, 21, 22] {
        let cfg = MatchConfig::for_level(level);
        assert_eq!(cfg.window_log, base.window_log, "level {level}");
        assert_eq!(cfg.chain_log, base.chain_log, "level {level}");
        assert_eq!(cfg.hash_log, base.hash_log, "level {level}");
        assert_eq!(cfg.search_log, base.search_log, "level {level}");
        assert_eq!(cfg.min_match, base.min_match, "level {level}");
        assert_eq!(cfg.target_length, base.target_length, "level {level}");
        assert_eq!(cfg.strategy, base.strategy, "level {level}");
    }
}

#[test]
fn test_reconstructs_original() {
    let original = b"hello world, hello world again, hello everyone!";
    let events = parse(original, &MatchConfig::default());
    assert_eq!(replay(&events, original), original.to_vec());
}

#[test]
fn test_lookup_fast_single_lookup() {
    let data = b"abcdEFGHabcdIJKLabcdMNOP";
    let cfg3 = MatchConfig { min_match: 3, ..MatchConfig::for_level(1) };
    let mut finder3 = MatchFinder::new(&cfg3);
    assert!(finder3.lookup_fast(data, 0).is_none());
    let m = finder3.lookup_fast(data, 8);
    assert!(m.is_some(), "should find match at pos=8 referencing pos=0");
    assert_eq!(m.unwrap().offset, 8);
    let m2 = finder3.lookup_fast(data, 16);
    assert!(m2.is_some());
    assert_eq!(m2.unwrap().offset, 8, "fast should only find the most-recent entry (no chain)");

    let cfg7 = MatchConfig { min_match: 7, ..MatchConfig::for_level(1) };
    let mut finder7 = MatchFinder::new(&cfg7);
    finder7.lookup_fast(data, 0);
    assert!(finder7.lookup_fast(data, 8).is_none(), "min_match=7 should reject a 4-byte match");
}

#[test]
fn test_lookup_dfast_long_table_priority() {
    let mut data = [0u8; 48];
    data[0..8].copy_from_slice(b"ABCDEFGH");
    data[16..24].copy_from_slice(b"ABCDEFGH");
    data[32..40].copy_from_slice(b"ABCDEFGH");
    let cfg = MatchConfig { min_match: 4, ..MatchConfig::for_level(3) };
    let mut finder = MatchFinder::new(&cfg);
    assert!(finder.lookup_dfast(&data, 0).is_none());
    let m = finder.lookup_dfast(&data, 16);
    assert!(m.is_some(), "dfast should find 8-byte match from long table");
    assert_eq!(m.unwrap().offset, 16);
}

#[test]
fn test_optimal_reconstructs_original() {
    let data: Vec<u8> = b"abcdefghijklmnop".iter().cycle().take(512).cloned().collect();
    let cfg = MatchConfig::for_level(16);
    let events = parse(&data, &cfg);
    assert_eq!(replay(&events, &data), data, "BtOpt parse must reconstruct original");
}

#[test]
fn test_optimal_prefers_deferred_longer_match() {
    let pattern = b"abcXYZabcXYZabcXYZ";
    let data: Vec<u8> = pattern.iter().cycle().take(256).cloned().collect();
    let opt_cfg = MatchConfig::for_level(16);
    let events = parse(&data, &opt_cfg);
    assert_eq!(replay(&events, &data), data, "optimal parse must reconstruct original");
    let match_bytes: usize = events
        .iter()
        .filter_map(|e| if let Event::Match { length, .. } = e { Some(*length) } else { None })
        .sum();
    let lit_bytes: usize = events
        .iter()
        .filter_map(|e| if let Event::Literals(s, end) = e { Some(end - s) } else { None })
        .sum();
    assert!(
        match_bytes > lit_bytes,
        "optimal parser should encode mostly matches on repetitive data (match={match_bytes}, lit={lit_bytes})"
    );
}

#[test]
fn test_bt_finds_match_on_repetitive_data() {
    let data: Vec<u8> = b"abcdefgh".iter().cycle().take(256).cloned().collect();
    let cfg = MatchConfig { min_match: 4, ..MatchConfig::for_level(13) };
    let mut finder = MatchFinder::new(&cfg);
    let full_data_len = data.len();
    let data_slice = &data[..full_data_len];
    for i in 0..8 {
        finder.bt_find_insert(data_slice, i);
    }
    let m = finder.bt_find_insert(data_slice, 8);
    assert!(m.is_some(), "BT should find a match in repetitive data");
    let m = m.unwrap();
    assert!(m.length >= 4, "match length should be >= min_match");
    assert!(m.offset > 0 && m.offset <= 8);
}

#[test]
fn test_bt_respects_window_size() {
    let data: Vec<u8> = b"abcdefgh".iter().cycle().take(4096).cloned().collect();
    let cfg = MatchConfig { window_log: 10, min_match: 4, ..MatchConfig::for_level(13) };
    let mut finder = MatchFinder::new(&cfg);
    let data_slice = &data[..];
    finder.bt_find_insert(data_slice, 0);
    let m = finder.bt_find_insert(data_slice, 8);
    assert!(m.is_some(), "match within window should be found");
    for i in 1..1025 {
        finder.bt_find_insert(data_slice, i);
    }
    let m2 = finder.bt_find_insert(data_slice, 1025);
    assert!(m2.is_some(), "should still find a match within window");
    assert!(m2.unwrap().offset <= 1024, "match offset must not exceed window_size");
}

#[test]
fn test_bt_reconstructs_original() {
    let data: Vec<u8> = b"abcdefghijklmnop".iter().cycle().take(512).cloned().collect();
    let cfg = MatchConfig::for_level(13);
    let events = parse(&data, &cfg);
    assert_eq!(replay(&events, &data), data, "BtLazy2 parse must reconstruct original");
}

#[test]
fn test_prefer_match_same_length_smaller_offset() {
    let old = Match { offset: 1000, length: 10 };
    let new = Match { offset: 4, length: 10 };
    assert!(prefer_match(new, old), "smaller offset should be preferred");
}

#[test]
fn test_prefer_match_longer_same_offset() {
    let old = Match { offset: 100, length: 8 };
    let new = Match { offset: 100, length: 12 };
    assert!(prefer_match(new, old), "longer match at same offset should be preferred");
}

#[test]
fn test_prefer_match_slight_length_gain_huge_offset() {
    let old = Match { offset: 8, length: 10 };
    let new = Match { offset: 1_000_000, length: 11 };
    assert!(!prefer_match(new, old), "huge offset penalty should outweigh +1 length");
}

#[test]
fn test_lazy_finds_better_match_than_greedy() {
    let pattern = b"abcdefghijklmnop";
    let mut data = Vec::new();
    data.extend_from_slice(pattern);
    data.push(b'X');
    data.extend_from_slice(pattern);
    data.extend_from_slice(pattern);

    let greedy_cfg = MatchConfig::for_level(5);
    let lazy2_cfg = MatchConfig::for_level(8);
    let greedy_events = parse(&data, &greedy_cfg);
    let lazy2_events = parse(&data, &lazy2_cfg);
    let count_matches = |events: &[Event]| events.iter().filter(|e| matches!(e, Event::Match { .. })).count();

    assert_eq!(replay(&greedy_events, &data), data, "greedy must reconstruct original");
    assert_eq!(replay(&lazy2_events, &data), data, "lazy2 must reconstruct original");
    assert!(count_matches(&lazy2_events) > 0, "lazy2 should find matches");
}

#[test]
fn test_target_length_early_accept() {
    let data: Vec<u8> = b"abcdefgh".iter().cycle().take(1024).cloned().collect();
    let cfg = MatchConfig::for_level(6);
    assert_eq!(cfg.target_length, 4);
    let events = parse(&data, &cfg);
    assert_eq!(replay(&events, &data), data, "target_length early-accept must reconstruct original");
}

#[test]
fn test_cross_block_history() {
    let pattern = b"abcdefghijklmnop";
    let block1: Vec<u8> = pattern.iter().cycle().take(64).cloned().collect();
    let block2: Vec<u8> = pattern.iter().cycle().take(64).cloned().collect();
    let full_data: Vec<u8> = [block1.as_slice(), block2.as_slice()].concat();
    let cfg = MatchConfig { window_log: 17, min_match: 3, ..MatchConfig::for_level(5) };
    let mut finder = MatchFinder::new(&cfg);
    let mut events: Vec<Event> = Vec::new();
    parse_ranges(&full_data, 0, 64, &mut finder, &mut events);
    let mut events2: Vec<Event> = Vec::new();
    parse_ranges(&full_data, 64, 128, &mut finder, &mut events2);
    let has_cross_block_match = events2.iter().any(|e| {
        if let Event::Match { pos, offset, .. } = e {
            *pos >= 64 && pos.saturating_sub(*offset) < 64
        } else {
            false
        }
    });
    assert!(has_cross_block_match, "expected at least one match spanning block boundary");
}

#[test]
fn every_level_reconstructs_text() {
    let data = b"the quick brown fox jumps over the lazy dog; the quick brown fox again. ".repeat(20);
    for level in 1..=22 {
        let events = parse(&data, &MatchConfig::for_level(level));
        assert_eq!(replay(&events, &data), data, "level {level}");
    }
}

#[test]
fn events_tile_the_input() {
    let data = b"abcabcabcXabcabcabc".repeat(3);
    let events = parse(&data, &MatchConfig::for_level(9));
    let mut cursor = 0usize;
    for e in &events {
        match e {
            Event::Literals(s, end) => {
                assert_eq!(*s, cursor);
                assert!(s < end);
                cursor = *end;
            }
            Event::Match { pos, offset, length } => {
                assert_eq!(*pos, cursor);
                assert!(*offset >= 1 && *offset <= *pos);
                assert!(*length >= 1);
                cursor = pos + length;
            }
        }
    }
    assert_eq!(cursor, data.len());
}

#[test]
fn search_depth_is_a_power_of_two() {
    let cfg = MatchConfig::for_level(19);
    assert_eq!(cfg.search_depth(), 128);
}

#[test]
fn finder_window_size() {
    let finder = MatchFinder::new(&MatchConfig::for_level(1));
    assert_eq!(finder.window_size(), 1 << 19);
}

#[test]
fn find_match_reports_genuine_repeat() {
    let data = b"0123456789-0123456789";
    let mut finder = MatchFinder::new(&MatchConfig::for_level(5));
    assert!(finder.find_match(data, 0).is_none());
    for p in 1..11 {
        finder.find_match(data, p);
    }
    let m = finder.find_match(data, 11).unwrap();
    assert_eq!(m.offset, 11);
    assert_eq!(m.length, 10);
    assert!(finder.find_match(data, 19).is_none());
}

#[test]
fn optimal_parse_takes_the_cheapest_path_through_a_repeat() {
    // Forty distinct bytes, the same forty again, then ten new ones: the
    // cheapest way through is the literals, one match of forty at offset
    // forty, and the literals of the tail.
    let mut data: Vec<u8> = (0u8..40).collect();
    data.extend(0u8..40);
    data.extend(100u8..110);
    let events = parse(&data, &MatchConfig::for_level(16));
    assert_eq!(replay(&events, &data), data);
    let matches: Vec<(usize, usize, usize)> = events
        .iter()
        .filter_map(|e| if let Event::Match { pos, offset, length } = e { Some((*pos, *offset, *length)) } else { None })
        .collect();
    assert_eq!(matches, vec![(40, 40, 40)]);
}

#[test]
fn sink_receives_the_parse_events_after_what_it_held() {
    let data = b"abcabcabcabcabcabcabcabc".repeat(4);
    let cfg = MatchConfig::for_level(3);
    let mut sink: Vec<Event> = vec![Event::Literals(0, 0)];
    parse_with_sink(&data, &cfg, &mut sink);
    let mut expected = vec![Event::Literals(0, 0)];
    expected.extend(parse(&data, &cfg));
    assert_eq!(format!("{:?}", sink), format!("{:?}", expected));
}
