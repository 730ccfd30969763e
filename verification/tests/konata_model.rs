use libsurfer::konata::{BlockRangeIndex, FlushState, KonataSearchHits, VisibilityIndex};

#[test]
fn visibility_rank_select_round_trip() {
    let states = [
        FlushState::False,
        FlushState::True,
        FlushState::Unknown,
        FlushState::True,
        FlushState::False,
    ];
    let index = VisibilityIndex::from_flush_states(&states);
    assert_eq!(index.visible_count(), 3);
    assert_eq!(
        (0..3).map(|row| index.select(row)).collect::<Vec<_>>(),
        vec![Some(0), Some(2), Some(4)]
    );
    assert_eq!(
        (0..=5).map(|row| index.rank(row)).collect::<Vec<_>>(),
        vec![0, 1, 1, 2, 2, 3]
    );
}

#[test]
fn visibility_handles_word_boundaries() {
    let mut states = vec![FlushState::True; 130];
    for row in [0, 63, 64, 65, 129] {
        states[row] = FlushState::False;
    }
    let index = VisibilityIndex::from_flush_states(&states);
    assert_eq!(index.visible_count(), 5);
    assert_eq!(
        (0..5)
            .filter_map(|row| index.select(row))
            .collect::<Vec<_>>(),
        vec![0, 63, 64, 65, 129]
    );
    assert_eq!(index.rank(64), 2);
    assert_eq!(index.rank(130), 5);
}

#[test]
fn search_hits_rank_select_wraps_in_both_directions() {
    let mut hits = KonataSearchHits::empty(130);
    for row in [0, 63, 64, 129] {
        hits.insert(row);
    }
    hits.finish();

    assert_eq!(hits.count(), 4);
    assert_eq!(hits.next(0, false), Some(63));
    assert_eq!(hits.next(63, false), Some(64));
    assert_eq!(hits.next(129, false), Some(0));
    assert_eq!(hits.next(0, true), Some(129));
    assert_eq!(hits.next(64, true), Some(63));
    assert!(hits.contains(129));
    assert!(!hits.contains(128));
}

#[test]
fn block_range_queries_match_brute_force_across_boundaries() {
    let values = (0..257u64)
        .map(|row| ((row * 37) % 101, 500 - (row * 19) % 211))
        .collect::<Vec<_>>();
    let index = BlockRangeIndex::build(&values);
    for start in [0, 1, 31, 63, 64, 65, 127, 129, 255] {
        for end in [start + 1, (start + 17).min(values.len()), values.len()] {
            let expected = values[start..end]
                .iter()
                .copied()
                .fold((u64::MAX, 0u64), |(min_begin, max_end), (begin, end)| {
                    (min_begin.min(begin), max_end.max(end))
                });
            assert_eq!(index.query(&values, start, end), Some(expected));
        }
    }
}

#[test]
fn randomized_rank_select_and_envelopes_match_naive_models() {
    let mut random = 0x6a09_e667_f3bc_c909u64;
    let mut next = || {
        random ^= random << 13;
        random ^= random >> 7;
        random ^= random << 17;
        random
    };

    for len in [1, 2, 63, 64, 65, 257, 1_033] {
        let states = (0..len)
            .map(|_| match next() % 3 {
                0 => FlushState::True,
                1 => FlushState::False,
                _ => FlushState::Unknown,
            })
            .collect::<Vec<_>>();
        let visible = states
            .iter()
            .enumerate()
            .filter_map(|(row, state)| (*state != FlushState::True).then_some(row))
            .collect::<Vec<_>>();
        let visibility = VisibilityIndex::from_flush_states(&states);
        assert_eq!(visibility.visible_count(), visible.len());
        for row in 0..=len {
            assert_eq!(
                visibility.rank(row),
                visible.partition_point(|candidate| *candidate < row)
            );
        }
        assert_eq!(
            (0..visible.len())
                .filter_map(|rank| visibility.select(rank))
                .collect::<Vec<_>>(),
            visible
        );

        let values = (0..len)
            .map(|row| {
                let begin = next() % 10_000;
                (begin, begin.saturating_add((next() + row as u64) % 500))
            })
            .collect::<Vec<_>>();
        let ranges = BlockRangeIndex::build(&values);
        for _ in 0..2_000 {
            let left = next() as usize % len;
            let right = next() as usize % len;
            let start = left.min(right);
            let end = left.max(right) + 1;
            let expected = values[start..end]
                .iter()
                .copied()
                .fold((u64::MAX, 0u64), |(min_begin, max_end), (begin, end)| {
                    (min_begin.min(begin), max_end.max(end))
                });
            assert_eq!(ranges.query(&values, start, end), Some(expected));
        }
    }
}

#[test]
fn fresh_hit_set_answers_none() {
    let hits = KonataSearchHits::empty(100);
    assert_eq!(hits.count(), 0);
    assert_eq!(hits.first(), None);
    assert_eq!(hits.ordinal(5), None);
    assert_eq!(hits.next(5, false), None);
    assert_eq!(hits.next(5, true), None);
    assert!(!hits.contains(5));
    assert!(!hits.contains(1000));
}
