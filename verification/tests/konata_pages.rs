use libsurfer::konata::columns::KonataStage;
use libsurfer::konata::detail::{DetailCache, KonataDetailQuery};
use libsurfer::konata::encoding::EncodedPages;
use libsurfer::konata::flags::StageFlags;
use libsurfer::konata::pages::{
    accept_decoded_page, build_detail_pages, build_page_stage_offsets, detail_page_count, locate_ordinal,
    page_for_row, prefetch_page_range, KonataDetailPage, KONATA_DETAIL_PAGE_ROWS,
};

/// An annotation as the tests write it: a name id and an unsigned value.
type Annotation = (u32, u64);

struct Lists {
    row_count: usize,
    stages: Vec<KonataStage>,
    stage_offsets: Vec<u32>,
    stage_annotations: Vec<Annotation>,
    row_annotations: Vec<Annotation>,
    row_annotation_offsets: Vec<u32>,
}

fn stage(start: u64, event_tx: u64, name: u16, lane: u16, annotation_start: u32) -> KonataStage {
    KonataStage {
        start,
        end: start + 1,
        event_tx,
        name,
        lane,
        flags: StageFlags::default(),
        detail_page: u32::MAX,
        annotation_start,
        annotation_end: annotation_start + 1,
    }
}

fn pages_of(lists: &Lists) -> Vec<KonataDetailPage<Annotation>> {
    build_detail_pages(
        lists.row_count,
        &lists.stages,
        &lists.stage_offsets,
        &lists.stage_annotations,
        &lists.row_annotations,
        &lists.row_annotation_offsets,
    )
}

/// The decoded size of a page, as a store would measure it.
fn decoded_bytes(page: &KonataDetailPage<Annotation>) -> usize {
    64 + page.stages.len() * 48 + (page.stage_annotations.len() + page.row_annotations.len()) * 16
        + (page.row_stage_offsets.len() + page.row_annotation_offsets.len()) * 4
}

/// Reads a page the way a blocking store does: from the cache, else by decoding it.
fn get_blocking(
    cache: &mut DetailCache<KonataDetailPage<Annotation>>,
    pages: &[KonataDetailPage<Annotation>],
    page_id: u32,
) -> KonataDetailQuery<KonataDetailPage<Annotation>> {
    match cache.query(page_id) {
        KonataDetailQuery::Pending => {
            let decoded = match pages.get(page_id as usize) {
                Some(page) => match accept_decoded_page(page_id, page.clone()) {
                    Ok(page) => {
                        let bytes = decoded_bytes(&page);
                        Ok((page, bytes))
                    }
                    Err(error) => Err(error),
                },
                None => Err(format!("Konata detail page {page_id} is unavailable")),
            };
            cache.resolve_decode(page_id, decoded)
        }
        other => other,
    }
}

fn three_page_lists() -> Lists {
    let row_count = KONATA_DETAIL_PAGE_ROWS * 2 + 1;
    let stage_rows = [0, KONATA_DETAIL_PAGE_ROWS, row_count - 1];
    let mut stages = Vec::new();
    let mut offsets = Vec::with_capacity(row_count + 1);
    offsets.push(0);
    for row in 0..row_count {
        if stage_rows.contains(&row) {
            stages.push(stage(row as u64, row as u64 + 10, 0, 0, 0));
        }
        offsets.push(stages.len() as u32);
    }
    Lists {
        row_count,
        stages,
        stage_offsets: offsets,
        stage_annotations: vec![(0, 1)],
        row_annotations: Vec::new(),
        row_annotation_offsets: vec![0; row_count + 1],
    }
}

#[test]
fn forced_eviction_keeps_decoded_detail_under_budget() {
    let lists = three_page_lists();
    let pages = pages_of(&lists);
    let mut cache: DetailCache<KonataDetailPage<Annotation>> = DetailCache::new(256 * 1024 * 1024);
    let first = get_blocking(&mut cache, &pages, 0);
    let KonataDetailQuery::Ready(first) = first else {
        panic!("first detail page should decode");
    };
    cache.set_budget(decoded_bytes(&first));
    assert!(matches!(get_blocking(&mut cache, &pages, 1), KonataDetailQuery::Ready(_)));
    assert!(matches!(get_blocking(&mut cache, &pages, 2), KonataDetailQuery::Ready(_)));
    let telemetry = cache.telemetry();
    assert_eq!(telemetry.resident_pages, 1);
    assert!(telemetry.resident_bytes <= telemetry.budget_bytes);
    assert!(telemetry.evictions >= 2);
    assert!(matches!(
        get_blocking(&mut cache, &pages, 99),
        KonataDetailQuery::Unavailable(_)
    ));
}

#[test]
fn paged_csr_round_trips_detail_across_page_boundaries() {
    let row_count = KONATA_DETAIL_PAGE_ROWS * 2 + 17;
    let mut stages = Vec::new();
    let mut stage_offsets = Vec::with_capacity(row_count + 1);
    let mut stage_annotations = Vec::new();
    stage_offsets.push(0);
    for row in 0..row_count {
        for ordinal in 0..=row % 3 {
            let annotation_start = stage_annotations.len() as u32;
            stage_annotations.push((ordinal as u32, (row * 10 + ordinal) as u64));
            let mut s = stage(
                (row * 10 + ordinal) as u64,
                (row * 8 + ordinal) as u64,
                ordinal as u16,
                (row % 2) as u16,
                annotation_start,
            );
            s.end = (row * 10 + ordinal + 1) as u64;
            stages.push(s);
        }
        stage_offsets.push(stages.len() as u32);
    }
    let row_annotations = (0..row_count).map(|row| (99u32, row as u64)).collect::<Vec<_>>();
    let row_annotation_offsets = (0..=row_count).map(|row| row as u32).collect::<Vec<_>>();
    let lists = Lists {
        row_count,
        stages,
        stage_offsets,
        stage_annotations,
        row_annotations,
        row_annotation_offsets,
    };
    let pages = pages_of(&lists);
    let page_offsets = build_page_stage_offsets(row_count, &lists.stage_offsets);
    assert_eq!(pages.len(), 3);
    assert_eq!(page_offsets.len(), 4);

    for row in [
        0,
        1,
        KONATA_DETAIL_PAGE_ROWS - 1,
        KONATA_DETAIL_PAGE_ROWS,
        KONATA_DETAIL_PAGE_ROWS + 1,
        row_count - 1,
    ] {
        let expected =
            &lists.stages[lists.stage_offsets[row] as usize..lists.stage_offsets[row + 1] as usize];
        let page = &pages[page_for_row(row, row_count).unwrap() as usize];
        assert!(page.is_well_formed());
        let detail = page.stages_for_row(row);
        assert_eq!(detail.len(), expected.len());
        for (ordinal, (actual, expected)) in detail.iter().zip(expected).enumerate() {
            assert_eq!(
                (actual.start, actual.end, actual.event_tx, actual.name, actual.lane),
                (expected.start, expected.end, expected.event_tx, expected.name, expected.lane)
            );
            assert_eq!(actual.detail_page as usize, row / KONATA_DETAIL_PAGE_ROWS);
            assert_eq!(
                page.annotations_for_stage(actual),
                vec![(expected.name as u32, expected.start)]
            );
            let (page_id, local) = locate_ordinal(
                &page_offsets,
                lists.stages.len(),
                lists.stage_offsets[row] as usize + ordinal,
            )
            .unwrap();
            let (resolved_row, resolved) = pages[page_id as usize].stage_at(local).unwrap();
            assert_eq!(resolved_row, row);
            assert_eq!(resolved.event_tx, actual.event_tx);
        }
        let annotations = page.annotations_for_row(row).unwrap();
        assert_eq!(annotations, &[(99u32, row as u64)]);
    }
}

#[test]
fn page_count_covers_every_started_page() {
    assert_eq!(detail_page_count(0), 0);
    assert_eq!(detail_page_count(1), 1);
    assert_eq!(detail_page_count(KONATA_DETAIL_PAGE_ROWS), 1);
    assert_eq!(detail_page_count(KONATA_DETAIL_PAGE_ROWS + 1), 2);
    assert_eq!(page_for_row(KONATA_DETAIL_PAGE_ROWS, KONATA_DETAIL_PAGE_ROWS + 1), Some(1));
    assert_eq!(page_for_row(KONATA_DETAIL_PAGE_ROWS + 1, KONATA_DETAIL_PAGE_ROWS + 1), None);
}

#[test]
fn prefetch_range_clamps_to_the_last_row() {
    let row_count = KONATA_DETAIL_PAGE_ROWS * 2 + 1;
    assert_eq!(prefetch_page_range(5, 5, row_count), None);
    assert_eq!(prefetch_page_range(0, 10, 0), None);
    assert_eq!(prefetch_page_range(10, KONATA_DETAIL_PAGE_ROWS + 1, row_count), Some((0, 1)));
    assert_eq!(prefetch_page_range(0, usize::MAX, row_count), Some((0, 2)));
}

#[test]
fn decoded_page_of_another_identity_is_refused() {
    let lists = three_page_lists();
    let pages = pages_of(&lists);
    let error = accept_decoded_page(2, pages[1].clone()).unwrap_err();
    assert_eq!(error, "Konata detail page identity mismatch: requested 2, decoded 1");
    assert!(accept_decoded_page(1, pages[1].clone()).is_ok());
}

#[test]
fn pages_restamp_stages_and_locate_ordinals() {
    let lists = three_page_lists();
    let pages = pages_of(&lists);
    let page_offsets = build_page_stage_offsets(lists.row_count, &lists.stage_offsets);
    assert_eq!(page_offsets, vec![0, 1, 2, 3]);
    assert_eq!(pages[2].row_start, KONATA_DETAIL_PAGE_ROWS * 2);
    assert_eq!(pages[2].row_end, lists.row_count);
    assert_eq!(pages[1].stages[0].detail_page, 1);
    assert_eq!(pages[1].stages[0].annotation_start, 0);
    assert_eq!(pages[1].stage_annotations, vec![(0, 1)]);
    assert_eq!(locate_ordinal(&page_offsets, 3, 2), Some((2, 0)));
    assert_eq!(locate_ordinal(&page_offsets, 3, 3), None);
    assert_eq!(pages[0].stage_at(1), None);
    assert!(pages[0].stages_for_row(KONATA_DETAIL_PAGE_ROWS).is_empty());
    assert!(pages[0].annotations_for_row(KONATA_DETAIL_PAGE_ROWS).is_none());
}

#[test]
fn stored_page_bytes_decode_to_what_was_stored() {
    let first: Vec<u8> = (0..2000u32).map(|i| (i % 7) as u8).collect();
    let second: Vec<u8> = vec![1, 2, 3];
    let stored = EncodedPages::encode(&vec![first.clone(), Vec::new(), second.clone()]);
    assert_eq!(stored.page_count(), 3);
    assert!(stored.encoded_size(0).unwrap() < first.len());
    assert_eq!(stored.encoded_size(3), None);
    assert_eq!(stored.decode(0), Ok(first));
    assert_eq!(stored.decode(1), Ok(Vec::new()));
    assert_eq!(stored.decode(2), Ok(second));
    assert_eq!(
        stored.decode(9),
        Err("Konata detail page 9 is unavailable".to_string())
    );
}
