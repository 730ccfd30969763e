//! Stage details in pages of consecutive rows: each page holds the stages of its rows in
//! row order, re-stamped with the page and with their annotations copied into the page,
//! and the annotations of its rows.
use vstd::prelude::*;
use crate::konata::columns::KonataStage;
use crate::konata::trace::{decimal, unsigned_text};
use std::ops::Range;

verus! {

/// The rows of one detail page.
pub const KONATA_DETAIL_PAGE_ROWS: usize = 4096;

/// One page of stage details: rows `row_start..row_end`, the stages of each row (row `r`
/// owns `stages[row_stage_offsets[r - row_start]..row_stage_offsets[r - row_start + 1]]`),
/// the annotations of each stage (stage `s` owns
/// `stage_annotations[s.annotation_start..s.annotation_end]`), and the annotations of each
/// row, laid out like its stages.
#[derive(Debug, Clone)]
pub struct KonataDetailPage<A> {
    pub id: u32,
    pub row_start: usize,
    pub row_end: usize,
    pub row_stage_offsets: Vec<u32>,
    pub stages: Vec<KonataStage>,
    pub row_annotation_offsets: Vec<u32>,
    pub row_annotations: Vec<A>,
    pub stage_annotations: Vec<A>,
}

/// `offsets` is a row index of `rows` rows into a list of `len` items: one offset more
/// than rows, never decreasing, the last within the list.
pub open spec fn csr_ok(offsets: Seq<u32>, rows: int, len: int) -> bool {
    &&& offsets.len() == rows + 1
    &&& forall|i: int, j: int| 0 <= i <= j <= rows ==> offsets[i] <= offsets[j]
    &&& offsets[rows] <= len
}

/// The number of annotations a stage owns.
pub open spec fn span(s: KonataStage) -> int {
    s.annotation_end - s.annotation_start
}

/// The annotations owned by the `count` stages from `from` on, counted.
pub open spec fn spans(stages: Seq<KonataStage>, from: int, count: int) -> int
    decreases count,
{
    if count <= 0 {
        0
    } else {
        spans(stages, from, count - 1) + span(stages[from + count - 1])
    }
}

/// The stage as a page holds it: stamped with the page, its annotations starting at `base`.
pub open spec fn restamped(s: KonataStage, page_id: u32, base: int) -> KonataStage {
    KonataStage {
        detail_page: page_id,
        annotation_start: base as u32,
        annotation_end: (base + span(s)) as u32,
        ..s
    }
}

/// The stage and row lists that pages are cut from: both row indexes are sound, every
/// stage owns a range of the stage annotations, and all stages own few enough
/// annotations for `u32` positions.
pub open spec fn detail_input_ok<A>(
    row_count: int,
    stages: Seq<KonataStage>,
    stage_offsets: Seq<u32>,
    stage_annotations: Seq<A>,
    row_annotations: Seq<A>,
    row_annotation_offsets: Seq<u32>,
) -> bool {
    &&& csr_ok(stage_offsets, row_count, stages.len() as int)
    &&& csr_ok(row_annotation_offsets, row_count, row_annotations.len() as int)
    &&& forall|i: int|
        0 <= i < stages.len() ==> (#[trigger] stages[i]).annotation_start <= stages[i].annotation_end
            <= stage_annotations.len()
    &&& spans(stages, 0, stages.len() as int) <= u32::MAX
}

/// The first row of page `page_id`.
pub open spec fn page_row_start(page_id: int) -> int {
    page_id * KONATA_DETAIL_PAGE_ROWS
}

/// One past the last row of page `page_id` of a list of `row_count` rows.
pub open spec fn page_row_end(page_id: int, row_count: int) -> int {
    if page_row_start(page_id) + KONATA_DETAIL_PAGE_ROWS <= row_count {
        page_row_start(page_id) + KONATA_DETAIL_PAGE_ROWS
    } else {
        row_count
    }
}

/// The stage `k` of a page holds annotations that are copies of those its source stage
/// owns.
pub open spec fn annotations_copied<A: Clone>(
    page_annotations: Seq<A>,
    source: Seq<A>,
    stage: KonataStage,
    base: int,
) -> bool {
    forall|t: int|
        0 <= t < span(stage) ==> cloned(source[stage.annotation_start + t], #[trigger] page_annotations[base + t])
}

/// `page` is page `page_id` cut from the lists: its rows, the stages of its rows in order
/// (re-stamped, their annotations copied one after another), and the annotations of its
/// rows, copied.
pub open spec fn page_cut<A: Clone>(
    page: KonataDetailPage<A>,
    page_id: u32,
    row_count: int,
    stages: Seq<KonataStage>,
    stage_offsets: Seq<u32>,
    stage_annotations: Seq<A>,
    row_annotations: Seq<A>,
    row_annotation_offsets: Seq<u32>,
) -> bool {
    let rs = page_row_start(page_id as int);
    let re = page_row_end(page_id as int, row_count);
    let first = stage_offsets[rs] as int;
    let count = stage_offsets[re] - first;
    let a0 = row_annotation_offsets[rs] as int;
    &&& page.id == page_id
    &&& page.row_start == rs
    &&& page.row_end == re
    &&& page.row_stage_offsets@.len() == re - rs + 1
    &&& forall|k: int| 0 <= k <= re - rs ==> #[trigger] page.row_stage_offsets@[k] == stage_offsets[rs + k] - first
    &&& page.stages@.len() == count
    &&& forall|k: int|
        0 <= k < count ==> #[trigger] page.stages@[k] == restamped(stages[first + k], page_id, spans(stages, first, k))
    &&& page.stage_annotations@.len() == spans(stages, first, count)
    &&& forall|k: int|
        0 <= k < count ==> #[trigger] annotations_copied(
            page.stage_annotations@,
            stage_annotations,
            stages[first + k],
            spans(stages, first, k),
        )
    &&& page.row_annotation_offsets@.len() == re - rs + 1
    &&& forall|k: int|
        0 <= k <= re - rs ==> #[trigger] page.row_annotation_offsets@[k] == row_annotation_offsets[rs + k] - a0
    &&& page.row_annotations@.len() == row_annotation_offsets[re] - a0
    &&& forall|t: int|
        0 <= t < page.row_annotations@.len() ==> cloned(row_annotations[a0 + t], #[trigger] page.row_annotations@[t])
}

/// Spans add up over consecutive runs of stages.
proof fn lemma_spans_split(stages: Seq<KonataStage>, from: int, a: int, b: int)
    requires
        0 <= a,
        0 <= b,
    ensures
        spans(stages, from, a + b) == spans(stages, from, a) + spans(stages, from + a, b),
    decreases b,
{
    if b > 0 {
        lemma_spans_split(stages, from, a, b - 1);
    }
}

/// Spans of stages that own ranges are never negative and grow with the count.
proof fn lemma_spans_monotone(stages: Seq<KonataStage>, from: int, a: int, b: int)
    requires
        0 <= a <= b,
        0 <= from,
        from + b <= stages.len(),
        forall|i: int| 0 <= i < stages.len() ==> (#[trigger] stages[i]).annotation_start <= stages[i].annotation_end,
    ensures
        0 <= spans(stages, from, a) <= spans(stages, from, b),
    decreases b,
{
    if b > a {
        lemma_spans_monotone(stages, from, a, b - 1);
        assert(stages[from + b - 1].annotation_start <= stages[from + b - 1].annotation_end);
    } else if a > 0 {
        lemma_spans_monotone(stages, from, a - 1, a - 1);
        assert(stages[from + a - 1].annotation_start <= stages[from + a - 1].annotation_end);
    }
}

/// The annotations owned by a run of stages inside the list are no more than those of the
/// whole list.
proof fn lemma_spans_within(stages: Seq<KonataStage>, from: int, count: int)
    requires
        0 <= from,
        0 <= count,
        from + count <= stages.len(),
        forall|i: int| 0 <= i < stages.len() ==> (#[trigger] stages[i]).annotation_start <= stages[i].annotation_end,
    ensures
        0 <= spans(stages, from, count) <= spans(stages, 0, stages.len() as int),
{
    lemma_spans_split(stages, 0, from, count);
    lemma_spans_split(stages, 0, from + count, stages.len() - from - count);
    lemma_spans_monotone(stages, 0, 0, from);
    lemma_spans_monotone(stages, from, 0, count);
    lemma_spans_monotone(stages, from + count, 0, stages.len() - from - count);
}

/// Cuts page `page_id` out of the stage and row lists.
pub fn build_detail_page<A: Clone>(
    page_id: u32,
    row_count: usize,
    stages: &[KonataStage],
    stage_offsets: &[u32],
    stage_annotations: &[A],
    row_annotations: &[A],
    row_annotation_offsets: &[u32],
) -> (page: KonataDetailPage<A>)
    requires
        detail_input_ok(
            row_count as int,
            stages@,
            stage_offsets@,
            stage_annotations@,
            row_annotations@,
            row_annotation_offsets@,
        ),
        page_row_start(page_id as int) < row_count,
    ensures
        page_cut(
            page,
            page_id,
            row_count as int,
            stages@,
            stage_offsets@,
            stage_annotations@,
            row_annotations@,
            row_annotation_offsets@,
        ),
{
    let ghost st = stages@;
    let ghost so = stage_offsets@;
    let row_start = page_id as usize * KONATA_DETAIL_PAGE_ROWS;
    let row_end = if row_count - row_start >= KONATA_DETAIL_PAGE_ROWS {
        row_start + KONATA_DETAIL_PAGE_ROWS
    } else {
        row_count
    };
    let ghost first = so[row_start as int] as int;
    let ghost total = so[row_end as int] - first;
    proof {
        assert(so[row_start as int] <= so[row_end as int]);
        lemma_spans_within(st, first, total);
    }
    let mut page_stages: Vec<KonataStage> = Vec::new();
    let mut page_annotations: Vec<A> = Vec::new();
    let mut page_offsets: Vec<u32> = Vec::new();
    page_offsets.push(0);
    let mut row = row_start;
    while row < row_end
        invariant
            detail_input_ok(
                row_count as int,
                st,
                so,
                stage_annotations@,
                row_annotations@,
                row_annotation_offsets@,
            ),
            st == stages@,
            so == stage_offsets@,
            row_start <= row <= row_end <= row_count,
            first == so[row_start as int],
            total == so[row_end as int] - first,
            0 <= spans(st, first, total) <= u32::MAX,
            page_offsets@.len() == row - row_start + 1,
            forall|k: int| 0 <= k <= row - row_start ==> #[trigger] page_offsets@[k] == so[row_start + k] - first,
            page_stages@.len() == so[row as int] - first,
            forall|k: int|
                0 <= k < page_stages@.len() ==> #[trigger] page_stages@[k] == restamped(
                    st[first + k],
                    page_id,
                    spans(st, first, k),
                ),
            page_annotations@.len() == spans(st, first, page_stages@.len() as int),
            forall|k: int|
                0 <= k < page_stages@.len() ==> #[trigger] annotations_copied(
                    page_annotations@,
                    stage_annotations@,
                    st[first + k],
                    spans(st, first, k),
                ),
        decreases row_end - row,
    {
        let end = stage_offsets[row + 1] as usize;
        let mut i = stage_offsets[row] as usize;
        proof {
            assert(so[row as int] <= so[row + 1]);
            assert(so[row + 1] <= so[row_end as int]);
        }
        while i < end
            invariant
                detail_input_ok(
                    row_count as int,
                    st,
                    so,
                    stage_annotations@,
                    row_annotations@,
                    row_annotation_offsets@,
                ),
                st == stages@,
                so == stage_offsets@,
                row_start <= row < row_end <= row_count,
                first == so[row_start as int],
                total == so[row_end as int] - first,
                0 <= spans(st, first, total) <= u32::MAX,
                so[row as int] <= i <= end,
                end == so[row + 1],
                end <= so[row_end as int],
                page_stages@.len() == i - first,
                forall|k: int|
                    0 <= k < page_stages@.len() ==> #[trigger] page_stages@[k] == restamped(
                        st[first + k],
                        page_id,
                        spans(st, first, k),
                    ),
                page_annotations@.len() == spans(st, first, page_stages@.len() as int),
                forall|k: int|
                    0 <= k < page_stages@.len() ==> #[trigger] annotations_copied(
                        page_annotations@,
                        stage_annotations@,
                        st[first + k],
                        spans(st, first, k),
                    ),
            decreases end - i,
        {
            let stage = stages[i];
            let ghost k = i - first;
            let ghost base = page_annotations@.len() as int;
            let ghost before = page_annotations@;
            proof {
                assert(st[i as int] == stage);
                assert(stage.annotation_start <= stage.annotation_end <= stage_annotations@.len());
                lemma_spans_monotone(st, first, k + 1, total);
                assert(spans(st, first, k + 1) == base + span(stage));
            }
            let annotation_start = page_annotations.len() as u32;
            let mut t = stage.annotation_start as usize;
            while t < stage.annotation_end as usize
                invariant
                    stage.annotation_start <= t <= stage.annotation_end <= stage_annotations@.len(),
                    0 <= base,
                    before.len() == base,
                    page_annotations@.len() == base + (t - stage.annotation_start),
                    page_annotations@.subrange(0, base) == before,
                    forall|u: int|
                        0 <= u < t - stage.annotation_start ==> cloned(
                            stage_annotations@[stage.annotation_start + u],
                            #[trigger] page_annotations@[base + u],
                        ),
                decreases stage.annotation_end - t,
            {
                let copy = stage_annotations[t].clone();
                page_annotations.push(copy);
                proof {
                    assert(page_annotations@.subrange(0, base) =~= before);
                    assert(page_annotations@[base + (t - stage.annotation_start)] == copy);
                }
                t = t + 1;
            }
            let annotation_end = page_annotations.len() as u32;
            let restamped_stage = KonataStage { detail_page: page_id, annotation_start, annotation_end, ..stage };
            page_stages.push(restamped_stage);
            proof {
                assert(restamped_stage == restamped(st[first + k], page_id, spans(st, first, k)));
                assert forall|j: int| 0 <= j < page_stages@.len() implies #[trigger] annotations_copied(
                    page_annotations@,
                    stage_annotations@,
                    st[first + j],
                    spans(st, first, j),
                ) by {
                    if j < k {
                        assert(annotations_copied(before, stage_annotations@, st[first + j], spans(st, first, j)));
                        lemma_spans_monotone(st, first, j + 1, k);
                        lemma_spans_monotone(st, first, 0, j);
                        assert(spans(st, first, j + 1) == spans(st, first, j) + span(st[first + j]));
                        assert forall|u: int| 0 <= u < span(st[first + j]) implies cloned(
                            stage_annotations@[st[first + j].annotation_start + u],
                            #[trigger] page_annotations@[spans(st, first, j) + u],
                        ) by {
                            assert(before[spans(st, first, j) + u] == page_annotations@.subrange(0, base)[spans(
                                st,
                                first,
                                j,
                            ) + u]);
                        }
                    }
                }
            }
            i = i + 1;
        }
        page_offsets.push((page_stages.len()) as u32);
        proof {
            assert(page_offsets@[row - row_start + 1] == so[row + 1] - first);
        }
        row = row + 1;
    }
    let a0 = row_annotation_offsets[row_start] as usize;
    let a1 = row_annotation_offsets[row_end] as usize;
    proof {
        assert(row_annotation_offsets@[row_start as int] <= row_annotation_offsets@[row_end as int]);
    }
    let mut page_row_annotations: Vec<A> = Vec::new();
    let mut t = a0;
    while t < a1
        invariant
            a0 <= t <= a1 <= row_annotations@.len(),
            page_row_annotations@.len() == t - a0,
            forall|u: int|
                0 <= u < t - a0 ==> cloned(row_annotations@[a0 + u], #[trigger] page_row_annotations@[u]),
        decreases a1 - t,
    {
        let copy = row_annotations[t].clone();
        page_row_annotations.push(copy);
        t = t + 1;
    }
    let mut page_row_offsets: Vec<u32> = Vec::new();
    let mut r = row_start;
    while r <= row_end
        invariant
            row_start <= r <= row_end + 1,
            row_end <= row_count,
            csr_ok(row_annotation_offsets@, row_count as int, row_annotations@.len() as int),
            a0 == row_annotation_offsets@[row_start as int],
            page_row_offsets@.len() == r - row_start,
            forall|k: int|
                0 <= k < r - row_start ==> #[trigger] page_row_offsets@[k] == row_annotation_offsets@[row_start + k] - a0,
        decreases row_end + 1 - r,
    {
        proof {
            assert(row_annotation_offsets@[row_start as int] <= row_annotation_offsets@[r as int]);
        }
        page_row_offsets.push(row_annotation_offsets[r] - row_annotation_offsets[row_start]);
        r = r + 1;
    }
    KonataDetailPage {
        id: page_id,
        row_start,
        row_end,
        row_stage_offsets: page_offsets,
        stages: page_stages,
        row_annotation_offsets: page_row_offsets,
        row_annotations: page_row_annotations,
        stage_annotations: page_annotations,
    }
}

/// The number of pages that hold `row_count` rows.
pub open spec fn page_count_of(row_count: int) -> int {
    (row_count + KONATA_DETAIL_PAGE_ROWS - 1) / (KONATA_DETAIL_PAGE_ROWS as int)
}

/// The number of pages that hold `row_count` rows: a page for every started run of
/// `KONATA_DETAIL_PAGE_ROWS` rows.
pub fn detail_page_count(row_count: usize) -> (count: usize)
    ensures
        count == page_count_of(row_count as int),
        count * KONATA_DETAIL_PAGE_ROWS >= row_count,
        count == 0 || (count - 1) * KONATA_DETAIL_PAGE_ROWS < row_count,
{
    let full = row_count / KONATA_DETAIL_PAGE_ROWS;
    let count = if row_count % KONATA_DETAIL_PAGE_ROWS != 0 {
        full + 1
    } else {
        full
    };
    proof {
        vstd::arithmetic::div_mod::lemma_fundamental_div_mod(row_count as int, KONATA_DETAIL_PAGE_ROWS as int);
        assert(count == page_count_of(row_count as int)) by (nonlinear_arith)
            requires
                row_count as int == KONATA_DETAIL_PAGE_ROWS * full + row_count % KONATA_DETAIL_PAGE_ROWS,
                0 <= row_count % KONATA_DETAIL_PAGE_ROWS < KONATA_DETAIL_PAGE_ROWS,
                count == if row_count % KONATA_DETAIL_PAGE_ROWS != 0 {
                    full + 1
                } else {
                    full as int
                },
                KONATA_DETAIL_PAGE_ROWS == 4096,
        ;
        assert(count * KONATA_DETAIL_PAGE_ROWS >= row_count) by (nonlinear_arith)
            requires
                row_count as int == KONATA_DETAIL_PAGE_ROWS * full + row_count % KONATA_DETAIL_PAGE_ROWS,
                0 <= row_count % KONATA_DETAIL_PAGE_ROWS < KONATA_DETAIL_PAGE_ROWS,
                count == if row_count % KONATA_DETAIL_PAGE_ROWS != 0 {
                    full + 1
                } else {
                    full as int
                },
        ;
        assert(count == 0 || (count - 1) * KONATA_DETAIL_PAGE_ROWS < row_count) by (nonlinear_arith)
            requires
                row_count as int == KONATA_DETAIL_PAGE_ROWS * full + row_count % KONATA_DETAIL_PAGE_ROWS,
                0 <= row_count % KONATA_DETAIL_PAGE_ROWS < KONATA_DETAIL_PAGE_ROWS,
                count == if row_count % KONATA_DETAIL_PAGE_ROWS != 0 {
                    full + 1
                } else {
                    full as int
                },
                KONATA_DETAIL_PAGE_ROWS == 4096,
        ;
    }
    count
}

/// The page that holds `row`, none past the last row.
pub fn page_for_row(row: usize, row_count: usize) -> (page: Option<u32>)
    requires
        row_count <= u32::MAX * KONATA_DETAIL_PAGE_ROWS,
    ensures
        row < row_count ==> page == Some((row / KONATA_DETAIL_PAGE_ROWS) as u32),
        row >= row_count ==> page is None,
        page matches Some(p) ==> page_row_start(p as int) <= row < page_row_end(p as int, row_count as int),
{
    if row < row_count {
        let p = row / KONATA_DETAIL_PAGE_ROWS;
        proof {
            vstd::arithmetic::div_mod::lemma_fundamental_div_mod(row as int, KONATA_DETAIL_PAGE_ROWS as int);
            assert(p <= u32::MAX) by (nonlinear_arith)
                requires
                    row as int == KONATA_DETAIL_PAGE_ROWS * p + row % KONATA_DETAIL_PAGE_ROWS,
                    0 <= row % KONATA_DETAIL_PAGE_ROWS,
                    row < row_count,
                    row_count <= u32::MAX * KONATA_DETAIL_PAGE_ROWS,
                    KONATA_DETAIL_PAGE_ROWS == 4096,
            ;
        }
        Some(p as u32)
    } else {
        None
    }
}

/// The first stage of every page, and one past the last stage.
pub open spec fn page_stage_offsets_ok(offsets: Seq<usize>, row_count: int, stage_offsets: Seq<u32>) -> bool {
    &&& offsets.len() == page_count_of(row_count) + 1
    &&& forall|p: int|
        0 <= p < offsets.len() ==> #[trigger] offsets[p] == stage_offsets[if page_row_start(p) <= row_count {
            page_row_start(p)
        } else {
            row_count
        }]
}

/// The global position of the first stage of every page, and the number of stages after
/// the last.
pub fn build_page_stage_offsets(row_count: usize, stage_offsets: &[u32]) -> (offsets: Vec<usize>)
    requires
        stage_offsets@.len() == row_count + 1,
    ensures
        page_stage_offsets_ok(offsets@, row_count as int, stage_offsets@),
{
    let page_count = detail_page_count(row_count);
    let mut offsets: Vec<usize> = Vec::new();
    let mut page: usize = 0;
    let mut row: usize = 0;
    while page <= page_count
        invariant
            stage_offsets@.len() == row_count + 1,
            page_count == page_count_of(row_count as int),
            page_count * KONATA_DETAIL_PAGE_ROWS >= row_count,
            page_count == 0 || (page_count - 1) * KONATA_DETAIL_PAGE_ROWS < row_count,
            page <= page_count + 1,
            row == if page_row_start(page as int) <= row_count {
                page_row_start(page as int)
            } else {
                row_count as int
            },
            offsets@.len() == page,
            forall|p: int|
                0 <= p < page ==> #[trigger] offsets@[p] == stage_offsets@[if page_row_start(p) <= row_count {
                    page_row_start(p)
                } else {
                    row_count as int
                }],
        decreases page_count + 1 - page,
    {
        offsets.push(stage_offsets[row] as usize);
        page = page + 1;
        if row_count - row >= KONATA_DETAIL_PAGE_ROWS {
            row = row + KONATA_DETAIL_PAGE_ROWS;
        } else {
            row = row_count;
        }
        proof {
            if page_row_start(page - 1) <= row_count && page_row_start(page as int) > row_count {
                assert(row == row_count);
            }
        }
    }
    offsets
}

/// Cuts every page out of the stage and row lists, in page order.
pub fn build_detail_pages<A: Clone>(
    row_count: usize,
    stages: &[KonataStage],
    stage_offsets: &[u32],
    stage_annotations: &[A],
    row_annotations: &[A],
    row_annotation_offsets: &[u32],
) -> (pages: Vec<KonataDetailPage<A>>)
    requires
        detail_input_ok(
            row_count as int,
            stages@,
            stage_offsets@,
            stage_annotations@,
            row_annotations@,
            row_annotation_offsets@,
        ),
        row_count <= u32::MAX * KONATA_DETAIL_PAGE_ROWS,
    ensures
        pages@.len() == page_count_of(row_count as int),
        forall|p: int|
            0 <= p < pages@.len() ==> page_cut(
                #[trigger] pages@[p],
                p as u32,
                row_count as int,
                stages@,
                stage_offsets@,
                stage_annotations@,
                row_annotations@,
                row_annotation_offsets@,
            ),
{
    let page_count = detail_page_count(row_count);
    let mut pages: Vec<KonataDetailPage<A>> = Vec::new();
    let mut page: usize = 0;
    while page < page_count
        invariant
            detail_input_ok(
                row_count as int,
                stages@,
                stage_offsets@,
                stage_annotations@,
                row_annotations@,
                row_annotation_offsets@,
            ),
            row_count <= u32::MAX * KONATA_DETAIL_PAGE_ROWS,
            page_count == page_count_of(row_count as int),
            page_count == 0 || (page_count - 1) * KONATA_DETAIL_PAGE_ROWS < row_count,
            page <= page_count,
            pages@.len() == page,
            forall|p: int|
                0 <= p < page ==> page_cut(
                    #[trigger] pages@[p],
                    p as u32,
                    row_count as int,
                    stages@,
                    stage_offsets@,
                    stage_annotations@,
                    row_annotations@,
                    row_annotation_offsets@,
                ),
        decreases page_count - page,
    {
        proof {
            assert(page * KONATA_DETAIL_PAGE_ROWS < row_count) by (nonlinear_arith)
                requires
                    page < page_count,
                    (page_count - 1) * KONATA_DETAIL_PAGE_ROWS < row_count,
            ;
            assert(page <= u32::MAX) by (nonlinear_arith)
                requires
                    page * KONATA_DETAIL_PAGE_ROWS < row_count,
                    row_count <= u32::MAX * KONATA_DETAIL_PAGE_ROWS,
                    KONATA_DETAIL_PAGE_ROWS == 4096,
            ;
        }
        let built = build_detail_page(
            page as u32,
            row_count,
            stages,
            stage_offsets,
            stage_annotations,
            row_annotations,
            row_annotation_offsets,
        );
        pages.push(built);
        page = page + 1;
    }
    pages
}

/// `offsets` is a row index of `rows` rows that covers a list of `len` items exactly:
/// from 0 to `len`, never decreasing.
pub open spec fn index_ok(offsets: Seq<u32>, rows: int, len: int) -> bool {
    &&& csr_ok(offsets, rows, len)
    &&& offsets[0] == 0
    &&& offsets[rows] == len
}

/// The page's own indexes are sound: its row index covers its rows and stays within its
/// stages and row annotations, and every stage owns a range of the page's stage
/// annotations.
pub open spec fn page_ok<A>(page: KonataDetailPage<A>) -> bool {
    &&& page.row_start <= page.row_end
    &&& index_ok(page.row_stage_offsets@, page.row_end - page.row_start, page.stages@.len() as int)
    &&& index_ok(page.row_annotation_offsets@, page.row_end - page.row_start, page.row_annotations@.len() as int)
    &&& forall|i: int|
        0 <= i < page.stages@.len() ==> (#[trigger] page.stages@[i]).annotation_start <= page.stages@[i].annotation_end
            <= page.stage_annotations@.len()
}

/// The rows of `offsets` (a sorted index) that start at or before `x` are exactly the
/// first `n`.
pub open spec fn leading_at_most(offsets: Seq<u32>, x: int, n: int) -> bool {
    &&& 0 <= n <= offsets.len()
    &&& forall|i: int| 0 <= i < n ==> #[trigger] offsets[i] <= x
    &&& forall|i: int| n <= i < offsets.len() ==> #[trigger] offsets[i] > x
}

/// The number of leading offsets at or below `x`, by binary search over a sorted index.
fn count_at_most(offsets: &[u32], x: usize) -> (n: usize)
    requires
        forall|i: int, j: int| 0 <= i <= j < offsets@.len() ==> offsets@[i] <= offsets@[j],
    ensures
        leading_at_most(offsets@, x as int, n as int),
{
    let mut lo: usize = 0;
    let mut hi: usize = offsets.len();
    while lo < hi
        invariant
            0 <= lo <= hi <= offsets@.len(),
            forall|i: int, j: int| 0 <= i <= j < offsets@.len() ==> offsets@[i] <= offsets@[j],
            forall|i: int| 0 <= i < lo ==> #[trigger] offsets@[i] <= x,
            forall|i: int| hi <= i < offsets@.len() ==> #[trigger] offsets@[i] > x,
        decreases hi - lo,
    {
        let mid = lo + (hi - lo) / 2;
        if offsets[mid] as usize <= x {
            proof {
                assert forall|i: int| 0 <= i < mid + 1 implies #[trigger] offsets@[i] <= x by {
                    assert(offsets@[i] <= offsets@[mid as int]);
                }
            }
            lo = mid + 1;
        } else {
            proof {
                assert forall|i: int| mid <= i < offsets@.len() implies #[trigger] offsets@[i] > x by {
                    assert(offsets@[mid as int] <= offsets@[i]);
                }
            }
            hi = mid;
        }
    }
    lo
}

/// The page offsets that are at or below `x` are exactly the first `n`.
pub open spec fn offsets_at_most(offsets: Seq<usize>, x: int, n: int) -> bool {
    &&& 0 <= n <= offsets.len()
    &&& forall|i: int| 0 <= i < n ==> #[trigger] offsets[i] <= x
    &&& forall|i: int| n <= i < offsets.len() ==> #[trigger] offsets[i] > x
}

/// The number of leading page offsets at or below `x`, by binary search over a sorted
/// index.
fn count_pages_at_most(offsets: &[usize], x: usize) -> (n: usize)
    requires
        forall|i: int, j: int| 0 <= i <= j < offsets@.len() ==> offsets@[i] <= offsets@[j],
    ensures
        offsets_at_most(offsets@, x as int, n as int),
{
    let mut lo: usize = 0;
    let mut hi: usize = offsets.len();
    while lo < hi
        invariant
            0 <= lo <= hi <= offsets@.len(),
            forall|i: int, j: int| 0 <= i <= j < offsets@.len() ==> offsets@[i] <= offsets@[j],
            forall|i: int| 0 <= i < lo ==> #[trigger] offsets@[i] <= x,
            forall|i: int| hi <= i < offsets@.len() ==> #[trigger] offsets@[i] > x,
        decreases hi - lo,
    {
        let mid = lo + (hi - lo) / 2;
        if offsets[mid] <= x {
            proof {
                assert forall|i: int| 0 <= i < mid + 1 implies #[trigger] offsets@[i] <= x by {
                    assert(offsets@[i] <= offsets@[mid as int]);
                }
            }
            lo = mid + 1;
        } else {
            proof {
                assert forall|i: int| mid <= i < offsets@.len() implies #[trigger] offsets@[i] > x by {
                    assert(offsets@[mid as int] <= offsets@[i]);
                }
            }
            hi = mid;
        }
    }
    lo
}

/// The page, and the position in it, of the stage at global position `ordinal`: the last
/// page whose first stage is at or before it (the first page when none is), if the
/// ordinal is a stage and lies at or after that page's first stage.
pub fn locate_ordinal(page_stage_offsets: &[usize], stage_count: usize, ordinal: usize) -> (found: Option<(u32, usize)>)
    requires
        1 <= page_stage_offsets@.len() <= u32::MAX,
        forall|i: int, j: int|
            0 <= i <= j < page_stage_offsets@.len() ==> page_stage_offsets@[i] <= page_stage_offsets@[j],
    ensures
        ordinal >= stage_count ==> found is None,
        ordinal < stage_count ==> forall|n: int| #[trigger]
            offsets_at_most(page_stage_offsets@, ordinal as int, n) ==> {
                let page = if n == 0 {
                    0
                } else {
                    n - 1
                };
                &&& ordinal >= page_stage_offsets@[page] ==> found == Some(
                    (page as u32, (ordinal - page_stage_offsets@[page]) as usize),
                )
                &&& ordinal < page_stage_offsets@[page] ==> found is None
            },
{
    if ordinal >= stage_count {
        return None;
    }
    let n = count_pages_at_most(page_stage_offsets, ordinal);
    proof {
        assert forall|m: int| #[trigger] offsets_at_most(page_stage_offsets@, ordinal as int, m) implies m == n by {
            if m < n {
                assert(page_stage_offsets@[m] > ordinal);
                assert(page_stage_offsets@[m] <= ordinal);
            }
            if n < m {
                assert(page_stage_offsets@[n as int] > ordinal);
                assert(page_stage_offsets@[n as int] <= ordinal);
            }
        }
    }
    let page = if n == 0 {
        0
    } else {
        n - 1
    };
    if ordinal < page_stage_offsets[page] {
        return None;
    }
    Some((page as u32, ordinal - page_stage_offsets[page]))
}

impl<A> KonataDetailPage<A> {
    /// The number of stages on the page.
    pub fn stage_count(&self) -> (count: usize)
        ensures
            count == self.stages@.len(),
    {
        self.stages.len()
    }

    /// The position of `row` among the page's rows, none for a row of another page.
    pub fn row_index(&self, row: usize) -> (index: Option<usize>)
        ensures
            self.row_start <= row < self.row_end ==> index == Some((row - self.row_start) as usize),
            !(self.row_start <= row < self.row_end) ==> index is None,
    {
        if self.row_start <= row && row < self.row_end {
            Some(row - self.row_start)
        } else {
            None
        }
    }

    /// The positions on the page of the stages of `row`, none for a row of another page.
    pub fn stages_range(&self, row: usize) -> (range: Option<Range<usize>>)
        requires
            page_ok(*self),
        ensures
            self.row_start <= row < self.row_end ==> range == Some(
                Range {
                    start: self.row_stage_offsets@[row - self.row_start] as usize,
                    end: self.row_stage_offsets@[row - self.row_start + 1] as usize,
                },
            ),
            !(self.row_start <= row < self.row_end) ==> range is None,
    {
        match self.row_index(row) {
            Some(r) => Some(
                Range { start: self.row_stage_offsets[r] as usize, end: self.row_stage_offsets[r + 1] as usize },
            ),
            None => None,
        }
    }

    /// The positions on the page of the annotations of `row`, none for a row of another
    /// page.
    pub fn row_annotations_range(&self, row: usize) -> (range: Option<Range<usize>>)
        requires
            page_ok(*self),
        ensures
            self.row_start <= row < self.row_end ==> range == Some(
                Range {
                    start: self.row_annotation_offsets@[row - self.row_start] as usize,
                    end: self.row_annotation_offsets@[row - self.row_start + 1] as usize,
                },
            ),
            !(self.row_start <= row < self.row_end) ==> range is None,
    {
        match self.row_index(row) {
            Some(r) => Some(
                Range {
                    start: self.row_annotation_offsets[r] as usize,
                    end: self.row_annotation_offsets[r + 1] as usize,
                },
            ),
            None => None,
        }
    }

    /// The positions on the page of the annotations a stage owns.
    pub fn stage_annotations_range(&self, stage: &KonataStage) -> (range: Range<usize>)
        ensures
            range == (Range { start: stage.annotation_start as usize, end: stage.annotation_end as usize }),
    {
        Range { start: stage.annotation_start as usize, end: stage.annotation_end as usize }
    }

    /// The annotations a stage of the page owns.
    pub fn annotations_for_stage(&self, stage: &KonataStage) -> (annotations: &[A])
        requires
            stage.annotation_start <= stage.annotation_end <= self.stage_annotations@.len(),
        ensures
            annotations@ == self.stage_annotations@.subrange(
                stage.annotation_start as int,
                stage.annotation_end as int,
            ),
    {
        let range = self.stage_annotations_range(stage);
        &self.stage_annotations.as_slice()[range.start..range.end]
    }

    /// The stages of `row`, none for a row of another page.
    pub fn stages_for_row(&self, row: usize) -> (stages: &[KonataStage])
        requires
            page_ok(*self),
        ensures
            self.row_start <= row < self.row_end ==> stages@ == self.stages@.subrange(
                self.row_stage_offsets@[row - self.row_start] as int,
                self.row_stage_offsets@[row - self.row_start + 1] as int,
            ),
            !(self.row_start <= row < self.row_end) ==> stages@.len() == 0,
    {
        match self.stages_range(row) {
            Some(range) => {
                proof {
                    let r = row - self.row_start;
                    assert(self.row_stage_offsets@[r] <= self.row_stage_offsets@[r + 1]);
                    assert(self.row_stage_offsets@[r + 1] <= self.row_stage_offsets@[self.row_end - self.row_start]);
                }
                &self.stages.as_slice()[range.start..range.end]
            },
            None => &self.stages.as_slice()[0..0],
        }
    }

    /// The annotations of `row`, none for a row of another page.
    pub fn annotations_for_row(&self, row: usize) -> (annotations: Option<&[A]>)
        requires
            page_ok(*self),
        ensures
            self.row_start <= row < self.row_end ==> (annotations matches Some(a) && a@
                == self.row_annotations@.subrange(
                self.row_annotation_offsets@[row - self.row_start] as int,
                self.row_annotation_offsets@[row - self.row_start + 1] as int,
            )),
            !(self.row_start <= row < self.row_end) ==> annotations is None,
    {
        match self.row_annotations_range(row) {
            Some(range) => {
                proof {
                    let r = row - self.row_start;
                    assert(self.row_annotation_offsets@[r] <= self.row_annotation_offsets@[r + 1]);
                    assert(self.row_annotation_offsets@[r + 1] <= self.row_annotation_offsets@[self.row_end
                        - self.row_start]);
                }
                Some(&self.row_annotations.as_slice()[range.start..range.end])
            },
            None => None,
        }
    }

    /// The stage at position `local` of the page, with its row: the last row whose stages
    /// start at or before it; none past the page's stages.
    pub fn stage_at(&self, local: usize) -> (found: Option<(usize, KonataStage)>)
        requires
            page_ok(*self),
        ensures
            local >= self.stages@.len() ==> found is None,
            local < self.stages@.len() ==> (found matches Some((row, stage)) && stage == self.stages@[local as int]
                && self.row_start <= row < self.row_end && self.row_stage_offsets@[row - self.row_start] <= local
                < self.row_stage_offsets@[row - self.row_start + 1]),
    {
        if local >= self.stages.len() {
            return None;
        }
        let stage = self.stages[local];
        let n = count_at_most(self.row_stage_offsets.as_slice(), local);
        let rows = self.row_end - self.row_start;
        proof {
            assert(self.row_stage_offsets@[rows as int] <= self.stages@.len());
            assert(n <= rows) by {
                if n > rows {
                    assert(self.row_stage_offsets@[rows as int] <= local);
                }
            }
            if n == 0 {
                assert(self.row_stage_offsets@[0] > local);
                assert(self.row_stage_offsets@[0] <= self.row_stage_offsets@[rows as int]);
            }
        }
        let row_in_page = if n == 0 {
            0
        } else {
            n - 1
        };
        Some((self.row_start + row_in_page, stage))
    }

    /// Whether the page's own indexes are sound.
    pub fn is_well_formed(&self) -> (ok: bool)
        ensures
            ok == page_ok(*self),
    {
        if self.row_start > self.row_end {
            return false;
        }
        let rows = self.row_end - self.row_start;
        if !index_check(self.row_stage_offsets.as_slice(), rows, self.stages.len()) {
            return false;
        }
        if !index_check(self.row_annotation_offsets.as_slice(), rows, self.row_annotations.len()) {
            return false;
        }
        let mut i: usize = 0;
        while i < self.stages.len()
            invariant
                i <= self.stages@.len(),
                forall|j: int|
                    0 <= j < i ==> (#[trigger] self.stages@[j]).annotation_start <= self.stages@[j].annotation_end
                        <= self.stage_annotations@.len(),
            decreases self.stages@.len() - i,
        {
            let stage = self.stages[i];
            if stage.annotation_start > stage.annotation_end || stage.annotation_end as usize > self.stage_annotations.len() {
                return false;
            }
            i = i + 1;
        }
        true
    }
}

/// Whether `offsets` is a row index of `rows` rows into a list of `len` items.
fn csr_check(offsets: &[u32], rows: usize, len: usize) -> (ok: bool)
    ensures
        ok == csr_ok(offsets@, rows as int, len as int),
{
    let n = offsets.len();
    if rows == usize::MAX || n != rows + 1 {
        return false;
    }
    let mut i: usize = 0;
    while i < rows
        invariant
            offsets@.len() == rows + 1,
            i <= rows,
            forall|a: int, b: int| 0 <= a <= b <= i ==> offsets@[a] <= offsets@[b],
        decreases rows - i,
    {
        if offsets[i] > offsets[i + 1] {
            return false;
        }
        proof {
            assert forall|a: int, b: int| 0 <= a <= b <= i + 1 implies offsets@[a] <= offsets@[b] by {
                if b == i + 1 && a <= i {
                    assert(offsets@[a] <= offsets@[i as int]);
                }
            }
        }
        i = i + 1;
    }
    offsets[rows] as usize <= len
}

/// Whether `offsets` is a row index of `rows` rows that covers a list of `len` items
/// exactly.
fn index_check(offsets: &[u32], rows: usize, len: usize) -> (ok: bool)
    ensures
        ok == index_ok(offsets@, rows as int, len as int),
{
    csr_check(offsets, rows, len) && offsets[0] == 0 && offsets[rows] as usize == len
}

/// Takes a decoded page as the page that was asked for, or refuses it when it holds
/// another page.
pub fn accept_decoded_page<A>(page_id: u32, page: KonataDetailPage<A>) -> (result: Result<KonataDetailPage<A>, String>)
    ensures
        page.id == page_id ==> result == Ok::<KonataDetailPage<A>, String>(page),
        page.id != page_id ==> (result matches Err(message) && message@
            == "Konata detail page identity mismatch: requested "@ + decimal(page_id as nat) + ", decoded "@ + decimal(
            page.id as nat,
        )),
{
    if page.id != page_id {
        let message = String::from_str("Konata detail page identity mismatch: requested ").concat(
            unsigned_text(page_id as u64).as_str(),
        ).concat(", decoded ").concat(unsigned_text(page.id as u64).as_str());
        return Err(message);
    }
    Ok(page)
}

/// A page cut from the lists has sound indexes of its own.
pub proof fn lemma_cut_page_ok<A: Clone>(
    page: KonataDetailPage<A>,
    page_id: u32,
    row_count: int,
    stages: Seq<KonataStage>,
    stage_offsets: Seq<u32>,
    stage_annotations: Seq<A>,
    row_annotations: Seq<A>,
    row_annotation_offsets: Seq<u32>,
)
    requires
        detail_input_ok(row_count, stages, stage_offsets, stage_annotations, row_annotations, row_annotation_offsets),
        page_row_start(page_id as int) < row_count,
        page_cut(page, page_id, row_count, stages, stage_offsets, stage_annotations, row_annotations, row_annotation_offsets),
    ensures
        page_ok(page),
{
    let rs = page_row_start(page_id as int);
    let re = page_row_end(page_id as int, row_count);
    let first = stage_offsets[rs] as int;
    let count = stage_offsets[re] - first;
    assert(stage_offsets[rs] <= stage_offsets[re]);
    lemma_spans_within(stages, first, count);
    assert forall|i: int, j: int| 0 <= i <= j <= re - rs implies page.row_stage_offsets@[i] <= page.row_stage_offsets@[j] by {
        assert(stage_offsets[rs + i] <= stage_offsets[rs + j]);
    }
    assert forall|i: int, j: int| 0 <= i <= j <= re - rs implies page.row_annotation_offsets@[i]
        <= page.row_annotation_offsets@[j] by {
        assert(row_annotation_offsets[rs + i] <= row_annotation_offsets[rs + j]);
    }
    assert(page.row_stage_offsets@[re - rs] == count);
    assert(page.row_annotation_offsets@[re - rs] == page.row_annotations@.len());
    assert forall|i: int| 0 <= i < page.stages@.len() implies (#[trigger] page.stages@[i]).annotation_start
        <= page.stages@[i].annotation_end <= page.stage_annotations@.len() by {
        assert(page.stages@[i] == restamped(stages[first + i], page_id, spans(stages, first, i)));
        assert(stages[first + i].annotation_start <= stages[first + i].annotation_end);
        lemma_spans_monotone(stages, first, i + 1, count);
        lemma_spans_monotone(stages, first, 0, i);
    }
}

/// A page cut from the lists gives back the stages of each of its rows: they sit between
/// the row's offsets on the page, in order, each re-stamped with the page, and the
/// annotations each owns on the page are copies of those it owned in the lists.
pub proof fn lemma_row_round_trip<A: Clone>(
    page: KonataDetailPage<A>,
    page_id: u32,
    row_count: int,
    stages: Seq<KonataStage>,
    stage_offsets: Seq<u32>,
    stage_annotations: Seq<A>,
    row_annotations: Seq<A>,
    row_annotation_offsets: Seq<u32>,
    row: int,
    k: int,
)
    requires
        detail_input_ok(row_count, stages, stage_offsets, stage_annotations, row_annotations, row_annotation_offsets),
        page_row_start(page_id as int) < row_count,
        page_cut(page, page_id, row_count, stages, stage_offsets, stage_annotations, row_annotations, row_annotation_offsets),
        page.row_start <= row < page.row_end,
        0 <= k < stage_offsets[row + 1] - stage_offsets[row],
    ensures
        ({
            let local = page.row_stage_offsets@[row - page.row_start] + k;
            let source = stages[stage_offsets[row] + k];
            let held = page.stages@[local];
            &&& page.row_stage_offsets@[row - page.row_start] <= local < page.row_stage_offsets@[row - page.row_start + 1]
            &&& local < page.stages@.len()
            &&& held.start == source.start && held.end == source.end && held.event_tx == source.event_tx
            &&& held.name == source.name && held.lane == source.lane && held.flags == source.flags
            &&& held.detail_page == page_id
            &&& held.annotation_end - held.annotation_start == span(source)
            &&& forall|t: int|
                0 <= t < span(source) ==> cloned(
                    stage_annotations[source.annotation_start + t],
                    #[trigger] page.stage_annotations@[held.annotation_start + t],
                )
        }),
{
    let rs = page_row_start(page_id as int);
    let re = page_row_end(page_id as int, row_count);
    let first = stage_offsets[rs] as int;
    let count = stage_offsets[re] - first;
    let r = row - rs;
    assert(stage_offsets[rs] <= stage_offsets[row]);
    assert(stage_offsets[row + 1] <= stage_offsets[re]);
    let local = page.row_stage_offsets@[r] + k;
    assert(page.row_stage_offsets@[r] == stage_offsets[rs + r] - first);
    assert(page.row_stage_offsets@[r + 1] == stage_offsets[rs + r + 1] - first);
    assert(0 <= local < count);
    lemma_spans_within(stages, first, count);
    lemma_spans_monotone(stages, first, local + 1, count);
    lemma_spans_monotone(stages, first, 0, local);
    assert(stages[first + local].annotation_start <= stages[first + local].annotation_end);
    assert(page.stages@[local] == restamped(stages[first + local], page_id, spans(stages, first, local)));
    assert(annotations_copied(page.stage_annotations@, stage_annotations, stages[first + local], spans(stages, first, local)));
    assert(first + local == stage_offsets[row] + k);
}

/// The page offsets are sorted.
pub proof fn lemma_page_offsets_sorted(offsets: Seq<usize>, row_count: int, stage_offsets: Seq<u32>, len: int)
    requires
        page_stage_offsets_ok(offsets, row_count, stage_offsets),
        csr_ok(stage_offsets, row_count, len),
        row_count >= 0,
    ensures
        forall|i: int, j: int| 0 <= i <= j < offsets.len() ==> offsets[i] <= offsets[j],
{
    assert forall|i: int, j: int| 0 <= i <= j < offsets.len() implies offsets[i] <= offsets[j] by {
        let ri = if page_row_start(i) <= row_count { page_row_start(i) } else { row_count };
        let rj = if page_row_start(j) <= row_count { page_row_start(j) } else { row_count };
        assert(page_row_start(i) <= page_row_start(j)) by (nonlinear_arith)
            requires
                i <= j,
        ;
        assert(offsets[i] == stage_offsets[ri]);
        assert(offsets[j] == stage_offsets[rj]);
        assert(0 <= i) ;
        assert(page_row_start(i) >= 0) by (nonlinear_arith)
            requires
                0 <= i,
        ;
        assert(stage_offsets[ri] <= stage_offsets[rj]);
    }
}

/// The page offsets find the page of every stage: for a stage of `row`, the pages whose
/// first stage is at or before it are exactly those up to the row's page, and that page's
/// first stage is the first stage of its first row.
pub proof fn lemma_ordinal_page(offsets: Seq<usize>, row_count: int, stage_offsets: Seq<u32>, len: int, ordinal: int, row: int)
    requires
        page_stage_offsets_ok(offsets, row_count, stage_offsets),
        csr_ok(stage_offsets, row_count, len),
        0 <= row < row_count,
        stage_offsets[row] <= ordinal < stage_offsets[row + 1],
    ensures
        offsets_at_most(offsets, ordinal, row / (KONATA_DETAIL_PAGE_ROWS as int) + 1),
        offsets[row / (KONATA_DETAIL_PAGE_ROWS as int)] == stage_offsets[page_row_start(
            row / (KONATA_DETAIL_PAGE_ROWS as int),
        )],
{
    let p = row / (KONATA_DETAIL_PAGE_ROWS as int);
    vstd::arithmetic::div_mod::lemma_fundamental_div_mod(row, KONATA_DETAIL_PAGE_ROWS as int);
    assert(page_row_start(p) <= row) by (nonlinear_arith)
        requires
            row == KONATA_DETAIL_PAGE_ROWS * p + row % (KONATA_DETAIL_PAGE_ROWS as int),
            0 <= row % (KONATA_DETAIL_PAGE_ROWS as int),
    ;
    assert(row < page_row_start(p + 1)) by (nonlinear_arith)
        requires
            row == KONATA_DETAIL_PAGE_ROWS * p + row % (KONATA_DETAIL_PAGE_ROWS as int),
            row % (KONATA_DETAIL_PAGE_ROWS as int) < KONATA_DETAIL_PAGE_ROWS,
    ;
    assert(0 <= p) by (nonlinear_arith)
        requires
            0 <= row,
            p == row / (KONATA_DETAIL_PAGE_ROWS as int),
            KONATA_DETAIL_PAGE_ROWS == 4096,
    ;
    assert((row_count + KONATA_DETAIL_PAGE_ROWS - 1) / (KONATA_DETAIL_PAGE_ROWS as int) >= p + 1) by (nonlinear_arith)
        requires
            row < row_count,
            row == KONATA_DETAIL_PAGE_ROWS * p + row % (KONATA_DETAIL_PAGE_ROWS as int),
            0 <= row % (KONATA_DETAIL_PAGE_ROWS as int) < KONATA_DETAIL_PAGE_ROWS,
            KONATA_DETAIL_PAGE_ROWS == 4096,
    ;
    assert forall|i: int| 0 <= i < p + 1 implies #[trigger] offsets[i] <= ordinal by {
        assert(page_row_start(i) <= page_row_start(p)) by (nonlinear_arith)
            requires
                i <= p,
        ;
        assert(page_row_start(i) >= 0) by (nonlinear_arith)
            requires
                0 <= i,
        ;
        assert(offsets[i] == stage_offsets[page_row_start(i)]);
        assert(stage_offsets[page_row_start(i)] <= stage_offsets[row]);
    }
    assert forall|i: int| p + 1 <= i < offsets.len() implies #[trigger] offsets[i] > ordinal by {
        assert(page_row_start(p + 1) <= page_row_start(i)) by (nonlinear_arith)
            requires
                p + 1 <= i,
        ;
        let ri = if page_row_start(i) <= row_count { page_row_start(i) } else { row_count };
        assert(row + 1 <= ri);
        assert(offsets[i] == stage_offsets[ri]);
        assert(stage_offsets[row + 1] <= stage_offsets[ri]);
    }
    assert(offsets[p] == stage_offsets[page_row_start(p)]);
}

/// The pages that hold the rows `start..end` of `row_count` rows, as the first and last
/// page (the range clamped to the last row); none for an empty range or no rows.
pub fn prefetch_page_range(start: usize, end: usize, row_count: usize) -> (pages: Option<(usize, usize)>)
    ensures
        (start >= end || row_count == 0) ==> pages is None,
        !(start >= end || row_count == 0) ==> pages == Some(
            (
                (if start < row_count { start } else { (row_count - 1) as usize }) / KONATA_DETAIL_PAGE_ROWS,
                (if end - 1 < row_count { (end - 1) as usize } else { (row_count - 1) as usize })
                    / KONATA_DETAIL_PAGE_ROWS,
            ),
        ),
{
    if start >= end || row_count == 0 {
        return None;
    }
    let last_row = row_count - 1;
    let first = if start < last_row { start } else { last_row } / KONATA_DETAIL_PAGE_ROWS;
    let last = if end - 1 < last_row { end - 1 } else { last_row } / KONATA_DETAIL_PAGE_ROWS;
    Some((first, last))
}

/// The paged store gives back every stage by its global position: for the stage at
/// position `ordinal` in the stage list, which belongs to `row`, the pages whose first
/// stage is at or before it are those up to the row's page, and that page (cut from the
/// lists) holds, at the position `ordinal` minus the page's first stage, that stage
/// re-stamped with the page, inside the range of `row`, with copies of its annotations.
pub proof fn lemma_paged_round_trip<A: Clone>(
    pages: Seq<KonataDetailPage<A>>,
    offsets: Seq<usize>,
    row_count: int,
    stages: Seq<KonataStage>,
    stage_offsets: Seq<u32>,
    stage_annotations: Seq<A>,
    row_annotations: Seq<A>,
    row_annotation_offsets: Seq<u32>,
    row: int,
    ordinal: int,
)
    requires
        detail_input_ok(row_count, stages, stage_offsets, stage_annotations, row_annotations, row_annotation_offsets),
        pages.len() == page_count_of(row_count),
        forall|p: int|
            0 <= p < pages.len() ==> page_cut(
                #[trigger] pages[p],
                p as u32,
                row_count,
                stages,
                stage_offsets,
                stage_annotations,
                row_annotations,
                row_annotation_offsets,
            ),
        page_stage_offsets_ok(offsets, row_count, stage_offsets),
        row_count <= u32::MAX * KONATA_DETAIL_PAGE_ROWS,
        0 <= row < row_count,
        stage_offsets[row] <= ordinal < stage_offsets[row + 1],
    ensures
        ({
            let p = row / (KONATA_DETAIL_PAGE_ROWS as int);
            let local = ordinal - offsets[p];
            let page = pages[p];
            let source = stages[ordinal];
            let held = page.stages@[local];
            &&& 0 <= p < pages.len()
            &&& offsets_at_most(offsets, ordinal, p + 1)
            &&& page.row_start <= row < page.row_end
            &&& page.row_stage_offsets@[row - page.row_start] <= local < page.row_stage_offsets@[row - page.row_start + 1]
            &&& held.start == source.start && held.end == source.end && held.event_tx == source.event_tx
            &&& held.name == source.name && held.lane == source.lane && held.flags == source.flags
            &&& held.detail_page == p
            &&& forall|t: int|
                0 <= t < span(source) ==> cloned(
                    stage_annotations[source.annotation_start + t],
                    #[trigger] page.stage_annotations@[held.annotation_start + t],
                )
        }),
{
    let p = row / (KONATA_DETAIL_PAGE_ROWS as int);
    lemma_ordinal_page(offsets, row_count, stage_offsets, stages.len() as int, ordinal, row);
    vstd::arithmetic::div_mod::lemma_fundamental_div_mod(row, KONATA_DETAIL_PAGE_ROWS as int);
    assert(0 <= p) by (nonlinear_arith)
        requires
            0 <= row,
            p == row / (KONATA_DETAIL_PAGE_ROWS as int),
            KONATA_DETAIL_PAGE_ROWS == 4096,
    ;
    assert(page_row_start(p) <= row < page_row_start(p) + KONATA_DETAIL_PAGE_ROWS) by (nonlinear_arith)
        requires
            row == KONATA_DETAIL_PAGE_ROWS * p + row % (KONATA_DETAIL_PAGE_ROWS as int),
            0 <= row % (KONATA_DETAIL_PAGE_ROWS as int) < KONATA_DETAIL_PAGE_ROWS,
    ;
    assert(p < page_count_of(row_count)) by (nonlinear_arith)
        requires
            row < row_count,
            row == KONATA_DETAIL_PAGE_ROWS * p + row % (KONATA_DETAIL_PAGE_ROWS as int),
            0 <= row % (KONATA_DETAIL_PAGE_ROWS as int) < KONATA_DETAIL_PAGE_ROWS,
            KONATA_DETAIL_PAGE_ROWS == 4096,
    ;
    assert(p <= u32::MAX) by (nonlinear_arith)
        requires
            row == KONATA_DETAIL_PAGE_ROWS * p + row % (KONATA_DETAIL_PAGE_ROWS as int),
            0 <= row % (KONATA_DETAIL_PAGE_ROWS as int),
            row < row_count,
            row_count <= u32::MAX * KONATA_DETAIL_PAGE_ROWS,
            KONATA_DETAIL_PAGE_ROWS == 4096,
    ;
    let page = pages[p];
    assert(page_cut(page, p as u32, row_count, stages, stage_offsets, stage_annotations, row_annotations, row_annotation_offsets));
    let k = ordinal - stage_offsets[row];
    lemma_row_round_trip(
        page,
        p as u32,
        row_count,
        stages,
        stage_offsets,
        stage_annotations,
        row_annotations,
        row_annotation_offsets,
        row,
        k,
    );
    let rs = page_row_start(p);
    assert(page.row_stage_offsets@[row - rs] == stage_offsets[row] - stage_offsets[rs]);
}

} // verus!
