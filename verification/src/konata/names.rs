//! Names of the model's threads, lanes, stages and edges, and the lookups that go through
//! them.
use vstd::prelude::*;
use crate::konata::columns::{KonataDependency, KonataStage};
use crate::konata::model::KonataModel;
use crate::konata::texts::str_eq;
use crate::konata::trace::{decimal, unsigned_text};
use crate::konata::columns::{MISSING_U32, MISSING_U64};

verus! {

/// The text of string `id` of the table, or the empty text.
pub open spec fn string_text(strings: Seq<String>, id: u32) -> Seq<char> {
    if (id as int) < strings.len() {
        strings[id as int]@
    } else {
        Seq::empty()
    }
}

/// The text of entry `i` of a name table, or `fallback` past its end.
pub open spec fn table_text(strings: Seq<String>, table: Seq<u32>, i: int, fallback: Seq<char>) -> Seq<char> {
    if 0 <= i < table.len() {
        string_text(strings, table[i])
    } else {
        fallback
    }
}

/// `tid` is the first thread named `t`.
pub open spec fn first_thread_named(strings: Seq<String>, names: Seq<u32>, t: Seq<char>, tid: int) -> bool {
    &&& 0 <= tid < names.len()
    &&& table_text(strings, names, tid, Seq::empty()) == t
    &&& forall|q: int| 0 <= q < tid ==> #[trigger] table_text(strings, names, q, Seq::empty()) != t
}

/// The answer for the first thread named `name` and retire id `rid`: the row of the pair
/// when exactly one row has it, else none.
pub open spec fn thread_rid_answer(m: KonataModel, name: Seq<char>, rid: u64, row: Option<usize>) -> bool {
    match row {
        Some(r) => exists|tid: int|
            #[trigger] first_thread_named(m.strings@, m.thread_names@, name, tid) && crate::konata::model::unique_thread_row(
                m.rows.tid@,
                m.rows.rid@,
                tid as u32,
                rid,
            ) && r < m.row_count_spec() && m.rows.tid@[r as int] == tid as u32 && m.rows.rid@[r as int] == rid,
        None => forall|tid: int|
            #[trigger] first_thread_named(m.strings@, m.thread_names@, name, tid) ==> !crate::konata::model::unique_thread_row(
                m.rows.tid@,
                m.rows.rid@,
                tid as u32,
                rid,
            ),
    }
}

/// `prefix` and the decimal text of `v` when `v` is present, else nothing.
pub open spec fn number_part(prefix: Seq<char>, v: u64) -> Seq<char> {
    if v != MISSING_U64 {
        prefix + decimal(v as nat)
    } else {
        Seq::empty()
    }
}

/// A line of string `id` between newlines when `id` is present, else nothing.
pub open spec fn string_line(strings: Seq<String>, id: u32) -> Seq<char> {
    if id != MISSING_U32 {
        "\n"@ + string_text(strings, id) + "\n"@
    } else {
        Seq::empty()
    }
}

/// The searchable head of row `r`: ids, thread name, retire id, label and detail.
pub open spec fn search_head(m: KonataModel, r: int) -> Seq<char> {
    let tid = m.rows.tid@[r];
    "ID "@ + decimal(r as nat) + " tx "@ + decimal(m.rows.tx_id@[r] as nat) + number_part(" SID "@, m.rows.sid@[r]) + (if tid
        != MISSING_U32 {
        " TID "@ + table_text(m.strings@, m.thread_names@, tid as int, Seq::empty())
    } else {
        Seq::empty()
    }) + number_part(" RID "@, m.rows.rid@[r]) + string_line(m.strings@, m.rows.label@[r]) + string_line(
        m.strings@,
        m.rows.detail@[r],
    )
}

/// One line per stage with its name.
pub open spec fn stage_lines(m: KonataModel, stages: Seq<KonataStage>) -> Seq<char>
    decreases stages.len(),
{
    if stages.len() == 0 {
        Seq::empty()
    } else {
        stage_lines(m, stages.drop_last()) + "\n"@ + table_text(
            m.strings@,
            m.stage_names@,
            stages.last().name as int,
            "<unnamed stage>"@,
        )
    }
}

/// The searchable text of row `r`.
pub open spec fn search_text_spec(m: KonataModel, r: int) -> Seq<char> {
    search_head(m, r) + stage_lines(
        m,
        m.stages@.subrange(m.stage_offsets@[r] as int, m.stage_offsets@[r + 1] as int),
    )
}

/// The name a stage of the model takes in the execution-tick search.
pub open spec fn is_execute_name(name: Seq<char>) -> bool {
    name == "X"@ || name == "x"@ || name == "Ex"@ || name == "execute"@
}

impl KonataModel {
    /// Number of stages.
    pub fn stage_count(&self) -> (count: usize)
        ensures
            count == self.stages@.len(),
    {
        self.stages.len()
    }

    /// The name of thread `tid`, or the empty text for an unknown thread.
    pub fn thread_name(&self, tid: u32) -> (name: &str)
        ensures
            name@ == table_text(self.strings@, self.thread_names@, tid as int, Seq::empty()),
    {
        if (tid as usize) < self.thread_names.len() {
            self.string(self.thread_names[tid as usize])
        } else {
            proof {
                reveal_strlit("");
            }
            ""
        }
    }

    /// The name of lane `lane`, or the empty text for an unknown lane.
    pub fn lane_name(&self, lane: u16) -> (name: &str)
        ensures
            name@ == table_text(self.strings@, self.lane_names@, lane as int, Seq::empty()),
    {
        if (lane as usize) < self.lane_names.len() {
            self.string(self.lane_names[lane as usize])
        } else {
            proof {
                reveal_strlit("");
            }
            ""
        }
    }

    /// The name of a stage, or `<unnamed stage>` for an unknown stage name.
    pub fn stage_name(&self, stage: &KonataStage) -> (name: &str)
        ensures
            name@ == table_text(self.strings@, self.stage_names@, stage.name as int, "<unnamed stage>"@),
    {
        if (stage.name as usize) < self.stage_names.len() {
            self.string(self.stage_names[stage.name as usize])
        } else {
            "<unnamed stage>"
        }
    }

    /// The name of an edge, or `relation` for an unknown edge name.
    pub fn dependency_name(&self, dependency: &KonataDependency) -> (name: &str)
        ensures
            name@ == table_text(self.strings@, self.dependency_names@, dependency.name as int, "relation"@),
    {
        if (dependency.name as usize) < self.dependency_names.len() {
            self.string(self.dependency_names[dependency.name as usize])
        } else {
            "relation"
        }
    }

    /// The start tick of the first stage of `row` named `X`, `x`, `Ex` or `execute`.
    pub fn execution_tick(&self, row: usize) -> (tick: Option<u64>)
        requires
            self.wf(),
        ensures
            row >= self.row_count_spec() ==> tick is None,
            row < self.row_count_spec() ==> ({
                let stages = self.stages@.subrange(
                    self.stage_offsets@[row as int] as int,
                    self.stage_offsets@[row + 1] as int,
                );
                let named = |k: int| is_execute_name(table_text(self.strings@, self.stage_names@, stages[k].name as int, "<unnamed stage>"@));
                match tick {
                    Some(t) => exists|k: int|
                        0 <= k < stages.len() && #[trigger] named(k) && stages[k].start == t && forall|j: int| 0 <= j < k ==> !#[trigger] named(j),
                    None => forall|k: int| 0 <= k < stages.len() ==> !#[trigger] named(k),
                }
            }),
    {
        let stages = self.stages_for_row(row);
        let ghost named = |k: int| is_execute_name(table_text(self.strings@, self.stage_names@, stages@[k].name as int, "<unnamed stage>"@));
        let mut k: usize = 0;
        while k < stages.len()
            invariant
                k <= stages@.len(),
                self.wf(),
                row < self.row_count_spec() ==> stages@ == self.stages@.subrange(
                    self.stage_offsets@[row as int] as int,
                    self.stage_offsets@[row + 1] as int,
                ),
                row >= self.row_count_spec() ==> stages@.len() == 0,
                forall|j: int| 0 <= j < k ==> !#[trigger] named(j),
                named == (|k: int| is_execute_name(table_text(self.strings@, self.stage_names@, stages@[k].name as int, "<unnamed stage>"@))),
            decreases stages.len() - k,
        {
            let name = self.stage_name(&stages[k]);
            if str_eq(name, "X") || str_eq(name, "x") || str_eq(name, "Ex") || str_eq(name, "execute") {
                proof {
                    assert(named(k as int));
                }
                return Some(stages[k].start);
            }
            k = k + 1;
        }
        None
    }

    /// The row with retire id `rid` on the first thread named `name`, when exactly one row
    /// has that pair.
    pub fn row_for_thread_named(&self, name: &str, rid: u64) -> (row: Option<usize>)
        requires
            self.wf(),
        ensures
            thread_rid_answer(*self, name@, rid, row),
    {
        proof {
            self.lemma_thread_names_fit();
        }
        let mut tid: usize = 0;
        while tid < self.thread_names.len()
            invariant
                self.wf(),
                tid <= self.thread_names@.len(),
                self.thread_names@.len() <= u32::MAX,
                forall|q: int| 0 <= q < tid ==> #[trigger] table_text(self.strings@, self.thread_names@, q, Seq::empty()) != name@,
            decreases self.thread_names.len() - tid,
        {
            if str_eq(self.thread_name(tid as u32), name) {
                let found = self.row_for_thread_id_rid(Some(tid as u32), rid);
                proof {
                    let w = tid as int;
                    assert(first_thread_named(self.strings@, self.thread_names@, name@, w));
                    assert forall|tid2: int| #[trigger] first_thread_named(self.strings@, self.thread_names@, name@, tid2) implies tid2
                        == w by {
                        if tid2 < w {
                            assert(table_text(self.strings@, self.thread_names@, tid2, Seq::empty()) != name@);
                        } else if tid2 > w {
                            assert(table_text(self.strings@, self.thread_names@, w, Seq::empty()) != name@);
                        }
                    }
                    assert(w as u32 == tid as u32);
                }
                return found;
            }
            tid = tid + 1;
        }
        proof {
            assert forall|tid2: int| #[trigger] first_thread_named(self.strings@, self.thread_names@, name@, tid2) implies false by {
                assert(table_text(self.strings@, self.thread_names@, tid2, Seq::empty()) != name@);
            }
        }
        None
    }

    /// The row with retire id `rid` on the thread named `thread` (the first thread of that
    /// name; `None` for rows without a thread), when exactly one row has that pair.
    pub fn row_for_thread_rid(&self, thread: Option<&str>, rid: u64) -> (row: Option<usize>)
        requires
            self.wf(),
        ensures
            thread matches Some(t) ==> thread_rid_answer(*self, t@, rid, row),
            thread is None ==> (row is Some <==> crate::konata::model::unique_thread_row(
                self.rows.tid@,
                self.rows.rid@,
                crate::konata::columns::MISSING_U32,
                rid,
            )) && (row matches Some(r) ==> r < self.row_count_spec() && self.rows.rid@[r as int] == rid
                && self.rows.tid@[r as int] == crate::konata::columns::MISSING_U32),
    {
        match thread {
            None => self.row_for_thread_id_rid(None, rid),
            Some(t) => self.row_for_thread_named(t, rid),
        }
    }

    /// `prefix` and the decimal text of `v` when `v` is present, else nothing.
    pub(crate) fn number_text(prefix: &str, v: u64) -> (text: String)
        ensures
            text@ == number_part(prefix@, v),
    {
        if v != MISSING_U64 {
            String::from_str(prefix).concat(unsigned_text(v).as_str())
        } else {
            String::new()
        }
    }

    /// A line of string `id` between newlines when `id` is present, else nothing.
    fn string_line_text(&self, id: u32) -> (text: String)
        ensures
            text@ == string_line(self.strings@, id),
    {
        if id != MISSING_U32 {
            String::from_str("\n").concat(self.string(id)).concat("\n")
        } else {
            String::new()
        }
    }

    /// ` TID ` and the thread's name when `tid` is present, else nothing.
    fn thread_text(&self, tid: u32) -> (text: String)
        ensures
            text@ == (if tid != MISSING_U32 {
                " TID "@ + table_text(self.strings@, self.thread_names@, tid as int, Seq::empty())
            } else {
                Seq::empty()
            }),
    {
        if tid != MISSING_U32 {
            String::from_str(" TID ").concat(self.thread_name(tid))
        } else {
            String::new()
        }
    }

    /// The searchable head of `row`.
    fn search_head_text(&self, row: usize) -> (text: String)
        requires
            self.rows.wf(),
            row < self.row_count_spec(),
        ensures
            text@ == search_head(*self, row as int),
    {
        let ids = String::from_str("ID ").concat(unsigned_text(row as u64).as_str()).concat(" tx ").concat(
            unsigned_text(self.rows.tx_id[row]).as_str(),
        );
        let sid = Self::number_text(" SID ", self.rows.sid[row]);
        let tid = self.thread_text(self.rows.tid[row]);
        let rid = Self::number_text(" RID ", self.rows.rid[row]);
        let label = self.string_line_text(self.rows.label[row]);
        let detail = self.string_line_text(self.rows.detail[row]);
        let text = ids.concat(sid.as_str()).concat(tid.as_str()).concat(rid.as_str()).concat(label.as_str()).concat(
            detail.as_str(),
        );
        proof {
            assert(text@ =~= search_head(*self, row as int));
        }
        text
    }

    /// The searchable text of `row`: its ids, thread name, retire id, label, detail and
    /// the names of its stages.
    pub fn search_text(&self, row: usize) -> (text: String)
        requires
            self.wf(),
            row < self.row_count_spec(),
        ensures
            text@ == search_text_spec(*self, row as int),
    {
        proof {
            self.lemma_rows_wf();
        }
        let mut text = self.search_head_text(row);
        let stages = self.stages_for_row(row);
        let ghost head = text@;
        let mut k: usize = 0;
        while k < stages.len()
            invariant
                k <= stages@.len(),
                text@ == head + stage_lines(*self, stages@.take(k as int)),
            decreases stages.len() - k,
        {
            text = text.concat("\n");
            text = text.concat(self.stage_name(&stages[k]));
            proof {
                assert(stages@.take(k + 1).drop_last() =~= stages@.take(k as int));
                assert(stages@.take(k + 1).last() == stages@[k as int]);
                assert(text@ =~= head + stage_lines(*self, stages@.take(k + 1)));
            }
            k = k + 1;
        }
        proof {
            assert(stages@.take(stages@.len() as int) =~= stages@);
        }
        text
    }

    /// Replaces `text` with the searchable text of `row`.
    pub fn write_search_text(&self, row: usize, text: &mut String)
        requires
            self.wf(),
            row < self.row_count_spec(),
        ensures
            final(text)@ == search_text_spec(*self, row as int),
    {
        *text = self.search_text(row);
    }
}


/// The name a stage goes by: its entry in the stage-name table.
pub open spec fn named_stage(m: KonataModel, stage: KonataStage) -> Seq<char> {
    table_text(m.strings@, m.stage_names@, stage.name as int, "<unnamed stage>"@)
}

/// `part` occurs in `text` at `p`, at or after position `from`.
pub open spec fn occurs_at(text: Seq<char>, part: Seq<char>, from: int, p: int) -> bool {
    &&& from <= p
    &&& p + part.len() <= text.len()
    &&& text.subrange(p, p + part.len()) == part
}

/// Every stage of `stages` has a line with its name in their stage lines.
proof fn lemma_stage_lines_hold_names(m: KonataModel, stages: Seq<KonataStage>, k: int)
    requires
        0 <= k < stages.len(),
    ensures
        exists|p: int| #[trigger] occurs_at(stage_lines(m, stages), "\n"@ + named_stage(m, stages[k]), 0, p),
    decreases stages.len(),
{
    let before = stage_lines(m, stages.drop_last());
    let line = "\n"@ + named_stage(m, stages[k]);
    let text = stage_lines(m, stages);
    assert(text == before + line || k < stages.len() - 1);
    if k == stages.len() - 1 {
        assert(text == before + line);
        assert(text.subrange(before.len() as int, (before.len() + line.len()) as int) =~= line);
        assert(occurs_at(text, line, 0, before.len() as int));
    } else {
        lemma_stage_lines_hold_names(m, stages.drop_last(), k);
        assert(stages.drop_last()[k] == stages[k]);
        let p = choose|p: int| #[trigger] occurs_at(before, line, 0, p);
        let tail = "\n"@ + named_stage(m, stages.last());
        assert(text == before + tail);
        assert(text.subrange(p, p + line.len()) =~= before.subrange(p, p + line.len()));
        assert(occurs_at(text, line, 0, p));
    }
}

/// A search finds a row by the names of its stages: after the row's head, its searchable
/// text holds, for each stage `k` of the row, a line break followed by that stage's name.
pub proof fn lemma_search_text_names_stages(m: KonataModel, r: int, k: int)
    requires
        0 <= r,
        r + 1 < m.stage_offsets@.len(),
        m.stage_offsets@[r] <= k < m.stage_offsets@[r + 1],
        m.stage_offsets@[r + 1] <= m.stages@.len(),
    ensures
        exists|p: int|
            #[trigger] occurs_at(
                search_text_spec(m, r),
                "\n"@ + named_stage(m, m.stages@[k]),
                search_head(m, r).len() as int,
                p,
            ),
{
    let lo = m.stage_offsets@[r] as int;
    let hi = m.stage_offsets@[r + 1] as int;
    let stages = m.stages@.subrange(lo, hi);
    let head = search_head(m, r);
    let lines = stage_lines(m, stages);
    let line = "\n"@ + named_stage(m, m.stages@[k]);
    assert(stages[k - lo] == m.stages@[k]);
    lemma_stage_lines_hold_names(m, stages, k - lo);
    let p = choose|p: int| #[trigger] occurs_at(lines, line, 0, p);
    let text = search_text_spec(m, r);
    assert(text == head + lines);
    assert(text.subrange(head.len() + p, head.len() + p + line.len()) =~= lines.subrange(p, p + line.len()));
    assert(occurs_at(text, line, head.len() as int, head.len() + p));
}


/// The middle of three joined texts occurs where the first ends.
pub(crate) proof fn lemma_occurs_in_concat(a: Seq<char>, b: Seq<char>, c: Seq<char>)
    ensures
        occurs_at(a + b + c, b, 0, a.len() as int),
{
    assert((a + b + c).subrange(a.len() as int, (a.len() + b.len()) as int) =~= b);
}

/// The searchable text of a row starts with its number and transaction id, and holds its
/// simulator id, its retire id and its label, each when the row records it.
pub proof fn lemma_search_text_head_fields(m: KonataModel, r: int)
    ensures
        occurs_at(
            search_text_spec(m, r),
            "ID "@ + decimal(r as nat) + " tx "@ + decimal(m.rows.tx_id@[r] as nat),
            0,
            0,
        ),
        m.rows.sid@[r] != MISSING_U64 ==> exists|p: int|
            #[trigger] occurs_at(search_text_spec(m, r), " SID "@ + decimal(m.rows.sid@[r] as nat), 0, p),
        m.rows.rid@[r] != MISSING_U64 ==> exists|p: int|
            #[trigger] occurs_at(search_text_spec(m, r), " RID "@ + decimal(m.rows.rid@[r] as nat), 0, p),
        m.rows.label@[r] != MISSING_U32 ==> exists|p: int|
            #[trigger] occurs_at(
                search_text_spec(m, r),
                "\n"@ + string_text(m.strings@, m.rows.label@[r]) + "\n"@,
                0,
                p,
            ),
{
    let tid = m.rows.tid@[r];
    let ids = "ID "@ + decimal(r as nat) + " tx "@ + decimal(m.rows.tx_id@[r] as nat);
    let sid = number_part(" SID "@, m.rows.sid@[r]);
    let thread = if tid != MISSING_U32 {
        " TID "@ + table_text(m.strings@, m.thread_names@, tid as int, Seq::empty())
    } else {
        Seq::empty()
    };
    let rid = number_part(" RID "@, m.rows.rid@[r]);
    let label = string_line(m.strings@, m.rows.label@[r]);
    let detail = string_line(m.strings@, m.rows.detail@[r]);
    let lines = stage_lines(
        m,
        m.stages@.subrange(m.stage_offsets@[r] as int, m.stage_offsets@[r + 1] as int),
    );
    let text = search_text_spec(m, r);
    assert(text =~= Seq::<char>::empty() + ids + (sid + thread + rid + label + detail + lines));
    lemma_occurs_in_concat(Seq::<char>::empty(), ids, sid + thread + rid + label + detail + lines);
    assert(text =~= ids + sid + (thread + rid + label + detail + lines));
    lemma_occurs_in_concat(ids, sid, thread + rid + label + detail + lines);
    assert(text =~= (ids + sid + thread) + rid + (label + detail + lines));
    lemma_occurs_in_concat(ids + sid + thread, rid, label + detail + lines);
    assert(text =~= (ids + sid + thread + rid) + label + (detail + lines));
    lemma_occurs_in_concat(ids + sid + thread + rid, label, detail + lines);
}


/// The stage lines keep the stages' order: the line of an earlier stage starts before
/// the line of a later one.
proof fn lemma_stage_lines_in_order(m: KonataModel, stages: Seq<KonataStage>, j: int, k: int)
    requires
        0 <= j < k < stages.len(),
    ensures
        exists|p: int, q: int|
            #[trigger] occurs_at(stage_lines(m, stages), "\n"@ + named_stage(m, stages[j]), 0, p) && #[trigger] occurs_at(
                stage_lines(m, stages),
                "\n"@ + named_stage(m, stages[k]),
                p + 1,
                q,
            ),
    decreases stages.len(),
{
    let before = stage_lines(m, stages.drop_last());
    let text = stage_lines(m, stages);
    let line_j = "\n"@ + named_stage(m, stages[j]);
    let line_k = "\n"@ + named_stage(m, stages[k]);
    let tail = "\n"@ + named_stage(m, stages.last());
    assert(text == before + tail);
    assert(stages.drop_last()[j] == stages[j]);
    if k == stages.len() - 1 {
        lemma_stage_lines_hold_names(m, stages.drop_last(), j);
        let p = choose|p: int| #[trigger] occurs_at(before, line_j, 0, p);
        assert(text.subrange(p, p + line_j.len()) =~= before.subrange(p, p + line_j.len()));
        assert(occurs_at(text, line_j, 0, p));
        reveal_strlit("\n");
        assert(line_j.len() >= 1);
        assert(stages.last() == stages[k]);
        assert(text.subrange(before.len() as int, (before.len() + line_k.len()) as int) =~= line_k);
        assert(occurs_at(text, line_k, p + 1, before.len() as int));
    } else {
        lemma_stage_lines_in_order(m, stages.drop_last(), j, k);
        assert(stages.drop_last()[k] == stages[k]);
        let (p, q) = choose|p: int, q: int|
            #[trigger] occurs_at(before, line_j, 0, p) && #[trigger] occurs_at(before, line_k, p + 1, q);
        assert(text.subrange(p, p + line_j.len()) =~= before.subrange(p, p + line_j.len()));
        assert(text.subrange(q, q + line_k.len()) =~= before.subrange(q, q + line_k.len()));
        assert(occurs_at(text, line_j, 0, p));
        assert(occurs_at(text, line_k, p + 1, q));
    }
}

/// A row's searchable text lists its stages in the row's order: the line of stage `j`
/// starts after the head, and the line of a later stage `k` starts after it.
pub proof fn lemma_search_text_stage_order(m: KonataModel, r: int, j: int, k: int)
    requires
        0 <= r,
        r + 1 < m.stage_offsets@.len(),
        m.stage_offsets@[r] <= j < k < m.stage_offsets@[r + 1],
        m.stage_offsets@[r + 1] <= m.stages@.len(),
    ensures
        exists|p: int, q: int|
            #[trigger] occurs_at(
                search_text_spec(m, r),
                "\n"@ + named_stage(m, m.stages@[j]),
                search_head(m, r).len() as int,
                p,
            ) && #[trigger] occurs_at(search_text_spec(m, r), "\n"@ + named_stage(m, m.stages@[k]), p + 1, q),
{
    let lo = m.stage_offsets@[r] as int;
    let hi = m.stage_offsets@[r + 1] as int;
    let stages = m.stages@.subrange(lo, hi);
    let head = search_head(m, r);
    let lines = stage_lines(m, stages);
    let line_j = "\n"@ + named_stage(m, m.stages@[j]);
    let line_k = "\n"@ + named_stage(m, m.stages@[k]);
    assert(stages[j - lo] == m.stages@[j]);
    assert(stages[k - lo] == m.stages@[k]);
    lemma_stage_lines_in_order(m, stages, j - lo, k - lo);
    let (p, q) = choose|p: int, q: int|
        #[trigger] occurs_at(lines, line_j, 0, p) && #[trigger] occurs_at(lines, line_k, p + 1, q);
    let text = search_text_spec(m, r);
    assert(text == head + lines);
    let hl = head.len() as int;
    assert(text.subrange(hl + p, hl + p + line_j.len()) =~= lines.subrange(p, p + line_j.len()));
    assert(text.subrange(hl + q, hl + q + line_k.len()) =~= lines.subrange(q, q + line_k.len()));
    assert(occurs_at(text, line_j, hl, hl + p));
    assert(occurs_at(text, line_k, hl + p + 1, hl + q));
}

} // verus!
