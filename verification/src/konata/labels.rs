//! The texts that name an instruction row and a stage: the row label of the view and the
//! names that assistive technology reads out.
use vstd::prelude::*;
use crate::konata::columns::{KonataStage, MISSING_U32, MISSING_U64};
use crate::konata::flags::FlushState;
use crate::konata::model::KonataModel;
use crate::konata::names::{lemma_occurs_in_concat, number_part, occurs_at, string_text, table_text};
use crate::konata::trace::{decimal, unsigned_text};

verus! {

/// `prefix` and the text of string `id` when `id` is present, else nothing.
pub open spec fn string_part(strings: Seq<String>, prefix: Seq<char>, id: u32) -> Seq<char> {
    if id != MISSING_U32 {
        prefix + string_text(strings, id)
    } else {
        Seq::empty()
    }
}

/// `prefix` and the name of thread `tid` when `tid` is present, else nothing.
pub open spec fn thread_part(m: KonataModel, prefix: Seq<char>, tid: u32) -> Seq<char> {
    if tid != MISSING_U32 {
        prefix + table_text(m.strings@, m.thread_names@, tid as int, Seq::empty())
    } else {
        Seq::empty()
    }
}

/// The bracketed thread and retire id of row `r`, shown when either is recorded or the
/// row was flushed: `t<thread>`, then `: ` before the retire id part when one follows,
/// then `r<rid>` or `r—` for a missing retire id.
pub open spec fn identity_part(m: KonataModel, r: int) -> Seq<char> {
    let tid = m.rows.tid@[r];
    let rid = m.rows.rid@[r];
    let flushed = m.rows.flushed@[r] == FlushState::True;
    if tid != MISSING_U32 || rid != MISSING_U64 || flushed {
        " ("@ + thread_part(m, "t"@, tid) + (if tid != MISSING_U32 && (rid != MISSING_U64 || flushed) {
            ": "@
        } else {
            Seq::empty()
        }) + (if rid != MISSING_U64 {
            "r"@ + decimal(rid as nat)
        } else {
            "r—"@
        }) + ")"@
    } else {
        Seq::empty()
    }
}

/// The label of row `r` in the view: its number, simulator id, thread and retire id, its
/// label (or its transaction id), and a warning sign for a row with quality flags.
pub open spec fn row_label_spec(m: KonataModel, r: int) -> Seq<char> {
    let label = m.rows.label@[r];
    decimal(r as nat) + number_part(": s"@, m.rows.sid@[r]) + identity_part(m, r) + ": "@ + (if label
        != MISSING_U32 {
        string_text(m.strings@, label)
    } else {
        "tx#"@ + decimal(m.rows.tx_id@[r] as nat)
    }) + (if m.rows.flags@[r].0 != 0 {
        " ⚠"@
    } else {
        Seq::empty()
    })
}

/// The words that describe a flush state.
pub open spec fn flush_words(state: FlushState) -> Seq<char> {
    match state {
        FlushState::True => ", flushed"@,
        FlushState::Unknown => ", flush state unknown"@,
        FlushState::False => Seq::empty(),
    }
}

/// The name of row `r` read out by assistive technology.
pub open spec fn accessible_row_name_spec(m: KonataModel, r: int) -> Seq<char> {
    "Instruction ID "@ + decimal(r as nat) + number_part(", SID "@, m.rows.sid@[r]) + thread_part(
        m,
        ", thread "@,
        m.rows.tid@[r],
    ) + number_part(", RID "@, m.rows.rid@[r]) + string_part(m.strings@, ", "@, m.rows.label@[r]) + flush_words(
        m.rows.flushed@[r],
    ) + (if m.rows.flags@[r].0 != 0 {
        ", data-quality warning"@
    } else {
        Seq::empty()
    }) + ", "@ + decimal((m.stage_offsets@[r + 1] - m.stage_offsets@[r]) as nat) + " stages"@
}

/// The name of a stage of row `row` read out by assistive technology.
pub open spec fn accessible_stage_name_spec(m: KonataModel, row: int, stage: KonataStage) -> Seq<char> {
    "Stage "@ + table_text(m.strings@, m.stage_names@, stage.name as int, "<unnamed stage>"@) + ", start "@ + decimal(
        stage.start as nat,
    ) + ", end "@ + decimal(stage.end as nat) + ", duration "@ + decimal(
        if stage.end >= stage.start {
            (stage.end - stage.start) as nat
        } else {
            0
        },
    ) + ", lane "@ + table_text(m.strings@, m.lane_names@, stage.lane as int, Seq::empty()) + ", parent instruction ID "@
        + decimal(row as nat) + (if stage.flags.0 != 0 {
        ", warning"@
    } else {
        Seq::empty()
    })
}

impl KonataModel {
    /// `prefix` and the text of string `id` when `id` is present, else nothing.
    fn string_part_text(&self, prefix: &str, id: u32) -> (text: String)
        ensures
            text@ == string_part(self.strings@, prefix@, id),
    {
        if id != MISSING_U32 {
            String::from_str(prefix).concat(self.string(id))
        } else {
            String::new()
        }
    }

    /// `prefix` and the name of thread `tid` when `tid` is present, else nothing.
    fn thread_part_text(&self, prefix: &str, tid: u32) -> (text: String)
        ensures
            text@ == thread_part(*self, prefix@, tid),
    {
        if tid != MISSING_U32 {
            String::from_str(prefix).concat(self.thread_name(tid))
        } else {
            String::new()
        }
    }

    /// The bracketed thread and retire id of `row`.
    fn identity_text(&self, row: usize) -> (text: String)
        requires
            self.rows.wf(),
            row < self.row_count_spec(),
        ensures
            text@ == identity_part(*self, row as int),
    {
        let tid = self.rows.tid[row];
        let rid = self.rows.rid[row];
        let flushed = self.rows.flushed[row] == FlushState::True;
        if tid != MISSING_U32 || rid != MISSING_U64 || flushed {
            let mut text = String::from_str(" (").concat(self.thread_part_text("t", tid).as_str());
            if tid != MISSING_U32 && (rid != MISSING_U64 || flushed) {
                text = text.concat(": ");
            }
            if rid != MISSING_U64 {
                text = text.concat("r").concat(unsigned_text(rid).as_str());
            } else {
                text = text.concat("r—");
            }
            text = text.concat(")");
            proof {
                assert(text@ =~= identity_part(*self, row as int));
            }
            text
        } else {
            String::new()
        }
    }

    /// The label of `row` in the view.
    pub fn row_label(&self, row: usize) -> (label: String)
        requires
            self.wf(),
            row < self.row_count_spec(),
        ensures
            label@ == row_label_spec(*self, row as int),
    {
        proof {
            self.lemma_rows_wf();
        }
        let head = unsigned_text(row as u64).concat(Self::number_text(": s", self.rows.sid[row]).as_str()).concat(
            self.identity_text(row).as_str(),
        ).concat(": ");
        let name = if self.rows.label[row] != MISSING_U32 {
            String::from_str(self.string(self.rows.label[row]))
        } else {
            String::from_str("tx#").concat(unsigned_text(self.rows.tx_id[row]).as_str())
        };
        let mut label = head.concat(name.as_str());
        if self.rows.flags[row].0 != 0 {
            label = label.concat(" ⚠");
        }
        proof {
            assert(label@ =~= row_label_spec(*self, row as int));
        }
        label
    }

    /// The name of `row` read out by assistive technology: its number, simulator id,
    /// thread, retire id, label, flush state, a quality warning and its stage count.
    pub fn accessible_row_name(&self, row: usize) -> (name: String)
        requires
            self.wf(),
            row < self.row_count_spec(),
        ensures
            name@ == accessible_row_name_spec(*self, row as int),
    {
        proof {
            self.lemma_rows_wf();
        }
        let mut name = String::from_str("Instruction ID ").concat(unsigned_text(row as u64).as_str()).concat(
            Self::number_text(", SID ", self.rows.sid[row]).as_str(),
        ).concat(self.thread_part_text(", thread ", self.rows.tid[row]).as_str()).concat(
            Self::number_text(", RID ", self.rows.rid[row]).as_str(),
        ).concat(self.string_part_text(", ", self.rows.label[row]).as_str());
        match self.rows.flushed[row] {
            FlushState::True => {
                name = name.concat(", flushed");
            },
            FlushState::Unknown => {
                name = name.concat(", flush state unknown");
            },
            FlushState::False => {},
        }
        if self.rows.flags[row].0 != 0 {
            name = name.concat(", data-quality warning");
        }
        let stage_count = self.stages_for_row(row).len();
        name = name.concat(", ").concat(unsigned_text(stage_count as u64).as_str()).concat(" stages");
        proof {
            assert(name@ =~= accessible_row_name_spec(*self, row as int));
        }
        name
    }

    /// The name of `stage` of `row` read out by assistive technology: its name, start,
    /// end, duration (zero when it ends before it starts), lane, row and a warning for a
    /// stage with quality flags.
    pub fn accessible_stage_name(&self, row: usize, stage: &KonataStage) -> (name: String)
        ensures
            name@ == accessible_stage_name_spec(*self, row as int, *stage),
    {
        let duration = stage.end.saturating_sub(stage.start);
        let mut name = String::from_str("Stage ").concat(self.stage_name(stage)).concat(", start ").concat(
            unsigned_text(stage.start).as_str(),
        ).concat(", end ").concat(unsigned_text(stage.end).as_str()).concat(", duration ").concat(
            unsigned_text(duration).as_str(),
        ).concat(", lane ").concat(self.lane_name(stage.lane)).concat(", parent instruction ID ").concat(
            unsigned_text(row as u64).as_str(),
        );
        if stage.flags.0 != 0 {
            name = name.concat(", warning");
        }
        proof {
            assert(name@ =~= accessible_stage_name_spec(*self, row as int, *stage));
        }
        name
    }
}


/// A row's label shows its retire id: when the row has one, "r" and the decimal digits of
/// the retire id occur in the label, whether or not the row records a thread.
pub proof fn lemma_row_label_shows_retire_id(m: KonataModel, r: int)
    requires
        0 <= r < m.rows.rid@.len(),
        m.rows.rid@[r] != MISSING_U64,
    ensures
        exists|p: int| #[trigger] occurs_at(row_label_spec(m, r), "r"@ + decimal(m.rows.rid@[r] as nat), 0, p),
{
    let tid = m.rows.tid@[r];
    let rid = m.rows.rid@[r];
    let flushed = m.rows.flushed@[r] == FlushState::True;
    let lead = decimal(r as nat) + number_part(": s"@, m.rows.sid@[r]);
    let thread = thread_part(m, "t"@, tid);
    let sep = if tid != MISSING_U32 && (rid != MISSING_U64 || flushed) {
        ": "@
    } else {
        Seq::<char>::empty()
    };
    let shown = "r"@ + decimal(rid as nat);
    let identity = " ("@ + thread + sep + shown + ")"@;
    assert(identity_part(m, r) == identity);
    let label = row_label_spec(m, r);
    let p: int = (lead.len() + 2 + thread.len() + sep.len()) as int;
    let q: int = (2 + thread.len() + sep.len()) as int;
    reveal_strlit(" (");
    let pre = " ("@ + thread + sep;
    assert(pre.len() == q);
    assert(identity == pre + shown + ")"@);
    assert(identity.subrange(q, q + shown.len()) =~= shown);
    assert(label == lead + identity + ": "@ + (if m.rows.label@[r] != MISSING_U32 {
        string_text(m.strings@, m.rows.label@[r])
    } else {
        "tx#"@ + decimal(m.rows.tx_id@[r] as nat)
    }) + (if m.rows.flags@[r].0 != 0 {
        " ⚠"@
    } else {
        Seq::empty()
    }));
    assert(label.subrange(p, p + shown.len()) =~= shown);
    assert(occurs_at(label, shown, 0, p));
}


/// A row's label starts with the row's number; it shows the row's thread name after " (t"
/// when the row records a thread, and its label text, or else "tx#" and its transaction
/// id, after ": ".
pub proof fn lemma_row_label_fields(m: KonataModel, r: int)
    requires
        0 <= r,
    ensures
        occurs_at(row_label_spec(m, r), decimal(r as nat), 0, 0),
        m.rows.tid@[r] != MISSING_U32 ==> exists|p: int|
            #[trigger] occurs_at(
                row_label_spec(m, r),
                " (t"@ + table_text(m.strings@, m.thread_names@, m.rows.tid@[r] as int, Seq::empty()),
                0,
                p,
            ),
        m.rows.label@[r] != MISSING_U32 ==> exists|p: int|
            #[trigger] occurs_at(row_label_spec(m, r), ": "@ + string_text(m.strings@, m.rows.label@[r]), 0, p),
        m.rows.label@[r] == MISSING_U32 ==> exists|p: int|
            #[trigger] occurs_at(row_label_spec(m, r), ": tx#"@ + decimal(m.rows.tx_id@[r] as nat), 0, p),
{
    let lead = decimal(r as nat) + number_part(": s"@, m.rows.sid@[r]);
    let identity = identity_part(m, r);
    let name = if m.rows.label@[r] != MISSING_U32 {
        string_text(m.strings@, m.rows.label@[r])
    } else {
        "tx#"@ + decimal(m.rows.tx_id@[r] as nat)
    };
    let warn = if m.rows.flags@[r].0 != 0 {
        " ⚠"@
    } else {
        Seq::<char>::empty()
    };
    let label = row_label_spec(m, r);
    assert(label == lead + identity + ": "@ + name + warn);
    assert(label =~= Seq::<char>::empty() + decimal(r as nat) + (number_part(": s"@, m.rows.sid@[r]) + identity
        + ": "@ + name + warn));
    lemma_occurs_in_concat(
        Seq::<char>::empty(),
        decimal(r as nat),
        number_part(": s"@, m.rows.sid@[r]) + identity + ": "@ + name + warn,
    );
    assert(label =~= (lead + identity) + (": "@ + name) + warn);
    lemma_occurs_in_concat(lead + identity, ": "@ + name, warn);
    if m.rows.label@[r] == MISSING_U32 {
        assert(": "@ + name =~= ": tx#"@ + decimal(m.rows.tx_id@[r] as nat)) by {
            reveal_strlit(": ");
            reveal_strlit("tx#");
            reveal_strlit(": tx#");
        }
    }
    let tid = m.rows.tid@[r];
    if tid != MISSING_U32 {
        let thread = table_text(m.strings@, m.thread_names@, tid as int, Seq::empty());
        let rid = m.rows.rid@[r];
        let flushed = m.rows.flushed@[r] == FlushState::True;
        let rest = (if rid != MISSING_U64 || flushed {
            ": "@
        } else {
            Seq::<char>::empty()
        }) + (if rid != MISSING_U64 {
            "r"@ + decimal(rid as nat)
        } else {
            "r—"@
        }) + ")"@;
        assert(thread_part(m, "t"@, tid) == "t"@ + thread);
        assert(identity == " ("@ + ("t"@ + thread) + rest);
        assert(" ("@ + ("t"@ + thread) =~= " (t"@ + thread) by {
            reveal_strlit(" (");
            reveal_strlit("t");
            reveal_strlit(" (t");
        }
        assert(label =~= lead + (" (t"@ + thread) + (rest + ": "@ + name + warn));
        lemma_occurs_in_concat(lead, " (t"@ + thread, rest + ": "@ + name + warn);
    }
}

} // verus!
