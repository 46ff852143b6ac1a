//! The planning pipeline around the classifier: assess every candidate
//! against the manifest, collect the new entries, the conflicts awaiting
//! the operator's choice and the duplicate-content warnings, and fold
//! the operator's selection into the final list of accepted entries.

use vstd::prelude::*;

use crate::classify::{
    classify, spec_classify, spec_duplicates, spec_has_duplicate, spec_is_identical, strings_view,
    Classification, ConflictKind,
};
use crate::{entries_view, EntriesRow, EntriesRowV, PlanEntry, PlanEntryV, rows_view};

verus! {

/// A candidate whose key exists remotely with different content. It is
/// excluded from the plan unless the operator selects it.
pub struct Conflict {
    pub entry: PlanEntry,
    pub kind: ConflictKind,
    pub duplicates: Vec<String>,
}

/// The mathematical value of a [`Conflict`].
pub struct ConflictV {
    pub entry: PlanEntryV,
    pub kind: ConflictKind,
    pub duplicates: Seq<Seq<char>>,
}

impl View for Conflict {
    type V = ConflictV;

    open spec fn view(&self) -> ConflictV {
        ConflictV { entry: self.entry@, kind: self.kind, duplicates: strings_view(self.duplicates@) }
    }
}

/// The views of a sequence of conflicts, in order.
pub open spec fn conflicts_view(s: Seq<Conflict>) -> Seq<ConflictV> {
    s.map_values(|c: Conflict| c@)
}

/// A warning that an accepted entry's bytes already sit in the store
/// under the named other keys.
pub struct DuplicateWarning {
    pub key: String,
    pub others: Vec<String>,
}

/// The mathematical value of a [`DuplicateWarning`].
pub struct DuplicateWarningV {
    pub key: Seq<char>,
    pub others: Seq<Seq<char>>,
}

impl View for DuplicateWarning {
    type V = DuplicateWarningV;

    open spec fn view(&self) -> DuplicateWarningV {
        DuplicateWarningV { key: self.key@, others: strings_view(self.others@) }
    }
}

/// The views of a sequence of warnings, in order.
pub open spec fn warnings_view(s: Seq<DuplicateWarning>) -> Seq<DuplicateWarningV> {
    s.map_values(|w: DuplicateWarning| w@)
}

/// The candidates among the first `n` that classify as new, in order.
pub open spec fn spec_planned_upto(cs: Seq<PlanEntryV>, m: Seq<EntriesRowV>, n: int) -> Seq<
    PlanEntryV,
>
    decreases n,
{
    if n <= 0 {
        Seq::empty()
    } else {
        let pre = spec_planned_upto(cs, m, n - 1);
        if spec_classify(cs[n - 1], m) == Classification::New {
            pre.push(cs[n - 1])
        } else {
            pre
        }
    }
}

/// The candidates that classify as new, in order.
pub open spec fn spec_planned(cs: Seq<PlanEntryV>, m: Seq<EntriesRowV>) -> Seq<PlanEntryV> {
    spec_planned_upto(cs, m, cs.len() as int)
}

/// The conflicts among the first `n` candidates, in order, each with its
/// sub-state and its duplicate-content keys.
pub open spec fn spec_conflicts_upto(cs: Seq<PlanEntryV>, m: Seq<EntriesRowV>, n: int) -> Seq<
    ConflictV,
>
    decreases n,
{
    if n <= 0 {
        Seq::empty()
    } else {
        let pre = spec_conflicts_upto(cs, m, n - 1);
        match spec_classify(cs[n - 1], m) {
            Classification::Conflicting(k) => pre.push(
                ConflictV { entry: cs[n - 1], kind: k, duplicates: spec_duplicates(cs[n - 1], m) },
            ),
            _ => pre,
        }
    }
}

/// The conflicts among the candidates, in order.
pub open spec fn spec_conflicts(cs: Seq<PlanEntryV>, m: Seq<EntriesRowV>) -> Seq<ConflictV> {
    spec_conflicts_upto(cs, m, cs.len() as int)
}

/// The duplicate-content warnings for the new candidates among the
/// first `n`, in order.
pub open spec fn spec_new_warnings_upto(cs: Seq<PlanEntryV>, m: Seq<EntriesRowV>, n: int) -> Seq<
    DuplicateWarningV,
>
    decreases n,
{
    if n <= 0 {
        Seq::empty()
    } else {
        let pre = spec_new_warnings_upto(cs, m, n - 1);
        if spec_classify(cs[n - 1], m) == Classification::New && spec_has_duplicate(cs[n - 1], m) {
            pre.push(
                DuplicateWarningV { key: cs[n - 1].key, others: spec_duplicates(cs[n - 1], m) },
            )
        } else {
            pre
        }
    }
}

/// The duplicate-content warnings for the new candidates.
pub open spec fn spec_new_warnings(cs: Seq<PlanEntryV>, m: Seq<EntriesRowV>) -> Seq<
    DuplicateWarningV,
> {
    spec_new_warnings_upto(cs, m, cs.len() as int)
}

/// How many of the first `n` candidates classify as identical and are
/// skipped.
pub open spec fn spec_skipped_upto(cs: Seq<PlanEntryV>, m: Seq<EntriesRowV>, n: int) -> int
    decreases n,
{
    if n <= 0 {
        0
    } else {
        spec_skipped_upto(cs, m, n - 1) + if spec_classify(cs[n - 1], m)
            == Classification::Identical {
            1int
        } else {
            0int
        }
    }
}

/// How many candidates classify as identical.
pub open spec fn spec_skipped(cs: Seq<PlanEntryV>, m: Seq<EntriesRowV>) -> int {
    spec_skipped_upto(cs, m, cs.len() as int)
}

/// Everything the classifier decides before the operator is consulted.
pub struct Analysis {
    pub planned: Vec<PlanEntry>,
    pub conflicts: Vec<Conflict>,
    pub warnings: Vec<DuplicateWarning>,
    pub skipped_count: u64,
}

/// Classifies every candidate against the manifest: new candidates are
/// accepted, identical ones are counted as skipped, conflicting ones are
/// collected for the operator, and duplicate-content warnings are
/// gathered for the new ones.
pub fn analyze(candidates: &Vec<PlanEntry>, manifest: &Vec<EntriesRow>) -> (r: Analysis)
    ensures
        entries_view(r.planned@) == spec_planned(entries_view(candidates@), rows_view(manifest@)),
        conflicts_view(r.conflicts@) == spec_conflicts(
            entries_view(candidates@),
            rows_view(manifest@),
        ),
        warnings_view(r.warnings@) == spec_new_warnings(
            entries_view(candidates@),
            rows_view(manifest@),
        ),
        r.skipped_count == spec_skipped(entries_view(candidates@), rows_view(manifest@)),
{
    let ghost cs = entries_view(candidates@);
    let ghost mv = rows_view(manifest@);
    let mut planned: Vec<PlanEntry> = Vec::new();
    let mut conflicts: Vec<Conflict> = Vec::new();
    let mut warnings: Vec<DuplicateWarning> = Vec::new();
    let mut skipped: u64 = 0;
    let mut i: usize = 0;
    while i < candidates.len()
        invariant
            cs == entries_view(candidates@),
            mv == rows_view(manifest@),
            cs.len() == candidates@.len(),
            0 <= i <= candidates@.len(),
            entries_view(planned@) == spec_planned_upto(cs, mv, i as int),
            conflicts_view(conflicts@) == spec_conflicts_upto(cs, mv, i as int),
            warnings_view(warnings@) == spec_new_warnings_upto(cs, mv, i as int),
            skipped == spec_skipped_upto(cs, mv, i as int),
            skipped <= i,
        decreases candidates@.len() - i,
    {
        let c = &candidates[i];
        proof {
            assert(cs[i as int] == candidates@[i as int]@);
        }
        let verdict = classify(c, manifest);
        match verdict.class {
            Classification::Identical => {
                skipped = skipped + 1;
                proof {
                    assert(entries_view(planned@) =~= spec_planned_upto(cs, mv, i + 1));
                    assert(conflicts_view(conflicts@) =~= spec_conflicts_upto(cs, mv, i + 1));
                    assert(warnings_view(warnings@) =~= spec_new_warnings_upto(cs, mv, i + 1));
                }
            },
            Classification::New => {
                planned.push(c.duplicate());
                if verdict.duplicates.len() > 0 {
                    warnings.push(
                        DuplicateWarning { key: c.key.clone(), others: verdict.duplicates },
                    );
                } else {
                }
                proof {
                    assert(entries_view(planned@) =~= spec_planned_upto(cs, mv, i + 1));
                    assert(conflicts_view(conflicts@) =~= spec_conflicts_upto(cs, mv, i + 1));
                    assert(warnings_view(warnings@) =~= spec_new_warnings_upto(cs, mv, i + 1));
                }
            },
            Classification::Conflicting(kind) => {
                conflicts.push(Conflict { entry: c.duplicate(), kind, duplicates: verdict.duplicates });
                proof {
                    assert(entries_view(planned@) =~= spec_planned_upto(cs, mv, i + 1));
                    assert(conflicts_view(conflicts@) =~= spec_conflicts_upto(cs, mv, i + 1));
                    assert(warnings_view(warnings@) =~= spec_new_warnings_upto(cs, mv, i + 1));
                }
            },
        }
        i = i + 1;
    }
    Analysis { planned, conflicts, warnings, skipped_count: skipped }
}

/// The entries of the selected conflicts among the first `n`, in order.
pub open spec fn spec_selected_entries(cf: Seq<ConflictV>, sel: Seq<bool>, n: int) -> Seq<
    PlanEntryV,
>
    decreases n,
{
    if n <= 0 {
        Seq::empty()
    } else {
        let pre = spec_selected_entries(cf, sel, n - 1);
        if sel[n - 1] {
            pre.push(cf[n - 1].entry)
        } else {
            pre
        }
    }
}

/// The duplicate-content warnings of the selected conflicts among the
/// first `n`, in order.
pub open spec fn spec_selected_warnings(cf: Seq<ConflictV>, sel: Seq<bool>, n: int) -> Seq<
    DuplicateWarningV,
>
    decreases n,
{
    if n <= 0 {
        Seq::empty()
    } else {
        let pre = spec_selected_warnings(cf, sel, n - 1);
        if sel[n - 1] && cf[n - 1].duplicates.len() > 0 {
            pre.push(DuplicateWarningV { key: cf[n - 1].entry.key, others: cf[n - 1].duplicates })
        } else {
            pre
        }
    }
}

/// The final outcome of a planning run: the accepted entries and the
/// totals reported to the operator.
pub struct Resolution {
    pub entries: Vec<PlanEntry>,
    pub warnings: Vec<DuplicateWarning>,
    pub new_count: u64,
    pub updated_count: u64,
    pub skipped_count: u64,
}

/// Clones a vector of strings element by element.
fn clone_strings(v: &Vec<String>) -> (r: Vec<String>)
    ensures
        strings_view(r@) == strings_view(v@),
{
    let mut r: Vec<String> = Vec::new();
    let mut i: usize = 0;
    while i < v.len()
        invariant
            0 <= i <= v@.len(),
            r@.len() == i,
            forall|k: int| 0 <= k < i ==> r@[k]@ == v@[k]@,
        decreases v@.len() - i,
    {
        r.push(v[i].clone());
        i = i + 1;
    }
    proof {
        assert(strings_view(r@) =~= strings_view(v@));
    }
    r
}

/// Folds the operator's multi-select answer into the analysis: the new
/// entries joined by the selected conflicts become the plan's entries,
/// the selected conflicts contribute their duplicate-content warnings,
/// and the totals are fixed — `updated_count` is exactly the number of
/// accepted entries beyond the new ones.
pub fn resolve(analysis: Analysis, selected: &Vec<bool>) -> (r: Resolution)
    requires
        selected@.len() == analysis.conflicts@.len(),
    ensures
        entries_view(r.entries@) == entries_view(analysis.planned@) + spec_selected_entries(
            conflicts_view(analysis.conflicts@),
            selected@,
            selected@.len() as int,
        ),
        warnings_view(r.warnings@) == warnings_view(analysis.warnings@) + spec_selected_warnings(
            conflicts_view(analysis.conflicts@),
            selected@,
            selected@.len() as int,
        ),
        r.new_count == analysis.planned@.len(),
        r.entries@.len() == r.new_count + r.updated_count,
        r.updated_count == spec_selected_entries(
            conflicts_view(analysis.conflicts@),
            selected@,
            selected@.len() as int,
        ).len(),
        r.skipped_count == analysis.skipped_count,
{
    let ghost cf = conflicts_view(analysis.conflicts@);
    let ghost planned0 = entries_view(analysis.planned@);
    let ghost warnings0 = warnings_view(analysis.warnings@);
    let new_count = analysis.planned.len() as u64;
    let mut entries = analysis.planned;
    let mut warnings = analysis.warnings;
    let conflicts = analysis.conflicts;
    let mut i: usize = 0;
    while i < conflicts.len()
        invariant
            cf == conflicts_view(conflicts@),
            cf.len() == conflicts@.len(),
            selected@.len() == conflicts@.len(),
            0 <= i <= conflicts@.len(),
            new_count == planned0.len(),
            entries_view(entries@) == planned0 + spec_selected_entries(cf, selected@, i as int),
            warnings_view(warnings@) == warnings0 + spec_selected_warnings(
                cf,
                selected@,
                i as int,
            ),
        decreases conflicts@.len() - i,
    {
        proof {
            assert(cf[i as int] == conflicts@[i as int]@);
        }
        if selected[i] {
            let c = &conflicts[i];
            entries.push(c.entry.duplicate());
            proof {
                assert(selected@[i as int]);
                assert(cf[i as int].entry == c.entry@);
                assert(spec_selected_entries(cf, selected@, i as int + 1)
                    == spec_selected_entries(cf, selected@, i as int).push(cf[i as int].entry));
                assert(entries_view(entries@) =~= (planned0 + spec_selected_entries(
                    cf,
                    selected@,
                    i as int,
                )).push(cf[i as int].entry));
                assert(planned0 + spec_selected_entries(cf, selected@, i as int + 1) =~= (planned0
                    + spec_selected_entries(cf, selected@, i as int)).push(cf[i as int].entry));
                assert(cf[i as int].duplicates == strings_view(c.duplicates@));
                assert(cf[i as int].duplicates.len() == c.duplicates@.len());
            }
            if c.duplicates.len() > 0 {
                let key = c.entry.key.clone();
                let others = clone_strings(&c.duplicates);
                let ghost wv = DuplicateWarningV {
                    key: cf[i as int].entry.key,
                    others: cf[i as int].duplicates,
                };
                let w = DuplicateWarning { key, others };
                proof {
                    assert(w@ == wv);
                }
                warnings.push(w);
                proof {
                    assert(spec_selected_warnings(cf, selected@, i as int + 1)
                        == spec_selected_warnings(cf, selected@, i as int).push(wv));
                    assert(warnings_view(warnings@) =~= (warnings0 + spec_selected_warnings(
                        cf,
                        selected@,
                        i as int,
                    )).push(wv));
                    assert(warnings0 + spec_selected_warnings(cf, selected@, i as int + 1) =~= (
                    warnings0 + spec_selected_warnings(cf, selected@, i as int)).push(wv));
                }
            } else {
                proof {
                    assert(spec_selected_warnings(cf, selected@, i as int + 1)
                        == spec_selected_warnings(cf, selected@, i as int));
                }
            }
        } else {
            proof {
                assert(!selected@[i as int]);
                assert(spec_selected_entries(cf, selected@, i as int + 1)
                    == spec_selected_entries(cf, selected@, i as int));
                assert(spec_selected_warnings(cf, selected@, i as int + 1)
                    == spec_selected_warnings(cf, selected@, i as int));
            }
        }
        i = i + 1;
    }
    let total = entries.len() as u64;
    let updated = total - new_count;
    Resolution {
        entries,
        warnings,
        new_count,
        updated_count: updated,
        skipped_count: analysis.skipped_count,
    }
}

/// The plan's final entry list for a candidate set, manifest and
/// conflict selection: the new candidates followed by the selected
/// conflicts, in order.
pub open spec fn spec_final_entries(
    cs: Seq<PlanEntryV>,
    m: Seq<EntriesRowV>,
    sel: Seq<bool>,
) -> Seq<PlanEntryV> {
    spec_planned(cs, m) + spec_selected_entries(spec_conflicts(cs, m), sel, sel.len() as int)
}

/// Every planned entry is a candidate that classified as new.
proof fn lemma_planned_membership(
    cs: Seq<PlanEntryV>,
    m: Seq<EntriesRowV>,
    n: int,
    e: PlanEntryV,
)
    requires
        n <= cs.len(),
        spec_planned_upto(cs, m, n).contains(e),
    ensures
        exists|j: int|
            0 <= j < n && cs[j] == e && spec_classify(#[trigger] cs[j], m) == Classification::New,
    decreases n,
{
    if n > 0 {
        let pre = spec_planned_upto(cs, m, n - 1);
        if spec_classify(cs[n - 1], m) == Classification::New {
            let cur = pre.push(cs[n - 1]);
            let i = choose|i: int| 0 <= i < cur.len() && cur[i] == e;
            if i < pre.len() {
                assert(pre[i] == e);
                assert(pre.contains(e));
                lemma_planned_membership(cs, m, n - 1, e);
            } else {
                assert(cs[n - 1] == e);
            }
        } else {
            lemma_planned_membership(cs, m, n - 1, e);
        }
    }
}

/// Every collected conflict is a candidate that classified as
/// conflicting.
proof fn lemma_conflicts_membership(
    cs: Seq<PlanEntryV>,
    m: Seq<EntriesRowV>,
    n: int,
    cv: ConflictV,
)
    requires
        n <= cs.len(),
        spec_conflicts_upto(cs, m, n).contains(cv),
    ensures
        exists|j: int|
            0 <= j < n && cs[j] == cv.entry && spec_classify(#[trigger] cs[j], m)
                == Classification::Conflicting(cv.kind),
    decreases n,
{
    if n > 0 {
        let pre = spec_conflicts_upto(cs, m, n - 1);
        match spec_classify(cs[n - 1], m) {
            Classification::Conflicting(k) => {
                let pushed = ConflictV {
                    entry: cs[n - 1],
                    kind: k,
                    duplicates: spec_duplicates(cs[n - 1], m),
                };
                let cur = pre.push(pushed);
                let i = choose|i: int| 0 <= i < cur.len() && cur[i] == cv;
                if i < pre.len() {
                    assert(pre[i] == cv);
                    assert(pre.contains(cv));
                    lemma_conflicts_membership(cs, m, n - 1, cv);
                } else {
                    assert(cv == pushed);
                    assert(cs[n - 1] == cv.entry);
                }
            },
            _ => {
                lemma_conflicts_membership(cs, m, n - 1, cv);
            },
        }
    }
}

/// Every selected entry is the entry of some selected conflict.
proof fn lemma_selected_membership(cf: Seq<ConflictV>, sel: Seq<bool>, n: int, e: PlanEntryV)
    requires
        n <= cf.len(),
        n <= sel.len(),
        spec_selected_entries(cf, sel, n).contains(e),
    ensures
        exists|j: int| 0 <= j < n && sel[j] && (#[trigger] cf[j]).entry == e,
    decreases n,
{
    if n > 0 {
        let pre = spec_selected_entries(cf, sel, n - 1);
        if sel[n - 1] {
            let cur = pre.push(cf[n - 1].entry);
            let i = choose|i: int| 0 <= i < cur.len() && cur[i] == e;
            if i < pre.len() {
                assert(pre[i] == e);
                assert(pre.contains(e));
                lemma_selected_membership(cf, sel, n - 1, e);
            } else {
                assert(cf[n - 1].entry == e);
            }
        } else {
            lemma_selected_membership(cf, sel, n - 1, e);
        }
    }
}

/// Law: a candidate whose key and hash the manifest already stores is
/// classified identical, and — when no two candidates share a key, as
/// scans of one tree guarantee — no entry under its key reaches the
/// final plan, whatever conflicts the operator selects.
pub proof fn lemma_skip_correctness(
    cs: Seq<PlanEntryV>,
    m: Seq<EntriesRowV>,
    sel: Seq<bool>,
    k: int,
    i: int,
)
    requires
        0 <= k < cs.len(),
        0 <= i < m.len(),
        m[i].key == cs[k].key,
        m[i].hash == cs[k].hash,
        forall|a: int, b: int| 0 <= a < b < cs.len() ==> cs[a].key != cs[b].key,
        sel.len() == spec_conflicts(cs, m).len(),
    ensures
        spec_classify(cs[k], m) == Classification::Identical,
        forall|e: PlanEntryV|
            spec_final_entries(cs, m, sel).contains(e) ==> (#[trigger] e.key) != cs[k].key,
{
    assert(spec_is_identical(cs[k], m));
    let planned = spec_planned(cs, m);
    let cf = spec_conflicts(cs, m);
    let selected = spec_selected_entries(cf, sel, sel.len() as int);
    assert forall|e: PlanEntryV|
        spec_final_entries(cs, m, sel).contains(e) implies (#[trigger] e.key) != cs[k].key by {
        let whole = planned + selected;
        let i2 = choose|i2: int| 0 <= i2 < whole.len() && whole[i2] == e;
        if i2 < planned.len() {
            assert(planned[i2] == e);
            assert(planned.contains(e));
            lemma_planned_membership(cs, m, cs.len() as int, e);
            let j = choose|j: int|
                0 <= j < cs.len() && cs[j] == e && spec_classify(#[trigger] cs[j], m)
                    == Classification::New;
            assert(j != k);
            assert(cs[j].key != cs[k].key);
        } else {
            assert(selected[i2 - planned.len()] == e);
            assert(selected.contains(e));
            lemma_selected_membership(cf, sel, sel.len() as int, e);
            let j2 = choose|j2: int| 0 <= j2 < sel.len() && sel[j2] && (#[trigger] cf[j2]).entry == e;
            assert(cf.contains(cf[j2]));
            lemma_conflicts_membership(cs, m, cs.len() as int, cf[j2]);
            let j = choose|j: int|
                0 <= j < cs.len() && cs[j] == cf[j2].entry && spec_classify(#[trigger] cs[j], m)
                    == Classification::Conflicting(cf[j2].kind);
            assert(j != k);
            assert(cs[j].key != cs[k].key);
        }
    }
}

} // verus!
