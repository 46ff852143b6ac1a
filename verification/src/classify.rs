//! The diff and conflict classifier: compares scanned candidates against
//! the manifest and decides, for each, whether it is already stored,
//! new, or in conflict with the remote copy, together with the
//! duplicate-content flag that warns about identical bytes stored under
//! other keys.

use vstd::prelude::*;

use crate::{EntriesRow, EntriesRowV, PlanEntry, PlanEntryV, rows_view};

verus! {

/// How a conflicting candidate's modification time relates to the
/// manifest row it collides with.
#[derive(Clone, Copy, Debug, PartialEq, Eq, Structural)]
pub enum ConflictKind {
    RemoteNewer,
    RemoteOlder,
    TimestampTie,
}

/// The classification of one candidate against the manifest.
#[derive(Clone, Copy, Debug, PartialEq, Eq, Structural)]
pub enum Classification {
    Identical,
    New,
    Conflicting(ConflictKind),
}

/// Some manifest row stores the candidate's key with the candidate's
/// hash: the object is already present, byte for byte.
pub open spec fn spec_is_identical(c: PlanEntryV, m: Seq<EntriesRowV>) -> bool {
    exists|i: int| 0 <= i < m.len() && m[i].key == c.key && m[i].hash == c.hash
}

/// Row `i` stores the candidate's key with a different hash.
pub open spec fn spec_conflict_at(c: PlanEntryV, m: Seq<EntriesRowV>, i: int) -> bool {
    0 <= i < m.len() && m[i].key == c.key && m[i].hash != c.hash
}

/// The first manifest row holding the candidate's key with a different
/// hash, scanning from position `i`.
pub open spec fn spec_find_conflict_from(c: PlanEntryV, m: Seq<EntriesRowV>, i: int) -> Option<
    EntriesRowV,
>
    decreases m.len() - i,
{
    if i < 0 || i >= m.len() {
        None
    } else if m[i].key == c.key && m[i].hash != c.hash {
        Some(m[i])
    } else {
        spec_find_conflict_from(c, m, i + 1)
    }
}

/// The first manifest row holding the candidate's key with a different
/// hash, if any.
pub open spec fn spec_find_conflict(c: PlanEntryV, m: Seq<EntriesRowV>) -> Option<EntriesRowV> {
    spec_find_conflict_from(c, m, 0)
}

/// The conflict sub-state: the remote copy is newer, older, or carries
/// the very same timestamp (an unresolvable anomaly, surfaced as such).
pub open spec fn spec_conflict_kind(candidate_modified: u64, remote_modified: u64) -> ConflictKind {
    if remote_modified > candidate_modified {
        ConflictKind::RemoteNewer
    } else if remote_modified < candidate_modified {
        ConflictKind::RemoteOlder
    } else {
        ConflictKind::TimestampTie
    }
}

/// The classification rule, in order: same key and hash somewhere means
/// identical; otherwise a row with the same key (necessarily a different
/// hash) means conflicting, with the sub-state read off the timestamps;
/// otherwise the candidate is new.
pub open spec fn spec_classify(c: PlanEntryV, m: Seq<EntriesRowV>) -> Classification {
    if spec_is_identical(c, m) {
        Classification::Identical
    } else {
        match spec_find_conflict(c, m) {
            Some(r) => Classification::Conflicting(spec_conflict_kind(c.modified, r.modified)),
            None => Classification::New,
        }
    }
}

/// The keys of the first `n` manifest rows that store the candidate's
/// hash under a different key, in manifest order.
pub open spec fn spec_duplicates_upto(c: PlanEntryV, m: Seq<EntriesRowV>, n: int) -> Seq<Seq<char>>
    decreases n,
{
    if n <= 0 {
        Seq::empty()
    } else {
        let pre = spec_duplicates_upto(c, m, n - 1);
        if m[n - 1].hash == c.hash && m[n - 1].key != c.key {
            pre.push(m[n - 1].key)
        } else {
            pre
        }
    }
}

/// The keys of every manifest row that stores the candidate's hash under
/// a different key: the content is already remotely stored there.
pub open spec fn spec_duplicates(c: PlanEntryV, m: Seq<EntriesRowV>) -> Seq<Seq<char>> {
    spec_duplicates_upto(c, m, m.len() as int)
}

/// The candidate's bytes already sit in the store under another key.
pub open spec fn spec_has_duplicate(c: PlanEntryV, m: Seq<EntriesRowV>) -> bool {
    spec_duplicates(c, m).len() > 0
}

/// The views of a sequence of strings.
pub open spec fn strings_view(s: Seq<String>) -> Seq<Seq<char>> {
    s.map_values(|x: String| x@)
}

/// What the classifier decides for one candidate: the classification,
/// and the keys of manifest rows that already store the same bytes
/// elsewhere.
pub struct Assessment {
    pub class: Classification,
    pub duplicates: Vec<String>,
}

/// If row `j` is a conflict for `c` and no earlier row is, then the
/// scan finds exactly row `j`.
proof fn lemma_find_conflict_first(c: PlanEntryV, m: Seq<EntriesRowV>, i: int, j: int)
    requires
        0 <= i <= j,
        spec_conflict_at(c, m, j),
        forall|k: int| i <= k < j ==> !spec_conflict_at(c, m, k),
    ensures
        spec_find_conflict_from(c, m, i) == Some(m[j]),
    decreases j - i,
{
    if i < j {
        assert(!spec_conflict_at(c, m, i));
        lemma_find_conflict_first(c, m, i + 1, j);
    } else {
        assert(spec_conflict_at(c, m, i));
    }
}

/// If no row from position `i` on is a conflict for `c`, the scan finds
/// nothing.
proof fn lemma_find_conflict_none(c: PlanEntryV, m: Seq<EntriesRowV>, i: int)
    requires
        forall|k: int| i <= k < m.len() ==> !spec_conflict_at(c, m, k),
    ensures
        spec_find_conflict_from(c, m, i) is None,
    decreases m.len() - i,
{
    if 0 <= i < m.len() {
        assert(!spec_conflict_at(c, m, i));
        lemma_find_conflict_none(c, m, i + 1);
    }
}

/// Law: classification is pure — for one candidate and one manifest
/// snapshot there is exactly one verdict and one duplicate list, so
/// two runs on equal inputs agree.
pub proof fn lemma_classification_deterministic(
    c1: PlanEntryV,
    c2: PlanEntryV,
    m1: Seq<EntriesRowV>,
    m2: Seq<EntriesRowV>,
)
    requires
        c1 == c2,
        m1 == m2,
    ensures
        spec_classify(c1, m1) == spec_classify(c2, m2),
        spec_duplicates(c1, m1) == spec_duplicates(c2, m2),
{
}

/// Law: when the one row holding the candidate's key stores different
/// content, the verdict is conflicting, and the sub-state follows the
/// timestamps — a newer candidate sees the remote as older, an older
/// one sees it as newer, and an equal timestamp is the tie anomaly.
pub proof fn lemma_conflict_kind(c: PlanEntryV, m: Seq<EntriesRowV>, j: int)
    requires
        0 <= j < m.len(),
        m[j].key == c.key,
        m[j].hash != c.hash,
        forall|i: int| 0 <= i < m.len() && i != j ==> m[i].key != c.key,
    ensures
        spec_classify(c, m) == Classification::Conflicting(
            spec_conflict_kind(c.modified, m[j].modified),
        ),
        c.modified > m[j].modified ==> spec_classify(c, m) == Classification::Conflicting(
            ConflictKind::RemoteOlder,
        ),
        c.modified < m[j].modified ==> spec_classify(c, m) == Classification::Conflicting(
            ConflictKind::RemoteNewer,
        ),
        c.modified == m[j].modified ==> spec_classify(c, m) == Classification::Conflicting(
            ConflictKind::TimestampTie,
        ),
{
    assert(!spec_is_identical(c, m)) by {
        if spec_is_identical(c, m) {
            let i = choose|i: int| 0 <= i < m.len() && m[i].key == c.key && m[i].hash == c.hash;
            assert(i == j);
        }
    }
    lemma_find_conflict_first(c, m, 0, j);
}

/// Membership in the duplicate list: a key is listed exactly when some
/// row among the first `n` stores the candidate's hash under that key,
/// a key other than the candidate's own.
proof fn lemma_duplicates_membership(c: PlanEntryV, m: Seq<EntriesRowV>, n: int, k: Seq<char>)
    requires
        n <= m.len(),
    ensures
        spec_duplicates_upto(c, m, n).contains(k) <==> exists|i: int|
            0 <= i < n && m[i].hash == c.hash && m[i].key != c.key && m[i].key == k,
    decreases n,
{
    if n > 0 {
        lemma_duplicates_membership(c, m, n - 1, k);
        let pre = spec_duplicates_upto(c, m, n - 1);
        if m[n - 1].hash == c.hash && m[n - 1].key != c.key {
            let cur = pre.push(m[n - 1].key);
            if cur.contains(k) {
                let i = choose|i: int| 0 <= i < cur.len() && cur[i] == k;
                if i < pre.len() {
                    assert(pre[i] == k);
                    assert(pre.contains(k));
                }
            }
            if pre.contains(k) {
                let i = choose|i: int| 0 <= i < pre.len() && pre[i] == k;
                assert(cur[i] == k);
                assert(cur.contains(k));
            }
            if k == m[n - 1].key {
                assert(cur[cur.len() - 1] == k);
                assert(cur.contains(k));
            }
        }
    }
}

/// Law: duplicate content does not change the verdict. A candidate
/// whose key is nowhere in the manifest is new, even when its bytes
/// already sit there under other keys — and each such other key is
/// named in its duplicate list.
pub proof fn lemma_duplicate_flag_independence(c: PlanEntryV, m: Seq<EntriesRowV>, i: int)
    requires
        0 <= i < m.len(),
        m[i].hash == c.hash,
        m[i].key != c.key,
        forall|j: int| 0 <= j < m.len() ==> (#[trigger] m[j]).key != c.key,
    ensures
        spec_classify(c, m) == Classification::New,
        spec_has_duplicate(c, m),
        spec_duplicates(c, m).contains(m[i].key),
{
    assert(!spec_is_identical(c, m));
    lemma_find_conflict_none(c, m, 0);
    lemma_duplicates_membership(c, m, m.len() as int, m[i].key);
}

/// Classifies one candidate against the manifest rows in one pass, and
/// collects the keys of rows that store the same bytes under another
/// key.
pub fn classify(c: &PlanEntry, manifest: &Vec<EntriesRow>) -> (r: Assessment)
    ensures
        r.class == spec_classify(c@, rows_view(manifest@)),
        strings_view(r.duplicates@) == spec_duplicates(c@, rows_view(manifest@)),
{
    let ghost mv = rows_view(manifest@);
    let mut ident = false;
    let mut conflict: Option<EntriesRow> = None;
    let mut dups: Vec<String> = Vec::new();
    let mut i: usize = 0;
    while i < manifest.len()
        invariant
            mv == rows_view(manifest@),
            0 <= i <= manifest.len(),
            mv.len() == manifest@.len(),
            ident == exists|k: int| 0 <= k < i && mv[k].key == c@.key && mv[k].hash == c@.hash,
            match conflict {
                Some(r) => exists|j: int|
                    0 <= j < i && spec_conflict_at(c@, mv, j) && r@ == mv[j] && (forall|k: int|
                        0 <= k < j ==> !spec_conflict_at(c@, mv, k)),
                None => forall|k: int| 0 <= k < i ==> !spec_conflict_at(c@, mv, k),
            },
            strings_view(dups@) == spec_duplicates_upto(c@, mv, i as int),
        decreases manifest.len() - i,
    {
        let row = &manifest[i];
        proof {
            assert(mv[i as int] == manifest@[i as int]@);
        }
        if row.hash == c.hash && row.key != c.key {
            dups.push(row.key.clone());
            proof {
                assert(strings_view(dups@) =~= spec_duplicates_upto(c@, mv, i + 1));
            }
        } else {
            proof {
                assert(strings_view(dups@) =~= spec_duplicates_upto(c@, mv, i + 1));
            }
        }
        if row.key == c.key && row.hash == c.hash {
            ident = true;
        }
        if row.key == c.key && row.hash != c.hash && conflict.is_none() {
            conflict = Some(row.duplicate());
        }
        i = i + 1;
    }
    let class = if ident {
        Classification::Identical
    } else {
        match &conflict {
            Some(r) => {
                proof {
                    let j = choose|j: int|
                        0 <= j < mv.len() && spec_conflict_at(c@, mv, j) && r@ == mv[j] && (
                        forall|k: int| 0 <= k < j ==> !spec_conflict_at(c@, mv, k));
                    lemma_find_conflict_first(c@, mv, 0, j);
                }
                if r.modified > c.modified {
                    Classification::Conflicting(ConflictKind::RemoteNewer)
                } else if r.modified < c.modified {
                    Classification::Conflicting(ConflictKind::RemoteOlder)
                } else {
                    Classification::Conflicting(ConflictKind::TimestampTie)
                }
            },
            None => {
                proof {
                    lemma_find_conflict_none(c@, mv, 0);
                }
                Classification::New
            },
        }
    };
    Assessment { class, duplicates: dups }
}

} // verus!

