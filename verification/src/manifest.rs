//! The manifest store model: the rows describing what the remote store
//! is believed to contain, with the one invariant that matters — at
//! most one row per key — and the verified operations that the
//! commands perform on it. Durable persistence of these rows is the
//! embedding program's business; the logic of every read and write is
//! here.

use vstd::prelude::*;

use crate::{entries_view, rows_view, EntriesRow, EntriesRowV, PlanEntry, PlanEntryV};

verus! {

/// No two rows share a key.
pub open spec fn spec_unique_keys(m: Seq<EntriesRowV>) -> bool {
    forall|i: int, j: int| 0 <= i < j < m.len() ==> m[i].key != m[j].key
}

/// Some row stores key `k`.
pub open spec fn spec_has_key(m: Seq<EntriesRowV>, k: Seq<char>) -> bool {
    exists|i: int| 0 <= i < m.len() && m[i].key == k
}

/// The first row storing key `k`, scanning from position `i`.
pub open spec fn spec_find_key_from(m: Seq<EntriesRowV>, k: Seq<char>, i: int) -> Option<
    EntriesRowV,
>
    decreases m.len() - i,
{
    if i < 0 || i >= m.len() {
        None
    } else if m[i].key == k {
        Some(m[i])
    } else {
        spec_find_key_from(m, k, i + 1)
    }
}

/// The first row storing key `k`, if any.
pub open spec fn spec_find_key(m: Seq<EntriesRowV>, k: Seq<char>) -> Option<EntriesRowV> {
    spec_find_key_from(m, k, 0)
}

/// Every row, with those storing key `r.key` overwritten by `r`.
pub open spec fn spec_replace(m: Seq<EntriesRowV>, r: EntriesRowV) -> Seq<EntriesRowV> {
    m.map_values(|x: EntriesRowV| if x.key == r.key { r } else { x })
}

/// The write the push executor performs for one applied entry: an
/// overwrite when the key is present, an append otherwise.
pub open spec fn spec_upsert(m: Seq<EntriesRowV>, r: EntriesRowV) -> Seq<EntriesRowV> {
    if spec_has_key(m, r.key) {
        spec_replace(m, r)
    } else {
        m.push(r)
    }
}

/// Every row except those storing key `k`, in order.
pub open spec fn spec_remove_key(m: Seq<EntriesRowV>, k: Seq<char>) -> Seq<EntriesRowV>
    decreases m.len(),
{
    if m.len() == 0 {
        Seq::empty()
    } else if m[0].key == k {
        spec_remove_key(m.drop_first(), k)
    } else {
        seq![m[0]] + spec_remove_key(m.drop_first(), k)
    }
}

/// Every row except those whose key is listed in `ks`, in order.
pub open spec fn spec_remove_keys(m: Seq<EntriesRowV>, ks: Seq<Seq<char>>) -> Seq<EntriesRowV>
    decreases ks.len(),
{
    if ks.len() == 0 {
        m
    } else {
        spec_remove_keys(spec_remove_key(m, ks[0]), ks.drop_first())
    }
}

/// The manifest row recording plan entry `e`.
pub open spec fn spec_row_of(e: PlanEntryV) -> EntriesRowV {
    EntriesRowV { key: e.key, path: e.path, hash: e.hash, modified: e.modified }
}

/// The manifest after the push executor applies `es`, first entry
/// first.
pub open spec fn spec_apply(m: Seq<EntriesRowV>, es: Seq<PlanEntryV>) -> Seq<EntriesRowV>
    decreases es.len(),
{
    if es.len() == 0 {
        m
    } else {
        spec_apply(spec_upsert(m, spec_row_of(es[0])), es.drop_first())
    }
}

/// The rows among the first `n` that store hash `h`, in order.
pub open spec fn spec_rows_with_hash_upto(m: Seq<EntriesRowV>, h: Seq<char>, n: int) -> Seq<
    EntriesRowV,
>
    decreases n,
{
    if n <= 0 {
        Seq::empty()
    } else {
        let pre = spec_rows_with_hash_upto(m, h, n - 1);
        if m[n - 1].hash == h {
            pre.push(m[n - 1])
        } else {
            pre
        }
    }
}

/// The rows that store hash `h`, in order.
pub open spec fn spec_rows_with_hash(m: Seq<EntriesRowV>, h: Seq<char>) -> Seq<EntriesRowV> {
    spec_rows_with_hash_upto(m, h, m.len() as int)
}

/// Law: applying a plan with no entries leaves the manifest exactly as
/// it was.
pub proof fn lemma_empty_plan_keeps_manifest(m: Seq<EntriesRowV>)
    ensures
        spec_apply(m, Seq::<PlanEntryV>::empty()) == m,
{
}

/// If row `j` stores `k` and no earlier row does, the scan finds
/// exactly row `j`.
proof fn lemma_find_key_first(m: Seq<EntriesRowV>, k: Seq<char>, i: int, j: int)
    requires
        0 <= i <= j < m.len(),
        m[j].key == k,
        forall|p: int| i <= p < j ==> m[p].key != k,
    ensures
        spec_find_key_from(m, k, i) == Some(m[j]),
    decreases j - i,
{
    if i < j {
        lemma_find_key_first(m, k, i + 1, j);
    }
}

/// If no row from position `i` on stores `k`, the scan finds nothing.
proof fn lemma_find_key_none(m: Seq<EntriesRowV>, k: Seq<char>, i: int)
    requires
        forall|p: int| i <= p < m.len() ==> m[p].key != k,
    ensures
        spec_find_key_from(m, k, i) is None,
    decreases m.len() - i,
{
    if 0 <= i < m.len() {
        lemma_find_key_none(m, k, i + 1);
    }
}

/// Removing a key keeps exactly the other rows: a row sits in the
/// result if and only if it sits in `m` and stores a different key.
pub proof fn lemma_remove_key_membership(m: Seq<EntriesRowV>, k: Seq<char>, r: EntriesRowV)
    ensures
        spec_remove_key(m, k).contains(r) <==> m.contains(r) && r.key != k,
    decreases m.len(),
{
    if m.len() > 0 {
        lemma_remove_key_membership(m.drop_first(), k, r);
        assert(m.contains(r) <==> r == m[0] || m.drop_first().contains(r)) by {
            if m.contains(r) {
                let i = choose|i: int| 0 <= i < m.len() && m[i] == r;
                if i > 0 {
                    assert(m.drop_first()[i - 1] == r);
                }
            }
            if m.drop_first().contains(r) {
                let i = choose|i: int| 0 <= i < m.drop_first().len() && m.drop_first()[i] == r;
                assert(m[i + 1] == r);
            }
        }
        if m[0].key != k {
            let rest = spec_remove_key(m.drop_first(), k);
            assert(spec_remove_key(m, k).contains(r) <==> r == m[0] || rest.contains(r)) by {
                let res = seq![m[0]] + rest;
                if res.contains(r) {
                    let i = choose|i: int| 0 <= i < res.len() && res[i] == r;
                    if i > 0 {
                        assert(rest[i - 1] == r);
                    }
                }
                if rest.contains(r) {
                    let i = choose|i: int| 0 <= i < rest.len() && rest[i] == r;
                    assert((seq![m[0]] + rest)[i + 1] == r);
                }
                assert(res[0] == m[0]);
            }
        }
    }
}

/// Removing a key preserves key uniqueness.
proof fn lemma_remove_key_wf(m: Seq<EntriesRowV>, k: Seq<char>)
    requires
        spec_unique_keys(m),
    ensures
        spec_unique_keys(spec_remove_key(m, k)),
    decreases m.len(),
{
    if m.len() > 0 {
        assert(spec_unique_keys(m.drop_first())) by {
            assert(forall|i: int, j: int|
                0 <= i < j < m.drop_first().len() ==> m.drop_first()[i] == m[i + 1]
                    && m.drop_first()[j] == m[j + 1]);
        }
        lemma_remove_key_wf(m.drop_first(), k);
        if m[0].key != k {
            let rest = spec_remove_key(m.drop_first(), k);
            let res = seq![m[0]] + rest;
            assert forall|i: int, j: int| 0 <= i < j < res.len() implies res[i].key
                != res[j].key by {
                if i == 0 {
                    assert(res[j] == rest[j - 1]);
                    assert(rest.contains(rest[j - 1]));
                    lemma_remove_key_membership(m.drop_first(), k, rest[j - 1]);
                    let p = choose|p: int|
                        0 <= p < m.drop_first().len() && m.drop_first()[p] == rest[j - 1];
                    assert(m[p + 1] == rest[j - 1]);
                    assert(m[0].key != m[p + 1].key);
                } else {
                    assert(res[i] == rest[i - 1] && res[j] == rest[j - 1]);
                }
            }
        }
    }
}

/// The durable set of manifest rows, with the invariant that a key
/// appears at most once.
pub struct ManifestStore {
    rows: Vec<EntriesRow>,
}

impl View for ManifestStore {
    type V = Seq<EntriesRowV>;

    closed spec fn view(&self) -> Seq<EntriesRowV> {
        rows_view(self.rows@)
    }
}

impl ManifestStore {
    /// The store's invariant: at most one row per key.
    pub open spec fn wf(&self) -> bool {
        spec_unique_keys(self@)
    }

    /// A fresh, empty manifest: the schema exists and holds no rows.
    pub fn open_or_init() -> (s: ManifestStore)
        ensures
            s@ == Seq::<EntriesRowV>::empty(),
            s.wf(),
    {
        let s = ManifestStore { rows: Vec::new() };
        proof {
            assert(s@ =~= Seq::<EntriesRowV>::empty());
        }
        s
    }

    /// Adopts rows read back from storage, provided no key repeats;
    /// returns nothing when the rows violate the invariant.
    pub fn from_rows(rows: Vec<EntriesRow>) -> (r: Option<ManifestStore>)
        ensures
            match r {
                Some(s) => s@ == rows_view(rows@) && s.wf() && spec_unique_keys(rows_view(rows@)),
                None => !spec_unique_keys(rows_view(rows@)),
            },
    {
        let ghost mv = rows_view(rows@);
        let n = rows.len();
        let mut i: usize = 0;
        while i < n
            invariant
                mv == rows_view(rows@),
                mv.len() == n == rows@.len(),
                0 <= i <= n,
                forall|p: int, q: int| 0 <= p < q < mv.len() && p < i ==> mv[p].key != mv[q].key,
            decreases n - i,
        {
            let mut j: usize = i + 1;
            while j < n
                invariant
                    mv == rows_view(rows@),
                    mv.len() == n == rows@.len(),
                    0 <= i < j <= n,
                    forall|q: int| i < q < j ==> mv[i as int].key != mv[q].key,
                decreases n - j,
            {
                proof {
                    assert(mv[i as int] == rows@[i as int]@);
                    assert(mv[j as int] == rows@[j as int]@);
                }
                if rows[i].key == rows[j].key {
                    return None;
                }
                j = j + 1;
            }
            i = i + 1;
        }
        Some(ManifestStore { rows })
    }

    /// Every row, in storage order.
    pub fn get_all_entries(&self) -> (r: &Vec<EntriesRow>)
        ensures
            rows_view(r@) == self@,
    {
        &self.rows
    }

    /// How many rows the manifest holds.
    pub fn len(&self) -> (n: usize)
        ensures
            n == self@.len(),
    {
        self.rows.len()
    }

    /// Whether some row stores key `k`.
    pub fn contains_key(&self, k: &String) -> (r: bool)
        ensures
            r == spec_has_key(self@, k@),
    {
        let mut i: usize = 0;
        while i < self.rows.len()
            invariant
                0 <= i <= self.rows@.len(),
                self@.len() == self.rows@.len(),
                forall|p: int| 0 <= p < i ==> self@[p].key != k@,
            decreases self.rows@.len() - i,
        {
            proof {
                assert(self@[i as int] == self.rows@[i as int]@);
            }
            if self.rows[i].key == *k {
                return true;
            }
            i = i + 1;
        }
        false
    }

    /// The row storing key `k`, if any.
    pub fn get_entry_by_key(&self, k: &String) -> (r: Option<&EntriesRow>)
        ensures
            match r {
                Some(row) => spec_find_key(self@, k@) == Some(row@),
                None => spec_find_key(self@, k@) is None,
            },
    {
        let mut i: usize = 0;
        while i < self.rows.len()
            invariant
                0 <= i <= self.rows@.len(),
                self@.len() == self.rows@.len(),
                forall|p: int| 0 <= p < i ==> self@[p].key != k@,
            decreases self.rows@.len() - i,
        {
            proof {
                assert(self@[i as int] == self.rows@[i as int]@);
            }
            if self.rows[i].key == *k {
                proof {
                    lemma_find_key_first(self@, k@, 0, i as int);
                }
                return Some(&self.rows[i]);
            }
            i = i + 1;
        }
        proof {
            lemma_find_key_none(self@, k@, 0);
        }
        None
    }

    /// The rows storing hash `h`, in order.
    pub fn get_entries_by_hash(&self, h: &String) -> (r: Vec<EntriesRow>)
        ensures
            rows_view(r@) == spec_rows_with_hash(self@, h@),
    {
        let mut out: Vec<EntriesRow> = Vec::new();
        let mut i: usize = 0;
        while i < self.rows.len()
            invariant
                0 <= i <= self.rows@.len(),
                self@.len() == self.rows@.len(),
                self@ == rows_view(self.rows@),
                rows_view(out@) == spec_rows_with_hash_upto(self@, h@, i as int),
            decreases self.rows@.len() - i,
        {
            proof {
                assert(self@[i as int] == self.rows@[i as int]@);
            }
            if self.rows[i].hash == *h {
                out.push(self.rows[i].duplicate());
            }
            proof {
                assert(rows_view(out@) =~= spec_rows_with_hash_upto(self@, h@, i + 1));
            }
            i = i + 1;
        }
        out
    }

    /// Appends a row whose key is not yet present.
    pub fn insert_entry(&mut self, row: EntriesRow)
        requires
            old(self).wf(),
            !spec_has_key(old(self)@, row@.key),
        ensures
            final(self)@ == old(self)@.push(row@),
            final(self).wf(),
    {
        self.rows.push(row);
        proof {
            assert(final(self)@ =~= old(self)@.push(row@));
        }
    }

    /// Overwrites the row storing `row.key` with `row`; a manifest
    /// without that key is left unchanged.
    pub fn update_entry_by_key(&mut self, row: EntriesRow)
        requires
            old(self).wf(),
        ensures
            final(self)@ == spec_replace(old(self)@, row@),
            final(self).wf(),
    {
        let ghost m0 = old(self)@;
        let mut out: Vec<EntriesRow> = Vec::new();
        let mut i: usize = 0;
        while i < self.rows.len()
            invariant
                m0 == rows_view(self.rows@),
                m0.len() == self.rows@.len(),
                0 <= i <= self.rows@.len(),
                out@.len() == i,
                forall|p: int| 0 <= p < i ==> #[trigger] out@[p]@ == spec_replace(m0, row@)[p],
            decreases self.rows@.len() - i,
        {
            proof {
                assert(m0[i as int] == self.rows@[i as int]@);
                assert(spec_replace(m0, row@)[i as int] == (if m0[i as int].key == row@.key {
                    row@
                } else {
                    m0[i as int]
                }));
            }
            if self.rows[i].key == row.key {
                out.push(row.duplicate());
            } else {
                out.push(self.rows[i].duplicate());
            }
            i = i + 1;
        }
        self.rows = out;
        proof {
            assert(rows_view(self.rows@) =~= spec_replace(m0, row@));
        }
        proof {
            assert(final(self)@ =~= spec_replace(m0, row@));
            assert forall|i2: int, j2: int|
                0 <= i2 < j2 < spec_replace(m0, row@).len() implies spec_replace(m0, row@)[i2].key
                != spec_replace(m0, row@)[j2].key by {
                assert(m0[i2].key != m0[j2].key);
            }
        }
    }

    /// The push executor's write for one applied entry: update when the
    /// key exists, insert otherwise.
    pub fn upsert_entry(&mut self, row: EntriesRow)
        requires
            old(self).wf(),
        ensures
            final(self)@ == spec_upsert(old(self)@, row@),
            final(self).wf(),
    {
        if self.contains_key(&row.key) {
            self.update_entry_by_key(row);
        } else {
            self.insert_entry(row);
        }
    }

    /// Deletes every row storing key `k` (at most one in a well-formed
    /// manifest).
    pub fn delete_entry_by_key(&mut self, k: &String)
        requires
            old(self).wf(),
        ensures
            final(self)@ == spec_remove_key(old(self)@, k@),
            final(self).wf(),
            !spec_has_key(final(self)@, k@),
    {
        let ghost m0 = old(self)@;
        let mut out: Vec<EntriesRow> = Vec::new();
        let mut i: usize = 0;
        while i < self.rows.len()
            invariant
                m0 == rows_view(self.rows@),
                m0.len() == self.rows@.len(),
                0 <= i <= self.rows@.len(),
                rows_view(out@) == spec_remove_key(m0.take(i as int), k@),
            decreases self.rows@.len() - i,
        {
            proof {
                assert(m0[i as int] == self.rows@[i as int]@);
                lemma_remove_key_snoc(m0.take(i as int), m0[i as int], k@);
                assert(m0.take(i + 1) =~= m0.take(i as int).push(m0[i as int]));
            }
            if self.rows[i].key == *k {
                proof {
                    assert(rows_view(out@) =~= spec_remove_key(m0.take(i + 1), k@));
                }
            } else {
                out.push(self.rows[i].duplicate());
                proof {
                    assert(rows_view(out@) =~= spec_remove_key(m0.take(i + 1), k@));
                }
            }
            i = i + 1;
        }
        self.rows = out;
        proof {
            assert(m0.take(m0.len() as int) =~= m0);
            lemma_remove_key_wf(m0, k@);
            if spec_has_key(self@, k@) {
                let i = choose|i: int| 0 <= i < self@.len() && self@[i].key == k@;
                assert(self@.contains(self@[i]));
                lemma_remove_key_membership(m0, k@, self@[i]);
            }
        }
    }

    /// Deletes the rows storing any of the listed keys, first key
    /// first.
    pub fn remove_keys(&mut self, ks: &Vec<String>)
        requires
            old(self).wf(),
        ensures
            final(self)@ == spec_remove_keys(old(self)@, crate::classify::strings_view(ks@)),
            final(self).wf(),
    {
        let ghost kv = crate::classify::strings_view(ks@);
        proof {
            assert(kv.skip(0) =~= kv);
        }
        let mut i: usize = 0;
        while i < ks.len()
            invariant
                kv == crate::classify::strings_view(ks@),
                kv.len() == ks@.len(),
                0 <= i <= ks@.len(),
                self.wf(),
                spec_remove_keys(self@, kv.skip(i as int)) == spec_remove_keys(old(self)@, kv),
            decreases ks@.len() - i,
        {
            proof {
                assert(kv[i as int] == ks@[i as int]@);
                assert(kv.skip(i as int)[0] == kv[i as int]);
                assert(kv.skip(i as int).drop_first() =~= kv.skip(i + 1));
                assert(kv.skip(i as int).len() == kv.len() - i);
            }
            self.delete_entry_by_key(&ks[i]);
            i = i + 1;
        }
        proof {
            assert(kv.skip(kv.len() as int).len() == 0);
        }
    }

    /// Applies a plan's entries in order, upserting one row per entry.
    pub fn apply_plan(&mut self, entries: &Vec<PlanEntry>)
        requires
            old(self).wf(),
        ensures
            final(self)@ == spec_apply(old(self)@, entries_view(entries@)),
            final(self).wf(),
    {
        let ghost es = entries_view(entries@);
        proof {
            assert(es.skip(0) =~= es);
        }
        let mut i: usize = 0;
        while i < entries.len()
            invariant
                es == entries_view(entries@),
                es.len() == entries@.len(),
                0 <= i <= entries@.len(),
                self.wf(),
                spec_apply(self@, es.skip(i as int)) == spec_apply(old(self)@, es),
            decreases entries@.len() - i,
        {
            proof {
                assert(es[i as int] == entries@[i as int]@);
                assert(es.skip(i as int)[0] == es[i as int]);
                assert(es.skip(i as int).drop_first() =~= es.skip(i + 1));
                assert(es.skip(i as int).len() == es.len() - i);
            }
            let row = EntriesRow::from_plan_entry(&entries[i]);
            proof {
                assert(row@ == spec_row_of(es[i as int]));
            }
            self.upsert_entry(row);
            i = i + 1;
        }
        proof {
            assert(es.skip(es.len() as int).len() == 0);
        }
    }
}

/// Removing `k` from `m` extended by one row appends that row's
/// survival to removing `k` from `m`.
proof fn lemma_remove_key_snoc(m: Seq<EntriesRowV>, r: EntriesRowV, k: Seq<char>)
    ensures
        spec_remove_key(m.push(r), k) == if r.key == k {
            spec_remove_key(m, k)
        } else {
            spec_remove_key(m, k).push(r)
        },
    decreases m.len(),
{
    if m.len() == 0 {
        assert(m.push(r).drop_first() =~= Seq::<EntriesRowV>::empty());
        assert(m.push(r)[0] == r);
        assert(spec_remove_key(Seq::<EntriesRowV>::empty(), k) == Seq::<EntriesRowV>::empty());
        assert(spec_remove_key(m, k) == Seq::<EntriesRowV>::empty());
        if r.key == k {
            assert(spec_remove_key(m.push(r), k) == spec_remove_key(m.push(r).drop_first(), k));
        }
        if r.key != k {
            assert(spec_remove_key(m.push(r), k) == seq![m.push(r)[0]] + spec_remove_key(
                m.push(r).drop_first(),
                k,
            ));
            assert(spec_remove_key(m.push(r), k) =~= spec_remove_key(m, k).push(r));
        }
    } else {
        assert(m.push(r)[0] == m[0]);
        assert(m.push(r).drop_first() =~= m.drop_first().push(r));
        lemma_remove_key_snoc(m.drop_first(), r, k);
        let s = spec_remove_key(m.drop_first(), k);
        assert(spec_remove_key(m.drop_first().push(r), k) == if r.key == k {
            s
        } else {
            s.push(r)
        });
        if m[0].key == k {
            assert(spec_remove_key(m.push(r), k) == spec_remove_key(m.drop_first().push(r), k));
            assert(spec_remove_key(m, k) == s);
        } else {
            assert(spec_remove_key(m.push(r), k) == seq![m[0]] + spec_remove_key(
                m.drop_first().push(r),
                k,
            ));
            assert(spec_remove_key(m, k) == seq![m[0]] + s);
            if r.key == k {
                assert(spec_remove_key(m.push(r), k) == seq![m[0]] + s);
            } else {
                assert(seq![m[0]] + s.push(r) =~= (seq![m[0]] + s).push(r));
                assert(spec_remove_key(m.push(r), k) == (seq![m[0]] + s).push(r));
            }
        }
    }
}

} // verus!
