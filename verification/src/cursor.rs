//! Cursors: ordered iteration over one table's records, bounded to that
//! table's key range. A cursor pins a point-in-time snapshot of its
//! table's section of the keyspace, with the table prefix stripped from
//! every key; seeks position it, `next`/`prev` step it, and it is valid
//! while it stands on a record.

use vstd::prelude::*;

use crate::codec::{extract_key, lex_less, spec_inner_key};
use crate::entries::{entries_view, kget, sorted, Entry};
use crate::error::Error;
use crate::lex::{lemma_lex_common_prefix, KeyOrder, lex_cmp};
use crate::store::Store;
use crate::table::{NormalTable, TtlTable};
use crate::types::TableId;

verus! {

/// Whether `k` is an inner key of table `id`: the four id bytes, the
/// regular-key sentinel, then the user key.
pub open spec fn in_table(id: Seq<u8>, k: Seq<u8>) -> bool {
    k.len() >= 5 && k.subrange(0, 4) == id && k[4] == crate::consts::REGULAR_KEY_SENTINEL
}

/// Whether `items` is exactly table `id`'s section of contents `m`, in
/// ascending user-key order, each record present under its inner key.
pub open spec fn section_of(
    m: Seq<(Seq<u8>, Seq<u8>)>,
    id: Seq<u8>,
    items: Seq<(Seq<u8>, Seq<u8>)>,
) -> bool {
    &&& forall|x: int| #![trigger items[x]]
        0 <= x < items.len() ==> kget(m, spec_inner_key(id, items[x].0)) == Some(items[x].1)
    &&& forall|x: int, y: int| 0 <= x < y < items.len() ==> lex_less(items[x].0, items[y].0)
    &&& forall|j: int| #![trigger m[j]]
        0 <= j < m.len() && in_table(id, m[j].0) ==> exists|x: int|
            #![trigger items[x]]
            0 <= x < items.len() && items[x].0 == m[j].0.subrange(5, m[j].0.len() as int)
}

/// Table `id`'s section of contents `m`: its records in contents
/// order, the table prefix stripped from each key.
pub open spec fn spec_section(
    m: Seq<(Seq<u8>, Seq<u8>)>,
    id: Seq<u8>,
) -> Seq<(Seq<u8>, Seq<u8>)>
    decreases m.len(),
{
    if m.len() == 0 {
        Seq::empty()
    } else {
        let rest = spec_section(m.drop_last(), id);
        if in_table(id, m.last().0) {
            rest.push((m.last().0.subrange(5, m.last().0.len() as int), m.last().1))
        } else {
            rest
        }
    }
}

/// How many keys of `s` sort strictly before `key`: in a sorted list,
/// the index of the first record at or after `key`.
pub open spec fn spec_lower_bound(s: Seq<(Seq<u8>, Seq<u8>)>, key: Seq<u8>) -> int
    decreases s.len(),
{
    if s.len() == 0 {
        0
    } else {
        spec_lower_bound(s.drop_last(), key) + if lex_less(s.last().0, key) {
            1int
        } else {
            0int
        }
    }
}

/// How many keys of `s` sort at or before `key`: in a sorted list, one
/// past the index of the last record at or before `key`.
pub open spec fn spec_upper_count(s: Seq<(Seq<u8>, Seq<u8>)>, key: Seq<u8>) -> int
    decreases s.len(),
{
    if s.len() == 0 {
        0
    } else {
        spec_upper_count(s.drop_last(), key) + if !lex_less(key, s.last().0) {
            1int
        } else {
            0int
        }
    }
}

/// A count over a split list: everything below the split counts,
/// nothing above it does, so the count is the split index.
proof fn lemma_count_split(s: Seq<(Seq<u8>, Seq<u8>)>, key: Seq<u8>, i: int, at_or_after: bool)
    requires
        0 <= i <= s.len(),
        forall|j: int|
            0 <= j < s.len() ==> ((if at_or_after {
                !lex_less(key, #[trigger] s[j].0)
            } else {
                lex_less(s[j].0, key)
            }) <==> j < i),
    ensures
        at_or_after ==> spec_upper_count(s, key) == i,
        !at_or_after ==> spec_lower_bound(s, key) == i,
    decreases s.len(),
{
    if s.len() > 0 {
        let d = s.drop_last();
        if i == s.len() {
            lemma_count_split(d, key, i - 1, at_or_after);
        } else {
            lemma_count_split(d, key, i, at_or_after);
        }
    }
}

/// Both counts stay within the list's bounds.
pub proof fn lemma_counts_bounds(s: Seq<(Seq<u8>, Seq<u8>)>, key: Seq<u8>)
    ensures
        0 <= spec_lower_bound(s, key) <= s.len(),
        0 <= spec_upper_count(s, key) <= s.len(),
    decreases s.len(),
{
    if s.len() > 0 {
        lemma_counts_bounds(s.drop_last(), key);
    }
}

/// When every key at or below `key` sits before index `k`, at most `k`
/// keys are at or below it.
pub proof fn lemma_upper_count_le(s: Seq<(Seq<u8>, Seq<u8>)>, key: Seq<u8>, k: int)
    requires
        0 <= k <= s.len(),
        forall|j: int| 0 <= j < s.len() && !lex_less(key, #[trigger] s[j].0) ==> j < k,
    ensures
        spec_upper_count(s, key) <= k,
    decreases s.len(),
{
    lemma_counts_bounds(s, key);
    if s.len() > 0 {
        let d = s.drop_last();
        lemma_counts_bounds(d, key);
        if k == s.len() {
            lemma_upper_count_le(d, key, k - 1);
        } else {
            lemma_upper_count_le(d, key, k);
        }
    }
}

/// When the first `k` keys are all at or below `key`, at least `k` keys
/// are at or below it.
pub proof fn lemma_upper_count_ge(s: Seq<(Seq<u8>, Seq<u8>)>, key: Seq<u8>, k: int)
    requires
        0 <= k <= s.len(),
        forall|j: int| 0 <= j < k ==> !lex_less(key, #[trigger] s[j].0),
    ensures
        spec_upper_count(s, key) >= k,
    decreases s.len(),
{
    if s.len() > 0 {
        let d = s.drop_last();
        if k == s.len() {
            lemma_upper_count_ge(d, key, k - 1);
        } else {
            lemma_upper_count_ge(d, key, k);
        }
    }
}

/// A lower-bound cursor position in a sorted list is the count of keys
/// strictly below the sought key.
pub proof fn lemma_lower_bound_is_count(s: Seq<(Seq<u8>, Seq<u8>)>, key: Seq<u8>, pos: int)
    requires
        sorted(s),
        cursor_at_lower_bound(s, key, pos),
    ensures
        pos == spec_lower_bound(s, key),
{
    assert forall|j: int| 0 <= j < s.len() implies (lex_less(#[trigger] s[j].0, key) <==> j
        < pos) by {
        if j >= pos && pos < s.len() {
            if j > pos {
                assert(lex_less(s[pos as int].0, s[j].0));
            }
            if lex_less(s[j].0, key) {
                if j > pos {
                    crate::lex::lemma_lex_trans(s[pos as int].0, s[j].0, key);
                }
                assert(lex_less(s[pos as int].0, key));
            }
        }
    }
    lemma_count_split(s, key, pos, false);
}

/// An upper-bound cursor position in a sorted list: one past it is the
/// count of keys at or below the sought key, and the invalid position
/// means that count is zero.
pub proof fn lemma_upper_bound_is_count(s: Seq<(Seq<u8>, Seq<u8>)>, key: Seq<u8>, pos: int)
    requires
        sorted(s),
        cursor_at_upper_bound(s, key, pos, s.len() as int),
    ensures
        pos < s.len() ==> spec_upper_count(s, key) == pos + 1,
        pos == s.len() ==> spec_upper_count(s, key) == 0,
    decreases 0int,
{
    if pos == s.len() {
        assert forall|j: int| 0 <= j < s.len() implies (!lex_less(key, #[trigger] s[j].0) <==> j
            < 0) by {
            assert(lex_less(key, s[j].0));
            crate::lex::lemma_lex_asym(key, s[j].0);
        }
        lemma_count_split(s, key, 0, true);
    } else {
        assert forall|j: int| 0 <= j < s.len() implies (!lex_less(key, #[trigger] s[j].0) <==> j
            < pos + 1) by {
            if j <= pos {
                if j < pos {
                    assert(lex_less(s[j].0, s[pos as int].0));
                    if lex_less(key, s[j].0) {
                        crate::lex::lemma_lex_trans(key, s[j].0, s[pos as int].0);
                    }
                }
            } else {
                crate::lex::lemma_lex_asym(key, s[j].0);
            }
        }
        lemma_count_split(s, key, pos + 1, true);
    }
}

/// Copies table `table_id`'s records out of the store, in order, with
/// the table prefix stripped from each key.
pub fn table_section(store: &Store, table_id: TableId) -> (r: Vec<Entry>)
    requires
        store.wf(),
    ensures
        section_of(store.contents(), table_id@, entries_view(r@)),
        entries_view(r@) == spec_section(store.contents(), table_id@),
{
    let ghost m = store.contents();
    let v = &store.entries;
    let mut r: Vec<Entry> = Vec::new();
    let ghost mut idx: Seq<int> = Seq::empty();
    let mut i: usize = 0;
    while i < v.len()
        invariant
            0 <= i <= v.len(),
            m == entries_view(v@),
            store.wf(),
            idx.len() == entries_view(r@).len(),
            forall|x: int| #![trigger idx[x]]
                0 <= x < idx.len() ==> 0 <= idx[x] < i && in_table(table_id@, m[idx[x]].0)
                    && entries_view(r@)[x].0 == m[idx[x]].0.subrange(5, m[idx[x]].0.len() as int)
                    && entries_view(r@)[x].1 == m[idx[x]].1,
            forall|x: int, y: int| 0 <= x < y < idx.len() ==> idx[x] < idx[y],
            forall|j: int| #![trigger m[j]]
                0 <= j < i && in_table(table_id@, m[j].0) ==> exists|x: int|
                    #![trigger idx[x]]
                    0 <= x < idx.len() && idx[x] == j,
            entries_view(r@) == spec_section(m.subrange(0, i as int), table_id@),
        decreases v.len() - i,
    {
        proof {
            assert(m.subrange(0, i + 1).drop_last() =~= m.subrange(0, i as int));
            assert(m.subrange(0, i + 1).last() == m[i as int]);
        }
        let key = &v[i].0;
        let matches_table = key.len() >= 5 && key[0] == table_id[0] && key[1] == table_id[1]
            && key[2] == table_id[2] && key[3] == table_id[3] && key[4]
            == crate::consts::REGULAR_KEY_SENTINEL;
        proof {
            if matches_table {
                assert(m[i as int].0.subrange(0, 4) =~= table_id@);
                assert(in_table(table_id@, m[i as int].0));
            } else {
                if m[i as int].0.len() >= 5 && m[i as int].0.subrange(0, 4) == table_id@ {
                    assert(m[i as int].0[0] == table_id@[0] && m[i as int].0[1] == table_id@[1]
                        && m[i as int].0[2] == table_id@[2] && m[i as int].0[3] == table_id@[3]);
                }
                assert(!in_table(table_id@, m[i as int].0));
            }
        }
        if matches_table {
            let uk = extract_key(key.as_slice());
            let val = v[i].1.clone();
            let ghost r0 = entries_view(r@);
            let ghost idx0 = idx;
            r.push((uk, val));
            proof {
                idx = idx.push(i as int);
                assert(forall|x: int| 0 <= x < idx0.len() ==> idx[x] == idx0[x]);
                assert(forall|x: int| 0 <= x < r0.len() ==> entries_view(r@)[x] == r0[x]);
                assert(entries_view(r@)[r0.len() as int].0 == m[i as int].0.subrange(
                    5,
                    m[i as int].0.len() as int,
                ));
                assert forall|j: int| #![trigger m[j]]
                    0 <= j < i + 1 && in_table(table_id@, m[j].0) implies exists|x: int|
                    #![trigger idx[x]]
                    0 <= x < idx.len() && idx[x] == j by {
                    if j < i {
                        let x = choose|x: int| #![trigger idx0[x]]
                            0 <= x < idx0.len() && idx0[x] == j;
                        assert(0 <= x < idx.len() && idx[x] == j);
                    } else {
                        assert(idx[idx.len() - 1] == j);
                    }
                }
            }
        }
        proof {
            if in_table(table_id@, m[i as int].0) {
                assert(entries_view(r@) =~= spec_section(m.subrange(0, i + 1), table_id@));
            } else {
                assert(entries_view(r@) =~= spec_section(m.subrange(0, i + 1), table_id@));
            }
        }
        i = i + 1;
    }
    proof {
        assert(m.subrange(0, m.len() as int) =~= m);
    }
    let ghost items = entries_view(r@);
    proof {
        assert forall|x: int| #![trigger items[x]] 0 <= x < items.len() implies kget(
            m,
            spec_inner_key(table_id@, items[x].0),
        ) == Some(items[x].1) by {
            let j = idx[x];
            assert(in_table(table_id@, m[j].0));
            assert(spec_inner_key(table_id@, items[x].0) =~= m[j].0);
            crate::entries::lemma_kget_present(m, j);
        }
        assert forall|x: int, y: int| 0 <= x < y < items.len() implies lex_less(
            items[x].0,
            items[y].0,
        ) by {
            let jx = idx[x];
            let jy = idx[y];
            assert(lex_less(m[jx].0, m[jy].0));
            let p = table_id@ + seq![crate::consts::REGULAR_KEY_SENTINEL];
            lemma_lex_common_prefix(p, items[x].0, items[y].0);
            assert(p + items[x].0 =~= m[jx].0);
            assert(p + items[y].0 =~= m[jy].0);
        }
    }
    r
}

/// A cursor over one table of a plain store.
pub struct NormalCursor {
    pub items: Vec<Entry>,
    pub pos: usize,
}

impl NormalCursor {
    /// The snapshot is consistent: sorted, and the cursor stands inside
    /// it or just past it.
    pub open spec fn wf(self) -> bool {
        &&& sorted(entries_view(self.items@))
        &&& 0 <= self.pos <= self.items@.len()
    }

    /// Whether the cursor stands on a record.
    pub open spec fn spec_valid(self) -> bool {
        self.pos < self.items@.len()
    }

    pub fn is_valid(&self) -> (r: bool)
        ensures
            r == self.spec_valid(),
    {
        self.pos < self.items.len()
    }

    /// The engine reports no iteration error.
    pub fn status(&self) -> (r: Result<(), Error>)
        ensures
            r is Ok,
    {
        Ok(())
    }

    /// Moves to the table's first record.
    pub fn seek_to_first(&mut self)
        requires
            old(self).wf(),
        ensures
            final(self).wf(),
            final(self).items == old(self).items,
            final(self).pos == 0,
    {
        self.pos = 0;
    }

    /// Moves to the table's last record; invalid if the table is empty.
    pub fn seek_to_last(&mut self)
        requires
            old(self).wf(),
        ensures
            final(self).wf(),
            final(self).items == old(self).items,
            old(self).items@.len() == 0 ==> !final(self).spec_valid(),
            old(self).items@.len() > 0 ==> final(self).pos == old(self).items@.len() - 1,
    {
        if self.items.len() == 0 {
            self.pos = self.items.len();
        } else {
            self.pos = self.items.len() - 1;
        }
    }

    /// Moves to the first record whose key is at or after `key`;
    /// invalid if there is none.
    pub fn seek(&mut self, key: &[u8])
        requires
            old(self).wf(),
        ensures
            final(self).wf(),
            final(self).items == old(self).items,
            cursor_at_lower_bound(entries_view(final(self).items@), key@, final(self).pos as int),
    {
        let mut i: usize = 0;
        while i < self.items.len() && lex_cmp(self.items[i].0.as_slice(), key) == KeyOrder::Less
            invariant
                0 <= i <= self.items@.len(),
                forall|j: int| 0 <= j < i ==> lex_less(entries_view(self.items@)[j].0, key@),
            decreases self.items@.len() - i,
        {
            i = i + 1;
        }
        self.pos = i;
    }

    /// Moves to the last record whose key is at or before `key`;
    /// invalid if there is none.
    pub fn seek_for_prev(&mut self, key: &[u8])
        requires
            old(self).wf(),
        ensures
            final(self).wf(),
            final(self).items == old(self).items,
            cursor_at_upper_bound(entries_view(final(self).items@), key@, final(self).pos as int, final(self).items@.len() as int),
    {
        let mut i: usize = 0;
        let mut found: usize = self.items.len();
        while i < self.items.len() && lex_cmp(self.items[i].0.as_slice(), key) != KeyOrder::Greater
            invariant
                0 <= i <= self.items@.len(),
                forall|j: int| 0 <= j < i ==> !lex_less(key@, entries_view(self.items@)[j].0),
                i == 0 ==> found == self.items@.len(),
                i > 0 ==> found == i - 1,
            decreases self.items@.len() - i,
        {
            found = i;
            i = i + 1;
        }
        proof {
            let s = entries_view(self.items@);
            if i < self.items@.len() {
                assert(lex_less(key@, s[i as int].0));
                assert forall|j: int| i < j < s.len() implies lex_less(key@, s[j].0) by {
                    assert(lex_less(s[i as int].0, s[j].0));
                    crate::lex::lemma_lex_trans(key@, s[i as int].0, s[j].0);
                }
            }
            if found == self.items@.len() && s.len() > 0 {
                assert(i == 0);
                assert forall|j: int| 0 <= j < s.len() implies lex_less(key@, s[j].0) by {
                    if j > 0 {
                        assert(lex_less(s[0].0, s[j].0));
                        crate::lex::lemma_lex_trans(key@, s[0].0, s[j].0);
                    }
                }
            }
        }
        self.pos = found;
    }

    /// Steps to the next record; past the last it becomes invalid.
    pub fn next(&mut self)
        requires
            old(self).wf(),
        ensures
            final(self).wf(),
            final(self).items == old(self).items,
            old(self).spec_valid() ==> final(self).pos == old(self).pos + 1,
            !old(self).spec_valid() ==> !final(self).spec_valid(),
    {
        if self.pos < self.items.len() {
            self.pos = self.pos + 1;
        }
    }

    /// Steps to the previous record; before the first it becomes
    /// invalid.
    pub fn prev(&mut self)
        requires
            old(self).wf(),
        ensures
            final(self).wf(),
            final(self).items == old(self).items,
            old(self).spec_valid() && old(self).pos > 0 ==> final(self).pos == old(self).pos - 1,
            (!old(self).spec_valid() || old(self).pos == 0) ==> !final(self).spec_valid(),
    {
        if self.pos < self.items.len() && self.pos > 0 {
            self.pos = self.pos - 1;
        } else {
            self.pos = self.items.len();
        }
    }

    /// The user key of the record the cursor stands on.
    pub fn key(&self) -> (r: Option<Vec<u8>>)
        requires
            self.wf(),
        ensures
            match r {
                Some(k) => self.spec_valid() && k@ == entries_view(self.items@)[
                    self.pos as int
                ].0,
                None => !self.spec_valid(),
            },
    {
        if self.pos < self.items.len() {
            Some(self.items[self.pos].0.clone())
        } else {
            None
        }
    }

    /// The value of the record the cursor stands on.
    pub fn value(&self) -> (r: Option<Vec<u8>>)
        requires
            self.wf(),
        ensures
            match r {
                Some(v) => self.spec_valid() && v@ == entries_view(self.items@)[
                    self.pos as int
                ].1,
                None => !self.spec_valid(),
            },
    {
        if self.pos < self.items.len() {
            Some(self.items[self.pos].1.clone())
        } else {
            None
        }
    }
}

/// `pos` is the first index at or after `key`, or the length if none.
pub open spec fn cursor_at_lower_bound(s: Seq<(Seq<u8>, Seq<u8>)>, key: Seq<u8>, pos: int) -> bool {
    &&& 0 <= pos <= s.len()
    &&& forall|j: int| 0 <= j < pos ==> lex_less(#[trigger] s[j].0, key)
    &&& pos < s.len() ==> !lex_less(s[pos].0, key)
}

/// `pos` is the last index at or before `key`; `pos == len` (invalid)
/// exactly when no key at or before `key` exists.
pub open spec fn cursor_at_upper_bound(
    s: Seq<(Seq<u8>, Seq<u8>)>,
    key: Seq<u8>,
    pos: int,
    len: int,
) -> bool {
    &&& 0 <= pos <= len
    &&& pos < len ==> !lex_less(key, s[pos].0)
    &&& forall|j: int| pos < j < s.len() ==> lex_less(key, #[trigger] s[j].0)
    &&& pos == len ==> forall|j: int| 0 <= j < s.len() ==> lex_less(key, #[trigger] s[j].0)
}

/// A cursor over one table of a TTL store: values read back with their
/// timestamp stripped.
pub struct TtlCursor {
    pub items: Vec<Entry>,
    pub pos: usize,
}

impl TtlCursor {
    pub open spec fn wf(self) -> bool {
        &&& sorted(entries_view(self.items@))
        &&& 0 <= self.pos <= self.items@.len()
    }

    pub open spec fn spec_valid(self) -> bool {
        self.pos < self.items@.len()
    }

    pub fn is_valid(&self) -> (r: bool)
        ensures
            r == self.spec_valid(),
    {
        self.pos < self.items.len()
    }

    pub fn status(&self) -> (r: Result<(), Error>)
        ensures
            r is Ok,
    {
        Ok(())
    }

    pub fn seek_to_first(&mut self)
        requires
            old(self).wf(),
        ensures
            final(self).wf(),
            final(self).items == old(self).items,
            final(self).pos == 0,
    {
        self.pos = 0;
    }

    pub fn seek_to_last(&mut self)
        requires
            old(self).wf(),
        ensures
            final(self).wf(),
            final(self).items == old(self).items,
            old(self).items@.len() == 0 ==> !final(self).spec_valid(),
            old(self).items@.len() > 0 ==> final(self).pos == old(self).items@.len() - 1,
    {
        if self.items.len() == 0 {
            self.pos = self.items.len();
        } else {
            self.pos = self.items.len() - 1;
        }
    }

    pub fn seek(&mut self, key: &[u8])
        requires
            old(self).wf(),
        ensures
            final(self).wf(),
            final(self).items == old(self).items,
            cursor_at_lower_bound(entries_view(final(self).items@), key@, final(self).pos as int),
    {
        let mut i: usize = 0;
        while i < self.items.len() && lex_cmp(self.items[i].0.as_slice(), key) == KeyOrder::Less
            invariant
                0 <= i <= self.items@.len(),
                forall|j: int| 0 <= j < i ==> lex_less(entries_view(self.items@)[j].0, key@),
            decreases self.items@.len() - i,
        {
            i = i + 1;
        }
        self.pos = i;
    }

    pub fn seek_for_prev(&mut self, key: &[u8])
        requires
            old(self).wf(),
        ensures
            final(self).wf(),
            final(self).items == old(self).items,
            cursor_at_upper_bound(entries_view(final(self).items@), key@, final(self).pos as int, final(self).items@.len() as int),
    {
        let mut i: usize = 0;
        let mut found: usize = self.items.len();
        while i < self.items.len() && lex_cmp(self.items[i].0.as_slice(), key) != KeyOrder::Greater
            invariant
                0 <= i <= self.items@.len(),
                forall|j: int| 0 <= j < i ==> !lex_less(key@, entries_view(self.items@)[j].0),
                i == 0 ==> found == self.items@.len(),
                i > 0 ==> found == i - 1,
            decreases self.items@.len() - i,
        {
            found = i;
            i = i + 1;
        }
        proof {
            let s = entries_view(self.items@);
            if i < self.items@.len() {
                assert(lex_less(key@, s[i as int].0));
                assert forall|j: int| i < j < s.len() implies lex_less(key@, s[j].0) by {
                    assert(lex_less(s[i as int].0, s[j].0));
                    crate::lex::lemma_lex_trans(key@, s[i as int].0, s[j].0);
                }
            }
            if found == self.items@.len() && s.len() > 0 {
                assert(i == 0);
                assert forall|j: int| 0 <= j < s.len() implies lex_less(key@, s[j].0) by {
                    if j > 0 {
                        assert(lex_less(s[0].0, s[j].0));
                        crate::lex::lemma_lex_trans(key@, s[0].0, s[j].0);
                    }
                }
            }
        }
        self.pos = found;
    }

    pub fn next(&mut self)
        requires
            old(self).wf(),
        ensures
            final(self).wf(),
            final(self).items == old(self).items,
            old(self).spec_valid() ==> final(self).pos == old(self).pos + 1,
            !old(self).spec_valid() ==> !final(self).spec_valid(),
    {
        if self.pos < self.items.len() {
            self.pos = self.pos + 1;
        }
    }

    pub fn prev(&mut self)
        requires
            old(self).wf(),
        ensures
            final(self).wf(),
            final(self).items == old(self).items,
            old(self).spec_valid() && old(self).pos > 0 ==> final(self).pos == old(self).pos - 1,
            (!old(self).spec_valid() || old(self).pos == 0) ==> !final(self).spec_valid(),
    {
        if self.pos < self.items.len() && self.pos > 0 {
            self.pos = self.pos - 1;
        } else {
            self.pos = self.items.len();
        }
    }

    pub fn key(&self) -> (r: Option<Vec<u8>>)
        requires
            self.wf(),
        ensures
            match r {
                Some(k) => self.spec_valid() && k@ == entries_view(self.items@)[
                    self.pos as int
                ].0,
                None => !self.spec_valid(),
            },
    {
        if self.pos < self.items.len() {
            Some(self.items[self.pos].0.clone())
        } else {
            None
        }
    }

    /// The value the cursor stands on, its timestamp stripped. A stored
    /// value too short to carry a timestamp reads back as absent.
    pub fn value(&self) -> (r: Option<Vec<u8>>)
        requires
            self.wf(),
        ensures
            match r {
                Some(v) => self.spec_valid() && {
                    let stored = entries_view(self.items@)[self.pos as int].1;
                    stored.len() >= 4 && v@ == stored.subrange(4, stored.len() as int)
                },
                None => !self.spec_valid() || entries_view(self.items@)[
                    self.pos as int
                ].1.len() < 4,
            },
    {
        if self.pos < self.items.len() {
            let stored = &self.items[self.pos].1;
            if stored.len() >= 4 {
                Some(crate::codec::extract_value(stored.as_slice()))
            } else {
                None
            }
        } else {
            None
        }
    }
}

impl NormalTable {
    /// A cursor over this table's records, pinned to the store's state
    /// at the time of the call, positioned before everything.
    pub fn new_cursor(&self, store: &Store) -> (r: NormalCursor)
        requires
            store.wf(),
        ensures
            r.wf(),
            section_of(store.contents(), self.id@, entries_view(r.items@)),
            entries_view(r.items@) == spec_section(store.contents(), self.id@),
            !r.spec_valid() || r.pos == 0,
    {
        let items = table_section(store, self.id);
        let pos = items.len();
        NormalCursor { items, pos }
    }
}

impl TtlTable {
    /// A cursor over this table's records, pinned to the store's state
    /// at the time of the call, positioned before everything.
    pub fn new_cursor(&self, store: &Store) -> (r: TtlCursor)
        requires
            store.wf(),
        ensures
            r.wf(),
            section_of(store.contents(), self.id@, entries_view(r.items@)),
            entries_view(r.items@) == spec_section(store.contents(), self.id@),
            !r.spec_valid() || r.pos == 0,
    {
        let items = table_section(store, self.id);
        let pos = items.len();
        TtlCursor { items, pos }
    }
}

} // verus!
