//! Compaction-time expiry for TTL stores. A compaction pass visits
//! every record and decides keep or remove: reserved tables are always
//! kept, young records are kept, and an old record is removed only when
//! it is not its table's latest record — a table's tail record survives
//! every pass, so a quiet table never loses its last value. One filter
//! and one max-key comparator are created per pass, with their own
//! cache, against one point-in-time view of the store.

use vstd::prelude::*;

use crate::codec::{
    extract_key, extract_table_id, lex_less, spec_be_to_u32, spec_inner_key, spec_u32_to_be,
    u8a4_to_u32, u8s_to_u32,
};
use crate::consts::MIN_USERLAND_TABLE_ID;
use crate::cursor::{in_table, section_of, table_section};
use crate::entries::{entries_view, has_key, kget};
use crate::lex::{lemma_lex_irrefl, lemma_lex_total, KeyOrder, lex_cmp};
use crate::store::Store;
use crate::types::{U8a4};

verus! {

/// What a compaction pass does with one record.
#[derive(Clone, Copy, PartialEq, Eq, Structural, Debug)]
pub enum CompactionDecision {
    Keep,
    Remove,
}

/// Whether `k` is the greatest user key table `tid` holds in `m`.
pub open spec fn is_table_max(m: Seq<(Seq<u8>, Seq<u8>)>, tid: Seq<u8>, k: Seq<u8>) -> bool {
    &&& has_key(m, spec_inner_key(tid, k))
    &&& forall|u: Seq<u8>| has_key(m, #[trigger] spec_inner_key(tid, u)) ==> !lex_less(k, u)
}

/// A table has at most one greatest key.
pub proof fn lemma_table_max_unique(m: Seq<(Seq<u8>, Seq<u8>)>, tid: Seq<u8>, a: Seq<u8>, b: Seq<
    u8,
>)
    requires
        is_table_max(m, tid, a),
        is_table_max(m, tid, b),
    ensures
        a == b,
{
    lemma_lex_total(a, b);
}

/// Whether the record `(k, v)` is removed by a compaction pass at time
/// `now` with age threshold `ttl`: it is a userland record, it carries a
/// timestamp older than `ttl`, and it is not its table's latest record.
pub open spec fn spec_expired(
    m: Seq<(Seq<u8>, Seq<u8>)>,
    k: Seq<u8>,
    v: Seq<u8>,
    ttl: u32,
    now: u32,
) -> bool {
    &&& k.len() >= 5
    &&& v.len() >= 4
    &&& spec_be_to_u32(k.subrange(0, 4)) >= MIN_USERLAND_TABLE_ID
    &&& exists|mx: Seq<u8>|
        is_table_max(m, k.subrange(0, 4), mx) && lex_less(k.subrange(5, k.len() as int), mx)
    &&& spec_be_to_u32(v.subrange(0, 4)) + ttl < now
}

/// A table's greatest record is never removed, whatever its age.
pub proof fn lemma_max_key_never_expires(
    m: Seq<(Seq<u8>, Seq<u8>)>,
    k: Seq<u8>,
    v: Seq<u8>,
    ttl: u32,
    now: u32,
)
    requires
        k.len() >= 5,
        is_table_max(m, k.subrange(0, 4), k.subrange(5, k.len() as int)),
    ensures
        !spec_expired(m, k, v, ttl, now),
{
    let tid = k.subrange(0, 4);
    let uk = k.subrange(5, k.len() as int);
    if spec_expired(m, k, v, ttl, now) {
        let mx = choose|mx: Seq<u8>| is_table_max(m, tid, mx) && lex_less(uk, mx);
        lemma_table_max_unique(m, tid, uk, mx);
        lemma_lex_irrefl(uk);
    }
}

/// The per-pass cache of each table's last known greatest key, backed
/// by one point-in-time view of the store.
pub struct MaxKeyComparator {
    pub cache: Vec<(u32, Vec<u8>)>,
    pub snapshot: Ghost<Seq<(Seq<u8>, Seq<u8>)>>,
}

/// How `r` reads against the greatest key of table `tid`: like the
/// greatest key compares to `key`, or `Equal` for a table with no
/// records (the fail-safe reading that keeps the record).
pub open spec fn max_reading(
    m: Seq<(Seq<u8>, Seq<u8>)>,
    tid: Seq<u8>,
    key: Seq<u8>,
    r: KeyOrder,
) -> bool {
    if exists|mx: Seq<u8>| is_table_max(m, tid, mx) {
        forall|mx: Seq<u8>|
            is_table_max(m, tid, mx) ==> ((r == KeyOrder::Greater <==> lex_less(key, mx)) && (r
                == KeyOrder::Less <==> lex_less(mx, key)) && (r == KeyOrder::Equal <==> mx == key))
    } else {
        r == KeyOrder::Equal
    }
}

impl MaxKeyComparator {
    /// Every cached entry is its table's true greatest key in the view.
    pub open spec fn wf(self) -> bool {
        forall|x: int| #![trigger self.cache@[x]]
            0 <= x < self.cache@.len() ==> is_table_max(
                self.snapshot@,
                spec_u32_to_be(self.cache@[x].0),
                self.cache@[x].1@,
            )
    }

    /// A fresh comparator for one pass over the given view.
    pub fn new(store: &Store) -> (r: MaxKeyComparator)
        requires
            store.wf(),
        ensures
            r.wf(),
            r.snapshot@ == store.contents(),
    {
        MaxKeyComparator { cache: Vec::new(), snapshot: Ghost(store.contents()) }
    }

    /// How `key` compares to the current greatest key of its table:
    /// from the cache when the cached key already settles it, else from
    /// the view, refreshing the cache.
    pub fn compare(&mut self, store: &Store, table_id: U8a4, key: &[u8]) -> (r: KeyOrder)
        requires
            old(self).wf(),
            store.wf(),
            old(self).snapshot@ == store.contents(),
        ensures
            final(self).wf(),
            final(self).snapshot@ == old(self).snapshot@,
            max_reading(store.contents(), table_id@, key@, r),
    {
        let ghost m = store.contents();
        let tid = u8a4_to_u32(table_id);
        proof {
            crate::codec::lemma_be_bytes_roundtrip(table_id@);
        }
        let mut x: usize = 0;
        while x < self.cache.len()
            invariant
                0 <= x <= self.cache@.len(),
                self.wf(),
                *self == *old(self),
                store.wf(),
                m == store.contents(),
                self.snapshot@ == m,
                spec_u32_to_be(tid) == table_id@,
            decreases self.cache@.len() - x,
        {
            if self.cache[x].0 == tid {
                let c = lex_cmp(self.cache[x].1.as_slice(), key);
                if c != KeyOrder::Less {
                    proof {
                        let cached = self.cache@[x as int].1@;
                        assert(is_table_max(m, table_id@, cached));
                        assert forall|mx: Seq<u8>| is_table_max(m, table_id@, mx) implies ((c
                            == KeyOrder::Greater <==> lex_less(key@, mx)) && (c == KeyOrder::Less
                            <==> lex_less(mx, key@)) && (c == KeyOrder::Equal <==> mx
                            == key@)) by {
                            lemma_table_max_unique(m, table_id@, cached, mx);
                        }
                    }
                    return c;
                }
                break ;
            }
            x = x + 1;
        }
        let section = table_section(store, table_id);
        let ghost items = entries_view(section@);
        if section.len() == 0 {
            proof {
                if exists|mx: Seq<u8>| is_table_max(m, table_id@, mx) {
                    let mx = choose|mx: Seq<u8>| is_table_max(m, table_id@, mx);
                    assert(has_key(m, spec_inner_key(table_id@, mx)));
                    let j = choose|j: int|
                        0 <= j < m.len() && m[j].0 == spec_inner_key(table_id@, mx);
                    assert(m[j].0.subrange(0, 4) =~= table_id@);
                    assert(in_table(table_id@, m[j].0));
                    assert(false);
                }
            }
            KeyOrder::Equal
        } else {
            let max_key = section[section.len() - 1].0.clone();
            proof {
                lemma_section_last_is_max(m, table_id@, items);
            }
            let r = lex_cmp(max_key.as_slice(), key);
            proof {
                assert(is_table_max(m, table_id@, max_key@));
                assert forall|mx: Seq<u8>| is_table_max(m, table_id@, mx) implies ((r
                    == KeyOrder::Greater <==> lex_less(key@, mx)) && (r == KeyOrder::Less
                    <==> lex_less(mx, key@)) && (r == KeyOrder::Equal <==> mx == key@)) by {
                    lemma_table_max_unique(m, table_id@, max_key@, mx);
                }
            }
            self.cache.push((tid, max_key));
            r
        }
    }
}

/// In a table's section, the last record holds the table's greatest key.
proof fn lemma_section_last_is_max(
    m: Seq<(Seq<u8>, Seq<u8>)>,
    tid: Seq<u8>,
    items: Seq<(Seq<u8>, Seq<u8>)>,
)
    requires
        section_of(m, tid, items),
        tid.len() == 4,
        items.len() > 0,
    ensures
        is_table_max(m, tid, items.last().0),
{
    let k = items.last().0;
    assert(kget(m, spec_inner_key(tid, k)) == Some(items.last().1));
    assert(has_key(m, spec_inner_key(tid, k)));
    assert forall|u: Seq<u8>| has_key(m, #[trigger] spec_inner_key(tid, u)) implies !lex_less(
        k,
        u,
    ) by {
        let j = choose|j: int| 0 <= j < m.len() && m[j].0 == spec_inner_key(tid, u);
        assert(m[j].0.subrange(0, 4) =~= tid);
        assert(in_table(tid, m[j].0));
        let x = choose|x: int|
            0 <= x < items.len() && items[x].0 == m[j].0.subrange(5, m[j].0.len() as int);
        assert(m[j].0.subrange(5, m[j].0.len() as int) =~= u);
        if x < items.len() - 1 {
            assert(lex_less(items[x].0, k));
            crate::lex::lemma_lex_asym(items[x].0, k);
        } else {
            lemma_lex_irrefl(k);
        }
    }
}

/// One compaction pass's filter: the age threshold and the per-pass
/// max-key comparator, or no comparator when the point-in-time view
/// could not be had — then everything is kept, failing safe.
pub struct CompactionFilterImpl {
    pub ttl: u32,
    pub max_key_comparator: Option<MaxKeyComparator>,
}

impl CompactionFilterImpl {
    pub open spec fn wf(self) -> bool {
        self.max_key_comparator matches Some(c) ==> c.wf()
    }

    pub open spec fn snapshot_is(self, m: Seq<(Seq<u8>, Seq<u8>)>) -> bool {
        self.max_key_comparator matches Some(c) ==> c.snapshot@ == m
    }

    /// A filter for one pass.
    pub fn new(ttl: u32, max_key_comparator: Option<MaxKeyComparator>) -> (r: CompactionFilterImpl)
        requires
            max_key_comparator matches Some(c) ==> c.wf(),
        ensures
            r.wf(),
            r.ttl == ttl,
            r.max_key_comparator == max_key_comparator,
    {
        CompactionFilterImpl { ttl, max_key_comparator }
    }

    /// Decides one record at time `now`: remove exactly the expired,
    /// non-latest userland records; keep everything else. Without a
    /// comparator everything is kept.
    pub fn filter_at(&mut self, store: &Store, level: u32, inner_key: &[u8], inner_value: &[u8],
        now: u32) -> (r: CompactionDecision)
        requires
            old(self).wf(),
            store.wf(),
            old(self).snapshot_is(store.contents()),
        ensures
            final(self).wf(),
            final(self).snapshot_is(store.contents()),
            final(self).ttl == old(self).ttl,
            final(self).max_key_comparator is Some <==> old(self).max_key_comparator is Some,
            old(self).max_key_comparator is Some ==> (r == CompactionDecision::Remove <==> spec_expired(
                store.contents(),
                inner_key@,
                inner_value@,
                old(self).ttl,
                now,
            )),
            old(self).max_key_comparator is None ==> r == CompactionDecision::Keep,
    {
        let _ = level;
        let ghost m = store.contents();
        match &mut self.max_key_comparator {
            Some(comparator) => {
                if inner_key.len() < 5 || inner_value.len() < 4 {
                    return CompactionDecision::Keep;
                }
                let table_id = extract_table_id(inner_key);
                if u8a4_to_u32(table_id) < MIN_USERLAND_TABLE_ID {
                    proof {
                        crate::codec::lemma_be_bytes_roundtrip(inner_key@.subrange(0, 4));
                    }
                    return CompactionDecision::Keep;
                }
                let user_key = extract_key(inner_key);
                let ordering = comparator.compare(store, table_id, user_key.as_slice());
                proof {
                    crate::codec::lemma_be_bytes_roundtrip(inner_key@.subrange(0, 4));
                }
                if ordering == KeyOrder::Greater {
                    let timestamp = u8s_to_u32(inner_value);
                    if (timestamp as u64) + (self.ttl as u64) < (now as u64) {
                        proof {
                            let mx = choose|mx: Seq<u8>| is_table_max(m, inner_key@.subrange(0, 4), mx);
                            assert(lex_less(inner_key@.subrange(5, inner_key@.len() as int), mx));
                        }
                        return CompactionDecision::Remove;
                    }
                }
                proof {
                    if spec_expired(m, inner_key@, inner_value@, self.ttl, now) {
                        let mx = choose|mx: Seq<u8>|
                            is_table_max(m, inner_key@.subrange(0, 4), mx) && lex_less(
                                inner_key@.subrange(5, inner_key@.len() as int),
                                mx,
                            );
                        assert(ordering == KeyOrder::Greater);
                    }
                }
                CompactionDecision::Keep
            },
            None => CompactionDecision::Keep,
        }
    }

    /// Decides one record at the present moment.
    pub fn filter(&mut self, store: &Store, level: u32, inner_key: &[u8], inner_value: &[u8]) -> (r:
        CompactionDecision)
        requires
            old(self).wf(),
            store.wf(),
            old(self).snapshot_is(store.contents()),
        ensures
            final(self).wf(),
            final(self).snapshot_is(store.contents()),
            final(self).ttl == old(self).ttl,
            r == CompactionDecision::Remove ==> old(self).max_key_comparator is Some
                && inner_key@.len() >= 5 && !is_table_max(
                store.contents(),
                inner_key@.subrange(0, 4),
                inner_key@.subrange(5, inner_key@.len() as int),
            ),
    {
        let now = crate::clock::now();
        let r = self.filter_at(store, level, inner_key, inner_value, now);
        proof {
            if r == CompactionDecision::Remove {
                let m = store.contents();
                if is_table_max(
                    m,
                    inner_key@.subrange(0, 4),
                    inner_key@.subrange(5, inner_key@.len() as int),
                ) {
                    lemma_max_key_never_expires(m, inner_key@, inner_value@, old(self).ttl, now);
                }
            }
        }
        r
    }
}

/// Makes one fresh filter per compaction pass, each with its own
/// comparator and cache over its own point-in-time view.
pub struct CompactionFilterFactoryImpl {
    pub ttl: u32,
}

impl CompactionFilterFactoryImpl {
    pub fn new(ttl: u32) -> (r: CompactionFilterFactoryImpl)
        ensures
            r.ttl == ttl,
    {
        CompactionFilterFactoryImpl { ttl }
    }

    /// A fresh filter over the given view.
    pub fn create(&self, store: &Store) -> (r: CompactionFilterImpl)
        requires
            store.wf(),
        ensures
            r.wf(),
            r.ttl == self.ttl,
            r.max_key_comparator is Some,
            r.snapshot_is(store.contents()),
    {
        CompactionFilterImpl {
            ttl: self.ttl,
            max_key_comparator: Some(MaxKeyComparator::new(store)),
        }
    }
}


/// Whether the record under `q` in `m` is removed by a pass at `now`.
pub open spec fn expired_at(m: Seq<(Seq<u8>, Seq<u8>)>, q: Seq<u8>, ttl: u32, now: u32) -> bool {
    kget(m, q) matches Some(v) && spec_expired(m, q, v, ttl, now)
}

impl crate::db::TtlDb {
    /// One compaction pass at time `now`: every expired, non-latest
    /// userland record goes; everything else, the log and the sequence
    /// counter stay. One fresh filter with one fresh comparator runs the
    /// whole pass over one point-in-time view.
    pub fn compact_at(&mut self, now: u32)
        requires
            old(self).wf(),
        ensures
            final(self).wf(),
            final(self).ttl == old(self).ttl,
            final(self).last_table_id == old(self).last_table_id,
            final(self).store.log() == old(self).store.log(),
            final(self).store.next_sn == old(self).store.next_sn,
            forall|q: Seq<u8>| kget(final(self).store.contents(), q) == (if expired_at(
                old(self).store.contents(),
                q,
                old(self).ttl,
                now,
            ) {
                None::<Seq<u8>>
            } else {
                kget(old(self).store.contents(), q)
            }),
    {
        let ghost m = self.store.contents();
        let ghost ttl = self.ttl;
        let factory = CompactionFilterFactoryImpl::new(self.ttl);
        let mut filter = factory.create(&self.store);
        let mut removals: Vec<Vec<u8>> = Vec::new();
        let mut i: usize = 0;
        while i < self.store.entries.len()
            invariant
                0 <= i <= self.store.entries@.len(),
                self.store.wf(),
                m == self.store.contents(),
                ttl == self.ttl,
                filter.wf(),
                filter.snapshot_is(m),
                filter.ttl == ttl,
                filter.max_key_comparator is Some,
                forall|x: int| #![trigger removals@[x]]
                    0 <= x < removals@.len() ==> expired_at(m, removals@[x]@, ttl, now),
                forall|j: int| #![trigger m[j]]
                    0 <= j < i && expired_at(m, m[j].0, ttl, now) ==> exists|x: int|
                        #![trigger removals@[x]]
                        0 <= x < removals@.len() && removals@[x]@ == m[j].0,
            decreases self.store.entries@.len() - i,
        {
            let key = self.store.entries[i].0.clone();
            let decision = filter.filter_at(
                &self.store,
                0,
                self.store.entries[i].0.as_slice(),
                self.store.entries[i].1.as_slice(),
                now,
            );
            proof {
                crate::entries::lemma_kget_present(m, i as int);
            }
            let ghost r0 = removals@;
            if decision == CompactionDecision::Remove {
                removals.push(key);
            }
            proof {
                assert(m[i as int].0 == self.store.entries@[i as int].0@);
                assert(m[i as int].1 == self.store.entries@[i as int].1@);
                assert(key@ == m[i as int].0);
                if decision == CompactionDecision::Remove {
                    assert(kget(m, m[i as int].0) == Some(m[i as int].1));
                    assert(expired_at(m, m[i as int].0, ttl, now));
                    assert(removals@[removals@.len() - 1] == key);
                    assert forall|x: int| #![trigger removals@[x]]
                        0 <= x < removals@.len() implies expired_at(m, removals@[x]@, ttl, now) by {
                        if x < r0.len() {
                            assert(removals@[x] == r0[x]);
                        } else {
                            assert(removals@[x] == key);
                        }
                    }
                }
                assert forall|j: int| #![trigger m[j]]
                    0 <= j < i + 1 && expired_at(m, m[j].0, ttl, now) implies exists|x: int|
                    #![trigger removals@[x]]
                    0 <= x < removals@.len() && removals@[x]@ == m[j].0 by {
                    if j < i {
                        let x = choose|x: int| #![trigger r0[x]]
                            0 <= x < r0.len() && r0[x]@ == m[j].0;
                        assert(removals@[x]@ == m[j].0);
                    } else {
                        assert(kget(m, m[j].0) == Some(m[j].1));
                        assert(spec_expired(m, m[j].0, m[j].1, ttl, now));
                        assert(decision == CompactionDecision::Remove);
                        assert(removals@[removals@.len() - 1]@ == m[j].0);
                    }
                }
            }
            i = i + 1;
        }
        let ghost removals_v = removals@;
        let mut k: usize = 0;
        while k < removals.len()
            invariant
                0 <= k <= removals@.len(),
                removals@ == removals_v,
                self.store.wf(),
                self.store.wal == old(self).store.wal,
                self.store.next_sn == old(self).store.next_sn,
                self.ttl == old(self).ttl,
                self.last_table_id == old(self).last_table_id,
                forall|x: int| #![trigger removals@[x]]
                    0 <= x < removals@.len() ==> expired_at(m, removals@[x]@, ttl, now),
                forall|j: int| #![trigger m[j]]
                    0 <= j < m.len() && expired_at(m, m[j].0, ttl, now) ==> exists|x: int|
                        #![trigger removals@[x]]
                        0 <= x < removals@.len() && removals@[x]@ == m[j].0,
                forall|q: Seq<u8>| kget(self.store.contents(), q) == (if exists|x: int|
                    #![trigger removals@[x]]
                    0 <= x < k && removals@[x]@ == q {
                    None::<Seq<u8>>
                } else {
                    kget(m, q)
                }),
            decreases removals@.len() - k,
        {
            let ghost cur = self.store.contents();
            crate::entries::entries_delete(&mut self.store.entries, removals[k].as_slice());
            proof {
                let q0 = removals@[k as int]@;
                assert forall|q: Seq<u8>| kget(self.store.contents(), q) == (if exists|x: int|
                    #![trigger removals@[x]]
                    0 <= x < k + 1 && removals@[x]@ == q {
                    None::<Seq<u8>>
                } else {
                    kget(m, q)
                }) by {
                    if q == q0 {
                        assert(0 <= k < k + 1 && removals@[k as int]@ == q);
                    } else {
                        if exists|x: int| #![trigger removals@[x]] 0 <= x < k && removals@[x]@
                            == q {
                            let x = choose|x: int|
                                #![trigger removals@[x]]
                                0 <= x < k && removals@[x]@ == q;
                            assert(0 <= x < k + 1 && removals@[x]@ == q);
                        } else {
                            if exists|x: int| #![trigger removals@[x]] 0 <= x < k + 1
                                && removals@[x]@ == q {
                                let x = choose|x: int|
                                    #![trigger removals@[x]]
                                    0 <= x < k + 1 && removals@[x]@ == q;
                                assert(x == k);
                                assert(false);
                            }
                        }
                    }
                }
            }
            k = k + 1;
        }
        proof {
            assert forall|q: Seq<u8>| kget(self.store.contents(), q) == (if expired_at(
                m,
                q,
                ttl,
                now,
            ) {
                None::<Seq<u8>>
            } else {
                kget(m, q)
            }) by {
                if expired_at(m, q, ttl, now) {
                    assert(crate::entries::has_key(m, q));
                    let j = choose|j: int| 0 <= j < m.len() && m[j].0 == q;
                    crate::entries::lemma_kget_present(m, j);
                    let x = choose|x: int|
                        #![trigger removals@[x]]
                        0 <= x < removals@.len() && removals@[x]@ == m[j].0;
                    assert(0 <= x < removals@.len() && removals@[x]@ == q);
                } else {
                    if exists|x: int| #![trigger removals@[x]]
                        0 <= x < removals@.len() && removals@[x]@ == q {
                        let x = choose|x: int|
                            #![trigger removals@[x]]
                            0 <= x < removals@.len() && removals@[x]@ == q;
                        assert(expired_at(m, q, ttl, now));
                        assert(false);
                    }
                }
            }
        }
    }

    /// One compaction pass at the present moment: records can only go,
    /// never change or appear, and a table's greatest record always
    /// survives, whatever its age.
    pub fn compact(&mut self)
        requires
            old(self).wf(),
        ensures
            final(self).wf(),
            final(self).ttl == old(self).ttl,
            final(self).last_table_id == old(self).last_table_id,
            final(self).store.log() == old(self).store.log(),
            forall|q: Seq<u8>| kget(final(self).store.contents(), q) == kget(
                old(self).store.contents(),
                q,
            ) || kget(final(self).store.contents(), q) == None::<Seq<u8>>,
            forall|q: Seq<u8>|
                q.len() >= 5 && is_table_max(
                    old(self).store.contents(),
                    q.subrange(0, 4),
                    q.subrange(5, q.len() as int),
                ) ==> kget(final(self).store.contents(), q) == kget(old(self).store.contents(), q),
    {
        let now = crate::clock::now();
        let ghost m = self.store.contents();
        let ghost ttl = self.ttl;
        self.compact_at(now);
        proof {
            assert forall|q: Seq<u8>|
                q.len() >= 5 && is_table_max(m, q.subrange(0, 4), q.subrange(5, q.len() as int))
                implies kget(self.store.contents(), q) == kget(m, q) by {
                match kget(m, q) {
                    Some(v) => {
                        lemma_max_key_never_expires(m, q, v, ttl, now);
                    },
                    None => {},
                }
            }
        }
    }
}

} // verus!
