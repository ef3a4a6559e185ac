//! The record list at the heart of the store: key/value pairs held in
//! strictly ascending byte-lexicographic key order, with point reads,
//! point writes, point deletes and range deletes, each proved against
//! the map the list represents.

use vstd::prelude::*;

use crate::codec::lex_less;
use crate::lex::{lemma_lex_irrefl, lemma_lex_trans, KeyOrder, lex_cmp};

verus! {

/// One stored record: an inner key and its value.
pub type Entry = (Vec<u8>, Vec<u8>);

/// The ghost contents of a record list.
pub open spec fn entries_view(v: Seq<Entry>) -> Seq<(Seq<u8>, Seq<u8>)> {
    Seq::new(v.len(), |i: int| (v[i].0@, v[i].1@))
}

/// Keys strictly ascend, so each key occurs at most once.
pub open spec fn sorted(s: Seq<(Seq<u8>, Seq<u8>)>) -> bool {
    forall|i: int, j: int| 0 <= i < j < s.len() ==> lex_less(s[i].0, s[j].0)
}

/// Whether some record holds key `k`.
pub open spec fn has_key(s: Seq<(Seq<u8>, Seq<u8>)>, k: Seq<u8>) -> bool {
    exists|i: int| 0 <= i < s.len() && s[i].0 == k
}

/// The value stored under `k`, if any.
pub open spec fn kget(s: Seq<(Seq<u8>, Seq<u8>)>, k: Seq<u8>) -> Option<Seq<u8>> {
    if has_key(s, k) {
        let i = choose|i: int| 0 <= i < s.len() && s[i].0 == k;
        Some(s[i].1)
    } else {
        None
    }
}

/// Whether `k` lies in the half-open key range `[begin, end)`.
pub open spec fn in_range(k: Seq<u8>, begin: Seq<u8>, end: Seq<u8>) -> bool {
    !lex_less(k, begin) && lex_less(k, end)
}

/// In a sorted list the record at index `i` is what `kget` finds.
pub proof fn lemma_kget_present(s: Seq<(Seq<u8>, Seq<u8>)>, i: int)
    requires
        sorted(s),
        0 <= i < s.len(),
    ensures
        kget(s, s[i].0) == Some(s[i].1),
{
    assert(has_key(s, s[i].0));
    let j = choose|j: int| 0 <= j < s.len() && s[j].0 == s[i].0;
    if j != i {
        if i < j {
            assert(lex_less(s[i].0, s[j].0));
        } else {
            assert(lex_less(s[j].0, s[i].0));
        }
        lemma_lex_irrefl(s[i].0);
    }
}

/// A key held by no record reads back as absent.
pub proof fn lemma_kget_absent(s: Seq<(Seq<u8>, Seq<u8>)>, k: Seq<u8>)
    requires
        forall|i: int| 0 <= i < s.len() ==> s[i].0 != k,
    ensures
        kget(s, k) == None::<Seq<u8>>,
{
}

/// Reads the value stored under `key`, if any.
pub fn entries_get(v: &Vec<Entry>, key: &[u8]) -> (r: Option<Vec<u8>>)
    requires
        sorted(entries_view(v@)),
    ensures
        match r {
            Some(val) => kget(entries_view(v@), key@) == Some(val@),
            None => kget(entries_view(v@), key@) == None::<Seq<u8>>,
        },
{
    let s = Ghost(entries_view(v@));
    let mut i: usize = 0;
    while i < v.len()
        invariant
            0 <= i <= v.len(),
            s@ == entries_view(v@),
            sorted(s@),
            forall|j: int| 0 <= j < i ==> s@[j].0 != key@,
        decreases v.len() - i,
    {
        if lex_cmp(v[i].0.as_slice(), key) == KeyOrder::Equal {
            let val = v[i].1.clone();
            proof {
                lemma_kget_present(s@, i as int);
            }
            return Some(val);
        }
        i = i + 1;
    }
    proof {
        lemma_kget_absent(s@, key@);
    }
    None
}

/// Writes `value` under `key`, replacing any record the key already has
/// and keeping the list sorted.
pub fn entries_put(v: &mut Vec<Entry>, key: Vec<u8>, value: Vec<u8>)
    requires
        sorted(entries_view(old(v)@)),
    ensures
        sorted(entries_view(final(v)@)),
        kget(entries_view(final(v)@), key@) == Some(value@),
        forall|q: Seq<u8>| q != key@ ==> kget(entries_view(final(v)@), q) == kget(
            entries_view(old(v)@),
            q,
        ),
{
    let ghost s = entries_view(v@);
    let mut i: usize = 0;
    while i < v.len() && lex_cmp(v[i].0.as_slice(), key.as_slice()) == KeyOrder::Less
        invariant
            0 <= i <= v.len(),
            s == entries_view(v@),
            sorted(s),
            forall|j: int| 0 <= j < i ==> lex_less(s[j].0, key@),
        decreases v.len() - i,
    {
        i = i + 1;
    }
    if i < v.len() && lex_cmp(v[i].0.as_slice(), key.as_slice()) == KeyOrder::Equal {
        v[i] = (key, value);
        let ghost t = entries_view(v@);
        proof {
            assert(t.len() == s.len());
            assert(forall|j: int| 0 <= j < t.len() && j != i ==> t[j] == s[j]);
            assert(t[i as int].0 == s[i as int].0);
            assert(forall|p: int, q: int| 0 <= p < q < t.len() ==> t[p].0 == s[p].0 && t[q].0
                == s[q].0);
            assert(sorted(t));
            lemma_kget_present(t, i as int);
            assert forall|q: Seq<u8>| q != key@ implies kget(t, q) == kget(s, q) by {
                lemma_kget_update(s, t, i as int, q);
            }
        }
    } else {
        proof {
            if i < v@.len() {
                assert(!lex_less(s[i as int].0, key@) && s[i as int].0 != key@);
            }
        }
        v.insert(i, (key, value));
        let ghost t = entries_view(v@);
        proof {
            assert(t.len() == s.len() + 1);
            assert(forall|j: int| 0 <= j < i ==> t[j] == s[j]);
            assert(t[i as int].0 == key@ && t[i as int].1 == value@);
            assert(forall|j: int| i < j < t.len() ==> t[j] == s[j - 1]);
            assert forall|p: int, q: int| 0 <= p < q < t.len() implies lex_less(t[p].0, t[q].0) by {
                lemma_put_insert_sorted(s, t, key@, i as int, p, q);
            }
            lemma_kget_present(t, i as int);
            assert forall|q: Seq<u8>| q != key@ implies kget(t, q) == kget(s, q) by {
                lemma_kget_insert(s, t, i as int, q);
            }
        }
    }
}

/// Deletes the record holding `key`, if any, keeping the list sorted.
pub fn entries_delete(v: &mut Vec<Entry>, key: &[u8])
    requires
        sorted(entries_view(old(v)@)),
    ensures
        sorted(entries_view(final(v)@)),
        kget(entries_view(final(v)@), key@) == None::<Seq<u8>>,
        forall|q: Seq<u8>| q != key@ ==> kget(entries_view(final(v)@), q) == kget(
            entries_view(old(v)@),
            q,
        ),
{
    let ghost s = entries_view(v@);
    let mut i: usize = 0;
    while i < v.len()
        invariant
            0 <= i <= v.len(),
            s == entries_view(v@),
            s == entries_view(old(v)@),
            sorted(s),
            forall|j: int| 0 <= j < i ==> s[j].0 != key@,
        decreases v.len() - i,
    {
        if lex_cmp(v[i].0.as_slice(), key) == KeyOrder::Equal {
            v.remove(i);
            let ghost t = entries_view(v@);
            proof {
                assert(t.len() == s.len() - 1);
                assert(forall|j: int| 0 <= j < i ==> t[j] == s[j]);
                assert(forall|j: int| i <= j < t.len() ==> t[j] == s[j + 1]);
                assert forall|p: int, q: int| 0 <= p < q < t.len() implies lex_less(
                    t[p].0,
                    t[q].0,
                ) by {
                    let p1: int = if p < i { p } else { p + 1 };
                    let q1: int = if q < i { q } else { q + 1 };
                    assert(t[p] == s[p1] && t[q] == s[q1] && p1 < q1);
                }
                assert forall|j: int| 0 <= j < t.len() implies t[j].0 != key@ by {
                    if j >= i {
                        assert(lex_less(s[i as int].0, s[j + 1].0));
                        lemma_lex_irrefl(key@);
                    }
                }
                lemma_kget_absent(t, key@);
                assert forall|q: Seq<u8>| q != key@ implies kget(t, q) == kget(s, q) by {
                    lemma_kget_remove(s, t, i as int, q);
                }
            }
            return ;
        }
        i = i + 1;
    }
    proof {
        lemma_kget_absent(s, key@);
    }
}

/// Deletes every record whose key lies in `[begin, end)`, keeping the
/// list sorted and every key outside the range untouched.
pub fn entries_delete_range(v: &mut Vec<Entry>, begin: &[u8], end: &[u8])
    requires
        sorted(entries_view(old(v)@)),
    ensures
        sorted(entries_view(final(v)@)),
        forall|q: Seq<u8>| in_range(q, begin@, end@) ==> kget(entries_view(final(v)@), q)
            == None::<Seq<u8>>,
        forall|q: Seq<u8>| !in_range(q, begin@, end@) ==> kget(entries_view(final(v)@), q) == kget(
            entries_view(old(v)@),
            q,
        ),
{
    let ghost s = entries_view(v@);
    let mut acc: Vec<Entry> = Vec::new();
    let ghost mut idx: Seq<int> = Seq::empty();
    let mut i: usize = 0;
    while i < v.len()
        invariant
            0 <= i <= v.len(),
            s == entries_view(v@),
            sorted(s),
            idx.len() == acc@.len(),
            forall|x: int| #![trigger idx[x]]
                0 <= x < idx.len() ==> 0 <= idx[x] < i && acc@[x].0@ == s[idx[x]].0 && acc@[x].1@
                    == s[idx[x]].1 && !in_range(s[idx[x]].0, begin@, end@),
            forall|x: int, y: int| 0 <= x < y < idx.len() ==> idx[x] < idx[y],
            forall|j: int| #![trigger s[j]]
                0 <= j < i && !in_range(s[j].0, begin@, end@) ==> exists|x: int|
                    #![trigger idx[x]]
                    0 <= x < idx.len() && idx[x] == j,
        decreases v.len() - i,
    {
        let keep = lex_cmp(v[i].0.as_slice(), begin) == KeyOrder::Less || lex_cmp(
            v[i].0.as_slice(),
            end,
        ) != KeyOrder::Less;
        if keep {
            acc.push((v[i].0.clone(), v[i].1.clone()));
            proof {
                assert(!in_range(s[i as int].0, begin@, end@));
                let idx0 = idx;
                idx = idx.push(i as int);
                assert(forall|x: int| 0 <= x < idx0.len() ==> idx[x] == idx0[x]);
                assert forall|j: int| #![trigger s[j]]
                    0 <= j < i + 1 && !in_range(s[j].0, begin@, end@) implies exists|x: int|
                    #![trigger idx[x]]
                    0 <= x < idx.len() && idx[x] == j by {
                    if j < i {
                        let x = choose|x: int| #![trigger idx0[x]]
                            0 <= x < idx0.len() && idx0[x] == j;
                        assert(0 <= x < idx.len() && idx[x] == j);
                    } else {
                        assert(idx[idx.len() - 1] == j);
                    }
                }
            }
        } else {
            proof {
                assert(in_range(s[i as int].0, begin@, end@));
            }
        }
        i = i + 1;
    }
    let ghost a = entries_view(acc@);
    proof {
        assert(i == s.len());
        assert(a.len() == idx.len());
        assert(forall|x: int| #![trigger a[x]]
            0 <= x < a.len() ==> a[x] == (acc@[x].0@, acc@[x].1@));
        assert forall|x: int, y: int| 0 <= x < y < a.len() implies lex_less(a[x].0, a[y].0) by {
            assert(idx[x] < idx[y]);
            assert(lex_less(s[idx[x]].0, s[idx[y]].0));
        }
        assert forall|q: Seq<u8>| in_range(q, begin@, end@) implies kget(a, q)
            == None::<Seq<u8>> by {
            assert forall|x: int| 0 <= x < a.len() implies a[x].0 != q by {
                assert(a[x].0 == s[idx[x]].0);
                assert(!in_range(s[idx[x]].0, begin@, end@));
            }
            lemma_kget_absent(a, q);
        }
        assert forall|q: Seq<u8>| !in_range(q, begin@, end@) implies kget(a, q) == kget(s, q) by {
            if has_key(s, q) {
                let j = choose|j: int| 0 <= j < s.len() && s[j].0 == q;
                lemma_kget_present(s, j);
                assert(!in_range(s[j].0, begin@, end@));
                let x = choose|x: int| #![trigger idx[x]] 0 <= x < idx.len() && idx[x] == j;
                assert(a[x] == (s[j].0, s[j].1));
                lemma_kget_present(a, x);
            } else {
                if has_key(a, q) {
                    let x = choose|x: int| 0 <= x < a.len() && a[x].0 == q;
                    assert(s[idx[x]].0 == q);
                    assert(false);
                }
            }
        }
    }
    *v = acc;
}

/// Removing one record leaves every other key reading back as before.
proof fn lemma_kget_remove(s: Seq<(Seq<u8>, Seq<u8>)>, t: Seq<(Seq<u8>, Seq<u8>)>, i: int, q: Seq<
    u8,
>)
    requires
        sorted(s),
        sorted(t),
        t.len() == s.len() - 1,
        0 <= i < s.len(),
        forall|j: int| 0 <= j < i ==> t[j] == s[j],
        forall|j: int| i <= j < t.len() ==> t[j] == s[j + 1],
        q != s[i].0,
    ensures
        kget(t, q) == kget(s, q),
{
    if has_key(s, q) {
        let j = choose|j: int| 0 <= j < s.len() && s[j].0 == q;
        assert(j != i);
        lemma_kget_present(s, j);
        if j < i {
            lemma_kget_present(t, j);
        } else {
            assert(t[j - 1] == s[j]);
            lemma_kget_present(t, j - 1);
        }
    } else if has_key(t, q) {
        let j = choose|j: int| 0 <= j < t.len() && t[j].0 == q;
        if j < i {
            assert(s[j].0 == q);
        } else {
            assert(s[j + 1].0 == q);
        }
        assert(false);
    }
}

/// Replacing the value at one position leaves every other key reading
/// back as before.
proof fn lemma_kget_update(s: Seq<(Seq<u8>, Seq<u8>)>, t: Seq<(Seq<u8>, Seq<u8>)>, i: int, q: Seq<
    u8,
>)
    requires
        sorted(s),
        sorted(t),
        t.len() == s.len(),
        0 <= i < s.len(),
        forall|j: int| 0 <= j < s.len() && j != i ==> t[j] == s[j],
        t[i].0 == s[i].0,
        q != s[i].0,
    ensures
        kget(t, q) == kget(s, q),
{
    if has_key(s, q) {
        let j = choose|j: int| 0 <= j < s.len() && s[j].0 == q;
        assert(j != i);
        lemma_kget_present(s, j);
        lemma_kget_present(t, j);
    } else if has_key(t, q) {
        let j = choose|j: int| 0 <= j < t.len() && t[j].0 == q;
        assert(j != i);
        assert(s[j].0 == q);
        assert(false);
    }
}

/// Inserting a record for a fresh key leaves every other key reading
/// back as before.
proof fn lemma_kget_insert(s: Seq<(Seq<u8>, Seq<u8>)>, t: Seq<(Seq<u8>, Seq<u8>)>, i: int, q: Seq<
    u8,
>)
    requires
        sorted(s),
        sorted(t),
        t.len() == s.len() + 1,
        0 <= i <= s.len(),
        forall|j: int| 0 <= j < i ==> t[j] == s[j],
        forall|j: int| i < j < t.len() ==> t[j] == s[j - 1],
        q != t[i].0,
    ensures
        kget(t, q) == kget(s, q),
{
    if has_key(s, q) {
        let j = choose|j: int| 0 <= j < s.len() && s[j].0 == q;
        lemma_kget_present(s, j);
        if j < i {
            lemma_kget_present(t, j);
        } else {
            assert(t[j + 1] == s[j]);
            lemma_kget_present(t, j + 1);
        }
    } else if has_key(t, q) {
        let j = choose|j: int| 0 <= j < t.len() && t[j].0 == q;
        assert(j != i);
        if j < i {
            assert(s[j].0 == q);
        } else {
            assert(s[j - 1].0 == q);
        }
        assert(false);
    }
}

/// Inserting a fresh key at its sorted position keeps the order strict.
proof fn lemma_put_insert_sorted(
    s: Seq<(Seq<u8>, Seq<u8>)>,
    t: Seq<(Seq<u8>, Seq<u8>)>,
    k: Seq<u8>,
    i: int,
    p: int,
    q: int,
)
    requires
        sorted(s),
        0 <= i <= s.len(),
        t.len() == s.len() + 1,
        forall|j: int| 0 <= j < i ==> t[j] == s[j],
        t[i].0 == k,
        forall|j: int| i < j < t.len() ==> t[j] == s[j - 1],
        forall|j: int| 0 <= j < i ==> lex_less(s[j].0, k),
        i < s.len() ==> !lex_less(s[i].0, k) && s[i].0 != k,
        0 <= p < q < t.len(),
    ensures
        lex_less(t[p].0, t[q].0),
{
    if i < s.len() {
        crate::lex::lemma_lex_total(s[i].0, k);
    }
    if p < i && q > i {
        if q - 1 > i {
            assert(lex_less(k, s[i].0));
            lemma_lex_trans(k, s[i].0, s[q - 1].0);
            lemma_lex_trans(t[p].0, k, t[q].0);
        } else {
            assert(q - 1 == i);
            assert(lex_less(k, s[i].0));
            lemma_lex_trans(t[p].0, k, t[q].0);
        }
    } else if p == i {
        assert(lex_less(k, s[i].0));
        if q - 1 > i {
            lemma_lex_trans(k, s[i].0, t[q].0);
        }
    } else if q == i {
    }
}

} // verus!
