//! Identifier lists: small executable helpers on `Vec<String>` together with
//! the lemmas that relate them to their sequence and set abstractions.

use vstd::prelude::*;
use crate::view::IdSeq;

verus! {

/// The identifiers held by a vector of strings, in order.
pub open spec fn str_seq(s: Seq<String>) -> Seq<IdSeq> {
    s.map_values(|x: String| x@)
}

/// The identifiers held by a vector of strings, as a set.
pub open spec fn id_set(s: Seq<String>) -> Set<IdSeq> {
    str_seq(s).to_set()
}

/// Appending an identifier unless it is already present.
pub open spec fn add_unique(s: Seq<IdSeq>, k: IdSeq) -> Seq<IdSeq> {
    if s.contains(k) {
        s
    } else {
        s.push(k)
    }
}

/// Keeping the first occurrence of each identifier, in order.
pub open spec fn dedup(s: Seq<IdSeq>) -> Seq<IdSeq>
    decreases s.len(),
{
    if s.len() == 0 {
        Seq::empty()
    } else {
        add_unique(dedup(s.drop_last()), s.last())
    }
}

pub proof fn lemma_push_to_set(s: Seq<IdSeq>, k: IdSeq)
    ensures
        s.push(k).to_set() == s.to_set().insert(k),
{
    let t = s.push(k);
    assert(t.contains(k)) by {
        assert(t[s.len() as int] == k);
    }
    assert forall|x: IdSeq| s.contains(x) implies #[trigger] t.contains(x) by {
        let i = choose|i: int| 0 <= i < s.len() && s[i] == x;
        assert(t[i] == x);
    }
    assert forall|x: IdSeq| t.contains(x) implies s.contains(x) || x == k by {
        let i = choose|i: int| 0 <= i < t.len() && t[i] == x;
        if i < s.len() {
            assert(s[i] == x);
        }
    }
    assert(t.to_set() =~= s.to_set().insert(k));
}

pub proof fn lemma_dedup_props(s: Seq<IdSeq>)
    ensures
        dedup(s).no_duplicates(),
        dedup(s).to_set() == s.to_set(),
    decreases s.len(),
{
    if s.len() == 0 {
        assert(dedup(s).to_set() =~= s.to_set());
    } else {
        let rest = s.drop_last();
        lemma_dedup_props(rest);
        lemma_add_unique_props(dedup(rest), s.last());
        lemma_push_to_set(rest, s.last());
        assert(s =~= rest.push(s.last()));
        assert(dedup(s).to_set() =~= s.to_set());
    }
}

pub proof fn lemma_add_unique_props(s: Seq<IdSeq>, k: IdSeq)
    ensures
        add_unique(s, k).to_set() == s.to_set().insert(k),
        s.no_duplicates() ==> add_unique(s, k).no_duplicates(),
        forall|x: IdSeq| add_unique(s, k).contains(x) <==> s.contains(x) || x == k,
{
    if s.contains(k) {
        assert(add_unique(s, k).to_set() =~= s.to_set().insert(k));
    } else {
        let t = s.push(k);
        assert(forall|x: IdSeq| s.contains(x) ==> #[trigger] t.contains(x)) by {
            assert forall|x: IdSeq| s.contains(x) implies #[trigger] t.contains(x) by {
                let i = choose|i: int| 0 <= i < s.len() && s[i] == x;
                assert(t[i] == x);
            }
        }
        assert(t.contains(k)) by {
            assert(t[s.len() as int] == k);
        }
        assert forall|x: IdSeq| t.contains(x) implies s.contains(x) || x == k by {
            let i = choose|i: int| 0 <= i < t.len() && t[i] == x;
            if i < s.len() {
                assert(s[i] == x);
            }
        }
        assert(add_unique(s, k).to_set() =~= s.to_set().insert(k));
    }
}

/// Whether `key` occurs among the identifiers in `v`.
pub fn contains_id(v: &Vec<String>, key: &String) -> (r: bool)
    ensures
        r == str_seq(v@).contains(key@),
{
    let mut i: usize = 0;
    while i < v.len()
        invariant
            i <= v.len(),
            forall|j: int| 0 <= j < i ==> str_seq(v@)[j] != key@,
        decreases v.len() - i,
    {
        if v[i].eq(key) {
            assert(str_seq(v@)[i as int] == key@);
            return true;
        }
        i += 1;
    }
    false
}

/// Appends `key` unless it is already present.
pub fn add_id(v: &mut Vec<String>, key: String)
    ensures
        str_seq(final(v)@) == add_unique(str_seq(old(v)@), key@),
{
    if !contains_id(v, &key) {
        let ghost before = str_seq(v@);
        v.push(key);
        assert(str_seq(v@) =~= before.push(key@));
    }
}

/// Removes the first occurrence of `key`, reporting whether one was found.
pub fn remove_id(v: &mut Vec<String>, key: &String) -> (r: bool)
    requires
        str_seq(old(v)@).no_duplicates(),
    ensures
        r == str_seq(old(v)@).contains(key@),
        str_seq(final(v)@).no_duplicates(),
        r ==> str_seq(final(v)@).to_set() == str_seq(old(v)@).to_set().remove(key@),
        !r ==> final(v)@ == old(v)@,
{
    let ghost s0 = str_seq(old(v)@);
    let mut i: usize = 0;
    while i < v.len()
        invariant
            i <= v.len(),
            v@ == old(v)@,
            s0 == str_seq(old(v)@),
            str_seq(old(v)@).no_duplicates(),
            forall|j: int| 0 <= j < i ==> str_seq(v@)[j] != key@,
        decreases v.len() - i,
    {
        if v[i].eq(key) {
            assert(str_seq(v@)[i as int] == key@);
            v.remove(i);
            proof {
                lemma_remove_at_unique(s0, i as int);
                assert(v@ =~= old(v)@.remove(i as int));
                assert(str_seq(v@) =~= s0.remove(i as int));
            }
            return true;
        }
        i += 1;
    }
    false
}

/// Removing position `i` from a duplicate-free sequence removes exactly the
/// element at `i` from its set abstraction.
pub proof fn lemma_remove_at_unique(s: Seq<IdSeq>, i: int)
    requires
        s.no_duplicates(),
        0 <= i < s.len(),
    ensures
        s.remove(i).no_duplicates(),
        s.remove(i).to_set() == s.to_set().remove(s[i]),
{
    let t = s.remove(i);
    assert(t.no_duplicates()) by {
        assert forall|a: int, b: int| 0 <= a < b < t.len() implies t[a] != t[b] by {
            let sa: int = if a < i { a } else { a + 1 };
            let sb: int = if b < i { b } else { b + 1 };
            assert(t[a] == s[sa]);
            assert(t[b] == s[sb]);
        }
    }
    assert forall|x: IdSeq| t.contains(x) implies s.contains(x) && x != s[i] by {
        let j = choose|j: int| 0 <= j < t.len() && t[j] == x;
        if j < i {
            assert(s[j] == x);
        } else {
            assert(s[j + 1] == x);
        }
    }
    assert forall|x: IdSeq| s.contains(x) && x != s[i] implies t.contains(x) by {
        let j = choose|j: int| 0 <= j < s.len() && s[j] == x;
        if j < i {
            assert(t[j] == x);
        } else {
            assert(j != i);
            assert(t[j - 1] == x);
        }
    }
    assert(t.to_set() =~= s.to_set().remove(s[i]));
}

/// Appending a fresh element keeps a sequence duplicate-free.
pub proof fn lemma_push_unique(s: Seq<IdSeq>, k: IdSeq)
    requires
        s.no_duplicates(),
        !s.contains(k),
    ensures
        s.push(k).no_duplicates(),
{
    let t = s.push(k);
    assert forall|i: int, j: int| 0 <= i < j < t.len() implies t[i] != t[j] by {
        if j == s.len() {
            assert(t[i] == s[i]);
            assert(t[j] == k);
            if t[i] == k {
                assert(s.contains(k));
            }
        } else {
            assert(t[i] == s[i] && t[j] == s[j]);
        }
    }
}

/// A concatenation is duplicate-free exactly when both halves are and they
/// share nothing.
pub proof fn lemma_concat_unique(a: Seq<IdSeq>, b: Seq<IdSeq>)
    ensures
        (a + b).no_duplicates() <==> a.no_duplicates() && b.no_duplicates() && (forall|x: IdSeq|
            !(a.contains(x) && b.contains(x))),
{
    let c = a + b;
    if c.no_duplicates() {
        assert(a.no_duplicates()) by {
            assert forall|i: int, j: int| 0 <= i < j < a.len() implies a[i] != a[j] by {
                assert(c[i] == a[i] && c[j] == a[j]);
            }
        }
        assert(b.no_duplicates()) by {
            assert forall|i: int, j: int| 0 <= i < j < b.len() implies b[i] != b[j] by {
                assert(c[a.len() + i] == b[i] && c[a.len() + j] == b[j]);
            }
        }
        assert forall|x: IdSeq| !(a.contains(x) && b.contains(x)) by {
            if a.contains(x) && b.contains(x) {
                let i = choose|i: int| 0 <= i < a.len() && a[i] == x;
                let j = choose|j: int| 0 <= j < b.len() && b[j] == x;
                assert(c[i] == x && c[a.len() + j] == x);
            }
        }
    }
    if a.no_duplicates() && b.no_duplicates() && (forall|x: IdSeq|
        !(a.contains(x) && b.contains(x))) {
        assert forall|i: int, j: int| 0 <= i < j < c.len() implies c[i] != c[j] by {
            if i < a.len() && j >= a.len() {
                assert(c[i] == a[i] && c[j] == b[j - a.len()]);
                if c[i] == c[j] {
                    assert(a.contains(c[i]) && b.contains(c[i]));
                }
            }
        }
    }
}

/// Membership in a concatenation is membership in either half.
pub proof fn lemma_concat_contains(a: Seq<IdSeq>, b: Seq<IdSeq>)
    ensures
        forall|x: IdSeq| #[trigger] (a + b).contains(x) <==> a.contains(x) || b.contains(x),
{
    assert forall|x: IdSeq| #[trigger] (a + b).contains(x) implies a.contains(x) || b.contains(
        x,
    ) by {
        let j = choose|j: int| 0 <= j < (a + b).len() && (a + b)[j] == x;
        if j < a.len() {
            assert(a[j] == x);
        } else {
            assert(b[j - a.len()] == x);
        }
    }
    assert forall|x: IdSeq| a.contains(x) || b.contains(x) implies #[trigger] (a + b).contains(
        x,
    ) by {
        if a.contains(x) {
            let j = choose|j: int| 0 <= j < a.len() && a[j] == x;
            assert((a + b)[j] == x);
        } else {
            let j = choose|j: int| 0 <= j < b.len() && b[j] == x;
            assert((a + b)[a.len() + j] == x);
        }
    }
}

/// Replacing each half of a duplicate-free concatenation by a duplicate-free
/// selection of its elements keeps the concatenation duplicate-free.
pub proof fn lemma_rows_replace(
    oldp: Seq<IdSeq>,
    oldf: Seq<IdSeq>,
    newp: Seq<IdSeq>,
    newf: Seq<IdSeq>,
)
    requires
        (oldp + oldf).no_duplicates(),
        newp.no_duplicates(),
        newf.no_duplicates(),
        forall|x: IdSeq| newp.contains(x) ==> oldp.contains(x),
        forall|x: IdSeq| newf.contains(x) ==> oldf.contains(x),
    ensures
        (newp + newf).no_duplicates(),
{
    lemma_concat_unique(oldp, oldf);
    lemma_concat_unique(newp, newf);
}

/// An identifier list is empty exactly when its set abstraction is.
pub proof fn lemma_id_set_empty(s: Seq<String>)
    ensures
        id_set(s).is_empty() <==> s.len() == 0,
{
    if s.len() == 0 {
        assert(id_set(s) =~= Set::<IdSeq>::empty());
    } else {
        assert(str_seq(s)[0] == s[0]@);
        assert(str_seq(s).contains(s[0]@));
        assert(id_set(s).contains(s[0]@));
    }
}

} // verus!
