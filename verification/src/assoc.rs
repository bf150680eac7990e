//! Association lists keyed by strings.
//!
//! The derived indices of the dataset map string keys (competitor and event
//! identifiers) to values. They are kept as vectors of entries with unique
//! keys; this module gives the common lookup machinery.

use vstd::prelude::*;

verus! {

/// An entry of an association list: it has a string key.
pub trait Keyed: Sized {
    /// The entry's key.
    spec fn key(&self) -> Seq<char>;

    /// Decides whether the entry's key is `k`.
    fn key_matches(&self, k: &str) -> (r: bool)
        ensures
            r == (self.key() == k@),
    ;
}

/// No two entries share a key.
pub open spec fn keys_unique<T: Keyed>(s: Seq<T>) -> bool {
    forall|i: int, j: int| 0 <= i < j < s.len() ==> s[i].key() != s[j].key()
}

/// Some entry has key `k`.
pub open spec fn assoc_has<T: Keyed>(s: Seq<T>, k: Seq<char>) -> bool {
    exists|i: int| 0 <= i < s.len() && s[i].key() == k
}

/// The index of an entry with key `k`; meaningful when one exists and keys
/// are unique.
pub open spec fn assoc_idx<T: Keyed>(s: Seq<T>, k: Seq<char>) -> int {
    choose|i: int| 0 <= i < s.len() && s[i].key() == k
}

/// The entry with key `k`; meaningful when one exists and keys are unique.
pub open spec fn assoc_at<T: Keyed>(s: Seq<T>, k: Seq<char>) -> T {
    s[assoc_idx(s, k)]
}

/// With unique keys, any entry holding key `k` is the one `assoc_idx` and
/// `assoc_at` denote.
pub proof fn lemma_assoc_idx_unique<T: Keyed>(s: Seq<T>, k: Seq<char>, i: int)
    requires
        keys_unique(s),
        0 <= i < s.len(),
        s[i].key() == k,
    ensures
        assoc_has(s, k),
        assoc_idx(s, k) == i,
        assoc_at(s, k) == s[i],
{
    assert(assoc_has(s, k));
    let j = assoc_idx(s, k);
    assert(0 <= j < s.len() && s[j].key() == k);
    if j < i {
        assert(s[j].key() != s[i].key());
    }
    if i < j {
        assert(s[i].key() != s[j].key());
    }
}

/// Replacing the entry at `i` with one carrying the same key keeps the keys
/// unique and leaves every other key's entry untouched.
pub proof fn lemma_assoc_update<T: Keyed>(s1: Seq<T>, s2: Seq<T>, i: int)
    requires
        keys_unique(s1),
        0 <= i < s1.len(),
        s2.len() == s1.len(),
        forall|j: int| 0 <= j < s1.len() && j != i ==> s2[j] == s1[j],
        s2[i].key() == s1[i].key(),
    ensures
        keys_unique(s2),
        forall|e: Seq<char>| #[trigger] assoc_has(s2, e) == assoc_has(s1, e),
        forall|e: Seq<char>|
            e != s1[i].key() && assoc_has(s1, e) ==> #[trigger] assoc_at(s2, e) == assoc_at(s1, e),
        assoc_has(s2, s1[i].key()),
        assoc_at(s2, s1[i].key()) == s2[i],
{
    assert(forall|j: int| 0 <= j < s1.len() ==> #[trigger] s2[j].key() == s1[j].key());
    assert forall|e: Seq<char>| #[trigger] assoc_has(s2, e) == assoc_has(s1, e) by {
        if assoc_has(s1, e) {
            let j = choose|j: int| 0 <= j < s1.len() && s1[j].key() == e;
            assert(s2[j].key() == e);
        }
        if assoc_has(s2, e) {
            let j = choose|j: int| 0 <= j < s2.len() && s2[j].key() == e;
            assert(s1[j].key() == e);
        }
    }
    assert forall|e: Seq<char>|
        e != s1[i].key() && assoc_has(s1, e) implies #[trigger] assoc_at(s2, e) == assoc_at(
        s1,
        e,
    ) by {
        let j = choose|j: int| 0 <= j < s1.len() && s1[j].key() == e;
        assert(j != i);
        lemma_assoc_idx_unique(s1, e, j);
        lemma_assoc_idx_unique(s2, e, j);
    }
    lemma_assoc_idx_unique(s2, s1[i].key(), i);
}

/// Inserting an entry with a fresh key keeps the keys unique and leaves
/// every other key's entry untouched.
pub proof fn lemma_assoc_insert<T: Keyed>(s: Seq<T>, i: int, x: T)
    requires
        keys_unique(s),
        0 <= i <= s.len(),
        !assoc_has(s, x.key()),
    ensures
        keys_unique(s.insert(i, x)),
        assoc_has(s.insert(i, x), x.key()),
        assoc_at(s.insert(i, x), x.key()) == x,
        forall|e: Seq<char>|
            e != x.key() ==> #[trigger] assoc_has(s.insert(i, x), e) == assoc_has(s, e),
        forall|e: Seq<char>|
            e != x.key() && assoc_has(s, e) ==> #[trigger] assoc_at(s.insert(i, x), e) == assoc_at(
                s,
                e,
            ),
{
    let s2 = s.insert(i, x);
    assert(forall|j: int| 0 <= j < i ==> #[trigger] s2[j] == s[j]);
    assert(s2[i] == x);
    assert(forall|j: int| i < j < s2.len() ==> #[trigger] s2[j] == s[j - 1]);
    assert(forall|j: int| 0 <= j < s.len() ==> s[j].key() != x.key());
    assert forall|a: int, b: int| 0 <= a < b < s2.len() implies s2[a].key() != s2[b].key() by {
        if a != i && b != i {
            let a1: int = if a < i {
                a
            } else {
                a - 1
            };
            let b1: int = if b < i {
                b
            } else {
                b - 1
            };
            assert(s2[a] == s[a1] && s2[b] == s[b1] && a1 < b1);
        }
    }
    lemma_assoc_idx_unique(s2, x.key(), i);
    assert forall|e: Seq<char>|
        e != x.key() implies #[trigger] assoc_has(s2, e) == assoc_has(s, e) by {
        if assoc_has(s, e) {
            let j = choose|j: int| 0 <= j < s.len() && s[j].key() == e;
            let j2: int = if j < i {
                j
            } else {
                j + 1
            };
            assert(s2[j2].key() == e);
        }
        if assoc_has(s2, e) {
            let j = choose|j: int| 0 <= j < s2.len() && s2[j].key() == e;
            assert(j != i);
            let j1: int = if j < i {
                j
            } else {
                j - 1
            };
            assert(s[j1].key() == e);
        }
    }
    assert forall|e: Seq<char>|
        e != x.key() && assoc_has(s, e) implies #[trigger] assoc_at(s2, e) == assoc_at(s, e) by {
        let j = choose|j: int| 0 <= j < s.len() && s[j].key() == e;
        lemma_assoc_idx_unique(s, e, j);
        let j2: int = if j < i {
            j
        } else {
            j + 1
        };
        assert(s2[j2].key() == e && s2[j2] == s[j]);
        lemma_assoc_idx_unique(s2, e, j2);
    }
}

/// Finds the position of the entry with key `k`, if any.
pub fn assoc_position<T: Keyed>(v: &Vec<T>, k: &str) -> (r: Option<usize>)
    ensures
        match r {
            Some(i) => i < v@.len() && v@[i as int].key() == k@,
            None => !assoc_has(v@, k@),
        },
{
    let mut i: usize = 0;
    while i < v.len()
        invariant
            i <= v@.len(),
            forall|j: int| 0 <= j < i ==> v@[j].key() != k@,
        decreases v@.len() - i,
    {
        if v[i].key_matches(k) {
            return Some(i);
        }
        i = i + 1;
    }
    None
}

} // verus!
