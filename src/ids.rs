use std::cmp::Ordering;
use vstd::prelude::*;
use vstd::string::*;

verus! {

/// Lexicographic order of texts by code point, compared from position `k` on.
pub open spec fn less_from(a: Seq<char>, b: Seq<char>, k: int) -> bool
    decreases a.len() - k,
{
    if k < 0 || k >= b.len() {
        false
    } else if k >= a.len() {
        true
    } else if a[k] != b[k] {
        (a[k] as int) < (b[k] as int)
    } else {
        less_from(a, b, k + 1)
    }
}

/// `a` sorts strictly before `b`: code point by code point, a proper prefix first.
pub open spec fn text_less(a: Seq<char>, b: Seq<char>) -> bool {
    less_from(a, b, 0)
}

proof fn lemma_less_from_total(a: Seq<char>, b: Seq<char>, k: int)
    requires
        0 <= k <= a.len(),
        k <= b.len(),
        forall|j: int| 0 <= j < k ==> a[j] == b[j],
        a != b,
    ensures
        less_from(a, b, k) || less_from(b, a, k),
        !(less_from(a, b, k) && less_from(b, a, k)),
    decreases a.len() - k,
{
    if k == a.len() && k == b.len() {
        assert(a =~= b);
    } else if k < a.len() && k < b.len() && a[k] == b[k] {
        lemma_less_from_total(a, b, k + 1);
    } else if k < a.len() && k < b.len() {
        assert(a[k] as int != b[k] as int);
    }
}

/// Two distinct texts are ordered one way and not the other.
pub proof fn lemma_text_less_total(a: Seq<char>, b: Seq<char>)
    requires
        a != b,
    ensures
        text_less(a, b) || text_less(b, a),
        !(text_less(a, b) && text_less(b, a)),
{
    lemma_less_from_total(a, b, 0);
}

proof fn lemma_less_from_irreflexive(a: Seq<char>, k: int)
    requires
        0 <= k <= a.len(),
    ensures
        !less_from(a, a, k),
    decreases a.len() - k,
{
    if k < a.len() {
        lemma_less_from_irreflexive(a, k + 1);
    }
}

/// No text sorts before itself.
pub proof fn lemma_text_less_irreflexive(a: Seq<char>)
    ensures
        !text_less(a, a),
{
    lemma_less_from_irreflexive(a, 0);
}

/// Whether two texts hold the same characters.
pub fn text_eq(a: &str, b: &str) -> (r: bool)
    ensures
        r == (a@ == b@),
{
    let n = a.unicode_len();
    let m = b.unicode_len();
    if n != m {
        return false;
    }
    let mut i: usize = 0;
    while i < n
        invariant
            n == a@.len(),
            m == b@.len(),
            n == m,
            i <= n,
            forall|j: int| 0 <= j < i ==> a@[j] == b@[j],
        decreases n - i,
    {
        if a.get_char(i) != b.get_char(i) {
            return false;
        }
        i = i + 1;
    }
    assert(a@ =~= b@);
    true
}

/// Compares two texts in the order of `text_less`.
pub fn text_cmp(a: &str, b: &str) -> (r: Ordering)
    ensures
        r == Ordering::Less <==> text_less(a@, b@),
        r == Ordering::Greater <==> text_less(b@, a@),
        r == Ordering::Equal <==> a@ == b@,
{
    let n = a.unicode_len();
    let m = b.unicode_len();
    let mut i: usize = 0;
    while i < n && i < m
        invariant
            n == a@.len(),
            m == b@.len(),
            i <= n,
            i <= m,
            forall|j: int| 0 <= j < i ==> a@[j] == b@[j],
            text_less(a@, b@) == less_from(a@, b@, i as int),
            text_less(b@, a@) == less_from(b@, a@, i as int),
        decreases n - i,
    {
        let c = a.get_char(i);
        let d = b.get_char(i);
        if c != d {
            proof {
                lemma_text_less_total(a@, b@);
            }
            if (c as u32) < (d as u32) {
                return Ordering::Less;
            } else {
                return Ordering::Greater;
            }
        }
        i = i + 1;
    }
    if n < m {
        proof {
            lemma_text_less_total(a@, b@);
        }
        Ordering::Less
    } else if m < n {
        proof {
            lemma_text_less_total(a@, b@);
        }
        Ordering::Greater
    } else {
        assert(a@ =~= b@);
        proof {
            lemma_text_less_irreflexive(a@);
        }
        Ordering::Equal
    }
}

} // verus!
