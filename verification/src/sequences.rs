//! Facts about sequences without repetition and about their beginnings.

use vstd::prelude::*;

verus! {

/// The set of a sequence gains the element that is pushed.
pub proof fn lemma_push_set(s: Seq<i32>, x: i32)
    ensures
        s.push(x).to_set() == s.to_set().insert(x),
{
    let t = s.push(x);
    assert forall|y: i32| t.to_set().contains(y) <==> s.to_set().insert(x).contains(y) by {
        if s.contains(y) {
            let i = choose|i: int| 0 <= i < s.len() && s[i] == y;
            assert(t[i] == y);
        }
        if t.contains(y) {
            let i = choose|i: int| 0 <= i < t.len() && t[i] == y;
            if i < s.len() {
                assert(s[i] == y);
            }
        }
        assert(t[s.len() as int] == x);
    }
    assert(t.to_set() =~= s.to_set().insert(x));
}


/// A sequence without repetition stays so when a new element is pushed, and
/// its set gains that element.
pub proof fn lemma_push_fresh(s: Seq<i32>, x: i32)
    requires
        s.no_duplicates(),
        !s.contains(x),
    ensures
        s.push(x).no_duplicates(),
        s.push(x).to_set() == s.to_set().insert(x),
{
    let t = s.push(x);
    assert forall|a: int, b: int| 0 <= a < t.len() && 0 <= b < t.len() && a != b implies t[a]
        != t[b] by {
        if a < s.len() {
            assert(s.contains(s[a]));
        }
        if b < s.len() {
            assert(s.contains(s[b]));
        }
    }
    lemma_push_set(s, x);
}


/// What the first `j + 1` elements hold beyond the first `j`.
pub proof fn lemma_take_contains(s: Seq<i32>, j: int, y: i32)
    requires
        0 <= j < s.len(),
    ensures
        s.take(j + 1).contains(y) <==> s.take(j).contains(y) || s[j] == y,
{
    let shorter = s.take(j);
    let longer = s.take(j + 1);
    if shorter.contains(y) {
        let m = choose|m: int| 0 <= m < shorter.len() && shorter[m] == y;
        assert(longer[m] == y);
    }
    if s[j] == y {
        assert(longer[j] == y);
    }
    if longer.contains(y) {
        let m = choose|m: int| 0 <= m < longer.len() && longer[m] == y;
        if m < j {
            assert(shorter[m] == y);
        }
    }
}

} // verus!
