use vstd::prelude::*;

verus! {

/// A sequence with one more element holds what it held and that element.
pub proof fn lemma_push_contains(s: Seq<usize>, last: usize, e: usize)
    ensures
        s.push(last).contains(e) <==> s.contains(e) || last == e,
{
    let longer = s.push(last);
    if s.contains(e) {
        let i = choose|i: int| 0 <= i < s.len() && s[i] == e;
        assert(longer[i] == e);
    }
    if last == e {
        assert(longer[s.len() as int] == e);
    }
    if longer.contains(e) && last != e {
        let i = choose|i: int| 0 <= i < longer.len() && longer[i] == e;
        assert(s[i] == e);
    }
}

/// Adding an element that a sequence does not hold repeats nothing.
pub proof fn lemma_push_no_duplicates(s: Seq<usize>, last: usize)
    requires
        s.no_duplicates(),
        !s.contains(last),
    ensures
        s.push(last).no_duplicates(),
{
    let longer = s.push(last);
    assert forall|i: int, j: int|
        0 <= i < longer.len() && 0 <= j < longer.len() && i != j implies longer[i] != longer[j] by {
        if i < s.len() && j < s.len() {
        } else if i < s.len() {
            assert(s.contains(s[i]));
        } else {
            assert(s.contains(s[j]));
        }
    }
}

/// Two sequences in a row hold what either of them holds.
pub proof fn lemma_concat_contains(a: Seq<usize>, b: Seq<usize>, e: usize)
    ensures
        (a + b).contains(e) <==> a.contains(e) || b.contains(e),
{
    let both = a + b;
    if a.contains(e) {
        let i = choose|i: int| 0 <= i < a.len() && a[i] == e;
        assert(both[i] == e);
    }
    if b.contains(e) {
        let i = choose|i: int| 0 <= i < b.len() && b[i] == e;
        assert(both[a.len() + i] == e);
    }
    if both.contains(e) {
        let i = choose|i: int| 0 <= i < both.len() && both[i] == e;
        if i < a.len() {
            assert(a[i] == e);
        } else {
            assert(b[i - a.len()] == e);
        }
    }
}

} // verus!
