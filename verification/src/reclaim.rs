//! Reclamation: what becomes of the nodes that a participant has unlinked.
//!
//! A participant does not release a node when it unlinks it: another
//! participant may have read that node as the head and be about to read
//! through it. It retires the node instead, then reads every hazard slot, and
//! releases the retired nodes that no slot named. The others stay retired
//! until a later scan.

use vstd::prelude::*;

verus! {

/// The predicate "some hazard slot named this node".
pub open spec fn named_in(seen: Seq<u64>) -> spec_fn(u64) -> bool {
    |n: u64| seen.contains(n)
}

/// The predicate "no hazard slot named this node".
pub open spec fn absent_from(seen: Seq<u64>) -> spec_fn(u64) -> bool {
    |n: u64| !seen.contains(n)
}

/// Whether `word` occurs in `list`.
pub fn holds(list: &Vec<u64>, word: u64) -> (found: bool)
    ensures
        found == list@.contains(word),
{
    let mut i: usize = 0;
    while i < list.len()
        invariant
            i <= list.len(),
            forall|k: int| 0 <= k < i ==> list@[k] != word,
        decreases list.len() - i,
    {
        if list[i] == word {
            return true;
        }
        i += 1;
    }
    false
}

/// Ends a scan. Parts the retired nodes into those that a slot named and those
/// that none named, each part in the order of the list: the first part is
/// handed back and stays retired, the second joins the spare nodes.
pub fn release(retired: &Vec<u64>, seen: &Vec<u64>, spare: &mut Vec<u64>) -> (kept: Vec<u64>)
    ensures
        kept@ == retired@.filter(named_in(seen@)),
        final(spare)@ == old(spare)@ + retired@.filter(absent_from(seen@)),
{
    let ghost before = spare@;
    let mut kept: Vec<u64> = Vec::new();
    let mut i: usize = 0;
    assert(retired@.take(0) =~= Seq::<u64>::empty());
    assert(before + Seq::<u64>::empty() =~= before);
    while i < retired.len()
        invariant
            i <= retired.len(),
            kept@ == retired@.take(i as int).filter(named_in(seen@)),
            spare@ == before + retired@.take(i as int).filter(absent_from(seen@)),
        decreases retired.len() - i,
    {
        let node: u64 = retired[i];
        proof {
            let head = retired@.take(i as int);
            assert(retired@.take(i + 1) =~= head.push(node));
            head.lemma_filter_push(node, named_in(seen@));
            head.lemma_filter_push(node, absent_from(seen@));
        }
        if holds(seen, node) {
            kept.push(node);
        } else {
            spare.push(node);
            assert(spare@ =~= before + retired@.take(i + 1).filter(absent_from(seen@)));
        }
        i += 1;
    }
    assert(retired@.take(i as int) =~= retired@);
    kept
}

/// What a filter keeps: the items that satisfy the predicate, each as often as
/// before.
pub proof fn lemma_filter_keeps(s: Seq<u64>, pred: spec_fn(u64) -> bool)
    ensures
        forall|x: u64| #[trigger] s.filter(pred).contains(x) <==> s.contains(x) && pred(x),
        s.no_duplicates() ==> s.filter(pred).no_duplicates(),
    decreases s.len(),
{
    reveal(Seq::filter);
    if s.len() > 0 {
        let rest = s.drop_last();
        lemma_filter_keeps(rest, pred);
        let kept = rest.filter(pred);
        assert forall|x: u64| #[trigger] s.filter(pred).contains(x) <==> s.contains(x) && pred(
            x,
        ) by {
            if s.contains(x) {
                let i = choose|i: int| 0 <= i < s.len() && s[i] == x;
                if i < s.len() - 1 {
                    assert(rest[i] == x);
                }
            }
            if rest.contains(x) {
                let i = choose|i: int| 0 <= i < rest.len() && rest[i] == x;
                assert(s[i] == x);
            }
            if pred(s.last()) {
                assert(s.filter(pred) == kept.push(s.last()));
                if kept.contains(x) {
                    let i = choose|i: int| 0 <= i < kept.len() && kept[i] == x;
                    assert(kept.push(s.last())[i] == x);
                }
                if x == s.last() {
                    assert(kept.push(s.last())[kept.len() as int] == x);
                    assert(s[s.len() - 1] == x);
                }
            }
        }
        if s.no_duplicates() {
            assert(rest.no_duplicates());
            if pred(s.last()) {
                assert(!rest.contains(s.last())) by {
                    if rest.contains(s.last()) {
                        let i = choose|i: int| 0 <= i < rest.len() && rest[i] == s.last();
                        assert(s[i] == s[s.len() - 1]);
                    }
                }
                assert(!kept.contains(s.last()));
            }
        }
    }
}

/// A list without repeats whose items all occur in another list is no longer
/// than that list.
pub proof fn lemma_no_longer(a: Seq<u64>, b: Seq<u64>)
    requires
        a.no_duplicates(),
        forall|i: int| 0 <= i < a.len() ==> b.contains(#[trigger] a[i]),
    ensures
        a.len() <= b.len(),
{
    broadcast use vstd::seq_lib::group_seq_properties;

    a.unique_seq_to_set();
    b.lemma_cardinality_of_set();
    assert(a.to_set().subset_of(b.to_set()));
    vstd::set_lib::lemma_len_subset(a.to_set(), b.to_set());
}

/// The two parts into which a scan splits a list are as long together as the
/// list.
pub proof fn lemma_filter_split(s: Seq<u64>, seen: Seq<u64>)
    ensures
        s.filter(named_in(seen)).len() + s.filter(absent_from(seen)).len() == s.len(),
    decreases s.len(),
{
    reveal(Seq::filter);
    if s.len() > 0 {
        lemma_filter_split(s.drop_last(), seen);
    }
}

/// What a list holds after one more item.
pub proof fn lemma_push_contains(s: Seq<u64>, w: u64)
    ensures
        forall|x: u64| #[trigger] s.push(w).contains(x) <==> s.contains(x) || x == w,
{
    assert forall|x: u64| #[trigger] s.push(w).contains(x) <==> s.contains(x) || x == w by {
        if s.contains(x) {
            let i = choose|i: int| 0 <= i < s.len() && s[i] == x;
            assert(s.push(w)[i] == x);
        }
        if x == w {
            assert(s.push(w)[s.len() as int] == x);
        }
    }
}

/// Bounded retirement, at its root: after a scan of a list without repeats,
/// the nodes that stay retired are no more than the hazard slots that were
/// read.
pub proof fn lemma_release_bound(retired: Seq<u64>, seen: Seq<u64>)
    requires
        retired.no_duplicates(),
    ensures
        retired.filter(named_in(seen)).no_duplicates(),
        retired.filter(named_in(seen)).len() <= seen.len(),
{
    let kept = retired.filter(named_in(seen));
    lemma_filter_keeps(retired, named_in(seen));
    assert forall|i: int| 0 <= i < kept.len() implies seen.contains(#[trigger] kept[i]) by {
        assert(kept.contains(kept[i]));
    }
    lemma_no_longer(kept, seen);
}

} // verus!
