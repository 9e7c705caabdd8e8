//! Counting the cursors that sit at or before a node.

use vstd::prelude::*;

verus! {

/// 1 when `slot` holds a cursor positioned at or before node `i`, else 0.
pub open spec fn at_or_before(slot: Option<usize>, i: int) -> nat {
    match slot {
        Some(p) => if p <= i { 1 } else { 0 },
        None => 0,
    }
}

/// Number of cursors in `cs` positioned at or before node `i`.
pub open spec fn readers_upto(cs: Seq<Option<usize>>, i: int) -> nat
    decreases cs.len(),
{
    if cs.len() == 0 {
        0
    } else {
        readers_upto(cs.drop_last(), i) + at_or_before(cs.last(), i)
    }
}

/// Number of live cursors in `cs`.
pub open spec fn live_readers(cs: Seq<Option<usize>>) -> nat {
    readers_upto(cs, usize::MAX as int)
}

/// Every live cursor moved back by `d` nodes.
pub open spec fn shifted(cs: Seq<Option<usize>>, d: int) -> Seq<Option<usize>> {
    cs.map_values(|o: Option<usize>| match o {
        Some(p) => Some((p - d) as usize),
        None => None,
    })
}

pub proof fn lemma_update(cs: Seq<Option<usize>>, j: int, x: Option<usize>, i: int)
    requires
        0 <= j < cs.len(),
    ensures
        readers_upto(cs.update(j, x), i) + at_or_before(cs[j], i) == readers_upto(cs, i)
            + at_or_before(x, i),
    decreases cs.len(),
{
    let u = cs.update(j, x);
    if j == cs.len() - 1 {
        assert(u.drop_last() =~= cs.drop_last());
    } else {
        assert(u.drop_last() =~= cs.drop_last().update(j, x));
        lemma_update(cs.drop_last(), j, x, i);
    }
}

pub proof fn lemma_push(cs: Seq<Option<usize>>, x: Option<usize>, i: int)
    ensures
        readers_upto(cs.push(x), i) == readers_upto(cs, i) + at_or_before(x, i),
{
    assert(cs.push(x).drop_last() =~= cs);
}

/// A single cursor is counted in the total.
pub proof fn lemma_counted(cs: Seq<Option<usize>>, j: int, i: int)
    requires
        0 <= j < cs.len(),
    ensures
        readers_upto(cs, i) >= at_or_before(cs[j], i),
{
    lemma_update(cs, j, None, i);
}

/// A positive count has a cursor behind it.
pub proof fn lemma_some_reader(cs: Seq<Option<usize>>, i: int)
    requires
        readers_upto(cs, i) > 0,
    ensures
        exists|k: int| 0 <= k < cs.len() && at_or_before(#[trigger] cs[k], i) == 1,
    decreases cs.len(),
{
    if at_or_before(cs.last(), i) == 1 {
        assert(at_or_before(cs[cs.len() - 1], i) == 1);
    } else {
        let d = cs.drop_last();
        lemma_some_reader(d, i);
        let k = choose|k: int| 0 <= k < d.len() && at_or_before(#[trigger] d[k], i) == 1;
        assert(cs[k] == d[k]);
    }
}

/// The count never exceeds the number of slots.
pub proof fn lemma_bounded(cs: Seq<Option<usize>>, i: int)
    ensures
        readers_upto(cs, i) <= cs.len(),
    decreases cs.len(),
{
    if cs.len() > 0 {
        lemma_bounded(cs.drop_last(), i);
    }
}

/// Counting at two nodes gives the same number when every cursor is
/// on the same side of both.
pub proof fn lemma_agree(cs: Seq<Option<usize>>, i: int, j: int)
    requires
        forall|k: int| 0 <= k < cs.len() ==> at_or_before(#[trigger] cs[k], i) == at_or_before(cs[k], j),
    ensures
        readers_upto(cs, i) == readers_upto(cs, j),
    decreases cs.len(),
{
    if cs.len() > 0 {
        let d = cs.drop_last();
        assert forall|k: int| 0 <= k < d.len() implies at_or_before(#[trigger] d[k], i)
            == at_or_before(d[k], j) by {
            assert(d[k] == cs[k]);
        }
        lemma_agree(d, i, j);
        assert(cs.last() == cs[cs.len() - 1]);
    }
}

/// The count grows with the node index.
pub proof fn lemma_monotone(cs: Seq<Option<usize>>, i: int, j: int)
    requires
        i <= j,
    ensures
        readers_upto(cs, i) <= readers_upto(cs, j),
    decreases cs.len(),
{
    if cs.len() > 0 {
        lemma_monotone(cs.drop_last(), i, j);
    }
}

/// Moving every cursor back by `d` nodes moves every count back by `d` nodes.
pub proof fn lemma_shifted(cs: Seq<Option<usize>>, d: int, i: int)
    requires
        d >= 0,
        forall|k: int| 0 <= k < cs.len() ==> (#[trigger] cs[k] matches Some(p) ==> p >= d),
    ensures
        readers_upto(shifted(cs, d), i) == readers_upto(cs, i + d),
    decreases cs.len(),
{
    if cs.len() > 0 {
        let init = cs.drop_last();
        assert(shifted(cs, d).drop_last() =~= shifted(init, d));
        assert forall|k: int| 0 <= k < init.len() implies (#[trigger] init[k] matches Some(p) ==> p
            >= d) by {
            assert(init[k] == cs[k]);
        }
        lemma_shifted(init, d, i);
        assert(cs.last() == cs[cs.len() - 1]);
    }
}

} // verus!
