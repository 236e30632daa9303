//! What the two index variants share: their result type, the order results
//! come in, and the ranked buffer both use to keep the best candidates.
use vstd::prelude::*;

verus! {

/// One index answer: a stored id and its score against the query, as an
/// order key (see `score`).
#[derive(Debug, Clone)]
pub struct IndexHit {
    pub id: String,
    pub score: u32,
}

/// `score` is a value that `similarity` returned for `query` against some
/// embedding equal to `embedding`.
pub open spec fn scored_as<F: Fn(&Vec<u32>, &Vec<u32>) -> u32>(
    similarity: F,
    query: &Vec<u32>,
    embedding: Seq<u32>,
    score: u32,
) -> bool {
    exists|e: Vec<u32>| e@ == embedding && #[trigger] similarity.ensures((query, &e), score)
}

/// Scores never increase along `hits`.
pub open spec fn descending(hits: Seq<IndexHit>) -> bool {
    forall|i: int, j: int| 0 <= i < j < hits.len() ==> hits[i].score >= hits[j].score
}

/// No id occurs twice in `hits`.
pub open spec fn distinct_ids(hits: Seq<IndexHit>) -> bool {
    forall|i: int, j: int| 0 <= i < j < hits.len() ==> hits[i].id@ != hits[j].id@
}

/// Some hit of `hits` carries `id`.
pub open spec fn has_id(hits: Seq<IndexHit>, id: Seq<char>) -> bool {
    exists|i: int| 0 <= i < hits.len() && #[trigger] hits[i].id@ == id
}

/// Scores never increase along a buffer of (slot, score) pairs.
pub(crate) open spec fn ranked(s: Seq<(usize, u32)>) -> bool {
    forall|i: int, j: int| 0 <= i < j < s.len() ==> s[i].1 >= s[j].1
}

/// No slot occurs twice in the buffer `buf`.
pub(crate) open spec fn distinct_slots(buf: Seq<(usize, u32)>) -> bool {
    forall|t: int, u: int| 0 <= t < u < buf.len() ==> buf[t].0 != buf[u].0
}

/// Some entry of the buffer `s` is for slot `j`.
pub(crate) open spec fn holds_slot(s: Seq<(usize, u32)>, j: int) -> bool {
    exists|t: int| 0 <= t < s.len() && #[trigger] s[t].0 == j
}

/// Every entry of `buf` carries the score `seen` records for its slot.
pub(crate) open spec fn agrees(buf: Seq<(usize, u32)>, seen: Map<int, u32>) -> bool {
    forall|t: int|
        0 <= t < buf.len() ==> seen.contains_key((#[trigger] buf[t]).0 as int) && seen[buf[t].0 as int]
            == buf[t].1
}

/// Every slot in `seen` that `buf` does not hold scores no higher than the
/// last entry of `buf`, which is then full at `width` entries.
pub(crate) open spec fn only_worse_left_out(buf: Seq<(usize, u32)>, seen: Map<int, u32>, width: nat) -> bool {
    forall|i: int|
        #[trigger] seen.contains_key(i) && !holds_slot(buf, i) ==> buf.len() == width && seen[i]
            <= buf.last().1
}

/// Removing the entry at `b` keeps every other slot held.
pub(crate) proof fn lemma_swap_remove_holds(s: Seq<(usize, u32)>, b: int, i: int)
    requires
        0 <= b < s.len(),
        holds_slot(s, i),
        s[b].0 != i,
    ensures
        holds_slot(s.update(b, s.last()).drop_last(), i),
{
    let t = choose|t: int| 0 <= t < s.len() && #[trigger] s[t].0 == i;
    let r = s.update(b, s.last()).drop_last();
    if t == s.len() - 1 {
        assert(r[b].0 == i);
    } else {
        assert(r[t].0 == i);
    }
}

/// One admission into a ranked buffer of at most `width` entries: `item`,
/// for a slot not seen before, is inserted at `p` and, where the buffer
/// overflows, its last entry is dropped.
pub(crate) proof fn lemma_admit_step(
    old_buf: Seq<(usize, u32)>,
    new_buf: Seq<(usize, u32)>,
    seen: Map<int, u32>,
    item: (usize, u32),
    p: int,
    width: nat,
)
    requires
        ranked(old_buf),
        distinct_slots(old_buf),
        agrees(old_buf, seen),
        only_worse_left_out(old_buf, seen, width),
        0 < old_buf.len() <= width,
        !seen.contains_key(item.0 as int),
        0 <= p <= old_buf.len(),
        forall|i: int| 0 <= i < p ==> old_buf[i].1 >= item.1,
        forall|i: int| p <= i < old_buf.len() ==> old_buf[i].1 < item.1,
        new_buf == if old_buf.len() + 1 > width {
            old_buf.insert(p, item).drop_last()
        } else {
            old_buf.insert(p, item)
        },
    ensures
        ranked(new_buf),
        distinct_slots(new_buf),
        agrees(new_buf, seen.insert(item.0 as int, item.1)),
        only_worse_left_out(new_buf, seen.insert(item.0 as int, item.1), width),
        0 < new_buf.len() <= width,
        new_buf.len() >= old_buf.len(),
        new_buf.len() < width ==> forall|i: int| holds_slot(old_buf, i) ==> #[trigger] holds_slot(new_buf, i),
        new_buf.len() < width ==> holds_slot(new_buf, item.0 as int),
{
    let mid = old_buf.insert(p, item);
    let seen2 = seen.insert(item.0 as int, item.1);
    assert(ranked(mid));
    assert forall|t: int| 0 <= t < old_buf.len() implies old_buf[t].0 != item.0 by {
        assert(seen.contains_key(old_buf[t].0 as int));
    }
    assert(distinct_slots(mid)) by {
        assert forall|a: int, b: int| 0 <= a < b < mid.len() implies mid[a].0 != mid[b].0 by {
            if a < p {
                if b == p {
                } else if b < p {
                    assert(mid[b] == old_buf[b]);
                } else {
                    assert(mid[b] == old_buf[b - 1]);
                }
            } else if a == p {
                assert(mid[b] == old_buf[b - 1]);
            } else {
                assert(mid[a] == old_buf[a - 1]);
                assert(mid[b] == old_buf[b - 1]);
            }
        }
    }
    assert(agrees(mid, seen2)) by {
        assert forall|t: int| 0 <= t < mid.len() implies seen2.contains_key((#[trigger] mid[t]).0 as int)
            && seen2[mid[t].0 as int] == mid[t].1 by {
            if t < p {
                assert(mid[t] == old_buf[t]);
            } else if t > p {
                assert(mid[t] == old_buf[t - 1]);
            }
        }
    }
    assert forall|i: int| holds_slot(old_buf, i) implies #[trigger] holds_slot(mid, i) by {
        let t = choose|t: int| 0 <= t < old_buf.len() && #[trigger] old_buf[t].0 == i;
        if t < p {
            assert(mid[t] == old_buf[t]);
        } else {
            assert(mid[t + 1] == old_buf[t]);
        }
    }
    assert(mid[p].0 == item.0);
    if old_buf.len() + 1 > width {
        let n = width as int;
        assert(old_buf.len() == n);
        assert(new_buf[n - 1].1 >= old_buf[n - 1].1) by {
            if p < n - 1 {
                assert(new_buf[n - 1] == old_buf[n - 2]);
            } else if p == n - 1 {
                assert(new_buf[n - 1] == item);
            } else {
                assert(new_buf[n - 1] == old_buf[n - 1]);
            }
        }
        assert(mid[n].1 <= new_buf[n - 1].1);
        assert forall|i: int| #[trigger] seen2.contains_key(i) && !holds_slot(new_buf, i) implies new_buf.len()
            == width && seen2[i] <= new_buf.last().1 by {
            if holds_slot(mid, i) {
                let t = choose|t: int| 0 <= t < mid.len() && #[trigger] mid[t].0 == i;
                if t < n {
                    assert(new_buf[t] == mid[t]);
                }
                assert(t == n);
            } else {
                assert(i != item.0);
                if holds_slot(old_buf, i) {
                }
            }
        }
    } else {
        assert forall|i: int| #[trigger] seen2.contains_key(i) && !holds_slot(new_buf, i) implies new_buf.len()
            == width && seen2[i] <= new_buf.last().1 by {
            assert(i != item.0);
            if !holds_slot(old_buf, i) {
                assert(seen.contains_key(i));
            }
        }
    }
}

/// Inserts `item` into a ranked buffer after every entry that scores at least
/// as high, so that earlier arrivals win ties. Returns the position used.
pub(crate) fn insert_ranked(buf: &mut Vec<(usize, u32)>, item: (usize, u32)) -> (p: usize)
    requires
        ranked(old(buf)@),
    ensures
        p <= old(buf)@.len(),
        final(buf)@ == old(buf)@.insert(p as int, item),
        ranked(final(buf)@),
        forall|i: int| 0 <= i < p ==> old(buf)@[i].1 >= item.1,
        forall|i: int| p <= i < old(buf)@.len() ==> old(buf)@[i].1 < item.1,
{
    let mut p: usize = 0;
    while p < buf.len() && buf[p].1 >= item.1
        invariant
            p <= buf@.len(),
            forall|i: int| 0 <= i < p ==> buf@[i].1 >= item.1,
        decreases buf@.len() - p,
    {
        p = p + 1;
    }
    proof {
        if p < buf@.len() {
            assert forall|i: int| p <= i < buf@.len() implies buf@[i].1 < item.1 by {
                assert(buf@[p as int].1 >= buf@[i].1);
            }
        }
    }
    buf.insert(p, item);
    p
}

} // verus!
