//! What the store computes over a full scan of its records.
use vstd::prelude::*;
use crate::record::Vector;

verus! {

/// `v` is tagged with exactly `collection`.
pub open spec fn tagged_with(collection: Seq<char>, v: Vector) -> bool {
    v.collection matches Some(t) && t@ == collection
}

/// Some record of `records` is tagged with `collection`.
pub open spec fn has_tag(records: Seq<Vector>, collection: Seq<char>) -> bool {
    exists|i: int| 0 <= i < records.len() && #[trigger] tagged_with(collection, records[i])
}

/// The records tagged with exactly `collection`, in scan order.
pub fn vectors_in_collection(records: Vec<Vector>, collection: &str) -> (r: Vec<Vector>)
    ensures
        r@ == records@.filter(|v: Vector| tagged_with(collection@, v)),
{
    let ghost all = records@;
    let ghost pred = |v: Vector| tagged_with(collection@, v);
    let key = collection.to_owned();
    let mut r: Vec<Vector> = Vec::new();
    for v in it: records
        invariant
            it.seq() == all,
            pred == (|v: Vector| tagged_with(collection@, v)),
            key@ == collection@,
            r@ == all.take(it.index() as int).filter(pred),
    {
        let ghost idx = it.index() as int;
        proof {
            reveal(Seq::filter);
            assert(v == all[idx]);
            assert(all.take(idx + 1).drop_last() =~= all.take(idx));
            assert(all.take(idx + 1).last() == v);
        }
        let keep = match &v.collection {
            Some(t) => t.eq(&key),
            None => false,
        };
        if keep {
            r.push(v);
        }
        proof {
            assert(all.take(idx + 1).filter(pred) == if pred(v) {
                all.take(idx).filter(pred).push(v)
            } else {
                all.take(idx).filter(pred)
            });
        }
    }
    proof {
        assert(all.take(all.len() as int) =~= all);
    }
    r
}

/// The distinct collection tags among `records`, in order of first
/// appearance; untagged records contribute nothing.
pub fn collection_names(records: &Vec<Vector>) -> (r: Vec<String>)
    ensures
        forall|i: int, j: int| 0 <= i < j < r@.len() ==> r@[i]@ != r@[j]@,
        forall|j: int| 0 <= j < r@.len() ==> has_tag(records@, #[trigger] r@[j]@),
        forall|i: int|
            0 <= i < records@.len() && records@[i].collection is Some ==> exists|j: int|
                0 <= j < r@.len() && #[trigger] r@[j]@ == records@[i].collection->0@,
{
    let mut r: Vec<String> = Vec::new();
    let mut i: usize = 0;
    while i < records.len()
        invariant
            i <= records@.len(),
            forall|a: int, b: int| 0 <= a < b < r@.len() ==> r@[a]@ != r@[b]@,
            forall|j: int| 0 <= j < r@.len() ==> has_tag(records@, #[trigger] r@[j]@),
            forall|a: int|
                0 <= a < i && records@[a].collection is Some ==> exists|j: int|
                    0 <= j < r@.len() && #[trigger] r@[j]@ == records@[a].collection->0@,
        decreases records@.len() - i,
    {
        let ghost old_r = r@;
        match &records[i].collection {
            None => {},
            Some(t) => {
                let mut seen = false;
                let mut j: usize = 0;
                while j < r.len()
                    invariant
                        j <= r@.len(),
                        seen <==> exists|b: int| 0 <= b < j && #[trigger] r@[b]@ == t@,
                    decreases r@.len() - j,
                {
                    if r[j].eq(t) {
                        seen = true;
                    }
                    j = j + 1;
                }
                if !seen {
                    proof {
                        assert(tagged_with(t@, records@[i as int]));
                    }
                    r.push(t.clone());
                    proof {
                        assert(r@[r@.len() - 1]@ == t@);
                    }
                }
            },
        }
        proof {
            assert forall|a: int|
                0 <= a < i + 1 && records@[a].collection is Some implies exists|j: int|
                    0 <= j < r@.len() && #[trigger] r@[j]@ == records@[a].collection->0@ by {
                if a < i {
                    let j = choose|j: int|
                        0 <= j < old_r.len() && #[trigger] old_r[j]@ == records@[a].collection->0@;
                    assert(r@[j] == old_r[j]);
                }
            }
        }
        i = i + 1;
    }
    r
}

} // verus!
