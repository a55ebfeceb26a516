//! The minimal add/remove diff shared by category-list and owner-list
//! edits: given the current and the requested membership, compute what
//! to remove and what to add, each as a duplicate-free list.
use vstd::prelude::*;

verus! {

/// The identity list names `x`.
pub open spec fn ids_have(ids: Seq<i32>, x: i32) -> bool {
    exists|i: int| 0 <= i < ids.len() && #[trigger] ids[i] == x
}

/// No identity occurs twice.
pub open spec fn ids_unique(ids: Seq<i32>) -> bool {
    forall|i: int, j: int| 0 <= i < j < ids.len() ==> #[trigger] ids[i] != #[trigger] ids[j]
}

/// Membership test on an identity list.
pub fn ids_contain(ids: &Vec<i32>, x: i32) -> (r: bool)
    ensures
        r == ids_have(ids@, x),
{
    let mut i: usize = 0;
    while i < ids.len()
        invariant
            0 <= i <= ids@.len(),
            forall|j: int| 0 <= j < i ==> #[trigger] ids@[j] != x,
        decreases ids@.len() - i,
    {
        if ids[i] == x {
            return true;
        }
        i = i + 1;
    }
    false
}

/// Compute the minimal diff from `current` to `requested`: `r.0` holds
/// exactly the identities to remove (current but not requested), `r.1`
/// exactly those to add (requested but not current), each once.
pub fn reconcile(current: &Vec<i32>, requested: &Vec<i32>) -> (r: (Vec<i32>, Vec<i32>))
    ensures
        ids_unique(r.0@),
        ids_unique(r.1@),
        forall|x: i32|
            ids_have(r.0@, x) <==> ids_have(current@, x) && !ids_have(requested@, x),
        forall|x: i32|
            ids_have(r.1@, x) <==> ids_have(requested@, x) && !ids_have(current@, x),
{
    let mut to_rm: Vec<i32> = Vec::new();
    let mut i: usize = 0;
    while i < current.len()
        invariant
            0 <= i <= current@.len(),
            ids_unique(to_rm@),
            forall|x: i32|
                ids_have(to_rm@, x) <==> ids_have(current@.take(i as int), x) && !ids_have(
                    requested@,
                    x,
                ),
        decreases current@.len() - i,
    {
        let x = current[i];
        proof {
            assert(current@.take(i + 1).drop_last() =~= current@.take(i as int));
            assert(current@.take(i + 1).last() == current@[i as int]);
            assert forall|y: i32|
                ids_have(current@.take(i + 1), y) implies y == x || ids_have(
                current@.take(i as int),
                y,
            ) by {
                let w = choose|w: int|
                    0 <= w < current@.take(i + 1).len() && #[trigger] current@.take(i + 1)[w] == y;
                if w < i {
                    assert(current@.take(i as int)[w] == y);
                }
            }
            assert forall|y: i32|
                ids_have(current@.take(i as int), y) implies ids_have(
                current@.take(i + 1),
                y,
            ) by {
                let w = choose|w: int|
                    0 <= w < i && #[trigger] current@.take(i as int)[w] == y;
                assert(current@.take(i + 1)[w] == y);
            }
            assert(ids_have(current@.take(i + 1), x)) by {
                assert(current@.take(i + 1)[i as int] == x);
            }
        }
        let in_req = ids_contain(requested, x);
        let in_rm = ids_contain(&to_rm, x);
        if !in_req && !in_rm {
            let ghost prev = to_rm@;
            to_rm.push(x);
            proof {
                assert(forall|w: int| 0 <= w < prev.len() ==> to_rm@[w] == #[trigger] prev[w]);
                assert(to_rm@.last() == x);
                assert forall|a: int, b: int|
                    0 <= a < b < to_rm@.len() implies #[trigger] to_rm@[a]
                    != #[trigger] to_rm@[b] by {
                    if b == to_rm@.len() - 1 {
                        assert(to_rm@[a] == prev[a]);
                        assert(!ids_have(prev, x));
                    }
                }
                assert forall|y: i32|
                    ids_have(to_rm@, y) <==> ids_have(current@.take(i + 1), y) && !ids_have(
                    requested@,
                    y,
                ) by {
                    if ids_have(to_rm@, y) {
                        let w = choose|w: int| 0 <= w < to_rm@.len() && #[trigger] to_rm@[w] == y;
                        if w < prev.len() {
                            assert(prev[w] == y);
                            assert(ids_have(prev, y));
                        } else {
                            assert(y == x);
                        }
                    }
                    if ids_have(current@.take(i + 1), y) && !ids_have(requested@, y) {
                        if y == x {
                            assert(to_rm@.last() == y);
                        } else {
                            assert(ids_have(current@.take(i as int), y));
                            assert(ids_have(prev, y));
                            let w = choose|w: int| 0 <= w < prev.len() && #[trigger] prev[w] == y;
                            assert(to_rm@[w] == y);
                        }
                    }
                }
            }
        } else {
            proof {
                assert forall|y: i32|
                    ids_have(to_rm@, y) <==> ids_have(current@.take(i + 1), y) && !ids_have(
                    requested@,
                    y,
                ) by {
                    if ids_have(current@.take(i + 1), y) && !ids_have(requested@, y) {
                        if y == x {
                            assert(in_rm || in_req);
                            assert(ids_have(to_rm@, x));
                        } else {
                            assert(ids_have(current@.take(i as int), y));
                        }
                    }
                }
            }
        }
        i = i + 1;
    }
    proof {
        assert(current@.take(current@.len() as int) =~= current@);
    }
    let mut to_add: Vec<i32> = Vec::new();
    let mut k: usize = 0;
    while k < requested.len()
        invariant
            0 <= k <= requested@.len(),
            ids_unique(to_add@),
            ids_unique(to_rm@),
            forall|x: i32|
                ids_have(to_rm@, x) <==> ids_have(current@, x) && !ids_have(requested@, x),
            forall|x: i32|
                ids_have(to_add@, x) <==> ids_have(requested@.take(k as int), x) && !ids_have(
                    current@,
                    x,
                ),
        decreases requested@.len() - k,
    {
        let x = requested[k];
        proof {
            assert(requested@.take(k + 1).drop_last() =~= requested@.take(k as int));
            assert forall|y: i32|
                ids_have(requested@.take(k + 1), y) implies y == x || ids_have(
                requested@.take(k as int),
                y,
            ) by {
                let w = choose|w: int|
                    0 <= w < requested@.take(k + 1).len() && #[trigger] requested@.take(k + 1)[w]
                        == y;
                if w < k {
                    assert(requested@.take(k as int)[w] == y);
                }
            }
            assert forall|y: i32|
                ids_have(requested@.take(k as int), y) implies ids_have(
                requested@.take(k + 1),
                y,
            ) by {
                let w = choose|w: int|
                    0 <= w < k && #[trigger] requested@.take(k as int)[w] == y;
                assert(requested@.take(k + 1)[w] == y);
            }
            assert(ids_have(requested@.take(k + 1), x)) by {
                assert(requested@.take(k + 1)[k as int] == x);
            }
        }
        let in_cur = ids_contain(current, x);
        let in_add = ids_contain(&to_add, x);
        if !in_cur && !in_add {
            let ghost prev = to_add@;
            to_add.push(x);
            proof {
                assert(forall|w: int| 0 <= w < prev.len() ==> to_add@[w] == #[trigger] prev[w]);
                assert(to_add@.last() == x);
                assert forall|a: int, b: int|
                    0 <= a < b < to_add@.len() implies #[trigger] to_add@[a]
                    != #[trigger] to_add@[b] by {
                    if b == to_add@.len() - 1 {
                        assert(to_add@[a] == prev[a]);
                        assert(!ids_have(prev, x));
                    }
                }
                assert forall|y: i32|
                    ids_have(to_add@, y) <==> ids_have(requested@.take(k + 1), y) && !ids_have(
                    current@,
                    y,
                ) by {
                    if ids_have(to_add@, y) {
                        let w = choose|w: int| 0 <= w < to_add@.len() && #[trigger] to_add@[w] == y;
                        if w < prev.len() {
                            assert(prev[w] == y);
                            assert(ids_have(prev, y));
                        } else {
                            assert(y == x);
                        }
                    }
                    if ids_have(requested@.take(k + 1), y) && !ids_have(current@, y) {
                        if y == x {
                            assert(to_add@.last() == y);
                        } else {
                            assert(ids_have(requested@.take(k as int), y));
                            assert(ids_have(prev, y));
                            let w = choose|w: int| 0 <= w < prev.len() && #[trigger] prev[w] == y;
                            assert(to_add@[w] == y);
                        }
                    }
                }
            }
        } else {
            proof {
                assert forall|y: i32|
                    ids_have(to_add@, y) <==> ids_have(requested@.take(k + 1), y) && !ids_have(
                    current@,
                    y,
                ) by {
                    if ids_have(requested@.take(k + 1), y) && !ids_have(current@, y) {
                        if y == x {
                            assert(in_add || in_cur);
                            assert(ids_have(to_add@, x));
                        } else {
                            assert(ids_have(requested@.take(k as int), y));
                        }
                    }
                }
            }
        }
        k = k + 1;
    }
    proof {
        assert(requested@.take(requested@.len() as int) =~= requested@);
    }
    (to_rm, to_add)
}

/// Reconciling a membership against itself is a no-op: both diff lists
/// come out empty, so applying the same request twice writes nothing
/// the second time.
pub proof fn lemma_reconcile_idempotent(current: Seq<i32>, to_rm: Seq<i32>, to_add: Seq<i32>)
    requires
        forall|x: i32| ids_have(to_rm, x) <==> ids_have(current, x) && !ids_have(current, x),
        forall|x: i32| ids_have(to_add, x) <==> ids_have(current, x) && !ids_have(current, x),
    ensures
        to_rm.len() == 0,
        to_add.len() == 0,
{
    if to_rm.len() > 0 {
        assert(ids_have(to_rm, to_rm[0]));
    }
    if to_add.len() > 0 {
        assert(ids_have(to_add, to_add[0]));
    }
}

} // verus!
