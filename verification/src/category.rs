//! Categories and the package-to-category membership set, reconciled
//! wholesale on each update request: requested names that name no known
//! category are silently dropped, and the datastore receives a minimal
//! removal list and addition list.
use crate::datetime::time_repr;
use crate::datetime::DateTime;
use crate::datetime;
use crate::reconcile::ids_have;
use crate::reconcile::ids_unique;
use crate::reconcile;
use crate::strutil;
use vstd::prelude::*;
use vstd::string::StringExecFns;

verus! {

/// One category row.
#[derive(Debug)]
pub struct Category {
    pub id: i32,
    pub category: String,
    pub created_at: DateTime,
    pub crates_cnt: i32,
}

/// The public view of a category, keyed by its name.
#[derive(Debug)]
pub struct EncodableCategory {
    pub id: String,
    pub category: String,
    pub created_at: String,
    pub crates_cnt: i32,
}

/// Some category row carries this name.
pub open spec fn cats_have_name(cats: Seq<Category>, name: Seq<char>) -> bool {
    exists|i: int| 0 <= i < cats.len() && (#[trigger] cats[i]).category@ == name
}

/// Some category row with this name carries identity `id`.
pub open spec fn cat_id_of_name(cats: Seq<Category>, name: Seq<char>, id: i32) -> bool {
    exists|i: int|
        0 <= i < cats.len() && (#[trigger] cats[i]).category@ == name && cats[i].id == id
}

/// Some requested name resolves to identity `id`.
pub open spec fn requested_resolves(
    cats: Seq<Category>,
    requested: Seq<String>,
    id: i32,
) -> bool {
    exists|k: int|
        0 <= k < requested.len() && cat_id_of_name(cats, (#[trigger] requested[k])@, id)
}

impl Category {
    /// First category row carrying this name.
    pub fn find_by_category(cats: &Vec<Category>, name: &str) -> (r: Option<usize>)
        ensures
            r is None ==> !cats_have_name(cats@, name@),
            r matches Some(i) ==> 0 <= i < cats@.len() && cats@[i as int].category@ == name@,
    {
        let mut i: usize = 0;
        while i < cats.len()
            invariant
                0 <= i <= cats@.len(),
                forall|j: int| 0 <= j < i ==> (#[trigger] cats@[j]).category@ != name@,
            decreases cats@.len() - i,
        {
            if strutil::str_eq(cats[i].category.as_str(), name) {
                return Some(i);
            }
            i = i + 1;
        }
        None
    }

    /// The public view of this category.
    pub fn encodable(&self) -> (e: EncodableCategory)
        requires
            self.created_at.wf(),
        ensures
            e.id@ == self.category@,
            e.category@ == self.category@,
            e.created_at@ == time_repr(self.created_at),
            e.crates_cnt == self.crates_cnt,
    {
        EncodableCategory {
            id: self.category.clone(),
            category: self.category.clone(),
            created_at: datetime::encode_time(&self.created_at),
            crates_cnt: self.crates_cnt,
        }
    }

    /// Resolve the requested names to category identities, dropping
    /// unknown names.
    fn resolve_requested(cats: &Vec<Category>, requested: &Vec<String>) -> (resolved: Vec<i32>)
        requires
            forall|i: int, j: int|
                0 <= i < j < cats@.len() ==> (#[trigger] cats@[i]).category@ != (
                #[trigger] cats@[j]).category@,
        ensures
            forall|x: i32|
                ids_have(resolved@, x) <==> requested_resolves(cats@, requested@, x),
    {
        let mut resolved: Vec<i32> = Vec::new();
        let mut k: usize = 0;
        while k < requested.len()
            invariant
                0 <= k <= requested@.len(),
                forall|i: int, j: int|
                    0 <= i < j < cats@.len() ==> (#[trigger] cats@[i]).category@ != (
                    #[trigger] cats@[j]).category@,
                forall|x: i32|
                    crate::reconcile::ids_have(resolved@, x) <==> exists|j: int|
                        0 <= j < k && cat_id_of_name(cats@, (#[trigger] requested@[j])@, x),
            decreases requested@.len() - k,
        {
            match Category::find_by_category(cats, requested[k].as_str()) {
                Some(ci) => {
                    let ghost prev = resolved@;
                    let id = cats[ci].id;
                    proof {
                        assert(cat_id_of_name(cats@, requested@[k as int]@, id));
                    }
                    resolved.push(id);
                    proof {
                        assert(forall|w: int|
                            0 <= w < prev.len() ==> resolved@[w] == #[trigger] prev[w]);
                        assert(resolved@.last() == id);
                        assert forall|x: i32|
                            crate::reconcile::ids_have(resolved@, x) <==> exists|j: int|
                                0 <= j < k + 1 && cat_id_of_name(
                                    cats@,
                                    (#[trigger] requested@[j])@,
                                    x,
                                ) by {
                            if crate::reconcile::ids_have(resolved@, x) {
                                let w = choose|w: int|
                                    0 <= w < resolved@.len() && #[trigger] resolved@[w] == x;
                                if w < prev.len() {
                                    assert(crate::reconcile::ids_have(prev, x));
                                    let j = choose|j: int|
                                        0 <= j < k && cat_id_of_name(
                                            cats@,
                                            (#[trigger] requested@[j])@,
                                            x,
                                        );
                                    assert(cat_id_of_name(cats@, requested@[j]@, x));
                                } else {
                                    assert(x == id);
                                    assert(cat_id_of_name(cats@, requested@[k as int]@, x));
                                }
                            }
                            if exists|j: int|
                                0 <= j < k + 1 && cat_id_of_name(
                                    cats@,
                                    (#[trigger] requested@[j])@,
                                    x,
                                ) {
                                let j = choose|j: int|
                                    0 <= j < k + 1 && cat_id_of_name(
                                        cats@,
                                        (#[trigger] requested@[j])@,
                                        x,
                                    );
                                if j < k {
                                    assert(crate::reconcile::ids_have(prev, x));
                                    let w = choose|w: int|
                                        0 <= w < prev.len() && #[trigger] prev[w] == x;
                                    assert(resolved@[w] == x);
                                } else {
                                    if x == id {
                                        assert(resolved@.last() == x);
                                    } else {
                                        let ci2 = choose|ci2: int|
                                            0 <= ci2 < cats@.len() && (
                                            #[trigger] cats@[ci2]).category@
                                                == requested@[k as int]@ && cats@[ci2].id == x;
                                        if ci2 < ci {
                                            assert((cats@[ci2]).category@ != (
                                            cats@[ci as int]).category@);
                                        } else if ci < ci2 {
                                            assert((cats@[ci as int]).category@ != (
                                            cats@[ci2]).category@);
                                        }
                                        assert(false);
                                    }
                                }
                            }
                        }
                    }
                },
                None => {
                    proof {
                        assert forall|x: i32|
                            crate::reconcile::ids_have(resolved@, x) <==> exists|j: int|
                                0 <= j < k + 1 && cat_id_of_name(
                                    cats@,
                                    (#[trigger] requested@[j])@,
                                    x,
                                ) by {
                            if exists|j: int|
                                0 <= j < k + 1 && cat_id_of_name(
                                    cats@,
                                    (#[trigger] requested@[j])@,
                                    x,
                                ) {
                                let j = choose|j: int|
                                    0 <= j < k + 1 && cat_id_of_name(
                                        cats@,
                                        (#[trigger] requested@[j])@,
                                        x,
                                    );
                                if j == k {
                                    let ci2 = choose|ci2: int|
                                        0 <= ci2 < cats@.len() && (#[trigger] cats@[ci2]).category@
                                            == requested@[k as int]@ && cats@[ci2].id == x;
                                    assert(cats_have_name(cats@, requested@[k as int]@));
                                }
                            }
                        }
                    }
                },
            }
            k = k + 1;
        }
        proof {
            assert forall|x: i32|
                crate::reconcile::ids_have(resolved@, x) <==> requested_resolves(
                cats@,
                requested@,
                x,
            ) by {
                if crate::reconcile::ids_have(resolved@, x) {
                    let j = choose|j: int|
                        0 <= j < requested@.len() && cat_id_of_name(
                            cats@,
                            (#[trigger] requested@[j])@,
                            x,
                        );
                    assert(cat_id_of_name(cats@, requested@[j]@, x));
                }
                if requested_resolves(cats@, requested@, x) {
                    let j = choose|j: int|
                        0 <= j < requested@.len() && cat_id_of_name(
                            cats@,
                            (#[trigger] requested@[j])@,
                            x,
                        );
                    assert(cat_id_of_name(cats@, requested@[j]@, x));
                }
            }
        }
        resolved
    }

    /// Reconcile a package's category membership against a requested
    /// name list: requested names that are not known categories are
    /// silently dropped; the result is the minimal removal and addition
    /// lists of category identities, either possibly empty.
    pub fn update_crate(cats: &Vec<Category>, current: &Vec<i32>, requested: &Vec<String>) -> (r: (
        Vec<i32>,
        Vec<i32>,
    ))
        requires
            forall|i: int, j: int|
                0 <= i < j < cats@.len() ==> (#[trigger] cats@[i]).category@ != (
                #[trigger] cats@[j]).category@,
        ensures
            ids_unique(r.0@),
            ids_unique(r.1@),
            forall|x: i32| #![trigger ids_have(r.0@, x)]
                ids_have(r.0@, x) <==> ids_have(current@, x) && !requested_resolves(
                    cats@,
                    requested@,
                    x,
                ),
            forall|x: i32| #![trigger ids_have(r.1@, x)]
                ids_have(r.1@, x) <==> requested_resolves(cats@, requested@, x) && !ids_have(
                    current@,
                    x,
                ),
    {
        let resolved = Category::resolve_requested(cats, requested);
        let r = reconcile::reconcile(current, &resolved);
        proof {
            assert forall|x: i32| #![trigger ids_have(r.0@, x)]
                ids_have(r.0@, x) <==> ids_have(current@, x) && !requested_resolves(
                cats@,
                requested@,
                x,
            ) by {
                assert(ids_have(r.0@, x) <==> ids_have(current@, x) && !ids_have(resolved@, x));
                assert(ids_have(resolved@, x) <==> requested_resolves(cats@, requested@, x));
            }
            assert forall|x: i32| #![trigger ids_have(r.1@, x)]
                ids_have(r.1@, x) <==> requested_resolves(cats@, requested@, x) && !ids_have(
                current@,
                x,
            ) by {
                assert(ids_have(r.1@, x) <==> ids_have(resolved@, x) && !ids_have(current@, x));
                assert(ids_have(resolved@, x) <==> requested_resolves(cats@, requested@, x));
            }
        }
        r
    }
}

impl Category {
    /// One page of category views plus the total row count, as the
    /// listing route returns them; the datastore hands the rows over
    /// already ordered.
    pub fn index_views(cats: &Vec<Category>, offset: usize, limit: usize) -> (r: (
        Vec<EncodableCategory>,
        usize,
    ))
        requires
            forall|i: int| 0 <= i < cats@.len() ==> (#[trigger] cats@[i]).created_at.wf(),
        ensures
            r.1 == cats@.len(),
            r.0@.len() <= limit,
            offset >= cats@.len() ==> r.0@.len() == 0,
            offset < cats@.len() ==> r.0@.len() == vstd::math::min(
                limit as int,
                cats@.len() - offset,
            ),
            forall|k: int|
                0 <= k < r.0@.len() ==> (#[trigger] r.0@[k]).category@ == cats@[offset + k].category@
                    && r.0@[k].crates_cnt == cats@[offset + k].crates_cnt,
    {
        let total = cats.len();
        let mut page: Vec<EncodableCategory> = Vec::new();
        if offset >= total {
            return (page, total);
        }
        let mut i: usize = offset;
        while i < total && i - offset < limit
            invariant
                offset <= i <= total,
                total == cats@.len(),
                i - offset <= limit,
                page@.len() == i - offset,
                forall|j: int| 0 <= j < cats@.len() ==> (#[trigger] cats@[j]).created_at.wf(),
                forall|k: int|
                    0 <= k < page@.len() ==> (#[trigger] page@[k]).category@ == cats@[offset
                        + k].category@ && page@[k].crates_cnt == cats@[offset + k].crates_cnt,
            decreases total - i,
        {
            page.push(cats[i].encodable());
            i = i + 1;
        }
        (page, total)
    }
}

} // verus!

