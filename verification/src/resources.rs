//! Singleton resources: one value per kind, with dynamically checked
//! shared/exclusive borrowing.
//!
//! A resource lives from insertion to explicit removal. Insertion replaces
//! any previous value of the same kind. Reads and writes go through the same
//! acquire/release discipline as columns: shared views may pile up, an
//! exclusive view excludes everything else, and a conflicting request fails
//! with a distinguishable error.

use vstd::prelude::*;

use crate::table::Borrow;
use crate::value::{TypeTag, Value};

verus! {

/// One singleton resource: its kind, its borrow state and its value.
#[derive(Clone, Copy, Debug, PartialEq, Eq, Structural)]
pub struct ResourceSlot {
    /// The resource's kind; at most one slot per kind exists.
    pub ty: TypeTag,
    /// The dynamic borrow state of this resource.
    pub state: Borrow,
    /// The stored value, always of kind `ty`.
    pub value: Value,
}

/// The first position in `res` holding the kind `ty`, or -1 if none does.
pub open spec fn find_res(res: Seq<ResourceSlot>, ty: TypeTag) -> int
    decreases res.len(),
{
    if res.len() == 0 {
        -1
    } else if res[0].ty == ty {
        0
    } else {
        let r = find_res(res.drop_first(), ty);
        if r == -1 {
            -1
        } else {
            r + 1
        }
    }
}

/// What `find_res` returns: -1 exactly when no slot has the kind, and
/// otherwise the position of the first slot that does.
pub proof fn lemma_find_res(res: Seq<ResourceSlot>, ty: TypeTag)
    ensures
        find_res(res, ty) == -1 <==> (forall|k: int|
            0 <= k < res.len() ==> (#[trigger] res[k]).ty != ty),
        find_res(res, ty) != -1 ==> {
            &&& 0 <= find_res(res, ty) < res.len()
            &&& res[find_res(res, ty)].ty == ty
            &&& (forall|k: int| 0 <= k < find_res(res, ty) ==> (#[trigger] res[k]).ty != ty)
        },
    decreases res.len(),
{
    if res.len() == 0 {
    } else if res[0].ty == ty {
    } else {
        let rest = res.drop_first();
        lemma_find_res(rest, ty);
        assert forall|k: int| 1 <= k < res.len() implies res[k] == rest[k - 1] by {
            assert(rest[k - 1] == res.subrange(1, res.len() as int)[k - 1]);
        }
        let r = find_res(rest, ty);
        if r == -1 {
            assert forall|k: int| 0 <= k < res.len() implies (#[trigger] res[k]).ty != ty by {
                if k >= 1 {
                    assert(rest[k - 1].ty != ty);
                }
            }
        } else {
            assert(find_res(res, ty) == r + 1);
            assert(res[r + 1].ty == rest[r].ty);
            assert forall|k: int| 0 <= k < r + 1 implies (#[trigger] res[k]).ty != ty by {
                if k >= 1 {
                    assert(rest[k - 1].ty != ty);
                }
            }
        }
    }
}

/// The value of the resource of kind `ty`, if one is registered.
pub open spec fn res_lookup(res: Seq<ResourceSlot>, ty: TypeTag) -> Option<Value> {
    if find_res(res, ty) >= 0 {
        Some(res[find_res(res, ty)].value)
    } else {
        None
    }
}

/// Every slot's value has the slot's kind, borrow states are meaningful, and
/// no two slots share a kind.
pub open spec fn res_wf(res: Seq<ResourceSlot>) -> bool {
    &&& (forall|i: int| 0 <= i < res.len() ==> (#[trigger] res[i]).value.tag_spec() == res[i].ty)
    &&& (forall|i: int| 0 <= i < res.len() ==> (#[trigger] res[i]).state != Borrow::Shared(0usize))
    &&& (forall|i: int, j: int| 0 <= i < j < res.len() ==> res[i].ty != res[j].ty)
}

/// The slots after inserting `v`: the existing slot of `v`'s kind is
/// replaced, with its borrow state reset, or a fresh unborrowed slot is
/// appended.
pub open spec fn set_res(res: Seq<ResourceSlot>, v: Value) -> Seq<ResourceSlot> {
    let slot = ResourceSlot { ty: v.tag_spec(), state: Borrow::Free, value: v };
    if find_res(res, v.tag_spec()) >= 0 {
        res.update(find_res(res, v.tag_spec()), slot)
    } else {
        res.push(slot)
    }
}

/// The slots after removing the resource of kind `ty`, if one is registered.
pub open spec fn remove_res(res: Seq<ResourceSlot>, ty: TypeTag) -> Seq<ResourceSlot> {
    if find_res(res, ty) >= 0 {
        res.remove(find_res(res, ty))
    } else {
        res
    }
}

/// Inserting a value keeps the slots well formed and registers exactly that
/// value under its kind.
pub proof fn lemma_set_res(res: Seq<ResourceSlot>, v: Value)
    requires
        res_wf(res),
    ensures
        res_wf(set_res(res, v)),
        res_lookup(set_res(res, v), v.tag_spec()) == Some(v),
        forall|ty2: TypeTag|
            ty2 != v.tag_spec() ==> #[trigger] res_lookup(set_res(res, v), ty2) == res_lookup(
                res,
                ty2,
            ),
{
    let tag = v.tag_spec();
    let out = set_res(res, v);
    lemma_find_res(res, tag);
    let i = find_res(res, tag);
    if i >= 0 {
        assert forall|k1: int, k2: int| 0 <= k1 < k2 < out.len() implies out[k1].ty
            != out[k2].ty by {
            assert(res[k1].ty != res[k2].ty);
        }
        lemma_find_res(out, tag);
        assert(find_res(out, tag) == i) by {
            assert(out[i].ty == tag);
            assert forall|k: int| 0 <= k < i implies (#[trigger] out[k]).ty != tag by {
                assert(res[k].ty != tag);
            }
            lemma_find_res(out, tag);
            if find_res(out, tag) < i {
                assert(out[find_res(out, tag)].ty == tag);
            }
        }
    } else {
        assert forall|k1: int, k2: int| 0 <= k1 < k2 < out.len() implies out[k1].ty
            != out[k2].ty by {
            if k2 < res.len() {
                assert(res[k1].ty != res[k2].ty);
            } else {
                assert(res[k1].ty != tag);
            }
        }
        lemma_find_res(out, tag);
        assert(find_res(out, tag) == res.len()) by {
            assert(out[res.len() as int].ty == tag);
            assert forall|k: int| 0 <= k < res.len() implies (#[trigger] out[k]).ty != tag by {
                assert(res[k].ty != tag);
            }
            if find_res(out, tag) < res.len() {
                assert(out[find_res(out, tag)].ty == tag);
            }
        }
    }
    assert forall|ty2: TypeTag| ty2 != tag implies #[trigger] res_lookup(out, ty2) == res_lookup(
        res,
        ty2,
    ) by {
        lemma_find_res(res, ty2);
        lemma_find_res(out, ty2);
        let j0 = find_res(res, ty2);
        let j1 = find_res(out, ty2);
        if j0 == -1 {
            assert forall|k: int| 0 <= k < out.len() implies (#[trigger] out[k]).ty != ty2 by {
                if k < res.len() && (i < 0 || k != i) {
                    assert(res[k].ty != ty2);
                }
            }
        } else {
            assert(out[j0].ty == ty2);
            assert forall|k: int| 0 <= k < j0 implies (#[trigger] out[k]).ty != ty2 by {
                assert(res[k].ty != ty2);
            }
            if j1 < j0 {
                assert(out[j1].ty == ty2);
                assert(res[j1].ty != ty2);
            }
            assert(j1 == j0);
            assert(out[j1].value == res[j0].value);
        }
    }
}

/// Removing a kind keeps the slots well formed, deregisters that kind, and
/// leaves every other kind's value unchanged.
pub proof fn lemma_remove_res(res: Seq<ResourceSlot>, ty: TypeTag)
    requires
        res_wf(res),
    ensures
        res_wf(remove_res(res, ty)),
        res_lookup(remove_res(res, ty), ty) == None::<Value>,
        forall|ty2: TypeTag|
            ty2 != ty ==> #[trigger] res_lookup(remove_res(res, ty), ty2) == res_lookup(res, ty2),
{
    lemma_find_res(res, ty);
    let i = find_res(res, ty);
    let out = remove_res(res, ty);
    if i >= 0 {
        assert forall|k: int| 0 <= k < out.len() implies (#[trigger] out[k]).ty != ty by {
            if k < i {
                assert(out[k] == res[k]);
            } else {
                assert(out[k] == res[k + 1]);
            }
        }
        lemma_find_res(out, ty);
        assert forall|ty2: TypeTag| ty2 != ty implies #[trigger] res_lookup(out, ty2)
            == res_lookup(res, ty2) by {
            lemma_find_res(res, ty2);
            lemma_find_res(out, ty2);
            let j0 = find_res(res, ty2);
            let j1 = find_res(out, ty2);
            if j0 == -1 {
                assert forall|k: int| 0 <= k < out.len() implies (#[trigger] out[k]).ty != ty2 by {
                    if k < i {
                        assert(out[k] == res[k]);
                    } else {
                        assert(out[k] == res[k + 1]);
                    }
                }
            } else {
                if j0 < i {
                    assert(out[j0] == res[j0]);
                    assert forall|k: int| 0 <= k < j0 implies (#[trigger] out[k]).ty != ty2 by {
                        assert(out[k] == res[k]);
                    }
                    if j1 < j0 {
                        assert(out[j1] == res[j1]);
                    }
                    assert(j1 == j0);
                } else {
                    assert(j0 != i);
                    assert(out[j0 - 1] == res[j0]);
                    assert forall|k: int| 0 <= k < j0 - 1 implies (#[trigger] out[k]).ty
                        != ty2 by {
                        if k < i {
                            assert(out[k] == res[k]);
                        } else {
                            assert(out[k] == res[k + 1]);
                        }
                    }
                    if j1 < j0 - 1 {
                        if j1 < i {
                            assert(out[j1] == res[j1]);
                        } else {
                            assert(out[j1] == res[j1 + 1]);
                        }
                    }
                    assert(j1 == j0 - 1);
                    assert(out[j1].value == res[j0].value);
                }
            }
        }
    }
}

/// Changing one slot's borrow state, or its value to one of the slot's kind,
/// keeps the slots well formed.
pub proof fn lemma_res_wf_update(r0: Seq<ResourceSlot>, r1: Seq<ResourceSlot>, i: int)
    requires
        res_wf(r0),
        0 <= i < r0.len(),
        r1.len() == r0.len(),
        forall|j: int| 0 <= j < r0.len() && j != i ==> r1[j] == r0[j],
        r1[i].ty == r0[i].ty,
        r1[i].value.tag_spec() == r1[i].ty,
        r1[i].state != Borrow::Shared(0usize),
    ensures
        res_wf(r1),
{
    assert forall|k1: int, k2: int| 0 <= k1 < k2 < r1.len() implies r1[k1].ty != r1[k2].ty by {
        assert(r0[k1].ty != r0[k2].ty);
    }
}

/// The position of the first slot of kind `ty`, if one is registered.
pub fn find_slot(res: &Vec<ResourceSlot>, ty: TypeTag) -> (r: Option<usize>)
    ensures
        match r {
            Some(i) => i as int == find_res(res@, ty) && i < res@.len(),
            None => find_res(res@, ty) == -1,
        },
{
    let mut i: usize = 0;
    while i < res.len()
        invariant
            i <= res@.len(),
            forall|j: int| 0 <= j < i as int ==> (#[trigger] res@[j]).ty != ty,
        decreases res@.len() - i,
    {
        if res[i].ty == ty {
            proof {
                lemma_find_res(res@, ty);
            }
            return Some(i);
        }
        i += 1;
    }
    proof {
        lemma_find_res(res@, ty);
    }
    None
}

} // verus!
