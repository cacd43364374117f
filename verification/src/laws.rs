//! Laws of the assignment engine, stated and proved over its functional
//! model: repeating an assignment changes nothing more, and assigning over
//! an exclusive occupant displaces exactly that occupant.

use vstd::prelude::*;
use crate::business::{
    BusinessView, inv, assign_block_ok_spec, fix_displaced_fold, detach_swaps_fold,
    emp_with_assigned, role_with_occ, find_emp_idx, find_role_idx, lemma_find_emp_idx,
    lemma_find_role_idx,
};
use crate::role::OccView;
use crate::employee::emp_assign_fold;

verus! {

/// The assignment fold over one index, written out.
proof fn lemma_emp_assign_singleton(a: Seq<usize>, role: usize, i: usize)
    ensures
        emp_assign_fold(
            a,
            Seq::<usize>::empty(),
            Seq::<(usize, usize)>::empty(),
            role,
            seq![i],
        ) == (if i < a.len() && (a[i as int] == 1 || a[i as int] == 2) {
            (a.update(i as int, role), seq![i], Seq::<(usize, usize)>::empty())
        } else if i < a.len() && a[i as int] >= 3 && a[i as int] != role {
            (a.update(i as int, role), seq![i], seq![(a[i as int], i)])
        } else {
            (a, Seq::<usize>::empty(), Seq::<(usize, usize)>::empty())
        }),
{
    let idx = seq![i];
    assert(idx[0] == i);
    assert(idx.drop_first() =~= Seq::<usize>::empty());
    if i < a.len() {
        let v = a[i as int];
        if v >= 3 && v != role {
            assert(emp_assign_fold(
                a.update(i as int, role),
                Seq::<usize>::empty().push(i),
                Seq::<(usize, usize)>::empty().push((v, i)),
                role,
                idx.drop_first(),
            ) == (
                a.update(i as int, role),
                Seq::<usize>::empty().push(i),
                Seq::<(usize, usize)>::empty().push((v, i)),
            ));
            assert(Seq::<usize>::empty().push(i) =~= seq![i]);
            assert(Seq::<(usize, usize)>::empty().push((v, i)) =~= seq![(v, i)]);
        } else if v == 1 || v == 2 {
            assert(emp_assign_fold(
                a.update(i as int, role),
                Seq::<usize>::empty().push(i),
                Seq::<(usize, usize)>::empty(),
                role,
                idx.drop_first(),
            ) == (
                a.update(i as int, role),
                Seq::<usize>::empty().push(i),
                Seq::<(usize, usize)>::empty(),
            ));
            assert(Seq::<usize>::empty().push(i) =~= seq![i]);
        } else {
            assert(emp_assign_fold(
                a,
                Seq::<usize>::empty(),
                Seq::<(usize, usize)>::empty(),
                role,
                idx.drop_first(),
            ) == (a, Seq::<usize>::empty(), Seq::<(usize, usize)>::empty()));
        }
    } else {
        assert(emp_assign_fold(
            a,
            Seq::<usize>::empty(),
            Seq::<(usize, usize)>::empty(),
            role,
            idx.drop_first(),
        ) == (a, Seq::<usize>::empty(), Seq::<(usize, usize)>::empty()));
    }
}

/// The exclusive occupancy fold over one index, written out.
proof fn lemma_single_add_singleton(occ: Seq<usize>, emp: usize, i: usize)
    ensures
        crate::role::single_add_fold(occ, Seq::<(usize, usize)>::empty(), emp, seq![i]) == (
        occ.update(i as int, emp),
        if occ[i as int] > 0 {
            seq![(occ[i as int], i)]
        } else {
            Seq::<(usize, usize)>::empty()
        },
        ),
{
    let idx = seq![i];
    assert(idx[0] == i);
    assert(idx.drop_first() =~= Seq::<usize>::empty());
    let d = if occ[i as int] > 0 {
        Seq::<(usize, usize)>::empty().push((occ[i as int], i))
    } else {
        Seq::<(usize, usize)>::empty()
    };
    assert(crate::role::single_add_fold(occ.update(i as int, emp), d, emp, idx.drop_first()) == (
        occ.update(i as int, emp),
        d,
    ));
    if occ[i as int] > 0 {
        assert(d =~= seq![(occ[i as int], i)]);
    }
}

/// A status row that admits nothing for the role folds to itself: every
/// listed in-range slot already holds the role or is off the clock.
proof fn lemma_emp_assign_fold_noop(
    a: Seq<usize>,
    succ: Seq<usize>,
    swaps: Seq<(usize, usize)>,
    role: usize,
    idx: Seq<usize>,
)
    requires
        role >= 3,
        forall|p: int|
            0 <= p < idx.len() && (#[trigger] idx[p]) < a.len() ==> a[idx[p] as int] == role || a[
                idx[p] as int
            ] == 0,
    ensures
        emp_assign_fold(a, succ, swaps, role, idx) == (a, succ, swaps),
    decreases idx.len(),
{
    if idx.len() > 0 {
        assert forall|p: int|
            0 <= p < idx.drop_first().len() && (#[trigger] idx.drop_first()[p]) < a.len() implies
            a[idx.drop_first()[p] as int] == role || a[idx.drop_first()[p] as int] == 0 by {
            assert(idx.drop_first()[p] == idx[p + 1]);
        }
        lemma_emp_assign_fold_noop(a, succ, swaps, role, idx.drop_first());
        assert(idx[0] == idx[0]);
    }
}

/// A call whose every listed slot is already the role or off the clock
/// leaves the business unchanged and counts nothing, once the target
/// role's `empty` flag is already cleared.
proof fn lemma_assign_noop_call(
    b1: BusinessView,
    ke: int,
    kr: int,
    role_id: usize,
    ix: Seq<usize>,
)
    requires
        0 <= ke < b1.employees.len(),
        0 <= kr < b1.roles.len(),
        !b1.roles[kr].empty,
        role_id >= 3,
        forall|p: int|
            0 <= p < ix.len() && (#[trigger] ix[p]) < b1.employees[ke].assigned.len()
                ==> b1.employees[ke].assigned[ix[p] as int] == role_id || b1.employees[ke].assigned[
                ix[p] as int
            ] == 0,
    ensures
        assign_block_ok_spec(b1, ke, kr, role_id, ix).0 == b1,
        assign_block_ok_spec(b1, ke, kr, role_id, ix).1 == 0,
{
    let e = b1.employees[ke];
    lemma_emp_assign_fold_noop(
        e.assigned,
        Seq::<usize>::empty(),
        Seq::<(usize, usize)>::empty(),
        role_id,
        ix,
    );
    let f = emp_assign_fold(
        e.assigned,
        Seq::<usize>::empty(),
        Seq::<(usize, usize)>::empty(),
        role_id,
        ix,
    );
    assert(f == (e.assigned, Seq::<usize>::empty(), Seq::<(usize, usize)>::empty()));
    let r = b1.roles[kr];
    match r.occ {
        OccView::Single(o) => {
            assert(crate::role::single_add_fold(
                o,
                Seq::<(usize, usize)>::empty(),
                e.id,
                Seq::<usize>::empty(),
            ) == (o, Seq::<(usize, usize)>::empty()));
        },
        OccView::Multi(o) => {
            assert(crate::role::multi_add_fold(o, e.id, Seq::<usize>::empty()) == o);
        },
    }
    let out = assign_block_ok_spec(b1, ke, kr, role_id, ix);
    assert(emp_with_assigned(e, e.assigned) == e);
    assert(b1.employees.update(ke, e) =~= b1.employees);
    assert(role_with_occ(r, r.occ, false) == r) by {
        assert(!r.empty);
    }
    assert(b1.roles.update(kr, r) =~= b1.roles);
    assert(fix_displaced_fold(b1.employees, Seq::<(usize, usize)>::empty()) == b1.employees);
    assert(detach_swaps_fold(b1.roles, e.id, Seq::<(usize, usize)>::empty()) == b1.roles);
    assert(out.0 == b1);
}

/// Repeating an assignment over any index list with no intervening change
/// has no further effect: the second call leaves the business exactly as
/// the first left it and counts zero modified blocks. Stated for real
/// role ids (re-assigning the lunch role over a block already on lunch is
/// counted again by design) and for target slots the assigning employee
/// does not already occupy without claiming them.
pub proof fn lemma_assign_block_idempotent(
    b: BusinessView,
    ke: int,
    kr: int,
    role_id: usize,
    ix: Seq<usize>,
)
    requires
        inv(b),
        0 <= ke < b.employees.len(),
        0 <= kr < b.roles.len(),
        b.roles[kr].id == role_id,
        role_id != 2,
        b.roles[kr].occ is Single ==> forall|p: int|
            0 <= p < ix.len() && (#[trigger] ix[p]) < b.blocks && b.roles[kr].occ->Single_0[
                ix[p] as int
            ] == b.employees[ke].id ==> b.employees[ke].assigned[ix[p] as int] == role_id,
    ensures
        ({
            let first = assign_block_ok_spec(b, ke, kr, role_id, ix);
            let second = assign_block_ok_spec(first.0, ke, kr, role_id, ix);
            &&& second.0 == first.0
            &&& second.1 == 0
        }),
{
    let e = b.employees[ke];
    let a = e.assigned;
    assert(role_id >= 3) by {
        assert(b.roles[kr].id >= 2);
    }
    assert(a.len() == b.blocks);
    crate::employee::lemma_emp_assign_fold_props(
        a,
        Seq::<usize>::empty(),
        Seq::<(usize, usize)>::empty(),
        role_id,
        ix,
    );
    let f1 = emp_assign_fold(
        a,
        Seq::<usize>::empty(),
        Seq::<(usize, usize)>::empty(),
        role_id,
        ix,
    );
    let ns = f1.1.skip(0);
    assert(ns =~= f1.1);
    assert(f1.2.skip(0) =~= f1.2);
    let first = assign_block_ok_spec(b, ke, kr, role_id, ix);
    let b1 = first.0;
    let emid = b.employees.update(ke, emp_with_assigned(e, f1.0));
    // the first call's displacement repair never touches the assigning
    // employee: a displaced occupant of a newly successful slot carries
    // another id, by the stale-occupancy guard
    let disp = match b.roles[kr].occ {
        OccView::Single(o) => crate::role::single_add_fold(
            o,
            Seq::<(usize, usize)>::empty(),
            e.id,
            f1.1,
        ).1,
        OccView::Multi(_) => Seq::<(usize, usize)>::empty(),
    };
    assert forall|k1: int, k2: int|
        0 <= k1 < k2 < emid.len() implies (#[trigger] emid[k1]).id != (#[trigger] emid[k2]).id by {}
    crate::business::lemma_fix_displaced_props(emid, disp);
    match b.roles[kr].occ {
        OccView::Single(o) => {
            assert(f1.1.no_duplicates());
            assert(forall|p: int| 0 <= p < f1.1.len() ==> (#[trigger] f1.1[p]) < o.len());
            crate::role::lemma_single_add_fold_props(
                o,
                Seq::<(usize, usize)>::empty(),
                e.id,
                f1.1,
            );
            assert forall|p: int| 0 <= p < disp.len() implies (#[trigger] disp[p]).0
                != emid[ke].id by {
                let i = disp[p].1;
                assert(crate::role::has_idx(f1.1, i as int));
                let q = choose|q: int| 0 <= q < f1.1.len() && f1.1[q] == i;
                assert(a[i as int] == 1 || a[i as int] == 2 || (a[i as int] >= 3 && a[i as int]
                    != role_id));
                assert(o[i as int] == disp[p].0 && disp[p].0 > 0);
                if disp[p].0 == e.id {
                    assert(crate::role::has_idx(ix, i as int));
                    assert(i < b.blocks);
                    assert(a[i as int] == role_id);
                }
            }
            assert(b1.employees[ke] == emid[ke]);
        },
        OccView::Multi(_) => {
            assert(b1.employees[ke] == emid[ke]);
        },
    }
    assert(b1.employees[ke].assigned == f1.0);
    // after the first call every listed in-range slot holds the role or
    // lies off the clock, so the second call is a no-op
    assert forall|p: int|
        0 <= p < ix.len() && (#[trigger] ix[p]) < b1.employees[ke].assigned.len() implies
        b1.employees[ke].assigned[ix[p] as int] == role_id || b1.employees[ke].assigned[
        ix[p] as int
    ] == 0 by {
        let i = ix[p];
        assert(f1.0.len() == a.len());
        if crate::role::has_idx(ns, i as int) {
            assert(f1.0[i as int] == role_id);
        } else {
            assert(f1.0[i as int] == a[i as int]);
            if a[i as int] == 1 || a[i as int] == 2 || (a[i as int] >= 3 && a[i as int]
                != role_id) {
                assert(crate::role::has_idx(ns, i as int));
            }
        }
    }
    // positions, lengths and the cleared flag carry into the first result
    let rres_occ = match b.roles[kr].occ {
        OccView::Single(o) => OccView::Single(
            crate::role::single_add_fold(o, Seq::<(usize, usize)>::empty(), e.id, f1.1).0,
        ),
        OccView::Multi(o) => OccView::Multi(crate::role::multi_add_fold(o, e.id, f1.1)),
    };
    let rmid = b.roles.update(kr, role_with_occ(b.roles[kr], rres_occ, false));
    assert(!b1.roles[kr].empty && b1.roles.len() == b.roles.len()) by {
        match b.roles[kr].occ {
            OccView::Single(o) => {
                crate::role::lemma_single_add_fold_len(
                    o,
                    Seq::<(usize, usize)>::empty(),
                    e.id,
                    f1.1,
                );
            },
            OccView::Multi(o) => {
                crate::role::lemma_multi_add_fold_len(o, e.id, f1.1);
            },
        }
        assert forall|rk: int, p: int|
            0 <= rk < rmid.len() && 0 <= p < f1.2.len() implies (#[trigger] f1.2[p]).1 < (
        #[trigger] rmid[rk]).occ.len() by {
            assert(f1.2[p].1 < a.len());
            if rk != kr {
                assert(rmid[rk].occ.len() == b.blocks);
            }
        }
        crate::business::lemma_detach_swaps_props(rmid, e.id, f1.2);
        assert(b1.roles[kr].empty == rmid[kr].empty);
    }
    assert(b1.employees.len() == b.employees.len());
    lemma_assign_noop_call(b1, ke, kr, role_id, ix);
}

/// Assigning an employee to an exclusive role at a block another employee
/// holds displaces that occupant: their status at the block returns to
/// available and the occupancy slot now names the assigning employee. The
/// count is two: one successful index and one displacement.
pub proof fn lemma_displacement(
    b: BusinessView,
    ke: int,
    kr: int,
    ky: int,
    role_id: usize,
    i: usize,
)
    requires
        inv(b),
        0 <= ke < b.employees.len(),
        0 <= kr < b.roles.len(),
        0 <= ky < b.employees.len(),
        ky != ke,
        b.roles[kr].id == role_id,
        b.roles[kr].occ is Single,
        0 <= i < b.blocks,
        b.employees[ky].assigned[i as int] == role_id,
        b.roles[kr].occ->Single_0[i as int] == b.employees[ky].id,
        b.employees[ke].assigned[i as int] == 1 || b.employees[ke].assigned[i as int] == 2 || (
        b.employees[ke].assigned[i as int] >= 3 && b.employees[ke].assigned[i as int] != role_id),
    ensures
        ({
            let out = assign_block_ok_spec(b, ke, kr, role_id, seq![i]);
            &&& out.0.employees[ky].assigned[i as int] == 1
            &&& out.0.roles[kr].occ->Single_0[i as int] == b.employees[ke].id
            &&& out.0.employees[ke].assigned[i as int] == role_id
            &&& out.1 == 2
        }),
{
    let e = b.employees[ke];
    let y = b.employees[ky];
    let o = b.roles[kr].occ->Single_0;
    lemma_emp_assign_singleton(e.assigned, role_id, i);
    let f = emp_assign_fold(
        e.assigned,
        Seq::<usize>::empty(),
        Seq::<(usize, usize)>::empty(),
        role_id,
        seq![i],
    );
    assert(f.0 == e.assigned.update(i as int, role_id));
    assert(f.1 =~= seq![i]);
    lemma_single_add_singleton(o, e.id, i);
    assert(y.id >= 1);
    let disp = seq![(y.id, i)];
    let emid = b.employees.update(ke, emp_with_assigned(e, f.0));
    // the displaced employee is found at its own position
    assert(find_emp_idx(emid, y.id) == Some(ky)) by {
        assert(emid[ky] == y);
        assert forall|j: int| 0 <= j < ky implies (#[trigger] emid[j]).id != y.id by {
            if j == ke {
                assert(b.employees[ke].id != b.employees[ky].id) by {
                    if ke < ky {
                    } else {
                    }
                }
            } else {
                if j < ky {
                    assert(b.employees[j].id != b.employees[ky].id);
                }
            }
        }
        crate::business::lemma_find_emp_idx_at(emid, y.id, ky);
    }
    let yrow = crate::employee::emp_remove_fold(
        y.assigned,
        Seq::<(usize, usize)>::empty(),
        seq![i],
    );
    crate::business::lemma_emp_remove_singleton(y.assigned, i);
    assert(yrow.0 == y.assigned.update(i as int, 1usize)) by {
        assert(seq![i].drop_first() =~= Seq::<usize>::empty());
        assert(seq![i][0] == i);
        assert(y.assigned[i as int] != 0);
        let a2 = y.assigned.update(i as int, 1usize);
        let c2 = Seq::<(usize, usize)>::empty().push((y.assigned[i as int], i));
        assert(crate::employee::emp_remove_fold(a2, c2, seq![i].drop_first()) == (a2, c2));
    }
    let efixed = fix_displaced_fold(emid, disp);
    assert(efixed == emid.update(ky, emp_with_assigned(emid[ky], yrow.0))) by {
        assert(disp[0] == (y.id, i));
        assert(disp.drop_first() =~= Seq::<(usize, usize)>::empty());
        assert(emid[ky] == y);
        assert(fix_displaced_fold(
            emid.update(ky, emp_with_assigned(emid[ky], yrow.0)),
            disp.drop_first(),
        ) == emid.update(ky, emp_with_assigned(emid[ky], yrow.0)));
    }
    let out = assign_block_ok_spec(b, ke, kr, role_id, seq![i]);
    // the swap detachment touches only roles other than the target
    let swaps = f.2;
    assert(out.0.roles[kr].occ->Single_0[i as int] == e.id) by {
        lemma_detach_keeps_other(
            b.roles.update(kr, role_with_occ(b.roles[kr], OccView::Single(o.update(i as int, e.id)), false)),
            e.id,
            swaps,
            kr,
            role_id,
        );
    }
    assert(out.0.employees[ky].assigned[i as int] == 1);
    assert(out.0.employees[ke].assigned[i as int] == role_id) by {
        assert(efixed[ke] == emid[ke]);
    }
    assert(out.1 == 2) by {
        assert(f.1.len() == 1);
        assert(seq![(y.id, i)].len() == 1);
    }
}

/// Swap detachment never touches a role whose id none of the swaps name;
/// in particular the target role of the assignment, whose id no swap can
/// carry.
proof fn lemma_detach_keeps_other(
    roles: Seq<crate::role::RoleView>,
    emp_id: usize,
    swaps: Seq<(usize, usize)>,
    kr: int,
    role_id: usize,
)
    requires
        0 <= kr < roles.len(),
        roles[kr].id == role_id,
        forall|p: int| 0 <= p < swaps.len() ==> (#[trigger] swaps[p]).0 != role_id,
        forall|k1: int, k2: int|
            0 <= k1 < k2 < roles.len() ==> (#[trigger] roles[k1]).id != (#[trigger] roles[k2]).id,
    ensures
        detach_swaps_fold(roles, emp_id, swaps)[kr] == roles[kr],
    decreases swaps.len(),
{
    if swaps.len() > 0 {
        let rid = swaps[0].0;
        lemma_find_role_idx(roles, rid);
        let roles1 = match find_role_idx(roles, rid) {
            Some(k) => {
                let r = roles[k];
                let occ2 = match r.occ {
                    OccView::Single(o) => OccView::Single(
                        crate::role::single_remove_fold(o, seq![swaps[0].1]),
                    ),
                    OccView::Multi(o) => OccView::Multi(
                        crate::role::multi_remove_fold(o, emp_id, seq![swaps[0].1]),
                    ),
                };
                roles.update(k, role_with_occ(r, occ2, r.empty))
            },
            None => roles,
        };
        assert(roles1[kr] == roles[kr]) by {
            match find_role_idx(roles, rid) {
                Some(k) => {
                    assert(swaps[0].0 != role_id);
                    assert(k != kr);
                },
                None => {},
            }
        }
        assert forall|k1: int, k2: int|
            0 <= k1 < k2 < roles1.len() implies (#[trigger] roles1[k1]).id != (
        #[trigger] roles1[k2]).id by {
            assert(roles1[k1].id == roles[k1].id);
            assert(roles1[k2].id == roles[k2].id);
        }
        assert forall|p: int|
            0 <= p < swaps.drop_first().len() implies (#[trigger] swaps.drop_first()[p]).0
                != role_id by {
            assert(swaps.drop_first()[p] == swaps[p + 1]);
        }
        assert(roles1[kr].id == role_id);
        lemma_detach_keeps_other(roles1, emp_id, swaps.drop_first(), kr, role_id);
    }
}

} // verus!
