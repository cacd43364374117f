//! The two scheduling heuristics: midpoint lunch placement and greedy
//! round-robin role fill.

use vstd::prelude::*;
use crate::business::{
    Business, BusinessView, roles_view, emps_view, find_role_idx, lemma_find_role_idx,
    consistent_at, inv, clamp_clock_in, clamp_clock_out,
};
use crate::role::{Role, RoleView, OccView, multi_add_fold, has_idx};
use crate::employee::{EmployeeView, steps_until, fresh_pattern, emp_assign_fold};

verus! {

/// The state after a full grid reset with the business's own hours: the
/// grid recomputed, every occupancy blank, every employee clamped and
/// fresh.
pub open spec fn reset_spec(b: BusinessView) -> BusinessView {
    let blocks = steps_until(b.open.secs as int, b.close.secs as int, b.block_size as int);
    BusinessView {
        blocks,
        roles: Seq::new(
            b.roles.len(),
            |k: int|
                RoleView {
                    occ: (if b.roles[k].occ is Single {
                        OccView::Single(Seq::new(blocks, |i: int| 0usize))
                    } else {
                        OccView::Multi(Seq::new(blocks, |i: int| Seq::<usize>::empty()))
                    }),
                    ..b.roles[k]
                },
        ),
        employees: Seq::new(
            b.employees.len(),
            |k: int|
                {
                    let ci = clamp_clock_in(b.open, b.close, b.employees[k].clock_in);
                    let co = clamp_clock_out(b.open, b.close, b.employees[k].clock_out);
                    EmployeeView {
                        clock_in: ci,
                        clock_out: co,
                        assigned: fresh_pattern(
                            b.open.secs as int,
                            ci.secs as int,
                            co.secs as int,
                            b.close.secs as int,
                            b.block_size as int,
                        ),
                        ..b.employees[k]
                    }
                },
        ),
        ..b
    }
}

/// A grid reset is idempotent: resetting a freshly reset business gives
/// the same state again, clock clamps included, even when the business
/// hours form an empty window.
pub proof fn lemma_reset_idempotent(b: BusinessView)
    ensures
        reset_spec(reset_spec(b)) == reset_spec(b),
{
    let r1 = reset_spec(b);
    let r2 = reset_spec(r1);
    assert forall|k: int| 0 <= k < b.roles.len() implies r2.roles[k] == r1.roles[k] by {
        if r1.roles[k].occ is Single {
            assert(r2.roles[k].occ->Single_0 =~= r1.roles[k].occ->Single_0);
        } else {
            assert(r2.roles[k].occ->Multi_0 =~~= r1.roles[k].occ->Multi_0);
        }
    }
    assert forall|k: int| 0 <= k < b.employees.len() implies r2.employees[k]
        == r1.employees[k] by {
        crate::business::lemma_clamp_idempotent(
            b.open,
            b.close,
            b.employees[k].clock_in,
            b.employees[k].clock_out,
        );
    }
    assert(r2.roles =~= r1.roles);
    assert(r2.employees =~= r1.employees);
}

/// The shift midpoint an employee's lunch is anchored to.
pub open spec fn mid_time(e: EmployeeView) -> int {
    let ci = e.clock_in.secs as int;
    let co = e.clock_out.secs as int;
    if co >= ci {
        ci + (co - ci) / 2
    } else {
        ci - (ci - co) / 2
    }
}

/// The block index nearest the shift midpoint, counted in grid steps from
/// opening.
pub open spec fn anchor_index(b: BusinessView, e: EmployeeView) -> int {
    steps_until(b.open.secs as int, mid_time(e), b.block_size as int) as int
}

/// The `p`-th lunch block: even positions step outward above the anchor,
/// odd positions outward below it, clamped into `[0, blocks]` (an index of
/// `blocks` is out of range and is skipped downstream).
pub open spec fn lunch_index_at(anchor: int, blocks: int, p: int) -> int {
    if p % 2 == 0 {
        let cand = anchor + p / 2;
        if cand > blocks {
            blocks
        } else {
            cand
        }
    } else {
        let cand = anchor - (p + 1) / 2;
        if cand < 0 {
            0
        } else {
            cand
        }
    }
}

/// The lunch block list for one employee.
pub open spec fn lunch_indexes(anchor: int, blocks: int, lunch: nat) -> Seq<usize> {
    Seq::new(lunch, |p: int| lunch_index_at(anchor, blocks, p) as usize)
}

/// One lunch placement: the employee's row takes status 2 at the lunch
/// blocks (if qualified for the lunch role; otherwise the row is left
/// alone), and the lunch role's shared occupancy absorbs the same blocks
/// in either case.
pub open spec fn lunch_apply(b: BusinessView, kl: int, k: int) -> BusinessView {
    let e = b.employees[k];
    if k < 0 || k >= b.employees.len() || kl < 0 || kl >= b.roles.len() || !e.scheduled {
        b
    } else {
        let idxs = lunch_indexes(anchor_index(b, e), b.blocks as int, e.lunch as nat);
        let e2 = if e.roles.contains(2usize) {
            EmployeeView {
                assigned: emp_assign_fold(
                    e.assigned,
                    Seq::<usize>::empty(),
                    Seq::<(usize, usize)>::empty(),
                    2usize,
                    idxs,
                ).0,
                ..e
            }
        } else {
            e
        };
        let lr = b.roles[kl];
        let lr2 = RoleView {
            occ: OccView::Multi(multi_add_fold(lr.occ->Multi_0, e.id, idxs)),
            empty: false,
            ..lr
        };
        BusinessView {
            employees: b.employees.update(k, e2),
            roles: b.roles.update(kl, lr2),
            ..b
        }
    }
}

/// Lunch placement applied to every employee from `k` on, in table order.
pub open spec fn lunch_fold(b: BusinessView, kl: int, k: int) -> BusinessView
    decreases b.employees.len() - k,
{
    if k < 0 || k >= b.employees.len() {
        b
    } else {
        lunch_fold(lunch_apply(b, kl, k), kl, k + 1)
    }
}

/// One lunch placement keeps the invariant: fresh status-2 claims are
/// mirrored in the lunch occupancy, old claims keep their occupants.
pub proof fn lemma_lunch_apply_preserves_inv(b: BusinessView, kl: int, k: int)
    requires
        inv(b),
        0 <= kl < b.roles.len(),
        b.roles[kl].id == 2,
        b.roles[kl].occ is Multi,
        0 <= k < b.employees.len(),
    ensures
        ({
            let b2 = lunch_apply(b, kl, k);
            &&& inv(b2)
            &&& b2.employees.len() == b.employees.len()
            &&& b2.roles.len() == b.roles.len()
            &&& b2.roles[kl].id == 2
            &&& b2.roles[kl].occ is Multi
            &&& b2.blocks == b.blocks
        }),
{
    let e = b.employees[k];
    if e.scheduled {
        let idxs = lunch_indexes(anchor_index(b, e), b.blocks as int, e.lunch as nat);
        let f = emp_assign_fold(
            e.assigned,
            Seq::<usize>::empty(),
            Seq::<(usize, usize)>::empty(),
            2usize,
            idxs,
        );
        crate::employee::lemma_emp_assign_fold_props(
            e.assigned,
            Seq::<usize>::empty(),
            Seq::<(usize, usize)>::empty(),
            2usize,
            idxs,
        );
        let ns = f.1.skip(0);
        assert(ns =~= f.1);
        let lr = b.roles[kl];
        crate::role::lemma_multi_add_fold_props(lr.occ->Multi_0, e.id, idxs);
        let b2 = lunch_apply(b, kl, k);
        assert forall|k2: int, i: int|
            0 <= k2 < b2.employees.len() && 0 <= i < b2.blocks implies #[trigger] consistent_at(
            b2,
            k2,
            i,
        ) by {
            let v = b2.employees[k2].assigned[i];
            if v >= 2 {
                if k2 == k && e.roles.contains(2usize) && has_idx(ns, i) {
                    assert(v == 2);
                    assert(has_idx(idxs, i));
                    assert(b2.roles[kl].occ.occupies(i, e.id));
                    assert(b2.employees[k2].id == e.id);
                    assert(consistent_at(b2, k2, i));
                } else {
                    assert(v == b.employees[k2].assigned[i]);
                    assert(consistent_at(b, k2, i));
                    let rq = choose|rq: int|
                        0 <= rq < b.roles.len() && (#[trigger] b.roles[rq]).id == v && b.roles[rq].occ.occupies(i, b.employees[k2].id);
                    if rq == kl {
                        assert(b2.roles[kl].occ.occupies(i, b.employees[k2].id));
                    } else {
                        assert(b2.roles[rq].occ.occupies(i, b.employees[k2].id));
                    }
                    assert(b2.employees[k2].id == b.employees[k2].id);
                    assert(consistent_at(b2, k2, i));
                }
            }
        }
        assert(crate::business::role_id_taken(b2.roles, 2)) by {
            assert(b2.roles[kl].id == 2);
        }
        assert(inv(b2));
    }
}

impl Business {
    /// Performs a full destructive grid reset, then walks the employees in
    /// table order placing each scheduled employee's lunch around the block
    /// nearest their shift midpoint, alternating outward, and mirrors the
    /// blocks in the lunch role's shared occupancy.
    pub fn schedule_lunch(&mut self)
        requires
            old(self).wf(),
        ensures
            final(self).wf(),
            ({
                let reset = reset_spec(old(self)@);
                match find_role_idx(reset.roles, 2) {
                    Some(kl) => final(self)@ == lunch_fold(reset, kl, 0),
                    None => false,
                }
            }),
    {
        let ghost b0 = self@;
        let open = self.open;
        let close = self.close;
        let block_size = self.block_size;
        self.update_business_hours(open, close, block_size);
        proof {
            assert(self@.roles =~= reset_spec(b0).roles) by {
                assert forall|k: int| 0 <= k < b0.roles.len() implies self@.roles[k]
                    == reset_spec(b0).roles[k] by {
                    let r2 = self@.roles[k];
                    let rr = reset_spec(b0).roles[k];
                    assert(crate::role::same_meta_view(b0.roles[k], r2));
                    if r2.occ is Single {
                        assert forall|i: int|
                            0 <= i < self@.blocks implies r2.occ->Single_0[i] == 0 by {
                            assert(r2.occ.free(i));
                        }
                        assert(r2.occ->Single_0 =~= rr.occ->Single_0);
                        assert(r2.occ == rr.occ);
                    } else {
                        assert forall|i: int|
                            0 <= i < self@.blocks implies r2.occ->Multi_0[i]
                                =~= rr.occ->Multi_0[i] by {
                            assert(r2.occ.free(i));
                        }
                        assert(r2.occ->Multi_0 =~= rr.occ->Multi_0);
                        assert(r2.occ == rr.occ);
                    }
                    assert(r2.empty == rr.empty);
                }
            }
            assert(self@.employees =~= reset_spec(b0).employees);
            assert(self@ == reset_spec(b0));
        }
        let ghost reset = reset_spec(b0);
        let kl = match self.find_role(2) {
            Some(k) => k,
            None => {
                proof {
                    lemma_find_role_idx(self@.roles, 2);
                    let k2 = choose|q: int|
                        0 <= q < self@.roles.len() && (#[trigger] self@.roles[q]).id == 2;
                    assert(false);
                }
                return;
            },
        };
        proof {
            lemma_find_role_idx(reset.roles, 2);
        }
        let blocks = self.blocks;
        let mut k: usize = 0;
        while k < self.employees.len()
            invariant
                k <= self@.employees.len(),
                self@.employees.len() == reset.employees.len(),
                self@ == lunch_fold_partial(reset, kl as int, k as int),
                inv(self@),
                0 <= kl < self@.roles.len(),
                self@.roles[kl as int].id == 2,
                self@.roles[kl as int].occ is Multi,
                self@.blocks == reset.blocks,
                blocks == reset.blocks,
                self@.open == reset.open,
                self@.close == reset.close,
                self@.block_size == reset.block_size,
                inv(reset),
                find_role_idx(reset.roles, 2) == Some(kl as int),
            decreases self@.employees.len() - k,
        {
            let ghost pre = self@;
            let scheduled = self.employees[k].scheduled;
            if scheduled {
                let e_ci = self.employees[k].clock_in;
                let e_co = self.employees[k].clock_out;
                let mid: u32 = if e_co.secs >= e_ci.secs {
                    e_ci.secs + (e_co.secs - e_ci.secs) / 2
                } else {
                    e_ci.secs - (e_ci.secs - e_co.secs) / 2
                };
                proof {
                    assert(mid == mid_time(pre.employees[k as int]));
                }
                let mut curr: u32 = self.open.secs;
                let mut index: usize = 0;
                let ghost o = self@.open.secs as int;
                let ghost bs = self@.block_size as int;
                while curr < mid
                    invariant
                        1 <= bs <= 86400,
                        bs == self@.block_size as int,
                        mid < 86400,
                        o >= 0,
                        curr == o + index * bs,
                        curr <= 86400 + 86400,
                        index <= 86400 + 86400,
                        steps_until(o, mid as int, bs) == index + steps_until(
                            curr as int,
                            mid as int,
                            bs,
                        ),
                        self@ == pre,
                    decreases steps_until(curr as int, mid as int, bs),
                {
                    proof {
                        assert((index + 1) * bs == index * bs + bs) by (nonlinear_arith);
                        assert((index + 1) * bs >= index + 1) by (nonlinear_arith)
                            requires
                                bs >= 1,
                                index >= 0,
                        ;
                        crate::employee::lemma_steps_unfold(curr as int, mid as int, bs);
                    }
                    curr = curr + self.block_size;
                    index = index + 1;
                }
                proof {
                    assert(steps_until(curr as int, mid as int, bs) == 0);
                    assert(index == anchor_index(pre, pre.employees[k as int]));
                }
                proof {
                    crate::business::lemma_steps_bound(
                        reset.open.secs as int,
                        reset.close.secs as int,
                        reset.block_size as int,
                    );
                    assert(blocks <= 86400);
                }
                let lunch_len = self.employees[k].lunch;
                let mut lunch_vec: Vec<usize> = Vec::new();
                let mut p: usize = 0;
                let mut over: usize = 0;
                let mut under: usize = 1;
                while p < lunch_len
                    invariant
                        p <= lunch_len,
                        over == (p + 1) / 2,
                        under == p / 2 + 1,
                        index <= 86400 + 86400,
                        blocks <= 86400,
                        lunch_vec@.len() == p,
                        forall|q: int|
                            0 <= q < p ==> (#[trigger] lunch_vec@[q]) as int == lunch_index_at(
                                index as int,
                                blocks as int,
                                q,
                            ),
                        self@ == pre,
                    decreases lunch_len - p,
                {
                    if p % 2 == 0 {
                        let cand = index + over;
                        let v = if cand > blocks {
                            blocks
                        } else {
                            cand
                        };
                        lunch_vec.push(v);
                        over = over + 1;
                    } else {
                        let v = if under <= index {
                            index - under
                        } else {
                            0
                        };
                        lunch_vec.push(v);
                        under = under + 1;
                    }
                    p = p + 1;
                }
                proof {
                    assert(lunch_vec@ =~= lunch_indexes(
                        index as int,
                        blocks as int,
                        lunch_len as nat,
                    ));
                }
                let lunch_vec2 = crate::role::copy_usize_vec(&lunch_vec);
                let emp_id = self.employees[k].id;
                let _ = self.employees[k].assign_block(lunch_vec, 2);
                let _displaced = self.roles[kl].add_block(&emp_id, lunch_vec2);
                proof {
                    let e = pre.employees[k as int];
                    let idxs = lunch_indexes(anchor_index(pre, e), pre.blocks as int, e.lunch as nat);
                    assert(emps_view(self.employees) =~= pre.employees.update(
                        k as int,
                        self@.employees[k as int],
                    ));
                    assert(roles_view(self.roles) =~= pre.roles.update(
                        kl as int,
                        self@.roles[kl as int],
                    ));
                    assert(self@ == lunch_apply(pre, kl as int, k as int)) by {
                        let b2 = lunch_apply(pre, kl as int, k as int);
                        assert(self@.employees[k as int] == b2.employees[k as int]);
                        assert(self@.roles[kl as int] == b2.roles[kl as int]);
                        assert(self@.employees =~= b2.employees);
                        assert(self@.roles =~= b2.roles);
                    }
                    lemma_lunch_apply_preserves_inv(pre, kl as int, k as int);
                }
            } else {
                proof {
                    assert(self@ == lunch_apply(pre, kl as int, k as int));
                    lemma_lunch_apply_preserves_inv(pre, kl as int, k as int);
                }
            }
            proof {
                lemma_lunch_fold_partial_step(reset, kl as int, k as int);
            }
            k = k + 1;
        }
        proof {
            lemma_lunch_fold_partial_full(reset, kl as int);
        }
    }
}

/// Lunch placement applied to the employees before `k`, in table order.
pub open spec fn lunch_fold_partial(b: BusinessView, kl: int, k: int) -> BusinessView
    decreases k,
{
    if k <= 0 {
        b
    } else {
        lunch_apply(lunch_fold_partial(b, kl, k - 1), kl, k - 1)
    }
}

/// Extending the prefix by one employee applies one more placement.
pub proof fn lemma_lunch_fold_partial_step(b: BusinessView, kl: int, k: int)
    requires
        k >= 0,
    ensures
        lunch_fold_partial(b, kl, k + 1) == lunch_apply(lunch_fold_partial(b, kl, k), kl, k),
{
}

/// The whole prefix equals the fold over all employees.
pub proof fn lemma_lunch_fold_partial_full(b: BusinessView, kl: int)
    ensures
        lunch_fold_partial(b, kl, b.employees.len() as int) == lunch_fold(b, kl, 0),
{
    lemma_lunch_fold_shift(b, kl, 0);
}

/// The tail fold from `k` equals applying the prefix fold beyond `k`.
pub proof fn lemma_lunch_fold_shift(b: BusinessView, kl: int, k: int)
    requires
        0 <= k <= b.employees.len(),
    ensures
        lunch_fold(lunch_fold_partial(b, kl, k), kl, k) == lunch_fold_partial(
            b,
            kl,
            b.employees.len() as int,
        ),
    decreases b.employees.len() - k,
{
    let bk = lunch_fold_partial(b, kl, k);
    if k < b.employees.len() {
        assert(lunch_apply(bk, kl, k).employees.len() == b.employees.len()) by {
            lemma_lunch_apply_len_chain(b, kl, k);
            lemma_lunch_apply_len(bk, kl, k);
        }
        lemma_lunch_fold_shift_helper(b, kl, k);
        lemma_lunch_fold_shift(b, kl, k + 1);
    } else {
        assert(lunch_fold(bk, kl, k) == bk) by {
            lemma_lunch_apply_len_chain(b, kl, k);
        }
    }
}

/// One placement keeps the table sizes.
pub proof fn lemma_lunch_apply_len(b: BusinessView, kl: int, k: int)
    ensures
        lunch_apply(b, kl, k).employees.len() == b.employees.len(),
        lunch_apply(b, kl, k).roles.len() == b.roles.len(),
{
}

/// Any prefix of placements keeps the table sizes.
pub proof fn lemma_lunch_apply_len_chain(b: BusinessView, kl: int, k: int)
    requires
        k >= 0,
    ensures
        lunch_fold_partial(b, kl, k).employees.len() == b.employees.len(),
    decreases k,
{
    if k > 0 {
        lemma_lunch_apply_len_chain(b, kl, k - 1);
    }
}

/// The step case of the shift: prefix then apply equals the longer prefix.
pub proof fn lemma_lunch_fold_shift_helper(b: BusinessView, kl: int, k: int)
    requires
        0 <= k,
    ensures
        lunch_apply(lunch_fold_partial(b, kl, k), kl, k) == lunch_fold_partial(b, kl, k + 1),
{
}


/// How many consecutive blocks from `t` the employee can claim: the walk
/// stops at the first out-of-range or non-available slot, and after at most
/// `len` steps.
pub open spec fn area_count(a: Seq<usize>, t: int, len: nat) -> nat
    decreases len,
{
    if len == 0 {
        0
    } else if 0 <= t < a.len() && a[t] == 1 {
        1 + area_count(a, t + 1, (len - 1) as nat)
    } else {
        0
    }
}

/// The claimed area never runs past the row.
pub proof fn lemma_area_count_bound(a: Seq<usize>, t: int, len: nat)
    requires
        t >= 0,
    ensures
        t + area_count(a, t, len) <= a.len() || area_count(a, t, len) == 0,
        area_count(a, t, len) <= len,
    decreases len,
{
    if len > 0 && 0 <= t < a.len() && a[t] == 1 {
        lemma_area_count_bound(a, t + 1, (len - 1) as nat);
    }
}

/// A block inside the claimed area was available.
pub proof fn lemma_area_point(a: Seq<usize>, t: int, len: nat, j: int)
    requires
        t >= 0,
        t <= j < t + area_count(a, t, len),
    ensures
        0 <= j < a.len() && a[j] == 1,
    decreases j - t,
{
    if j > t {
        lemma_area_point(a, t + 1, (len - 1) as nat, j);
    }
}

impl crate::employee::Employee {
    /// Claims up to `preferred_length` consecutive blocks from `time_index`
    /// for the role: the walk stops at the first out-of-range or
    /// non-available slot, writing the role id into the employee's row and
    /// the employee into the role's occupancy directly, with no
    /// displacement handling and no rollback of earlier steps.
    pub fn assign_area(&mut self, role: &mut Role, time_index: usize, preferred_length: usize)
        requires
            old(role).occ_len() == old(self).assigned@.len(),
        ensures
            ({
                let c = area_count(old(self).assigned@, time_index as int, preferred_length as nat);
                let rid = old(role).spec_id();
                &&& final(self).assigned@.len() == old(self).assigned@.len()
                &&& forall|i: int|
                    0 <= i < old(self).assigned@.len() ==> (#[trigger] final(self).assigned@[i])
                        == (if time_index <= i < time_index + c {
                        rid
                    } else {
                        old(self).assigned@[i]
                    })
                &&& final(self).id == old(self).id
                &&& final(self).name == old(self).name
                &&& final(self).roles == old(self).roles
                &&& final(self).scheduled == old(self).scheduled
                &&& final(self).lunch == old(self).lunch
                &&& final(self).clock_in == old(self).clock_in
                &&& final(self).clock_out == old(self).clock_out
                &&& Role::same_meta(*old(role), *final(role))
                &&& final(role).occ_len() == old(role).occ_len()
                &&& (*old(role) is SingleRole ==> forall|i: int|
                    0 <= i < old(role).occ_len() ==> (#[trigger] final(role).single_occ()[i]) == (
                    if time_index <= i < time_index + c {
                        old(self).id
                    } else {
                        old(role).single_occ()[i]
                    }))
                &&& (*old(role) is MultiRole ==> forall|i: int, x: usize|
                    0 <= i < old(role).occ_len() ==> ((#[trigger] final(role).multi_occ()[i].contains(
                        x,
                    )) <==> (old(role).multi_occ()[i].contains(x) || (x == old(self).id
                        && time_index <= i < time_index + c))))
                &&& final(role).spec_is_empty() == (if c == 0 {
                    old(role).spec_is_empty()
                } else {
                    false
                })
            }),
    {
        let ghost a0 = self.assigned@;
        let ghost c = area_count(a0, time_index as int, preferred_length as nat);
        let ghost rid = role.spec_id();
        let n0 = self.assigned.len();
        proof {
            assert(a0.len() == n0);
            lemma_area_count_bound(a0, time_index as int, preferred_length as nat);
        }
        let my_id = self.id;
        let mut i: usize = 0;
        while i < preferred_length
            invariant
                i <= preferred_length,
                i <= c,
                a0.len() <= usize::MAX,
                a0 == old(self).assigned@,
                self.assigned@.len() == a0.len(),
                c == area_count(a0, time_index as int, preferred_length as nat),
                time_index + c <= a0.len() || c == 0,
                c <= preferred_length,
                area_count(a0, time_index as int, preferred_length as nat) == i + area_count(
                    a0,
                    time_index + i,
                    (preferred_length - i) as nat,
                ),
                my_id == old(self).id,
                rid == old(role).spec_id(),
                forall|j: int|
                    0 <= j < a0.len() ==> (#[trigger] self.assigned@[j]) == (if time_index <= j
                        < time_index + i {
                        rid
                    } else {
                        a0[j]
                    }),
                self.id == old(self).id,
                self.name == old(self).name,
                self.roles == old(self).roles,
                self.scheduled == old(self).scheduled,
                self.lunch == old(self).lunch,
                self.clock_in == old(self).clock_in,
                self.clock_out == old(self).clock_out,
                Role::same_meta(*old(role), *role),
                role.occ_len() == old(role).occ_len(),
                role.spec_is_empty() == (if i == 0 {
                    old(role).spec_is_empty()
                } else {
                    false
                }),
                old(role).occ_len() == a0.len(),
                *old(role) is SingleRole ==> forall|j: int|
                    0 <= j < a0.len() ==> (#[trigger] role.single_occ()[j]) == (if time_index <= j
                        < time_index + i {
                        my_id
                    } else {
                        old(role).single_occ()[j]
                    }),
                *old(role) is MultiRole ==> forall|j: int, x: usize|
                    0 <= j < a0.len() ==> ((#[trigger] role.multi_occ()[j].contains(x)) <==> (old(
                        role,
                    ).multi_occ()[j].contains(x) || (x == my_id && time_index <= j < time_index
                        + i))),
            decreases preferred_length - i,
        {
            let pos = match time_index.checked_add(i) {
                Some(p) => p,
                None => {
                    proof {
                        assert(!(0 <= time_index + i < a0.len()));
                        assert(area_count(a0, time_index + i, (preferred_length - i) as nat) == 0);
                        assert(i == c);
                    }
                    return ;
                },
            };
            if pos >= self.assigned.len() {
                proof {
                    assert(!(0 <= time_index + i < a0.len()));
                    assert(area_count(a0, time_index + i, (preferred_length - i) as nat) == 0);
                    assert(i == c);
                }
                return ;
            }
            let curr = self.assigned[pos];
            if curr != 1 {
                proof {
                    assert(self.assigned@[pos as int] == a0[pos as int]);
                    assert(a0[time_index + i] != 1);
                    assert(area_count(a0, time_index + i, (preferred_length - i) as nat) == 0);
                    assert(i == c);
                }
                return ;
            }
            proof {
                assert(a0[time_index + i] == 1);
                assert(area_count(a0, time_index + i, (preferred_length - i) as nat) == 1
                    + area_count(a0, time_index + i + 1, (preferred_length - i - 1) as nat));
            }
            let rid_exec = role.id();
            self.assigned[pos] = rid_exec;
            let mut one: Vec<usize> = Vec::new();
            one.push(pos);
            proof {
                assert(one@ =~= seq![pos]);
            }
            let ghost occ_pre_s = role.single_occ();
            let ghost occ_pre_m = role.multi_occ();
            let _displaced = role.add_block(&my_id, one);
            proof {
                if *old(role) is SingleRole {
                    assert(crate::role::single_add_fold(
                        occ_pre_s.update(pos as int, my_id),
                        (if occ_pre_s[pos as int] > 0 {
                            Seq::<(usize, usize)>::empty().push((occ_pre_s[pos as int], pos))
                        } else {
                            Seq::<(usize, usize)>::empty()
                        }),
                        my_id,
                        seq![pos].drop_first(),
                    ).0 == occ_pre_s.update(pos as int, my_id)) by {
                        assert(seq![pos].drop_first() =~= Seq::<usize>::empty());
                    }
                    assert(role.single_occ() == occ_pre_s.update(pos as int, my_id));
                } else {
                    crate::role::lemma_multi_add_fold_props(occ_pre_m, my_id, seq![pos]);
                    assert(has_idx(seq![pos], pos as int)) by {
                        assert(seq![pos][0] == pos);
                    }
                    assert forall|j: int, x: usize|
                        0 <= j < a0.len() implies ((#[trigger] role.multi_occ()[j].contains(x))
                            <==> (occ_pre_m[j].contains(x) || (x == my_id && j == pos))) by {
                        if j != pos {
                            assert(!has_idx(seq![pos], j)) by {
                                if has_idx(seq![pos], j) {
                                    let q = choose|q: int|
                                        0 <= q < seq![pos].len() && seq![pos][q] == j;
                                }
                            }
                        }
                    }
                }
            }
            i = i + 1;
        }
        proof {
            assert(area_count(a0, time_index + preferred_length, 0nat) == 0);
            assert(i == c);
        }
    }
}

/// Lunch placement never touches employee identities, qualifications,
/// scheduling flags or clocks, nor any table length or business field.
pub proof fn lemma_lunch_fold_meta(b: BusinessView, kl: int, k: int)
    ensures
        ({
            let lf = lunch_fold(b, kl, k);
            &&& lf.employees.len() == b.employees.len()
            &&& forall|q: int|
                0 <= q < b.employees.len() ==> ({
                    let e0 = b.employees[q];
                    let e2 = #[trigger] lf.employees[q];
                    &&& e2.id == e0.id
                    &&& e2.name == e0.name
                    &&& e2.roles == e0.roles
                    &&& e2.scheduled == e0.scheduled
                    &&& e2.lunch == e0.lunch
                    &&& e2.clock_in == e0.clock_in
                    &&& e2.clock_out == e0.clock_out
                })
            &&& lf.roles.len() == b.roles.len()
            &&& lf.open == b.open
            &&& lf.close == b.close
            &&& lf.blocks == b.blocks
            &&& lf.block_size == b.block_size
            &&& lf.role_colors == b.role_colors
        }),
    decreases b.employees.len() - k,
{
    if 0 <= k < b.employees.len() {
        lemma_lunch_apply_len(b, kl, k);
        lemma_lunch_fold_meta(lunch_apply(b, kl, k), kl, k + 1);
    }
}

/// Whether two business values agree everywhere except possibly on the
/// `empty` flag of the role at position `kl`.
pub open spec fn agree_but_flag(b1: BusinessView, b2: BusinessView, kl: int) -> bool {
    &&& b1.employees == b2.employees
    &&& b1.roles.len() == b2.roles.len()
    &&& forall|q: int| 0 <= q < b1.roles.len() && q != kl ==> b1.roles[q] == #[trigger] b2.roles[q]
    &&& 0 <= kl < b1.roles.len()
    &&& b1.roles[kl].id == b2.roles[kl].id
    &&& b1.roles[kl].sort == b2.roles[kl].sort
    &&& b1.roles[kl].name == b2.roles[kl].name
    &&& b1.roles[kl].color == b2.roles[kl].color
    &&& b1.roles[kl].occ == b2.roles[kl].occ
    &&& b1.open == b2.open
    &&& b1.close == b2.close
    &&& b1.blocks == b2.blocks
    &&& b1.block_size == b2.block_size
    &&& b1.role_colors == b2.role_colors
}

/// Lunch placement cannot tell two states apart that differ only in the
/// lunch role's informational `empty` flag, and placing any scheduled
/// employee's lunch makes the two results exactly equal.
pub proof fn lemma_lunch_fold_congruence(b1: BusinessView, b2: BusinessView, kl: int, k: int)
    requires
        agree_but_flag(b1, b2, kl),
        0 <= k,
    ensures
        agree_but_flag(lunch_fold(b1, kl, k), lunch_fold(b2, kl, k), kl),
        (exists|q: int| k <= q < b1.employees.len() && (#[trigger] b1.employees[q]).scheduled)
            ==> lunch_fold(b1, kl, k) == lunch_fold(b2, kl, k),
    decreases b1.employees.len() - k,
{
    if k < 0 || k >= b1.employees.len() {
    } else {
        let a1 = lunch_apply(b1, kl, k);
        let a2 = lunch_apply(b2, kl, k);
        if b1.employees[k].scheduled {
            assert(a1 == a2) by {
                let e = b1.employees[k];
                let idxs1 = lunch_indexes(anchor_index(b1, e), b1.blocks as int, e.lunch as nat);
                let idxs2 = lunch_indexes(anchor_index(b2, e), b2.blocks as int, e.lunch as nat);
                assert(idxs1 == idxs2);
                assert(a1.roles =~= a2.roles);
                assert(a1.employees =~= a2.employees);
            }
            assert(agree_but_flag(a1, a1, kl)) by {
                lemma_lunch_apply_len(b1, kl, k);
            }
            lemma_lunch_fold_congruence(a1, a1, kl, k + 1);
            assert(lunch_fold(b1, kl, k) == lunch_fold(a1, kl, k + 1));
            assert(lunch_fold(b2, kl, k) == lunch_fold(a2, kl, k + 1));
            assert(lunch_fold(b1, kl, k) == lunch_fold(b2, kl, k));
            assert(agree_but_flag(lunch_fold(b1, kl, k), lunch_fold(b2, kl, k), kl));
        } else {
            assert(a1 == b1 && a2 == b2);
            lemma_lunch_fold_congruence(b1, b2, kl, k + 1);
            assert(lunch_fold(b1, kl, k) == lunch_fold(b1, kl, k + 1));
            assert(lunch_fold(b2, kl, k) == lunch_fold(b2, kl, k + 1));
            assert forall|q: int|
                k <= q < b1.employees.len() && (#[trigger] b1.employees[q]).scheduled implies
                lunch_fold(b1, kl, k) == lunch_fold(b2, kl, k) by {
                assert(k + 1 <= q < b1.employees.len() && b1.employees[q].scheduled);
            }
        }
    }
}

/// Running the lunch automation twice in a row leaves the business exactly
/// as one run left it: the reset reproduces itself (the clock clamps are
/// idempotent), and the placements, which depend only on the clocks, the
/// grid and the wiped occupancies, come out the same; the lunch role's
/// `empty` flag, cleared by any placement, stays cleared.
pub proof fn lemma_schedule_lunch_idempotent(b: BusinessView, kl: int)
    requires
        inv(b),
        0 <= kl < b.roles.len(),
        b.roles[kl].occ is Multi,
    ensures
        ({
            let s1 = lunch_fold(reset_spec(b), kl, 0);
            lunch_fold(reset_spec(s1), kl, 0) == s1
        }),
{
    let r1 = reset_spec(b);
    let s1 = lunch_fold(r1, kl, 0);
    lemma_lunch_fold_meta(r1, kl, 0);
    lemma_reset_idempotent(b);
    let r2 = reset_spec(s1);
    // the second reset reproduces the first, except possibly the lunch
    // role's flag, which placements may have cleared
    assert(r2.employees =~= r1.employees) by {
        assert forall|q: int| 0 <= q < b.employees.len() implies r2.employees[q]
            == reset_spec(r1).employees[q] by {
            assert(s1.employees[q].clock_in == r1.employees[q].clock_in);
            assert(s1.employees[q].clock_out == r1.employees[q].clock_out);
        }
        assert(reset_spec(r1).employees =~= r1.employees);
    }
    assert(agree_but_flag(r2, r1, kl)) by {
        lemma_lunch_roles_meta(r1, kl, 0);
        assert forall|q: int| 0 <= q < b.roles.len() && q != kl implies r2.roles[q] == (
        #[trigger] r1.roles[q]) by {
            assert(s1.roles[q] == r1.roles[q]);
            assert(r2.roles[q] == reset_spec(r1).roles[q]);
            assert(reset_spec(r1).roles[q] == r1.roles[q]);
        }
        assert(r2.roles[kl].occ == r1.roles[kl].occ) by {
            assert(r1.roles[kl].occ is Multi);
            assert(s1.roles[kl].occ is Multi);
            assert(s1.blocks == b.blocks);
        }
    }
    lemma_lunch_fold_congruence(r2, r1, kl, 0);
    let s2 = lunch_fold(r2, kl, 0);
    if exists|q: int| 0 <= q < r1.employees.len() && (#[trigger] r1.employees[q]).scheduled {
        assert(s2 == s1);
    } else {
        // nothing was placed: both runs are bare resets
        assert(s1 == r1) by {
            lemma_lunch_fold_no_scheduled(r1, kl, 0);
        }
        assert(r2 == reset_spec(r1));
        assert(reset_spec(r1) == r1);
        assert(s2 == r2) by {
            lemma_lunch_fold_no_scheduled(r2, kl, 0);
        }
    }
}

/// Lunch placement keeps every role's identity, key, name, color, variant
/// and occupancy length; only the lunch role's occupancy and flag move.
pub proof fn lemma_lunch_roles_meta(b: BusinessView, kl: int, k: int)
    ensures
        ({
            let lf = lunch_fold(b, kl, k);
            &&& lf.roles.len() == b.roles.len()
            &&& forall|q: int|
                0 <= q < b.roles.len() && q != kl ==> (#[trigger] lf.roles[q]) == b.roles[q]
            &&& (0 <= kl < b.roles.len() ==> ({
                &&& lf.roles[kl].id == b.roles[kl].id
                &&& lf.roles[kl].sort == b.roles[kl].sort
                &&& lf.roles[kl].name == b.roles[kl].name
                &&& lf.roles[kl].color == b.roles[kl].color
                &&& (b.roles[kl].occ is Multi ==> lf.roles[kl].occ is Multi)
            }))
        }),
    decreases b.employees.len() - k,
{
    if 0 <= k < b.employees.len() {
        lemma_lunch_apply_len(b, kl, k);
        lemma_lunch_roles_meta(lunch_apply(b, kl, k), kl, k + 1);
    }
}

/// With no scheduled employee the lunch placement does nothing.
pub proof fn lemma_lunch_fold_no_scheduled(b: BusinessView, kl: int, k: int)
    requires
        forall|q: int| 0 <= q < b.employees.len() ==> !(#[trigger] b.employees[q]).scheduled,
    ensures
        lunch_fold(b, kl, k) == b,
    decreases b.employees.len() - k,
{
    if 0 <= k < b.employees.len() {
        assert(lunch_apply(b, kl, k) == b);
        lemma_lunch_fold_no_scheduled(b, kl, k + 1);
    }
}

/// Whether role `a` orders at or before role `b` under the ascending
/// `(sort, name, id)` key.
pub open spec fn role_le_spec(a: RoleView, b: RoleView) -> bool {
    ||| a.sort < b.sort
    ||| (a.sort == b.sort && crate::employee::lex_ord(a.name, b.name) is Less)
    ||| (a.sort == b.sort && crate::employee::lex_ord(a.name, b.name) is Equal && a.id <= b.id)
}

/// Insertion of a table position into an ordered position list: it lands
/// after every position whose role orders at or before its own.
pub open spec fn insert_role_pos(s: Seq<usize>, roles: Seq<RoleView>, x: usize) -> Seq<usize>
    decreases s.len(),
{
    if s.len() == 0 {
        seq![x]
    } else if role_le_spec(roles[s[0] as int], roles[x as int]) {
        seq![s[0]] + insert_role_pos(s.drop_first(), roles, x)
    } else {
        seq![x] + s
    }
}

/// The first `k` table positions, insertion-sorted ascending by
/// `(sort, name, id)`.
pub open spec fn role_order_spec(roles: Seq<RoleView>, k: int) -> Seq<usize>
    decreases k,
{
    if k <= 0 {
        Seq::empty()
    } else {
        insert_role_pos(role_order_spec(roles, k - 1), roles, (k - 1) as usize)
    }
}

/// Inserting at the first position whose role does not order at or before
/// the new one lands exactly there.
proof fn lemma_insert_role_at(s: Seq<usize>, roles: Seq<RoleView>, x: usize, pos: int)
    requires
        0 <= pos <= s.len(),
        forall|q: int|
            0 <= q < pos ==> role_le_spec(roles[(#[trigger] s[q]) as int], roles[x as int]),
        pos < s.len() ==> !role_le_spec(roles[s[pos] as int], roles[x as int]),
    ensures
        insert_role_pos(s, roles, x) == s.take(pos) + seq![x] + s.skip(pos),
    decreases s.len(),
{
    if s.len() == 0 {
        assert(insert_role_pos(s, roles, x) =~= s.take(0) + seq![x] + s.skip(0));
    } else if pos == 0 {
        assert(!role_le_spec(roles[s[0] as int], roles[x as int]));
        assert(seq![x] + s =~= s.take(0) + seq![x] + s.skip(0));
    } else {
        assert(role_le_spec(roles[s[0] as int], roles[x as int]));
        assert forall|q: int|
            0 <= q < pos - 1 implies role_le_spec(
                roles[(#[trigger] s.drop_first()[q]) as int],
                roles[x as int],
            ) by {
            assert(s.drop_first()[q] == s[q + 1]);
        }
        if pos - 1 < s.drop_first().len() {
            assert(s.drop_first()[pos - 1] == s[pos]);
        }
        lemma_insert_role_at(s.drop_first(), roles, x, pos - 1);
        assert(insert_role_pos(s, roles, x) == seq![s[0]] + insert_role_pos(
            s.drop_first(),
            roles,
            x,
        ));
        assert(seq![s[0]] + (s.drop_first().take(pos - 1) + seq![x] + s.drop_first().skip(pos - 1))
            =~= s.take(pos) + seq![x] + s.skip(pos));
    }
}

/// The table positions of the scheduled employees among the first `k`, in
/// table order.
pub open spec fn scheduled_positions(emps: Seq<EmployeeView>, k: int) -> Seq<usize>
    decreases k,
{
    if k <= 0 {
        Seq::empty()
    } else if emps[k - 1].scheduled {
        scheduled_positions(emps, k - 1) + seq![(k - 1) as usize]
    } else {
        scheduled_positions(emps, k - 1)
    }
}

/// One area claim on an exclusive role, as the fill performs it: the
/// employee's row and the role's occupancy take the claimed span, and a
/// non-empty claim clears the role's `empty` flag.
pub open spec fn area_apply(b: BusinessView, ke: int, kr: int, t: usize, shift: usize) -> BusinessView {
    let e = b.employees[ke];
    let r = b.roles[kr];
    let c = area_count(e.assigned, t as int, shift as nat);
    let e2 = EmployeeView {
        assigned: Seq::new(
            e.assigned.len(),
            |i: int|
                if t <= i < t + c {
                    r.id
                } else {
                    e.assigned[i]
                },
        ),
        ..e
    };
    let occ2 = Seq::new(
        r.occ->Single_0.len(),
        |i: int|
            if t <= i < t + c {
                e.id
            } else {
                r.occ->Single_0[i]
            },
    );
    let r2 = RoleView {
        occ: OccView::Single(occ2),
        empty: (if c == 0 {
            r.empty
        } else {
            false
        }),
        ..r
    };
    BusinessView { employees: b.employees.update(ke, e2), roles: b.roles.update(kr, r2), ..b }
}

/// One round of candidate attempts for a free block: the cursor wraps when
/// it runs off the list and advances once per candidate looked at; the
/// first candidate both qualified for the role and available at the block
/// claims an area there and ends the round, and a full rotation without a
/// match leaves the block unfilled.
pub open spec fn try_candidates(
    b: BusinessView,
    emp_pos: Seq<usize>,
    cursor: nat,
    attempts: nat,
    kr: int,
    t: usize,
    shift: usize,
) -> (BusinessView, nat)
    decreases attempts,
{
    if attempts == 0 {
        (b, cursor)
    } else {
        let cur = if cursor >= emp_pos.len() {
            0
        } else {
            cursor as int
        };
        let ke = emp_pos[cur] as int;
        let e = b.employees[ke];
        let rid = b.roles[kr].id;
        if e.roles.contains(rid) && t < e.assigned.len() && e.assigned[t as int] == 1 {
            (area_apply(b, ke, kr, t, shift), (cur + 1) as nat)
        } else {
            try_candidates(b, emp_pos, (cur + 1) as nat, (attempts - 1) as nat, kr, t, shift)
        }
    }
}

/// The fill of one exclusive role, block by block from `t`: every block
/// whose occupancy slot is free is offered to one full rotation of
/// candidates; the shared cursor carries across blocks.
pub open spec fn fill_blocks(
    b: BusinessView,
    emp_pos: Seq<usize>,
    cursor: nat,
    kr: int,
    t: int,
    blocks_len: int,
    shift: usize,
) -> (BusinessView, nat)
    decreases blocks_len - t,
{
    if t < 0 || t >= blocks_len {
        (b, cursor)
    } else if b.roles[kr].occ->Single_0[t] == 0 {
        let p = try_candidates(b, emp_pos, cursor, emp_pos.len(), kr, t as usize, shift);
        fill_blocks(p.0, emp_pos, p.1, kr, t + 1, blocks_len, shift)
    } else {
        fill_blocks(b, emp_pos, cursor, kr, t + 1, blocks_len, shift)
    }
}

/// The whole fill, role by role in the given order: shared roles are
/// skipped, exclusive roles are filled with the cursor carried across the
/// entire run.
pub open spec fn fill_roles(
    b: BusinessView,
    emp_pos: Seq<usize>,
    cursor: nat,
    order: Seq<usize>,
    oi: int,
    shift: usize,
) -> (BusinessView, nat)
    decreases order.len() - oi,
{
    if oi < 0 || oi >= order.len() {
        (b, cursor)
    } else {
        let kr = order[oi] as int;
        if b.roles[kr].occ is Multi {
            fill_roles(b, emp_pos, cursor, order, oi + 1, shift)
        } else {
            let p = fill_blocks(
                b,
                emp_pos,
                cursor,
                kr,
                0,
                b.roles[kr].occ.len() as int,
                shift,
            );
            fill_roles(p.0, emp_pos, p.1, order, oi + 1, shift)
        }
    }
}

/// What `schedule_roles` does: the scheduled employees' table positions in
/// table order, the roles in ascending `(sort, name, id)` order, one
/// shared round-robin cursor, and one full rotation of candidates per free
/// exclusive block.
pub open spec fn schedule_roles_spec(b: BusinessView, shift: usize) -> BusinessView {
    fill_roles(
        b,
        scheduled_positions(b.employees, b.employees.len() as int),
        0,
        role_order_spec(b.roles, b.roles.len() as int),
        0,
        shift,
    ).0
}

impl Business {
    /// Greedy round-robin role fill: walks the exclusive roles in ascending
    /// `(sort, name, id)` order and offers each free block to the employees
    /// in turn, one shared cursor across the whole run; a matching candidate
    /// (qualified and available at that block) claims an area of up to
    /// `shift_length` blocks. Scheduled employees only; shared roles are
    /// never auto-filled. Unfilled blocks stay free. The full behaviour is
    /// fixed by `schedule_roles_spec`. The claimed areas write the occupancy
    /// directly, so a block of the area beyond the first that an exclusive
    /// role already held is taken over without releasing its previous
    /// occupant; for that reason this operation, alone in the engine, does
    /// not re-establish the consistency invariant — the corollary clauses
    /// below say what still holds: shared occupancies, identities, clocks
    /// and qualifications are untouched, and an employee's slot changes
    /// only from available to a role they are qualified for.
    pub fn schedule_roles(&mut self, shift_length: usize)
        requires
            old(self).wf(),
        ensures
            final(self)@ == schedule_roles_spec(old(self)@, shift_length),
            final(self)@.employees.len() == old(self)@.employees.len(),
            forall|k: int|
                0 <= k < old(self)@.employees.len() ==> ({
                    let e0 = old(self)@.employees[k];
                    let e2 = #[trigger] final(self)@.employees[k];
                    &&& e2.id == e0.id
                    &&& e2.name == e0.name
                    &&& e2.roles == e0.roles
                    &&& e2.scheduled == e0.scheduled
                    &&& e2.lunch == e0.lunch
                    &&& e2.clock_in == e0.clock_in
                    &&& e2.clock_out == e0.clock_out
                    &&& e2.assigned.len() == e0.assigned.len()
                    &&& (!e0.scheduled ==> e2.assigned == e0.assigned)
                    &&& forall|i: int|
                        0 <= i < e0.assigned.len() && (#[trigger] e2.assigned[i]) != e0.assigned[i]
                            ==> e0.assigned[i] == 1 && e0.roles.contains(e2.assigned[i])
                }),
            final(self)@.roles.len() == old(self)@.roles.len(),
            forall|k: int|
                0 <= k < old(self)@.roles.len() ==> ({
                    let r0 = old(self)@.roles[k];
                    let r2 = #[trigger] final(self)@.roles[k];
                    &&& crate::role::same_meta_view(r0, r2)
                    &&& r2.occ.len() == r0.occ.len()
                    &&& (r0.occ is Multi ==> r2.occ == r0.occ)
                }),
            final(self)@.open == old(self)@.open,
            final(self)@.close == old(self)@.close,
            final(self)@.blocks == old(self)@.blocks,
            final(self)@.block_size == old(self)@.block_size,
            final(self)@.role_colors == old(self)@.role_colors,
    {
        let ghost b0 = self@;
        // collect the scheduled employees' table positions, in table order
        let mut emp_pos: Vec<usize> = Vec::new();
        let mut k: usize = 0;
        while k < self.employees.len()
            invariant
                k <= self.employees@.len(),
                self@ == b0,
                emp_pos@ == scheduled_positions(b0.employees, k as int),
                forall|p: int|
                    0 <= p < emp_pos@.len() ==> (#[trigger] emp_pos@[p]) < b0.employees.len()
                        && b0.employees[emp_pos@[p] as int].scheduled,
            decreases self.employees@.len() - k,
        {
            if self.employees[k].scheduled {
                emp_pos.push(k);
            }
            k = k + 1;
        }
        // collect the role positions sorted ascending by (sort, name, id)
        let role_order = sorted_role_positions(&self.roles);
        let mut curr_employee: usize = 0;
        let mut ri: usize = 0;
        proof {
            assert(role_order@ == role_order_spec(b0.roles, b0.roles.len() as int));
            assert(emp_pos@ == scheduled_positions(b0.employees, b0.employees.len() as int));
        }
        while ri < role_order.len()
            invariant
                inv(b0),
                ri <= role_order@.len(),
                forall|p: int|
                    0 <= p < role_order@.len() ==> (#[trigger] role_order@[p]) < b0.roles.len(),
                fill_roles(b0, emp_pos@, 0nat, role_order@, 0, shift_length) == fill_roles(
                    self@,
                    emp_pos@,
                    curr_employee as nat,
                    role_order@,
                    ri as int,
                    shift_length,
                ),
                emps_view(self.employees).len() == b0.employees.len(),
                forall|q: int|
                    0 <= q < b0.employees.len() ==> ({
                        let e0 = b0.employees[q];
                        let e2 = #[trigger] emps_view(self.employees)[q];
                        &&& e2.id == e0.id
                        &&& e2.name == e0.name
                        &&& e2.roles == e0.roles
                        &&& e2.scheduled == e0.scheduled
                        &&& e2.lunch == e0.lunch
                        &&& e2.clock_in == e0.clock_in
                        &&& e2.clock_out == e0.clock_out
                        &&& e2.assigned.len() == e0.assigned.len()
                        &&& (!e0.scheduled ==> e2.assigned == e0.assigned)
                        &&& forall|i: int|
                            0 <= i < e0.assigned.len() && (#[trigger] e2.assigned[i])
                                != e0.assigned[i] ==> e0.assigned[i] == 1 && e0.roles.contains(
                                e2.assigned[i],
                            )
                    }),
                roles_view(self.roles).len() == b0.roles.len(),
                forall|q: int|
                    0 <= q < b0.roles.len() ==> ({
                        let r0 = b0.roles[q];
                        let r2 = #[trigger] roles_view(self.roles)[q];
                        &&& crate::role::same_meta_view(r0, r2)
                        &&& r2.occ.len() == r0.occ.len()
                        &&& (r0.occ is Multi ==> r2.occ == r0.occ)
                    }),
                forall|p: int|
                    0 <= p < emp_pos@.len() ==> (#[trigger] emp_pos@[p]) < b0.employees.len()
                        && b0.employees[emp_pos@[p] as int].scheduled,
                self@.open == b0.open,
                self@.close == b0.close,
                self@.blocks == b0.blocks,
                self@.block_size == b0.block_size,
                self@.role_colors == b0.role_colors,
            decreases role_order@.len() - ri,
        {
            let ghost b_role = self@;
            let ghost c_role = curr_employee;
            let kr = role_order[ri];
            proof {
                assert(crate::role::same_meta_view(
                    b0.roles[kr as int],
                    roles_view(self.roles)[kr as int],
                ));
            }
            if self.roles[kr].is_multi() {
                proof {
                    assert(self@.roles[kr as int].occ is Multi);
                    assert(fill_roles(
                        self@,
                        emp_pos@,
                        curr_employee as nat,
                        role_order@,
                        ri as int,
                        shift_length,
                    ) == fill_roles(
                        self@,
                        emp_pos@,
                        curr_employee as nat,
                        role_order@,
                        ri as int + 1,
                        shift_length,
                    ));
                }
                ri = ri + 1;
                continue ;
            }
            let rid = self.roles[kr].id();
            let blocks_len = match &self.roles[kr] {
                Role::SingleRole(r) => r.assigned.len(),
                Role::MultiRole(r) => r.assigned.len(),
            };
            proof {
                assert(roles_view(self.roles)[kr as int].occ.len()
                    == b0.roles[kr as int].occ.len());
                assert(rid == b0.roles[kr as int].id);
                assert(!(b_role.roles[kr as int].occ is Multi));
                assert(blocks_len == b_role.roles[kr as int].occ.len());
            }
            let mut time_index: usize = 0;
            while time_index < blocks_len
                invariant
                    inv(b0),
                    time_index <= blocks_len,
                    0 <= kr < b0.roles.len(),
                    rid == b0.roles[kr as int].id,
                    b0.roles[kr as int].occ is Single,
                    blocks_len == b0.roles[kr as int].occ.len(),
                    fill_blocks(
                        b_role,
                        emp_pos@,
                        c_role as nat,
                        kr as int,
                        0,
                        blocks_len as int,
                        shift_length,
                    ) == fill_blocks(
                        self@,
                        emp_pos@,
                        curr_employee as nat,
                        kr as int,
                        time_index as int,
                        blocks_len as int,
                        shift_length,
                    ),
                    emps_view(self.employees).len() == b0.employees.len(),
                    forall|q: int|
                        0 <= q < b0.employees.len() ==> ({
                            let e0 = b0.employees[q];
                            let e2 = #[trigger] emps_view(self.employees)[q];
                            &&& e2.id == e0.id
                            &&& e2.name == e0.name
                            &&& e2.roles == e0.roles
                            &&& e2.scheduled == e0.scheduled
                            &&& e2.lunch == e0.lunch
                            &&& e2.clock_in == e0.clock_in
                            &&& e2.clock_out == e0.clock_out
                            &&& e2.assigned.len() == e0.assigned.len()
                            &&& (!e0.scheduled ==> e2.assigned == e0.assigned)
                            &&& forall|i: int|
                                0 <= i < e0.assigned.len() && (#[trigger] e2.assigned[i])
                                    != e0.assigned[i] ==> e0.assigned[i] == 1 && e0.roles.contains(
                                    e2.assigned[i],
                                )
                        }),
                    roles_view(self.roles).len() == b0.roles.len(),
                    forall|q: int|
                        0 <= q < b0.roles.len() ==> ({
                            let r0 = b0.roles[q];
                            let r2 = #[trigger] roles_view(self.roles)[q];
                            &&& crate::role::same_meta_view(r0, r2)
                            &&& r2.occ.len() == r0.occ.len()
                            &&& (r0.occ is Multi ==> r2.occ == r0.occ)
                        }),
                    forall|p: int|
                        0 <= p < emp_pos@.len() ==> (#[trigger] emp_pos@[p]) < b0.employees.len()
                            && b0.employees[emp_pos@[p] as int].scheduled,
                    self@.open == b0.open,
                    self@.close == b0.close,
                    self@.blocks == b0.blocks,
                    self@.block_size == b0.block_size,
                    self@.role_colors == b0.role_colors,
                decreases blocks_len - time_index,
            {
                let ghost b_block = self@;
                let ghost c_block = curr_employee;
                proof {
                    assert(crate::role::same_meta_view(
                        b0.roles[kr as int],
                        roles_view(self.roles)[kr as int],
                    ));
                    assert(roles_view(self.roles)[kr as int].occ.len() == blocks_len);
                }
                let occupied = match &self.roles[kr] {
                    Role::SingleRole(r) => r.assigned[time_index] > 0,
                    Role::MultiRole(r) => true,
                };
                proof {
                    assert(occupied == (b_block.roles[kr as int].occ->Single_0[time_index as int]
                        > 0));
                }
                if !occupied {
                    let mut attempt: usize = 0;
                    let n_emps = emp_pos.len();
                    let mut filled = false;
                    while attempt < n_emps && !filled
                        invariant
                            inv(b0),
                            attempt <= n_emps,
                            n_emps == emp_pos@.len(),
                            0 <= kr < b0.roles.len(),
                            rid == b0.roles[kr as int].id,
                            b0.roles[kr as int].occ is Single,
                            blocks_len == b0.roles[kr as int].occ.len(),
                            time_index < blocks_len,
                            !filled ==> try_candidates(
                                b_block,
                                emp_pos@,
                                c_block as nat,
                                n_emps as nat,
                                kr as int,
                                time_index,
                                shift_length,
                            ) == try_candidates(
                                self@,
                                emp_pos@,
                                curr_employee as nat,
                                (n_emps - attempt) as nat,
                                kr as int,
                                time_index,
                                shift_length,
                            ),
                            filled ==> try_candidates(
                                b_block,
                                emp_pos@,
                                c_block as nat,
                                n_emps as nat,
                                kr as int,
                                time_index,
                                shift_length,
                            ) == (self@, curr_employee as nat),
                            emps_view(self.employees).len() == b0.employees.len(),
                            forall|q: int|
                                0 <= q < b0.employees.len() ==> ({
                                    let e0 = b0.employees[q];
                                    let e2 = #[trigger] emps_view(self.employees)[q];
                                    &&& e2.id == e0.id
                                    &&& e2.name == e0.name
                                    &&& e2.roles == e0.roles
                                    &&& e2.scheduled == e0.scheduled
                                    &&& e2.lunch == e0.lunch
                                    &&& e2.clock_in == e0.clock_in
                                    &&& e2.clock_out == e0.clock_out
                                    &&& e2.assigned.len() == e0.assigned.len()
                                    &&& (!e0.scheduled ==> e2.assigned == e0.assigned)
                                    &&& forall|i: int|
                                        0 <= i < e0.assigned.len() && (#[trigger] e2.assigned[i])
                                            != e0.assigned[i] ==> e0.assigned[i] == 1
                                            && e0.roles.contains(e2.assigned[i])
                                }),
                            roles_view(self.roles).len() == b0.roles.len(),
                            forall|q: int|
                                0 <= q < b0.roles.len() ==> ({
                                    let r0 = b0.roles[q];
                                    let r2 = #[trigger] roles_view(self.roles)[q];
                                    &&& crate::role::same_meta_view(r0, r2)
                                    &&& r2.occ.len() == r0.occ.len()
                                    &&& (r0.occ is Multi ==> r2.occ == r0.occ)
                                }),
                            forall|p: int|
                                0 <= p < emp_pos@.len() ==> (#[trigger] emp_pos@[p])
                                    < b0.employees.len() && b0.employees[emp_pos@[p] as int].scheduled,
                            self@.open == b0.open,
                            self@.close == b0.close,
                            self@.blocks == b0.blocks,
                            self@.block_size == b0.block_size,
                            self@.role_colors == b0.role_colors,
                        decreases n_emps - attempt + (if filled {
                            0int
                        } else {
                            1int
                        }),
                    {
                        let ghost b_try = self@;
                        let ghost c_try = curr_employee;
                        if curr_employee >= n_emps {
                            curr_employee = 0;
                        }
                        let ke = emp_pos[curr_employee];
                        let qualified = crate::role::contains_usize(&self.employees[ke].roles, rid);
                        let available = time_index < self.employees[ke].assigned.len()
                            && self.employees[ke].assigned[time_index] == 1;
                        proof {
                            assert(rid == b_try.roles[kr as int].id);
                            assert(qualified == b_try.employees[ke as int].roles.contains(rid));
                            assert(available == (time_index
                                < b_try.employees[ke as int].assigned.len()
                                && b_try.employees[ke as int].assigned[time_index as int] == 1));
                        }
                        if qualified && available {
                            let ghost pre_e = emps_view(self.employees);
                            let ghost pre_r = roles_view(self.roles);
                            let mut emp = self.employees.swap_remove(ke);
                            let mut role_taken = self.roles.swap_remove(kr);
                            let ghost rex_pre = role_taken;
                            proof {
                                assert(emp@ == pre_e[ke as int]);
                                assert(role_taken@ == pre_r[kr as int]);
                                assert(pre_r[kr as int].occ is Single);
                                assert(rex_pre is SingleRole);
                                assert(rex_pre.single_occ() == pre_r[kr as int].occ->Single_0);
                                assert(pre_e[ke as int].assigned.len()
                                    == b0.employees[ke as int].assigned.len());
                                assert(b0.employees[ke as int].assigned.len() == b0.blocks);
                                assert(pre_r[kr as int].occ.len() == b0.roles[kr as int].occ.len());
                                assert(b0.roles[kr as int].occ.len() == b0.blocks);
                                assert(role_taken.occ_len() == emp.assigned@.len());
                            }
                            emp.assign_area(&mut role_taken, time_index, shift_length);
                            let ghost post_emp = emp@;
                            let ghost post_role = role_taken@;
                            self.employees.push(emp);
                            let er = self.employees.swap_remove(ke);
                            self.employees.push(er);
                            self.roles.push(role_taken);
                            let rr = self.roles.swap_remove(kr);
                            self.roles.push(rr);
                            proof {
                                assert(emps_view(self.employees) =~= pre_e.update(
                                    ke as int,
                                    post_emp,
                                ));
                                assert(roles_view(self.roles) =~= pre_r.update(
                                    kr as int,
                                    post_role,
                                ));
                                let c = area_count(
                                    pre_e[ke as int].assigned,
                                    time_index as int,
                                    shift_length as nat,
                                );
                                // the new state is exactly one area claim on
                                // the model state
                                let target = area_apply(
                                    b_try,
                                    ke as int,
                                    kr as int,
                                    time_index,
                                    shift_length,
                                );
                                assert(post_emp.assigned =~= target.employees[ke as int].assigned);
                                assert(post_emp == target.employees[ke as int]);
                                assert(role_taken is SingleRole);
                                assert(post_role.occ is Single);
                                assert(role_taken.single_occ() == post_role.occ->Single_0);
                                assert(post_role.occ->Single_0 =~= target.roles[kr as int].occ->Single_0);
                                assert(post_role.occ == target.roles[kr as int].occ);
                                assert(post_role == target.roles[kr as int]);
                                assert(self@.employees =~= target.employees);
                                assert(self@.roles =~= target.roles);
                                assert(self@ == target);
                                // the model's candidate round ends here
                                assert(try_candidates(
                                    b_try,
                                    emp_pos@,
                                    c_try as nat,
                                    (n_emps - attempt) as nat,
                                    kr as int,
                                    time_index,
                                    shift_length,
                                ) == (self@, curr_employee as nat + 1));

                                assert forall|q: int|
                                    0 <= q < b0.employees.len() implies ({
                                    let e0 = b0.employees[q];
                                    let e2 = #[trigger] emps_view(self.employees)[q];
                                    &&& e2.id == e0.id
                                    &&& e2.assigned.len() == e0.assigned.len()
                                    &&& (!e0.scheduled ==> e2.assigned == e0.assigned)
                                    &&& forall|i: int|
                                        0 <= i < e0.assigned.len() && (#[trigger] e2.assigned[i])
                                            != e0.assigned[i] ==> e0.assigned[i] == 1
                                            && e0.roles.contains(e2.assigned[i])
                                }) by {
                                    if q == ke {
                                        assert forall|i: int|
                                            0 <= i < b0.employees[q].assigned.len() && (
                                            #[trigger] emps_view(self.employees)[q].assigned[i])
                                                != b0.employees[q].assigned[i] implies b0.employees[q].assigned[i] == 1 && b0.employees[q].roles.contains(
                                            emps_view(self.employees)[q].assigned[i],
                                        ) by {
                                            if time_index <= i < time_index + c {
                                                lemma_area_point(
                                                    pre_e[ke as int].assigned,
                                                    time_index as int,
                                                    shift_length as nat,
                                                    i,
                                                );
                                                assert(pre_e[ke as int].assigned[i] == 1);
                                                assert(emps_view(self.employees)[q].assigned[i]
                                                    == rid);
                                            } else {
                                                assert(emps_view(self.employees)[q].assigned[i]
                                                    == pre_e[ke as int].assigned[i]);
                                            }
                                        }
                                    }
                                }
                            }
                            curr_employee = curr_employee + 1;
                            filled = true;
                        } else {
                            proof {
                                assert(try_candidates(
                                    b_try,
                                    emp_pos@,
                                    c_try as nat,
                                    (n_emps - attempt) as nat,
                                    kr as int,
                                    time_index,
                                    shift_length,
                                ) == try_candidates(
                                    b_try,
                                    emp_pos@,
                                    curr_employee as nat + 1,
                                    (n_emps - attempt - 1) as nat,
                                    kr as int,
                                    time_index,
                                    shift_length,
                                ));
                            }
                            curr_employee = curr_employee + 1;
                            attempt = attempt + 1;
                        }
                    }
                    proof {
                        if !filled {
                            assert(try_candidates(
                                self@,
                                emp_pos@,
                                curr_employee as nat,
                                0nat,
                                kr as int,
                                time_index,
                                shift_length,
                            ) == (self@, curr_employee as nat));
                        }
                        assert(try_candidates(
                            b_block,
                            emp_pos@,
                            c_block as nat,
                            n_emps as nat,
                            kr as int,
                            time_index,
                            shift_length,
                        ) == (self@, curr_employee as nat));
                        assert(fill_blocks(
                            b_block,
                            emp_pos@,
                            c_block as nat,
                            kr as int,
                            time_index as int,
                            blocks_len as int,
                            shift_length,
                        ) == fill_blocks(
                            self@,
                            emp_pos@,
                            curr_employee as nat,
                            kr as int,
                            time_index as int + 1,
                            blocks_len as int,
                            shift_length,
                        ));
                    }
                } else {
                    proof {
                        assert(fill_blocks(
                            self@,
                            emp_pos@,
                            curr_employee as nat,
                            kr as int,
                            time_index as int,
                            blocks_len as int,
                            shift_length,
                        ) == fill_blocks(
                            self@,
                            emp_pos@,
                            curr_employee as nat,
                            kr as int,
                            time_index as int + 1,
                            blocks_len as int,
                            shift_length,
                        ));
                    }
                }
                time_index = time_index + 1;
            }
            proof {
                assert(fill_blocks(
                    self@,
                    emp_pos@,
                    curr_employee as nat,
                    kr as int,
                    blocks_len as int,
                    blocks_len as int,
                    shift_length,
                ) == (self@, curr_employee as nat));
                assert(fill_roles(
                    b_role,
                    emp_pos@,
                    c_role as nat,
                    role_order@,
                    ri as int,
                    shift_length,
                ) == fill_roles(
                    self@,
                    emp_pos@,
                    curr_employee as nat,
                    role_order@,
                    ri as int + 1,
                    shift_length,
                ));
            }
            ri = ri + 1;
        }
        proof {
            assert(fill_roles(
                self@,
                emp_pos@,
                curr_employee as nat,
                role_order@,
                role_order@.len() as int,
                shift_length,
            ) == (self@, curr_employee as nat));
            assert(self@ == schedule_roles_spec(b0, shift_length));
        }
    }
}

/// The role table positions ordered ascending by `(sort, name, id)`.
fn sorted_role_positions(roles: &Vec<Role>) -> (r: Vec<usize>)
    ensures
        r@ == role_order_spec(roles_view(*roles), roles@.len() as int),
        r@.len() == roles@.len(),
        forall|p: int| 0 <= p < r@.len() ==> (#[trigger] r@[p]) < roles@.len(),
{
    let ghost rv = roles_view(*roles);
    let mut order: Vec<usize> = Vec::new();
    let mut k: usize = 0;
    while k < roles.len()
        invariant
            k <= roles@.len(),
            rv == roles_view(*roles),
            order@ == role_order_spec(rv, k as int),
            order@.len() == k,
            forall|p: int| 0 <= p < order@.len() ==> (#[trigger] order@[p]) < roles@.len(),
        decreases roles@.len() - k,
    {
        let mut pos: usize = 0;
        while pos < order.len() && role_key_le(&roles[order[pos]], &roles[k])
            invariant
                pos <= order@.len(),
                rv == roles_view(*roles),
                order@.len() == k,
                k < roles@.len(),
                forall|p: int| 0 <= p < order@.len() ==> (#[trigger] order@[p]) < roles@.len(),
                forall|q: int|
                    0 <= q < pos ==> role_le_spec(
                        rv[(#[trigger] order@[q]) as int],
                        rv[k as int],
                    ),
            decreases order@.len() - pos,
        {
            pos = pos + 1;
        }
        let ghost pre = order@;
        order.insert(pos, k);
        proof {
            lemma_insert_role_at(pre, rv, k, pos as int);
            assert(order@ =~= pre.take(pos as int) + seq![k] + pre.skip(pos as int));
            assert(order@ == insert_role_pos(pre, rv, k));
            assert forall|p: int| 0 <= p < order@.len() implies (#[trigger] order@[p])
                < roles@.len() by {
                if p < pos {
                    assert(order@[p] == pre[p]);
                } else if p > pos {
                    assert(order@[p] == pre[p - 1]);
                }
            }
        }
        k = k + 1;
    }
    order
}

/// Whether role `a` orders at or before role `b` under `(sort, name, id)`.
fn role_key_le(a: &Role, b: &Role) -> (r: bool)
    ensures
        r == role_le_spec(a@, b@),
{
    let (sa, sb) = (a.sort(), b.sort());
    if sa != sb {
        return sa < sb;
    }
    let na = a.name();
    let nb = b.name();
    match crate::employee::lex_ord_exec(na.as_str(), nb.as_str()) {
        core::cmp::Ordering::Less => true,
        core::cmp::Ordering::Greater => false,
        core::cmp::Ordering::Equal => a.id() <= b.id(),
    }
}

} // verus!
