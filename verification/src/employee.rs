//! Employees: per-block status, qualification set, clock bounds, and the
//! per-employee halves of the assignment operations.
//!
//! A status slot holds `0` off the clock, `1` available, `2` on lunch, and
//! any value of `3` or more is the id of the role worked at that block.

use vstd::prelude::*;
use crate::clock::TimeOfDay;
use crate::role::has_idx;
use crate::BusinessError;
use crate::EmployeeError;

verus! {

/// Orders for listing employees.
#[derive(Default, PartialEq, Clone, Copy)]
pub enum EmployeeSort {
    #[default]
    Name,
    ClockIn,
    ClockOut,
    /// Order by whether an employee is scheduled to work the role.
    Assigned { id: usize },
    /// Order by whether an employee is allowed to work the role.
    Role { id: usize },
}

/// An employee: identity, qualifications, clock bounds and per-block status.
#[derive(Clone, PartialEq, Debug)]
pub struct Employee {
    pub id: usize,
    pub name: String,
    /// Ids of the roles the employee may be assigned to.
    pub roles: Vec<usize>,
    /// Unscheduled employees are excluded from automation.
    pub scheduled: bool,
    /// Desired lunch length, in blocks.
    pub lunch: usize,
    pub clock_in: TimeOfDay,
    pub clock_out: TimeOfDay,
    /// One status slot per block of the business grid.
    pub assigned: Vec<usize>,
}

/// An employee, as mathematical values.
pub struct EmployeeView {
    pub id: usize,
    pub name: Seq<char>,
    pub roles: Seq<usize>,
    pub scheduled: bool,
    pub lunch: usize,
    pub clock_in: TimeOfDay,
    pub clock_out: TimeOfDay,
    pub assigned: Seq<usize>,
}

impl View for Employee {
    type V = EmployeeView;

    open spec fn view(&self) -> EmployeeView {
        EmployeeView {
            id: self.id,
            name: self.name@,
            roles: self.roles@,
            scheduled: self.scheduled,
            lunch: self.lunch,
            clock_in: self.clock_in,
            clock_out: self.clock_out,
            assigned: self.assigned@,
        }
    }
}

/// The per-employee half of block assignment, walking the indexes in order
/// over the evolving status row `a`. An in-range slot holding `1` or `2` is
/// overwritten and counted successful; a slot holding another role is
/// overwritten, counted, and recorded as a swap `(old role, index)`; a slot
/// already holding `role`, a slot off the clock (`0`), and an out-of-range
/// index change nothing.
pub open spec fn emp_assign_fold(
    a: Seq<usize>,
    succ: Seq<usize>,
    swaps: Seq<(usize, usize)>,
    role: usize,
    idx: Seq<usize>,
) -> (Seq<usize>, Seq<usize>, Seq<(usize, usize)>)
    decreases idx.len(),
{
    if idx.len() == 0 {
        (a, succ, swaps)
    } else {
        let i = idx[0];
        let rest = idx.drop_first();
        if i < a.len() {
            let v = a[i as int];
            if v >= 3 {
                if v != role {
                    emp_assign_fold(
                        a.update(i as int, role),
                        succ.push(i),
                        swaps.push((v, i)),
                        role,
                        rest,
                    )
                } else {
                    emp_assign_fold(a, succ, swaps, role, rest)
                }
            } else if v == 1 || v == 2 {
                emp_assign_fold(a.update(i as int, role), succ.push(i), swaps, role, rest)
            } else {
                emp_assign_fold(a, succ, swaps, role, rest)
            }
        } else {
            emp_assign_fold(a, succ, swaps, role, rest)
        }
    }
}

/// The per-employee half of block release: an in-range slot holding `0` is
/// skipped; any other in-range slot is reset to `1` (available), and if it
/// held more than `1` the pair `(old value, index)` is recorded for role
/// detachment. Out-of-range indexes are ignored.
pub open spec fn emp_remove_fold(
    a: Seq<usize>,
    cleared: Seq<(usize, usize)>,
    idx: Seq<usize>,
) -> (Seq<usize>, Seq<(usize, usize)>)
    decreases idx.len(),
{
    if idx.len() == 0 {
        (a, cleared)
    } else {
        let i = idx[0];
        let rest = idx.drop_first();
        if i < a.len() && a[i as int] != 0 {
            let cleared2 = if a[i as int] > 1 {
                cleared.push((a[i as int], i))
            } else {
                cleared
            };
            emp_remove_fold(a.update(i as int, 1usize), cleared2, rest)
        } else {
            emp_remove_fold(a, cleared, rest)
        }
    }
}

/// The status row after the fold has the length it started with.
pub proof fn lemma_emp_assign_fold_len(
    a: Seq<usize>,
    succ: Seq<usize>,
    swaps: Seq<(usize, usize)>,
    role: usize,
    idx: Seq<usize>,
)
    ensures
        emp_assign_fold(a, succ, swaps, role, idx).0.len() == a.len(),
    decreases idx.len(),
{
    if idx.len() > 0 {
        let i = idx[0];
        let rest = idx.drop_first();
        if i < a.len() {
            let v = a[i as int];
            if v >= 3 && v != role {
                lemma_emp_assign_fold_len(
                    a.update(i as int, role),
                    succ.push(i),
                    swaps.push((v, i)),
                    role,
                    rest,
                );
            } else if v >= 3 {
                lemma_emp_assign_fold_len(a, succ, swaps, role, rest);
            } else if v == 1 || v == 2 {
                lemma_emp_assign_fold_len(a.update(i as int, role), succ.push(i), swaps, role, rest);
            } else {
                lemma_emp_assign_fold_len(a, succ, swaps, role, rest);
            }
        } else {
            lemma_emp_assign_fold_len(a, succ, swaps, role, rest);
        }
    }
}

/// The status row after the release fold has the length it started with.
pub proof fn lemma_emp_remove_fold_len(a: Seq<usize>, cleared: Seq<(usize, usize)>, idx: Seq<usize>)
    ensures
        emp_remove_fold(a, cleared, idx).0.len() == a.len(),
    decreases idx.len(),
{
    if idx.len() > 0 {
        let i = idx[0];
        let rest = idx.drop_first();
        if i < a.len() && a[i as int] != 0 {
            let cleared2 = if a[i as int] > 1 {
                cleared.push((a[i as int], i))
            } else {
                cleared
            };
            lemma_emp_remove_fold_len(a.update(i as int, 1usize), cleared2, rest);
        } else {
            lemma_emp_remove_fold_len(a, cleared, rest);
        }
    }
}

/// The number of grid steps from `curr` until reaching or passing `target`.
pub open spec fn steps_until(curr: int, target: int, bs: int) -> nat
    decreases target - curr,
    when bs >= 1
{
    if curr >= target {
        0
    } else {
        1 + steps_until(if curr + bs >= target { target } else { curr + bs }, target, bs)
    }
}

/// One grid step from below the boundary counts once and continues.
pub proof fn lemma_steps_unfold(curr: int, target: int, bs: int)
    requires
        bs >= 1,
        curr < target,
    ensures
        steps_until(curr, target, bs) == 1 + steps_until(curr + bs, target, bs),
{
    if curr + bs >= target {
        assert(steps_until(curr + bs, target, bs) == 0);
        assert(steps_until(target, target, bs) == 0);
    }
}

/// The fresh status row for an employee: `0` until the clock-in boundary,
/// `1` until the clock-out boundary, `0` until close, each boundary reached
/// by whole grid steps from the previous one.
pub open spec fn fresh_pattern(open: int, ci: int, co: int, close: int, bs: int) -> Seq<usize> {
    let n1 = steps_until(open, ci, bs);
    let c1 = open + n1 * bs;
    let n2 = steps_until(c1, co, bs);
    let c2 = c1 + n2 * bs;
    let n3 = steps_until(c2, close, bs);
    Seq::new(n1, |i: int| 0usize) + Seq::new(n2, |i: int| 1usize) + Seq::new(n3, |i: int| 0usize)
}

/// Stopping at an intermediate boundary `t` and continuing to `close` takes
/// as many steps in total as walking straight to `close`.
pub proof fn lemma_steps_split(curr: int, t: int, close: int, bs: int)
    requires
        bs >= 1,
        t <= close,
    ensures
        steps_until(curr, close, bs) == steps_until(curr, t, bs) + steps_until(
            curr + steps_until(curr, t, bs) * bs,
            close,
            bs,
        ),
    decreases steps_until(curr, t, bs),
{
    if curr >= t {
        assert(steps_until(curr, t, bs) == 0);
    } else {
        lemma_steps_unfold(curr, t, bs);
        lemma_steps_unfold(curr, close, bs);
        lemma_steps_split(curr + bs, t, close, bs);
        assert(steps_until(curr, close, bs) == 1 + steps_until(curr + bs, close, bs));
        assert(steps_until(curr, t, bs) == 1 + steps_until(curr + bs, t, bs));
        assert(curr + steps_until(curr, t, bs) * bs == curr + bs + steps_until(curr + bs, t, bs)
            * bs) by {
            assert(steps_until(curr, t, bs) * bs == (1 + steps_until(curr + bs, t, bs)) * bs);
            assert((1 + steps_until(curr + bs, t, bs)) * bs == bs + steps_until(curr + bs, t, bs)
                * bs) by (nonlinear_arith);
        }
    }
}

/// A fresh status row has exactly one slot per grid block when the clock
/// bounds lie within the business hours.
pub proof fn lemma_fresh_pattern_len(open: int, ci: int, co: int, close: int, bs: int)
    requires
        bs >= 1,
        open <= ci <= close,
        open <= co <= close,
    ensures
        fresh_pattern(open, ci, co, close, bs).len() == steps_until(open, close, bs),
{
    let n1 = steps_until(open, ci, bs);
    let c1 = open + n1 * bs;
    let n2 = steps_until(c1, co, bs);
    let c2 = c1 + n2 * bs;
    lemma_steps_split(open, ci, close, bs);
    lemma_steps_split(c1, co, close, bs);
}

impl Employee {
    /// A new employee: qualified only for the lunch role, scheduled, with a
    /// two-block lunch and an empty status row to be grown by the next grid
    /// reset.
    pub fn new(id: usize, name: String, clock_in: TimeOfDay, clock_out: TimeOfDay) -> (r: Employee)
        ensures
            r.id == id,
            r.name@ == name@,
            r.roles@ == seq![2usize],
            r.scheduled,
            r.lunch == 2,
            r.clock_in == clock_in,
            r.clock_out == clock_out,
            r.assigned@ == Seq::<usize>::empty(),
    {
        let mut roles: Vec<usize> = Vec::new();
        roles.push(2);
        proof {
            assert(roles@ =~= seq![2usize]);
        }
        Employee {
            id,
            name,
            roles,
            scheduled: true,
            lunch: 2,
            clock_in,
            clock_out,
            assigned: Vec::new(),
        }
    }

    /// The employee with a status row of `blocks` available slots.
    pub fn new_blank(self, blocks: usize) -> (r: Employee)
        ensures
            r.id == self.id,
            r.name == self.name,
            r.roles == self.roles,
            r.scheduled == self.scheduled,
            r.lunch == self.lunch,
            r.clock_in == self.clock_in,
            r.clock_out == self.clock_out,
            r.assigned@ == Seq::new(blocks as nat, |i: int| 1usize),
    {
        let mut assigned: Vec<usize> = Vec::new();
        let mut k: usize = 0;
        while k < blocks
            invariant
                k <= blocks,
                assigned@ =~= Seq::new(k as nat, |i: int| 1usize),
            decreases blocks - k,
        {
            assigned.push(1);
            proof {
                assert(assigned@ =~= Seq::new((k + 1) as nat, |i: int| 1usize));
            }
            k = k + 1;
        }
        Employee { assigned, ..self }
    }

    /// Rebuilds the status row from the clock bounds: `0` before clock-in,
    /// `1` until clock-out, `0` until close.
    pub fn clear_assigned(&mut self, open: &TimeOfDay, close: &TimeOfDay, block_size: u32)
        requires
            1 <= block_size <= 86400,
            open.valid(),
            close.valid(),
            old(self).clock_in.valid(),
            old(self).clock_out.valid(),
        ensures
            final(self).assigned@ == fresh_pattern(
                open.secs as int,
                old(self).clock_in.secs as int,
                old(self).clock_out.secs as int,
                close.secs as int,
                block_size as int,
            ),
            final(self).id == old(self).id,
            final(self).name == old(self).name,
            final(self).roles == old(self).roles,
            final(self).scheduled == old(self).scheduled,
            final(self).lunch == old(self).lunch,
            final(self).clock_in == old(self).clock_in,
            final(self).clock_out == old(self).clock_out,
    {
        let ghost o = open.secs as int;
        let ghost ci = self.clock_in.secs as int;
        let ghost co = self.clock_out.secs as int;
        let ghost cl = close.secs as int;
        let ghost bs = block_size as int;
        let ghost n1 = steps_until(o, ci, bs);
        let ghost n2 = steps_until(o + n1 * bs, co, bs);
        let ghost n3 = steps_until(o + n1 * bs + n2 * bs, cl, bs);
        let mut assigned: Vec<usize> = Vec::new();
        let mut curr: u32 = open.secs;
        let mut k: usize = 0;
        while curr < self.clock_in.secs
            invariant
                self.clock_in.secs < 86400,
                1 <= block_size <= 86400,
                o == open.secs as int,
                ci == self.clock_in.secs as int,
                bs == block_size as int,
                curr == o + k * bs,
                curr <= 86400 + 86400,
                k <= 86400 + 86400,
                n1 == k + steps_until(curr as int, ci, bs),
                assigned@ =~= Seq::new(k as nat, |i: int| 0usize),
            decreases steps_until(curr as int, ci, bs),
        {
            assigned.push(0);
            proof {
                assert(assigned@ =~= Seq::new((k + 1) as nat, |i: int| 0usize));
                assert((k + 1) * bs == k * bs + bs) by (nonlinear_arith);
                assert(k * bs >= k) by (nonlinear_arith)
                    requires
                        bs >= 1,
                        k >= 0,
                ;
                lemma_steps_unfold(curr as int, ci, bs);
            }
            curr = curr + block_size;
            k = k + 1;
        }
        proof {
            assert(steps_until(curr as int, ci, bs) == 0);
            assert(k == n1);
        }
        let ghost k1 = k;
        while curr < self.clock_out.secs
            invariant
                self.clock_out.secs < 86400,
                1 <= block_size <= 86400,
                o == open.secs as int,
                co == self.clock_out.secs as int,
                bs == block_size as int,
                k >= k1,
                curr == o + k * bs,
                curr <= 86400 + 86400,
                k <= 86400 + 86400,
                n2 == (k - k1) + steps_until(curr as int, co, bs),
                assigned@ =~= Seq::new(k1 as nat, |i: int| 0usize) + Seq::new(
                    (k - k1) as nat,
                    |i: int| 1usize,
                ),
            decreases steps_until(curr as int, co, bs),
        {
            assigned.push(1);
            proof {
                assert(assigned@ =~= Seq::new(k1 as nat, |i: int| 0usize) + Seq::new(
                    (k + 1 - k1) as nat,
                    |i: int| 1usize,
                ));
                assert((k + 1) * bs == k * bs + bs) by (nonlinear_arith);
                assert(k * bs >= k) by (nonlinear_arith)
                    requires
                        bs >= 1,
                        k >= 0,
                ;
                lemma_steps_unfold(curr as int, co, bs);
            }
            curr = curr + block_size;
            k = k + 1;
        }
        proof {
            assert(steps_until(curr as int, co, bs) == 0);
            assert(k - k1 == n2);
            assert(curr == o + k1 * bs + n2 * bs) by {
                assert(k * bs == k1 * bs + n2 * bs) by (nonlinear_arith)
                    requires
                        k == k1 + n2,
                ;
            }
        }
        let ghost k2 = k;
        while curr < close.secs
            invariant
                close.secs < 86400,
                1 <= block_size <= 86400,
                o == open.secs as int,
                cl == close.secs as int,
                bs == block_size as int,
                k >= k2,
                curr == o + k * bs,
                curr <= 86400 + 86400,
                k <= 86400 + 86400,
                n3 == (k - k2) + steps_until(curr as int, cl, bs),
                assigned@ =~= Seq::new(k1 as nat, |i: int| 0usize) + Seq::new(
                    n2,
                    |i: int| 1usize,
                ) + Seq::new((k - k2) as nat, |i: int| 0usize),
            decreases steps_until(curr as int, cl, bs),
        {
            assigned.push(0);
            proof {
                assert(assigned@ =~= Seq::new(k1 as nat, |i: int| 0usize) + Seq::new(
                    n2,
                    |i: int| 1usize,
                ) + Seq::new((k + 1 - k2) as nat, |i: int| 0usize));
                assert((k + 1) * bs == k * bs + bs) by (nonlinear_arith);
                assert(k * bs >= k) by (nonlinear_arith)
                    requires
                        bs >= 1,
                        k >= 0,
                ;
                lemma_steps_unfold(curr as int, cl, bs);
            }
            curr = curr + block_size;
            k = k + 1;
        }
        proof {
            assert(steps_until(curr as int, cl, bs) == 0);
            assert(k - k2 == n3);
            assert(assigned@ =~= fresh_pattern(o, ci, co, cl, bs));
        }
        self.assigned = assigned;
    }

    /// Assigns the role to the employee's own status row at the given
    /// indexes. On success returns the indexes that actually changed and
    /// the `(old role, index)` swaps that moved the employee off another
    /// role. Rejected wholesale, with no effect, when the employee is not
    /// qualified for the role.
    pub fn assign_block(&mut self, indexes: Vec<usize>, role: usize) -> (r: Result<
        (Vec<usize>, Vec<(usize, usize)>),
        BusinessError,
    >)
        ensures
            !old(self).roles@.contains(role) ==> (r matches Err(BusinessError::EmployeeError(
                EmployeeError::NotAssignedRole { failed, allowed },
            )) && failed == role && allowed@ == old(self).roles@ && *final(self) == *old(self)),
            old(self).roles@.contains(role) ==> (r matches Ok((succ, swaps)) && (
            final(self).assigned@,
            succ@,
            swaps@,
            ) == emp_assign_fold(
                old(self).assigned@,
                Seq::<usize>::empty(),
                Seq::<(usize, usize)>::empty(),
                role,
                indexes@,
            )),
            final(self).id == old(self).id,
            final(self).name == old(self).name,
            final(self).roles == old(self).roles,
            final(self).scheduled == old(self).scheduled,
            final(self).lunch == old(self).lunch,
            final(self).clock_in == old(self).clock_in,
            final(self).clock_out == old(self).clock_out,
            final(self).assigned@.len() == old(self).assigned@.len(),
    {
        proof {
            lemma_emp_assign_fold_len(
                old(self).assigned@,
                Seq::<usize>::empty(),
                Seq::<(usize, usize)>::empty(),
                role,
                indexes@,
            );
        }
        if !crate::role::contains_usize(&self.roles, role) {
            let allowed = crate::role::copy_usize_vec(&self.roles);
            return Err(
                BusinessError::EmployeeError(EmployeeError::NotAssignedRole { failed: role, allowed }),
            );
        }
        let mut successful: Vec<usize> = Vec::new();
        let mut swapped: Vec<(usize, usize)> = Vec::new();
        let ghost a0 = self.assigned@;
        proof {
            assert(indexes@.skip(0) =~= indexes@);
        }
        let mut k: usize = 0;
        while k < indexes.len()
            invariant
                k <= indexes@.len(),
                self.assigned@.len() == a0.len(),
                emp_assign_fold(
                    a0,
                    Seq::<usize>::empty(),
                    Seq::<(usize, usize)>::empty(),
                    role,
                    indexes@,
                ) == emp_assign_fold(
                    self.assigned@,
                    successful@,
                    swapped@,
                    role,
                    indexes@.skip(k as int),
                ),
                self.id == old(self).id,
                self.name == old(self).name,
                self.roles == old(self).roles,
                self.scheduled == old(self).scheduled,
                self.lunch == old(self).lunch,
                self.clock_in == old(self).clock_in,
                self.clock_out == old(self).clock_out,
            decreases indexes@.len() - k,
        {
            let ghost pre_a = self.assigned@;
            let ghost pre_s = successful@;
            let ghost pre_w = swapped@;
            let i = indexes[k];
            if i < self.assigned.len() {
                let v = self.assigned[i];
                if v >= 3 {
                    if v != role {
                        successful.push(i);
                        swapped.push((v, i));
                        self.assigned[i] = role;
                    }
                } else if v == 1 || v == 2 {
                    successful.push(i);
                    self.assigned[i] = role;
                }
            }
            proof {
                assert(indexes@.skip(k as int)[0] == indexes@[k as int]);
                assert(indexes@.skip(k as int).drop_first() =~= indexes@.skip(k as int + 1));
                assert(emp_assign_fold(pre_a, pre_s, pre_w, role, indexes@.skip(k as int))
                    == emp_assign_fold(
                    self.assigned@,
                    successful@,
                    swapped@,
                    role,
                    indexes@.skip(k as int + 1),
                ));
            }
            k = k + 1;
        }
        proof {
            assert(indexes@.skip(indexes@.len() as int) =~= Seq::<usize>::empty());
        }
        Ok((successful, swapped))
    }

    /// Releases the given indexes of the status row: in-range slots that are
    /// on the clock are reset to `1`, and each slot that held lunch or a
    /// role is returned as a `(role id, index)` pair for detachment.
    /// Out-of-range indexes are ignored.
    pub fn remove_block(&mut self, indexes: Vec<usize>) -> (cleared: Vec<(usize, usize)>)
        ensures
            (final(self).assigned@, cleared@) == emp_remove_fold(
                old(self).assigned@,
                Seq::<(usize, usize)>::empty(),
                indexes@,
            ),
            final(self).id == old(self).id,
            final(self).name == old(self).name,
            final(self).roles == old(self).roles,
            final(self).scheduled == old(self).scheduled,
            final(self).lunch == old(self).lunch,
            final(self).clock_in == old(self).clock_in,
            final(self).clock_out == old(self).clock_out,
            final(self).assigned@.len() == old(self).assigned@.len(),
    {
        proof {
            lemma_emp_remove_fold_len(
                old(self).assigned@,
                Seq::<(usize, usize)>::empty(),
                indexes@,
            );
        }
        let mut cleared: Vec<(usize, usize)> = Vec::new();
        let ghost a0 = self.assigned@;
        proof {
            assert(indexes@.skip(0) =~= indexes@);
        }
        let mut k: usize = 0;
        while k < indexes.len()
            invariant
                k <= indexes@.len(),
                self.assigned@.len() == a0.len(),
                emp_remove_fold(a0, Seq::<(usize, usize)>::empty(), indexes@) == emp_remove_fold(
                    self.assigned@,
                    cleared@,
                    indexes@.skip(k as int),
                ),
                self.id == old(self).id,
                self.name == old(self).name,
                self.roles == old(self).roles,
                self.scheduled == old(self).scheduled,
                self.lunch == old(self).lunch,
                self.clock_in == old(self).clock_in,
                self.clock_out == old(self).clock_out,
            decreases indexes@.len() - k,
        {
            let ghost pre_a = self.assigned@;
            let ghost pre_c = cleared@;
            let i = indexes[k];
            if i < self.assigned.len() {
                let v = self.assigned[i];
                if v != 0 {
                    if v > 1 {
                        cleared.push((v, i));
                    }
                    self.assigned[i] = 1;
                }
            }
            proof {
                assert(indexes@.skip(k as int)[0] == indexes@[k as int]);
                assert(indexes@.skip(k as int).drop_first() =~= indexes@.skip(k as int + 1));
                assert(emp_remove_fold(pre_a, pre_c, indexes@.skip(k as int)) == emp_remove_fold(
                    self.assigned@,
                    cleared@,
                    indexes@.skip(k as int + 1),
                ));
            }
            k = k + 1;
        }
        proof {
            assert(indexes@.skip(indexes@.len() as int) =~= Seq::<usize>::empty());
        }
        cleared
    }

    /// Adds the role to the qualification set if absent.
    pub fn add_role(&mut self, role: usize)
        ensures
            final(self).roles@ == if old(self).roles@.contains(role) {
                old(self).roles@
            } else {
                old(self).roles@.push(role)
            },
            final(self).id == old(self).id,
            final(self).name == old(self).name,
            final(self).scheduled == old(self).scheduled,
            final(self).lunch == old(self).lunch,
            final(self).clock_in == old(self).clock_in,
            final(self).clock_out == old(self).clock_out,
            final(self).assigned == old(self).assigned,
    {
        if !crate::role::contains_usize(&self.roles, role) {
            self.roles.push(role);
        }
    }

    /// Removes the role from the qualification set, then resets every block
    /// where the employee held that role back to available. Fails, with no
    /// effect, when the role is not in the set.
    pub fn remove_role(&mut self, role: usize) -> (r: Result<(), BusinessError>)
        ensures
            !old(self).roles@.contains(role) ==> (r matches Err(BusinessError::EmployeeError(
                EmployeeError::NotAssignedRole { failed, allowed },
            )) && failed == role && allowed@ == old(self).roles@ && *final(self) == *old(self)),
            old(self).roles@.contains(role) ==> (r matches Ok(_u) && (match crate::role::find_index(
                old(self).roles@,
                role,
            ) {
                Some(j) => final(self).roles@ == old(self).roles@.remove(j),
                None => false,
            }) && final(self).assigned@.len() == old(self).assigned@.len() && (forall|i: int|
                0 <= i < old(self).assigned@.len() ==> final(self).assigned@[i] == (if old(
                    self,
                ).assigned@[i] == role && role != 0 {
                    1usize
                } else {
                    old(self).assigned@[i]
                }))),
            final(self).id == old(self).id,
            final(self).name == old(self).name,
            final(self).scheduled == old(self).scheduled,
            final(self).lunch == old(self).lunch,
            final(self).clock_in == old(self).clock_in,
            final(self).clock_out == old(self).clock_out,
    {
        proof {
            crate::role::lemma_find_index(old(self).roles@, role);
        }
        if !crate::role::contains_usize(&self.roles, role) {
            let allowed = crate::role::copy_usize_vec(&self.roles);
            return Err(
                BusinessError::EmployeeError(EmployeeError::NotAssignedRole { failed: role, allowed }),
            );
        }
        let ghost r0 = self.roles@;
        crate::role::remove_first_usize(&mut self.roles, role);
        let mut i: usize = 0;
        let ghost a0 = self.assigned@;
        let ghost roles1 = self.roles@;
        while i < self.assigned.len()
            invariant
                i <= self.assigned@.len(),
                self.assigned@.len() == a0.len(),
                self.roles@ == roles1,
                forall|j: int|
                    0 <= j < i ==> self.assigned@[j] == (if a0[j] == role && role != 0 {
                        1usize
                    } else {
                        a0[j]
                    }),
                forall|j: int| i <= j < a0.len() ==> self.assigned@[j] == a0[j],
                self.id == old(self).id,
                self.name == old(self).name,
                self.scheduled == old(self).scheduled,
                self.lunch == old(self).lunch,
                self.clock_in == old(self).clock_in,
                self.clock_out == old(self).clock_out,
            decreases self.assigned@.len() - i,
        {
            if self.assigned[i] == role && role != 0 {
                self.assigned[i] = 1;
            }
            i = i + 1;
        }
        Ok(())
    }

    /// The first block where the employee is on the clock and unassigned
    /// (status `1`), or `None` when there is none.
    pub fn first_open(&self) -> (r: Option<usize>)
        ensures
            match crate::role::find_index(self.assigned@, 1) {
                None => r is None,
                Some(j) => r matches Some(i) && i == j,
            },
    {
        proof {
            crate::role::lemma_find_index(self.assigned@, 1);
        }
        let mut i: usize = 0;
        while i < self.assigned.len()
            invariant
                i <= self.assigned@.len(),
                forall|j: int| 0 <= j < i ==> self.assigned@[j] != 1,
            decreases self.assigned@.len() - i,
        {
            if self.assigned[i] == 1 {
                proof {
                    crate::role::lemma_find_index_at(self.assigned@, 1, i as int);
                }
                return Some(i);
            }
            i = i + 1;
        }
        None
    }

    /// Marks the employee unscheduled and turns the whole status row off
    /// the clock.
    pub fn deschedule(&mut self, blocks: usize)
        ensures
            !final(self).scheduled,
            final(self).assigned@ == Seq::new(blocks as nat, |i: int| 0usize),
            final(self).id == old(self).id,
            final(self).name == old(self).name,
            final(self).roles == old(self).roles,
            final(self).lunch == old(self).lunch,
            final(self).clock_in == old(self).clock_in,
            final(self).clock_out == old(self).clock_out,
    {
        self.scheduled = false;
        let mut assigned: Vec<usize> = Vec::new();
        let mut k: usize = 0;
        while k < blocks
            invariant
                k <= blocks,
                assigned@ =~= Seq::new(k as nat, |i: int| 0usize),
            decreases blocks - k,
        {
            assigned.push(0);
            proof {
                assert(assigned@ =~= Seq::new((k + 1) as nat, |i: int| 0usize));
            }
            k = k + 1;
        }
        self.assigned = assigned;
    }
}


/// What the per-employee assignment fold does: the status row is the old row
/// with exactly the newly successful indexes overwritten by `role`; the new
/// successful indexes are in range, drawn from the index list, and held a
/// status that admits assignment — and conversely every listed in-range
/// index whose status admits assignment is among them; each new swap
/// records the original role at its index, which is among the successful
/// ones; and for a real role id the successful indexes are distinct.
pub proof fn lemma_emp_assign_fold_props(
    a: Seq<usize>,
    succ: Seq<usize>,
    swaps: Seq<(usize, usize)>,
    role: usize,
    idx: Seq<usize>,
)
    ensures
        ({
            let f = emp_assign_fold(a, succ, swaps, role, idx);
            let ns = f.1.skip(succ.len() as int);
            &&& f.0.len() == a.len()
            &&& f.1.len() >= succ.len()
            &&& f.2.len() >= swaps.len()
            &&& f.1.len() - succ.len() <= idx.len()
            &&& forall|p: int| 0 <= p < succ.len() ==> f.1[p] == succ[p]
            &&& forall|p: int| 0 <= p < swaps.len() ==> f.2[p] == swaps[p]
            &&& forall|p: int| 0 <= p < ns.len() ==> (#[trigger] ns[p]) < a.len()
            &&& forall|p: int| 0 <= p < ns.len() ==> has_idx(idx, (#[trigger] ns[p]) as int)
            &&& forall|p: int|
                0 <= p < ns.len() ==> a[(#[trigger] ns[p]) as int] == 1 || a[ns[p] as int] == 2
                    || (a[ns[p] as int] >= 3 && a[ns[p] as int] != role)
            &&& forall|i: int|
                0 <= i < a.len() ==> f.0[i] == (if has_idx(ns, i) {
                    role
                } else {
                    a[i]
                })
            &&& forall|p: int|
                swaps.len() <= p < f.2.len() ==> (#[trigger] f.2[p]).1 < a.len() && a[f.2[p].1 as int]
                    == f.2[p].0 && f.2[p].0 >= 3 && f.2[p].0 != role && has_idx(ns, f.2[p].1 as int)
            &&& role >= 3 ==> ns.no_duplicates()
            &&& forall|p: int|
                0 <= p < idx.len() && (#[trigger] idx[p]) < a.len() && (a[idx[p] as int] == 1 || a[
                    idx[p] as int
                ] == 2 || (a[idx[p] as int] >= 3 && a[idx[p] as int] != role)) ==> has_idx(
                    ns,
                    idx[p] as int,
                )
        }),
    decreases idx.len(),
{
    let f = emp_assign_fold(a, succ, swaps, role, idx);
    let ns = f.1.skip(succ.len() as int);
    if idx.len() == 0 {
        assert(ns =~= Seq::<usize>::empty());
    } else {
        let i0 = idx[0];
        let rest = idx.drop_first();
        if i0 < a.len() && (a[i0 as int] == 1 || a[i0 as int] == 2 || (a[i0 as int] >= 3
            && a[i0 as int] != role)) {
            let v = a[i0 as int];
            let a2 = a.update(i0 as int, role);
            let succ2 = succ.push(i0);
            let swaps2 = if v >= 3 {
                swaps.push((v, i0))
            } else {
                swaps
            };
            lemma_emp_assign_fold_props(a2, succ2, swaps2, role, rest);
            assert(f == emp_assign_fold(a2, succ2, swaps2, role, rest));
            let ns2 = f.1.skip(succ2.len() as int);
            assert forall|p: int| 0 <= p < succ.len() implies f.1[p] == succ[p] by {
                assert(f.1[p] == succ2[p]);
            }
            assert forall|p: int| 0 <= p < swaps.len() implies f.2[p] == swaps[p] by {
                assert(f.2[p] == swaps2[p]);
            }
            assert(f.1[succ.len() as int] == succ2[succ.len() as int]);
            assert(f.1[succ.len() as int] == i0);
            assert(ns =~= seq![i0] + ns2) by {
                assert(ns.len() == ns2.len() + 1);
                assert(ns[0] == f.1[succ.len() as int]);
                assert forall|p: int| 1 <= p < ns.len() implies ns[p] == ns2[p - 1] by {
                    assert(ns[p] == f.1[succ.len() + p]);
                    assert(ns2[p - 1] == f.1[succ2.len() + p - 1]);
                }
            }
            assert forall|p: int| 0 <= p < ns.len() implies (#[trigger] ns[p]) < a.len() by {
                if p >= 1 {
                    assert(ns[p] == ns2[p - 1]);
                }
            }
            assert forall|p: int|
                0 <= p < ns.len() implies has_idx(idx, (#[trigger] ns[p]) as int) by {
                if p == 0 {
                    assert(ns[0] == i0);
                    assert(idx[0] == i0);
                } else {
                    assert(ns[p] == ns2[p - 1]);
                    assert(has_idx(rest, ns2[p - 1] as int));
                    let q = choose|q: int| 0 <= q < rest.len() && rest[q] == ns2[p - 1];
                    assert(idx[q + 1] == rest[q]);
                }
            }
            assert forall|p: int|
                0 <= p < ns.len() implies a[(#[trigger] ns[p]) as int] == 1 || a[ns[p] as int] == 2
                    || (a[ns[p] as int] >= 3 && a[ns[p] as int] != role) by {
                if p >= 1 {
                    assert(ns[p] == ns2[p - 1]);
                    let i = ns2[p - 1];
                    assert(a2[i as int] == 1 || a2[i as int] == 2 || (a2[i as int] >= 3
                        && a2[i as int] != role));
                    if i != i0 {
                        assert(a2[i as int] == a[i as int]);
                    }
                }
            }
            assert forall|i: int|
                0 <= i < a.len() implies f.0[i] == (if has_idx(ns, i) {
                role
            } else {
                a[i]
            }) by {
                if has_idx(ns2, i) {
                    let p = choose|p: int| 0 <= p < ns2.len() && ns2[p] == i;
                    assert(ns[p + 1] == ns2[p]);
                    assert(has_idx(ns, i));
                } else if i == i0 {
                    assert(f.0[i] == a2[i]);
                    assert(ns[0] == i0);
                    assert(has_idx(ns, i));
                } else {
                    assert(f.0[i] == a2[i]);
                    assert(a2[i] == a[i]);
                    assert(!has_idx(ns, i)) by {
                        if has_idx(ns, i) {
                            let p = choose|p: int| 0 <= p < ns.len() && ns[p] == i;
                            assert(p >= 1);
                            assert(ns2[p - 1] == ns[p]);
                        }
                    }
                }
            }
            assert forall|p: int|
                swaps.len() <= p < f.2.len() implies (#[trigger] f.2[p]).1 < a.len()
                    && a[f.2[p].1 as int] == f.2[p].0 && f.2[p].0 >= 3 && f.2[p].0 != role
                    && has_idx(ns, f.2[p].1 as int) by {
                if p < swaps2.len() {
                    assert(f.2[p] == swaps2[p]);
                    assert(v >= 3);
                    assert(f.2[p] == (v, i0));
                    assert(ns[0] == i0);
                    assert(has_idx(ns, i0 as int));
                } else {
                    let i = f.2[p].1;
                    assert(a2[i as int] == f.2[p].0 && f.2[p].0 >= 3 && f.2[p].0 != role
                        && has_idx(ns2, i as int));
                    assert(i != i0) by {
                        if i == i0 {
                            assert(a2[i0 as int] == role);
                        }
                    }
                    assert(a[i as int] == a2[i as int]);
                    let q = choose|q: int| 0 <= q < ns2.len() && ns2[q] == i;
                    assert(ns[q + 1] == ns2[q]);
                    assert(has_idx(ns, i as int));
                }
            }
            assert forall|p: int|
                0 <= p < idx.len() && (#[trigger] idx[p]) < a.len() && (a[idx[p] as int] == 1 || a[
                    idx[p] as int
                ] == 2 || (a[idx[p] as int] >= 3 && a[idx[p] as int] != role)) implies has_idx(
                ns,
                idx[p] as int,
            ) by {
                if p == 0 {
                    assert(ns[0] == i0);
                } else {
                    let i = idx[p];
                    assert(rest[p - 1] == idx[p]);
                    if i == i0 {
                        assert(ns[0] == i0);
                    } else {
                        assert(a2[i as int] == a[i as int]);
                        assert(has_idx(ns2, i as int));
                        let q = choose|q: int| 0 <= q < ns2.len() && ns2[q] == i;
                        assert(ns[q + 1] == ns2[q]);
                    }
                }
            }
            if role >= 3 {
                assert(ns2.no_duplicates());
                assert(!has_idx(ns2, i0 as int)) by {
                    if has_idx(ns2, i0 as int) {
                        let p = choose|p: int| 0 <= p < ns2.len() && ns2[p] == i0;
                        assert(a2[ns2[p] as int] == 1 || a2[ns2[p] as int] == 2 || (a2[ns2[p] as int]
                            >= 3 && a2[ns2[p] as int] != role));
                        assert(a2[i0 as int] == role);
                    }
                }
                assert forall|p: int, q: int| 0 <= p < q < ns.len() implies ns[p] != ns[q] by {
                    if p == 0 {
                        assert(ns[q] == ns2[q - 1]);
                        assert(ns[0] == i0);
                    } else {
                        assert(ns[p] == ns2[p - 1]);
                        assert(ns[q] == ns2[q - 1]);
                    }
                }
            }
        } else {
            lemma_emp_assign_fold_props(a, succ, swaps, role, rest);
            assert(f == emp_assign_fold(a, succ, swaps, role, rest));
            assert forall|p: int|
                0 <= p < idx.len() && (#[trigger] idx[p]) < a.len() && (a[idx[p] as int] == 1 || a[
                    idx[p] as int
                ] == 2 || (a[idx[p] as int] >= 3 && a[idx[p] as int] != role)) implies has_idx(
                ns,
                idx[p] as int,
            ) by {
                assert(p != 0);
                assert(rest[p - 1] == idx[p]);
            }
        }
    }
}


/// What the per-employee release fold does: slots only move to `1`, each
/// newly cleared pair records the original status (lunch or a role) at an
/// in-range index whose final status is `1`, and a slot that keeps a status
/// above `1` was never cleared.
pub proof fn lemma_emp_remove_fold_props(
    a: Seq<usize>,
    cleared: Seq<(usize, usize)>,
    idx: Seq<usize>,
)
    ensures
        ({
            let f = emp_remove_fold(a, cleared, idx);
            let nc = f.1.skip(cleared.len() as int);
            &&& f.0.len() == a.len()
            &&& f.1.len() >= cleared.len()
            &&& forall|p: int| 0 <= p < cleared.len() ==> f.1[p] == cleared[p]
            &&& forall|i: int| 0 <= i < a.len() ==> f.0[i] == a[i] || f.0[i] == 1
            &&& forall|p: int|
                0 <= p < nc.len() ==> (#[trigger] nc[p]).1 < a.len() && a[nc[p].1 as int]
                    == nc[p].0 && nc[p].0 >= 2 && f.0[nc[p].1 as int] == 1
        }),
    decreases idx.len(),
{
    let f = emp_remove_fold(a, cleared, idx);
    let nc = f.1.skip(cleared.len() as int);
    if idx.len() == 0 {
        assert(nc =~= Seq::<(usize, usize)>::empty());
    } else {
        let i0 = idx[0];
        let rest = idx.drop_first();
        if i0 < a.len() && a[i0 as int] != 0 {
            let v = a[i0 as int];
            let a2 = a.update(i0 as int, 1usize);
            let cleared2 = if v > 1 {
                cleared.push((v, i0))
            } else {
                cleared
            };
            lemma_emp_remove_fold_props(a2, cleared2, rest);
            assert(f == emp_remove_fold(a2, cleared2, rest));
            let nc2 = f.1.skip(cleared2.len() as int);
            assert forall|p: int| 0 <= p < cleared.len() implies f.1[p] == cleared[p] by {
                assert(f.1[p] == cleared2[p]);
            }
            assert forall|i: int| 0 <= i < a.len() implies f.0[i] == a[i] || f.0[i] == 1 by {
                assert(f.0[i] == a2[i] || f.0[i] == 1);
            }
            assert forall|p: int|
                0 <= p < nc.len() implies (#[trigger] nc[p]).1 < a.len() && a[nc[p].1 as int]
                    == nc[p].0 && nc[p].0 >= 2 && f.0[nc[p].1 as int] == 1 by {
                if v > 1 && p == 0 {
                    assert(nc[0] == f.1[cleared.len() as int]);
                    assert(f.1[cleared.len() as int] == cleared2[cleared.len() as int]);
                    assert(nc[0] == (v, i0));
                    assert(f.0[i0 as int] == a2[i0 as int] || f.0[i0 as int] == 1);
                } else {
                    let q = if v > 1 {
                        p - 1
                    } else {
                        p
                    };
                    assert(nc[p] == f.1[cleared.len() + p]);
                    assert(nc2[q] == f.1[cleared2.len() + q]);
                    assert(nc[p] == nc2[q]);
                    assert(a2[nc2[q].1 as int] == nc2[q].0);
                    assert(nc2[q].1 != i0) by {
                        if nc2[q].1 == i0 {
                            assert(a2[i0 as int] == 1);
                        }
                    }
                    assert(a[nc[p].1 as int] == a2[nc[p].1 as int]);
                }
            }
        } else {
            lemma_emp_remove_fold_props(a, cleared, rest);
            assert(f == emp_remove_fold(a, cleared, rest));
        }
    }
}


/// Sequencing of two comparison results: the second decides only ties.
pub open spec fn ord_then(a: core::cmp::Ordering, b: core::cmp::Ordering) -> core::cmp::Ordering {
    if a is Equal {
        b
    } else {
        a
    }
}

/// The order of two integers, as a comparison result.
pub open spec fn int_ord(a: int, b: int) -> core::cmp::Ordering {
    if a < b {
        core::cmp::Ordering::Less
    } else if a > b {
        core::cmp::Ordering::Greater
    } else {
        core::cmp::Ordering::Equal
    }
}

/// The order of two truth values, `false` before `true`.
pub open spec fn bool_ord(a: bool, b: bool) -> core::cmp::Ordering {
    if a == b {
        core::cmp::Ordering::Equal
    } else if !a {
        core::cmp::Ordering::Less
    } else {
        core::cmp::Ordering::Greater
    }
}

/// The lexicographic order of two character sequences by character code.
pub open spec fn lex_ord(a: Seq<char>, b: Seq<char>) -> core::cmp::Ordering
    decreases a.len(),
{
    if a.len() == 0 && b.len() == 0 {
        core::cmp::Ordering::Equal
    } else if a.len() == 0 {
        core::cmp::Ordering::Less
    } else if b.len() == 0 {
        core::cmp::Ordering::Greater
    } else if (a[0] as u32) < (b[0] as u32) {
        core::cmp::Ordering::Less
    } else if (a[0] as u32) > (b[0] as u32) {
        core::cmp::Ordering::Greater
    } else {
        lex_ord(a.drop_first(), b.drop_first())
    }
}

/// Which of two employees first works role `id`: earlier coverage orders
/// first, and an employee never working it orders last.
pub open spec fn assigned_ord(a: Seq<usize>, b: Seq<usize>, id: usize) -> core::cmp::Ordering
    decreases a.len(),
{
    if a.len() == 0 {
        core::cmp::Ordering::Equal
    } else if a[0] == id {
        core::cmp::Ordering::Less
    } else if b[0] == id {
        core::cmp::Ordering::Greater
    } else {
        assigned_ord(a.drop_first(), b.drop_first(), id)
    }
}

/// Where an employee sorts relative to another under the given order:
/// scheduled employees first, then the chosen criterion, with name and id
/// as tie breakers.
pub open spec fn employee_ord(a: EmployeeView, b: EmployeeView, order: EmployeeSort) -> core::cmp::Ordering {
    let primary = bool_ord(b.scheduled, a.scheduled);
    let criterion = match order {
        EmployeeSort::Name => core::cmp::Ordering::Equal,
        EmployeeSort::ClockIn => int_ord(a.clock_in.secs as int, b.clock_in.secs as int),
        EmployeeSort::ClockOut => int_ord(a.clock_out.secs as int, b.clock_out.secs as int),
        EmployeeSort::Assigned { id } => assigned_ord(a.assigned, b.assigned, id),
        EmployeeSort::Role { id } => bool_ord(a.roles.contains(id), b.roles.contains(id)),
    };
    ord_then(primary, ord_then(criterion, ord_then(lex_ord(a.name, b.name), int_ord(a.id as int, b.id as int))))
}

/// The lexicographic order of two strings by character code.
pub(crate) fn lex_ord_exec(a: &str, b: &str) -> (r: core::cmp::Ordering)
    ensures
        r == lex_ord(a@, b@),
{
    let la = a.unicode_len();
    let lb = b.unicode_len();
    let n = if la < lb {
        la
    } else {
        lb
    };
    proof {
        assert(a@.skip(0) =~= a@);
        assert(b@.skip(0) =~= b@);
    }
    let mut i: usize = 0;
    while i < n
        invariant
            la == a@.len(),
            lb == b@.len(),
            n == if la < lb {
                la as int
            } else {
                lb as int
            },
            i <= n,
            lex_ord(a@, b@) == lex_ord(a@.skip(i as int), b@.skip(i as int)),
        decreases n - i,
    {
        let ca = a.get_char(i) as u32;
        let cb = b.get_char(i) as u32;
        proof {
            assert(a@.skip(i as int)[0] == a@[i as int]);
            assert(b@.skip(i as int)[0] == b@[i as int]);
            assert(a@.skip(i as int).drop_first() =~= a@.skip(i as int + 1));
            assert(b@.skip(i as int).drop_first() =~= b@.skip(i as int + 1));
        }
        if ca < cb {
            return core::cmp::Ordering::Less;
        }
        if ca > cb {
            return core::cmp::Ordering::Greater;
        }
        i = i + 1;
    }
    proof {
        if la < lb {
            assert(a@.skip(n as int) =~= Seq::<char>::empty());
            assert(b@.skip(n as int).len() > 0);
        } else if la > lb {
            assert(b@.skip(n as int) =~= Seq::<char>::empty());
            assert(a@.skip(n as int).len() > 0);
        } else {
            assert(a@.skip(n as int) =~= Seq::<char>::empty());
            assert(b@.skip(n as int) =~= Seq::<char>::empty());
        }
    }
    if la < lb {
        core::cmp::Ordering::Less
    } else if la > lb {
        core::cmp::Ordering::Greater
    } else {
        core::cmp::Ordering::Equal
    }
}

/// Which of two status rows first covers role `id`.
fn assigned_ord_exec(a: &Vec<usize>, b: &Vec<usize>, id: usize) -> (r: core::cmp::Ordering)
    requires
        a@.len() == b@.len(),
    ensures
        r == assigned_ord(a@, b@, id),
{
    proof {
        assert(a@.skip(0) =~= a@);
        assert(b@.skip(0) =~= b@);
    }
    let mut i: usize = 0;
    let n = a.len();
    while i < n
        invariant
            i <= n,
            n == a@.len(),
            a@.len() == b@.len(),
            assigned_ord(a@, b@, id) == assigned_ord(a@.skip(i as int), b@.skip(i as int), id),
        decreases n - i,
    {
        proof {
            assert(a@.skip(i as int)[0] == a@[i as int]);
            assert(b@.skip(i as int)[0] == b@[i as int]);
            assert(a@.skip(i as int).drop_first() =~= a@.skip(i as int + 1));
            assert(b@.skip(i as int).drop_first() =~= b@.skip(i as int + 1));
        }
        if a[i] == id {
            return core::cmp::Ordering::Less;
        } else if b[i] == id {
            return core::cmp::Ordering::Greater;
        }
        i = i + 1;
    }
    proof {
        assert(a@.skip(n as int) =~= Seq::<usize>::empty());
    }
    core::cmp::Ordering::Equal
}

impl Employee {
    /// Where this employee sorts relative to another under the given order.
    pub fn cmp(&self, other: &Employee, order: EmployeeSort) -> (r: core::cmp::Ordering)
        requires
            (order matches EmployeeSort::Assigned { .. }) ==> self.assigned@.len()
                == other.assigned@.len(),
        ensures
            r == employee_ord(self@, other@, order),
    {
        if self.scheduled != other.scheduled {
            if self.scheduled {
                return core::cmp::Ordering::Less;
            } else {
                return core::cmp::Ordering::Greater;
            }
        }
        let criterion = match order {
            EmployeeSort::Name => core::cmp::Ordering::Equal,
            EmployeeSort::ClockIn => {
                if self.clock_in.secs < other.clock_in.secs {
                    core::cmp::Ordering::Less
                } else if self.clock_in.secs > other.clock_in.secs {
                    core::cmp::Ordering::Greater
                } else {
                    core::cmp::Ordering::Equal
                }
            },
            EmployeeSort::ClockOut => {
                if self.clock_out.secs < other.clock_out.secs {
                    core::cmp::Ordering::Less
                } else if self.clock_out.secs > other.clock_out.secs {
                    core::cmp::Ordering::Greater
                } else {
                    core::cmp::Ordering::Equal
                }
            },
            EmployeeSort::Assigned { id } => assigned_ord_exec(
                &self.assigned,
                &other.assigned,
                id,
            ),
            EmployeeSort::Role { id } => {
                let mine = crate::role::contains_usize(&self.roles, id);
                let theirs = crate::role::contains_usize(&other.roles, id);
                if mine == theirs {
                    core::cmp::Ordering::Equal
                } else if !mine {
                    core::cmp::Ordering::Less
                } else {
                    core::cmp::Ordering::Greater
                }
            },
        };
        match criterion {
            core::cmp::Ordering::Equal => {},
            other_ord => {
                return other_ord;
            },
        }
        let by_name = lex_ord_exec(self.name.as_str(), other.name.as_str());
        match by_name {
            core::cmp::Ordering::Equal => {},
            other_ord => {
                return other_ord;
            },
        }
        if self.id < other.id {
            core::cmp::Ordering::Less
        } else if self.id > other.id {
            core::cmp::Ordering::Greater
        } else {
            core::cmp::Ordering::Equal
        }
    }
}

} // verus!
