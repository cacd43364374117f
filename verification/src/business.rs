//! The business aggregate: opening hours, the block grid, and the role and
//! employee tables, together with the assignment engine that keeps the two
//! sides of every assignment fact consistent.

use vstd::prelude::*;
use crate::clock::TimeOfDay;
use crate::employee::{Employee, EmployeeView, steps_until};
use crate::role::{Role, RoleView, OccView, SingleRole, MultiRole};

verus! {

/// A business, as mathematical values.
pub struct BusinessView {
    pub open: TimeOfDay,
    pub close: TimeOfDay,
    pub roles: Seq<RoleView>,
    pub employees: Seq<EmployeeView>,
    pub blocks: nat,
    pub block_size: u32,
    pub role_colors: Seq<(usize, Seq<char>)>,
}

/// The role table as mathematical values.
pub open spec fn roles_view(v: Vec<Role>) -> Seq<RoleView> {
    Seq::new(v@.len(), |i: int| v@[i]@)
}

/// The employee table as mathematical values.
pub open spec fn emps_view(v: Vec<Employee>) -> Seq<EmployeeView> {
    Seq::new(v@.len(), |i: int| v@[i]@)
}

/// The color cache as mathematical values.
pub open spec fn colors_view(v: Vec<(usize, String)>) -> Seq<(usize, Seq<char>)> {
    Seq::new(v@.len(), |i: int| (v@[i].0, v@[i].1@))
}

/// The aggregate root: owns the roles, the employees, and the grid bounds.
#[derive(Clone, Debug)]
pub struct Business {
    pub open: TimeOfDay,
    pub close: TimeOfDay,
    pub roles: Vec<Role>,
    pub employees: Vec<Employee>,
    /// The number of blocks within the current business hours.
    pub blocks: usize,
    /// The length of one schedule block, in seconds.
    pub block_size: u32,
    /// Display-only cache of each role's color; the roles own the truth.
    pub role_colors: Vec<(usize, String)>,
}

impl View for Business {
    type V = BusinessView;

    open spec fn view(&self) -> BusinessView {
        BusinessView {
            open: self.open,
            close: self.close,
            roles: roles_view(self.roles),
            employees: emps_view(self.employees),
            blocks: self.blocks as nat,
            block_size: self.block_size,
            role_colors: colors_view(self.role_colors),
        }
    }
}

/// The position of the first employee with the given id, if any.
pub open spec fn find_emp_idx(emps: Seq<EmployeeView>, id: usize) -> Option<int>
    decreases emps.len(),
{
    if emps.len() == 0 {
        None
    } else if emps[0].id == id {
        Some(0)
    } else {
        match find_emp_idx(emps.drop_first(), id) {
            None => None,
            Some(i) => Some(i + 1),
        }
    }
}

/// The position of the first role with the given id, if any.
pub open spec fn find_role_idx(roles: Seq<RoleView>, id: usize) -> Option<int>
    decreases roles.len(),
{
    if roles.len() == 0 {
        None
    } else if roles[0].id == id {
        Some(0)
    } else {
        match find_role_idx(roles.drop_first(), id) {
            None => None,
            Some(i) => Some(i + 1),
        }
    }
}

/// `find_emp_idx` finds the first position of the id, and `None` exactly
/// when no employee has it.
pub proof fn lemma_find_emp_idx(emps: Seq<EmployeeView>, id: usize)
    ensures
        match find_emp_idx(emps, id) {
            None => forall|j: int| 0 <= j < emps.len() ==> (#[trigger] emps[j]).id != id,
            Some(i) => 0 <= i < emps.len() && emps[i].id == id && forall|j: int|
                0 <= j < i ==> (#[trigger] emps[j]).id != id,
        },
    decreases emps.len(),
{
    if emps.len() > 0 && emps[0].id != id {
        lemma_find_emp_idx(emps.drop_first(), id);
        assert forall|j: int| 1 <= j < emps.len() implies emps.drop_first()[j - 1] == emps[j] by {}
    }
}

/// `find_role_idx` finds the first position of the id, and `None` exactly
/// when no role has it.
pub proof fn lemma_find_role_idx(roles: Seq<RoleView>, id: usize)
    ensures
        match find_role_idx(roles, id) {
            None => forall|j: int| 0 <= j < roles.len() ==> (#[trigger] roles[j]).id != id,
            Some(i) => 0 <= i < roles.len() && roles[i].id == id && forall|j: int|
                0 <= j < i ==> (#[trigger] roles[j]).id != id,
        },
    decreases roles.len(),
{
    if roles.len() > 0 && roles[0].id != id {
        lemma_find_role_idx(roles.drop_first(), id);
        assert forall|j: int| 1 <= j < roles.len() implies roles.drop_first()[j - 1] == roles[j] by {}
    }
}

/// If the first position of the id is known directly, `find_emp_idx`
/// returns it.
pub proof fn lemma_find_emp_idx_at(emps: Seq<EmployeeView>, id: usize, i: int)
    requires
        0 <= i < emps.len(),
        emps[i].id == id,
        forall|j: int| 0 <= j < i ==> (#[trigger] emps[j]).id != id,
    ensures
        find_emp_idx(emps, id) == Some(i),
    decreases emps.len(),
{
    if i > 0 {
        assert forall|j: int| 0 <= j < i - 1 implies (#[trigger] emps.drop_first()[j]).id != id by {
            assert(emps.drop_first()[j] == emps[j + 1]);
        }
        assert(emps.drop_first()[i - 1] == emps[i]);
        lemma_find_emp_idx_at(emps.drop_first(), id, i - 1);
    }
}

/// If the first position of the id is known directly, `find_role_idx`
/// returns it.
pub proof fn lemma_find_role_idx_at(roles: Seq<RoleView>, id: usize, i: int)
    requires
        0 <= i < roles.len(),
        roles[i].id == id,
        forall|j: int| 0 <= j < i ==> (#[trigger] roles[j]).id != id,
    ensures
        find_role_idx(roles, id) == Some(i),
    decreases roles.len(),
{
    if i > 0 {
        assert forall|j: int| 0 <= j < i - 1 implies (#[trigger] roles.drop_first()[j]).id != id by {
            assert(roles.drop_first()[j] == roles[j + 1]);
        }
        assert(roles.drop_first()[i - 1] == roles[i]);
        lemma_find_role_idx_at(roles.drop_first(), id, i - 1);
    }
}

/// Whether some role in the table carries the id.
pub open spec fn role_id_taken(roles: Seq<RoleView>, id: usize) -> bool {
    exists|k: int| 0 <= k < roles.len() && (#[trigger] roles[k]).id == id
}

/// Whether some employee in the table carries the id.
pub open spec fn emp_id_taken(emps: Seq<EmployeeView>, id: usize) -> bool {
    exists|k: int| 0 <= k < emps.len() && (#[trigger] emps[k]).id == id
}

/// The employee-to-role consistency fact at employee `k`, block `i`: a
/// status of `2` or more names a role that exists and whose occupancy at
/// `i` holds the employee's id.
pub open spec fn consistent_at(b: BusinessView, k: int, i: int) -> bool {
    let v = b.employees[k].assigned[i];
    v >= 2 ==> exists|rk: int|
        0 <= rk < b.roles.len() && (#[trigger] b.roles[rk]).id == v && b.roles[rk].occ.occupies(
            i,
            b.employees[k].id,
        )
}

/// The standing invariant of a business value.
pub open spec fn inv(b: BusinessView) -> bool {
    &&& 1 <= b.block_size <= 86400
    &&& b.open.valid()
    &&& b.close.valid()
    &&& b.blocks == steps_until(b.open.secs as int, b.close.secs as int, b.block_size as int)
    &&& forall|k: int| 0 <= k < b.employees.len() ==> (#[trigger] b.employees[k]).assigned.len()
        == b.blocks
    &&& forall|k: int| 0 <= k < b.roles.len() ==> (#[trigger] b.roles[k]).occ.len() == b.blocks
    &&& forall|k1: int, k2: int|
        0 <= k1 < k2 < b.employees.len() ==> (#[trigger] b.employees[k1]).id != (
        #[trigger] b.employees[k2]).id
    &&& forall|k1: int, k2: int|
        0 <= k1 < k2 < b.roles.len() ==> (#[trigger] b.roles[k1]).id != (#[trigger] b.roles[k2]).id
    &&& forall|k: int| 0 <= k < b.roles.len() ==> (#[trigger] b.roles[k]).id >= 2
    &&& forall|k: int| 0 <= k < b.employees.len() ==> (#[trigger] b.employees[k]).id >= 1
    &&& role_id_taken(b.roles, 2)
    &&& forall|k: int|
        0 <= k < b.roles.len() && (#[trigger] b.roles[k]).id == 2 ==> b.roles[k].occ is Multi
    &&& forall|k: int|
        0 <= k < b.employees.len() ==> (#[trigger] b.employees[k]).clock_in.valid()
            && b.employees[k].clock_out.valid()
    &&& forall|k: int, i: int|
        0 <= k < b.employees.len() && 0 <= i < b.blocks ==> #[trigger] consistent_at(b, k, i)
}

impl Business {
    /// The standing invariant; established by the constructors and kept by
    /// every engine operation.
    pub open spec fn wf(self) -> bool {
        inv(self@)
    }

    /// The table position of the employee with the given id.
    pub fn find_employee(&self, id: usize) -> (r: Option<usize>)
        ensures
            match find_emp_idx(self@.employees, id) {
                None => r is None,
                Some(j) => r matches Some(i) && i == j,
            },
    {
        proof {
            lemma_find_emp_idx(self@.employees, id);
        }
        let mut k: usize = 0;
        while k < self.employees.len()
            invariant
                k <= self.employees@.len(),
                forall|j: int| 0 <= j < k ==> (#[trigger] emps_view(self.employees)[j]).id != id,
            decreases self.employees@.len() - k,
        {
            if self.employees[k].id == id {
                proof {
                    lemma_find_emp_idx_at(self@.employees, id, k as int);
                }
                return Some(k);
            }
            k = k + 1;
        }
        None
    }

    /// The table position of the role with the given id.
    pub fn find_role(&self, id: usize) -> (r: Option<usize>)
        ensures
            match find_role_idx(self@.roles, id) {
                None => r is None,
                Some(j) => r matches Some(i) && i == j,
            },
    {
        proof {
            lemma_find_role_idx(self@.roles, id);
        }
        let mut k: usize = 0;
        while k < self.roles.len()
            invariant
                k <= self.roles@.len(),
                forall|j: int| 0 <= j < k ==> (#[trigger] roles_view(self.roles)[j]).id != id,
            decreases self.roles@.len() - k,
        {
            let rid = self.roles[k].id();
            if rid == id {
                proof {
                    lemma_find_role_idx_at(self@.roles, id, k as int);
                }
                return Some(k);
            }
            k = k + 1;
        }
        None
    }
}

/// The built-in lunch role: id 2, shared, created with a zero-length
/// occupancy that the first hours update grows to the grid.
pub fn business_base() -> (r: Role)
    ensures
        r@.id == 2,
        r@.occ is Multi,
        r@.occ.len() == 0,
        r@.name == "Lunch"@,
        r@.sort == 2,
        r@.color == crate::role::DEFAULT_COLOR@,
        r@.empty,
{
    Role::MultiRole(MultiRole::new(2, "Lunch".to_owned(), 0))
}


/// A sequence of distinct values all below `n` has at most `n` elements.
pub proof fn lemma_distinct_below(s: Seq<usize>, n: nat)
    requires
        s.no_duplicates(),
        forall|k: int| 0 <= k < s.len() ==> (#[trigger] s[k]) < n,
    ensures
        s.len() <= n,
{
    let t = s.map_values(|x: usize| x as int);
    assert(t.len() == s.len());
    assert forall|i: int, j: int| 0 <= i < t.len() && 0 <= j < t.len() && i != j implies t[i]
        != t[j] by {
        assert(s[i] != s[j]);
    }
    assert(t.no_duplicates());
    t.unique_seq_to_set();
    assert(t.to_set().subset_of(vstd::set_lib::set_int_range(0, n as int))) by {
        assert forall|x: int| t.to_set().contains(x) implies vstd::set_lib::set_int_range(
            0,
            n as int,
        ).contains(x) by {
            assert(t.contains(x));
            let k = choose|k: int| 0 <= k < t.len() && t[k] == x;
            assert(s[k] < n);
        }
    }
    vstd::set_lib::lemma_int_range(0, n as int);
    vstd::set_lib::lemma_len_subset(t.to_set(), vstd::set_lib::set_int_range(0, n as int));
}

/// Walking from `curr` to `target` in steps of at least one never takes
/// more steps than the distance.
pub proof fn lemma_steps_bound(curr: int, target: int, bs: int)
    requires
        bs >= 1,
    ensures
        steps_until(curr, target, bs) <= (if target >= curr {
            target - curr
        } else {
            0
        }),
    decreases steps_until(curr, target, bs),
{
    if curr < target {
        crate::employee::lemma_steps_unfold(curr, target, bs);
        lemma_steps_bound(curr + bs, target, bs);
    }
}

/// An employee with the given status row substituted.
pub open spec fn emp_with_assigned(e: EmployeeView, a: Seq<usize>) -> EmployeeView {
    EmployeeView { assigned: a, ..e }
}

/// A role with the given occupancy and `empty` flag substituted.
pub open spec fn role_with_occ(r: RoleView, occ: OccView, empty: bool) -> RoleView {
    RoleView { occ, empty, ..r }
}

/// The engine's displacement repair, displaced pair by displaced pair: each
/// named employee's status at the named block is reset to available, a
/// direct status fix outside the assignment pipeline. Unknown ids are
/// skipped.
pub open spec fn fix_displaced_fold(
    emps: Seq<EmployeeView>,
    disp: Seq<(usize, usize)>,
) -> Seq<EmployeeView>
    decreases disp.len(),
{
    if disp.len() == 0 {
        emps
    } else {
        let eid = disp[0].0;
        let i = disp[0].1;
        let emps2 = match find_emp_idx(emps, eid) {
            Some(k) => emps.update(
                k,
                emp_with_assigned(
                    emps[k],
                    crate::employee::emp_remove_fold(
                        emps[k].assigned,
                        Seq::<(usize, usize)>::empty(),
                        seq![i],
                    ).0,
                ),
            ),
            None => emps,
        };
        fix_displaced_fold(emps2, disp.drop_first())
    }
}

/// The engine's swap detachment, swap by swap: the employee is removed from
/// the old role's occupancy at the swapped block. Unknown role ids are
/// skipped.
pub open spec fn detach_swaps_fold(
    roles: Seq<RoleView>,
    emp_id: usize,
    swaps: Seq<(usize, usize)>,
) -> Seq<RoleView>
    decreases swaps.len(),
{
    if swaps.len() == 0 {
        roles
    } else {
        let rid = swaps[0].0;
        let i = swaps[0].1;
        let roles2 = match find_role_idx(roles, rid) {
            Some(k) => {
                let r = roles[k];
                let occ2 = match r.occ {
                    OccView::Single(o) => OccView::Single(
                        crate::role::single_remove_fold(o, seq![i]),
                    ),
                    OccView::Multi(o) => OccView::Multi(
                        crate::role::multi_remove_fold(o, emp_id, seq![i]),
                    ),
                };
                roles.update(k, role_with_occ(r, occ2, r.empty))
            },
            None => roles,
        };
        detach_swaps_fold(roles2, emp_id, swaps.drop_first())
    }
}

/// What a successful `assign_block` does, given the table positions of the
/// employee and the target role: the employee's row absorbs the indexes,
/// the role's occupancy absorbs the successful ones, displaced employees
/// are reset to available, and the roles swapped away from drop the
/// employee. The count is successful indexes plus displaced employees.
pub open spec fn assign_block_ok_spec(
    b: BusinessView,
    ke: int,
    kr: int,
    role_id: usize,
    idx: Seq<usize>,
) -> (BusinessView, nat) {
    let e = b.employees[ke];
    let r = b.roles[kr];
    let f = crate::employee::emp_assign_fold(
        e.assigned,
        Seq::<usize>::empty(),
        Seq::<(usize, usize)>::empty(),
        role_id,
        idx,
    );
    let rres = match r.occ {
        OccView::Single(o) => {
            let g = crate::role::single_add_fold(o, Seq::<(usize, usize)>::empty(), e.id, f.1);
            (OccView::Single(g.0), g.1)
        },
        OccView::Multi(o) => (
            OccView::Multi(crate::role::multi_add_fold(o, e.id, f.1)),
            Seq::<(usize, usize)>::empty(),
        ),
    };
    let b1 = BusinessView {
        employees: b.employees.update(ke, emp_with_assigned(e, f.0)),
        roles: b.roles.update(kr, role_with_occ(r, rres.0, false)),
        ..b
    };
    let b2 = BusinessView { employees: fix_displaced_fold(b1.employees, rres.1), ..b1 };
    let b3 = BusinessView { roles: detach_swaps_fold(b2.roles, e.id, f.2), ..b2 };
    (b3, (f.1.len() + rres.1.len()) as nat)
}


impl Business {
    /// Assigns the role to the employee at the given block indexes and
    /// mirrors the change in the role's occupancy, displacing previous
    /// occupants of an exclusive role (their status is reset to available)
    /// and detaching the employee from roles swapped away from. Returns the
    /// number of modified blocks: successful indexes plus displaced
    /// employees. Fails without effect when an id does not resolve or the
    /// employee lacks the qualification.
    pub fn assign_block(&mut self, employee: usize, role: usize, blocks: Vec<usize>) -> (r: Result<
        usize,
        crate::BusinessError,
    >)
        requires
            old(self).wf(),
        ensures
            final(self).wf(),
            match (
                find_emp_idx(old(self)@.employees, employee),
                find_role_idx(old(self)@.roles, role),
            ) {
                (None, _) => (r matches Err(crate::BusinessError::EmployeeNotFound) && final(self)@ == old(self)@),
                (Some(_), None) => (r matches Err(crate::BusinessError::RoleNotFound) && final(self)@ == old(self)@),
                (Some(ke), Some(kr)) => (if !old(self)@.employees[ke].roles.contains(role) {
                    (r matches Err(crate::BusinessError::EmployeeError(
                        crate::EmployeeError::NotAssignedRole { failed, allowed },
                    )) && failed == role && allowed@ == old(self)@.employees[ke].roles && final(self)@ == old(self)@)
                } else {
                    (r matches Ok(n) && final(self)@ == assign_block_ok_spec(
                        old(self)@,
                        ke,
                        kr,
                        role,
                        blocks@,
                    ).0 && n as nat == assign_block_ok_spec(old(self)@, ke, kr, role, blocks@).1)
                }),
            },
    {
        let ghost b0 = self@;
        let ke = match self.find_employee(employee) {
            Some(k) => k,
            None => {
                return Err(crate::BusinessError::EmployeeNotFound);
            },
        };
        let kr = match self.find_role(role) {
            Some(k) => k,
            None => {
                return Err(crate::BusinessError::RoleNotFound);
            },
        };
        proof {
            lemma_find_emp_idx(b0.employees, employee);
            lemma_find_role_idx(b0.roles, role);
        }
        let ghost e = b0.employees[ke as int];
        let ghost f = crate::employee::emp_assign_fold(
            e.assigned,
            Seq::<usize>::empty(),
            Seq::<(usize, usize)>::empty(),
            role,
            blocks@,
        );
        proof {
            crate::employee::lemma_emp_assign_fold_props(
                e.assigned,
                Seq::<usize>::empty(),
                Seq::<(usize, usize)>::empty(),
                role,
                blocks@,
            );
            assert(f.1.skip(0) =~= f.1);
            assert(f.2.skip(0) =~= f.2);
        }
        let emp_id = self.employees[ke].id;
        let res = self.employees[ke].assign_block(blocks, role);
        let (successful, swapped) = match res {
            Err(er) => {
                proof {
                    assert(emps_view(self.employees) =~= b0.employees);
                    assert(self@ == b0);
                }
                return Err(er);
            },
            Ok(x) => x,
        };
        let ghost e_mid = b0.employees.update(ke as int, emp_with_assigned(e, f.0));
        proof {
            assert(successful@ == f.1);
            assert(swapped@ == f.2);
            assert(emps_view(self.employees) =~= e_mid);
            assert(e.assigned.len() == b0.blocks);
            assert(b0.roles[kr as int].occ.len() == b0.blocks);
            if b0.roles[kr as int].occ is Single {
                assert(b0.roles[kr as int].id == role);
                assert(role != 2);
                assert(role >= 3) by {
                    assert(b0.roles[kr as int].id >= 2);
                }
                assert(f.1.no_duplicates());
                crate::role::lemma_single_add_fold_props(
                    b0.roles[kr as int].occ->Single_0,
                    Seq::<(usize, usize)>::empty(),
                    e.id,
                    f.1,
                );
            }
        }
        let n_succ = successful.len();
        let displaced = self.roles[kr].add_block(&emp_id, successful);
        let ghost rres = match b0.roles[kr as int].occ {
            OccView::Single(o) => {
                let g = crate::role::single_add_fold(
                    o,
                    Seq::<(usize, usize)>::empty(),
                    e.id,
                    f.1,
                );
                (OccView::Single(g.0), g.1)
            },
            OccView::Multi(o) => (
                OccView::Multi(crate::role::multi_add_fold(o, e.id, f.1)),
                Seq::<(usize, usize)>::empty(),
            ),
        };
        let ghost r_mid = b0.roles.update(
            kr as int,
            role_with_occ(b0.roles[kr as int], rres.0, false),
        );
        proof {
            assert(displaced@ == rres.1);
            assert(roles_view(self.roles) =~= r_mid);
            assert(emps_view(self.employees) == e_mid);
            if b0.roles[kr as int].occ is Single {
                assert(f.1.no_duplicates());
                assert(forall|p: int| 0 <= p < f.1.len() ==> (#[trigger] f.1[p]) < b0.blocks);
                lemma_distinct_below(f.1, b0.blocks);
                lemma_steps_bound(b0.open.secs as int, b0.close.secs as int, b0.block_size as int);
                assert(f.1.len() <= 86400);
                assert(rres.1.len() <= f.1.len());
            }
        }
        let n_disp = displaced.len();
        // Displacement repair: reset each displaced employee's status to
        // available at the displaced block.
        proof {
            assert(displaced@.skip(0) =~= displaced@);
        }
        let mut j: usize = 0;
        while j < displaced.len()
            invariant
                j <= displaced@.len(),
                roles_view(self.roles) == r_mid,
                fix_displaced_fold(e_mid, displaced@) == fix_displaced_fold(
                    emps_view(self.employees),
                    displaced@.skip(j as int),
                ),
                self@.open == b0.open,
                self@.close == b0.close,
                self@.blocks == b0.blocks,
                self@.block_size == b0.block_size,
                self@.role_colors == b0.role_colors,
            decreases displaced@.len() - j,
        {
            let ghost pre = emps_view(self.employees);
            let pair = displaced[j];
            match self.find_employee(pair.0) {
                Some(kd) => {
                    proof {
                        lemma_find_emp_idx(pre, pair.0);
                    }
                    let mut one: Vec<usize> = Vec::new();
                    one.push(pair.1);
                    let _cleared = self.employees[kd].remove_block(one);
                    proof {
                        assert(one@ =~= seq![pair.1]);
                        assert(emps_view(self.employees) =~= pre.update(
                            kd as int,
                            emp_with_assigned(
                                pre[kd as int],
                                crate::employee::emp_remove_fold(
                                    pre[kd as int].assigned,
                                    Seq::<(usize, usize)>::empty(),
                                    seq![pair.1],
                                ).0,
                            ),
                        ));
                    }
                },
                None => {},
            }
            proof {
                assert(displaced@.skip(j as int)[0] == displaced@[j as int]);
                assert(displaced@.skip(j as int).drop_first() =~= displaced@.skip(j as int + 1));
                assert(fix_displaced_fold(pre, displaced@.skip(j as int)) == fix_displaced_fold(
                    emps_view(self.employees),
                    displaced@.skip(j as int + 1),
                ));
            }
            j = j + 1;
        }
        proof {
            assert(displaced@.skip(displaced@.len() as int) =~= Seq::<(usize, usize)>::empty());
        }
        let ghost e_fixed = fix_displaced_fold(e_mid, rres.1);
        proof {
            assert(emps_view(self.employees) == e_fixed);
        }
        // Swap detachment: drop the employee from each role swapped away
        // from at the swapped block.
        proof {
            assert(swapped@.skip(0) =~= swapped@);
            assert(forall|k: int|
                0 <= k < r_mid.len() ==> (#[trigger] r_mid[k]).occ.len() == b0.blocks);
        }
        let mut w: usize = 0;
        while w < swapped.len()
            invariant
                w <= swapped@.len(),
                emps_view(self.employees) == e_fixed,
                swapped@ == f.2,
                detach_swaps_fold(r_mid, e.id, swapped@) == detach_swaps_fold(
                    roles_view(self.roles),
                    e.id,
                    swapped@.skip(w as int),
                ),
                roles_view(self.roles).len() == r_mid.len(),
                forall|k: int|
                    0 <= k < roles_view(self.roles).len() ==> (#[trigger] roles_view(
                        self.roles,
                    )[k]).occ.len() == b0.blocks,
                forall|p: int|
                    0 <= p < f.2.len() ==> (#[trigger] f.2[p]).1 < b0.blocks,
                emp_id == e.id,
                self@.open == b0.open,
                self@.close == b0.close,
                self@.blocks == b0.blocks,
                self@.block_size == b0.block_size,
                self@.role_colors == b0.role_colors,
            decreases swapped@.len() - w,
        {
            let ghost pre = roles_view(self.roles);
            let pair = swapped[w];
            match self.find_role(pair.0) {
                Some(krr) => {
                    let mut one: Vec<usize> = Vec::new();
                    one.push(pair.1);
                    proof {
                        assert(one@ =~= seq![pair.1]);
                        lemma_find_role_idx(pre, pair.0);
                    }
                    self.roles[krr].remove_block(&emp_id, one);
                    proof {
                        let rr = pre[krr as int];
                        let occ2 = match rr.occ {
                            OccView::Single(o) => OccView::Single(
                                crate::role::single_remove_fold(o, seq![pair.1]),
                            ),
                            OccView::Multi(o) => OccView::Multi(
                                crate::role::multi_remove_fold(o, e.id, seq![pair.1]),
                            ),
                        };
                        assert(roles_view(self.roles) =~= pre.update(
                            krr as int,
                            role_with_occ(rr, occ2, rr.empty),
                        ));
                    }
                },
                None => {},
            }
            proof {
                assert(swapped@.skip(w as int)[0] == swapped@[w as int]);
                assert(swapped@.skip(w as int).drop_first() =~= swapped@.skip(w as int + 1));
                assert(detach_swaps_fold(pre, e.id, swapped@.skip(w as int)) == detach_swaps_fold(
                    roles_view(self.roles),
                    e.id,
                    swapped@.skip(w as int + 1),
                ));
            }
            w = w + 1;
        }
        proof {
            assert(swapped@.skip(swapped@.len() as int) =~= Seq::<(usize, usize)>::empty());
            assert(roles_view(self.roles) == detach_swaps_fold(r_mid, e.id, f.2));
            assert(self@ == assign_block_ok_spec(b0, ke as int, kr as int, role, blocks@).0);
            lemma_assign_ok_preserves_inv(b0, ke as int, kr as int, role, blocks@);
            assert(n_succ + n_disp <= usize::MAX) by {
                if b0.roles[kr as int].occ is Single {
                    assert(n_succ <= 86400);
                    assert(n_disp <= n_succ);
                } else {
                    assert(n_disp == 0);
                }
            }
        }
        Ok(n_succ + n_disp)
    }
}


/// Whether the swap list holds a pair naming role `rid` at block `i`.
pub open spec fn has_swap(swaps: Seq<(usize, usize)>, rid: usize, i: int) -> bool {
    exists|p: int| 0 <= p < swaps.len() && (#[trigger] swaps[p]).0 == rid && swaps[p].1 == i
}

/// Releasing one exclusive slot clears exactly that slot.
pub proof fn lemma_single_remove_singleton(o: Seq<usize>, i: usize)
    ensures
        crate::role::single_remove_fold(o, seq![i]) == o.update(i as int, 0usize),
{
    assert(seq![i].drop_first() =~= Seq::<usize>::empty());
    assert(seq![i][0] == i);
    assert(crate::role::single_remove_fold(o.update(i as int, 0usize), seq![i].drop_first())
        == o.update(i as int, 0usize));
}

/// Releasing one shared slot removes the employee's first occurrence there.
pub proof fn lemma_multi_remove_singleton(o: Seq<Seq<usize>>, emp_id: usize, i: usize)
    ensures
        crate::role::multi_remove_fold(o, emp_id, seq![i]) == multi_remove_unfolded(o, emp_id, i),
{
    assert(seq![i].drop_first() =~= Seq::<usize>::empty());
    assert(seq![i][0] == i);
    let o2 = multi_remove_unfolded(o, emp_id, i);
    assert(crate::role::multi_remove_fold(o2, emp_id, seq![i].drop_first()) == o2);
}

/// Resetting one status slot leaves every slot as it was or available.
pub proof fn lemma_emp_remove_singleton(a: Seq<usize>, i: usize)
    ensures
        ({
            let r = crate::employee::emp_remove_fold(
                a,
                Seq::<(usize, usize)>::empty(),
                seq![i],
            ).0;
            &&& r.len() == a.len()
            &&& forall|p: int| 0 <= p < a.len() ==> (#[trigger] r[p]) == a[p] || r[p] == 1
        }),
{
    assert(seq![i].drop_first() =~= Seq::<usize>::empty());
    assert(seq![i][0] == i);
    if i < a.len() && a[i as int] != 0 {
        let a2 = a.update(i as int, 1usize);
        let c2 = if a[i as int] > 1 {
            Seq::<(usize, usize)>::empty().push((a[i as int], i))
        } else {
            Seq::<(usize, usize)>::empty()
        };
        assert(crate::employee::emp_remove_fold(a2, c2, seq![i].drop_first()) == (a2, c2));
    } else {
        assert(crate::employee::emp_remove_fold(
            a,
            Seq::<(usize, usize)>::empty(),
            seq![i].drop_first(),
        ) == (a, Seq::<(usize, usize)>::empty()));
    }
}

/// Displacement repair only turns status slots into `1`; identity and every
/// other field stay as they were, every displaced employee's named slot
/// ends up off the clock or available, and an employee no displaced pair
/// names is untouched entirely.
pub proof fn lemma_fix_displaced_props(emps: Seq<EmployeeView>, disp: Seq<(usize, usize)>)
    requires
        forall|k1: int, k2: int|
            0 <= k1 < k2 < emps.len() ==> (#[trigger] emps[k1]).id != (#[trigger] emps[k2]).id,
    ensures
        ({
            let emps2 = fix_displaced_fold(emps, disp);
            &&& emps2.len() == emps.len()
            &&& forall|k: int|
                0 <= k < emps.len() ==> ((#[trigger] emps2[k]).id == emps[k].id && emps2[k].name
                    == emps[k].name && emps2[k].roles == emps[k].roles && emps2[k].scheduled
                    == emps[k].scheduled && emps2[k].lunch == emps[k].lunch && emps2[k].clock_in
                    == emps[k].clock_in && emps2[k].clock_out == emps[k].clock_out
                    && emps2[k].assigned.len() == emps[k].assigned.len())
            &&& forall|k: int, i: int|
                0 <= k < emps.len() && 0 <= i < emps[k].assigned.len() ==> ((
                #[trigger] emps2[k].assigned[i]) == emps[k].assigned[i] || emps2[k].assigned[i]
                    == 1)
            &&& forall|p: int, kz: int|
                0 <= p < disp.len() && 0 <= kz < emps.len() && (#[trigger] disp[p]).0 == (
                #[trigger] emps[kz]).id && 0 <= disp[p].1 < emps[kz].assigned.len() ==> emps2[kz].assigned[disp[p].1 as int] <= 1
            &&& forall|kz: int|
                0 <= kz < emps.len() && (forall|p: int|
                    0 <= p < disp.len() ==> (#[trigger] disp[p]).0 != emps[kz].id) ==> (
                #[trigger] emps2[kz]) == emps[kz]
        }),
    decreases disp.len(),
{
    if disp.len() > 0 {
        let eid = disp[0].0;
        let i0 = disp[0].1;
        lemma_find_emp_idx(emps, eid);
        let emps1 = match find_emp_idx(emps, eid) {
            Some(k) => emps.update(
                k,
                emp_with_assigned(
                    emps[k],
                    crate::employee::emp_remove_fold(
                        emps[k].assigned,
                        Seq::<(usize, usize)>::empty(),
                        seq![i0],
                    ).0,
                ),
            ),
            None => emps,
        };
        match find_emp_idx(emps, eid) {
            Some(k) => {
                lemma_emp_remove_singleton(emps[k].assigned, i0);
            },
            None => {},
        }
        assert forall|k1: int, k2: int|
            0 <= k1 < k2 < emps1.len() implies (#[trigger] emps1[k1]).id != (
        #[trigger] emps1[k2]).id by {}
        lemma_fix_displaced_props(emps1, disp.drop_first());
        let emps2 = fix_displaced_fold(emps, disp);
        assert(emps2 == fix_displaced_fold(emps1, disp.drop_first()));
        assert forall|p: int, kz: int|
            0 <= p < disp.len() && 0 <= kz < emps.len() && (#[trigger] disp[p]).0 == (
        #[trigger] emps[kz]).id && 0 <= disp[p].1 < emps[kz].assigned.len() implies emps2[kz].assigned[disp[p].1 as int] <= 1 by {
            if p == 0 {
                match find_emp_idx(emps, eid) {
                    Some(k) => {
                        assert(k == kz) by {
                            if k != kz {
                                assert(emps[k].id == eid);
                            }
                        }
                        assert(emps1[kz].assigned[i0 as int] <= 1) by {
                            lemma_emp_remove_singleton(emps[k].assigned, i0);
                            let row = crate::employee::emp_remove_fold(
                                emps[k].assigned,
                                Seq::<(usize, usize)>::empty(),
                                seq![i0],
                            );
                            assert(seq![i0].drop_first() =~= Seq::<usize>::empty());
                            assert(seq![i0][0] == i0);
                            if i0 < emps[k].assigned.len() && emps[k].assigned[i0 as int] != 0 {
                                let a2 = emps[k].assigned.update(i0 as int, 1usize);
                                let c2 = if emps[k].assigned[i0 as int] > 1 {
                                    Seq::<(usize, usize)>::empty().push(
                                        (emps[k].assigned[i0 as int], i0),
                                    )
                                } else {
                                    Seq::<(usize, usize)>::empty()
                                };
                                assert(crate::employee::emp_remove_fold(
                                    a2,
                                    c2,
                                    seq![i0].drop_first(),
                                ) == (a2, c2));
                                assert(row.0 == a2);
                            }
                        }
                        assert(emps2[kz].assigned[i0 as int] <= 1);
                    },
                    None => {
                        assert(emps[kz].id == eid);
                    },
                }
            } else {
                assert(disp.drop_first()[p - 1] == disp[p]);
                assert(emps1[kz].id == emps[kz].id && emps1[kz].assigned.len()
                    == emps[kz].assigned.len());
            }
        }
        let emps2 = fix_displaced_fold(emps, disp);
        assert forall|kz: int|
            0 <= kz < emps.len() && (forall|p: int|
                0 <= p < disp.len() ==> (#[trigger] disp[p]).0 != emps[kz].id) implies (
        #[trigger] emps2[kz]) == emps[kz] by {
            assert(disp[0].0 != emps[kz].id);
            assert(emps1[kz] == emps[kz]) by {
                match find_emp_idx(emps, eid) {
                    Some(k) => {
                        assert(emps[k].id == eid);
                        assert(k != kz);
                    },
                    None => {},
                }
            }
            assert forall|p: int|
                0 <= p < disp.drop_first().len() implies (#[trigger] disp.drop_first()[p]).0
                    != emps1[kz].id by {
                assert(disp.drop_first()[p] == disp[p + 1]);
            }
        }
    }
}

/// Swap detachment keeps every role's identity, variant and occupancy
/// length; an occupant survives at a block unless a swap names that role at
/// that block, and in a shared role any occupant other than the detached
/// employee survives in any case.
pub proof fn lemma_detach_swaps_props(roles: Seq<RoleView>, emp_id: usize, swaps: Seq<(usize, usize)>)
    requires
        forall|rk: int, p: int|
            0 <= rk < roles.len() && 0 <= p < swaps.len() ==> (#[trigger] swaps[p]).1 < (
            #[trigger] roles[rk]).occ.len(),
    ensures
        ({
            let roles2 = detach_swaps_fold(roles, emp_id, swaps);
            &&& roles2.len() == roles.len()
            &&& forall|rk: int|
                0 <= rk < roles.len() ==> ((#[trigger] roles2[rk]).id == roles[rk].id
                    && roles2[rk].sort == roles[rk].sort && roles2[rk].name == roles[rk].name
                    && roles2[rk].color == roles[rk].color && roles2[rk].empty == roles[rk].empty
                    && roles2[rk].occ.len() == roles[rk].occ.len() && ((roles2[rk].occ is Multi)
                    <==> (roles[rk].occ is Multi)))
            &&& forall|rk: int, i: int, x: usize|
                0 <= rk < roles.len() && 0 <= i < roles[rk].occ.len() && (#[trigger] roles[rk].occ.occupies(i, x)) && !has_swap(swaps, roles[rk].id, i) ==> roles2[rk].occ.occupies(i, x)
            &&& forall|rk: int, i: int, x: usize|
                0 <= rk < roles.len() && 0 <= i < roles[rk].occ.len() && roles[rk].occ is Multi && (
                #[trigger] roles[rk].occ.occupies(i, x)) && x != emp_id ==> roles2[rk].occ.occupies(
                    i,
                    x,
                )
        }),
    decreases swaps.len(),
{
    if swaps.len() > 0 {
        let rid = swaps[0].0;
        let i0 = swaps[0].1;
        lemma_find_role_idx(roles, rid);
        let roles1 = match find_role_idx(roles, rid) {
            Some(k) => {
                let r = roles[k];
                let occ2 = match r.occ {
                    OccView::Single(o) => OccView::Single(
                        crate::role::single_remove_fold(o, seq![i0]),
                    ),
                    OccView::Multi(o) => OccView::Multi(
                        crate::role::multi_remove_fold(o, emp_id, seq![i0]),
                    ),
                };
                roles.update(k, role_with_occ(r, occ2, r.empty))
            },
            None => roles,
        };
        assert forall|rk: int, p: int|
            0 <= rk < roles1.len() && 0 <= p < swaps.drop_first().len() implies (
        #[trigger] swaps.drop_first()[p]).1 < (#[trigger] roles1[rk]).occ.len() by {
            assert(swaps.drop_first()[p] == swaps[p + 1]);
            match find_role_idx(roles, rid) {
                Some(k) => {
                    lemma_find_role_idx(roles, rid);
                    if rk == k {
                        match roles[k].occ {
                            OccView::Single(o) => {
                                lemma_single_remove_singleton(o, i0);
                            },
                            OccView::Multi(o) => {
                                crate::role::lemma_multi_remove_fold_len(o, emp_id, seq![i0]);
                            },
                        }
                    }
                },
                None => {},
            }
        }
        lemma_detach_swaps_props(roles1, emp_id, swaps.drop_first());
        let roles2 = detach_swaps_fold(roles, emp_id, swaps);
        assert(roles2 == detach_swaps_fold(roles1, emp_id, swaps.drop_first()));
        // step facts about roles1 relative to roles
        assert forall|rk: int|
            0 <= rk < roles.len() implies ((#[trigger] roles1[rk]).id == roles[rk].id && roles1[rk].sort == roles[rk].sort && roles1[rk].name == roles[rk].name && roles1[rk].color
            == roles[rk].color && roles1[rk].empty == roles[rk].empty && roles1[rk].occ.len()
            == roles[rk].occ.len() && ((roles1[rk].occ is Multi) <==> (roles[rk].occ is Multi))) by {
            match find_role_idx(roles, rid) {
                Some(k) => {
                    lemma_find_role_idx(roles, rid);
                    if rk == k {
                        match roles[k].occ {
                            OccView::Single(o) => {
                                lemma_single_remove_singleton(o, i0);
                            },
                            OccView::Multi(o) => {
                                crate::role::lemma_multi_remove_fold_len(o, emp_id, seq![i0]);
                            },
                        }
                    }
                },
                None => {},
            }
        }
        assert forall|rk: int, i: int, x: usize|
            0 <= rk < roles.len() && 0 <= i < roles[rk].occ.len() && (#[trigger] roles[rk].occ.occupies(i, x)) && !has_swap(swaps, roles[rk].id, i) implies roles2[rk].occ.occupies(
            i,
            x,
        ) by {
            assert(!has_swap(swaps.drop_first(), roles[rk].id, i)) by {
                if has_swap(swaps.drop_first(), roles[rk].id, i) {
                    let p = choose|p: int|
                        0 <= p < swaps.drop_first().len() && (#[trigger] swaps.drop_first()[p]).0
                            == roles[rk].id && swaps.drop_first()[p].1 == i;
                    assert(swaps[p + 1] == swaps.drop_first()[p]);
                }
            }
            assert(roles1[rk].occ.occupies(i, x)) by {
                match find_role_idx(roles, rid) {
                    Some(k) => {
                        lemma_find_role_idx(roles, rid);
                        if rk == k {
                            assert(roles[rk].id == rid);
                            assert(!(swaps[0].0 == roles[rk].id && swaps[0].1 == i));
                            assert(i0 != i);
                            match roles[k].occ {
                                OccView::Single(o) => {
                                    lemma_single_remove_singleton(o, i0);
                                },
                                OccView::Multi(o) => {
                                    lemma_multi_remove_singleton(o, emp_id, i0);
                                },
                            }
                        }
                    },
                    None => {},
                }
            }
            assert(roles1[rk].id == roles[rk].id);
            assert(0 <= rk < roles1.len());
            assert(roles1[rk].occ.len() == roles[rk].occ.len());
            assert(!has_swap(swaps.drop_first(), roles1[rk].id, i));
            assert(roles2[rk].occ.occupies(i, x));
        }
        assert forall|rk: int, i: int, x: usize|
            0 <= rk < roles.len() && 0 <= i < roles[rk].occ.len() && roles[rk].occ is Multi && (
        #[trigger] roles[rk].occ.occupies(i, x)) && x != emp_id implies roles2[rk].occ.occupies(
            i,
            x,
        ) by {
            assert(roles1[rk].occ.occupies(i, x)) by {
                match find_role_idx(roles, rid) {
                    Some(k) => {
                        lemma_find_role_idx(roles, rid);
                        if rk == k {
                            match roles[k].occ {
                                OccView::Multi(o) => {
                                    lemma_multi_remove_singleton(o, emp_id, i0);
                                    if i0 < o.len() {
                                        match crate::role::find_index(o[i0 as int], emp_id) {
                                            Some(j) => {
                                                crate::role::lemma_find_index(o[i0 as int], emp_id);
                                                crate::role::lemma_remove_one_membership(
                                                    o[i0 as int],
                                                    j,
                                                );
                                                if i == i0 {
                                                    assert(o[i0 as int].remove(j).contains(x));
                                                }
                                            },
                                            None => {},
                                        }
                                    }
                                },
                                OccView::Single(_) => {},
                            }
                        }
                    },
                    None => {},
                }
            }
            assert(roles1[rk].occ is Multi);
            assert(0 <= rk < roles1.len());
            assert(roles1[rk].occ.len() == roles[rk].occ.len());
            assert(roles2[rk].occ.occupies(i, x));
        }
    }
}

/// One shared detachment step, written out.
pub open spec fn multi_remove_unfolded(o: Seq<Seq<usize>>, emp_id: usize, i0: usize) -> Seq<
    Seq<usize>,
> {
    if i0 < o.len() {
        match crate::role::find_index(o[i0 as int], emp_id) {
            Some(j) => o.update(i0 as int, o[i0 as int].remove(j)),
            None => o,
        }
    } else {
        o
    }
}


/// A successful assignment preserves the standing invariant: every status
/// slot of two or more still names an existing role whose occupancy holds
/// the employee.
#[verifier::rlimit(80)]
pub proof fn lemma_assign_ok_preserves_inv(
    b: BusinessView,
    ke: int,
    kr: int,
    role_id: usize,
    idx: Seq<usize>,
)
    requires
        inv(b),
        0 <= ke < b.employees.len(),
        0 <= kr < b.roles.len(),
        b.roles[kr].id == role_id,
    ensures
        inv(assign_block_ok_spec(b, ke, kr, role_id, idx).0),
{
    let e = b.employees[ke];
    let r = b.roles[kr];
    let f = crate::employee::emp_assign_fold(
        e.assigned,
        Seq::<usize>::empty(),
        Seq::<(usize, usize)>::empty(),
        role_id,
        idx,
    );
    crate::employee::lemma_emp_assign_fold_props(
        e.assigned,
        Seq::<usize>::empty(),
        Seq::<(usize, usize)>::empty(),
        role_id,
        idx,
    );
    let ns = f.1.skip(0);
    assert(ns =~= f.1);
    assert(f.2.skip(0) =~= f.2);
    let rres = match r.occ {
        OccView::Single(o) => {
            let g = crate::role::single_add_fold(o, Seq::<(usize, usize)>::empty(), e.id, f.1);
            (OccView::Single(g.0), g.1)
        },
        OccView::Multi(o) => (
            OccView::Multi(crate::role::multi_add_fold(o, e.id, f.1)),
            Seq::<(usize, usize)>::empty(),
        ),
    };
    if r.occ is Single {
        assert(role_id >= 3) by {
            assert(b.roles[kr].id >= 2);
        }
        assert(f.1.no_duplicates());
        crate::role::lemma_single_add_fold_props(
            r.occ->Single_0,
            Seq::<(usize, usize)>::empty(),
            e.id,
            f.1,
        );
    } else {
        crate::role::lemma_multi_add_fold_props(r.occ->Multi_0, e.id, f.1);
    }
    let b1 = BusinessView {
        employees: b.employees.update(ke, emp_with_assigned(e, f.0)),
        roles: b.roles.update(kr, role_with_occ(r, rres.0, false)),
        ..b
    };
    assert forall|k1: int, k2: int|
        0 <= k1 < k2 < b1.employees.len() implies (#[trigger] b1.employees[k1]).id != (
    #[trigger] b1.employees[k2]).id by {}
    lemma_fix_displaced_props(b1.employees, rres.1);
    let b2 = BusinessView { employees: fix_displaced_fold(b1.employees, rres.1), ..b1 };
    assert forall|rk: int, p: int|
        0 <= rk < b2.roles.len() && 0 <= p < f.2.len() implies (#[trigger] f.2[p]).1 < (
    #[trigger] b2.roles[rk]).occ.len() by {
        assert(f.2[p].1 < e.assigned.len());
        if rk == kr {
            assert(b2.roles[rk].occ == rres.0);
            assert(rres.0.len() == r.occ.len());
        }
    }
    lemma_detach_swaps_props(b2.roles, e.id, f.2);
    let b3 = BusinessView { roles: detach_swaps_fold(b2.roles, e.id, f.2), ..b2 };
    let out = assign_block_ok_spec(b, ke, kr, role_id, idx).0;
    assert(out == b3);
    // scalar and length facts
    assert(b3.employees.len() == b.employees.len());
    assert(b3.roles.len() == b.roles.len());
    assert forall|k: int|
        0 <= k < b3.roles.len() implies (#[trigger] b3.roles[k]).id == b.roles[k].id && b3.roles[k].occ.len() == b.blocks && ((b3.roles[k].occ is Multi) <==> (b.roles[k].occ is Multi)) by {
        assert(b2.roles[k].id == b.roles[k].id);
        assert(b2.roles[k].occ.len() == b.roles[k].occ.len());
    }
    assert forall|k: int|
        0 <= k < b3.employees.len() implies (#[trigger] b3.employees[k]).id == b.employees[k].id
            && b3.employees[k].assigned.len() == b.blocks && b3.employees[k].clock_in.valid()
            && b3.employees[k].clock_out.valid() by {
        assert(b1.employees[k].id == b.employees[k].id);
        assert(b1.employees[k].assigned.len() == b.blocks);
    }
    assert(role_id_taken(b3.roles, 2)) by {
        let k2 = choose|k: int| 0 <= k < b.roles.len() && (#[trigger] b.roles[k]).id == 2;
        assert(b3.roles[k2].id == 2);
    }
    // consistency
    assert forall|k: int, i: int|
        0 <= k < b3.employees.len() && 0 <= i < b3.blocks implies #[trigger] consistent_at(
        b3,
        k,
        i,
    ) by {
        let v3 = b3.employees[k].assigned[i];
        if v3 >= 2 {
            assert(b3.employees[k].assigned[i] == b1.employees[k].assigned[i] || b3.employees[k].assigned[i] == 1);
            let v1 = b1.employees[k].assigned[i];
            assert(v1 == v3);
            if k == ke {
                assert(b1.employees[k] == emp_with_assigned(e, f.0));
                assert(v1 == f.0[i]);
                if crate::role::has_idx(ns, i) {
                    // freshly assigned: the target role holds the employee
                    assert(v3 == role_id);
                    assert(b3.roles[kr].id == role_id);
                    assert(rres.0.occupies(i, e.id)) by {
                        match r.occ {
                            OccView::Single(o) => {},
                            OccView::Multi(o) => {},
                        }
                    }
                    assert(!has_swap(f.2, role_id, i)) by {
                        if has_swap(f.2, role_id, i) {
                            let p = choose|p: int|
                                0 <= p < f.2.len() && (#[trigger] f.2[p]).0 == role_id && f.2[p].1
                                    == i;
                        }
                    }
                    assert(b3.roles[kr].occ.occupies(i, b3.employees[k].id));
                    assert(consistent_at(b3, k, i));
                } else {
                    // an old claim of the assigning employee, untouched
                    assert(v1 == e.assigned[i]);
                    assert(consistent_at(b, ke, i));
                    let rq = choose|rq: int|
                        0 <= rq < b.roles.len() && (#[trigger] b.roles[rq]).id == v3 && b.roles[rq].occ.occupies(i, e.id);
                    assert(!has_swap(f.2, v3, i)) by {
                        if has_swap(f.2, v3, i) {
                            let p = choose|p: int|
                                0 <= p < f.2.len() && (#[trigger] f.2[p]).0 == v3 && f.2[p].1 == i;
                            assert(crate::role::has_idx(ns, i));
                        }
                    }
                    if rq == kr {
                        assert(v3 == role_id);
                        assert(rres.0.occupies(i, e.id)) by {
                            match r.occ {
                                OccView::Single(o) => {
                                    assert(!crate::role::has_idx(f.1, i));
                                },
                                OccView::Multi(o) => {},
                            }
                        }
                        assert(b3.roles[kr].occ.occupies(i, e.id));
                    } else {
                        assert(b2.roles[rq].occ == b.roles[rq].occ);
                        assert(b3.roles[rq].occ.occupies(i, e.id));
                    }
                    assert(consistent_at(b3, k, i));
                }
            } else {
                // another employee's claim, untouched on the employee side
                assert(b1.employees[k] == b.employees[k]);
                let z = b.employees[k];
                assert(v1 == z.assigned[i]);
                assert(consistent_at(b, k, i));
                let rq = choose|rq: int|
                    0 <= rq < b.roles.len() && (#[trigger] b.roles[rq]).id == v3 && b.roles[rq].occ.occupies(i, z.id);
                assert(z.id != e.id) by {
                    if k < ke {
                        assert(b.employees[k].id != b.employees[ke].id);
                    } else {
                        assert(b.employees[ke].id != b.employees[k].id);
                    }
                }
                if rq == kr {
                    assert(v3 == role_id);
                    match r.occ {
                        OccView::Single(o) => {
                            assert(o[i] == z.id);
                            if crate::role::has_idx(f.1, i) {
                                // the slot was just taken over: z was displaced,
                                // so its status here is at most available
                                assert(z.id > 0);
                                let g = crate::role::single_add_fold(
                                    o,
                                    Seq::<(usize, usize)>::empty(),
                                    e.id,
                                    f.1,
                                );
                                assert(exists|p: int|
                                    0 <= p < g.1.len() && (#[trigger] g.1[p]) == (z.id, i as usize));
                                let p = choose|p: int|
                                    0 <= p < g.1.len() && (#[trigger] g.1[p]) == (
                                    z.id,
                                    i as usize,
                                    );
                                assert(b2.employees[k].assigned[i] <= 1);
                                assert(false);
                            } else {
                                assert(rres.0.occupies(i, z.id));
                                assert(!has_swap(f.2, role_id, i)) by {
                                    if has_swap(f.2, role_id, i) {
                                        let p = choose|p: int|
                                            0 <= p < f.2.len() && (#[trigger] f.2[p]).0 == role_id
                                                && f.2[p].1 == i;
                                    }
                                }
                                assert(b3.roles[kr].occ.occupies(i, z.id));
                            }
                        },
                        OccView::Multi(o) => {
                            assert(rres.0.occupies(i, z.id));
                            assert(b3.roles[kr].occ is Multi);
                            assert(b2.roles[kr].occ.occupies(i, z.id));
                            assert(b3.roles[kr].occ.occupies(i, z.id));
                        },
                    }
                } else {
                    assert(b2.roles[rq].occ == b.roles[rq].occ);
                    if b.roles[rq].occ is Multi {
                        assert(b3.roles[rq].occ.occupies(i, z.id));
                    } else {
                        assert(!has_swap(f.2, v3, i)) by {
                            if has_swap(f.2, v3, i) {
                                let p = choose|p: int|
                                    0 <= p < f.2.len() && (#[trigger] f.2[p]).0 == v3 && f.2[p].1
                                        == i;
                                assert(e.assigned[i] == v3 && v3 >= 3);
                                assert(consistent_at(b, ke, i));
                                let rq2 = choose|rq2: int|
                                    0 <= rq2 < b.roles.len() && (#[trigger] b.roles[rq2]).id == v3
                                        && b.roles[rq2].occ.occupies(i, e.id);
                                assert(rq2 == rq) by {
                                    if rq2 < rq {
                                        assert(b.roles[rq2].id != b.roles[rq].id);
                                    } else if rq < rq2 {
                                        assert(b.roles[rq].id != b.roles[rq2].id);
                                    }
                                }
                                assert(b.roles[rq].occ.occupies(i, e.id));
                                assert(z.id == e.id);
                            }
                        }
                        assert(b3.roles[rq].occ.occupies(i, z.id));
                    }
                }
                assert(b3.employees[k].id == z.id);
                assert(b3.roles[rq].id == v3 || kr == rq);
                assert(consistent_at(b3, k, i));
            }
        }
    }
    assert(inv(b3));
}


/// What a successful `remove_block` does: the employee's listed slots are
/// released to available, and each role or lunch status that was cleared is
/// detached from that role's occupancy at that block.
pub open spec fn remove_block_ok_spec(b: BusinessView, ke: int, idx: Seq<usize>) -> BusinessView {
    let e = b.employees[ke];
    let f = crate::employee::emp_remove_fold(
        e.assigned,
        Seq::<(usize, usize)>::empty(),
        idx,
    );
    let b1 = BusinessView {
        employees: b.employees.update(ke, emp_with_assigned(e, f.0)),
        ..b
    };
    BusinessView { roles: detach_swaps_fold(b1.roles, e.id, f.1), ..b1 }
}

/// Releasing blocks preserves the standing invariant.
#[verifier::rlimit(60)]
pub proof fn lemma_remove_ok_preserves_inv(b: BusinessView, ke: int, idx: Seq<usize>)
    requires
        inv(b),
        0 <= ke < b.employees.len(),
    ensures
        inv(remove_block_ok_spec(b, ke, idx)),
{
    let e = b.employees[ke];
    let f = crate::employee::emp_remove_fold(
        e.assigned,
        Seq::<(usize, usize)>::empty(),
        idx,
    );
    crate::employee::lemma_emp_remove_fold_props(
        e.assigned,
        Seq::<(usize, usize)>::empty(),
        idx,
    );
    let nc = f.1.skip(0);
    assert(nc =~= f.1);
    let b1 = BusinessView {
        employees: b.employees.update(ke, emp_with_assigned(e, f.0)),
        ..b
    };
    assert forall|rk: int, p: int|
        0 <= rk < b1.roles.len() && 0 <= p < f.1.len() implies (#[trigger] f.1[p]).1 < (
    #[trigger] b1.roles[rk]).occ.len() by {
        assert(f.1[p].1 < e.assigned.len());
    }
    lemma_detach_swaps_props(b1.roles, e.id, f.1);
    let b2 = remove_block_ok_spec(b, ke, idx);
    assert(b2.roles == detach_swaps_fold(b1.roles, e.id, f.1));
    assert(role_id_taken(b2.roles, 2)) by {
        let k2 = choose|k: int| 0 <= k < b.roles.len() && (#[trigger] b.roles[k]).id == 2;
        assert(b2.roles[k2].id == 2);
    }
    assert forall|k: int, i: int|
        0 <= k < b2.employees.len() && 0 <= i < b2.blocks implies #[trigger] consistent_at(
        b2,
        k,
        i,
    ) by {
        let v = b2.employees[k].assigned[i];
        if v >= 2 {
            if k == ke {
                assert(v == f.0[i]);
                assert(f.0[i] == e.assigned[i]);
                assert(consistent_at(b, ke, i));
                let rq = choose|rq: int|
                    0 <= rq < b.roles.len() && (#[trigger] b.roles[rq]).id == v && b.roles[rq].occ.occupies(i, e.id);
                assert(!has_swap(f.1, v, i)) by {
                    if has_swap(f.1, v, i) {
                        let p = choose|p: int|
                            0 <= p < f.1.len() && (#[trigger] f.1[p]).0 == v && f.1[p].1 == i;
                        assert(f.0[i] == 1);
                    }
                }
                assert(b2.roles[rq].occ.occupies(i, e.id));
                assert(b2.employees[k].id == e.id);
                assert(b2.roles[rq].id == v);
                assert(consistent_at(b2, k, i));
            } else {
                let z = b.employees[k];
                assert(b2.employees[k].assigned[i] == z.assigned[i]);
                assert(consistent_at(b, k, i));
                let rq = choose|rq: int|
                    0 <= rq < b.roles.len() && (#[trigger] b.roles[rq]).id == v && b.roles[rq].occ.occupies(i, z.id);
                assert(z.id != e.id) by {
                    if k < ke {
                        assert(b.employees[k].id != b.employees[ke].id);
                    } else {
                        assert(b.employees[ke].id != b.employees[k].id);
                    }
                }
                if b.roles[rq].occ is Multi {
                    assert(b2.roles[rq].occ.occupies(i, z.id));
                } else {
                    assert(!has_swap(f.1, v, i)) by {
                        if has_swap(f.1, v, i) {
                            let p = choose|p: int|
                                0 <= p < f.1.len() && (#[trigger] f.1[p]).0 == v && f.1[p].1 == i;
                            assert(e.assigned[i] == v && v >= 2);
                            assert(consistent_at(b, ke, i));
                            let rq2 = choose|rq2: int|
                                0 <= rq2 < b.roles.len() && (#[trigger] b.roles[rq2]).id == v
                                    && b.roles[rq2].occ.occupies(i, e.id);
                            assert(rq2 == rq) by {
                                if rq2 < rq {
                                    assert(b.roles[rq2].id != b.roles[rq].id);
                                } else if rq < rq2 {
                                    assert(b.roles[rq].id != b.roles[rq2].id);
                                }
                            }
                            assert(b.roles[rq].occ.occupies(i, e.id));
                            assert(z.id == e.id);
                        }
                    }
                    assert(b2.roles[rq].occ.occupies(i, z.id));
                }
                assert(b2.employees[k].id == z.id);
                assert(consistent_at(b2, k, i));
            }
        }
    }
    assert(inv(b2));
}

impl Business {
    /// Releases the employee's listed blocks back to available and detaches
    /// each released lunch or role status from the owning role's occupancy.
    /// Out-of-range indexes are ignored. Fails without effect only when the
    /// employee id does not resolve.
    pub fn remove_block(&mut self, employee: usize, blocks: Vec<usize>) -> (r: Result<
        (),
        crate::BusinessError,
    >)
        requires
            old(self).wf(),
        ensures
            final(self).wf(),
            match find_emp_idx(old(self)@.employees, employee) {
                None => (r matches Err(crate::BusinessError::EmployeeNotFound) && final(self)@
                    == old(self)@),
                Some(ke) => (r matches Ok(u) && final(self)@ == remove_block_ok_spec(
                    old(self)@,
                    ke,
                    blocks@,
                )),
            },
    {
        let ghost b0 = self@;
        let ke = match self.find_employee(employee) {
            Some(k) => k,
            None => {
                return Err(crate::BusinessError::EmployeeNotFound);
            },
        };
        proof {
            lemma_find_emp_idx(b0.employees, employee);
            lemma_remove_ok_preserves_inv(b0, ke as int, blocks@);
        }
        let ghost e = b0.employees[ke as int];
        let ghost f = crate::employee::emp_remove_fold(
            e.assigned,
            Seq::<(usize, usize)>::empty(),
            blocks@,
        );
        proof {
            crate::employee::lemma_emp_remove_fold_props(
                e.assigned,
                Seq::<(usize, usize)>::empty(),
                blocks@,
            );
            assert(f.1.skip(0) =~= f.1);
        }
        let emp_id = self.employees[ke].id;
        let cleared = self.employees[ke].remove_block(blocks);
        let ghost e_mid = b0.employees.update(ke as int, emp_with_assigned(e, f.0));
        proof {
            assert(cleared@ == f.1);
            assert(emps_view(self.employees) =~= e_mid);
        }
        proof {
            assert(cleared@.skip(0) =~= cleared@);
        }
        let mut w: usize = 0;
        while w < cleared.len()
            invariant
                w <= cleared@.len(),
                emps_view(self.employees) == e_mid,
                cleared@ == f.1,
                detach_swaps_fold(b0.roles, e.id, cleared@) == detach_swaps_fold(
                    roles_view(self.roles),
                    e.id,
                    cleared@.skip(w as int),
                ),
                roles_view(self.roles).len() == b0.roles.len(),
                forall|k: int|
                    0 <= k < roles_view(self.roles).len() ==> (#[trigger] roles_view(
                        self.roles,
                    )[k]).occ.len() == b0.blocks && roles_view(self.roles)[k].id == b0.roles[k].id,
                forall|p: int|
                    0 <= p < f.1.len() ==> (#[trigger] f.1[p]).1 < b0.blocks && f.1[p].0 >= 2
                        && e.assigned[f.1[p].1 as int] == f.1[p].0,
                emp_id == e.id,
                inv(b0),
                0 <= ke < b0.employees.len(),
                e == b0.employees[ke as int],
                self@.open == b0.open,
                self@.close == b0.close,
                self@.blocks == b0.blocks,
                self@.block_size == b0.block_size,
                self@.role_colors == b0.role_colors,
            decreases cleared@.len() - w,
        {
            let ghost pre = roles_view(self.roles);
            let pair = cleared[w];
            match self.find_role(pair.0) {
                Some(krr) => {
                    let mut one: Vec<usize> = Vec::new();
                    one.push(pair.1);
                    proof {
                        assert(one@ =~= seq![pair.1]);
                        lemma_find_role_idx(pre, pair.0);
                    }
                    self.roles[krr].remove_block(&emp_id, one);
                    proof {
                        let rr = pre[krr as int];
                        let occ2 = match rr.occ {
                            OccView::Single(o) => OccView::Single(
                                crate::role::single_remove_fold(o, seq![pair.1]),
                            ),
                            OccView::Multi(o) => OccView::Multi(
                                crate::role::multi_remove_fold(o, e.id, seq![pair.1]),
                            ),
                        };
                        assert(roles_view(self.roles) =~= pre.update(
                            krr as int,
                            role_with_occ(rr, occ2, rr.empty),
                        ));
                    }
                },
                None => {
                    proof {
                        lemma_find_role_idx(pre, pair.0);
                        assert(e.assigned[pair.1 as int] == pair.0 && pair.0 >= 2);
                        assert(consistent_at(b0, ke as int, pair.1 as int));
                        let rq = choose|rq: int|
                            0 <= rq < b0.roles.len() && (#[trigger] b0.roles[rq]).id == pair.0
                                && b0.roles[rq].occ.occupies(pair.1 as int, e.id);
                        assert(pre[rq].id == pair.0);
                        assert(false);
                    }
                    return Err(crate::BusinessError::RoleNotFound);
                },
            }
            proof {
                assert(cleared@.skip(w as int)[0] == cleared@[w as int]);
                assert(cleared@.skip(w as int).drop_first() =~= cleared@.skip(w as int + 1));
                assert(detach_swaps_fold(pre, e.id, cleared@.skip(w as int)) == detach_swaps_fold(
                    roles_view(self.roles),
                    e.id,
                    cleared@.skip(w as int + 1),
                ));
            }
            w = w + 1;
        }
        proof {
            assert(cleared@.skip(cleared@.len() as int) =~= Seq::<(usize, usize)>::empty());
            assert(self@ == remove_block_ok_spec(b0, ke as int, blocks@));
        }
        Ok(())
    }
}


/// The identity and shape conditions on the tables alone: unique ids in
/// both tables, role ids of at least 2, employee ids of at least 1, and a
/// shared lunch role with id 2 present.
pub open spec fn tables_ok(b: BusinessView) -> bool {
    &&& forall|k1: int, k2: int|
        0 <= k1 < k2 < b.employees.len() ==> (#[trigger] b.employees[k1]).id != (
        #[trigger] b.employees[k2]).id
    &&& forall|k1: int, k2: int|
        0 <= k1 < k2 < b.roles.len() ==> (#[trigger] b.roles[k1]).id != (#[trigger] b.roles[k2]).id
    &&& forall|k: int| 0 <= k < b.roles.len() ==> (#[trigger] b.roles[k]).id >= 2
    &&& forall|k: int| 0 <= k < b.employees.len() ==> (#[trigger] b.employees[k]).id >= 1
    &&& role_id_taken(b.roles, 2)
    &&& forall|k: int|
        0 <= k < b.roles.len() && (#[trigger] b.roles[k]).id == 2 ==> b.roles[k].occ is Multi
}

/// The clock-in bound clamped into `[open, max(open, close)]`: raised to
/// `open`, lowered to `close` when the window is non-empty, and pinned to
/// `open` when `open` lies after `close`. Clamping a clamped value changes
/// nothing, so repeating a grid reset repeats its result exactly, even for
/// an empty window.
pub open spec fn clamp_clock_in(open: TimeOfDay, close: TimeOfDay, ci: TimeOfDay) -> TimeOfDay {
    if ci.secs < open.secs {
        open
    } else if close.secs >= open.secs && ci.secs > close.secs {
        close
    } else if close.secs < open.secs && ci.secs > open.secs {
        open
    } else {
        ci
    }
}

/// Both clock clamps are idempotent: clamping a clamped value returns it
/// unchanged.
pub proof fn lemma_clamp_idempotent(open: TimeOfDay, close: TimeOfDay, ci: TimeOfDay, co: TimeOfDay)
    ensures
        clamp_clock_in(open, close, clamp_clock_in(open, close, ci)) == clamp_clock_in(
            open,
            close,
            ci,
        ),
        clamp_clock_out(open, close, clamp_clock_out(open, close, co)) == clamp_clock_out(
            open,
            close,
            co,
        ),
{
}

/// The clock-out bound clamped into the business hours: anything outside
/// `[open, close]` becomes `close`.
pub open spec fn clamp_clock_out(open: TimeOfDay, close: TimeOfDay, co: TimeOfDay) -> TimeOfDay {
    if co.secs > close.secs || co.secs < open.secs {
        close
    } else {
        co
    }
}

/// A clamped fresh row covers exactly the grid.
pub proof fn lemma_fresh_len_clamped(
    open: TimeOfDay,
    close: TimeOfDay,
    ci: TimeOfDay,
    co: TimeOfDay,
    bs: int,
)
    requires
        bs >= 1,
    ensures
        ({
            let ci2 = clamp_clock_in(open, close, ci);
            let co2 = clamp_clock_out(open, close, co);
            crate::employee::fresh_pattern(
                open.secs as int,
                ci2.secs as int,
                co2.secs as int,
                close.secs as int,
                bs,
            ).len() == steps_until(open.secs as int, close.secs as int, bs)
        }),
{
    let o = open.secs as int;
    let cl = close.secs as int;
    let ci2 = clamp_clock_in(open, close, ci);
    let co2 = clamp_clock_out(open, close, co);
    if o <= cl {
        crate::employee::lemma_fresh_pattern_len(o, ci2.secs as int, co2.secs as int, cl, bs);
    } else {
        assert(steps_until(o, cl, bs) == 0);
        assert(steps_until(o, ci2.secs as int, bs) == 0);
        assert(steps_until(o, co2.secs as int, bs) == 0);
    }
}

/// Every slot of a fresh row is off the clock or available.
pub proof fn lemma_fresh_pattern_small(open: int, ci: int, co: int, close: int, bs: int)
    ensures
        forall|i: int|
            0 <= i < crate::employee::fresh_pattern(open, ci, co, close, bs).len() ==> (
            #[trigger] crate::employee::fresh_pattern(open, ci, co, close, bs)[i]) <= 1,
{
}

impl Business {
    /// Removes the role from the employee's qualification set and releases
    /// every block the employee held it on: the employee's status there
    /// returns to available and the role's occupancy drops the employee
    /// everywhere. Fails without effect when an id does not resolve or the
    /// role is not in the set.
    pub fn restrict_role(&mut self, emp: usize, role: usize) -> (r: Result<(), crate::BusinessError>)
        requires
            old(self).wf(),
        ensures
            final(self).wf(),
            match (
                find_emp_idx(old(self)@.employees, emp),
                find_role_idx(old(self)@.roles, role),
            ) {
                (None, _) => (r matches Err(crate::BusinessError::EmployeeNotFound) && final(self)@
                    == old(self)@),
                (Some(_), None) => (r matches Err(crate::BusinessError::RoleNotFound) && final(self)@ == old(self)@),
                (Some(ke), Some(kr)) => (if !old(self)@.employees[ke].roles.contains(role) {
                    r matches Err(crate::BusinessError::EmployeeError(
                        crate::EmployeeError::NotAssignedRole { failed, allowed },
                    )) && failed == role && allowed@ == old(self)@.employees[ke].roles && final(self)@ == old(self)@
                } else {
                    r matches Ok(u) && ({
                        let e = old(self)@.employees[ke];
                        let rr = old(self)@.roles[kr];
                        &&& (match crate::role::find_index(e.roles, role) {
                            Some(j) => final(self)@.employees[ke].roles == e.roles.remove(j),
                            None => false,
                        })
                        &&& final(self)@.employees[ke].assigned.len() == e.assigned.len()
                        &&& forall|i: int|
                            0 <= i < e.assigned.len() ==> final(self)@.employees[ke].assigned[i]
                                == (if e.assigned[i] == role {
                                1usize
                            } else {
                                e.assigned[i]
                            })
                        &&& forall|k: int|
                            0 <= k < old(self)@.employees.len() && k != ke ==> final(self)@.employees[k] == old(self)@.employees[k]
                        &&& final(self)@.roles.len() == old(self)@.roles.len()
                        &&& forall|k: int|
                            0 <= k < old(self)@.roles.len() && k != kr ==> final(self)@.roles[k]
                                == old(self)@.roles[k]
                        &&& crate::role::same_meta_view(rr, final(self)@.roles[kr])
                        &&& (rr.occ is Single ==> forall|i: int|
                            0 <= i < rr.occ.len() ==> final(self)@.roles[kr].occ->Single_0[i] == (
                            if rr.occ->Single_0[i] == e.id {
                                0usize
                            } else {
                                rr.occ->Single_0[i]
                            }))
                        &&& (rr.occ is Multi ==> forall|i: int|
                            0 <= i < rr.occ.len() ==> final(self)@.roles[kr].occ->Multi_0[i]
                                == crate::role::without(rr.occ->Multi_0[i], e.id))
                        &&& final(self)@.open == old(self)@.open
                        &&& final(self)@.close == old(self)@.close
                        &&& final(self)@.blocks == old(self)@.blocks
                        &&& final(self)@.block_size == old(self)@.block_size
                        &&& final(self)@.role_colors == old(self)@.role_colors
                    })
                }),
            },
    {
        let ghost b0 = self@;
        let ke = match self.find_employee(emp) {
            Some(k) => k,
            None => {
                return Err(crate::BusinessError::EmployeeNotFound);
            },
        };
        let kr = match self.find_role(role) {
            Some(k) => k,
            None => {
                return Err(crate::BusinessError::RoleNotFound);
            },
        };
        proof {
            lemma_find_emp_idx(b0.employees, emp);
            lemma_find_role_idx(b0.roles, role);
        }
        let ghost e = b0.employees[ke as int];
        let rid = self.roles[kr].id();
        let res = self.employees[ke].remove_role(rid);
        match res {
            Err(er) => {
                proof {
                    assert(emps_view(self.employees) =~= b0.employees);
                    assert(self@ == b0);
                }
                return Err(er);
            },
            Ok(u) => {},
        }
        let emp_id = self.employees[ke].id;
        self.roles[kr].clear_employee(&emp_id);
        proof {
            crate::role::lemma_find_index(e.roles, role);
            let bf = self@;
            assert(emp_id == e.id);
            let r0 = b0.roles[kr as int];
            let r2 = roles_view(self.roles)[kr as int];
            let rex_old = old(self).roles@[kr as int];
            let rex_new = self.roles@[kr as int];
            assert(r0 == rex_old@);
            assert(r2 == rex_new@);
            assert((rex_new is SingleRole) <==> (rex_old is SingleRole));
            assert((r2.occ is Single) <==> (r0.occ is Single));
            if r0.occ is Single {
                assert(rex_old is SingleRole);
                assert(r0.occ->Single_0 == rex_old.single_occ());
                assert(r2.occ->Single_0 == rex_new.single_occ());
                assert(rex_old.occ_len() == r0.occ.len());
                assert(forall|i: int|
                    0 <= i < rex_old.occ_len() ==> (#[trigger] rex_new.single_occ()[i]) == (if rex_old.single_occ()[i]
                        == e.id {
                        0usize
                    } else {
                        rex_old.single_occ()[i]
                    }));
            }
            if r0.occ is Single {
                assert(forall|i: int|
                    0 <= i < r0.occ.len() ==> (#[trigger] r2.occ->Single_0[i]) == (if r0.occ->Single_0[i]
                        == e.id {
                        0usize
                    } else {
                        r0.occ->Single_0[i]
                    }));
            } else {
                assert(rex_old is MultiRole);
                assert(r0.occ->Multi_0 == rex_old.multi_occ());
                assert(r2.occ->Multi_0 == rex_new.multi_occ());
                assert(rex_old.occ_len() == r0.occ.len());
                assert(forall|i: int|
                    0 <= i < rex_old.occ_len() ==> (#[trigger] rex_new.multi_occ()[i])
                        == crate::role::without(rex_old.multi_occ()[i], e.id));
                assert(forall|i: int|
                    0 <= i < r0.occ.len() ==> (#[trigger] r2.occ->Multi_0[i]) == crate::role::without(
                        r0.occ->Multi_0[i],
                        e.id,
                    ));
            }
            assert(bf.employees =~= b0.employees.update(
                ke as int,
                emps_view(self.employees)[ke as int],
            ));
            assert(bf.roles =~= b0.roles.update(kr as int, roles_view(self.roles)[kr as int]));
            assert(bf.blocks == b0.blocks);
            // the invariant survives: the employee's claims on the role are
            // gone, every other claim keeps its occupant
            assert forall|k: int, i: int|
                0 <= k < bf.employees.len() && 0 <= i < bf.blocks implies #[trigger] consistent_at(
                bf,
                k,
                i,
            ) by {
                let v = bf.employees[k].assigned[i];
                if v >= 2 {
                    if k == ke {
                        assert(v == e.assigned[i]);
                        assert(v != role);
                        assert(consistent_at(b0, k, i));
                        let rq = choose|rq: int|
                            0 <= rq < b0.roles.len() && (#[trigger] b0.roles[rq]).id == v
                                && b0.roles[rq].occ.occupies(i, e.id);
                        assert(rq != kr);
                        assert(bf.roles[rq].occ.occupies(i, e.id));
                        assert(bf.employees[k].id == e.id);
                        assert(consistent_at(bf, k, i));
                    } else {
                        let z = b0.employees[k];
                        assert(v == z.assigned[i]);
                        assert(consistent_at(b0, k, i));
                        let rq = choose|rq: int|
                            0 <= rq < b0.roles.len() && (#[trigger] b0.roles[rq]).id == v
                                && b0.roles[rq].occ.occupies(i, z.id);
                        assert(z.id != e.id) by {
                            if k < ke {
                                assert(b0.employees[k].id != b0.employees[ke as int].id);
                            } else {
                                assert(b0.employees[ke as int].id != b0.employees[k].id);
                            }
                        }
                        if rq == kr {
                            match b0.roles[rq].occ {
                                OccView::Single(o) => {
                                    assert(bf.roles[rq].occ.occupies(i, z.id));
                                },
                                OccView::Multi(o) => {
                                    crate::role::lemma_without(o[i], e.id);
                                    assert(bf.roles[rq].occ.occupies(i, z.id));
                                },
                            }
                        } else {
                            assert(bf.roles[rq].occ.occupies(i, z.id));
                        }
                        assert(consistent_at(bf, k, i));
                    }
                }
            }
            assert(role_id_taken(bf.roles, 2)) by {
                let k2 = choose|k: int| 0 <= k < b0.roles.len() && (#[trigger] b0.roles[k]).id == 2;
                assert(bf.roles[k2].id == 2);
            }
            assert(inv(bf));
        }
        Ok(())
    }
}


impl Business {
    /// Recomputes the grid from the new hours and block size, wipes every
    /// role's occupancy, clamps every employee's clock bounds into the new
    /// window, and resets every status row to the fresh off-clock/available
    /// pattern. A full destructive reset: all prior assignments are
    /// discarded.
    pub fn update_business_hours(&mut self, open: TimeOfDay, close: TimeOfDay, block_size: u32)
        requires
            open.valid(),
            close.valid(),
            1 <= block_size <= 86400,
        ensures
            tables_ok(old(self)@) ==> final(self).wf(),
            final(self)@.open == open,
            final(self)@.close == close,
            final(self)@.block_size == block_size,
            final(self)@.blocks == steps_until(
                open.secs as int,
                close.secs as int,
                block_size as int,
            ),
            final(self)@.role_colors == old(self)@.role_colors,
            final(self)@.roles.len() == old(self)@.roles.len(),
            forall|k: int|
                0 <= k < old(self)@.roles.len() ==> crate::role::same_meta_view(
                    old(self)@.roles[k],
                    #[trigger] final(self)@.roles[k],
                ) && final(self)@.roles[k].occ.len() == final(self)@.blocks && final(self)@.roles[
                    k
                ].empty == old(self)@.roles[k].empty && (forall|i: int|
                    0 <= i < final(self)@.blocks ==> (#[trigger] final(self)@.roles[k].occ.free(i))),
            final(self)@.employees.len() == old(self)@.employees.len(),
            forall|k: int|
                0 <= k < old(self)@.employees.len() ==> ({
                    let e0 = old(self)@.employees[k];
                    let e2 = #[trigger] final(self)@.employees[k];
                    &&& e2.id == e0.id
                    &&& e2.name == e0.name
                    &&& e2.roles == e0.roles
                    &&& e2.scheduled == e0.scheduled
                    &&& e2.lunch == e0.lunch
                    &&& e2.clock_in == clamp_clock_in(open, close, e0.clock_in)
                    &&& e2.clock_out == clamp_clock_out(open, close, e0.clock_out)
                    &&& e2.assigned == crate::employee::fresh_pattern(
                        open.secs as int,
                        e2.clock_in.secs as int,
                        e2.clock_out.secs as int,
                        close.secs as int,
                        block_size as int,
                    )
                }),
    {
        let ghost b0 = self@;
        self.open = open;
        self.close = close;
        self.block_size = block_size;
        let ghost o = open.secs as int;
        let ghost cl = close.secs as int;
        let ghost bs = block_size as int;
        let mut blocks: usize = 0;
        let mut test_time: u32 = open.secs;
        while test_time < close.secs
            invariant
                close.secs < 86400,
                1 <= block_size <= 86400,
                o == open.secs as int,
                cl == close.secs as int,
                bs == block_size as int,
                test_time == o + blocks * bs,
                blocks <= 86400 + 86400,
                steps_until(o, cl, bs) == blocks + steps_until(test_time as int, cl, bs),
            decreases steps_until(test_time as int, cl, bs),
        {
            proof {
                assert((blocks + 1) * bs == blocks * bs + bs) by (nonlinear_arith);
                assert(blocks * bs >= blocks) by (nonlinear_arith)
                    requires
                        bs >= 1,
                        blocks >= 0,
                ;
                crate::employee::lemma_steps_unfold(test_time as int, cl, bs);
            }
            test_time = test_time + block_size;
            blocks = blocks + 1;
        }
        proof {
            assert(steps_until(test_time as int, cl, bs) == 0);
            assert(blocks == steps_until(o, cl, bs));
        }
        self.blocks = blocks;
        let mut k: usize = 0;
        while k < self.roles.len()
            invariant
                k <= self.roles@.len(),
                roles_view(self.roles).len() == b0.roles.len(),
                forall|j: int|
                    0 <= j < k ==> crate::role::same_meta_view(
                        b0.roles[j],
                        #[trigger] roles_view(self.roles)[j],
                    ) && roles_view(self.roles)[j].occ.len() == blocks && roles_view(
                        self.roles,
                    )[j].empty == b0.roles[j].empty && (forall|i: int|
                        0 <= i < blocks ==> (#[trigger] roles_view(self.roles)[j].occ.free(i))),
                forall|j: int|
                    k <= j < b0.roles.len() ==> (#[trigger] roles_view(self.roles)[j])
                        == b0.roles[j],
                forall|j: int|
                    k <= j < b0.roles.len() ==> (#[trigger] self.roles@[j]) == old(self).roles@[j],
                self.open == open,
                self.close == close,
                self.block_size == block_size,
                self.blocks == blocks,
                self.employees == old(self).employees,
                self.role_colors == old(self).role_colors,
            decreases self.roles@.len() - k,
        {
            let ghost pre = roles_view(self.roles);
            self.roles[k].blank_out(self.blocks);
            proof {
                assert(roles_view(self.roles) =~= pre.update(
                    k as int,
                    roles_view(self.roles)[k as int],
                ));
                let r2 = roles_view(self.roles)[k as int];
                assert(pre[k as int] == b0.roles[k as int]);
                assert(crate::role::same_meta_view(b0.roles[k as int], r2)) by {
                    let rex_old = old(self).roles@[k as int];
                    let rex_new = self.roles@[k as int];
                    assert(rex_old@ == b0.roles[k as int]);
                }
                assert forall|i: int| 0 <= i < blocks implies #[trigger] r2.occ.free(i) by {
                    let rex = self.roles@[k as int];
                    if rex is SingleRole {
                        assert(r2.occ->Single_0 == rex.single_occ());
                        assert(rex.single_occ()[i] == 0);
                    } else {
                        assert(r2.occ->Multi_0 == rex.multi_occ());
                        assert(rex.multi_occ()[i].len() == 0);
                    }
                }
            }
            k = k + 1;
        }
        let ghost r_after = roles_view(self.roles);
        let mut j: usize = 0;
        while j < self.employees.len()
            invariant
                j <= self.employees@.len(),
                emps_view(self.employees).len() == b0.employees.len(),
                roles_view(self.roles) == r_after,
                open.valid(),
                close.valid(),
                1 <= block_size <= 86400,
                forall|q: int|
                    0 <= q < j ==> ({
                        let e0 = b0.employees[q];
                        let e2 = #[trigger] emps_view(self.employees)[q];
                        &&& e2.id == e0.id
                        &&& e2.name == e0.name
                        &&& e2.roles == e0.roles
                        &&& e2.scheduled == e0.scheduled
                        &&& e2.lunch == e0.lunch
                        &&& e2.clock_in == clamp_clock_in(open, close, e0.clock_in)
                        &&& e2.clock_out == clamp_clock_out(open, close, e0.clock_out)
                        &&& e2.assigned == crate::employee::fresh_pattern(
                            open.secs as int,
                            e2.clock_in.secs as int,
                            e2.clock_out.secs as int,
                            close.secs as int,
                            block_size as int,
                        )
                    }),
                forall|q: int|
                    j <= q < b0.employees.len() ==> (#[trigger] emps_view(self.employees)[q])
                        == b0.employees[q],
                self.open == open,
                self.close == close,
                self.block_size == block_size,
                self.blocks == blocks,
                self.role_colors == old(self).role_colors,
            decreases self.employees@.len() - j,
        {
            let ghost pre = emps_view(self.employees);
            if self.employees[j].clock_in.secs < open.secs {
                self.employees[j].clock_in = open;
            } else if close.secs >= open.secs && self.employees[j].clock_in.secs > close.secs {
                self.employees[j].clock_in = close;
            } else if close.secs < open.secs && self.employees[j].clock_in.secs > open.secs {
                self.employees[j].clock_in = open;
            }
            if self.employees[j].clock_out.secs > close.secs
                || self.employees[j].clock_out.secs < open.secs {
                self.employees[j].clock_out = close;
            }
            self.employees[j].clear_assigned(&open, &close, self.block_size);
            proof {
                assert(emps_view(self.employees) =~= pre.update(
                    j as int,
                    emps_view(self.employees)[j as int],
                ));
                let e0 = b0.employees[j as int];
                let e2 = emps_view(self.employees)[j as int];
                assert(pre[j as int] == e0);
                assert(e2.clock_in == clamp_clock_in(open, close, e0.clock_in));
                assert(e2.clock_out == clamp_clock_out(open, close, e0.clock_out));
                assert(e2.assigned == crate::employee::fresh_pattern(
                    open.secs as int,
                    e2.clock_in.secs as int,
                    e2.clock_out.secs as int,
                    close.secs as int,
                    block_size as int,
                ));
            }
            j = j + 1;
        }
        proof {
            if tables_ok(b0) {
                let bf = self@;
                assert forall|k2: int|
                    0 <= k2 < bf.employees.len() implies (#[trigger] bf.employees[k2]).assigned.len()
                        == bf.blocks && bf.employees[k2].clock_in.valid() && bf.employees[k2].clock_out.valid() by {
                    let e0 = b0.employees[k2];
                    lemma_fresh_len_clamped(
                        open,
                        close,
                        e0.clock_in,
                        e0.clock_out,
                        block_size as int,
                    );
                }
                assert forall|k2: int, i: int|
                    0 <= k2 < bf.employees.len() && 0 <= i < bf.blocks implies
                    #[trigger] consistent_at(bf, k2, i) by {
                    let e2 = bf.employees[k2];
                    assert(e2.assigned[i] <= 1) by {
                        lemma_fresh_pattern_small(
                            open.secs as int,
                            e2.clock_in.secs as int,
                            e2.clock_out.secs as int,
                            close.secs as int,
                            block_size as int,
                        );
                    }
                }
                assert(role_id_taken(bf.roles, 2)) by {
                    let k2 = choose|q: int|
                        0 <= q < b0.roles.len() && (#[trigger] b0.roles[q]).id == 2;
                    assert(crate::role::same_meta_view(b0.roles[k2], bf.roles[k2]));
                    assert(bf.roles[k2].id == 2);
                }
                assert forall|q: int|
                    0 <= q < bf.roles.len() && (#[trigger] bf.roles[q]).id == 2 implies bf.roles[q].occ is Multi by {
                    assert(crate::role::same_meta_view(b0.roles[q], bf.roles[q]));
                }
                assert(inv(bf));
            }
        }
    }

    /// Rebuilds the display color cache from the roles, then performs a
    /// full grid reset with the current hours and block size.
    pub fn init(&mut self)
        requires
            old(self).open.valid(),
            old(self).close.valid(),
            1 <= old(self).block_size <= 86400,
        ensures
            tables_ok(old(self)@) ==> final(self).wf(),
            final(self)@.open == old(self)@.open,
            final(self)@.close == old(self)@.close,
            final(self)@.block_size == old(self)@.block_size,
            final(self)@.blocks == steps_until(
                old(self)@.open.secs as int,
                old(self)@.close.secs as int,
                old(self)@.block_size as int,
            ),
            final(self)@.role_colors.len() == old(self)@.roles.len(),
            forall|k: int|
                0 <= k < old(self)@.roles.len() ==> (#[trigger] final(self)@.role_colors[k]) == (
                old(self)@.roles[k].id,
                old(self)@.roles[k].color,
            ),
            final(self)@.roles.len() == old(self)@.roles.len(),
            final(self)@.employees.len() == old(self)@.employees.len(),
            forall|k: int|
                0 <= k < old(self)@.roles.len() ==> crate::role::same_meta_view(
                    old(self)@.roles[k],
                    #[trigger] final(self)@.roles[k],
                ) && final(self)@.roles[k].occ.len() == final(self)@.blocks && final(self)@.roles[
                    k
                ].empty == old(self)@.roles[k].empty && (forall|i: int|
                    0 <= i < final(self)@.blocks ==> (#[trigger] final(self)@.roles[k].occ.free(i))),
            forall|k: int|
                0 <= k < old(self)@.employees.len() ==> ({
                    let e0 = old(self)@.employees[k];
                    let e2 = #[trigger] final(self)@.employees[k];
                    &&& e2.id == e0.id
                    &&& e2.name == e0.name
                    &&& e2.roles == e0.roles
                    &&& e2.scheduled == e0.scheduled
                    &&& e2.lunch == e0.lunch
                    &&& e2.clock_in == clamp_clock_in(old(self)@.open, old(self)@.close, e0.clock_in)
                    &&& e2.clock_out == clamp_clock_out(
                        old(self)@.open,
                        old(self)@.close,
                        e0.clock_out,
                    )
                    &&& e2.assigned == crate::employee::fresh_pattern(
                        old(self)@.open.secs as int,
                        e2.clock_in.secs as int,
                        e2.clock_out.secs as int,
                        old(self)@.close.secs as int,
                        old(self)@.block_size as int,
                    )
                }),
    {
        let mut colors: Vec<(usize, String)> = Vec::new();
        let mut k: usize = 0;
        while k < self.roles.len()
            invariant
                k <= self.roles@.len(),
                colors_view(colors).len() == k,
                forall|j: int|
                    0 <= j < k ==> (#[trigger] colors_view(colors)[j]) == (
                    roles_view(self.roles)[j].id,
                    roles_view(self.roles)[j].color,
                ),
                self.roles == old(self).roles,
                self.employees == old(self).employees,
                self.open == old(self).open,
                self.close == old(self).close,
                self.block_size == old(self).block_size,
            decreases self.roles@.len() - k,
        {
            let ghost pre_colors = colors_view(colors);
            let rid = self.roles[k].id();
            let color = self.roles[k].color();
            let ghost cv = color@;
            colors.push((rid, color));
            proof {
                assert(colors_view(colors) =~= pre_colors.push((rid, cv)));
                assert(colors_view(colors)[k as int] == (rid, cv));
            }
            k = k + 1;
        }
        self.role_colors = colors;
        let open = self.open;
        let close = self.close;
        let block_size = self.block_size;
        proof {
            assert(self@.roles =~= old(self)@.roles);
            assert(self@.employees =~= old(self)@.employees);
        }
        self.update_business_hours(open, close, block_size);
    }
}


/// A sequence of distinct values covering the whole range `[lo, hi)` has at
/// least `hi - lo` elements.
pub proof fn lemma_range_in_seq(ids: Seq<int>, lo: int, hi: int)
    requires
        lo <= hi,
        ids.no_duplicates(),
        forall|v: int| lo <= v < hi ==> ids.contains(v),

    ensures
        hi - lo <= ids.len(),
{
    ids.unique_seq_to_set();
    vstd::seq_lib::seq_to_set_is_finite(ids);
    vstd::set_lib::lemma_int_range(lo, hi);
    assert(vstd::set_lib::set_int_range(lo, hi).subset_of(ids.to_set())) by {
        assert forall|x: int|
            vstd::set_lib::set_int_range(lo, hi).contains(x) implies ids.to_set().contains(x) by {
            assert(ids.contains(x));
        }
    }
    vstd::set_lib::lemma_len_subset(vstd::set_lib::set_int_range(lo, hi), ids.to_set());
}

/// If every id in `[2, hi)` is taken by some role, there are at least
/// `hi - 2` roles.
pub proof fn lemma_role_ids_pigeonhole(roles: Seq<RoleView>, hi: int)
    requires
        2 <= hi,
        hi - 1 <= usize::MAX,
        forall|k1: int, k2: int|
            0 <= k1 < k2 < roles.len() ==> (#[trigger] roles[k1]).id != (#[trigger] roles[k2]).id,
        forall|v: int| 2 <= v < hi ==> #[trigger] role_id_taken(roles, v as usize),
    ensures
        hi - 2 <= roles.len(),
{
    let ids = roles.map_values(|r: RoleView| r.id as int);
    assert forall|i: int, j: int| 0 <= i < ids.len() && 0 <= j < ids.len() && i != j implies ids[i]
        != ids[j] by {
        if i < j {
            assert(roles[i].id != roles[j].id);
        } else {
            assert(roles[j].id != roles[i].id);
        }
    }
    assert(ids.no_duplicates());
    assert forall|v: int| 2 <= v < hi implies ids.contains(v) by {
        assert(role_id_taken(roles, v as usize));
        let k = choose|k: int| 0 <= k < roles.len() && (#[trigger] roles[k]).id == v as usize;
        assert(ids[k] == v);
    }
    lemma_range_in_seq(ids, 2, hi);
}

/// If every id in `[1, hi)` is taken by some employee, there are at least
/// `hi - 1` employees.
pub proof fn lemma_emp_ids_pigeonhole(emps: Seq<EmployeeView>, hi: int)
    requires
        1 <= hi,
        hi - 1 <= usize::MAX,
        forall|k1: int, k2: int|
            0 <= k1 < k2 < emps.len() ==> (#[trigger] emps[k1]).id != (#[trigger] emps[k2]).id,
        forall|v: int| 1 <= v < hi ==> #[trigger] emp_id_taken(emps, v as usize),
    ensures
        hi - 1 <= emps.len(),
{
    let ids = emps.map_values(|e: EmployeeView| e.id as int);
    assert forall|i: int, j: int| 0 <= i < ids.len() && 0 <= j < ids.len() && i != j implies ids[i]
        != ids[j] by {
        if i < j {
            assert(emps[i].id != emps[j].id);
        } else {
            assert(emps[j].id != emps[i].id);
        }
    }
    assert(ids.no_duplicates());
    assert forall|v: int| 1 <= v < hi implies ids.contains(v) by {
        assert(emp_id_taken(emps, v as usize));
        let k = choose|k: int| 0 <= k < emps.len() && (#[trigger] emps[k]).id == v as usize;
        assert(ids[k] == v);
    }
    lemma_range_in_seq(ids, 1, hi);
}

impl Business {
    /// Creates an exclusive role under the lowest unused id (searched from
    /// 2 upward), grid-sized, with the default color, and caches its color.
    pub fn new_role(&mut self, name: String)
        requires
            old(self).wf(),
            old(self)@.roles.len() < usize::MAX - 2,
        ensures
            final(self).wf(),
            ({
                let nid = final(self)@.roles.last().id;
                &&& !role_id_taken(old(self)@.roles, nid)
                &&& forall|v: int| 2 <= v < nid ==> #[trigger] role_id_taken(old(self)@.roles, v as usize)
                &&& final(self)@.roles.len() == old(self)@.roles.len() + 1
                &&& forall|k: int|
                    0 <= k < old(self)@.roles.len() ==> (#[trigger] final(self)@.roles[k]) == old(
                        self,
                    )@.roles[k]
                &&& final(self)@.roles.last() == (RoleView {
                    id: nid,
                    sort: nid,
                    name: name@,
                    color: crate::role::DEFAULT_COLOR@,
                    empty: true,
                    occ: OccView::Single(Seq::new(old(self)@.blocks, |i: int| 0usize)),
                })
                &&& final(self)@.role_colors == old(self)@.role_colors.push(
                    (nid, crate::role::DEFAULT_COLOR@),
                )
                &&& final(self)@.employees == old(self)@.employees
                &&& final(self)@.open == old(self)@.open
                &&& final(self)@.close == old(self)@.close
                &&& final(self)@.blocks == old(self)@.blocks
                &&& final(self)@.block_size == old(self)@.block_size
            }),
    {
        let ghost b0 = self@;
        let mut id: usize = 2;
        let mut taken = self.find_role(id).is_some();
        proof {
            lemma_find_role_idx(b0.roles, 2);
        }
        while taken
            invariant
                2 <= id <= 2 + b0.roles.len(),
                self@ == b0,
                inv(b0),
                b0.roles.len() < usize::MAX - 2,
                forall|v: int| 2 <= v < id ==> #[trigger] role_id_taken(b0.roles, v as usize),
                taken == role_id_taken(b0.roles, id),
            decreases 2 + b0.roles.len() - id,
        {
            proof {
                lemma_role_ids_pigeonhole(b0.roles, id + 1);
            }
            id = id + 1;
            taken = self.find_role(id).is_some();
            proof {
                lemma_find_role_idx(b0.roles, id);
            }
        }
        let blocks = self.blocks;
        let role = Role::SingleRole(SingleRole::new(id, name, blocks));
        let color = role.color();
        self.roles.push(role);
        self.role_colors.push((id, color));
        proof {
            let bf = self@;
            assert(bf.roles =~= b0.roles.push(bf.roles.last()));
            assert(bf.role_colors =~= b0.role_colors.push((id, crate::role::DEFAULT_COLOR@)));
            assert(bf.employees =~= b0.employees);
            assert forall|k: int, i: int|
                0 <= k < bf.employees.len() && 0 <= i < bf.blocks implies #[trigger] consistent_at(
                bf,
                k,
                i,
            ) by {
                let v = bf.employees[k].assigned[i];
                if v >= 2 {
                    assert(consistent_at(b0, k, i));
                    let rq = choose|rq: int|
                        0 <= rq < b0.roles.len() && (#[trigger] b0.roles[rq]).id == v && b0.roles[rq].occ.occupies(i, b0.employees[k].id);
                    assert(bf.roles[rq].occ.occupies(i, bf.employees[k].id));
                }
            }
            assert(role_id_taken(bf.roles, 2)) by {
                let k2 = choose|k: int| 0 <= k < b0.roles.len() && (#[trigger] b0.roles[k]).id == 2;
                assert(bf.roles[k2].id == 2);
            }
            assert(inv(bf));
        }
    }

    /// Creates an employee under the lowest unused id (searched from 1
    /// upward), clocked over the whole day, qualified only for lunch, with
    /// an all-available grid-sized status row.
    pub fn new_employee(&mut self, name: String)
        requires
            old(self).wf(),
            old(self)@.employees.len() < usize::MAX - 2,
        ensures
            final(self).wf(),
            ({
                let ne = final(self)@.employees.last();
                &&& !emp_id_taken(old(self)@.employees, ne.id)
                &&& forall|v: int| 1 <= v < ne.id ==> #[trigger] emp_id_taken(old(self)@.employees, v as usize)
                &&& final(self)@.employees.len() == old(self)@.employees.len() + 1
                &&& forall|k: int|
                    0 <= k < old(self)@.employees.len() ==> (#[trigger] final(self)@.employees[k])
                        == old(self)@.employees[k]
                &&& ne.name == name@
                &&& ne.roles == seq![2usize]
                &&& ne.scheduled
                &&& ne.lunch == 2
                &&& ne.clock_in == old(self)@.open
                &&& ne.clock_out == old(self)@.close
                &&& ne.assigned == Seq::new(old(self)@.blocks, |i: int| 1usize)
                &&& final(self)@.roles == old(self)@.roles
                &&& final(self)@.role_colors == old(self)@.role_colors
                &&& final(self)@.open == old(self)@.open
                &&& final(self)@.close == old(self)@.close
                &&& final(self)@.blocks == old(self)@.blocks
                &&& final(self)@.block_size == old(self)@.block_size
            }),
    {
        let ghost b0 = self@;
        let mut id: usize = 1;
        let mut taken = self.find_employee(id).is_some();
        proof {
            lemma_find_emp_idx(b0.employees, 1);
        }
        while taken
            invariant
                1 <= id <= 1 + b0.employees.len(),
                self@ == b0,
                inv(b0),
                b0.employees.len() < usize::MAX - 2,
                forall|v: int| 1 <= v < id ==> #[trigger] emp_id_taken(b0.employees, v as usize),
                taken == emp_id_taken(b0.employees, id),
            decreases 1 + b0.employees.len() - id,
        {
            proof {
                lemma_emp_ids_pigeonhole(b0.employees, id + 1);
            }
            id = id + 1;
            taken = self.find_employee(id).is_some();
            proof {
                lemma_find_emp_idx(b0.employees, id);
            }
        }
        let open = self.open;
        let close = self.close;
        let blocks = self.blocks;
        let emp = Employee::new(id, name, open, close).new_blank(blocks);
        self.employees.push(emp);
        proof {
            let bf = self@;
            assert(bf.employees =~= b0.employees.push(bf.employees.last()));
            assert(bf.roles =~= b0.roles);
            assert forall|k: int, i: int|
                0 <= k < bf.employees.len() && 0 <= i < bf.blocks implies #[trigger] consistent_at(
                bf,
                k,
                i,
            ) by {
                let v = bf.employees[k].assigned[i];
                if v >= 2 {
                    assert(k < b0.employees.len());
                    assert(consistent_at(b0, k, i));
                    let rq = choose|rq: int|
                        0 <= rq < b0.roles.len() && (#[trigger] b0.roles[rq]).id == v && b0.roles[rq].occ.occupies(i, b0.employees[k].id);
                    assert(bf.roles[rq].occ.occupies(i, bf.employees[k].id));
                }
            }
            assert(role_id_taken(bf.roles, 2)) by {
                let k2 = choose|k: int| 0 <= k < b0.roles.len() && (#[trigger] b0.roles[k]).id == 2;
                assert(bf.roles[k2].id == 2);
            }
            assert(inv(bf));
        }
    }

    /// Adds the role to the employee's qualification set if absent; does
    /// nothing when the employee id does not resolve.
    pub fn assign_role(&mut self, emp: usize, role: usize)
        requires
            old(self).wf(),
        ensures
            final(self).wf(),
            match find_emp_idx(old(self)@.employees, emp) {
                None => final(self)@ == old(self)@,
                Some(ke) => ({
                    let e = old(self)@.employees[ke];
                    &&& final(self)@.employees[ke].roles == (if e.roles.contains(role) {
                        e.roles
                    } else {
                        e.roles.push(role)
                    })
                    &&& final(self)@.employees[ke].assigned == e.assigned
                    &&& final(self)@.employees[ke].id == e.id
                    &&& final(self)@.employees.len() == old(self)@.employees.len()
                    &&& forall|k: int|
                        0 <= k < old(self)@.employees.len() && k != ke ==> (#[trigger] final(self)@.employees[k]) == old(self)@.employees[k]
                    &&& final(self)@.roles == old(self)@.roles
                    &&& final(self)@.open == old(self)@.open
                    &&& final(self)@.close == old(self)@.close
                    &&& final(self)@.blocks == old(self)@.blocks
                    &&& final(self)@.block_size == old(self)@.block_size
                    &&& final(self)@.role_colors == old(self)@.role_colors
                }),
            },
    {
        let ghost b0 = self@;
        match self.find_employee(emp) {
            Some(ke) => {
                proof {
                    lemma_find_emp_idx(b0.employees, emp);
                }
                self.employees[ke].add_role(role);
                proof {
                    let bf = self@;
                    assert(bf.employees =~= b0.employees.update(
                        ke as int,
                        bf.employees[ke as int],
                    ));
                    assert(bf.roles =~= b0.roles);
                    assert forall|k: int, i: int|
                        0 <= k < bf.employees.len() && 0 <= i < bf.blocks implies
                        #[trigger] consistent_at(bf, k, i) by {
                        let v = bf.employees[k].assigned[i];
                        if v >= 2 {
                            assert(bf.employees[k].assigned == b0.employees[k].assigned);
                            assert(consistent_at(b0, k, i));
                            let rq = choose|rq: int|
                                0 <= rq < b0.roles.len() && (#[trigger] b0.roles[rq]).id == v
                                    && b0.roles[rq].occ.occupies(i, b0.employees[k].id);
                            assert(bf.roles[rq].occ.occupies(i, bf.employees[k].id));
                        }
                    }
                    assert(role_id_taken(bf.roles, 2)) by {
                        let k2 = choose|k: int|
                            0 <= k < b0.roles.len() && (#[trigger] b0.roles[k]).id == 2;
                        assert(bf.roles[k2].id == 2);
                    }
                    assert(inv(bf));
                }
            },
            None => {},
        }
    }

    /// Flips whether the employee takes part in scheduling; does nothing
    /// when the id does not resolve.
    pub fn toggle_employee_scheduled(&mut self, emp_id: usize)
        requires
            old(self).wf(),
        ensures
            final(self).wf(),
            match find_emp_idx(old(self)@.employees, emp_id) {
                None => final(self)@ == old(self)@,
                Some(ke) => final(self)@ == BusinessView {
                    employees: old(self)@.employees.update(
                        ke,
                        EmployeeView {
                            scheduled: !old(self)@.employees[ke].scheduled,
                            ..old(self)@.employees[ke]
                        },
                    ),
                    ..old(self)@
                },
            },
    {
        let ghost b0 = self@;
        match self.find_employee(emp_id) {
            Some(ke) => {
                proof {
                    lemma_find_emp_idx(b0.employees, emp_id);
                }
                let curr = self.employees[ke].scheduled;
                self.employees[ke].scheduled = !curr;
                proof {
                    let bf = self@;
                    assert(bf.employees =~= b0.employees.update(
                        ke as int,
                        EmployeeView { scheduled: !b0.employees[ke as int].scheduled, ..b0.employees[ke as int] },
                    ));
                    assert(bf.roles =~= b0.roles);
                    assert forall|k: int, i: int|
                        0 <= k < bf.employees.len() && 0 <= i < bf.blocks implies
                        #[trigger] consistent_at(bf, k, i) by {
                        let v = bf.employees[k].assigned[i];
                        if v >= 2 {
                            assert(bf.employees[k].assigned == b0.employees[k].assigned);
                            assert(consistent_at(b0, k, i));
                            let rq = choose|rq: int|
                                0 <= rq < b0.roles.len() && (#[trigger] b0.roles[rq]).id == v
                                    && b0.roles[rq].occ.occupies(i, b0.employees[k].id);
                            assert(bf.roles[rq].occ.occupies(i, bf.employees[k].id));
                        }
                    }
                    assert(role_id_taken(bf.roles, 2)) by {
                        let k2 = choose|k: int|
                            0 <= k < b0.roles.len() && (#[trigger] b0.roles[k]).id == 2;
                        assert(bf.roles[k2].id == 2);
                    }
                    assert(inv(bf));
                }
            },
            None => {},
        }
    }

    /// Updates the employee's lunch length, in blocks; does nothing when
    /// the id does not resolve.
    pub fn update_employee_lunch(&mut self, emp_id: usize, blocks: usize)
        requires
            old(self).wf(),
        ensures
            final(self).wf(),
            match find_emp_idx(old(self)@.employees, emp_id) {
                None => final(self)@ == old(self)@,
                Some(ke) => final(self)@ == BusinessView {
                    employees: old(self)@.employees.update(
                        ke,
                        EmployeeView { lunch: blocks, ..old(self)@.employees[ke] },
                    ),
                    ..old(self)@
                },
            },
    {
        let ghost b0 = self@;
        match self.find_employee(emp_id) {
            Some(ke) => {
                proof {
                    lemma_find_emp_idx(b0.employees, emp_id);
                }
                self.employees[ke].lunch = blocks;
                proof {
                    let bf = self@;
                    assert(bf.employees =~= b0.employees.update(
                        ke as int,
                        EmployeeView { lunch: blocks, ..b0.employees[ke as int] },
                    ));
                    assert(bf.roles =~= b0.roles);
                    assert forall|k: int, i: int|
                        0 <= k < bf.employees.len() && 0 <= i < bf.blocks implies
                        #[trigger] consistent_at(bf, k, i) by {
                        let v = bf.employees[k].assigned[i];
                        if v >= 2 {
                            assert(bf.employees[k].assigned == b0.employees[k].assigned);
                            assert(consistent_at(b0, k, i));
                            let rq = choose|rq: int|
                                0 <= rq < b0.roles.len() && (#[trigger] b0.roles[rq]).id == v
                                    && b0.roles[rq].occ.occupies(i, b0.employees[k].id);
                            assert(bf.roles[rq].occ.occupies(i, bf.employees[k].id));
                        }
                    }
                    assert(role_id_taken(bf.roles, 2)) by {
                        let k2 = choose|k: int|
                            0 <= k < b0.roles.len() && (#[trigger] b0.roles[k]).id == 2;
                        assert(bf.roles[k2].id == 2);
                    }
                    assert(inv(bf));
                }
            },
            None => {},
        }
    }

    /// Replaces the role's color and refreshes the display cache entry for
    /// it; does nothing when the id does not resolve.
    pub fn update_role_color(&mut self, role_id: usize, color: String)
        requires
            old(self).wf(),
        ensures
            final(self).wf(),
            match find_role_idx(old(self)@.roles, role_id) {
                None => final(self)@ == old(self)@,
                Some(kr) => ({
                    &&& final(self)@.roles.len() == old(self)@.roles.len()
                    &&& final(self)@.roles[kr] == RoleView {
                        color: color@,
                        ..old(self)@.roles[kr]
                    }
                    &&& forall|k: int|
                        0 <= k < old(self)@.roles.len() && k != kr ==> (#[trigger] final(self)@.roles[k]) == old(self)@.roles[k]
                    &&& final(self)@.role_colors.len() == old(self)@.role_colors.len()
                    &&& forall|k: int|
                        0 <= k < old(self)@.role_colors.len() ==> (#[trigger] final(self)@.role_colors[k]) == (if old(self)@.role_colors[k].0 == role_id {
                            (role_id, color@)
                        } else {
                            old(self)@.role_colors[k]
                        })
                    &&& final(self)@.employees == old(self)@.employees
                    &&& final(self)@.open == old(self)@.open
                    &&& final(self)@.close == old(self)@.close
                    &&& final(self)@.blocks == old(self)@.blocks
                    &&& final(self)@.block_size == old(self)@.block_size
                }),
            },
    {
        let ghost b0 = self@;
        match self.find_role(role_id) {
            Some(kr) => {
                proof {
                    lemma_find_role_idx(b0.roles, role_id);
                }
                let c2 = color.clone();
                self.roles[kr].color_set(color);
                let mut k: usize = 0;
                let ghost colors_mid = self@.role_colors;
                proof {
                    assert(colors_mid =~= b0.role_colors);
                }
                while k < self.role_colors.len()
                    invariant
                        k <= self.role_colors@.len(),
                        colors_view(self.role_colors).len() == b0.role_colors.len(),
                        forall|j: int|
                            0 <= j < k ==> (#[trigger] colors_view(self.role_colors)[j]) == (if b0.role_colors[j].0
                                == role_id {
                                (role_id, c2@)
                            } else {
                                b0.role_colors[j]
                            }),
                        forall|j: int|
                            k <= j < b0.role_colors.len() ==> (#[trigger] colors_view(
                                self.role_colors,
                            )[j]) == b0.role_colors[j],
                        emps_view(self.employees) == b0.employees,
                        roles_view(self.roles).len() == b0.roles.len(),
                        roles_view(self.roles)[kr as int] == (RoleView {
                            color: c2@,
                            ..b0.roles[kr as int]
                        }),
                        forall|j: int|
                            0 <= j < b0.roles.len() && j != kr ==> (#[trigger] roles_view(
                                self.roles,
                            )[j]) == b0.roles[j],
                        self.open == b0.open,
                        self.close == b0.close,
                        self@.blocks == b0.blocks,
                        self.block_size == b0.block_size,
                    decreases self.role_colors@.len() - k,
                {
                    let ghost pre = colors_view(self.role_colors);
                    let hit = self.role_colors[k].0 == role_id;
                    if hit {
                        let c3 = c2.clone();
                        self.role_colors[k] = (role_id, c3);
                    }
                    proof {
                        assert(colors_view(self.role_colors) =~= pre.update(
                            k as int,
                            colors_view(self.role_colors)[k as int],
                        ));
                        assert(pre[k as int] == b0.role_colors[k as int]);
                        if hit {
                            assert(b0.role_colors[k as int].0 == role_id);
                            assert(colors_view(self.role_colors)[k as int] == (role_id, c2@));
                        } else {
                            assert(colors_view(self.role_colors)[k as int]
                                == b0.role_colors[k as int]);
                        }
                    }
                    k = k + 1;
                }
                proof {
                    let bf = self@;
                    assert forall|k2: int, i: int|
                        0 <= k2 < bf.employees.len() && 0 <= i < bf.blocks implies
                        #[trigger] consistent_at(bf, k2, i) by {
                        let v = bf.employees[k2].assigned[i];
                        if v >= 2 {
                            assert(consistent_at(b0, k2, i));
                            let rq = choose|rq: int|
                                0 <= rq < b0.roles.len() && (#[trigger] b0.roles[rq]).id == v
                                    && b0.roles[rq].occ.occupies(i, b0.employees[k2].id);
                            assert(bf.roles[rq].id == v);
                            assert(bf.roles[rq].occ.occupies(i, bf.employees[k2].id));
                        }
                    }
                    assert(role_id_taken(bf.roles, 2)) by {
                        let k2 = choose|k3: int|
                            0 <= k3 < b0.roles.len() && (#[trigger] b0.roles[k3]).id == 2;
                        assert(bf.roles[k2].id == 2);
                    }
                    assert(inv(bf));
                }
            },
            None => {},
        }
    }
}


impl Business {
    /// Releases every employee occupying the given role at a block: their
    /// status there returns to available. The roles themselves are not
    /// touched.
    fn release_occupants(&mut self, occ: &Role)
        ensures
            emps_view(final(self).employees).len() == emps_view(old(self).employees).len(),
            forall|k: int|
                0 <= k < emps_view(old(self).employees).len() ==> ({
                    let e0 = emps_view(old(self).employees)[k];
                    let e2 = #[trigger] emps_view(final(self).employees)[k];
                    &&& e2.id == e0.id
                    &&& e2.name == e0.name
                    &&& e2.roles == e0.roles
                    &&& e2.scheduled == e0.scheduled
                    &&& e2.lunch == e0.lunch
                    &&& e2.clock_in == e0.clock_in
                    &&& e2.clock_out == e0.clock_out
                    &&& e2.assigned.len() == e0.assigned.len()
                    &&& forall|i: int|
                        0 <= i < e0.assigned.len() ==> (#[trigger] e2.assigned[i]) == (if 0 <= i
                            < occ@.occ.len() && occ@.occ.occupies(i, e0.id) && e0.assigned[i] != 0 {
                            1usize
                        } else {
                            e0.assigned[i]
                        })
                }),
            final(self).roles == old(self).roles,
            final(self).open == old(self).open,
            final(self).close == old(self).close,
            final(self).blocks == old(self).blocks,
            final(self).block_size == old(self).block_size,
            final(self).role_colors == old(self).role_colors,
    {
        let ghost e0s = emps_view(old(self).employees);
        let mut k: usize = 0;
        while k < self.employees.len()
            invariant
                k <= self.employees@.len(),
                emps_view(self.employees).len() == e0s.len(),
                forall|q: int|
                    0 <= q < k ==> ({
                        let e0 = e0s[q];
                        let e2 = #[trigger] emps_view(self.employees)[q];
                        &&& e2.id == e0.id
                        &&& e2.name == e0.name
                        &&& e2.roles == e0.roles
                        &&& e2.scheduled == e0.scheduled
                        &&& e2.lunch == e0.lunch
                        &&& e2.clock_in == e0.clock_in
                        &&& e2.clock_out == e0.clock_out
                        &&& e2.assigned.len() == e0.assigned.len()
                        &&& forall|i: int|
                            0 <= i < e0.assigned.len() ==> (#[trigger] e2.assigned[i]) == (if 0 <= i
                                < occ@.occ.len() && occ@.occ.occupies(i, e0.id) && e0.assigned[i]
                                != 0 {
                                1usize
                            } else {
                                e0.assigned[i]
                            })
                    }),
                forall|q: int|
                    k <= q < e0s.len() ==> (#[trigger] emps_view(self.employees)[q]) == e0s[q],
                self.roles == old(self).roles,
                self.open == old(self).open,
                self.close == old(self).close,
                self.blocks == old(self).blocks,
                self.block_size == old(self).block_size,
                self.role_colors == old(self).role_colors,
            decreases self.employees@.len() - k,
        {
            let ghost pre = emps_view(self.employees);
            let emp_id = self.employees[k].id;
            let ghost a0 = self.employees@[k as int].assigned@;
            let mut i: usize = 0;
            let occ_len = match occ {
                Role::SingleRole(r) => r.assigned.len(),
                Role::MultiRole(r) => r.assigned.len(),
            };
            while i < occ_len
                invariant
                    i <= occ_len,
                    occ_len == occ@.occ.len(),
                    emps_view(self.employees).len() == e0s.len(),
                    forall|q: int|
                        0 <= q < e0s.len() && q != k ==> (#[trigger] emps_view(self.employees)[q])
                            == pre[q],
                    pre[k as int].id == emp_id,
                    emps_view(self.employees)[k as int].id == emp_id,
                    emps_view(self.employees)[k as int].name == pre[k as int].name,
                    emps_view(self.employees)[k as int].roles == pre[k as int].roles,
                    emps_view(self.employees)[k as int].scheduled == pre[k as int].scheduled,
                    emps_view(self.employees)[k as int].lunch == pre[k as int].lunch,
                    emps_view(self.employees)[k as int].clock_in == pre[k as int].clock_in,
                    emps_view(self.employees)[k as int].clock_out == pre[k as int].clock_out,
                    emps_view(self.employees)[k as int].assigned.len() == a0.len(),
                    a0 == pre[k as int].assigned,
                    k < e0s.len(),
                    forall|j: int|
                        0 <= j < i && j < a0.len() ==> (#[trigger] emps_view(
                            self.employees,
                        )[k as int].assigned[j]) == (if 0 <= j < occ@.occ.len() && occ@.occ.occupies(
                            j,
                            emp_id,
                        ) && a0[j] != 0 {
                            1usize
                        } else {
                            a0[j]
                        }),
                    forall|j: int|
                        i <= j < a0.len() ==> (#[trigger] emps_view(
                            self.employees,
                        )[k as int].assigned[j]) == a0[j],
                    forall|j: int|
                        occ_len <= j < a0.len() ==> (#[trigger] emps_view(
                            self.employees,
                        )[k as int].assigned[j]) == a0[j],
                    self.roles == old(self).roles,
                    self.open == old(self).open,
                    self.close == old(self).close,
                    self.blocks == old(self).blocks,
                    self.block_size == old(self).block_size,
                    self.role_colors == old(self).role_colors,
                decreases occ_len - i,
            {
                let ghost epre = emps_view(self.employees);
                let holds = match occ {
                    Role::SingleRole(r) => r.assigned[i] == emp_id,
                    Role::MultiRole(r) => crate::role::contains_usize(&r.assigned[i], emp_id),
                };
                proof {
                    assert(holds == occ@.occ.occupies(i as int, emp_id));
                }
                if holds && i < self.employees[k].assigned.len() {
                    if self.employees[k].assigned[i] != 0 {
                        self.employees[k].assigned[i] = 1;
                    }
                }
                proof {
                    assert(emps_view(self.employees) =~= epre.update(
                        k as int,
                        emps_view(self.employees)[k as int],
                    ));
                }
                i = i + 1;
            }
            proof {
                assert(emps_view(self.employees) =~= pre.update(
                    k as int,
                    emps_view(self.employees)[k as int],
                ));
            }
            k = k + 1;
        }
    }

    /// Removes the role and releases every employee occupying it back to
    /// available. Does nothing when the id does not resolve, and refuses to
    /// delete the built-in lunch role.
    pub fn delete_role(&mut self, role: usize)
        requires
            old(self).wf(),
        ensures
            final(self).wf(),
            role == 2 ==> final(self)@ == old(self)@,
            match find_role_idx(old(self)@.roles, role) {
                None => final(self)@ == old(self)@,
                Some(kr) => role != 2 ==> ({
                    let rr = old(self)@.roles[kr];
                    &&& final(self)@.roles == old(self)@.roles.remove(kr)
                    &&& final(self)@.employees.len() == old(self)@.employees.len()
                    &&& forall|k: int|
                        0 <= k < old(self)@.employees.len() ==> ({
                            let e0 = old(self)@.employees[k];
                            let e2 = #[trigger] final(self)@.employees[k];
                            &&& e2.id == e0.id
                            &&& e2.roles == e0.roles
                            &&& e2.scheduled == e0.scheduled
                            &&& e2.assigned.len() == e0.assigned.len()
                            &&& forall|i: int|
                                0 <= i < e0.assigned.len() ==> (#[trigger] e2.assigned[i]) == (
                                if 0 <= i < rr.occ.len() && rr.occ.occupies(i, e0.id)
                                    && e0.assigned[i] != 0 {
                                    1usize
                                } else {
                                    e0.assigned[i]
                                })
                        })
                    &&& final(self)@.open == old(self)@.open
                    &&& final(self)@.close == old(self)@.close
                    &&& final(self)@.blocks == old(self)@.blocks
                    &&& final(self)@.block_size == old(self)@.block_size
                    &&& final(self)@.role_colors == old(self)@.role_colors
                }),
            },
    {
        let ghost b0 = self@;
        if role == 2 {
            return;
        }
        let kr = match self.find_role(role) {
            Some(k) => k,
            None => {
                return;
            },
        };
        proof {
            lemma_find_role_idx(b0.roles, role);
        }
        let removed = self.roles.remove(kr);
        proof {
            assert(roles_view(self.roles) =~= b0.roles.remove(kr as int));
            assert(removed@ == b0.roles[kr as int]);
        }
        self.release_occupants(&removed);
        proof {
            let bf = self@;
            let rr = b0.roles[kr as int];
            assert forall|k: int, i: int|
                0 <= k < bf.employees.len() && 0 <= i < bf.blocks implies #[trigger] consistent_at(
                bf,
                k,
                i,
            ) by {
                let v = bf.employees[k].assigned[i];
                if v >= 2 {
                    let e0 = b0.employees[k];
                    assert(v == e0.assigned[i]);
                    assert(consistent_at(b0, k, i));
                    let rq = choose|rq: int|
                        0 <= rq < b0.roles.len() && (#[trigger] b0.roles[rq]).id == v && b0.roles[rq].occ.occupies(i, e0.id);
                    assert(rq != kr) by {
                        if rq == kr {
                            assert(rr.occ.occupies(i, e0.id));
                            assert(e0.assigned[i] != 0);
                            assert(bf.employees[k].assigned[i] == 1);
                        }
                    }
                    let rq2 = if rq < kr {
                        rq
                    } else {
                        rq - 1
                    };
                    assert(bf.roles[rq2] == b0.roles[rq]);
                    assert(bf.roles[rq2].occ.occupies(i, bf.employees[k].id));
                    assert(consistent_at(bf, k, i));
                }
            }
            assert(role_id_taken(bf.roles, 2)) by {
                let k2 = choose|k: int| 0 <= k < b0.roles.len() && (#[trigger] b0.roles[k]).id == 2;
                assert(k2 != kr);
                let k3 = if k2 < kr {
                    k2
                } else {
                    k2 - 1
                };
                assert(bf.roles[k3] == b0.roles[k2]);
            }
            assert forall|k1: int, k2: int|
                0 <= k1 < k2 < bf.roles.len() implies (#[trigger] bf.roles[k1]).id != (
            #[trigger] bf.roles[k2]).id by {
                let j1 = if k1 < kr {
                    k1
                } else {
                    k1 + 1
                };
                let j2 = if k2 < kr {
                    k2
                } else {
                    k2 + 1
                };
                assert(bf.roles[k1] == b0.roles[j1]);
                assert(bf.roles[k2] == b0.roles[j2]);
            }
            assert forall|k: int|
                0 <= k < bf.roles.len() implies (#[trigger] bf.roles[k]).id >= 2 && bf.roles[k].occ.len() == bf.blocks && (bf.roles[k].id == 2 ==> bf.roles[k].occ is Multi) by {
                let j = if k < kr {
                    k
                } else {
                    k + 1
                };
                assert(bf.roles[k] == b0.roles[j]);
            }
            assert(inv(bf));
        }
    }

    /// Removes the employee and detaches them from every role's occupancy.
    /// Does nothing when the id does not resolve.
    pub fn delete_employee(&mut self, emp: usize)
        requires
            old(self).wf(),
        ensures
            final(self).wf(),
            match find_emp_idx(old(self)@.employees, emp) {
                None => final(self)@ == old(self)@,
                Some(ke) => ({
                    &&& final(self)@.employees == old(self)@.employees.remove(ke)
                    &&& final(self)@.roles.len() == old(self)@.roles.len()
                    &&& forall|k: int|
                        0 <= k < old(self)@.roles.len() ==> ({
                            let r0 = old(self)@.roles[k];
                            let r2 = #[trigger] final(self)@.roles[k];
                            &&& crate::role::same_meta_view(r0, r2)
                            &&& r2.occ.len() == r0.occ.len()
                            &&& (r0.occ is Single ==> forall|i: int|
                                0 <= i < r0.occ.len() ==> (#[trigger] r2.occ->Single_0[i]) == (
                                if r0.occ->Single_0[i] == old(self)@.employees[ke].id {
                                    0usize
                                } else {
                                    r0.occ->Single_0[i]
                                }))
                            &&& (r0.occ is Multi ==> forall|i: int|
                                0 <= i < r0.occ.len() ==> (#[trigger] r2.occ->Multi_0[i])
                                    == crate::role::without(
                                    r0.occ->Multi_0[i],
                                    old(self)@.employees[ke].id,
                                ))
                        })
                    &&& final(self)@.open == old(self)@.open
                    &&& final(self)@.close == old(self)@.close
                    &&& final(self)@.blocks == old(self)@.blocks
                    &&& final(self)@.block_size == old(self)@.block_size
                    &&& final(self)@.role_colors == old(self)@.role_colors
                }),
            },
    {
        let ghost b0 = self@;
        let ke = match self.find_employee(emp) {
            Some(k) => k,
            None => {
                return;
            },
        };
        proof {
            lemma_find_emp_idx(b0.employees, emp);
        }
        let removed = self.employees.remove(ke);
        let emp_id = removed.id;
        proof {
            assert(emps_view(self.employees) =~= b0.employees.remove(ke as int));
            assert(emp_id == b0.employees[ke as int].id);
        }
        let ghost rvec0 = self.roles@;
        let mut k: usize = 0;
        while k < self.roles.len()
            invariant
                k <= self.roles@.len(),
                rvec0.len() == b0.roles.len(),
                forall|j: int| 0 <= j < b0.roles.len() ==> (#[trigger] rvec0[j])@ == b0.roles[j],
                emps_view(self.employees) == b0.employees.remove(ke as int),
                emp_id == b0.employees[ke as int].id,
                0 <= ke < b0.employees.len(),
                roles_view(self.roles).len() == b0.roles.len(),
                rvec0.len() == b0.roles.len(),
                forall|j: int| 0 <= j < b0.roles.len() ==> (#[trigger] rvec0[j])@ == b0.roles[j],
                forall|j: int|
                    0 <= j < k ==> ({
                        let r0 = b0.roles[j];
                        let r2 = #[trigger] roles_view(self.roles)[j];
                        &&& crate::role::same_meta_view(r0, r2)
                        &&& r2.occ.len() == r0.occ.len()
                        &&& r2.empty == r0.empty
                        &&& (r0.occ is Single ==> forall|i: int|
                            0 <= i < r0.occ.len() ==> (#[trigger] r2.occ->Single_0[i]) == (
                            if r0.occ->Single_0[i] == emp_id {
                                0usize
                            } else {
                                r0.occ->Single_0[i]
                            }))
                        &&& (r0.occ is Multi ==> forall|i: int|
                            0 <= i < r0.occ.len() ==> (#[trigger] r2.occ->Multi_0[i])
                                == crate::role::without(r0.occ->Multi_0[i], emp_id))
                    }),
                forall|j: int|
                    k <= j < b0.roles.len() ==> (#[trigger] self.roles@[j]) == rvec0[j],
                self.open == b0.open,
                self.close == b0.close,
                self@.blocks == b0.blocks,
                self.block_size == b0.block_size,
                self.role_colors == old(self).role_colors,
            decreases self.roles@.len() - k,
        {
            let ghost pre = roles_view(self.roles);
            let ghost rex_old = self.roles@[k as int];
            self.roles[k].clear_employee(&emp_id);
            proof {
                assert(roles_view(self.roles) =~= pre.update(
                    k as int,
                    roles_view(self.roles)[k as int],
                ));
                assert forall|j: int|
                    k as int + 1 <= j < b0.roles.len() implies (#[trigger] self.roles@[j])
                        == rvec0[j] by {}
                let r0 = b0.roles[k as int];
                let r2 = roles_view(self.roles)[k as int];
                let rex_new = self.roles@[k as int];
                assert(rex_old@ == pre[k as int]);
                assert(rex_old@ == r0);
                assert(rex_new@ == r2);
                if r0.occ is Single {
                    assert(rex_old is SingleRole);
                    assert(r0.occ->Single_0 == rex_old.single_occ());
                    assert(r2.occ->Single_0 == rex_new.single_occ());
                    assert(rex_old.occ_len() == r0.occ.len());
                } else {
                    assert(rex_old is MultiRole);
                    assert(r0.occ->Multi_0 == rex_old.multi_occ());
                    assert(r2.occ->Multi_0 == rex_new.multi_occ());
                    assert(rex_old.occ_len() == r0.occ.len());
                }
            }
            k = k + 1;
        }
        proof {
            let bf = self@;
            assert forall|k2: int, i: int|
                0 <= k2 < bf.employees.len() && 0 <= i < bf.blocks implies #[trigger] consistent_at(
                bf,
                k2,
                i,
            ) by {
                let j = if k2 < ke {
                    k2
                } else {
                    k2 + 1
                };
                assert(bf.employees[k2] == b0.employees[j]);
                let v = bf.employees[k2].assigned[i];
                if v >= 2 {
                    let z = b0.employees[j];
                    assert(consistent_at(b0, j, i));
                    let rq = choose|rq: int|
                        0 <= rq < b0.roles.len() && (#[trigger] b0.roles[rq]).id == v && b0.roles[rq].occ.occupies(i, z.id);
                    assert(z.id != emp_id) by {
                        if j < ke {
                            assert(b0.employees[j].id != b0.employees[ke as int].id);
                        } else {
                            assert(b0.employees[ke as int].id != b0.employees[j].id);
                        }
                    }
                    if b0.roles[rq].occ is Single {
                        assert(bf.roles[rq].occ.occupies(i, z.id));
                    } else {
                        crate::role::lemma_without(b0.roles[rq].occ->Multi_0[i], emp_id);
                        assert(bf.roles[rq].occ.occupies(i, z.id));
                    }
                    assert(bf.roles[rq].id == v);
                    assert(consistent_at(bf, k2, i));
                }
            }
            assert(role_id_taken(bf.roles, 2)) by {
                let k2 = choose|k3: int|
                    0 <= k3 < b0.roles.len() && (#[trigger] b0.roles[k3]).id == 2;
                assert(crate::role::same_meta_view(b0.roles[k2], bf.roles[k2]));
            }
            assert forall|q: int|
                0 <= q < bf.roles.len() && (#[trigger] bf.roles[q]).id == 2 implies bf.roles[q].occ is Multi by {
                assert(crate::role::same_meta_view(b0.roles[q], bf.roles[q]));
            }
            assert forall|k1: int, k2: int|
                0 <= k1 < k2 < bf.employees.len() implies (#[trigger] bf.employees[k1]).id != (
            #[trigger] bf.employees[k2]).id by {
                let j1 = if k1 < ke {
                    k1
                } else {
                    k1 + 1
                };
                let j2 = if k2 < ke {
                    k2
                } else {
                    k2 + 1
                };
                assert(bf.employees[k1] == b0.employees[j1]);
                assert(bf.employees[k2] == b0.employees[j2]);
            }
            assert(inv(bf));
        }
    }

    /// Replaces the employee's clock bounds (clamped into the business
    /// hours), rebuilds their status row fresh, and detaches them from
    /// every role. Does nothing when the id does not resolve.
    pub fn update_employee_hours(&mut self, id: usize, clock_in: TimeOfDay, clock_out: TimeOfDay)
        requires
            old(self).wf(),
            clock_in.valid(),
            clock_out.valid(),
        ensures
            final(self).wf(),
            match find_emp_idx(old(self)@.employees, id) {
                None => final(self)@ == old(self)@,
                Some(ke) => ({
                    let e0 = old(self)@.employees[ke];
                    let e2 = final(self)@.employees[ke];
                    &&& final(self)@.employees.len() == old(self)@.employees.len()
                    &&& forall|k: int|
                        0 <= k < old(self)@.employees.len() && k != ke ==> (#[trigger] final(self)@.employees[k]) == old(self)@.employees[k]
                    &&& e2.id == e0.id
                    &&& e2.name == e0.name
                    &&& e2.roles == e0.roles
                    &&& e2.scheduled == e0.scheduled
                    &&& e2.lunch == e0.lunch
                    &&& e2.clock_in == clamp_clock_in(old(self)@.open, old(self)@.close, clock_in)
                    &&& e2.clock_out == clamp_clock_out(
                        old(self)@.open,
                        old(self)@.close,
                        clock_out,
                    )
                    &&& e2.assigned == crate::employee::fresh_pattern(
                        old(self)@.open.secs as int,
                        e2.clock_in.secs as int,
                        e2.clock_out.secs as int,
                        old(self)@.close.secs as int,
                        old(self)@.block_size as int,
                    )
                    &&& final(self)@.roles.len() == old(self)@.roles.len()
                    &&& forall|k: int|
                        0 <= k < old(self)@.roles.len() ==> ({
                            let r0 = old(self)@.roles[k];
                            let r2 = #[trigger] final(self)@.roles[k];
                            &&& crate::role::same_meta_view(r0, r2)
                            &&& r2.occ.len() == r0.occ.len()
                            &&& (r0.occ is Single ==> forall|i: int|
                                0 <= i < r0.occ.len() ==> (#[trigger] r2.occ->Single_0[i]) == (
                                if r0.occ->Single_0[i] == e0.id {
                                    0usize
                                } else {
                                    r0.occ->Single_0[i]
                                }))
                            &&& (r0.occ is Multi ==> forall|i: int|
                                0 <= i < r0.occ.len() ==> (#[trigger] r2.occ->Multi_0[i])
                                    == crate::role::without(r0.occ->Multi_0[i], e0.id))
                        })
                    &&& final(self)@.open == old(self)@.open
                    &&& final(self)@.close == old(self)@.close
                    &&& final(self)@.blocks == old(self)@.blocks
                    &&& final(self)@.block_size == old(self)@.block_size
                    &&& final(self)@.role_colors == old(self)@.role_colors
                }),
            },
    {
        let ghost b0 = self@;
        let ke = match self.find_employee(id) {
            Some(k) => k,
            None => {
                return;
            },
        };
        proof {
            lemma_find_emp_idx(b0.employees, id);
        }
        let open = self.open;
        let close = self.close;
        if clock_in.secs < open.secs {
            self.employees[ke].clock_in = open;
        } else if close.secs >= open.secs && clock_in.secs > close.secs {
            self.employees[ke].clock_in = close;
        } else if close.secs < open.secs && clock_in.secs > open.secs {
            self.employees[ke].clock_in = open;
        } else {
            self.employees[ke].clock_in = clock_in;
        }
        if clock_out.secs > close.secs || clock_out.secs < open.secs {
            self.employees[ke].clock_out = close;
        } else {
            self.employees[ke].clock_out = clock_out;
        }
        let bs = self.block_size;
        self.employees[ke].clear_assigned(&open, &close, bs);
        let emp_id = self.employees[ke].id;
        proof {
            assert(emps_view(self.employees) =~= b0.employees.update(
                ke as int,
                emps_view(self.employees)[ke as int],
            ));
            assert(emp_id == b0.employees[ke as int].id);
        }
        let ghost e_mid = emps_view(self.employees);
        let ghost rvec0 = self.roles@;
        let mut k: usize = 0;
        while k < self.roles.len()
            invariant
                k <= self.roles@.len(),
                emps_view(self.employees) == e_mid,
                emp_id == b0.employees[ke as int].id,
                0 <= ke < b0.employees.len(),
                roles_view(self.roles).len() == b0.roles.len(),
                rvec0.len() == b0.roles.len(),
                forall|j: int| 0 <= j < b0.roles.len() ==> (#[trigger] rvec0[j])@ == b0.roles[j],
                forall|j: int|
                    0 <= j < k ==> ({
                        let r0 = b0.roles[j];
                        let r2 = #[trigger] roles_view(self.roles)[j];
                        &&& crate::role::same_meta_view(r0, r2)
                        &&& r2.occ.len() == r0.occ.len()
                        &&& r2.empty == r0.empty
                        &&& (r0.occ is Single ==> forall|i: int|
                            0 <= i < r0.occ.len() ==> (#[trigger] r2.occ->Single_0[i]) == (
                            if r0.occ->Single_0[i] == emp_id {
                                0usize
                            } else {
                                r0.occ->Single_0[i]
                            }))
                        &&& (r0.occ is Multi ==> forall|i: int|
                            0 <= i < r0.occ.len() ==> (#[trigger] r2.occ->Multi_0[i])
                                == crate::role::without(r0.occ->Multi_0[i], emp_id))
                    }),
                forall|j: int|
                    k <= j < b0.roles.len() ==> (#[trigger] self.roles@[j]) == rvec0[j],
                self.open == b0.open,
                self.close == b0.close,
                self@.blocks == b0.blocks,
                self.block_size == b0.block_size,
                self.role_colors == old(self).role_colors,
            decreases self.roles@.len() - k,
        {
            let ghost pre = roles_view(self.roles);
            let ghost rex_old = self.roles@[k as int];
            self.roles[k].clear_employee(&emp_id);
            proof {
                assert(roles_view(self.roles) =~= pre.update(
                    k as int,
                    roles_view(self.roles)[k as int],
                ));
                assert forall|j: int|
                    k as int + 1 <= j < b0.roles.len() implies (#[trigger] self.roles@[j])
                        == rvec0[j] by {}
                let r0 = b0.roles[k as int];
                let r2 = roles_view(self.roles)[k as int];
                let rex_new = self.roles@[k as int];
                assert(rex_old@ == pre[k as int]);
                assert(rex_old@ == r0);
                assert(rex_new@ == r2);
                if r0.occ is Single {
                    assert(rex_old is SingleRole);
                    assert(r0.occ->Single_0 == rex_old.single_occ());
                    assert(r2.occ->Single_0 == rex_new.single_occ());
                    assert(rex_old.occ_len() == r0.occ.len());
                } else {
                    assert(rex_old is MultiRole);
                    assert(r0.occ->Multi_0 == rex_old.multi_occ());
                    assert(r2.occ->Multi_0 == rex_new.multi_occ());
                    assert(rex_old.occ_len() == r0.occ.len());
                }
            }
            k = k + 1;
        }
        proof {
            let bf = self@;
            assert(bf.employees[ke as int].assigned.len() == bf.blocks) by {
                lemma_fresh_len_clamped(
                    b0.open,
                    b0.close,
                    clock_in,
                    clock_out,
                    b0.block_size as int,
                );
            }
            assert forall|k2: int, i: int|
                0 <= k2 < bf.employees.len() && 0 <= i < bf.blocks implies #[trigger] consistent_at(
                bf,
                k2,
                i,
            ) by {
                let v = bf.employees[k2].assigned[i];
                if v >= 2 {
                    assert(k2 != ke) by {
                        if k2 == ke {
                            lemma_fresh_pattern_small(
                                b0.open.secs as int,
                                bf.employees[ke as int].clock_in.secs as int,
                                bf.employees[ke as int].clock_out.secs as int,
                                b0.close.secs as int,
                                b0.block_size as int,
                            );
                        }
                    }
                    let z = b0.employees[k2];
                    assert(bf.employees[k2] == z);
                    assert(consistent_at(b0, k2, i));
                    let rq = choose|rq: int|
                        0 <= rq < b0.roles.len() && (#[trigger] b0.roles[rq]).id == v && b0.roles[rq].occ.occupies(i, z.id);
                    assert(z.id != emp_id) by {
                        if k2 < ke {
                            assert(b0.employees[k2].id != b0.employees[ke as int].id);
                        } else {
                            assert(b0.employees[ke as int].id != b0.employees[k2].id);
                        }
                    }
                    if b0.roles[rq].occ is Single {
                        assert(bf.roles[rq].occ.occupies(i, z.id));
                    } else {
                        crate::role::lemma_without(b0.roles[rq].occ->Multi_0[i], emp_id);
                        assert(bf.roles[rq].occ.occupies(i, z.id));
                    }
                    assert(consistent_at(bf, k2, i));
                }
            }
            assert(role_id_taken(bf.roles, 2)) by {
                let k2 = choose|k3: int|
                    0 <= k3 < b0.roles.len() && (#[trigger] b0.roles[k3]).id == 2;
                assert(crate::role::same_meta_view(b0.roles[k2], bf.roles[k2]));
            }
            assert forall|q: int|
                0 <= q < bf.roles.len() && (#[trigger] bf.roles[q]).id == 2 implies bf.roles[q].occ is Multi by {
                assert(crate::role::same_meta_view(b0.roles[q], bf.roles[q]));
            }
            assert(inv(bf));
        }
    }
}


/// The table position of the role the priority bump swaps with when
/// raising: among the roles of strictly higher priority rank than `curr`
/// (a smaller sort key ranks earlier), the one with the largest sort key —
/// the nearest — walking the first `k` table positions, earliest position
/// winning ties.
pub open spec fn best_raise(roles: Seq<RoleView>, curr: usize, k: int) -> Option<int>
    decreases k,
{
    if k <= 0 {
        None
    } else {
        let prev = best_raise(roles, curr, k - 1);
        let cand = roles[k - 1].sort;
        if cand < curr && (match prev {
            None => true,
            Some(j) => cand > roles[j].sort,
        }) {
            Some(k - 1)
        } else {
            prev
        }
    }
}

/// The table position the priority bump swaps with when lowering: the
/// nearest role with a larger sort key, earliest position winning ties.
pub open spec fn best_lower(roles: Seq<RoleView>, curr: usize, k: int) -> Option<int>
    decreases k,
{
    if k <= 0 {
        None
    } else {
        let prev = best_lower(roles, curr, k - 1);
        let cand = roles[k - 1].sort;
        if cand > curr && (match prev {
            None => true,
            Some(j) => cand < roles[j].sort,
        }) {
            Some(k - 1)
        } else {
            prev
        }
    }
}

/// A swap target found when raising lies in range with a strictly smaller
/// sort key; one found when lowering, with a strictly larger one.
proof fn lemma_best_props(roles: Seq<RoleView>, curr: usize, k: int)
    ensures
        match best_raise(roles, curr, k) {
            Some(j) => 0 <= j < k && roles[j].sort < curr,
            None => true,
        },
        match best_lower(roles, curr, k) {
            Some(j) => 0 <= j < k && roles[j].sort > curr,
            None => true,
        },
    decreases k,
{
    if k > 0 {
        lemma_best_props(roles, curr, k - 1);
    }
}

impl Business {
    /// Moves the role one step up or down the priority order by swapping
    /// sort keys with the nearest role in that direction (the largest sort
    /// key strictly below its own when raising, the smallest strictly
    /// above when lowering; the earliest table position wins ties). Does
    /// nothing when the id does not resolve or no role lies in that
    /// direction.
    pub fn update_role_sort(&mut self, role_id: usize, increase_priority: bool)
        requires
            old(self).wf(),
        ensures
            final(self).wf(),
            match find_role_idx(old(self)@.roles, role_id) {
                None => final(self)@ == old(self)@,
                Some(kr) => ({
                    let curr = old(self)@.roles[kr].sort;
                    let best = if increase_priority {
                        best_raise(old(self)@.roles, curr, old(self)@.roles.len() as int)
                    } else {
                        best_lower(old(self)@.roles, curr, old(self)@.roles.len() as int)
                    };
                    match best {
                        None => final(self)@ == old(self)@,
                        Some(j) => final(self)@ == (BusinessView {
                            roles: old(self)@.roles.update(
                                kr,
                                RoleView { sort: old(self)@.roles[j].sort, ..old(self)@.roles[kr] },
                            ).update(j, RoleView { sort: curr, ..old(self)@.roles[j] }),
                            ..old(self)@
                        }),
                    }
                }),
            },
    {
        let ghost b0 = self@;
        let kr = match self.find_role(role_id) {
            Some(k) => k,
            None => {
                return ;
            },
        };
        proof {
            lemma_find_role_idx(b0.roles, role_id);
        }
        let curr_sort = self.roles[kr].sort();
        let mut best: Option<usize> = None;
        let mut k: usize = 0;
        while k < self.roles.len()
            invariant
                k <= self.roles@.len(),
                self@ == b0,
                curr_sort == b0.roles[kr as int].sort,
                (match best {
                    None => (if increase_priority {
                        best_raise(b0.roles, curr_sort, k as int)
                    } else {
                        best_lower(b0.roles, curr_sort, k as int)
                    }) is None,
                    Some(j) => (if increase_priority {
                        best_raise(b0.roles, curr_sort, k as int)
                    } else {
                        best_lower(b0.roles, curr_sort, k as int)
                    }) == Some(j as int) && j < b0.roles.len(),
                }),
            decreases self.roles@.len() - k,
        {
            let cand = self.roles[k].sort();
            let better = match best {
                None => true,
                Some(j) => {
                    let js = self.roles[j].sort();
                    if increase_priority {
                        cand > js
                    } else {
                        cand < js
                    }
                },
            };
            let eligible = if increase_priority {
                cand < curr_sort
            } else {
                cand > curr_sort
            };
            if eligible && better {
                best = Some(k);
            }
            k = k + 1;
        }
        match best {
            None => {},
            Some(j) => {
                let new_sort = self.roles[j].sort();
                self.roles[j].sort_set(curr_sort);
                self.roles[kr].sort_set(new_sort);
                proof {
                    let bf = self@;
                    lemma_best_props(b0.roles, curr_sort, b0.roles.len() as int);
                    assert(j != kr);
                    assert(bf.roles =~= b0.roles.update(
                        kr as int,
                        RoleView { sort: b0.roles[j as int].sort, ..b0.roles[kr as int] },
                    ).update(j as int, RoleView { sort: curr_sort, ..b0.roles[j as int] }));
                    assert forall|k2: int, i: int|
                        0 <= k2 < bf.employees.len() && 0 <= i < bf.blocks implies
                        #[trigger] consistent_at(bf, k2, i) by {
                        let v = bf.employees[k2].assigned[i];
                        if v >= 2 {
                            assert(consistent_at(b0, k2, i));
                            let rq = choose|rq: int|
                                0 <= rq < b0.roles.len() && (#[trigger] b0.roles[rq]).id == v
                                    && b0.roles[rq].occ.occupies(i, b0.employees[k2].id);
                            assert(bf.roles[rq].id == v);
                            assert(bf.roles[rq].occ.occupies(i, bf.employees[k2].id));
                        }
                    }
                    assert(role_id_taken(bf.roles, 2)) by {
                        let k2 = choose|k3: int|
                            0 <= k3 < b0.roles.len() && (#[trigger] b0.roles[k3]).id == 2;
                        assert(bf.roles[k2].id == 2);
                    }
                    assert(inv(bf));
                }
            },
        }
    }
}

impl Business {
    /// Swaps the role between the exclusive and the shared variant. The
    /// replacement starts blank, so every employee occupying the role is
    /// first released back to available; as in role creation, the
    /// replacement's sort key returns to its id and its color to the
    /// default. The built-in lunch role cannot be toggled, and an unknown
    /// id does nothing.
    pub fn toggle_role_multi(&mut self, role_id: usize)
        requires
            old(self).wf(),
        ensures
            final(self).wf(),
            role_id == 2 ==> final(self)@ == old(self)@,
            match find_role_idx(old(self)@.roles, role_id) {
                None => final(self)@ == old(self)@,
                Some(kr) => role_id != 2 ==> ({
                    let rr = old(self)@.roles[kr];
                    let r2 = final(self)@.roles[kr];
                    &&& final(self)@.roles.len() == old(self)@.roles.len()
                    &&& forall|k: int|
                        0 <= k < old(self)@.roles.len() && k != kr ==> (#[trigger] final(self)@.roles[k]) == old(self)@.roles[k]
                    &&& r2.id == rr.id
                    &&& r2.sort == rr.id
                    &&& r2.name == rr.name
                    &&& r2.color == crate::role::DEFAULT_COLOR@
                    &&& ((r2.occ is Multi) <==> (rr.occ is Single))
                    &&& r2.occ.len() == old(self)@.blocks
                    &&& forall|i: int| 0 <= i < old(self)@.blocks ==> (#[trigger] r2.occ.free(i))
                    &&& final(self)@.employees.len() == old(self)@.employees.len()
                    &&& forall|k: int|
                        0 <= k < old(self)@.employees.len() ==> ({
                            let e0 = old(self)@.employees[k];
                            let e2 = #[trigger] final(self)@.employees[k];
                            &&& e2.id == e0.id
                            &&& e2.roles == e0.roles
                            &&& e2.assigned.len() == e0.assigned.len()
                            &&& forall|i: int|
                                0 <= i < e0.assigned.len() ==> (#[trigger] e2.assigned[i]) == (
                                if 0 <= i < rr.occ.len() && rr.occ.occupies(i, e0.id)
                                    && e0.assigned[i] != 0 {
                                    1usize
                                } else {
                                    e0.assigned[i]
                                })
                        })
                    &&& final(self)@.open == old(self)@.open
                    &&& final(self)@.close == old(self)@.close
                    &&& final(self)@.blocks == old(self)@.blocks
                    &&& final(self)@.block_size == old(self)@.block_size
                    &&& final(self)@.role_colors == old(self)@.role_colors
                }),
            },
    {
        let ghost b0 = self@;
        if role_id == 2 {
            return;
        }
        let kr = match self.find_role(role_id) {
            Some(k) => k,
            None => {
                return;
            },
        };
        proof {
            lemma_find_role_idx(b0.roles, role_id);
        }
        let blocks = self.blocks;
        let old_role = self.roles.remove(kr);
        proof {
            assert(roles_view(self.roles) =~= b0.roles.remove(kr as int));
            assert(old_role@ == b0.roles[kr as int]);
        }
        self.release_occupants(&old_role);
        let new_role = match old_role {
            Role::SingleRole(r) => Role::MultiRole(MultiRole::new(r.id, r.name, blocks)),
            Role::MultiRole(r) => Role::SingleRole(SingleRole::new(r.id, r.name, blocks)),
        };
        proof {
            if new_role is SingleRole {
                assert(forall|i: int|
                    0 <= i < blocks ==> (#[trigger] new_role@.occ->Single_0[i]) == 0);
            } else {
                assert(forall|i: int|
                    0 <= i < blocks ==> (#[trigger] new_role@.occ->Multi_0[i]).len() == 0);
            }
        }
        self.roles.insert(kr, new_role);
        proof {
            let bf = self@;
            let rr = b0.roles[kr as int];
            assert(bf.roles =~= b0.roles.remove(kr as int).insert(kr as int, bf.roles[kr as int]));
            assert forall|k: int|
                0 <= k < b0.roles.len() && k != kr implies (#[trigger] bf.roles[k])
                    == b0.roles[k] by {
                if k < kr {
                    assert(b0.roles.remove(kr as int)[k] == b0.roles[k]);
                } else {
                    assert(b0.roles.remove(kr as int)[k - 1] == b0.roles[k]);
                }
            }
            assert forall|i: int| 0 <= i < b0.blocks implies (#[trigger] bf.roles[kr as int].occ.free(
                i,
            )) by {}
            assert forall|k: int, i: int|
                0 <= k < bf.employees.len() && 0 <= i < bf.blocks implies #[trigger] consistent_at(
                bf,
                k,
                i,
            ) by {
                let v = bf.employees[k].assigned[i];
                if v >= 2 {
                    let e0 = b0.employees[k];
                    assert(v == e0.assigned[i]);
                    assert(consistent_at(b0, k, i));
                    let rq = choose|rq: int|
                        0 <= rq < b0.roles.len() && (#[trigger] b0.roles[rq]).id == v && b0.roles[rq].occ.occupies(i, e0.id);
                    assert(rq != kr) by {
                        if rq == kr {
                            assert(rr.occ.occupies(i, e0.id));
                            assert(e0.assigned[i] != 0);
                            assert(bf.employees[k].assigned[i] == 1);
                        }
                    }
                    assert(bf.roles[rq] == b0.roles[rq]);
                    assert(bf.roles[rq].occ.occupies(i, bf.employees[k].id));
                    assert(consistent_at(bf, k, i));
                }
            }
            assert(role_id_taken(bf.roles, 2)) by {
                let k2 = choose|k: int| 0 <= k < b0.roles.len() && (#[trigger] b0.roles[k]).id == 2;
                assert(k2 != kr);
                assert(bf.roles[k2].id == 2);
            }
            assert forall|k1: int, k2: int|
                0 <= k1 < k2 < bf.roles.len() implies (#[trigger] bf.roles[k1]).id != (
            #[trigger] bf.roles[k2]).id by {
                assert(bf.roles[k1].id == b0.roles[k1].id);
                assert(bf.roles[k2].id == b0.roles[k2].id);
            }
            assert(inv(bf));
        }
    }

    /// A sample business: hours 09:00 to 19:00 in half-hour blocks, the
    /// lunch role plus three exclusive roles, and five employees.
    pub fn sample() -> (r: Business)
        ensures
            r.wf(),
            r@.open.secs == 9 * 3600,
            r@.close.secs == 19 * 3600,
            r@.block_size == 1800,
            r@.blocks == 20,
            r@.roles.len() == 4,
            r@.roles[0] == (RoleView {
                id: 2usize,
                sort: 2usize,
                name: "Lunch"@,
                color: crate::role::DEFAULT_COLOR@,
                empty: true,
                occ: OccView::Multi(Seq::new(20, |i: int| Seq::<usize>::empty())),
            }),
            r@.roles[1] == (RoleView {
                id: 3usize,
                sort: 3usize,
                name: "Role 1"@,
                color: "#00AAFF"@,
                empty: true,
                occ: OccView::Single(Seq::new(20, |i: int| 0usize)),
            }),
            r@.roles[2] == (RoleView {
                id: 4usize,
                sort: 4usize,
                name: "Role 2"@,
                color: "#C70039"@,
                empty: true,
                occ: OccView::Single(Seq::new(20, |i: int| 0usize)),
            }),
            r@.roles[3] == (RoleView {
                id: 5usize,
                sort: 5usize,
                name: "Role 3"@,
                color: "#11E000"@,
                empty: true,
                occ: OccView::Single(Seq::new(20, |i: int| 0usize)),
            }),
            r@.employees.len() == 5,
            r@.employees[0] == (EmployeeView {
                id: 1usize,
                name: "Employee 1"@,
                roles: seq![2usize, 3usize, 4usize],
                scheduled: true,
                lunch: 2usize,
                clock_in: TimeOfDay { secs: 32400u32 },
                clock_out: TimeOfDay { secs: 68400u32 },
                assigned: Seq::new(20, |i: int| 1usize),
            }),
            r@.employees[1] == (EmployeeView {
                id: 2usize,
                name: "Employee 2"@,
                roles: seq![2usize, 3usize, 4usize, 5usize],
                scheduled: true,
                lunch: 1usize,
                clock_in: TimeOfDay { secs: 32400u32 },
                clock_out: TimeOfDay { secs: 68400u32 },
                assigned: Seq::new(20, |i: int| 1usize),
            }),
            r@.employees[2] == (EmployeeView {
                id: 3usize,
                name: "Employee 3"@,
                roles: seq![2usize, 3usize, 4usize, 5usize],
                scheduled: true,
                lunch: 2usize,
                clock_in: TimeOfDay { secs: 32400u32 },
                clock_out: TimeOfDay { secs: 61200u32 },
                assigned: Seq::new(
                    20,
                    |i: int|
                        if i < 16 {
                            1usize
                        } else {
                            0usize
                        },
                ),
            }),
            r@.employees[3] == (EmployeeView {
                id: 4usize,
                name: "Employee 4"@,
                roles: seq![2usize, 3usize, 4usize, 5usize],
                scheduled: true,
                lunch: 2usize,
                clock_in: TimeOfDay { secs: 39600u32 },
                clock_out: TimeOfDay { secs: 68400u32 },
                assigned: Seq::new(
                    20,
                    |i: int|
                        if i < 4 {
                            0usize
                        } else {
                            1usize
                        },
                ),
            }),
            r@.employees[4] == (EmployeeView {
                id: 5usize,
                name: "Employee 5"@,
                roles: seq![2usize, 3usize, 4usize, 5usize],
                scheduled: false,
                lunch: 2usize,
                clock_in: TimeOfDay { secs: 32400u32 },
                clock_out: TimeOfDay { secs: 68400u32 },
                assigned: Seq::new(20, |i: int| 1usize),
            }),
            r@.role_colors == seq![
                (2usize, crate::role::DEFAULT_COLOR@),
                (3usize, "#00AAFF"@),
                (4usize, "#C70039"@),
                (5usize, "#11E000"@),
            ],
    {
        let open = TimeOfDay { secs: 9 * 3600 };
        let close = TimeOfDay { secs: 19 * 3600 };
        let mut roles: Vec<Role> = Vec::new();
        roles.push(business_base());
        roles.push(Role::SingleRole(SingleRole::new_blank(3, "Role 1".to_owned(), "#00AAFF".to_owned())));
        roles.push(Role::SingleRole(SingleRole::new_blank(4, "Role 2".to_owned(), "#C70039".to_owned())));
        roles.push(Role::SingleRole(SingleRole::new_blank(5, "Role 3".to_owned(), "#11E000".to_owned())));
        let mut employees: Vec<Employee> = Vec::new();
        let mut e1 = Employee::new(1, "Employee 1".to_owned(), open, close);
        e1.roles = sample_roles(false);
        employees.push(e1);
        let mut e2 = Employee::new(2, "Employee 2".to_owned(), open, close);
        e2.roles = sample_roles(true);
        e2.lunch = 1;
        employees.push(e2);
        let mut e3 = Employee::new(3, "Employee 3".to_owned(), open, TimeOfDay { secs: 17 * 3600 });
        e3.roles = sample_roles(true);
        employees.push(e3);
        let mut e4 = Employee::new(4, "Employee 4".to_owned(), TimeOfDay { secs: 11 * 3600 }, close);
        e4.roles = sample_roles(true);
        employees.push(e4);
        let mut e5 = Employee::new(5, "Employee 5".to_owned(), open, close);
        e5.roles = sample_roles(true);
        e5.scheduled = false;
        employees.push(e5);
        let mut business = Business {
            open,
            close,
            roles,
            employees,
            blocks: 0,
            block_size: 1800,
            role_colors: Vec::new(),
        };
        proof {
            assert(tables_ok(business@)) by {
                assert(business@.roles[0].id == 2);
                assert(business@.roles[1].id == 3);
                assert(business@.roles[2].id == 4);
                assert(business@.roles[3].id == 5);
                assert(business@.employees[0].id == 1);
                assert(business@.employees[1].id == 2);
                assert(business@.employees[2].id == 3);
                assert(business@.employees[3].id == 4);
                assert(business@.employees[4].id == 5);
                assert(business@.roles[0].occ is Multi);
            }
        }
        let ghost b0v = business@;
        business.init();
        proof {
            lemma_steps_for_sample();
            lemma_steps_exact(9 * 3600int, 1800int, 16nat);
            lemma_steps_exact(17 * 3600int, 1800int, 4nat);
            lemma_steps_exact(9 * 3600int, 1800int, 4nat);
            lemma_steps_exact(11 * 3600int, 1800int, 16nat);
            let bf = business@;
            assert forall|k: int| 0 <= k < 4 implies crate::role::same_meta_view(
                b0v.roles[k],
                #[trigger] bf.roles[k],
            ) && bf.roles[k].empty == b0v.roles[k].empty && bf.roles[k].occ.len() == 20 && (
            forall|i: int| 0 <= i < 20 ==> (#[trigger] bf.roles[k].occ.free(i))) by {}
            assert forall|k: int|
                0 <= k < 4 && bf.roles[k].occ is Multi implies bf.roles[k].occ->Multi_0
                    =~~= Seq::new(20, |i: int| Seq::<usize>::empty()) by {
                assert forall|i: int| 0 <= i < 20 implies bf.roles[k].occ->Multi_0[i]
                    =~= Seq::<usize>::empty() by {
                    assert(bf.roles[k].occ.free(i));
                }
            }
            assert forall|k: int|
                0 <= k < 4 && bf.roles[k].occ is Single implies bf.roles[k].occ->Single_0
                    =~= Seq::new(20, |i: int| 0usize) by {
                assert forall|i: int| 0 <= i < 20 implies bf.roles[k].occ->Single_0[i] == 0 by {
                    assert(bf.roles[k].occ.free(i));
                }
            }
            assert(bf.roles[0] == (RoleView {
                id: 2usize,
                sort: 2usize,
                name: "Lunch"@,
                color: crate::role::DEFAULT_COLOR@,
                empty: true,
                occ: OccView::Multi(Seq::new(20, |i: int| Seq::<usize>::empty())),
            }));
            assert(bf.roles[1] == (RoleView {
                id: 3usize,
                sort: 3usize,
                name: "Role 1"@,
                color: "#00AAFF"@,
                empty: true,
                occ: OccView::Single(Seq::new(20, |i: int| 0usize)),
            }));
            assert(bf.roles[2] == (RoleView {
                id: 4usize,
                sort: 4usize,
                name: "Role 2"@,
                color: "#C70039"@,
                empty: true,
                occ: OccView::Single(Seq::new(20, |i: int| 0usize)),
            }));
            assert(bf.roles[3] == (RoleView {
                id: 5usize,
                sort: 5usize,
                name: "Role 3"@,
                color: "#11E000"@,
                empty: true,
                occ: OccView::Single(Seq::new(20, |i: int| 0usize)),
            }));
            // the clock bounds all lie inside the window, so the clamps keep
            // them, and the fresh rows are the stated on-clock patterns
            assert forall|k: int| 0 <= k < 5 implies (#[trigger] bf.employees[k]).clock_in
                == clamp_clock_in(b0v.open, b0v.close, b0v.employees[k].clock_in)
                && bf.employees[k].clock_out == clamp_clock_out(
                b0v.open,
                b0v.close,
                b0v.employees[k].clock_out,
            ) by {}
            assert(bf.employees[0].assigned =~= Seq::new(20, |i: int| 1usize)) by {
                assert(bf.employees[0].assigned == crate::employee::fresh_pattern(
                    32400int,
                    32400int,
                    68400int,
                    68400int,
                    1800int,
                ));
            }
            assert(bf.employees[1].assigned =~= Seq::new(20, |i: int| 1usize));
            assert(bf.employees[4].assigned =~= Seq::new(20, |i: int| 1usize));
            assert(bf.employees[2].assigned =~= Seq::new(
                20,
                |i: int|
                    if i < 16 {
                        1usize
                    } else {
                        0usize
                    },
            )) by {
                assert(bf.employees[2].assigned == crate::employee::fresh_pattern(
                    32400int,
                    32400int,
                    61200int,
                    68400int,
                    1800int,
                ));
                assert(steps_until(32400int, 61200int, 1800int) == 16);
                assert(9 * 3600 + 16 * 1800 == 17 * 3600);
                assert(steps_until(61200int, 68400int, 1800) == 4);
            }
            assert(bf.employees[3].assigned =~= Seq::new(
                20,
                |i: int|
                    if i < 4 {
                        0usize
                    } else {
                        1usize
                    },
            )) by {
                assert(bf.employees[3].assigned == crate::employee::fresh_pattern(
                    32400int,
                    39600int,
                    68400int,
                    68400int,
                    1800int,
                ));
                assert(steps_until(32400int, 39600int, 1800int) == 4);
                assert(9 * 3600 + 4 * 1800 == 11 * 3600);
                assert(steps_until(39600int, 68400int, 1800) == 16);
            }
            assert(bf.role_colors =~= seq![
                (2usize, crate::role::DEFAULT_COLOR@),
                (3usize, "#00AAFF"@),
                (4usize, "#C70039"@),
                (5usize, "#11E000"@),
            ]);
        }
        business
    }
}

/// The qualification list for the sample employees: lunch and the two or
/// three exclusive roles.
fn sample_roles(all: bool) -> (r: Vec<usize>)
    ensures
        all ==> r@ == seq![2usize, 3usize, 4usize, 5usize],
        !all ==> r@ == seq![2usize, 3usize, 4usize],
{
    let mut r: Vec<usize> = Vec::new();
    r.push(2);
    r.push(3);
    r.push(4);
    if all {
        r.push(5);
    }
    proof {
        if all {
            assert(r@ =~= seq![2usize, 3usize, 4usize, 5usize]);
        } else {
            assert(r@ =~= seq![2usize, 3usize, 4usize]);
        }
    }
    r
}

/// Walking a whole number of steps lands exactly on the target.
pub proof fn lemma_steps_exact(c: int, bs: int, n: nat)
    requires
        bs >= 1,
    ensures
        steps_until(c, c + n * bs, bs) == n,
    decreases n,
{
    if n == 0 {
        assert(n * bs == 0) by (nonlinear_arith)
            requires
                n == 0,
        ;
    }
    if n > 0 {
        assert(n * bs >= bs) by (nonlinear_arith)
            requires
                bs >= 1,
                n >= 1,
        ;
        crate::employee::lemma_steps_unfold(c, c + n * bs, bs);
        assert((n - 1) * bs + bs == n * bs) by (nonlinear_arith);
        lemma_steps_exact(c + bs, bs, (n - 1) as nat);
    }
}

/// Ten hours in half-hour steps make twenty blocks.
proof fn lemma_steps_for_sample()
    ensures
        steps_until(9 * 3600int, 19 * 3600int, 1800int) == 20,
{
    lemma_steps_exact(9 * 3600int, 1800int, 20nat);
}

} // verus!
