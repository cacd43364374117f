use shift_scheduler::business::{business_base, Business};
use shift_scheduler::clock::TimeOfDay;
use shift_scheduler::employee::{Employee, EmployeeSort};
use shift_scheduler::role::{Role, RoleAssigned, SingleRole};
use std::cmp::Ordering;

fn hms(h: u32, m: u32, s: u32) -> TimeOfDay {
    TimeOfDay::from_hms(h, m, s).unwrap()
}

/// A business with the lunch role, one exclusive role 3, and `n` employees,
/// all clocked over the whole day.
fn small_business(open: TimeOfDay, close: TimeOfDay, block_size: u32, n: usize) -> Business {
    let mut roles = Vec::new();
    roles.push(business_base());
    roles.push(Role::SingleRole(SingleRole::new(3, "Floor".to_string(), 0)));
    let mut employees = Vec::new();
    for id in 1..=n {
        let mut e = Employee::new(id, format!("E{}", id), open, close);
        e.roles = vec![2, 3];
        employees.push(e);
    }
    let mut b = Business {
        open,
        close,
        roles,
        employees,
        blocks: 0,
        block_size,
        role_colors: Vec::new(),
    };
    b.init();
    b
}

fn single_occ(b: &Business, role_id: usize) -> Vec<usize> {
    let k = b.find_role(role_id).unwrap();
    match b.roles[k].assigned() {
        RoleAssigned::SingleAssinged(v) => v,
        RoleAssigned::MultiAssigned(_) => panic!("expected an exclusive role"),
    }
}

#[test]
fn grid_has_four_blocks() {
    let b = small_business(hms(9, 0, 0), hms(11, 0, 0), 1800, 1);
    assert_eq!(b.blocks, 4);
    assert_eq!(b.employees[0].assigned, vec![1, 1, 1, 1]);
    assert_eq!(single_occ(&b, 3), vec![0, 0, 0, 0]);
}

#[test]
fn assign_two_blocks() {
    // business open 09:00, close 11:00, half-hour blocks: four blocks;
    // the employee is clocked the whole day and qualified for role 3
    let mut b = small_business(hms(9, 0, 0), hms(11, 0, 0), 1800, 1);
    let n = b.assign_block(1, 3, vec![0, 1]).unwrap();
    assert_eq!(n, 2);
    assert_eq!(b.employees[0].assigned, vec![3, 3, 1, 1]);
    assert_eq!(single_occ(&b, 3), vec![1, 1, 0, 0]);
}

#[test]
fn assign_is_idempotent() {
    let mut b = small_business(hms(9, 0, 0), hms(11, 0, 0), 1800, 1);
    assert_eq!(b.assign_block(1, 3, vec![0]).unwrap(), 1);
    let before = b.employees[0].assigned.clone();
    assert_eq!(b.assign_block(1, 3, vec![0]).unwrap(), 0);
    assert_eq!(b.employees[0].assigned, before);
}

#[test]
fn displacement_releases_previous_occupant() {
    // two employees, a one-hour day of two blocks, both qualified for role 3
    let mut b = small_business(hms(9, 0, 0), hms(10, 0, 0), 1800, 2);
    assert_eq!(b.blocks, 2);
    assert_eq!(b.assign_block(1, 3, vec![0]).unwrap(), 1);
    let n = b.assign_block(2, 3, vec![0]).unwrap();
    assert_eq!(n, 2, "one successful index plus one displaced employee");
    assert_eq!(b.employees[0].assigned[0], 1, "the displaced employee is available again");
    assert_eq!(single_occ(&b, 3)[0], 2, "the role now holds the new employee");
}

#[test]
fn assign_errors() {
    let mut b = small_business(hms(9, 0, 0), hms(10, 0, 0), 1800, 1);
    assert!(matches!(
        b.assign_block(9, 3, vec![0]),
        Err(shift_scheduler::BusinessError::EmployeeNotFound)
    ));
    assert!(matches!(
        b.assign_block(1, 77, vec![0]),
        Err(shift_scheduler::BusinessError::RoleNotFound)
    ));
    let mut b2 = small_business(hms(9, 0, 0), hms(10, 0, 0), 1800, 1);
    b2.employees[0].roles = vec![2];
    b2.init();
    match b2.assign_block(1, 3, vec![0]) {
        Err(shift_scheduler::BusinessError::EmployeeError(
            shift_scheduler::EmployeeError::NotAssignedRole { failed, allowed },
        )) => {
            assert_eq!(failed, 3);
            assert_eq!(allowed, vec![2]);
        },
        _ => panic!("expected a qualification failure"),
    }
}

#[test]
fn remove_block_detaches_roles() {
    let mut b = small_business(hms(9, 0, 0), hms(10, 0, 0), 1800, 1);
    b.assign_block(1, 3, vec![0, 1]).unwrap();
    b.remove_block(1, vec![0]).unwrap();
    assert_eq!(b.employees[0].assigned, vec![1, 3]);
    assert_eq!(single_occ(&b, 3), vec![0, 1]);
}

#[test]
fn restrict_role_releases_everything() {
    let mut b = small_business(hms(9, 0, 0), hms(10, 0, 0), 1800, 1);
    b.assign_block(1, 3, vec![0, 1]).unwrap();
    b.restrict_role(1, 3).unwrap();
    assert_eq!(b.employees[0].roles, vec![2]);
    assert_eq!(b.employees[0].assigned, vec![1, 1]);
    assert_eq!(single_occ(&b, 3), vec![0, 0]);
}

#[test]
fn hours_change_resets_the_grid() {
    let mut b = small_business(hms(9, 0, 0), hms(11, 0, 0), 1800, 1);
    b.assign_block(1, 3, vec![0, 1]).unwrap();
    // clamp the employee into the new shorter window and wipe everything
    b.update_business_hours(hms(9, 0, 0), hms(10, 0, 0), 1800);
    assert_eq!(b.blocks, 2);
    assert_eq!(b.employees[0].assigned, vec![1, 1]);
    assert_eq!(single_occ(&b, 3), vec![0, 0]);
}

#[test]
fn hours_reset_respects_clock_bounds() {
    let mut b = small_business(hms(9, 0, 0), hms(11, 0, 0), 1800, 1);
    b.update_employee_hours(1, hms(9, 30, 0), hms(10, 30, 0));
    // 0 before clock-in, 1 inside the shift, 0 after clock-out
    assert_eq!(b.employees[0].assigned, vec![0, 1, 1, 0]);
    b.update_business_hours(hms(9, 0, 0), hms(11, 0, 0), 1800);
    assert_eq!(b.employees[0].assigned, vec![0, 1, 1, 0]);
}

#[test]
fn employee_hours_change_detaches() {
    let mut b = small_business(hms(9, 0, 0), hms(10, 0, 0), 1800, 1);
    b.assign_block(1, 3, vec![0]).unwrap();
    b.update_employee_hours(1, hms(9, 0, 0), hms(10, 0, 0));
    assert_eq!(b.employees[0].assigned, vec![1, 1]);
    assert_eq!(single_occ(&b, 3), vec![0, 0]);
}

#[test]
fn new_ids_take_lowest_unused() {
    let mut b = small_business(hms(9, 0, 0), hms(10, 0, 0), 1800, 2);
    b.new_role("Till".to_string());
    assert_eq!(b.roles.last().unwrap().id(), 4);
    b.new_employee("New".to_string());
    assert_eq!(b.employees.last().unwrap().id, 3);
    b.delete_employee(1);
    b.new_employee("Refill".to_string());
    assert_eq!(b.employees.last().unwrap().id, 1);
}

#[test]
fn delete_role_releases_occupants() {
    let mut b = small_business(hms(9, 0, 0), hms(10, 0, 0), 1800, 1);
    b.assign_block(1, 3, vec![0]).unwrap();
    b.delete_role(3);
    assert!(b.find_role(3).is_none());
    assert_eq!(b.employees[0].assigned, vec![1, 1]);
}

#[test]
fn lunch_role_cannot_be_deleted_or_toggled() {
    let mut b = small_business(hms(9, 0, 0), hms(10, 0, 0), 1800, 1);
    b.delete_role(2);
    assert!(b.find_role(2).is_some());
    b.toggle_role_multi(2);
    let k = b.find_role(2).unwrap();
    assert!(b.roles[k].is_multi());
}

#[test]
fn toggle_role_multi_swaps_variant() {
    let mut b = small_business(hms(9, 0, 0), hms(10, 0, 0), 1800, 1);
    b.assign_block(1, 3, vec![0]).unwrap();
    b.toggle_role_multi(3);
    let k = b.find_role(3).unwrap();
    assert!(b.roles[k].is_multi());
    assert_eq!(b.employees[0].assigned, vec![1, 1], "occupants are released first");
}

#[test]
fn delete_employee_detaches_from_roles() {
    let mut b = small_business(hms(9, 0, 0), hms(10, 0, 0), 1800, 2);
    b.assign_block(1, 3, vec![0]).unwrap();
    b.delete_employee(1);
    assert!(b.find_employee(1).is_none());
    assert_eq!(single_occ(&b, 3), vec![0, 0]);
}

#[test]
fn first_open_finds_first_available_block() {
    let mut b = small_business(hms(9, 0, 0), hms(10, 0, 0), 1800, 1);
    b.assign_block(1, 3, vec![0]).unwrap();
    assert_eq!(b.employees[0].first_open(), Some(1));
    b.assign_block(1, 3, vec![1]).unwrap();
    assert_eq!(b.employees[0].first_open(), None);
}

#[test]
fn sample_business_is_populated() {
    let b = Business::sample();
    assert_eq!(b.blocks, 20);
    assert_eq!(b.roles.len(), 4);
    assert_eq!(b.employees.len(), 5);
    assert!(b.find_role(2).is_some());
}

#[test]
fn employee_ordering() {
    let b = small_business(hms(9, 0, 0), hms(10, 0, 0), 1800, 2);
    let (a, c) = (&b.employees[0], &b.employees[1]);
    // equal names except the suffix: E1 before E2, then ids break full ties
    assert_eq!(a.cmp(c, EmployeeSort::Name), Ordering::Less);
    assert_eq!(c.cmp(a, EmployeeSort::Name), Ordering::Greater);
    assert_eq!(a.cmp(a, EmployeeSort::Name), Ordering::Equal);
    // an unscheduled employee sorts last whatever the criterion
    let mut b2 = small_business(hms(9, 0, 0), hms(10, 0, 0), 1800, 2);
    b2.toggle_employee_scheduled(1);
    assert_eq!(b2.employees[0].cmp(&b2.employees[1], EmployeeSort::Name), Ordering::Greater);
    // the employee covering the role earlier sorts first
    let mut b3 = small_business(hms(9, 0, 0), hms(10, 0, 0), 1800, 2);
    b3.assign_block(2, 3, vec![0]).unwrap();
    assert_eq!(
        b3.employees[0].cmp(&b3.employees[1], EmployeeSort::Assigned { id: 3 }),
        Ordering::Greater
    );
}

#[test]
fn role_priority_swap_steps_to_the_nearest() {
    let mut b = small_business(hms(9, 0, 0), hms(10, 0, 0), 1800, 1);
    b.new_role("Till".to_string());
    let (k2, k3, k4) = (
        b.find_role(2).unwrap(),
        b.find_role(3).unwrap(),
        b.find_role(4).unwrap(),
    );
    assert_eq!(
        (b.roles[k2].sort(), b.roles[k3].sort(), b.roles[k4].sort()),
        (2, 3, 4)
    );
    // raising role 4 swaps with the nearest smaller sort, role 3
    b.update_role_sort(4, true);
    assert_eq!(
        (b.roles[k2].sort(), b.roles[k3].sort(), b.roles[k4].sort()),
        (2, 4, 3)
    );
    // lowering it swaps back
    b.update_role_sort(4, false);
    assert_eq!(
        (b.roles[k2].sort(), b.roles[k3].sort(), b.roles[k4].sort()),
        (2, 3, 4)
    );
    // raising the top-priority role finds nothing to swap with
    b.update_role_sort(2, true);
    assert_eq!(b.roles[k2].sort(), 2);
}
