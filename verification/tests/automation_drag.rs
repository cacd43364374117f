use shift_scheduler::business::{business_base, Business};
use shift_scheduler::clock::TimeOfDay;
use shift_scheduler::drag::TimeBlock;
use shift_scheduler::employee::Employee;
use shift_scheduler::role::{Role, RoleAssigned, SingleRole};

fn hms(h: u32, m: u32, s: u32) -> TimeOfDay {
    TimeOfDay::from_hms(h, m, s).unwrap()
}

fn business_with(n: usize, open: TimeOfDay, close: TimeOfDay) -> Business {
    let mut roles = Vec::new();
    roles.push(business_base());
    roles.push(Role::SingleRole(SingleRole::new(3, "Floor".to_string(), 0)));
    let mut employees = Vec::new();
    for id in 1..=n {
        let mut e = Employee::new(id, format!("E{}", id), open, close);
        e.roles = vec![2, 3];
        employees.push(e);
    }
    let mut b = Business {
        open,
        close,
        roles,
        employees,
        blocks: 0,
        block_size: 1800,
        role_colors: Vec::new(),
    };
    b.init();
    b
}

fn single_occ(b: &Business, role_id: usize) -> Vec<usize> {
    let k = b.find_role(role_id).unwrap();
    match b.roles[k].assigned() {
        RoleAssigned::SingleAssinged(v) => v,
        RoleAssigned::MultiAssigned(_) => panic!("expected an exclusive role"),
    }
}

fn lunch_occ(b: &Business) -> Vec<Vec<usize>> {
    let k = b.find_role(2).unwrap();
    match b.roles[k].assigned() {
        RoleAssigned::MultiAssigned(v) => v,
        RoleAssigned::SingleAssinged(_) => panic!("the lunch role is shared"),
    }
}

#[test]
fn lunch_lands_around_the_midpoint() {
    // four blocks, clocked the whole day, a two-block lunch: the anchor is
    // block 2 (the midpoint), and the lunch takes blocks 2 and 1
    let mut b = business_with(1, hms(9, 0, 0), hms(11, 0, 0));
    assert_eq!(b.blocks, 4);
    b.schedule_lunch();
    assert_eq!(b.employees[0].assigned, vec![1, 2, 2, 1]);
    let occ = lunch_occ(&b);
    assert!(!occ[1].contains(&1) || occ[1] == vec![1]);
    assert_eq!(occ[1], vec![1]);
    assert_eq!(occ[2], vec![1]);
    assert!(occ[0].is_empty());
    assert!(occ[3].is_empty());
}

#[test]
fn lunch_skips_unscheduled_employees() {
    let mut b = business_with(1, hms(9, 0, 0), hms(11, 0, 0));
    b.toggle_employee_scheduled(1);
    b.schedule_lunch();
    assert_eq!(b.employees[0].assigned, vec![1, 1, 1, 1]);
}

#[test]
fn role_fill_claims_shift_length_areas() {
    let mut b = business_with(1, hms(9, 0, 0), hms(11, 0, 0));
    b.schedule_roles(2);
    // one employee, shift length two: blocks 0..2 from the first free
    // block, then the remaining blocks in a second area
    assert_eq!(b.employees[0].assigned, vec![3, 3, 3, 3]);
    assert_eq!(single_occ(&b, 3), vec![1, 1, 1, 1]);
}

#[test]
fn role_fill_rotates_between_employees() {
    let mut b = business_with(2, hms(9, 0, 0), hms(11, 0, 0));
    b.schedule_roles(2);
    assert_eq!(b.employees[0].assigned, vec![3, 3, 1, 1]);
    assert_eq!(b.employees[1].assigned, vec![1, 1, 3, 3]);
    assert_eq!(single_occ(&b, 3), vec![1, 1, 2, 2]);
}

#[test]
fn role_fill_ignores_unqualified_employees() {
    let mut b = business_with(1, hms(9, 0, 0), hms(11, 0, 0));
    b.employees[0].roles = vec![2];
    b.init();
    b.schedule_roles(2);
    assert_eq!(b.employees[0].assigned, vec![1, 1, 1, 1]);
}

#[test]
fn drag_moves_a_block() {
    let mut b = business_with(2, hms(9, 0, 0), hms(11, 0, 0));
    b.assign_block(1, 3, vec![0]).unwrap();
    // drag employee 1's block 0 of role 3 onto employee 2's block 2
    let target = TimeBlock::new_simple(2, 2, 3);
    let drag = TimeBlock::new_simple(1, 0, 3);
    let held = TimeBlock::new_simple(1, 0, 3);
    b.drag_assign(target, drag, held);
    assert_eq!(b.employees[0].assigned, vec![1, 1, 1, 1]);
    assert_eq!(b.employees[1].assigned, vec![1, 1, 3, 1]);
    assert_eq!(single_occ(&b, 3), vec![0, 0, 2, 0]);
}

#[test]
fn drag_to_unassign_releases_the_source() {
    let mut b = business_with(1, hms(9, 0, 0), hms(11, 0, 0));
    b.assign_block(1, 3, vec![1]).unwrap();
    let target = TimeBlock::new_simple(0, 0, 3);
    let drag = TimeBlock::new_simple(1, 1, 3);
    let held = TimeBlock::new_simple(1, 1, 3);
    b.drag_assign(target, drag, held);
    assert_eq!(b.employees[0].assigned, vec![1, 1, 1, 1]);
    assert_eq!(single_occ(&b, 3), vec![0, 0, 0, 0]);
}

#[test]
fn drag_onto_same_cell_is_a_no_op() {
    let mut b = business_with(1, hms(9, 0, 0), hms(11, 0, 0));
    b.assign_block(1, 3, vec![0]).unwrap();
    let cell = TimeBlock::new_simple(1, 0, 3);
    b.drag_assign(cell, cell, cell);
    assert_eq!(b.employees[0].assigned, vec![3, 1, 1, 1]);
}

#[test]
fn self_move_keeps_the_overlap() {
    let mut b = business_with(1, hms(9, 0, 0), hms(11, 0, 0));
    b.assign_block(1, 3, vec![0, 1]).unwrap();
    // drag the two-block span one block forward onto the same employee
    let target = TimeBlock { emp_id: 1, time_index: 1, role: 3, len: 2, len_index: 0 };
    let drag = TimeBlock { emp_id: 1, time_index: 0, role: 3, len: 2, len_index: 0 };
    let held = TimeBlock { emp_id: 1, time_index: 0, role: 3, len: 2, len_index: 0 };
    b.drag_assign(target, drag, held);
    assert_eq!(b.employees[0].assigned, vec![1, 3, 3, 1]);
}

#[test]
fn lunch_scenario_with_offset_shift() {
    // clocked for the later half of the day: anchor near 10:30
    let mut b = business_with(1, hms(9, 0, 0), hms(11, 0, 0));
    b.update_employee_hours(1, hms(10, 0, 0), hms(11, 0, 0));
    b.schedule_lunch();
    // midpoint 10:30 gives anchor block 3; a two-block lunch takes 3 and 2
    assert_eq!(b.employees[0].assigned, vec![0, 0, 2, 2]);
}

#[test]
fn lunch_repeats_cleanly_even_for_an_empty_window() {
    // an opening after the close makes a zero-block grid; the reset clamps
    // clock-in to the opening and a repeated run must not move it again
    let mut b = business_with(1, hms(9, 0, 0), hms(11, 0, 0));
    b.update_business_hours(hms(10, 0, 0), hms(9, 0, 0), 1800);
    assert_eq!(b.blocks, 0);
    b.schedule_lunch();
    let clock_in_once = b.employees[0].clock_in;
    let clock_out_once = b.employees[0].clock_out;
    b.schedule_lunch();
    assert_eq!(b.employees[0].clock_in, clock_in_once);
    assert_eq!(b.employees[0].clock_out, clock_out_once);
}

#[test]
fn role_fill_follows_the_priority_order() {
    let mut b = business_with(1, hms(9, 0, 0), hms(10, 0, 0));
    b.new_role("Till".to_string());
    b.assign_role(1, 4);
    // role 3 ranks before role 4 and takes the whole day
    let mut first = b.clone();
    first.schedule_roles(2);
    assert_eq!(first.employees[0].assigned, vec![3, 3]);
    // after a priority swap role 4 fills first instead
    b.update_role_sort(4, true);
    b.schedule_roles(2);
    assert_eq!(b.employees[0].assigned, vec![4, 4]);
}

#[test]
fn lunch_twice_equals_lunch_once() {
    let mut b = business_with(2, hms(9, 0, 0), hms(11, 0, 0));
    b.schedule_lunch();
    let rows_once: Vec<Vec<usize>> = b.employees.iter().map(|e| e.assigned.clone()).collect();
    let occ_once = lunch_occ(&b);
    b.schedule_lunch();
    let rows_twice: Vec<Vec<usize>> = b.employees.iter().map(|e| e.assigned.clone()).collect();
    assert_eq!(rows_twice, rows_once);
    assert_eq!(lunch_occ(&b), occ_once);
}
