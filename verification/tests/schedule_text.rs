use shift_scheduler::business::{business_base, Business};
use shift_scheduler::clock::TimeOfDay;
use shift_scheduler::csv::{
    csv_to_schedule, encoded_from_string, encoded_to_string, schedule_to_csv, ParseError, Schedule,
};
use shift_scheduler::employee::Employee;
use shift_scheduler::role::{Role, SingleRole};

fn hms(h: u32, m: u32, s: u32) -> TimeOfDay {
    TimeOfDay::from_hms(h, m, s).unwrap()
}

fn two_block_business() -> Business {
    let mut roles = Vec::new();
    roles.push(business_base());
    roles.push(Role::SingleRole(SingleRole::new(3, "Floor".to_string(), 0)));
    let mut e1 = Employee::new(1, "A".to_string(), hms(9, 0, 0), hms(10, 0, 0));
    e1.roles = vec![2, 3];
    let mut e2 = Employee::new(2, "B".to_string(), hms(9, 0, 0), hms(10, 0, 0));
    e2.roles = vec![2, 3];
    e2.scheduled = false;
    let mut b = Business {
        open: hms(9, 0, 0),
        close: hms(10, 0, 0),
        roles,
        employees: vec![e1, e2],
        blocks: 0,
        block_size: 1800,
        role_colors: Vec::new(),
    };
    b.init();
    b
}

#[test]
fn produces_expected_text() {
    let mut b = two_block_business();
    b.assign_block(1, 3, vec![0]).unwrap();
    let text = schedule_to_csv(&b);
    assert_eq!(text, "1,09:00:00,10:00:00,3,1,--2,false,--");
}

#[test]
fn round_trip_reproduces_rows_and_clocks() {
    let mut b = two_block_business();
    b.assign_block(1, 3, vec![1]).unwrap();
    let text = schedule_to_csv(&b);
    let records = csv_to_schedule(text).unwrap();
    assert_eq!(records.len(), 2);
    assert_eq!(records[0].0, 1);
    match &records[0].1 {
        Schedule::True((ci, co, codes)) => {
            assert_eq!(ci.secs, 9 * 3600);
            assert_eq!(co.secs, 10 * 3600);
            assert_eq!(codes, &vec![1, 3]);
        },
        Schedule::False => panic!("the first employee is scheduled"),
    }
    assert_eq!(records[1].0, 2);
    assert!(matches!(records[1].1, Schedule::False));
}

#[test]
fn loader_round_trip_restores_assignments() {
    let mut b = two_block_business();
    b.assign_block(1, 3, vec![0]).unwrap();
    let text = schedule_to_csv(&b);
    let mut fresh = two_block_business();
    fresh.load_schedule(text);
    assert_eq!(fresh.employees[0].assigned, vec![3, 1]);
    assert!(fresh.employees[0].scheduled);
    assert!(!fresh.employees[1].scheduled);
    let k = fresh.find_role(3).unwrap();
    match fresh.roles[k].assigned() {
        shift_scheduler::role::RoleAssigned::SingleAssinged(v) => assert_eq!(v, vec![1, 0]),
        _ => panic!("role 3 is exclusive"),
    }
}

#[test]
fn loader_skips_wrong_length_records() {
    let mut b = two_block_business();
    b.load_schedule("1,09:00:00,10:00:00,3,3,3,--".to_string());
    assert!(!b.employees[0].scheduled, "a wrong-length record is skipped");
}

#[test]
fn parse_error_bad_int() {
    assert_eq!(csv_to_schedule("x,false,--".to_string()).unwrap_err(), ParseError::BadInt);
    assert_eq!(
        csv_to_schedule("1,09:00:00,10:00:00,z,--".to_string()).unwrap_err(),
        ParseError::BadInt
    );
}

#[test]
fn parse_error_bad_time() {
    assert_eq!(
        csv_to_schedule("1,09:00,10:00:00,1,--".to_string()).unwrap_err(),
        ParseError::BadTime
    );
    assert_eq!(
        csv_to_schedule("1,29:00:00,10:00:00,1,--".to_string()).unwrap_err(),
        ParseError::BadTime
    );
}

#[test]
fn parse_error_missing_field() {
    assert_eq!(csv_to_schedule("1,--".to_string()).unwrap_err(), ParseError::MissingField);
    assert_eq!(
        csv_to_schedule("1,09:00:00,--".to_string()).unwrap_err(),
        ParseError::MissingField
    );
}

#[test]
fn parse_failure_leaves_business_unchanged() {
    let mut b = two_block_business();
    b.assign_block(1, 3, vec![0]).unwrap();
    let before = b.employees[0].assigned.clone();
    b.load_schedule("garbage".to_string());
    assert_eq!(b.employees[0].assigned, before);
}

#[test]
fn empty_schedule_parses_to_nothing() {
    let records = csv_to_schedule(String::new()).unwrap();
    assert_eq!(records.len(), 0);
}

#[test]
fn byte_encoding_round_trip() {
    let text = encoded_to_string(vec![0, 255, 7]);
    assert_eq!(text, "0,255,7");
    let back = encoded_from_string(text).unwrap();
    assert_eq!(back, vec![0, 255, 7]);
}

#[test]
fn byte_decoding_rejects_large_and_bad_fields() {
    assert_eq!(encoded_from_string("1,256".to_string()).unwrap_err(), ParseError::BadInt);
    assert_eq!(encoded_from_string("1,x".to_string()).unwrap_err(), ParseError::BadInt);
}

#[test]
fn time_components_are_checked() {
    assert!(TimeOfDay::from_hms(23, 59, 59).is_some());
    assert!(TimeOfDay::from_hms(24, 0, 0).is_none());
    assert!(TimeOfDay::from_hms(9, 60, 0).is_none());
    assert_eq!(hms(9, 30, 15).secs, 9 * 3600 + 30 * 60 + 15);
}
