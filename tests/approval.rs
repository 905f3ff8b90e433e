use approval_chain::{
    Approver, ConcreteHandlerBase, HandleBase, Outcome, PurchaseRequest, Role, Traversal,
};

fn board_chain() -> Approver {
    let congress = Approver::new(Role::Congress, "cc".to_string(), None);
    let president = Approver::new(Role::President, "pp".to_string(), Some(congress));
    let vice_president = Approver::new(Role::VicePresident, "vv".to_string(), Some(president));
    Approver::new(Role::Director, "dd".to_string(), Some(vice_president))
}

fn names(t: &Traversal) -> Vec<String> {
    t.visited.iter().map(|v| v.name.clone()).collect()
}

fn roles(t: &Traversal) -> Vec<Role> {
    t.visited.iter().map(|v| v.role).collect()
}

#[test]
fn test_approver() {
    let director = board_chain();

    let pr = PurchaseRequest { amount: 55000, number: 10001, purpose: "项目需要".to_string() };
    let pr2 = PurchaseRequest { amount: 200000, number: 10002, purpose: "饭堂开销需要".to_string() };
    let pr3 = PurchaseRequest { amount: 2000000, number: 10003, purpose: "买办公室".to_string() };

    let t = director.handle_chain(&pr);
    assert_eq!(names(&t), vec!["dd", "vv"]);
    assert_eq!(roles(&t), vec![Role::Director, Role::VicePresident]);
    assert_eq!(t.outcome, Outcome::Stopped);

    let t2 = director.handle_chain(&pr2);
    assert_eq!(names(&t2), vec!["dd", "vv", "pp"]);
    assert_eq!(t2.outcome, Outcome::Stopped);

    let t3 = director.handle_chain(&pr3);
    assert_eq!(names(&t3), vec!["dd", "vv", "pp", "cc"]);
    assert_eq!(
        roles(&t3),
        vec![Role::Director, Role::VicePresident, Role::President, Role::Congress]
    );
    assert_eq!(t3.outcome, Outcome::Stopped);
}

#[test]
fn chain_built_by_hand_is_walked_in_order() {
    let congress = Approver { role: Role::Congress, name: "cc".to_string(), handle_base: None };
    let director = Approver {
        role: Role::Director,
        name: "dd".to_string(),
        handle_base: Some(HandleBase { next: Some(Box::new(congress)) }),
    };
    let t = director.handle_chain(&PurchaseRequest::new(60000, 1, "x".to_string()));
    assert_eq!(names(&t), vec!["dd", "cc"]);
    assert_eq!(t.outcome, Outcome::Stopped);
}

#[test]
fn small_amount_stops_at_the_head() {
    let t = board_chain().handle_chain(&PurchaseRequest::new(100, 7, "pens".to_string()));
    assert_eq!(names(&t), vec!["dd"]);
    assert_eq!(t.outcome, Outcome::Stopped);
}

#[test]
fn thresholds_are_strict() {
    let at_limit = PurchaseRequest::new(50000, 1, "a".to_string());
    let above = PurchaseRequest::new(50001, 2, "b".to_string());
    assert_eq!(names(&board_chain().handle_chain(&at_limit)), vec!["dd"]);
    assert_eq!(names(&board_chain().handle_chain(&above)), vec!["dd", "vv"]);
    let at_top = PurchaseRequest::new(500000, 3, "c".to_string());
    assert_eq!(names(&board_chain().handle_chain(&at_top)), vec!["dd", "vv", "pp"]);
}

#[test]
fn zero_and_negative_amounts_are_accepted() {
    let zero = board_chain().handle_chain(&PurchaseRequest::new(0, 1, String::new()));
    assert_eq!(names(&zero), vec!["dd"]);
    assert_eq!(zero.outcome, Outcome::Stopped);
    let negative = board_chain().handle_chain(&PurchaseRequest::new(-5, 2, String::new()));
    assert_eq!(names(&negative), vec!["dd"]);
    assert_eq!(negative.outcome, Outcome::Stopped);
}

#[test]
fn same_request_gives_same_traversal() {
    let chain = board_chain();
    let request = PurchaseRequest::new(200000, 10002, "canteen".to_string());
    let first = chain.handle_chain(&request);
    let second = chain.handle_chain(&request);
    assert_eq!(names(&first), names(&second));
    assert_eq!(first.outcome, second.outcome);
    // Number and purpose are not read.
    let other = chain.handle_chain(&PurchaseRequest::new(200000, 99, "other".to_string()));
    assert_eq!(names(&first), names(&other));
    assert_eq!(first.outcome, other.outcome);
}

#[test]
fn stop_hides_later_approvers() {
    let a = Approver::new(
        Role::Director,
        "d".to_string(),
        Some(Approver::new(Role::Congress, "c".to_string(), None)),
    );
    let b = Approver::new(
        Role::Director,
        "d".to_string(),
        Some(Approver::new(Role::President, "p".to_string(), None)),
    );
    let request = PurchaseRequest::new(1000, 1, "x".to_string());
    let ta = a.handle_chain(&request);
    let tb = b.handle_chain(&request);
    assert_eq!(names(&ta), vec!["d"]);
    assert_eq!(names(&ta), names(&tb));
    assert_eq!(ta.outcome, Outcome::Stopped);
    assert_eq!(tb.outcome, Outcome::Stopped);
}

#[test]
fn passing_last_approver_ends_the_chain() {
    let chain = Approver::new(
        Role::Director,
        "d1".to_string(),
        Some(Approver::new(Role::VicePresident, "v1".to_string(), None)),
    );
    let t = chain.handle_chain(&PurchaseRequest::new(150000, 1, "x".to_string()));
    assert_eq!(names(&t), vec!["d1", "v1"]);
    assert_eq!(t.outcome, Outcome::Continued);
}

#[test]
fn single_approver_chain() {
    let only = Approver::new(Role::President, "p".to_string(), None);
    assert!(only.get_handler().is_none());
    let pass = only.handle_chain(&PurchaseRequest::new(600000, 1, "x".to_string()));
    assert_eq!(names(&pass), vec!["p"]);
    assert_eq!(pass.outcome, Outcome::Continued);
    let stop = only.handle_chain(&PurchaseRequest::new(600, 2, "y".to_string()));
    assert_eq!(names(&stop), vec!["p"]);
    assert_eq!(stop.outcome, Outcome::Stopped);
}

#[test]
fn empty_handle_visits_nothing() {
    let handle = HandleBase { next: None };
    let t = handle.handle_next(&PurchaseRequest::new(1, 1, "x".to_string()));
    assert!(t.visited.is_empty());
    assert_eq!(t.outcome, Outcome::Continued);
}

#[test]
fn handle_next_walks_from_the_successor() {
    let head = board_chain();
    let handle = head.get_handler().unwrap();
    let t = handle.handle_next(&PurchaseRequest::new(200000, 1, "x".to_string()));
    assert_eq!(names(&t), vec!["vv", "pp"]);
    assert_eq!(t.outcome, Outcome::Stopped);
}

#[test]
fn roles_decide_by_their_limits() {
    assert!(!Role::Director.decide(50000));
    assert!(Role::Director.decide(50001));
    assert!(!Role::VicePresident.decide(100000));
    assert!(Role::VicePresident.decide(100001));
    assert!(!Role::President.decide(500000));
    assert!(Role::President.decide(500001));
    assert!(!Role::Congress.decide(i64::MAX));
}

#[test]
fn process_uses_the_approver_role() {
    let head = board_chain();
    assert!(head.process(&PurchaseRequest::new(55000, 1, "x".to_string())));
    assert!(!head.process(&PurchaseRequest::new(5000, 1, "x".to_string())));
}

#[test]
fn request_accessors() {
    let r = PurchaseRequest::new(55000, 10001, "项目需要".to_string());
    assert_eq!(r.get_amount(), 55000);
    assert_eq!(r.get_number(), 10001);
    assert_eq!(r.get_purpose(), "项目需要");
}
