use chain_of_responsibility::{GateHandler, Handler, ReqHandler, Request};

#[test]
fn new_handler_has_no_successor() {
    let h = ReqHandler::new();
    assert_eq!(h.next(), None);
}

#[test]
fn next_handler_sets_and_replaces() {
    let mut h = ReqHandler::new();
    h.next_handler(3);
    assert_eq!(h.next(), Some(3));
    h.next_handler(1);
    assert_eq!(h.next, Some(1));
}

#[test]
fn single_handler_doubles_and_appends_newline() {
    let h = ReqHandler::new();
    let mut req = Request("Hello".to_owned());
    assert!(!h.handle(&mut req));
    assert_eq!(req.0, "HelloHello\n");
}

#[test]
fn linked_handler_says_forward() {
    let h = ReqHandler { next: Some(0) };
    let mut req = Request("é".to_owned());
    assert!(h.handle(&mut req));
    assert_eq!(req.0, "éé\n");
}

#[test]
fn closed_gate_rewrites_but_does_not_forward() {
    let mut g = GateHandler::new(false);
    g.next_handler(4);
    assert_eq!(g.next(), Some(4));
    assert!(!g.pass);
    let mut req = Request("w".to_owned());
    assert!(!g.handle(&mut req));
    assert_eq!(req.0, "ww\n");
}

#[test]
fn open_gate_forwards_only_with_a_successor() {
    let mut g = GateHandler::new(true);
    let mut req = Request("w".to_owned());
    assert!(!g.handle(&mut req));
    g.next_handler(0);
    assert!(g.handle(&mut req));
    assert_eq!(req.0, "ww\nww\n\n");
}
