use chain_of_responsibility::{Chain, GateHandler, LinkError, ReqHandler, Request};

fn chain_of(n: usize) -> Chain<ReqHandler> {
    let mut c = Chain::new();
    for _ in 0..n {
        c.add(ReqHandler::new()).unwrap();
    }
    c
}

fn stage(s: &str) -> String {
    let mut out = String::new();
    out.push_str(s);
    out.push_str(s);
    out.push('\n');
    out
}

#[test]
fn four_nodes_rewrite_hello_four_times() {
    let mut c = chain_of(4);
    // wired tail first, as with borrowed successors
    c.set_successor(2, 3).unwrap();
    c.set_successor(1, 2).unwrap();
    c.set_successor(0, 1).unwrap();
    let mut req = Request("Hello".to_owned());
    assert!(c.handle(0, &mut req));

    let mut expected = "Hello".to_owned();
    for _ in 0..4 {
        expected = stage(&expected);
    }
    assert_eq!(req.0, expected);
    assert_eq!(req.0.len(), 95);
    assert_eq!(req.0.matches("Hello").count(), 16);
    assert_eq!(req.0.matches('\n').count(), 15);
    assert!(req.0.ends_with("Hello\n\n\n\n"));
    assert!(req.0.starts_with("HelloHello\nHelloHello\n\n"));
}

#[test]
fn two_stage_text_is_exact() {
    let mut c = chain_of(2);
    c.set_successor(0, 1).unwrap();
    let mut req = Request("ab".to_owned());
    assert!(c.handle(0, &mut req));
    assert_eq!(req.0, "abab\nabab\n\n");
}

#[test]
fn chain_may_be_wired_head_first() {
    let mut c = chain_of(3);
    c.set_successor(0, 1).unwrap();
    c.set_successor(1, 2).unwrap();
    let mut req = Request("x".to_owned());
    assert!(c.handle(0, &mut req));
    assert_eq!(req.0, stage(&stage(&stage("x"))));
}

#[test]
fn lone_head_is_one_stage_and_not_handled() {
    let c = chain_of(1);
    assert_eq!(c.len(), 1);
    let mut req = Request("Hello".to_owned());
    assert!(!c.handle(0, &mut req));
    assert_eq!(req.0, "HelloHello\n");
}

#[test]
fn empty_request_still_gets_a_newline() {
    let c = chain_of(1);
    let mut req = Request(String::new());
    assert!(!c.handle(0, &mut req));
    assert_eq!(req.0, "\n");
}

#[test]
fn head_with_successor_reports_handled_whatever_the_successor_says() {
    let mut c = chain_of(2);
    c.set_successor(0, 1).unwrap();

    let mut alone = Request("a".to_owned());
    assert!(!c.handle(1, &mut alone));

    let mut req = Request("a".to_owned());
    assert!(c.handle(0, &mut req));
    assert_eq!(req.0, "aa\naa\n\n");
}

#[test]
fn dispatch_from_a_middle_node_skips_earlier_nodes() {
    let mut c = chain_of(3);
    c.set_successor(0, 1).unwrap();
    c.set_successor(1, 2).unwrap();
    let mut req = Request("q".to_owned());
    assert!(c.handle(1, &mut req));
    assert_eq!(req.0, stage(&stage("q")));
}

#[test]
fn self_link_is_refused() {
    let mut c = chain_of(2);
    assert_eq!(c.set_successor(1, 1), Err(LinkError::SelfLink));
    assert_eq!(c.node(1).next, None);
}

#[test]
fn longer_cycle_is_refused() {
    let mut c = chain_of(3);
    c.set_successor(0, 1).unwrap();
    c.set_successor(1, 2).unwrap();
    assert_eq!(c.set_successor(2, 0), Err(LinkError::Cycle));
    assert_eq!(c.set_successor(2, 1), Err(LinkError::Cycle));
    assert_eq!(c.node(2).next, None);
    let mut req = Request("z".to_owned());
    assert!(c.handle(0, &mut req));
    assert_eq!(req.0, stage(&stage(&stage("z"))));
}

#[test]
fn dangling_link_is_refused() {
    let mut c = chain_of(2);
    assert_eq!(c.set_successor(0, 2), Err(LinkError::NoSuchNode));
    assert_eq!(c.set_successor(5, 0), Err(LinkError::NoSuchNode));
    assert_eq!(c.node(0).next, None);
}

#[test]
fn relinking_overwrites_the_successor() {
    let mut c = chain_of(3);
    c.set_successor(0, 1).unwrap();
    c.set_successor(0, 2).unwrap();
    assert_eq!(c.node(0).next, Some(2));
    let mut req = Request("r".to_owned());
    assert!(c.handle(0, &mut req));
    assert_eq!(req.0, stage(&stage("r")));
    // the old successor is no longer on the way, so linking it back is fine
    assert_eq!(c.set_successor(1, 0), Ok(()));
}

#[test]
fn relinking_the_same_successor_changes_nothing() {
    let mut c = chain_of(2);
    c.set_successor(0, 1).unwrap();
    c.set_successor(0, 1).unwrap();
    assert_eq!(c.node(0).next, Some(1));
    assert_eq!(c.node(1).next, None);
}

#[test]
fn new_chain_is_empty() {
    let c: Chain<ReqHandler> = Chain::new();
    assert_eq!(c.len(), 0);
}

#[test]
fn add_returns_consecutive_indices() {
    let mut c = Chain::new();
    assert_eq!(c.add(ReqHandler::new()), Ok(0));
    assert_eq!(c.add(ReqHandler { next: Some(0) }), Ok(1));
    assert_eq!(c.len(), 2);
    let mut req = Request("k".to_owned());
    assert!(c.handle(1, &mut req));
    assert_eq!(req.0, stage(&stage("k")));
}

#[test]
fn add_refuses_self_and_dangling_successors() {
    let mut c = chain_of(1);
    assert_eq!(c.add(ReqHandler { next: Some(1) }), Err(LinkError::SelfLink));
    assert_eq!(c.add(ReqHandler { next: Some(7) }), Err(LinkError::NoSuchNode));
    assert_eq!(c.len(), 1);
}

#[test]
fn a_closed_gate_stops_a_request_that_has_a_successor() {
    let mut c: Chain<GateHandler> = Chain::new();
    c.add(GateHandler::new(true)).unwrap();
    c.add(GateHandler::new(false)).unwrap();
    c.add(GateHandler::new(true)).unwrap();
    c.set_successor(0, 1).unwrap();
    c.set_successor(1, 2).unwrap();

    // node 1 has a successor but swallows the request
    let mut req = Request("g".to_owned());
    assert!(c.handle(0, &mut req));
    assert_eq!(req.0, stage(&stage("g")));

    let mut at_gate = Request("g".to_owned());
    assert!(!c.handle(1, &mut at_gate));
    assert_eq!(at_gate.0, "gg\n");
}

#[test]
fn open_gates_forward_to_the_end() {
    let mut c: Chain<GateHandler> = Chain::new();
    for _ in 0..3 {
        c.add(GateHandler::new(true)).unwrap();
    }
    c.set_successor(1, 2).unwrap();
    c.set_successor(0, 1).unwrap();
    assert_eq!(c.node(0).next, Some(1));
    assert!(c.node(0).pass);
    let mut req = Request("o".to_owned());
    assert!(c.handle(0, &mut req));
    assert_eq!(req.0, stage(&stage(&stage("o"))));
}
