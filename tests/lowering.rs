use boring::ast::{Expr, Item, Module, Param, Ref, TyParam, Type};
use boring::ir::{Instr, Terminator, Value};
use boring::lower::{lower, lower_item, LowerError};

fn named(n: &str) -> Type {
    Type::Named(n.to_string())
}

fn param(n: &str) -> Param {
    Param { name: n.to_string(), ty: named("T") }
}

fn var(n: &str) -> Expr {
    Expr::Var(n.to_string())
}

fn call(f: &str, args: Vec<Expr>) -> Expr {
    Expr::App { func: Box::new(var(f)), args }
}

fn item(name: &str, params: &[&str], body: Expr) -> Item {
    Item {
        name: name.to_string(),
        ty_params: vec![TyParam::Type("T".to_string())],
        params: params.iter().map(|p| param(p)).collect(),
        ret_ty: named("T"),
        body,
    }
}

fn if_else(c: Expr, yes: Expr, no: Option<Expr>) -> Expr {
    Expr::If { cond: Box::new(c), yes: Box::new(yes), no: no.map(Box::new) }
}

fn jmp_of(t: &Terminator) -> (usize, Vec<Value>) {
    match t {
        Terminator::Jmp(j) => (j.to, j.args.clone()),
        _ => panic!("not a jump"),
    }
}

fn switch_of(t: &Terminator) -> (Value, Vec<usize>) {
    match t {
        Terminator::Switch(v, js) => (*v, js.iter().map(|j| j.to).collect()),
        _ => panic!("not a switch"),
    }
}

fn ret_of(t: &Terminator) -> Value {
    match t {
        Terminator::Return(v) => *v,
        _ => panic!("not a return"),
    }
}

fn check_closed(it: &boring::ir::Item) {
    for bb in &it.body {
        match &bb.term {
            Terminator::Halt => panic!("block left open"),
            Terminator::Return(_) => {}
            Terminator::Jmp(j) => assert_eq!(it.body[j.to].n_params, j.args.len()),
            Terminator::Switch(_, js) => {
                for j in js {
                    assert_eq!(it.body[j.to].n_params, j.args.len());
                }
            }
        }
    }
}

#[test]
fn identity_function() {
    let it = lower_item(&item("f", &["x"], var("x"))).unwrap();
    assert_eq!(it.name, "f");
    assert_eq!(it.body.len(), 1);
    assert_eq!(it.body[0].n_params, 1);
    assert!(it.body[0].body.is_empty());
    assert_eq!(ret_of(&it.body[0].term), Value(-1));
}

#[test]
fn let_in_block() {
    let body = Expr::Block(vec![
        Expr::Let { name: "y".to_string(), init: Box::new(call("g", vec![])) },
        var("y"),
    ]);
    let it = lower_item(&item("f", &["g"], body)).unwrap();
    assert_eq!(it.body.len(), 1);
    assert_eq!(it.body[0].body.len(), 1);
    match &it.body[0].body[0] {
        Instr::App { func, args } => {
            assert_eq!(*func, Value(-1));
            assert!(args.is_empty());
        }
        _ => panic!("expected an application"),
    }
    assert_eq!(it.instr(0, 0), Value(0));
    assert_eq!(ret_of(&it.body[0].term), Value(0));
}

#[test]
fn if_else_four_blocks() {
    let body = if_else(var("c"), call("g", vec![]), Some(call("h", vec![])));
    let it = lower_item(&item("f", &["c", "g", "h"], body)).unwrap();
    assert_eq!(it.body.len(), 4);
    let (d, targets) = switch_of(&it.body[0].term);
    assert_eq!(d, Value(-1));
    assert_eq!(targets, vec![2, 1]);
    assert_eq!(it.body[3].n_params, 1);
    assert_eq!(jmp_of(&it.body[1].term), (3, vec![Value(0)]));
    assert_eq!(jmp_of(&it.body[2].term), (3, vec![Value(0)]));
    for b in 1..4 {
        assert_eq!(it.body[b].idom, 0);
    }
    // the merge parameter comes after the entry block's three parameters
    assert_eq!(ret_of(&it.body[3].term), Value(-4));
    assert_eq!(it.param(3, 0), Value(-4));
    check_closed(&it);
}

#[test]
fn if_else_threads_branch_values() {
    // f(c, a, b) = if c { a } else { b }
    let body = if_else(var("c"), var("a"), Some(var("b")));
    let it = lower_item(&item("f", &["c", "a", "b"], body)).unwrap();
    assert_eq!(jmp_of(&it.body[1].term), (3, vec![Value(-2)]));
    assert_eq!(jmp_of(&it.body[2].term), (3, vec![Value(-3)]));
    assert_eq!(ret_of(&it.body[3].term), it.param(3, 0));
}

#[test]
fn if_without_else_is_unit() {
    let body = if_else(var("c"), call("g", vec![]), None);
    let it = lower_item(&item("f", &["c", "g"], body)).unwrap();
    assert_eq!(it.body.len(), 3);
    assert_eq!(it.body[2].n_params, 0);
    let (_, targets) = switch_of(&it.body[0].term);
    assert_eq!(targets, vec![2, 1]);
    assert_eq!(jmp_of(&it.body[1].term), (2, vec![]));
    let r = ret_of(&it.body[2].term);
    assert!(matches!(it.body[2].body[0], Instr::Lit));
    assert_eq!(r, it.instr(2, 0));
    assert_eq!(r, Value(0));
    check_closed(&it);
}

#[test]
fn nested_ifs_number_along_dominators() {
    // f(c, g) = { g(); if c { g(); g() } else { () }; g() }
    let body = Expr::Block(vec![
        Expr::Stmt(Box::new(call("g", vec![]))),
        Expr::Stmt(Box::new(if_else(
            var("c"),
            Expr::Block(vec![Expr::Stmt(Box::new(call("g", vec![]))), call("g", vec![])]),
            Some(Expr::Unit),
        ))),
        call("g", vec![]),
    ]);
    let it = lower_item(&item("f", &["c", "g"], body)).unwrap();
    check_closed(&it);
    // entry: g() = _0, stmt unit = _1
    assert_eq!(it.body[0].body.len(), 2);
    // yes branch starts after the entry's two instructions
    assert_eq!(it.instr(1, 0), Value(2));
    assert_eq!(it.instr(2, 0), Value(2));
    assert_eq!(it.body.len(), 4);
    // merge block: stmt unit, then g()
    assert_eq!(it.instr(3, 0), Value(2));
    assert_eq!(ret_of(&it.body[3].term), Value(3));
}

#[test]
fn scope_ends_with_block() {
    // f() = { { let y = (); y }; y }
    let inner = Expr::Block(vec![
        Expr::Let { name: "y".to_string(), init: Box::new(Expr::Unit) },
        var("y"),
    ]);
    let body = Expr::Block(vec![Expr::Stmt(Box::new(inner)), var("y")]);
    match lower_item(&item("f", &[], body)) {
        Err(LowerError::Unbound(n)) => assert_eq!(n, "y"),
        other => panic!("expected an unbound variable, got {:?}", other),
    }
}

#[test]
fn shadowing_in_inner_block() {
    // f(x) = { { let x = (); x }; x }
    let inner = Expr::Block(vec![
        Expr::Let { name: "x".to_string(), init: Box::new(Expr::Unit) },
        var("x"),
    ]);
    let body = Expr::Block(vec![Expr::Stmt(Box::new(inner)), var("x")]);
    let it = lower_item(&item("f", &["x"], body)).unwrap();
    assert_eq!(ret_of(&it.body[0].term), Value(-1));
}

#[test]
fn unbound_variable_fails() {
    match lower_item(&item("f", &[], var("z"))) {
        Err(LowerError::Unbound(n)) => assert_eq!(n, "z"),
        other => panic!("unexpected {:?}", other),
    }
}

#[test]
fn borrow_and_loop_unsupported() {
    let r = Expr::Ref(Ref::Mut, Box::new(var("x")));
    assert!(matches!(lower_item(&item("f", &["x"], r)), Err(LowerError::Unsupported)));
    let w = Expr::While { cond: Box::new(var("x")), body: Box::new(Expr::Unit) };
    assert!(matches!(lower_item(&item("f", &["x"], w)), Err(LowerError::Unsupported)));
}

#[test]
fn empty_block_and_statement_are_unit() {
    let it = lower_item(&item("f", &[], Expr::Block(vec![]))).unwrap();
    assert!(matches!(it.body[0].body[..], [Instr::Lit]));
    assert_eq!(ret_of(&it.body[0].term), Value(0));
    let it = lower_item(&item("f", &["x"], Expr::Stmt(Box::new(var("x"))))).unwrap();
    assert_eq!(it.body[0].body.len(), 1);
    assert_eq!(ret_of(&it.body[0].term), Value(0));
}

#[test]
fn application_arguments_in_order() {
    let body = call("g", vec![Expr::Unit, var("x"), Expr::Unit]);
    let it = lower_item(&item("f", &["g", "x"], body)).unwrap();
    match &it.body[0].body[2] {
        Instr::App { func, args } => {
            assert_eq!(*func, Value(-1));
            assert_eq!(args, &vec![Value(0), Value(-2), Value(1)]);
        }
        _ => panic!("expected an application"),
    }
    assert_eq!(ret_of(&it.body[0].term), Value(2));
}

#[test]
fn lowering_twice_gives_the_same_numbering() {
    let mk = || Module {
        items: vec![
            item("f", &["c", "g", "h"], if_else(var("c"), call("g", vec![]), Some(call("h", vec![])))),
            item("k", &["x"], var("x")),
        ],
    };
    let a = lower(&mk()).unwrap();
    let b = lower(&mk()).unwrap();
    assert_eq!(format!("{:?}", a), format!("{:?}", b));
    assert_eq!(a.items.len(), 2);
}

#[test]
fn module_stops_at_first_failure() {
    let m = Module { items: vec![item("f", &[], var("a")), item("g", &[], var("b"))] };
    match lower(&m) {
        Err(LowerError::Unbound(n)) => assert_eq!(n, "a"),
        other => panic!("unexpected {:?}", other),
    }
}

#[test]
fn sibling_branches_share_numbers() {
    let body = if_else(var("c"), call("g", vec![]), Some(call("h", vec![])));
    let it = lower_item(&item("f", &["c", "g", "h"], body)).unwrap();
    assert_eq!(it.instr(1, 0), it.instr(2, 0));
    assert_ne!(it.instr(0, 0), it.instr(1, 1));
}

#[test]
fn let_in_then_branch_is_not_seen_after_if() {
    // f(c, g) = { if c { let y = g() } else { () }; y }
    let branch = if_else(
        var("c"),
        Expr::Let { name: "y".to_string(), init: Box::new(call("g", vec![])) },
        Some(Expr::Unit),
    );
    let body = Expr::Block(vec![Expr::Stmt(Box::new(branch)), var("y")]);
    match lower_item(&item("f", &["c", "g"], body)) {
        Err(LowerError::Unbound(n)) => assert_eq!(n, "y"),
        other => panic!("expected an unbound variable, got {:?}", other),
    }
}

#[test]
fn let_in_then_branch_is_not_seen_in_else() {
    // f(c, g) = if c { let y = g() } else { y }
    let body = if_else(
        var("c"),
        Expr::Let { name: "y".to_string(), init: Box::new(call("g", vec![])) },
        Some(var("y")),
    );
    match lower_item(&item("f", &["c", "g"], body)) {
        Err(LowerError::Unbound(n)) => assert_eq!(n, "y"),
        other => panic!("expected an unbound variable, got {:?}", other),
    }
}

#[test]
fn let_in_branch_is_seen_inside_it() {
    // f(c, g) = if c { let y = g() } else { () }: the then branch yields y
    let body = if_else(
        var("c"),
        Expr::Let { name: "y".to_string(), init: Box::new(call("g", vec![])) },
        Some(Expr::Unit),
    );
    let it = lower_item(&item("f", &["c", "g"], body)).unwrap();
    assert_eq!(jmp_of(&it.body[1].term), (3, vec![Value(0)]));
    assert_eq!(jmp_of(&it.body[2].term), (3, vec![Value(0)]));
    check_closed(&it);
}
