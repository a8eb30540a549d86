use boring::env::Env;
use boring::ir::Value;
use boring::pretty::Commas;

fn s(x: &str) -> String {
    x.to_string()
}

#[test]
fn commas_join() {
    assert_eq!(Commas(vec![s("a"), s("b"), s("c")]).render(), "a, b, c");
    assert_eq!(Commas(vec![s("_a0")]).render(), "_a0");
    assert_eq!(Commas(Vec::<String>::new()).render(), "");
}

#[test]
fn env_latest_binding_wins() {
    let mut e = Env::new();
    assert_eq!(e.get(&s("x")), None);
    e.insert(&s("x"), Value(-1));
    e.insert(&s("x"), Value(3));
    assert_eq!(e.get(&s("x")), Some(Value(3)));
}

#[test]
fn env_inner_scope_is_dropped() {
    let mut e = Env::new();
    e.insert(&s("x"), Value(-1));
    e.push();
    e.insert(&s("x"), Value(0));
    e.insert(&s("y"), Value(1));
    assert_eq!(e.get(&s("x")), Some(Value(0)));
    assert_eq!(e.get(&s("y")), Some(Value(1)));
    e.pop();
    assert_eq!(e.get(&s("x")), Some(Value(-1)));
    assert_eq!(e.get(&s("y")), None);
}

#[test]
fn env_sibling_scopes_do_not_share() {
    let mut e = Env::new();
    e.push();
    e.insert(&s("a"), Value(0));
    e.pop();
    e.push();
    assert_eq!(e.get(&s("a")), None);
    e.pop();
}
