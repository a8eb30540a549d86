//! Lowering of the syntax tree into the control-flow graph.
use vstd::prelude::*;

use crate::ast::{self, Expr, Param};
use crate::env::{env_wf, lookup, Binding, Env};
use crate::ir::{
    self, blocks_view, param_number, instr_number, wf_doms, BBView, Instr, InstrView, ItemView,
    Jmp, JmpView, TermView, Terminator, Value, BB,
};

verus! {

/// Why a function could not be lowered.
#[derive(Debug)]
pub enum LowerError {
    /// A variable with no binding in scope.
    Unbound(String),
    /// A borrow or a loop, which lowering does not handle.
    Unsupported,
    /// A value number that does not fit in an `i32`.
    Overflow,
}

pub ghost enum LowerErrorView {
    Unbound(Seq<char>),
    Unsupported,
    Overflow,
}

impl View for LowerError {
    type V = LowerErrorView;

    open spec fn view(&self) -> LowerErrorView {
        match self {
            LowerError::Unbound(s) => LowerErrorView::Unbound(s@),
            LowerError::Unsupported => LowerErrorView::Unsupported,
            LowerError::Overflow => LowerErrorView::Overflow,
        }
    }
}

/// The outcome of lowering one expression: the blocks, the bindings in
/// scope afterwards and the expression's value.
pub ghost enum Lowered {
    Done { bbs: Seq<BBView>, env: Seq<Binding>, value: Value },
    Failed(LowerErrorView),
}

/// The outcome of lowering expressions one after the other.
pub ghost enum LoweredSeq {
    Done { bbs: Seq<BBView>, env: Seq<Binding>, values: Seq<Value> },
    Failed(LowerErrorView),
}

/// A new block with no instructions whose ending is not yet known.
pub open spec fn fresh_bb(n_params: nat, idom: nat) -> BBView {
    BBView { n_params, body: Seq::empty(), term: TermView::Halt, idom }
}

/// The blocks with the terminator of block `b` replaced.
pub open spec fn with_term(bbs: Seq<BBView>, b: int, t: TermView) -> Seq<BBView> {
    bbs.update(b, BBView { n_params: bbs[b].n_params, body: bbs[b].body, term: t, idom: bbs[b].idom })
}

/// The blocks with `ins` appended to the last block, and the number of
/// `ins`; `None` when that number does not fit in an `i32`.
pub open spec fn emit_bbs(bbs: Seq<BBView>, ins: InstrView) -> Option<(Seq<BBView>, Value)> {
    let last = bbs.len() - 1;
    let n = instr_number(bbs, last, bbs[last].body.len() as int);
    if n <= i32::MAX {
        let b = bbs[last];
        Some(
            (
                bbs.update(
                    last,
                    BBView { n_params: b.n_params, body: b.body.push(ins), term: b.term, idom: b.idom },
                ),
                Value(n as i32),
            ),
        )
    } else {
        None
    }
}

pub open spec fn emit(bbs: Seq<BBView>, env: Seq<Binding>, ins: InstrView) -> Lowered {
    match emit_bbs(bbs, ins) {
        Some((bbs, value)) => Lowered::Done { bbs, env, value },
        None => Lowered::Failed(LowerErrorView::Overflow),
    }
}

/// The two-way switch on `c`: index 0 goes to `no`, index 1 to `yes`.
pub open spec fn switch_spec(c: Value, no: nat, yes: nat) -> TermView {
    TermView::Switch(
        c,
        seq![JmpView { to: no, args: Seq::empty() }, JmpView { to: yes, args: Seq::empty() }],
    )
}

/// Closes an `if` with an `else`: `bbs` ends with the exit of the `no`
/// branch; a merge block with one parameter is added and receives each
/// branch's value.
pub open spec fn join_if_else(
    bbs: Seq<BBView>,
    env: Seq<Binding>,
    cond_exit: int,
    yes_enter: nat,
    yes_exit: int,
    no_enter: nat,
    c: Value,
    yes: Value,
    no: Value,
) -> Lowered {
    let no_exit = bbs.len() - 1;
    let b1 = bbs.push(fresh_bb(1, cond_exit as nat));
    let exit = bbs.len();
    let b2 = with_term(b1, cond_exit, switch_spec(c, no_enter, yes_enter));
    let b3 = with_term(b2, yes_exit, TermView::Jmp(JmpView { to: exit, args: seq![yes] }));
    let b4 = with_term(b3, no_exit, TermView::Jmp(JmpView { to: exit, args: seq![no] }));
    let p = param_number(b4, exit as int, 0);
    if p >= i32::MIN {
        Lowered::Done { bbs: b4, env, value: Value(p as i32) }
    } else {
        Lowered::Failed(LowerErrorView::Overflow)
    }
}

/// Closes an `if` without an `else`: `bbs` ends with the exit of the `yes`
/// branch; a merge block without parameters is added, and the value is a
/// fresh unit in it.
pub open spec fn join_if(
    bbs: Seq<BBView>,
    env: Seq<Binding>,
    cond_exit: int,
    yes_enter: nat,
    c: Value,
) -> Lowered {
    let yes_exit = bbs.len() - 1;
    let b1 = bbs.push(fresh_bb(0, cond_exit as nat));
    let exit = bbs.len();
    let b2 = with_term(b1, cond_exit, switch_spec(c, exit, yes_enter));
    let b3 = with_term(b2, yes_exit, TermView::Jmp(JmpView { to: exit, args: Seq::empty() }));
    emit(b3, env, InstrView::Lit)
}

/// Lowering of `e` into the last block of `bbs`, with `env` in scope.
pub open spec fn lower_spec(bbs: Seq<BBView>, env: Seq<Binding>, e: Expr) -> Lowered
    decreases e,
{
    match e {
        Expr::Unit => emit(bbs, env, InstrView::Lit),
        Expr::Stmt(x) => match lower_spec(bbs, env, *x) {
            Lowered::Done { bbs: b1, env: e1, value: _ } => emit(b1, e1, InstrView::Lit),
            Lowered::Failed(err) => Lowered::Failed(err),
        },
        Expr::Block(es) => if es@.len() == 0 {
            emit(bbs, env, InstrView::Lit)
        } else {
            match lower_seq(bbs, env, es@) {
                LoweredSeq::Done { bbs: b1, env: _, values } => Lowered::Done {
                    bbs: b1,
                    env,
                    value: values.last(),
                },
                LoweredSeq::Failed(err) => Lowered::Failed(err),
            }
        },
        Expr::Let { name, init } => match lower_spec(bbs, env, *init) {
            Lowered::Done { bbs: b1, env: e1, value } => Lowered::Done {
                bbs: b1,
                env: e1.push((name@, value)),
                value,
            },
            Lowered::Failed(err) => Lowered::Failed(err),
        },
        Expr::Var(name) => match lookup(env, name@) {
            Some(value) => Lowered::Done { bbs, env, value },
            None => Lowered::Failed(LowerErrorView::Unbound(name@)),
        },
        Expr::Ref(_, _) => Lowered::Failed(LowerErrorView::Unsupported),
        Expr::While { cond: _, body: _ } => Lowered::Failed(LowerErrorView::Unsupported),
        Expr::App { func, args } => match lower_spec(bbs, env, *func) {
            Lowered::Done { bbs: b1, env: e1, value: f } => match lower_seq(b1, e1, args@) {
                LoweredSeq::Done { bbs: b2, env: e2, values } => emit(
                    b2,
                    e2,
                    InstrView::App { func: f, args: values },
                ),
                LoweredSeq::Failed(err) => Lowered::Failed(err),
            },
            Lowered::Failed(err) => Lowered::Failed(err),
        },
        Expr::If { cond, yes, no } => match lower_spec(bbs, env, *cond) {
            Lowered::Done { bbs: b1, env: e1, value: c } => {
                let cond_exit = b1.len() - 1;
                let b2 = b1.push(fresh_bb(0, cond_exit as nat));
                match lower_spec(b2, e1, *yes) {
                    Lowered::Done { bbs: b3, env: _, value: yv } => match no {
                        Some(n) => {
                            let b4 = b3.push(fresh_bb(0, cond_exit as nat));
                            match lower_spec(b4, e1, *n) {
                                Lowered::Done { bbs: b5, env: _, value: nv } => join_if_else(
                                    b5,
                                    e1,
                                    cond_exit,
                                    b1.len(),
                                    b3.len() - 1,
                                    b3.len(),
                                    c,
                                    yv,
                                    nv,
                                ),
                                Lowered::Failed(err) => Lowered::Failed(err),
                            }
                        },
                        None => join_if(b3, e1, cond_exit, b1.len(), c),
                    },
                    Lowered::Failed(err) => Lowered::Failed(err),
                }
            },
            Lowered::Failed(err) => Lowered::Failed(err),
        },
    }
}

/// Lowering of `es` from left to right, each in the state the previous one
/// left.
pub open spec fn lower_seq(bbs: Seq<BBView>, env: Seq<Binding>, es: Seq<Expr>) -> LoweredSeq
    decreases es,
{
    if es.len() == 0 {
        LoweredSeq::Done { bbs, env, values: Seq::empty() }
    } else {
        match lower_seq(bbs, env, es.subrange(0, es.len() - 1)) {
            LoweredSeq::Done { bbs: b1, env: e1, values } => match lower_spec(
                b1,
                e1,
                es[es.len() - 1],
            ) {
                Lowered::Done { bbs: b2, env: e2, value } => LoweredSeq::Done {
                    bbs: b2,
                    env: e2,
                    values: values.push(value),
                },
                Lowered::Failed(err) => LoweredSeq::Failed(err),
            },
            LoweredSeq::Failed(err) => LoweredSeq::Failed(err),
        }
    }
}

/// Appends `instr` to the last block and returns its number.
pub fn push(to: &mut ir::Item, instr: Instr) -> (r: Result<Value, LowerError>)
    requires
        wf_doms(old(to)@.body),
    ensures
        final(to)@.name == old(to)@.name,
        match emit_bbs(old(to)@.body, instr@) {
            Some((bbs, value)) => r == Ok::<Value, LowerError>(value) && final(to)@.body == bbs,
            None => r is Err && r->Err_0@ == LowerErrorView::Overflow,
        },
        r is Ok ==> wf_doms(final(to)@.body),
{
    let bb = label(to);
    let n = to.body[bb].body.len();
    match to.instr_checked(bb, n) {
        Some(v) => {
            let ghost old_bbs = to.body@;
            let ghost ins = instr@;
            to.body[bb].body.push(instr);
            proof {
                let b = old(to)@.body[bb as int];
                assert(to.body@[bb as int].body@.map_values(|i: Instr| i@) =~= b.body.push(ins));
                assert(blocks_view(to.body@) =~= old(to)@.body.update(
                    bb as int,
                    BBView { n_params: b.n_params, body: b.body.push(ins), term: b.term, idom: b.idom },
                ));
            }
            Ok(v)
        },
        None => Err(LowerError::Overflow),
    }
}

/// The index of the last block, the one that instructions go to.
pub fn label(to: &ir::Item) -> (r: usize)
    requires
        to@.body.len() > 0,
    ensures
        r == to@.body.len() - 1,
{
    to.body.len() - 1
}

/// Appends a new empty block with `n_params` parameters, dominated by
/// block `idom`.
fn new_bb(to: &mut ir::Item, n_params: usize, idom: usize)
    requires
        wf_doms(old(to)@.body),
        idom < old(to)@.body.len(),
    ensures
        final(to)@.name == old(to)@.name,
        final(to)@.body == old(to)@.body.push(fresh_bb(n_params as nat, idom as nat)),
        wf_doms(final(to)@.body),
{
    let bb = BB { n_params, body: Vec::new(), term: Terminator::Halt, idom };
    assert(bb@.body =~= Seq::<InstrView>::empty());
    to.body.push(bb);
    assert(blocks_view(to.body@) =~= old(to)@.body.push(fresh_bb(n_params as nat, idom as nat)));
}

/// Replaces the terminator of block `b`.
fn set_term(to: &mut ir::Item, b: usize, t: Terminator)
    requires
        wf_doms(old(to)@.body),
        b < old(to)@.body.len(),
    ensures
        final(to)@.name == old(to)@.name,
        final(to)@.body == with_term(old(to)@.body, b as int, t@),
        wf_doms(final(to)@.body),
{
    let ghost tv = t@;
    to.body[b].term = t;
    assert(blocks_view(to.body@) =~= with_term(old(to)@.body, b as int, tv));
}

/// Emits a unit literal and returns its number.
pub fn lower_unit(to: &mut ir::Item) -> (r: Result<Value, LowerError>)
    requires
        wf_doms(old(to)@.body),
    ensures
        final(to)@.name == old(to)@.name,
        match emit_bbs(old(to)@.body, InstrView::Lit) {
            Some((bbs, value)) => r == Ok::<Value, LowerError>(value) && final(to)@.body == bbs,
            None => r is Err && r->Err_0@ == LowerErrorView::Overflow,
        },
        r is Ok ==> wf_doms(final(to)@.body),
{
    push(to, Instr::Lit)
}

/// `longer` starts with `shorter`: every binding of `shorter` is still in
/// place, underneath any added after it.
pub open spec fn env_extends(longer: Seq<Binding>, shorter: Seq<Binding>) -> bool {
    longer.len() >= shorter.len() && longer.subrange(0, shorter.len() as int) == shorter
}

proof fn lemma_extends_refl(env: Seq<Binding>)
    ensures
        env_extends(env, env),
{
    assert(env.subrange(0, env.len() as int) =~= env);
}

proof fn lemma_extends_trans(a: Seq<Binding>, b: Seq<Binding>, c: Seq<Binding>)
    requires
        env_extends(b, a),
        env_extends(c, b),
    ensures
        env_extends(c, a),
{
    assert(c.subrange(0, a.len() as int) =~= b.subrange(0, a.len() as int));
}

/// Lowering an expression only adds bindings to the scope it starts in: a
/// `let` adds one, a block or an `if` branch adds none that outlive it, and
/// no binding of the enclosing scopes is removed or changed.
pub proof fn lemma_lower_keeps_scope(bbs: Seq<BBView>, env: Seq<Binding>, e: Expr)
    ensures
        lower_spec(bbs, env, e) matches Lowered::Done { env: e2, .. } ==> env_extends(e2, env),
    decreases e,
{
    lemma_extends_refl(env);
    match e {
        Expr::Stmt(x) => {
            lemma_lower_keeps_scope(bbs, env, *x);
        },
        Expr::Let { name, init } => {
            lemma_lower_keeps_scope(bbs, env, *init);
            if let Lowered::Done { bbs: _, env: e1, value } = lower_spec(bbs, env, *init) {
                let e2 = e1.push((name@, value));
                assert(e2.subrange(0, e1.len() as int) =~= e1);
                lemma_extends_trans(env, e1, e2);
            }
        },
        Expr::App { func, args } => {
            lemma_lower_keeps_scope(bbs, env, *func);
            if let Lowered::Done { bbs: b1, env: e1, value: _ } = lower_spec(bbs, env, *func) {
                lemma_seq_keeps_scope(b1, e1, args@);
                if let LoweredSeq::Done { env: e2, .. } = lower_seq(b1, e1, args@) {
                    lemma_extends_trans(env, e1, e2);
                }
            }
        },
        Expr::If { cond, yes: _, no: _ } => {
            lemma_lower_keeps_scope(bbs, env, *cond);
        },
        _ => {},
    }
}

/// Lowering expressions one after the other only adds bindings.
pub proof fn lemma_seq_keeps_scope(bbs: Seq<BBView>, env: Seq<Binding>, es: Seq<Expr>)
    ensures
        lower_seq(bbs, env, es) matches LoweredSeq::Done { env: e2, .. } ==> env_extends(
            e2,
            env,
        ),
    decreases es,
{
    if es.len() == 0 {
        lemma_extends_refl(env);
    } else {
        let pre = es.subrange(0, es.len() - 1);
        lemma_seq_keeps_scope(bbs, env, pre);
        if let LoweredSeq::Done { bbs: b1, env: e1, values: _ } = lower_seq(bbs, env, pre) {
            lemma_lower_keeps_scope(b1, e1, es[es.len() - 1]);
            if let Lowered::Done { env: e2, .. } = lower_spec(b1, e1, es[es.len() - 1]) {
                lemma_extends_trans(env, e1, e2);
            }
        }
    }
}

/// `r`, with the blocks `bbs` and bindings `env` left behind, is what `out`
/// describes.
pub open spec fn outcome(
    out: Lowered,
    r: Result<Value, LowerError>,
    bbs: Seq<BBView>,
    env: Seq<Binding>,
) -> bool {
    match out {
        Lowered::Done { bbs: b, env: e, value } => r == Ok::<Value, LowerError>(value) && bbs == b
            && env == e,
        Lowered::Failed(err) => r is Err && r->Err_0@ == err,
    }
}

pub(crate) proof fn lemma_seq_values_len(bbs: Seq<BBView>, env: Seq<Binding>, es: Seq<Expr>)
    ensures
        lower_seq(bbs, env, es) matches LoweredSeq::Done { values, .. } ==> values.len()
            == es.len(),
    decreases es.len(),
{
    if es.len() > 0 {
        lemma_seq_values_len(bbs, env, es.subrange(0, es.len() - 1));
    }
}

/// Once a prefix of `es` fails, lowering all of `es` fails the same way.
proof fn lemma_seq_prefix_failed(bbs: Seq<BBView>, env: Seq<Binding>, es: Seq<Expr>, k: int)
    requires
        0 <= k <= es.len(),
        lower_seq(bbs, env, es.subrange(0, k)) is Failed,
    ensures
        lower_seq(bbs, env, es) == lower_seq(bbs, env, es.subrange(0, k)),
    decreases es.len() - k,
{
    if k < es.len() {
        let pre = es.subrange(0, k + 1);
        assert(pre.subrange(0, pre.len() - 1) =~= es.subrange(0, k));
        lemma_seq_prefix_failed(bbs, env, es, k + 1);
    } else {
        assert(es.subrange(0, k) =~= es);
    }
}

/// Lowers `e` into the last block of `to`, with `env` in scope, and returns
/// its value.
fn lower_expr(to: &mut ir::Item, env: &mut Env, e: &Expr) -> (r: Result<Value, LowerError>)
    requires
        wf_doms(old(to)@.body),
        env_wf(old(env)@),
    ensures
        outcome(
            lower_spec(old(to)@.body, old(env)@.bindings, *e),
            r,
            final(to)@.body,
            final(env)@.bindings,
        ),
        r is Ok ==> wf_doms(final(to)@.body) && env_wf(final(env)@) && final(env)@.marks
            == old(env)@.marks && final(to)@.name == old(to)@.name && final(to)@.body.len()
            >= old(to)@.body.len(),
    decreases e, 1nat,
{
    match e {
        Expr::Unit => lower_unit(to),
        Expr::Stmt(x) => match lower_expr(to, env, &**x) {
            Ok(_) => lower_unit(to),
            Err(err) => Err(err),
        },
        Expr::Block(_) => lower_block(to, env, e),
        Expr::Let { name: _, init: _ } => lower_let(to, env, e),
        Expr::Var(name) => match env.get(name) {
            Some(v) => Ok(v),
            None => Err(LowerError::Unbound(name.clone())),
        },
        Expr::Ref(_, _) => Err(LowerError::Unsupported),
        Expr::While { cond: _, body: _ } => Err(LowerError::Unsupported),
        Expr::App { func: _, args: _ } => lower_app(to, env, e),
        Expr::If { cond: _, yes: _, no: _ } => lower_if(to, env, e),
    }
}

/// Lowers `es` from left to right and returns their values.
fn lower_exprs(to: &mut ir::Item, env: &mut Env, es: &Vec<Expr>) -> (r: Result<
    Vec<Value>,
    LowerError,
>)
    requires
        wf_doms(old(to)@.body),
        env_wf(old(env)@),
    ensures
        match lower_seq(old(to)@.body, old(env)@.bindings, es@) {
            LoweredSeq::Done { bbs, env: e2, values } => r is Ok && r->Ok_0@ == values
                && final(to)@.body == bbs && final(env)@.bindings == e2,
            LoweredSeq::Failed(err) => r is Err && r->Err_0@ == err,
        },
        r is Ok ==> wf_doms(final(to)@.body) && env_wf(final(env)@) && final(env)@.marks
            == old(env)@.marks && final(to)@.name == old(to)@.name && final(to)@.body.len()
            >= old(to)@.body.len(),
    decreases es@, 0nat,
{
    let ghost b0 = to@.body;
    let ghost e0 = env@.bindings;
    let mut vals: Vec<Value> = Vec::new();
    let mut i: usize = 0;
    assert(es@.subrange(0, 0) =~= Seq::<Expr>::empty());
    while i < es.len()
        invariant
            i <= es@.len(),
            lower_seq(b0, e0, es@.subrange(0, i as int)) == (LoweredSeq::Done {
                bbs: to@.body,
                env: env@.bindings,
                values: vals@,
            }),
            b0 == old(to)@.body,
            e0 == old(env)@.bindings,
            wf_doms(to@.body),
            env_wf(env@),
            env@.marks == old(env)@.marks,
            to@.name == old(to)@.name,
            to@.body.len() >= b0.len(),
        decreases es@.len() - i,
    {
        let ghost pre = es@.subrange(0, i + 1);
        assert(pre.subrange(0, pre.len() - 1) =~= es@.subrange(0, i as int));
        assert(pre[pre.len() - 1] == es@[i as int]);
        match lower_expr(to, env, &es[i]) {
            Ok(v) => {
                vals.push(v);
            },
            Err(err) => {
                proof { lemma_seq_prefix_failed(b0, e0, es@, i + 1); }
                return Err(err);
            },
        }
        i = i + 1;
    }
    assert(es@.subrange(0, es@.len() as int) =~= es@);
    Ok(vals)
}

/// Lowers a block in a scope of its own; its value is that of its last
/// expression, or unit when it is empty.
fn lower_block(to: &mut ir::Item, env: &mut Env, e: &Expr) -> (r: Result<Value, LowerError>)
    requires
        wf_doms(old(to)@.body),
        env_wf(old(env)@),
        e is Block,
    ensures
        outcome(
            lower_spec(old(to)@.body, old(env)@.bindings, *e),
            r,
            final(to)@.body,
            final(env)@.bindings,
        ),
        r is Ok ==> wf_doms(final(to)@.body) && env_wf(final(env)@) && final(env)@.marks
            == old(env)@.marks && final(to)@.name == old(to)@.name && final(to)@.body.len()
            >= old(to)@.body.len(),
    decreases e, 0nat,
{
    match e {
        Expr::Block(es) => {
            if es.len() == 0 {
                return lower_unit(to);
            }
            env.push();
            proof {
                lemma_seq_values_len(to@.body, env@.bindings, es@);
                lemma_seq_keeps_scope(to@.body, env@.bindings, es@);
            }
            match lower_exprs(to, env, es) {
                Ok(vals) => {
                    env.pop();
                    Ok(vals[vals.len() - 1])
                },
                Err(err) => Err(err),
            }
        },
        _ => Err(LowerError::Unsupported),
    }
}

/// Lowers a `let`: binds the initializer's value in the current scope and
/// yields it.
fn lower_let(to: &mut ir::Item, env: &mut Env, e: &Expr) -> (r: Result<Value, LowerError>)
    requires
        wf_doms(old(to)@.body),
        env_wf(old(env)@),
        e is Let,
    ensures
        outcome(
            lower_spec(old(to)@.body, old(env)@.bindings, *e),
            r,
            final(to)@.body,
            final(env)@.bindings,
        ),
        r is Ok ==> wf_doms(final(to)@.body) && env_wf(final(env)@) && final(env)@.marks
            == old(env)@.marks && final(to)@.name == old(to)@.name && final(to)@.body.len()
            >= old(to)@.body.len(),
    decreases e, 0nat,
{
    match e {
        Expr::Let { name, init } => match lower_expr(to, env, &**init) {
            Ok(v) => {
                env.insert(name, v);
                Ok(v)
            },
            Err(err) => Err(err),
        },
        _ => Err(LowerError::Unsupported),
    }
}

/// Lowers an application: the function, then each argument from left to
/// right, then the `App` instruction.
fn lower_app(to: &mut ir::Item, env: &mut Env, e: &Expr) -> (r: Result<Value, LowerError>)
    requires
        wf_doms(old(to)@.body),
        env_wf(old(env)@),
        e is App,
    ensures
        outcome(
            lower_spec(old(to)@.body, old(env)@.bindings, *e),
            r,
            final(to)@.body,
            final(env)@.bindings,
        ),
        r is Ok ==> wf_doms(final(to)@.body) && env_wf(final(env)@) && final(env)@.marks
            == old(env)@.marks && final(to)@.name == old(to)@.name && final(to)@.body.len()
            >= old(to)@.body.len(),
    decreases e, 0nat,
{
    match e {
        Expr::App { func, args } => {
            let f = match lower_expr(to, env, &**func) {
                Ok(f) => f,
                Err(err) => {
                    return Err(err);
                },
            };
            match lower_exprs(to, env, args) {
                Ok(vals) => push(to, Instr::App { func: f, args: vals }),
                Err(err) => Err(err),
            }
        },
        _ => Err(LowerError::Unsupported),
    }
}

/// A two-way switch on `c`: index 0 goes to `no`, index 1 to `yes`.
fn switch(c: Value, no: usize, yes: usize) -> (t: Terminator)
    ensures
        t@ == switch_spec(c, no as nat, yes as nat),
{
    let js = vec![Jmp { to: no, args: Vec::new() }, Jmp { to: yes, args: Vec::new() }];
    let t = Terminator::Switch(c, js);
    assert(ir::jmps_view(js@) =~= seq![
        JmpView { to: no as nat, args: Seq::empty() },
        JmpView { to: yes as nat, args: Seq::empty() },
    ]);
    t
}

/// A jump to block `to` that passes `args`.
fn jump(to: usize, args: Vec<Value>) -> (t: Terminator)
    ensures
        t@ == TermView::Jmp(JmpView { to: to as nat, args: args@ }),
{
    Terminator::Jmp(Jmp { to, args })
}

/// Lowers a conditional: the condition ends its block with a switch, each
/// branch gets a block of its own dominated by it, and both flow into a
/// merge block. With an `else`, the merge block takes one parameter, fed by
/// each branch's value, and that parameter is the result; without one, the
/// result is a unit in the merge block.
fn lower_if(to: &mut ir::Item, env: &mut Env, e: &Expr) -> (r: Result<Value, LowerError>)
    requires
        wf_doms(old(to)@.body),
        env_wf(old(env)@),
        e is If,
    ensures
        outcome(
            lower_spec(old(to)@.body, old(env)@.bindings, *e),
            r,
            final(to)@.body,
            final(env)@.bindings,
        ),
        r is Ok ==> wf_doms(final(to)@.body) && env_wf(final(env)@) && final(env)@.marks
            == old(env)@.marks && final(to)@.name == old(to)@.name && final(to)@.body.len()
            >= old(to)@.body.len(),
    decreases e, 0nat,
{
    match e {
        Expr::If { cond, yes, no } => {
            let c = match lower_expr(to, env, &**cond) {
                Ok(c) => c,
                Err(err) => {
                    return Err(err);
                },
            };
            let cond_exit = label(to);
            new_bb(to, 0, cond_exit);
            let yes_enter = label(to);
            proof { lemma_lower_keeps_scope(to@.body, env@.bindings, **yes); }
            env.push();
            let yv = match lower_expr(to, env, &**yes) {
                Ok(v) => v,
                Err(err) => {
                    return Err(err);
                },
            };
            env.pop();
            let yes_exit = label(to);
            match no {
                Some(n) => {
                    new_bb(to, 0, cond_exit);
                    let no_enter = label(to);
                    proof { lemma_lower_keeps_scope(to@.body, env@.bindings, **n); }
                    env.push();
                    let nv = match lower_expr(to, env, &**n) {
                        Ok(v) => v,
                        Err(err) => {
                            return Err(err);
                        },
                    };
                    env.pop();
                    let no_exit = label(to);
                    new_bb(to, 1, cond_exit);
                    let exit = label(to);
                    set_term(to, cond_exit, switch(c, no_enter, yes_enter));
                    let ya = vec![yv];
                    assert(ya@ =~= seq![yv]);
                    set_term(to, yes_exit, jump(exit, ya));
                    let na = vec![nv];
                    assert(na@ =~= seq![nv]);
                    set_term(to, no_exit, jump(exit, na));
                    match to.param_checked(exit, 0) {
                        Some(v) => Ok(v),
                        None => Err(LowerError::Overflow),
                    }
                },
                None => {
                    new_bb(to, 0, cond_exit);
                    let exit = label(to);
                    set_term(to, cond_exit, switch(c, exit, yes_enter));
                    let no_args: Vec<Value> = Vec::new();
                    assert(no_args@ =~= Seq::<Value>::empty());
                    set_term(to, yes_exit, jump(exit, no_args));
                    lower_unit(to)
                },
            }
        },
        _ => Err(LowerError::Unsupported),
    }
}

/// The bindings of a function's parameters: parameter `i` is the `i`th
/// parameter of the entry block.
pub open spec fn entry_env(params: Seq<Param>) -> Seq<Binding> {
    Seq::new(params.len(), |i: int| (params[i].name@, Value((-1 - i) as i32)))
}

/// Lowering of a function: an entry block with one parameter for each of the
/// function's, the body lowered into it, and a return of the body's value
/// from the block where it ends.
pub open spec fn lower_item_spec(it: ast::Item) -> Result<ItemView, LowerErrorView> {
    let n = it.params@.len();
    if n > i32::MAX {
        Err(LowerErrorView::Overflow)
    } else {
        match lower_spec(seq![fresh_bb(n, 0)], entry_env(it.params@), it.body) {
            Lowered::Done { bbs, env: _, value } => Ok(
                ItemView {
                    name: it.name@,
                    body: with_term(bbs, bbs.len() - 1, TermView::Return(value)),
                },
            ),
            Lowered::Failed(err) => Err(err),
        }
    }
}

/// Lowering of functions in order; the first failure is the result.
pub open spec fn lower_module_spec(items: Seq<ast::Item>) -> Result<Seq<ItemView>, LowerErrorView>
    decreases items.len(),
{
    if items.len() == 0 {
        Ok(Seq::empty())
    } else {
        match lower_module_spec(items.drop_last()) {
            Ok(done) => match lower_item_spec(items.last()) {
                Ok(it) => Ok(done.push(it)),
                Err(err) => Err(err),
            },
            Err(err) => Err(err),
        }
    }
}

/// Lowers one function.
pub fn lower_item(ast: &ast::Item) -> (r: Result<ir::Item, LowerError>)
    ensures
        match lower_item_spec(*ast) {
            Ok(it) => r is Ok && r->Ok_0@ == it,
            Err(err) => r is Err && r->Err_0@ == err,
        },
        r is Ok ==> wf_doms(r->Ok_0@.body),
{
    let n = ast.params.len();
    if n > i32::MAX as usize {
        return Err(LowerError::Overflow);
    }
    let mut env = Env::new();
    let mut i: usize = 0;
    while i < n
        invariant
            n == ast.params@.len(),
            n <= i32::MAX,
            i <= n,
            env@.bindings == entry_env(ast.params@).subrange(0, i as int),
            env@.marks == Seq::<int>::empty(),
        decreases n - i,
    {
        env.insert(&ast.params[i].name, Value(-1i32 - i as i32));
        assert(env@.bindings =~= entry_env(ast.params@).subrange(0, i + 1));
        i = i + 1;
    }
    assert(env@.bindings =~= entry_env(ast.params@));
    let entry = BB { n_params: n, body: Vec::new(), term: Terminator::Halt, idom: 0 };
    assert(entry@ == fresh_bb(n as nat, 0)) by {
        assert(entry@.body =~= Seq::<InstrView>::empty());
    }
    let mut body: Vec<BB> = Vec::new();
    body.push(entry);
    let mut to = ir::Item { name: ast.name.clone(), body };
    assert(to@.body =~= seq![fresh_bb(n as nat, 0)]);
    let ret = match lower_expr(&mut to, &mut env, &ast.body) {
        Ok(v) => v,
        Err(err) => {
            return Err(err);
        },
    };
    let last = label(&to);
    set_term(&mut to, last, Terminator::Return(ret));
    Ok(to)
}

/// Lowers every function of a module, in order; stops at the first that
/// fails.
pub fn lower(ast: &ast::Module) -> (r: Result<ir::Module, LowerError>)
    ensures
        match lower_module_spec(ast.items@) {
            Ok(its) => r is Ok && r->Ok_0.items@.map_values(|i: ir::Item| i@) == its,
            Err(err) => r is Err && r->Err_0@ == err,
        },
        r is Ok ==> forall|k: int|
            0 <= k < r->Ok_0.items@.len() ==> wf_doms(#[trigger] r->Ok_0.items@[k]@.body),
{
    let mut items: Vec<ir::Item> = Vec::new();
    let mut i: usize = 0;
    assert(ast.items@.subrange(0, 0) =~= Seq::<ast::Item>::empty());
    assert(items@.map_values(|i: ir::Item| i@) =~= Seq::<ItemView>::empty());
    while i < ast.items.len()
        invariant
            i <= ast.items@.len(),
            lower_module_spec(ast.items@.subrange(0, i as int)) == Ok::<
                Seq<ItemView>,
                LowerErrorView,
            >(items@.map_values(|i: ir::Item| i@)),
            forall|k: int| 0 <= k < items@.len() ==> wf_doms(#[trigger] items@[k]@.body),
        decreases ast.items@.len() - i,
    {
        let ghost pre = ast.items@.subrange(0, i + 1);
        assert(pre.drop_last() =~= ast.items@.subrange(0, i as int));
        match lower_item(&ast.items[i]) {
            Ok(it) => {
                items.push(it);
                assert(items@.map_values(|i: ir::Item| i@) =~= lower_module_spec(pre)->Ok_0);
            },
            Err(err) => {
                proof { lemma_module_prefix_failed(ast.items@, i + 1); }
                return Err(err);
            },
        }
        i = i + 1;
    }
    assert(ast.items@.subrange(0, ast.items@.len() as int) =~= ast.items@);
    Ok(ir::Module { items })
}

/// Once a prefix of the functions fails, lowering all of them fails the same
/// way.
proof fn lemma_module_prefix_failed(items: Seq<ast::Item>, k: int)
    requires
        0 <= k <= items.len(),
        lower_module_spec(items.subrange(0, k)) is Err,
    ensures
        lower_module_spec(items) == lower_module_spec(items.subrange(0, k)),
    decreases items.len() - k,
{
    if k < items.len() {
        let pre = items.subrange(0, k + 1);
        assert(pre.drop_last() =~= items.subrange(0, k));
        lemma_module_prefix_failed(items, k + 1);
    } else {
        assert(items.subrange(0, k) =~= items);
    }
}

} // verus!
