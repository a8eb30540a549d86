//! Facts about the shape of the control-flow graph that lowering builds:
//! every block ends properly, conditionals join the way they should, and
//! every value read names a slot in scope.
use vstd::prelude::*;

use crate::ast::{self, Expr};
use crate::env::Binding;
use crate::ir::{self, BBView, InstrView, ItemView, JmpView, TermView, Value};
use crate::lower::{
    emit, emit_bbs, fresh_bb, join_if, join_if_else, lower_item_spec, lower_module_spec,
    lower_seq, lower_spec, switch_spec, with_term, Lowered, LoweredSeq,
};

verus! {

/// A jump that names an existing block and passes one argument for each of
/// its parameters.
pub open spec fn jmp_ok(bbs: Seq<BBView>, j: JmpView) -> bool {
    j.to < bbs.len() && j.args.len() == bbs[j.to as int].n_params
}

/// Block `b` ends in a return, a jump or a switch, and its jumps are sound.
pub open spec fn closed(bbs: Seq<BBView>, b: int) -> bool {
    match bbs[b].term {
        TermView::Halt => false,
        TermView::Return(_) => true,
        TermView::Jmp(j) => jmp_ok(bbs, j),
        TermView::Switch(_, js) => forall|k: int| 0 <= k < js.len() ==> jmp_ok(bbs, #[trigger] js[k]),
    }
}

/// `new` has at least the blocks of `old`, each with the same number of
/// parameters.
pub open spec fn same_shape(old: Seq<BBView>, new: Seq<BBView>) -> bool {
    &&& new.len() >= old.len()
    &&& forall|t: int| 0 <= t < old.len() ==> (#[trigger] new[t]).n_params == old[t].n_params
}

/// What one lowering step does to the blocks: the blocks before the current
/// one are untouched, the blocks it finished are closed, and the block it
/// ends in is still open.
pub open spec fn grows(old: Seq<BBView>, new: Seq<BBView>) -> bool {
    &&& old.len() >= 1
    &&& same_shape(old, new)
    &&& forall|b: int| 0 <= b < old.len() - 1 ==> #[trigger] new[b] == old[b]
    &&& forall|b: int| old.len() - 1 <= b < new.len() - 1 ==> #[trigger] closed(new, b)
    &&& new.last().term == TermView::Halt
}

proof fn lemma_closed_stable(old: Seq<BBView>, new: Seq<BBView>, b: int)
    requires
        0 <= b < old.len(),
        closed(old, b),
        same_shape(old, new),
        new[b].term == old[b].term,
    ensures
        closed(new, b),
{
    match old[b].term {
        TermView::Jmp(j) => {
            assert(new[j.to as int].n_params == old[j.to as int].n_params);
        },
        TermView::Switch(_, js) => {
            assert forall|k: int| 0 <= k < js.len() implies jmp_ok(new, #[trigger] js[k]) by {
                assert(jmp_ok(old, js[k]));
                assert(new[js[k].to as int].n_params == old[js[k].to as int].n_params);
            }
        },
        _ => {},
    }
}

proof fn lemma_grows_refl(bbs: Seq<BBView>)
    requires
        bbs.len() >= 1,
        bbs.last().term == TermView::Halt,
    ensures
        grows(bbs, bbs),
{
}

proof fn lemma_grows_trans(b1: Seq<BBView>, b2: Seq<BBView>, b3: Seq<BBView>)
    requires
        grows(b1, b2),
        grows(b2, b3),
    ensures
        grows(b1, b3),
{
    assert forall|b: int| b1.len() - 1 <= b < b3.len() - 1 implies #[trigger] closed(b3, b) by {
        if b < b2.len() - 1 {
            assert(closed(b2, b));
            lemma_closed_stable(b2, b3, b);
        } else {
            assert(closed(b3, b));
        }
    }
}

proof fn lemma_emit_grows(bbs: Seq<BBView>, env: Seq<Binding>, ins: InstrView)
    requires
        bbs.len() >= 1,
        bbs.last().term == TermView::Halt,
    ensures
        emit(bbs, env, ins) matches Lowered::Done { bbs: b2, .. } ==> grows(bbs, b2),
{
}

proof fn lemma_join_if_else(
    b0: Seq<BBView>,
    b1: Seq<BBView>,
    b3: Seq<BBView>,
    b5: Seq<BBView>,
    env: Seq<Binding>,
    c: Value,
    yv: Value,
    nv: Value,
)
    requires
        grows(b0, b1),
        grows(b1.push(fresh_bb(0, (b1.len() - 1) as nat)), b3),
        grows(b3.push(fresh_bb(0, (b1.len() - 1) as nat)), b5),
    ensures
        join_if_else(
            b5,
            env,
            b1.len() - 1,
            b1.len(),
            b3.len() - 1,
            b3.len(),
            c,
            yv,
            nv,
        ) matches Lowered::Done { bbs: b9, .. } ==> grows(b0, b9),
{
    let ce = b1.len() - 1;
    let b2 = b1.push(fresh_bb(0, ce as nat));
    let b4 = b3.push(fresh_bb(0, ce as nat));
    let yx = b3.len() - 1;
    let nx = b5.len() - 1;
    let x = b5.len();
    let b6 = b5.push(fresh_bb(1, ce as nat));
    let b7 = with_term(b6, ce, switch_spec(c, b3.len(), b1.len()));
    let b8 = with_term(b7, yx, TermView::Jmp(JmpView { to: x as nat, args: seq![yv] }));
    let b9 = with_term(b8, nx, TermView::Jmp(JmpView { to: x as nat, args: seq![nv] }));
    assert(b2.len() == b1.len() + 1);
    assert(b4.len() == b3.len() + 1);
    assert(ce < yx < nx < x);
    assert(same_shape(b0, b9));
    assert(b9[b1.len() as int].n_params == 0) by {
        assert(b3[b1.len() as int].n_params == b2[b1.len() as int].n_params);
        assert(b5[b1.len() as int] == b4[b1.len() as int]);
    }
    assert(b9[b3.len() as int].n_params == 0) by {
        assert(b5[b3.len() as int].n_params == b4[b3.len() as int].n_params);
    }
    assert forall|b: int| b0.len() - 1 <= b < b9.len() - 1 implies #[trigger] closed(b9, b) by {
        if b < ce {
            assert(closed(b1, b));
            assert(b9[b] == b1[b]) by {
                assert(b3[b] == b2[b]);
                assert(b5[b] == b4[b]);
            }
            lemma_closed_stable(b1, b9, b);
        } else if b == ce {
            let js = seq![
                JmpView { to: b3.len() as nat, args: Seq::empty() },
                JmpView { to: b1.len() as nat, args: Seq::empty() },
            ];
            assert(b9[b].term == TermView::Switch(c, js));
            assert forall|k: int| 0 <= k < js.len() implies jmp_ok(b9, #[trigger] js[k]) by {}
        } else if b < yx {
            assert(closed(b3, b));
            assert(b9[b] == b3[b]) by {
                assert(b5[b] == b4[b]);
            }
            lemma_closed_stable(b3, b9, b);
        } else if b == yx {
        } else if b < nx {
            assert(closed(b5, b));
            lemma_closed_stable(b5, b9, b);
        } else {
        }
    }
}

proof fn lemma_join_if(
    b0: Seq<BBView>,
    b1: Seq<BBView>,
    b3: Seq<BBView>,
    env: Seq<Binding>,
    c: Value,
)
    requires
        grows(b0, b1),
        grows(b1.push(fresh_bb(0, (b1.len() - 1) as nat)), b3),
    ensures
        join_if(b3, env, b1.len() - 1, b1.len(), c) matches Lowered::Done { bbs: b9, .. }
            ==> grows(b0, b9),
{
    let ce = b1.len() - 1;
    let b2 = b1.push(fresh_bb(0, ce as nat));
    let yx = b3.len() - 1;
    let x = b3.len();
    let b4 = b3.push(fresh_bb(0, ce as nat));
    let b5 = with_term(b4, ce, switch_spec(c, x as nat, b1.len()));
    let b6 = with_term(b5, yx, TermView::Jmp(JmpView { to: x as nat, args: Seq::empty() }));
    assert(b2.len() == b1.len() + 1);
    assert(ce < yx < x);
    assert(b6[b1.len() as int].n_params == 0) by {
        assert(b3[b1.len() as int].n_params == b2[b1.len() as int].n_params);
    }
    assert(grows(b0, b6)) by {
        assert forall|b: int| b0.len() - 1 <= b < b6.len() - 1 implies #[trigger] closed(b6, b) by {
            if b < ce {
                assert(closed(b1, b));
                assert(b6[b] == b1[b]) by {
                    assert(b3[b] == b2[b]);
                }
                lemma_closed_stable(b1, b6, b);
            } else if b == ce {
                let js = seq![
                    JmpView { to: x as nat, args: Seq::empty() },
                    JmpView { to: b1.len() as nat, args: Seq::empty() },
                ];
                assert(b6[b].term == TermView::Switch(c, js));
                assert forall|k: int| 0 <= k < js.len() implies jmp_ok(b6, #[trigger] js[k]) by {}
            } else if b < yx {
                assert(closed(b3, b));
                lemma_closed_stable(b3, b6, b);
            } else {
            }
        }
    }
    lemma_emit_grows(b6, env, InstrView::Lit);
    if emit(b6, env, InstrView::Lit) is Done {
        lemma_grows_trans(b0, b6, emit(b6, env, InstrView::Lit)->bbs);
    }
}

/// Lowering an expression into an open last block grows the blocks: it
/// closes every block it finishes and ends in an open block.
pub proof fn lemma_lower_grows(bbs: Seq<BBView>, env: Seq<Binding>, e: Expr)
    requires
        bbs.len() >= 1,
        bbs.last().term == TermView::Halt,
    ensures
        lower_spec(bbs, env, e) matches Lowered::Done { bbs: b2, .. } ==> grows(bbs, b2),
    decreases e,
{
    match e {
        Expr::Unit => lemma_emit_grows(bbs, env, InstrView::Lit),
        Expr::Stmt(x) => {
            lemma_lower_grows(bbs, env, *x);
            if let Lowered::Done { bbs: b1, env: e1, value: _ } = lower_spec(bbs, env, *x) {
                lemma_emit_grows(b1, e1, InstrView::Lit);
                if let Lowered::Done { bbs: b2, .. } = emit(b1, e1, InstrView::Lit) {
                    lemma_grows_trans(bbs, b1, b2);
                }
            }
        },
        Expr::Block(es) => {
            if es@.len() == 0 {
                lemma_emit_grows(bbs, env, InstrView::Lit);
            } else {
                lemma_seq_grows(bbs, env, es@);
            }
        },
        Expr::Let { name: _, init } => lemma_lower_grows(bbs, env, *init),
        Expr::Var(_) => lemma_grows_refl(bbs),
        Expr::Ref(_, _) => {},
        Expr::While { cond: _, body: _ } => {},
        Expr::App { func, args } => {
            lemma_lower_grows(bbs, env, *func);
            if let Lowered::Done { bbs: b1, env: e1, value: f } = lower_spec(bbs, env, *func) {
                lemma_seq_grows(b1, e1, args@);
                if let LoweredSeq::Done { bbs: b2, env: e2, values } = lower_seq(b1, e1, args@) {
                    lemma_grows_trans(bbs, b1, b2);
                    lemma_emit_grows(b2, e2, InstrView::App { func: f, args: values });
                    if let Lowered::Done { bbs: b3, .. } = emit(
                        b2,
                        e2,
                        InstrView::App { func: f, args: values },
                    ) {
                        lemma_grows_trans(bbs, b2, b3);
                    }
                }
            }
        },
        Expr::If { cond, yes, no } => {
            lemma_lower_grows(bbs, env, *cond);
            if let Lowered::Done { bbs: b1, env: e1, value: c } = lower_spec(bbs, env, *cond) {
                let ce = b1.len() - 1;
                let b2 = b1.push(fresh_bb(0, ce as nat));
                lemma_lower_grows(b2, e1, *yes);
                if let Lowered::Done { bbs: b3, env: _, value: yv } = lower_spec(b2, e1, *yes) {
                    match no {
                        Some(n) => {
                            let b4 = b3.push(fresh_bb(0, ce as nat));
                            lemma_lower_grows(b4, e1, *n);
                            if let Lowered::Done { bbs: b5, env: _, value: nv } = lower_spec(
                                b4,
                                e1,
                                *n,
                            ) {
                                lemma_join_if_else(bbs, b1, b3, b5, e1, c, yv, nv);
                            }
                        },
                        None => {
                            lemma_join_if(bbs, b1, b3, e1, c);
                        },
                    }
                }
            }
        },
    }
}

/// Lowering expressions one after the other grows the blocks.
pub proof fn lemma_seq_grows(bbs: Seq<BBView>, env: Seq<Binding>, es: Seq<Expr>)
    requires
        bbs.len() >= 1,
        bbs.last().term == TermView::Halt,
    ensures
        lower_seq(bbs, env, es) matches LoweredSeq::Done { bbs: b2, .. } ==> grows(bbs, b2),
    decreases es,
{
    if es.len() == 0 {
        lemma_grows_refl(bbs);
    } else {
        let pre = es.subrange(0, es.len() - 1);
        lemma_seq_grows(bbs, env, pre);
        if let LoweredSeq::Done { bbs: b1, env: e1, values: _ } = lower_seq(bbs, env, pre) {
            lemma_lower_grows(b1, e1, es[es.len() - 1]);
            if let Lowered::Done { bbs: b2, .. } = lower_spec(b1, e1, es[es.len() - 1]) {
                lemma_grows_trans(bbs, b1, b2);
            }
        }
    }
}

/// Every block of a lowered function ends in a return, a jump or a switch,
/// never in `Halt`, and every jump names an existing block and passes one
/// argument for each of its parameters.
pub proof fn lemma_item_blocks_closed(it: ast::Item)
    ensures
        lower_item_spec(it) matches Ok(iv) ==> forall|b: int|
            0 <= b < iv.body.len() ==> #[trigger] closed(iv.body, b),
{
    let n = it.params@.len();
    let entry = seq![fresh_bb(n, 0)];
    lemma_lower_grows(entry, crate::lower::entry_env(it.params@), it.body);
    if let Ok(iv) = lower_item_spec(it) {
        if let Lowered::Done { bbs, env: _, value } = lower_spec(
            entry,
            crate::lower::entry_env(it.params@),
            it.body,
        ) {
            let last = bbs.len() - 1;
            assert(iv.body == with_term(bbs, last, TermView::Return(value)));
            assert forall|b: int| 0 <= b < iv.body.len() implies #[trigger] closed(iv.body, b) by {
                if b < last {
                    assert(closed(bbs, b));
                    lemma_closed_stable(bbs, iv.body, b);
                }
            }
        }
    }
}

/// The instruction numbers of block `b` depend only on the blocks before it
/// and its own dominator.
proof fn lemma_offset_frame(b1: Seq<BBView>, b2: Seq<BBView>, b: int)
    requires
        0 <= b < b1.len(),
        b1.len() == b2.len(),
        b1[b].idom == b2[b].idom,
        forall|k: int| 0 <= k < b ==> #[trigger] b1[k] == b2[k],
    ensures
        ir::instr_offset(b1, b) == ir::instr_offset(b2, b),
    decreases b,
{
    if 0 < b && b1[b].idom < b {
        let d = b1[b].idom as int;
        lemma_offset_frame(b1, b2, d);
    }
}

/// Lowering `if c { a } else { b }` ends in a merge block with exactly one
/// parameter. The switch that ends the condition's block goes to the `else`
/// branch on index 0 and to the `then` branch on index 1; the `then` branch
/// jumps to the merge block passing `a`'s value, the `else` branch passing
/// `b`'s; and the value of the whole expression is the merge block's
/// parameter.
pub proof fn lemma_if_else_threads_values(bbs: Seq<BBView>, env: Seq<Binding>, e: Expr)
    requires
        bbs.len() >= 1,
        bbs.last().term == TermView::Halt,
        e matches Expr::If { no: Some(_), .. },
    ensures
        lower_spec(bbs, env, e) matches Lowered::Done { bbs: out, value, .. } ==> {
            let cond = lower_spec(bbs, env, *e->If_cond);
            let cond_exit = cond->bbs.len() - 1;
            let yes = lower_spec(
                cond->bbs.push(fresh_bb(0, cond_exit as nat)),
                cond->env,
                *e->If_yes,
            );
            let no = lower_spec(
                yes->bbs.push(fresh_bb(0, cond_exit as nat)),
                cond->env,
                *e->If_no->Some_0,
            );
            let merge = out.len() - 1;
            &&& out[merge].n_params == 1
            &&& out[cond_exit].term == switch_spec(
                cond->value,
                yes->bbs.len(),
                cond->bbs.len(),
            )
            &&& out[yes->bbs.len() - 1].term == TermView::Jmp(
                JmpView { to: merge as nat, args: seq![yes->value] },
            )
            &&& out[no->bbs.len() - 1].term == TermView::Jmp(
                JmpView { to: merge as nat, args: seq![no->value] },
            )
            &&& value.0 == ir::param_number(out, merge, 0)
        },
{
    if let Expr::If { cond, yes, no: Some(n) } = e {
        lemma_lower_grows(bbs, env, *cond);
        if let Lowered::Done { bbs: b1, env: e1, value: c } = lower_spec(bbs, env, *cond) {
            let ce = b1.len() - 1;
            let b2 = b1.push(fresh_bb(0, ce as nat));
            lemma_lower_grows(b2, e1, *yes);
            if let Lowered::Done { bbs: b3, env: _, value: yv } = lower_spec(b2, e1, *yes) {
                let b4 = b3.push(fresh_bb(0, ce as nat));
                lemma_lower_grows(b4, e1, *n);
                if let Lowered::Done { bbs: b5, env: _, value: nv } = lower_spec(b4, e1, *n) {
                    let yx = b3.len() - 1;
                    let nx = b5.len() - 1;
                    let x = b5.len();
                    assert(b2.len() == b1.len() + 1);
                    assert(b4.len() == b3.len() + 1);
                    assert(ce < yx < nx < x);
                    let b6 = b5.push(fresh_bb(1, ce as nat));
                    let b7 = with_term(b6, ce, switch_spec(c, b3.len(), b1.len()));
                    let b8 = with_term(
                        b7,
                        yx,
                        TermView::Jmp(JmpView { to: x as nat, args: seq![yv] }),
                    );
                    let b9 = with_term(
                        b8,
                        nx,
                        TermView::Jmp(JmpView { to: x as nat, args: seq![nv] }),
                    );
                    ir::lemma_offsets_nonneg(b9, x as int);
                    assert(b9[x as int].n_params == 1);
                    assert(b9[yx].term == TermView::Jmp(JmpView { to: x as nat, args: seq![yv] }));
                    assert(lower_spec(bbs, env, e) == join_if_else(
                        b5,
                        e1,
                        ce,
                        b1.len(),
                        yx,
                        b3.len(),
                        c,
                        yv,
                        nv,
                    ));
                }
            }
        }
    }
}

/// Lowering `if c { a }` without an `else` ends in a merge block without
/// parameters, and its value is a unit literal emitted there, whatever `a`'s
/// value was.
pub proof fn lemma_if_without_else_is_unit(bbs: Seq<BBView>, env: Seq<Binding>, e: Expr)
    requires
        bbs.len() >= 1,
        bbs.last().term == TermView::Halt,
        e matches Expr::If { no: None, .. },
    ensures
        lower_spec(bbs, env, e) matches Lowered::Done { bbs: out, value, .. } ==> {
            let merge = out.len() - 1;
            &&& out[merge].n_params == 0
            &&& out[merge].body == seq![InstrView::Lit]
            &&& value.0 == ir::instr_number(out, merge, 0)
        },
{
    if let Expr::If { cond, yes, no: None } = e {
        lemma_lower_grows(bbs, env, *cond);
        if let Lowered::Done { bbs: b1, env: e1, value: c } = lower_spec(bbs, env, *cond) {
            let ce = b1.len() - 1;
            let b2 = b1.push(fresh_bb(0, ce as nat));
            lemma_lower_grows(b2, e1, *yes);
            if let Lowered::Done { bbs: b3, env: _, value: _ } = lower_spec(b2, e1, *yes) {
                let yx = b3.len() - 1;
                let x = b3.len();
                let b4 = b3.push(fresh_bb(0, ce as nat));
                let b5 = with_term(b4, ce, switch_spec(c, x as nat, b1.len()));
                let b6 = with_term(
                    b5,
                    yx,
                    TermView::Jmp(JmpView { to: x as nat, args: Seq::empty() }),
                );
                assert(b2.len() == b1.len() + 1);
                assert(ce < yx < x);
                assert(lower_spec(bbs, env, e) == join_if(b3, e1, ce, b1.len(), c));
                assert(join_if(b3, e1, ce, b1.len(), c) == emit(b6, e1, InstrView::Lit));
                if let Some((out, _)) = emit_bbs(b6, InstrView::Lit) {
                    assert(b6[x as int].body.len() == 0);
                    assert(out[x as int].body =~= seq![InstrView::Lit]);
                    lemma_offset_frame(b6, out, x as int);
                    ir::lemma_offsets_nonneg(b6, x as int);
                }
            }
        }
    }
}

/// Lowering is a function of the syntax tree: two lowerings of the same
/// module give the same blocks, numbering and terminators.
pub proof fn lemma_lowering_deterministic(m: ast::Module, a: ir::Module, b: ir::Module)
    requires
        lower_module_spec(m.items@) == Ok::<Seq<ItemView>, crate::lower::LowerErrorView>(
            a.items@.map_values(|i: ir::Item| i@),
        ),
        lower_module_spec(m.items@) == Ok::<Seq<ItemView>, crate::lower::LowerErrorView>(
            b.items@.map_values(|i: ir::Item| i@),
        ),
    ensures
        a.items@.map_values(|i: ir::Item| i@) == b.items@.map_values(|i: ir::Item| i@),
{
}

/// Block `d` holds a slot, an instruction or a parameter, that `v` names.
pub open spec fn slot_in(bbs: Seq<BBView>, d: int, v: Value) -> bool {
    ||| exists|k: int| 0 <= k < bbs[d].body.len() && v.0 == #[trigger] ir::instr_number(bbs, d, k)
    ||| exists|p: int| 0 <= p < bbs[d].n_params && v.0 == #[trigger] ir::param_number(bbs, d, p)
}

/// `v` names a slot of block `u` or of one of its dominators.
pub open spec fn names_slot(bbs: Seq<BBView>, u: int, v: Value) -> bool {
    exists|d: int| 0 <= d < bbs.len() && #[trigger] ir::dominates(bbs, d, u) && slot_in(bbs, d, v)
}

/// Every binding in `env` names a slot that is in scope at the last block.
pub open spec fn scope_named(bbs: Seq<BBView>, env: Seq<Binding>) -> bool {
    forall|i: int| 0 <= i < env.len() ==> names_slot(bbs, bbs.len() - 1, #[trigger] env[i].1)
}

/// `new` keeps the dominator of every block of `old` and its parameters,
/// the instructions of every block but the last, and at least those of the
/// last.
pub open spec fn frame(old: Seq<BBView>, new: Seq<BBView>) -> bool {
    &&& old.len() >= 1
    &&& new.len() >= old.len()
    &&& forall|b: int|
        0 <= b < old.len() ==> (#[trigger] new[b]).idom == old[b].idom && new[b].n_params
            == old[b].n_params && new[b].body.len() >= old[b].body.len() && (b < old.len() - 1
            ==> new[b].body.len() == old[b].body.len())
}

/// A frame in which the block that lowering ends in is dominated by the one
/// it started in.
pub open spec fn keeps_slots(old: Seq<BBView>, new: Seq<BBView>) -> bool {
    frame(old, new) && ir::dominates(new, old.len() - 1, new.len() - 1)
}

proof fn lemma_frame_trans(a: Seq<BBView>, b: Seq<BBView>, c: Seq<BBView>)
    requires
        frame(a, b),
        frame(b, c),
    ensures
        frame(a, c),
{
    assert forall|x: int| 0 <= x < a.len() implies (#[trigger] c[x]).idom == a[x].idom
        && c[x].n_params == a[x].n_params && c[x].body.len() >= a[x].body.len() && (x < a.len()
        - 1 ==> c[x].body.len() == a[x].body.len()) by {
        assert(b[x].idom == a[x].idom);
        assert(c[x].idom == b[x].idom);
    }
}

proof fn lemma_dom_frame(old: Seq<BBView>, new: Seq<BBView>, d: int, u: int)
    requires
        frame(old, new),
        0 <= u < old.len(),
    ensures
        ir::dominates(old, d, u) == ir::dominates(new, d, u),
    decreases u,
{
    assert(new[u].idom == old[u].idom);
    if d != u && 0 < u && old[u].idom < u {
        lemma_dom_frame(old, new, d, old[u].idom as int);
    }
}

proof fn lemma_offset_frame2(old: Seq<BBView>, new: Seq<BBView>, u: int)
    requires
        frame(old, new),
        0 <= u < old.len(),
    ensures
        ir::instr_offset(new, u) == ir::instr_offset(old, u),
        ir::param_offset(new, u) == ir::param_offset(old, u),
    decreases u,
{
    assert(new[u].idom == old[u].idom);
    if 0 < u && old[u].idom < u {
        let d = old[u].idom as int;
        assert(new[d].idom == old[d].idom);
        lemma_offset_frame2(old, new, d);
    }
}

proof fn lemma_dom_trans(bbs: Seq<BBView>, a: int, b: int, c: int)
    requires
        ir::dominates(bbs, a, b),
        ir::dominates(bbs, b, c),
    ensures
        ir::dominates(bbs, a, c),
    decreases c,
{
    if b != c && 0 < c < bbs.len() && bbs[c].idom < c {
        lemma_dom_trans(bbs, a, b, bbs[c].idom as int);
    }
}

proof fn lemma_names_stable(old: Seq<BBView>, new: Seq<BBView>, v: Value)
    requires
        keeps_slots(old, new),
        names_slot(old, old.len() - 1, v),
    ensures
        names_slot(new, new.len() - 1, v),
{
    let d = choose|d: int|
        0 <= d < old.len() && #[trigger] ir::dominates(old, d, old.len() - 1) && slot_in(old, d, v);
    lemma_dom_frame(old, new, d, old.len() - 1);
    lemma_dom_trans(new, d, old.len() - 1, new.len() - 1);
    lemma_offset_frame2(old, new, d);
    assert(new[d].n_params == old[d].n_params);
    if exists|k: int| 0 <= k < old[d].body.len() && v.0 == #[trigger] ir::instr_number(old, d, k) {
        let k = choose|k: int|
            0 <= k < old[d].body.len() && v.0 == #[trigger] ir::instr_number(old, d, k);
        assert(v.0 == ir::instr_number(new, d, k));
    } else {
        let p = choose|p: int|
            0 <= p < old[d].n_params && v.0 == #[trigger] ir::param_number(old, d, p);
        assert(v.0 == ir::param_number(new, d, p));
    }
    assert(slot_in(new, d, v));
}

proof fn lemma_scope_stable(old: Seq<BBView>, new: Seq<BBView>, env: Seq<Binding>)
    requires
        keeps_slots(old, new),
        scope_named(old, env),
    ensures
        scope_named(new, env),
{
    assert forall|i: int| 0 <= i < env.len() implies names_slot(
        new,
        new.len() - 1,
        #[trigger] env[i].1,
    ) by {
        lemma_names_stable(old, new, env[i].1);
    }
}

proof fn lemma_keeps_trans(a: Seq<BBView>, b: Seq<BBView>, c: Seq<BBView>)
    requires
        keeps_slots(a, b),
        keeps_slots(b, c),
    ensures
        keeps_slots(a, c),
{
    lemma_frame_trans(a, b, c);
    lemma_dom_frame(b, c, a.len() - 1, b.len() - 1);
    lemma_dom_trans(c, a.len() - 1, b.len() - 1, c.len() - 1);
}

proof fn lemma_emit_names(bbs: Seq<BBView>, env: Seq<Binding>, ins: InstrView)
    requires
        bbs.len() >= 1,
    ensures
        emit(bbs, env, ins) matches Lowered::Done { bbs: b2, value, .. } ==> keeps_slots(bbs, b2)
            && names_slot(b2, b2.len() - 1, value),
{
    if let Lowered::Done { bbs: b2, value, .. } = emit(bbs, env, ins) {
        let last = bbs.len() - 1;
        assert(frame(bbs, b2));
        lemma_offset_frame2(bbs, b2, last);
        ir::lemma_offsets_nonneg(bbs, last);
        assert(value.0 == ir::instr_number(b2, last, bbs[last].body.len() as int));
        assert(slot_in(b2, last, value));
        assert(ir::dominates(b2, last, last));
    }
}

proof fn lemma_keeps_refl(bbs: Seq<BBView>)
    requires
        bbs.len() >= 1,
    ensures
        keeps_slots(bbs, bbs),
{
}

proof fn lemma_keeps_push(bbs: Seq<BBView>, n: nat)
    requires
        bbs.len() >= 1,
    ensures
        keeps_slots(bbs, bbs.push(fresh_bb(n, (bbs.len() - 1) as nat))),
{
    let b2 = bbs.push(fresh_bb(n, (bbs.len() - 1) as nat));
    assert(ir::dominates(b2, bbs.len() - 1, bbs.len() - 1));
}

proof fn lemma_lookup_in(env: Seq<Binding>, name: Seq<char>)
    ensures
        crate::env::lookup(env, name) matches Some(v) ==> exists|i: int|
            0 <= i < env.len() && (#[trigger] env[i]).1 == v,
    decreases env.len(),
{
    if env.len() > 0 {
        lemma_lookup_in(env.drop_last(), name);
        if crate::env::lookup(env, name) is Some && env.last().0 != name {
            let i = choose|i: int|
                0 <= i < env.drop_last().len() && (#[trigger] env.drop_last()[i]).1 == crate::env::lookup(
                    env,
                    name,
                )->Some_0;
            assert(env[i] == env.drop_last()[i]);
        }
    }
}

proof fn lemma_join_if_else_names(
    b1: Seq<BBView>,
    b3: Seq<BBView>,
    b5: Seq<BBView>,
    env: Seq<Binding>,
    c: Value,
    yv: Value,
    nv: Value,
)
    requires
        b1.len() >= 1,
        scope_named(b1, env),
        keeps_slots(b1.push(fresh_bb(0, (b1.len() - 1) as nat)), b3),
        keeps_slots(b3.push(fresh_bb(0, (b1.len() - 1) as nat)), b5),
    ensures
        join_if_else(
            b5,
            env,
            b1.len() - 1,
            b1.len(),
            b3.len() - 1,
            b3.len(),
            c,
            yv,
            nv,
        ) matches Lowered::Done { bbs: b9, env: e9, value } ==> keeps_slots(b1, b9)
            && scope_named(b9, e9) && names_slot(b9, b9.len() - 1, value),
{
    let ce = b1.len() - 1;
    let b2 = b1.push(fresh_bb(0, ce as nat));
    let b4 = b3.push(fresh_bb(0, ce as nat));
    let yx = b3.len() - 1;
    let nx = b5.len() - 1;
    let x = b5.len();
    let b6 = b5.push(fresh_bb(1, ce as nat));
    let b7 = with_term(b6, ce, switch_spec(c, b3.len(), b1.len()));
    let b8 = with_term(b7, yx, TermView::Jmp(JmpView { to: x as nat, args: seq![yv] }));
    let b9 = with_term(b8, nx, TermView::Jmp(JmpView { to: x as nat, args: seq![nv] }));
    lemma_keeps_push(b1, 0);
    assert(frame(b3, b4));
    assert(frame(b5, b6));
    assert(frame(b6, b9));
    lemma_frame_trans(b1, b2, b3);
    lemma_frame_trans(b1, b3, b4);
    lemma_frame_trans(b1, b4, b5);
    lemma_frame_trans(b1, b5, b6);
    lemma_frame_trans(b1, b6, b9);
    assert(ir::dominates(b9, ce, ce));
    assert(ir::dominates(b9, ce, x as int));
    assert(keeps_slots(b1, b9));
    lemma_scope_stable(b1, b9, env);
    if let Lowered::Done { bbs: _, env: _, value } = join_if_else(
        b5,
        env,
        ce,
        b1.len(),
        yx,
        b3.len(),
        c,
        yv,
        nv,
    ) {
        ir::lemma_offsets_nonneg(b9, x as int);
        assert(value.0 == ir::param_number(b9, x as int, 0));
        assert(slot_in(b9, x as int, value));
        assert(ir::dominates(b9, x as int, x as int));
    }
}

proof fn lemma_join_if_names(b1: Seq<BBView>, b3: Seq<BBView>, env: Seq<Binding>, c: Value)
    requires
        b1.len() >= 1,
        scope_named(b1, env),
        keeps_slots(b1.push(fresh_bb(0, (b1.len() - 1) as nat)), b3),
    ensures
        join_if(b3, env, b1.len() - 1, b1.len(), c) matches Lowered::Done {
            bbs: b9,
            env: e9,
            value,
        } ==> keeps_slots(b1, b9) && scope_named(b9, e9) && names_slot(b9, b9.len() - 1, value),
{
    let ce = b1.len() - 1;
    let b2 = b1.push(fresh_bb(0, ce as nat));
    let yx = b3.len() - 1;
    let x = b3.len();
    let b4 = b3.push(fresh_bb(0, ce as nat));
    let b5 = with_term(b4, ce, switch_spec(c, x as nat, b1.len()));
    let b6 = with_term(b5, yx, TermView::Jmp(JmpView { to: x as nat, args: Seq::empty() }));
    lemma_keeps_push(b1, 0);
    assert(frame(b3, b4));
    assert(frame(b4, b6));
    lemma_frame_trans(b1, b2, b3);
    lemma_frame_trans(b1, b3, b4);
    lemma_frame_trans(b1, b4, b6);
    assert(ir::dominates(b6, ce, ce));
    assert(ir::dominates(b6, ce, x as int));
    assert(keeps_slots(b1, b6));
    lemma_scope_stable(b1, b6, env);
    lemma_emit_names(b6, env, InstrView::Lit);
    if let Lowered::Done { bbs: b9, .. } = emit(b6, env, InstrView::Lit) {
        lemma_keeps_trans(b1, b6, b9);
        lemma_scope_stable(b6, b9, env);
    }
}

/// Lowering keeps every binding in scope naming a slot on the dominator
/// chain of the block it ends in, and its value names such a slot too: no
/// value that lowering hands out names an instruction or a parameter that
/// is out of scope, or none at all.
pub proof fn lemma_lower_names_slots(bbs: Seq<BBView>, env: Seq<Binding>, e: Expr)
    requires
        bbs.len() >= 1,
        scope_named(bbs, env),
    ensures
        lower_spec(bbs, env, e) matches Lowered::Done { bbs: b2, env: e2, value }
            ==> keeps_slots(bbs, b2) && scope_named(b2, e2) && names_slot(b2, b2.len() - 1, value),
    decreases e,
{
    match e {
        Expr::Unit => {
            lemma_emit_names(bbs, env, InstrView::Lit);
            if let Lowered::Done { bbs: b2, .. } = emit(bbs, env, InstrView::Lit) {
                lemma_scope_stable(bbs, b2, env);
            }
        },
        Expr::Stmt(x) => {
            lemma_lower_names_slots(bbs, env, *x);
            if let Lowered::Done { bbs: b1, env: e1, value: _ } = lower_spec(bbs, env, *x) {
                lemma_emit_names(b1, e1, InstrView::Lit);
                if let Lowered::Done { bbs: b2, .. } = emit(b1, e1, InstrView::Lit) {
                    lemma_keeps_trans(bbs, b1, b2);
                    lemma_scope_stable(b1, b2, e1);
                }
            }
        },
        Expr::Block(es) => {
            if es@.len() == 0 {
                lemma_emit_names(bbs, env, InstrView::Lit);
                if let Lowered::Done { bbs: b2, .. } = emit(bbs, env, InstrView::Lit) {
                    lemma_scope_stable(bbs, b2, env);
                }
            } else {
                lemma_seq_names_slots(bbs, env, es@);
                crate::lower::lemma_seq_values_len(bbs, env, es@);
                if let LoweredSeq::Done { bbs: b1, .. } = lower_seq(bbs, env, es@) {
                    lemma_scope_stable(bbs, b1, env);
                }
            }
        },
        Expr::Let { name, init } => {
            lemma_lower_names_slots(bbs, env, *init);
            if let Lowered::Done { bbs: b1, env: e1, value } = lower_spec(bbs, env, *init) {
                let e2 = e1.push((name@, value));
                assert forall|i: int| 0 <= i < e2.len() implies names_slot(
                    b1,
                    b1.len() - 1,
                    #[trigger] e2[i].1,
                ) by {
                    if i < e1.len() {
                        assert(e2[i] == e1[i]);
                    }
                }
            }
        },
        Expr::Var(name) => {
            lemma_keeps_refl(bbs);
            lemma_lookup_in(env, name@);
        },
        Expr::App { func, args } => {
            lemma_lower_names_slots(bbs, env, *func);
            if let Lowered::Done { bbs: b1, env: e1, value: f } = lower_spec(bbs, env, *func) {
                lemma_seq_names_slots(b1, e1, args@);
                if let LoweredSeq::Done { bbs: b2, env: e2, values } = lower_seq(b1, e1, args@) {
                    lemma_keeps_trans(bbs, b1, b2);
                    let ins = InstrView::App { func: f, args: values };
                    lemma_emit_names(b2, e2, ins);
                    if let Lowered::Done { bbs: b3, .. } = emit(b2, e2, ins) {
                        lemma_keeps_trans(bbs, b2, b3);
                        lemma_scope_stable(b2, b3, e2);
                    }
                }
            }
        },
        Expr::If { cond, yes, no } => {
            lemma_lower_names_slots(bbs, env, *cond);
            if let Lowered::Done { bbs: b1, env: e1, value: c } = lower_spec(bbs, env, *cond) {
                let ce = b1.len() - 1;
                let b2 = b1.push(fresh_bb(0, ce as nat));
                lemma_keeps_push(b1, 0);
                lemma_scope_stable(b1, b2, e1);
                lemma_lower_names_slots(b2, e1, *yes);
                if let Lowered::Done { bbs: b3, env: _, value: yv } = lower_spec(b2, e1, *yes) {
                    match no {
                        Some(n) => {
                            let b4 = b3.push(fresh_bb(0, ce as nat));
                            lemma_frame_trans(b1, b2, b3);
                            assert(frame(b3, b4));
                            lemma_frame_trans(b1, b3, b4);
                            assert(ir::dominates(b4, ce, ce));
                            assert(ir::dominates(b4, ce, b4.len() - 1));
                            lemma_scope_stable(b1, b4, e1);
                            lemma_lower_names_slots(b4, e1, *n);
                            if let Lowered::Done { bbs: b5, env: _, value: nv } = lower_spec(
                                b4,
                                e1,
                                *n,
                            ) {
                                lemma_join_if_else_names(b1, b3, b5, e1, c, yv, nv);
                                if let Lowered::Done { bbs: b9, .. } = join_if_else(
                                    b5,
                                    e1,
                                    ce,
                                    b1.len(),
                                    b3.len() - 1,
                                    b3.len(),
                                    c,
                                    yv,
                                    nv,
                                ) {
                                    lemma_keeps_trans(bbs, b1, b9);
                                }
                            }
                        },
                        None => {
                            lemma_join_if_names(b1, b3, e1, c);
                            if let Lowered::Done { bbs: b9, .. } = join_if(
                                b3,
                                e1,
                                ce,
                                b1.len(),
                                c,
                            ) {
                                lemma_keeps_trans(bbs, b1, b9);
                            }
                        },
                    }
                }
            }
        },
        _ => {},
    }
}

/// Lowering expressions one after the other keeps the scope naming slots,
/// and the last value names one too.
pub proof fn lemma_seq_names_slots(bbs: Seq<BBView>, env: Seq<Binding>, es: Seq<Expr>)
    requires
        bbs.len() >= 1,
        scope_named(bbs, env),
    ensures
        lower_seq(bbs, env, es) matches LoweredSeq::Done { bbs: b2, env: e2, values }
            ==> keeps_slots(bbs, b2) && scope_named(b2, e2) && (values.len() > 0 ==> names_slot(
            b2,
            b2.len() - 1,
            values.last(),
        )),
    decreases es,
{
    if es.len() == 0 {
        lemma_keeps_refl(bbs);
    } else {
        let pre = es.subrange(0, es.len() - 1);
        lemma_seq_names_slots(bbs, env, pre);
        if let LoweredSeq::Done { bbs: b1, env: e1, values: _ } = lower_seq(bbs, env, pre) {
            lemma_lower_names_slots(b1, e1, es[es.len() - 1]);
            if let Lowered::Done { bbs: b2, .. } = lower_spec(b1, e1, es[es.len() - 1]) {
                lemma_keeps_trans(bbs, b1, b2);
            }
        }
    }
}

/// Instruction `i` reads `v`.
pub open spec fn instr_uses(i: InstrView, v: Value) -> bool {
    match i {
        InstrView::Lit => false,
        InstrView::Ref(w) => w == v,
        InstrView::App { func, args } => func == v || args.contains(v),
    }
}

/// Terminator `t` reads `v`.
pub open spec fn term_uses(t: TermView, v: Value) -> bool {
    match t {
        TermView::Halt => false,
        TermView::Return(w) => w == v,
        TermView::Jmp(j) => j.args.contains(v),
        TermView::Switch(w, js) => w == v || exists|k: int|
            0 <= k < js.len() && (#[trigger] js[k]).args.contains(v),
    }
}

/// Block `u` reads `v`, in an instruction or in its terminator.
pub open spec fn uses(bbs: Seq<BBView>, u: int, v: Value) -> bool {
    ||| exists|k: int| 0 <= k < bbs[u].body.len() && instr_uses(#[trigger] bbs[u].body[k], v)
    ||| term_uses(bbs[u].term, v)
}

/// Every value that a block reads names a slot of that block or of one of
/// its dominators.
pub open spec fn operands_named(bbs: Seq<BBView>) -> bool {
    forall|u: int, v: Value| 0 <= u < bbs.len() && #[trigger] uses(bbs, u, v) ==> names_slot(bbs, u, v)
}

proof fn lemma_names_stable_at(old: Seq<BBView>, new: Seq<BBView>, u: int, v: Value)
    requires
        frame(old, new),
        0 <= u < old.len(),
        names_slot(old, u, v),
    ensures
        names_slot(new, u, v),
{
    let d = choose|d: int| 0 <= d < old.len() && #[trigger] ir::dominates(old, d, u) && slot_in(old, d, v);
    lemma_dom_frame(old, new, d, u);
    lemma_offset_frame2(old, new, d);
    assert(new[d].n_params == old[d].n_params);
    if exists|k: int| 0 <= k < old[d].body.len() && v.0 == #[trigger] ir::instr_number(old, d, k) {
        let k = choose|k: int|
            0 <= k < old[d].body.len() && v.0 == #[trigger] ir::instr_number(old, d, k);
        assert(v.0 == ir::instr_number(new, d, k));
    } else {
        let p = choose|p: int|
            0 <= p < old[d].n_params && v.0 == #[trigger] ir::param_number(old, d, p);
        assert(v.0 == ir::param_number(new, d, p));
    }
    assert(slot_in(new, d, v));
}

proof fn lemma_push_ops(bbs: Seq<BBView>, n: nat, idom: nat)
    requires
        bbs.len() >= 1,
        operands_named(bbs),
    ensures
        operands_named(bbs.push(fresh_bb(n, idom))),
{
    let out = bbs.push(fresh_bb(n, idom));
    assert(frame(bbs, out));
    assert forall|u: int, v: Value| 0 <= u < out.len() && #[trigger] uses(out, u, v) implies names_slot(
        out,
        u,
        v,
    ) by {
        if u < bbs.len() {
            assert(out[u] == bbs[u]);
            assert(uses(bbs, u, v));
            lemma_names_stable_at(bbs, out, u, v);
        }
    }
}

proof fn lemma_term_ops(bbs: Seq<BBView>, b: int, t: TermView)
    requires
        bbs.len() >= 1,
        0 <= b < bbs.len(),
        operands_named(bbs),
        forall|v: Value| #[trigger] term_uses(t, v) ==> names_slot(bbs, b, v),
    ensures
        operands_named(with_term(bbs, b, t)),
{
    let out = with_term(bbs, b, t);
    assert(frame(bbs, out));
    assert forall|u: int, v: Value| 0 <= u < out.len() && #[trigger] uses(out, u, v) implies names_slot(
        out,
        u,
        v,
    ) by {
        if u != b {
            assert(out[u] == bbs[u]);
            assert(uses(bbs, u, v));
        } else if term_uses(t, v) {
        } else {
            let k = choose|k: int| 0 <= k < out[u].body.len() && instr_uses(#[trigger] out[u].body[k], v);
            assert(bbs[u].body[k] == out[u].body[k]);
            assert(uses(bbs, u, v));
        }
        lemma_names_stable_at(bbs, out, u, v);
    }
}

proof fn lemma_emit_ops(bbs: Seq<BBView>, env: Seq<Binding>, ins: InstrView)
    requires
        bbs.len() >= 1,
        operands_named(bbs),
        forall|v: Value| #[trigger] instr_uses(ins, v) ==> names_slot(bbs, bbs.len() - 1, v),
    ensures
        emit(bbs, env, ins) matches Lowered::Done { bbs: out, .. } ==> operands_named(out),
{
    if let Lowered::Done { bbs: out, .. } = emit(bbs, env, ins) {
        let last = bbs.len() - 1;
        assert(frame(bbs, out));
        assert forall|u: int, v: Value| 0 <= u < out.len() && #[trigger] uses(out, u, v) implies names_slot(
            out,
            u,
            v,
        ) by {
            if u != last {
                assert(out[u] == bbs[u]);
                assert(uses(bbs, u, v));
            } else if term_uses(out[u].term, v) {
                assert(uses(bbs, u, v));
            } else {
                let k = choose|k: int|
                    0 <= k < out[u].body.len() && instr_uses(#[trigger] out[u].body[k], v);
                if k < bbs[u].body.len() {
                    assert(bbs[u].body[k] == out[u].body[k]);
                    assert(uses(bbs, u, v));
                } else {
                    assert(out[u].body[k] == ins);
                }
            }
            lemma_names_stable_at(bbs, out, u, v);
        }
    }
}

proof fn lemma_join_if_else_ops(
    b1: Seq<BBView>,
    b3: Seq<BBView>,
    b5: Seq<BBView>,
    env: Seq<Binding>,
    c: Value,
    yv: Value,
    nv: Value,
)
    requires
        b1.len() >= 1,
        names_slot(b1, b1.len() - 1, c),
        keeps_slots(b1.push(fresh_bb(0, (b1.len() - 1) as nat)), b3),
        names_slot(b3, b3.len() - 1, yv),
        keeps_slots(b3.push(fresh_bb(0, (b1.len() - 1) as nat)), b5),
        names_slot(b5, b5.len() - 1, nv),
        operands_named(b5),
    ensures
        join_if_else(
            b5,
            env,
            b1.len() - 1,
            b1.len(),
            b3.len() - 1,
            b3.len(),
            c,
            yv,
            nv,
        ) matches Lowered::Done { bbs: b9, .. } ==> operands_named(b9),
{
    let ce = b1.len() - 1;
    let b2 = b1.push(fresh_bb(0, ce as nat));
    let b4 = b3.push(fresh_bb(0, ce as nat));
    let yx = b3.len() - 1;
    let nx = b5.len() - 1;
    let x = b5.len();
    let b6 = b5.push(fresh_bb(1, ce as nat));
    let t7 = switch_spec(c, b3.len(), b1.len());
    let b7 = with_term(b6, ce, t7);
    let t8 = TermView::Jmp(JmpView { to: x as nat, args: seq![yv] });
    let b8 = with_term(b7, yx, t8);
    let t9 = TermView::Jmp(JmpView { to: x as nat, args: seq![nv] });
    assert(frame(b1, b2));
    assert(frame(b3, b4));
    assert(frame(b5, b6));
    assert(frame(b6, b7));
    assert(frame(b7, b8));
    lemma_frame_trans(b1, b2, b3);
    lemma_frame_trans(b1, b3, b4);
    lemma_frame_trans(b1, b4, b5);
    lemma_frame_trans(b1, b5, b6);
    lemma_frame_trans(b3, b4, b5);
    lemma_frame_trans(b3, b5, b6);
    lemma_frame_trans(b3, b6, b7);
    lemma_frame_trans(b5, b6, b7);
    lemma_frame_trans(b5, b7, b8);
    lemma_push_ops(b5, 1, ce as nat);
    lemma_names_stable_at(b1, b6, ce, c);
    assert forall|v: Value| #[trigger] term_uses(t7, v) implies names_slot(b6, ce, v) by {
        let js = seq![
            JmpView { to: b3.len() as nat, args: Seq::empty() },
            JmpView { to: b1.len() as nat, args: Seq::empty() },
        ];
        if v != c {
            assert forall|k: int| 0 <= k < js.len() implies !(#[trigger] js[k]).args.contains(v) by {}
        }
    }
    lemma_term_ops(b6, ce, t7);
    lemma_names_stable_at(b3, b7, yx, yv);
    assert forall|v: Value| #[trigger] term_uses(t8, v) implies names_slot(b7, yx, v) by {
        assert(seq![yv].contains(v) ==> v == yv);
    }
    lemma_term_ops(b7, yx, t8);
    lemma_names_stable_at(b5, b8, nx, nv);
    assert forall|v: Value| #[trigger] term_uses(t9, v) implies names_slot(b8, nx, v) by {
        assert(seq![nv].contains(v) ==> v == nv);
    }
    lemma_term_ops(b8, nx, t9);
}

proof fn lemma_join_if_ops(b1: Seq<BBView>, b3: Seq<BBView>, env: Seq<Binding>, c: Value)
    requires
        b1.len() >= 1,
        names_slot(b1, b1.len() - 1, c),
        keeps_slots(b1.push(fresh_bb(0, (b1.len() - 1) as nat)), b3),
        operands_named(b3),
    ensures
        join_if(b3, env, b1.len() - 1, b1.len(), c) matches Lowered::Done { bbs: b9, .. }
            ==> operands_named(b9),
{
    let ce = b1.len() - 1;
    let b2 = b1.push(fresh_bb(0, ce as nat));
    let yx = b3.len() - 1;
    let x = b3.len();
    let b4 = b3.push(fresh_bb(0, ce as nat));
    let t5 = switch_spec(c, x as nat, b1.len());
    let b5 = with_term(b4, ce, t5);
    let t6 = TermView::Jmp(JmpView { to: x as nat, args: Seq::empty() });
    let b6 = with_term(b5, yx, t6);
    assert(frame(b1, b2));
    assert(frame(b3, b4));
    lemma_frame_trans(b1, b2, b3);
    lemma_frame_trans(b1, b3, b4);
    lemma_push_ops(b3, 0, ce as nat);
    lemma_names_stable_at(b1, b4, ce, c);
    assert forall|v: Value| #[trigger] term_uses(t5, v) implies names_slot(b4, ce, v) by {
        let js = seq![
            JmpView { to: x as nat, args: Seq::empty() },
            JmpView { to: b1.len() as nat, args: Seq::empty() },
        ];
        if v != c {
            assert forall|k: int| 0 <= k < js.len() implies !(#[trigger] js[k]).args.contains(v) by {}
        }
    }
    lemma_term_ops(b4, ce, t5);
    assert forall|v: Value| #[trigger] term_uses(t6, v) implies names_slot(b5, yx, v) by {}
    lemma_term_ops(b5, yx, t6);
    lemma_emit_ops(b6, env, InstrView::Lit);
}

/// Lowering keeps every operand of every block naming a slot of that block
/// or of one of its dominators.
pub proof fn lemma_lower_operands(bbs: Seq<BBView>, env: Seq<Binding>, e: Expr)
    requires
        bbs.len() >= 1,
        scope_named(bbs, env),
        operands_named(bbs),
    ensures
        lower_spec(bbs, env, e) matches Lowered::Done { bbs: b2, .. } ==> operands_named(b2),
    decreases e,
{
    match e {
        Expr::Unit => lemma_emit_ops(bbs, env, InstrView::Lit),
        Expr::Stmt(x) => {
            lemma_lower_operands(bbs, env, *x);
            lemma_lower_names_slots(bbs, env, *x);
            if let Lowered::Done { bbs: b1, env: e1, value: _ } = lower_spec(bbs, env, *x) {
                lemma_emit_ops(b1, e1, InstrView::Lit);
            }
        },
        Expr::Block(es) => {
            if es@.len() == 0 {
                lemma_emit_ops(bbs, env, InstrView::Lit);
            } else {
                lemma_seq_operands(bbs, env, es@);
            }
        },
        Expr::Let { name: _, init } => lemma_lower_operands(bbs, env, *init),
        Expr::App { func, args } => {
            lemma_lower_operands(bbs, env, *func);
            lemma_lower_names_slots(bbs, env, *func);
            if let Lowered::Done { bbs: b1, env: e1, value: f } = lower_spec(bbs, env, *func) {
                lemma_seq_operands(b1, e1, args@);
                lemma_seq_names_slots(b1, e1, args@);
                if let LoweredSeq::Done { bbs: b2, env: e2, values } = lower_seq(b1, e1, args@) {
                    lemma_names_stable(b1, b2, f);
                    let ins = InstrView::App { func: f, args: values };
                    assert forall|v: Value| #[trigger] instr_uses(ins, v) implies names_slot(
                        b2,
                        b2.len() - 1,
                        v,
                    ) by {
                        if v != f {
                            let i = choose|i: int| 0 <= i < values.len() && values[i] == v;
                            assert(names_slot(b2, b2.len() - 1, values[i]));
                        }
                    }
                    lemma_emit_ops(b2, e2, ins);
                }
            }
        },
        Expr::If { cond, yes, no } => {
            lemma_lower_operands(bbs, env, *cond);
            lemma_lower_names_slots(bbs, env, *cond);
            if let Lowered::Done { bbs: b1, env: e1, value: c } = lower_spec(bbs, env, *cond) {
                let ce = b1.len() - 1;
                let b2 = b1.push(fresh_bb(0, ce as nat));
                lemma_keeps_push(b1, 0);
                lemma_scope_stable(b1, b2, e1);
                lemma_push_ops(b1, 0, ce as nat);
                lemma_lower_operands(b2, e1, *yes);
                lemma_lower_names_slots(b2, e1, *yes);
                if let Lowered::Done { bbs: b3, env: _, value: yv } = lower_spec(b2, e1, *yes) {
                    match no {
                        Some(n) => {
                            let b4 = b3.push(fresh_bb(0, ce as nat));
                            lemma_frame_trans(b1, b2, b3);
                            assert(frame(b3, b4));
                            lemma_frame_trans(b1, b3, b4);
                            assert(ir::dominates(b4, ce, ce));
                            assert(ir::dominates(b4, ce, b4.len() - 1));
                            lemma_scope_stable(b1, b4, e1);
                            lemma_push_ops(b3, 0, ce as nat);
                            lemma_lower_operands(b4, e1, *n);
                            lemma_lower_names_slots(b4, e1, *n);
                            if let Lowered::Done { bbs: b5, env: _, value: nv } = lower_spec(
                                b4,
                                e1,
                                *n,
                            ) {
                                lemma_join_if_else_ops(b1, b3, b5, e1, c, yv, nv);
                            }
                        },
                        None => {
                            lemma_join_if_ops(b1, b3, e1, c);
                        },
                    }
                }
            }
        },
        _ => {},
    }
}

/// Lowering expressions one after the other keeps every operand naming a
/// slot, and each of their values names a slot in scope at the end.
pub proof fn lemma_seq_operands(bbs: Seq<BBView>, env: Seq<Binding>, es: Seq<Expr>)
    requires
        bbs.len() >= 1,
        scope_named(bbs, env),
        operands_named(bbs),
    ensures
        lower_seq(bbs, env, es) matches LoweredSeq::Done { bbs: b2, values, .. }
            ==> operands_named(b2) && forall|i: int|
            0 <= i < values.len() ==> names_slot(b2, b2.len() - 1, #[trigger] values[i]),
    decreases es,
{
    if es.len() > 0 {
        let pre = es.subrange(0, es.len() - 1);
        lemma_seq_operands(bbs, env, pre);
        lemma_seq_names_slots(bbs, env, pre);
        if let LoweredSeq::Done { bbs: b1, env: e1, values: vs } = lower_seq(bbs, env, pre) {
            lemma_lower_operands(b1, e1, es[es.len() - 1]);
            lemma_lower_names_slots(b1, e1, es[es.len() - 1]);
            if let Lowered::Done { bbs: b2, env: _, value } = lower_spec(b1, e1, es[es.len() - 1]) {
                let values = vs.push(value);
                assert forall|i: int| 0 <= i < values.len() implies names_slot(
                    b2,
                    b2.len() - 1,
                    #[trigger] values[i],
                ) by {
                    if i < vs.len() {
                        assert(names_slot(b1, b1.len() - 1, vs[i]));
                        lemma_names_stable(b1, b2, vs[i]);
                    }
                }
            }
        }
    }
}

/// Every value that a lowered function reads, in an instruction, a switch,
/// a jump or its return, names an instruction or a parameter of the reading
/// block or of one of its dominators.
pub proof fn lemma_item_operands_resolve(it: ast::Item)
    ensures
        lower_item_spec(it) matches Ok(iv) ==> operands_named(iv.body),
{
    let n = it.params@.len();
    let entry = seq![fresh_bb(n, 0)];
    let env = crate::lower::entry_env(it.params@);
    if n <= i32::MAX {
        assert forall|i: int| 0 <= i < env.len() implies names_slot(
            entry,
            0,
            #[trigger] env[i].1,
        ) by {
            assert(ir::param_offset(entry, 0) == 0);
            assert(env[i].1.0 == ir::param_number(entry, 0, i));
            assert(slot_in(entry, 0, env[i].1));
            assert(ir::dominates(entry, 0, 0));
        }
        assert forall|u: int, v: Value|
            0 <= u < entry.len() && #[trigger] uses(entry, u, v) implies names_slot(
            entry,
            u,
            v,
        ) by {
            assert(entry[u].body.len() == 0);
        }
        lemma_lower_names_slots(entry, env, it.body);
        lemma_lower_operands(entry, env, it.body);
        if let Lowered::Done { bbs, env: _, value } = lower_spec(entry, env, it.body) {
            let last = bbs.len() - 1;
            let t = TermView::Return(value);
            assert forall|v: Value| #[trigger] term_uses(t, v) implies names_slot(bbs, last, v) by {}
            lemma_term_ops(bbs, last, t);
        }
    }
}

} // verus!
