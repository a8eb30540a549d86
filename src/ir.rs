//! The control-flow-graph representation and its dominator-relative value
//! numbering.
use vstd::prelude::*;

verus! {

/// A lowered module: its functions, in source order.
#[derive(Debug)]
pub struct Module {
    pub items: Vec<Item>,
}

/// A lowered function: its basic blocks, the entry block first.
#[derive(Debug)]
pub struct Item {
    pub name: String,
    pub body: Vec<BB>,
}

/// A basic block: parameters, straight-line instructions, one terminator,
/// and the index of its immediate dominator.
#[derive(Debug)]
pub struct BB {
    pub n_params: usize,
    pub body: Vec<Instr>,
    pub term: Terminator,
    pub idom: usize,
}

/// A value: negative numbers name block parameters, the others name
/// instruction results.
#[derive(Debug, Clone, Copy, PartialEq, Eq, Structural, Hash)]
pub struct Value(pub i32);

/// An instruction.
#[derive(Debug)]
pub enum Instr {
    /// The unit value.
    Lit,
    Ref(Value),
    App { func: Value, args: Vec<Value> },
}

/// A jump to a block, with one argument for each of its parameters.
#[derive(Debug)]
pub struct Jmp {
    pub to: usize,
    pub args: Vec<Value>,
}

/// How a block ends. `Halt` marks a block whose ending is not yet known.
#[derive(Debug)]
pub enum Terminator {
    Halt,
    Return(Value),
    Jmp(Jmp),
    Switch(Value, Vec<Jmp>),
}

pub ghost enum InstrView {
    Lit,
    Ref(Value),
    App { func: Value, args: Seq<Value> },
}

pub ghost struct JmpView {
    pub to: nat,
    pub args: Seq<Value>,
}

pub ghost enum TermView {
    Halt,
    Return(Value),
    Jmp(JmpView),
    Switch(Value, Seq<JmpView>),
}

pub ghost struct BBView {
    pub n_params: nat,
    pub body: Seq<InstrView>,
    pub term: TermView,
    pub idom: nat,
}

pub ghost struct ItemView {
    pub name: Seq<char>,
    pub body: Seq<BBView>,
}

impl View for Instr {
    type V = InstrView;

    open spec fn view(&self) -> InstrView {
        match self {
            Instr::Lit => InstrView::Lit,
            Instr::Ref(v) => InstrView::Ref(*v),
            Instr::App { func, args } => InstrView::App { func: *func, args: args@ },
        }
    }
}

impl View for Jmp {
    type V = JmpView;

    open spec fn view(&self) -> JmpView {
        JmpView { to: self.to as nat, args: self.args@ }
    }
}

pub open spec fn jmps_view(js: Seq<Jmp>) -> Seq<JmpView> {
    js.map_values(|j: Jmp| j@)
}

impl View for Terminator {
    type V = TermView;

    open spec fn view(&self) -> TermView {
        match self {
            Terminator::Halt => TermView::Halt,
            Terminator::Return(v) => TermView::Return(*v),
            Terminator::Jmp(j) => TermView::Jmp(j@),
            Terminator::Switch(v, js) => TermView::Switch(*v, jmps_view(js@)),
        }
    }
}

impl View for BB {
    type V = BBView;

    open spec fn view(&self) -> BBView {
        BBView {
            n_params: self.n_params as nat,
            body: self.body@.map_values(|i: Instr| i@),
            term: self.term@,
            idom: self.idom as nat,
        }
    }
}

pub open spec fn blocks_view(bbs: Seq<BB>) -> Seq<BBView> {
    bbs.map_values(|b: BB| b@)
}

impl View for Item {
    type V = ItemView;

    open spec fn view(&self) -> ItemView {
        ItemView { name: self.name@, body: blocks_view(self.body@) }
    }
}

/// The entry block is its own dominator; every other block is dominated by
/// an earlier one.
pub open spec fn wf_doms(bbs: Seq<BBView>) -> bool {
    &&& bbs.len() > 0
    &&& bbs[0].idom == 0
    &&& forall|b: int| 0 < b < bbs.len() ==> #[trigger] bbs[b].idom < b
}

/// The number of instructions in the strict dominators of block `b`.
pub open spec fn instr_offset(bbs: Seq<BBView>, b: int) -> int
    decreases b,
{
    if 0 < b < bbs.len() && bbs[b].idom < b {
        let d = bbs[b].idom as int;
        instr_offset(bbs, d) + bbs[d].body.len()
    } else {
        0
    }
}

/// The number of parameters of the strict dominators of block `b`.
pub open spec fn param_offset(bbs: Seq<BBView>, b: int) -> int
    decreases b,
{
    if 0 < b < bbs.len() && bbs[b].idom < b {
        let d = bbs[b].idom as int;
        param_offset(bbs, d) + bbs[d].n_params
    } else {
        0
    }
}

/// The number that names instruction `i` of block `b`.
pub open spec fn instr_number(bbs: Seq<BBView>, b: int, i: int) -> int {
    instr_offset(bbs, b) + i
}

/// The number that names parameter `p` of block `b`.
pub open spec fn param_number(bbs: Seq<BBView>, b: int, p: int) -> int {
    -1 - (param_offset(bbs, b) + p)
}

/// Block `a` is block `b` or one of its dominators.
pub open spec fn dominates(bbs: Seq<BBView>, a: int, b: int) -> bool
    decreases b,
{
    if a == b {
        true
    } else if 0 < b < bbs.len() && bbs[b].idom < b {
        dominates(bbs, a, bbs[b].idom as int)
    } else {
        false
    }
}

pub proof fn lemma_offsets_nonneg(bbs: Seq<BBView>, b: int)
    ensures
        instr_offset(bbs, b) >= 0,
        param_offset(bbs, b) >= 0,
    decreases b,
{
    if 0 < b < bbs.len() && bbs[b].idom < b {
        lemma_offsets_nonneg(bbs, bbs[b].idom as int);
    }
}

/// A strict dominator's slots all come before those of the blocks it
/// dominates.
pub proof fn lemma_dominator_offsets(bbs: Seq<BBView>, a: int, b: int)
    requires
        dominates(bbs, a, b),
        a != b,
        0 <= a,
    ensures
        instr_offset(bbs, b) >= instr_offset(bbs, a) + bbs[a].body.len(),
        param_offset(bbs, b) >= param_offset(bbs, a) + bbs[a].n_params,
    decreases b,
{
    let d = bbs[b].idom as int;
    if d != a {
        lemma_dominator_offsets(bbs, a, d);
    }
    lemma_offsets_nonneg(bbs, d);
}

/// Two distinct instruction slots, one in a block and one in a block it
/// dominates (or the same block), are named by distinct numbers; so are two
/// distinct parameter slots; and no parameter shares a number with an
/// instruction.
pub proof fn lemma_numbering_unique(bbs: Seq<BBView>, a: int, i: int, b: int, j: int)
    requires
        wf_doms(bbs),
        0 <= a < bbs.len(),
        0 <= b < bbs.len(),
        dominates(bbs, a, b),
        0 <= i,
        0 <= j,
    ensures
        (a != b || i != j) && i < bbs[a].body.len() && j < bbs[b].body.len() ==> instr_number(
            bbs,
            a,
            i,
        ) != instr_number(bbs, b, j),
        (a != b || i != j) && i < bbs[a].n_params && j < bbs[b].n_params ==> param_number(
            bbs,
            a,
            i,
        ) != param_number(bbs, b, j),
        param_number(bbs, a, i) < 0 <= instr_number(bbs, b, j),
        param_number(bbs, b, j) < 0 <= instr_number(bbs, a, i),
{
    lemma_offsets_nonneg(bbs, a);
    lemma_offsets_nonneg(bbs, b);
    if a != b {
        lemma_dominator_offsets(bbs, a, b);
    }
}

impl Item {
    /// The number of instruction `instr` of block `bb`, or `None` when it
    /// does not fit in an `i32`.
    pub fn instr_checked(&self, bb: usize, instr: usize) -> (r: Option<Value>)
        requires
            wf_doms(self@.body),
            bb < self@.body.len(),
        ensures
            r == (if instr_number(self@.body, bb as int, instr as int) <= i32::MAX {
                Some(Value(instr_number(self@.body, bb as int, instr as int) as i32))
            } else {
                None
            }),
    {
        let ghost bbs = self@.body;
        if instr > i32::MAX as usize {
            proof { lemma_offsets_nonneg(bbs, bb as int); }
            return None;
        }
        let mut b = bb;
        let mut acc = instr;
        while self.body[b].idom != b
            invariant
                bbs == self@.body,
                wf_doms(bbs),
                b < bbs.len(),
                acc <= i32::MAX,
                acc + instr_offset(bbs, b as int) == instr_number(bbs, bb as int, instr as int),
            decreases b,
        {
            let d = self.body[b].idom;
            assert(bbs[b as int].idom == d);
            assert(b > 0);
            let n = self.body[d].body.len();
            assert(bbs[d as int].body.len() == n);
            if n > i32::MAX as usize - acc {
                proof { lemma_offsets_nonneg(bbs, d as int); }
                return None;
            }
            acc = acc + n;
            b = d;
        }
        assert(b == 0) by {
            if b != 0 {
                assert(bbs[b as int].idom < b);
            }
        }
        Some(Value(acc as i32))
    }

    /// The number of parameter `param` of block `bb`, or `None` when it does
    /// not fit in an `i32`.
    pub fn param_checked(&self, bb: usize, param: usize) -> (r: Option<Value>)
        requires
            wf_doms(self@.body),
            bb < self@.body.len(),
        ensures
            r == (if param_number(self@.body, bb as int, param as int) >= i32::MIN {
                Some(Value(param_number(self@.body, bb as int, param as int) as i32))
            } else {
                None
            }),
    {
        let ghost bbs = self@.body;
        if param > i32::MAX as usize {
            proof { lemma_offsets_nonneg(bbs, bb as int); }
            return None;
        }
        let mut b = bb;
        let mut acc = param;
        while self.body[b].idom != b
            invariant
                bbs == self@.body,
                wf_doms(bbs),
                b < bbs.len(),
                acc <= i32::MAX,
                acc + param_offset(bbs, b as int) == param_offset(bbs, bb as int) + param,
            decreases b,
        {
            let d = self.body[b].idom;
            assert(bbs[b as int].idom == d);
            assert(b > 0);
            let n = self.body[d].n_params;
            if n > i32::MAX as usize - acc {
                proof { lemma_offsets_nonneg(bbs, d as int); }
                return None;
            }
            acc = acc + n;
            b = d;
        }
        assert(b == 0) by {
            if b != 0 {
                assert(bbs[b as int].idom < b);
            }
        }
        Some(Value(-1i32 - acc as i32))
    }

    /// The number of parameter `param` of block `bb`.
    pub fn param(&self, bb: usize, param: usize) -> (r: Value)
        requires
            wf_doms(self@.body),
            bb < self@.body.len(),
            param_number(self@.body, bb as int, param as int) >= i32::MIN,
        ensures
            r.0 == param_number(self@.body, bb as int, param as int),
    {
        proof { lemma_offsets_nonneg(self@.body, bb as int); }
        match self.param_checked(bb, param) {
            Some(v) => v,
            None => Value(0),
        }
    }

    /// The number of instruction `instr` of block `bb`.
    pub fn instr(&self, bb: usize, instr: usize) -> (r: Value)
        requires
            wf_doms(self@.body),
            bb < self@.body.len(),
            instr_number(self@.body, bb as int, instr as int) <= i32::MAX,
        ensures
            r.0 == instr_number(self@.body, bb as int, instr as int),
    {
        proof { lemma_offsets_nonneg(self@.body, bb as int); }
        match self.instr_checked(bb, instr) {
            Some(v) => v,
            None => Value(0),
        }
    }
}

} // verus!
