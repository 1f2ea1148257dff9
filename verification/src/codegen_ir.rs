//! The register IR that CIL stack code is lowered to, and its optimiser.
use crate::cil::{cil_lowered, cil_temps, CILOp};
use vstd::prelude::*;

verus! {

/// A variable of the IR: one of an unbounded set of integer registers.
#[derive(Debug, PartialEq, Eq, Clone, Copy, Structural)]
pub enum IrVar {
    IReg(usize),
}

/// One operation of the IR. Two-operand arithmetic names its destination first
/// (`Add(to, increment)`); the x86-64 encoding of `Mul(multiplicand, multiplier)`
/// writes the multiplier, see `encode_op`.
#[derive(Debug, Clone, Copy, PartialEq, Eq, Structural)]
pub enum IrOp {
    Add(IrVar, IrVar),
    Sub(IrVar, IrVar),
    Mul(IrVar, IrVar),
    Mov(IrVar, IrVar),
    Pop(IrVar),
    Push(IrVar),
    Return(IrVar),
    Nop,
}

/// A state of the IR read as a stack machine: the operand stack (top last), the value
/// of each variable, and the value returned once a `Return` has run.
pub type IrState = (Seq<int>, spec_fn(IrVar) -> int, Option<int>);

/// `env` with variable `v` set to `x`.
pub open spec fn assign(env: spec_fn(IrVar) -> int, v: IrVar, x: int) -> spec_fn(IrVar) -> int {
    |w: IrVar| if w == v { x } else { env(w) }
}

/// One step of the stack machine: `Push` pushes a variable's value, `Pop` pops into a
/// variable, `Mov(source, target)` copies, two-operand arithmetic updates its first
/// operand with its second, `Return` records its operand's value, `Nop` does nothing.
pub open spec fn ir_step(st: IrState, op: IrOp) -> IrState {
    let (stack, env, ret) = st;
    match op {
        IrOp::Push(v) => (stack.push(env(v)), env, ret),
        IrOp::Pop(v) => (stack.drop_last(), assign(env, v, stack.last()), ret),
        IrOp::Mov(source, target) => (stack, assign(env, target, env(source)), ret),
        IrOp::Add(a, b) => (stack, assign(env, a, env(a) + env(b)), ret),
        IrOp::Sub(a, b) => (stack, assign(env, a, env(a) - env(b)), ret),
        IrOp::Mul(a, b) => (stack, assign(env, a, env(a) * env(b)), ret),
        IrOp::Return(v) => (stack, env, Some(env(v))),
        IrOp::Nop => st,
    }
}

/// The stack machine run over `ops` in order, from `st`.
pub open spec fn ir_run(st: IrState, ops: Seq<IrOp>) -> IrState
    decreases ops.len(),
{
    if ops.len() == 0 {
        st
    } else {
        ir_step(ir_run(st, ops.drop_last()), ops.last())
    }
}

/// `v` with `var` replaced by `alias`.
pub open spec fn renamed(v: IrVar, var: IrVar, alias: IrVar) -> IrVar {
    if v == var {
        alias
    } else {
        v
    }
}

/// `op` with every occurrence of `var` replaced by `alias`.
pub open spec fn op_renamed(op: IrOp, var: IrVar, alias: IrVar) -> IrOp {
    match op {
        IrOp::Add(a, b) => IrOp::Add(renamed(a, var, alias), renamed(b, var, alias)),
        IrOp::Sub(a, b) => IrOp::Sub(renamed(a, var, alias), renamed(b, var, alias)),
        IrOp::Mul(a, b) => IrOp::Mul(renamed(a, var, alias), renamed(b, var, alias)),
        IrOp::Mov(a, b) => IrOp::Mov(renamed(a, var, alias), renamed(b, var, alias)),
        IrOp::Pop(a) => IrOp::Pop(renamed(a, var, alias)),
        IrOp::Push(a) => IrOp::Push(renamed(a, var, alias)),
        IrOp::Return(a) => IrOp::Return(renamed(a, var, alias)),
        IrOp::Nop => IrOp::Nop,
    }
}

/// Whether `var` is an operand of `op`.
pub open spec fn op_uses(op: IrOp, var: IrVar) -> bool {
    match op {
        IrOp::Add(a, b) => a == var || b == var,
        IrOp::Sub(a, b) => a == var || b == var,
        IrOp::Mul(a, b) => a == var || b == var,
        IrOp::Mov(a, b) => a == var || b == var,
        IrOp::Pop(a) => a == var,
        IrOp::Push(a) => a == var,
        IrOp::Return(a) => a == var,
        IrOp::Nop => false,
    }
}

/// Whether `op` does anything: it is not a `Nop` and not a move of a variable to itself.
pub open spec fn op_meaningful(op: IrOp) -> bool {
    match op {
        IrOp::Nop => false,
        IrOp::Mov(a, b) => a != b,
        _ => true,
    }
}

/// Every operation of `ops` with `var` replaced by `alias`.
pub open spec fn rename_all(ops: Seq<IrOp>, var: IrVar, alias: IrVar) -> Seq<IrOp> {
    ops.map_values(|op: IrOp| op_renamed(op, var, alias))
}

/// Whether some operation strictly after position `pos` uses `var`.
pub open spec fn used_after(ops: Seq<IrOp>, var: IrVar, pos: int) -> bool {
    exists|j: int| pos < j < ops.len() && #[trigger] op_uses(ops[j], var)
}

/// The push/pop pairs that `push_pop_inline` finds, scanning `ops` from position `k`.
/// `pending` is the source of the last `Push` seen since the last pair closed, with its
/// position. A `Push` opens or replaces the pending source; the next `Pop` closes it,
/// giving (popped variable, pushed variable, push position, pop position).
pub open spec fn push_pop_pairs(
    ops: Seq<IrOp>,
    k: int,
    pending: Option<(IrVar, usize)>,
) -> Seq<(IrVar, IrVar, usize, usize)>
    decreases ops.len() - k,
{
    if k < 0 || k >= ops.len() {
        Seq::empty()
    } else {
        match pending {
            None => match ops[k] {
                IrOp::Push(v) => push_pop_pairs(ops, k + 1, Some((v, k as usize))),
                _ => push_pop_pairs(ops, k + 1, None),
            },
            Some((src, s)) => match ops[k] {
                IrOp::Pop(dst) => seq![(dst, src, s, k as usize)] + push_pop_pairs(
                    ops,
                    k + 1,
                    None,
                ),
                IrOp::Push(v) => push_pop_pairs(ops, k + 1, Some((v, k as usize))),
                _ => push_pop_pairs(ops, k + 1, pending),
            },
        }
    }
}

/// One inlined pair: the popped variable becomes the pushed one everywhere,
/// and the push and the pop become `Nop`.
pub open spec fn inline_pair(ops: Seq<IrOp>, q: (IrVar, IrVar, usize, usize)) -> Seq<IrOp> {
    rename_all(ops, q.0, q.1).update(q.2 as int, IrOp::Nop).update(q.3 as int, IrOp::Nop)
}

/// The pairs `qs` inlined one after the other, in order.
pub open spec fn inline_pairs(ops: Seq<IrOp>, qs: Seq<(IrVar, IrVar, usize, usize)>) -> Seq<
    IrOp,
>
    decreases qs.len(),
{
    if qs.len() == 0 {
        ops
    } else {
        inline_pairs(inline_pair(ops, qs[0]), qs.drop_first())
    }
}

/// What `push_pop_inline` makes of `ops`.
pub open spec fn push_pop_inlined(ops: Seq<IrOp>) -> Seq<IrOp> {
    inline_pairs(ops, push_pop_pairs(ops, 0, None))
}

/// The moves that `unneded_move_inline` removes, scanning from position `k`:
/// a `Mov(src, dst)` whose source is not used after it gives the renaming (src, dst).
pub open spec fn move_renames(ops: Seq<IrOp>, k: int) -> Seq<(IrVar, IrVar)>
    decreases ops.len() - k,
{
    if k < 0 || k >= ops.len() {
        Seq::empty()
    } else {
        match ops[k] {
            IrOp::Mov(src, dst) => if !used_after(ops, src, k) {
                seq![(src, dst)] + move_renames(ops, k + 1)
            } else {
                move_renames(ops, k + 1)
            },
            _ => move_renames(ops, k + 1),
        }
    }
}

/// The renamings `rs` applied one after the other: each target is replaced by its source.
pub open spec fn apply_renames(ops: Seq<IrOp>, rs: Seq<(IrVar, IrVar)>) -> Seq<IrOp>
    decreases rs.len(),
{
    if rs.len() == 0 {
        ops
    } else {
        apply_renames(rename_all(ops, rs[0].1, rs[0].0), rs.drop_first())
    }
}

/// What `unneded_move_inline` makes of `ops`.
pub open spec fn moves_inlined(ops: Seq<IrOp>) -> Seq<IrOp> {
    apply_renames(ops, move_renames(ops, 0))
}

/// The meaningful operations of `ops`, in order.
pub open spec fn meaningful_only(ops: Seq<IrOp>) -> Seq<IrOp> {
    ops.filter(|op: IrOp| op_meaningful(op))
}

/// One round of the optimiser.
pub open spec fn optimize_round(ops: Seq<IrOp>) -> Seq<IrOp> {
    meaningful_only(moves_inlined(push_pop_inlined(ops)))
}

/// Rounds of the optimiser, repeated for as long as a round makes the code
/// shorter than `last`.
pub open spec fn optimized_from(ops: Seq<IrOp>, last: nat) -> Seq<IrOp>
    decreases last,
{
    let o = optimize_round(ops);
    if o.len() < last {
        optimized_from(o, o.len())
    } else {
        o
    }
}

/// What `optimize_ir` makes of `ops`.
pub open spec fn optimized(ops: Seq<IrOp>) -> Seq<IrOp> {
    optimized_from(ops, ops.len())
}

impl IrVar {
    fn alias(&mut self, var: IrVar, alias: IrVar)
        ensures
            *final(self) == renamed(*old(self), var, alias),
    {
        (*self) = if (*self) == var {
            alias
        } else {
            *self
        };
    }
}

impl IrOp {
    /// Replaces internal references to var with an alias.
    fn alias_variable(&mut self, var: IrVar, alias: IrVar)
        ensures
            *final(self) == op_renamed(*old(self), var, alias),
    {
        match self {
            IrOp::Add(val, addend) => {
                val.alias(var, alias);
                addend.alias(var, alias);
            },
            IrOp::Sub(val, subtrahend) => {
                val.alias(var, alias);
                subtrahend.alias(var, alias);
            },
            IrOp::Mul(multiplicand, multiplier) => {
                multiplicand.alias(var, alias);
                multiplier.alias(var, alias);
            },
            IrOp::Mov(source, target) => {
                source.alias(var, alias);
                target.alias(var, alias);
            },
            IrOp::Push(src) => src.alias(var, alias),
            IrOp::Pop(dst) => dst.alias(var, alias),
            IrOp::Return(ret) => ret.alias(var, alias),
            IrOp::Nop => (),
        }
    }

    /// Checks if a variable is used by this instruction
    fn uses_variable(&self, var: IrVar) -> (r: bool)
        ensures
            r == op_uses(*self, var),
    {
        match self {
            IrOp::Add(val, addend) => *val == var || *addend == var,
            IrOp::Sub(val, subtrahend) => *val == var || *subtrahend == var,
            IrOp::Mul(multiplicand, multiplier) => *multiplicand == var || *multiplier == var,
            IrOp::Mov(source, target) => *source == var || *target == var,
            IrOp::Push(src) => *src == var,
            IrOp::Pop(dst) => *dst == var,
            IrOp::Return(ret) => *ret == var,
            IrOp::Nop => false,
        }
    }

    /// Checks whether this instruction does anything (is not equivalent to a Nop).
    fn is_meanigfull(&self) -> (r: bool)
        ensures
            r == op_meaningful(*self),
    {
        match self {
            IrOp::Nop => false,
            IrOp::Mov(src, target) => *src != *target,
            _ => true,
        }
    }
}

/// Replaces one variable with another.
fn alias_variable(ops: &mut [IrOp], var: IrVar, alias: IrVar)
    ensures
        final(ops)@ == rename_all(old(ops)@, var, alias),
        var != alias ==> forall|j: int|
            0 <= j < final(ops)@.len() ==> !op_uses(#[trigger] final(ops)@[j], var),
{
    let n = ops.len();
    for i in 0..n
        invariant
            n == ops@.len(),
            n == old(ops)@.len(),
            forall|j: int| 0 <= j < i ==> ops@[j] == op_renamed(old(ops)@[j], var, alias),
            forall|j: int| i <= j < n ==> ops@[j] == old(ops)@[j],
    {
        let mut op = ops[i];
        op.alias_variable(var, alias);
        ops[i] = op;
    }
    assert(ops@ =~= rename_all(old(ops)@, var, alias));
}


fn is_var_used_after(ops: &Vec<IrOp>, var: IrVar, pos: usize) -> (r: bool)
    requires
        pos < usize::MAX,
    ensures
        r == used_after(ops@, var, pos as int),
{
    let mut j = pos + 1;
    while j < ops.len()
        invariant
            pos < j,
            forall|k: int| pos < k < j && k < ops@.len() ==> !op_uses(ops@[k], var),
        decreases ops.len() - j,
    {
        if ops[j].uses_variable(var) {
            return true;
        }
        j += 1;
    }
    false
}

/// The pairs found by the scan are in bounds, each push before its pop.
proof fn lemma_push_pop_pairs_bounds(ops: Seq<IrOp>, k: int, pending: Option<(IrVar, usize)>)
    requires
        0 <= k,
        ops.len() <= usize::MAX,
        pending matches Some((_, s)) ==> s < k,
    ensures
        forall|t: int|
            0 <= t < push_pop_pairs(ops, k, pending).len() ==> {
                let q = #[trigger] push_pop_pairs(ops, k, pending)[t];
                q.2 < q.3 < ops.len()
            },
    decreases ops.len() - k,
{
    if k < ops.len() {
        let all = push_pop_pairs(ops, k, pending);
        if let (Some((src, s)), IrOp::Pop(dst)) = (pending, ops[k]) {
            lemma_push_pop_pairs_bounds(ops, k + 1, None);
            let rest = push_pop_pairs(ops, k + 1, None);
            assert forall|t: int| 0 <= t < all.len() implies {
                let q = #[trigger] all[t];
                q.2 < q.3 < ops.len()
            } by {
                if t > 0 {
                    assert(all[t] == rest[t - 1]);
                }
            }
        } else {
            let next = match ops[k] {
                IrOp::Push(v) => Some((v, k as usize)),
                _ => pending,
            };
            assert(all == push_pop_pairs(ops, k + 1, next));
            lemma_push_pop_pairs_bounds(ops, k + 1, next);
        }
    }
}

/// Inlines each push/pop pair: the popped variable becomes the pushed one everywhere,
/// and the push and the pop become `Nop`.
fn push_pop_inline(ops: &mut Vec<IrOp>)
    ensures
        final(ops)@ == push_pop_inlined(old(ops)@),
        final(ops)@.len() == old(ops)@.len(),
{
    let ghost orig = ops@;
    let mut aliases: Vec<(IrVar, IrVar, usize, usize)> = Vec::new();
    let mut pending: Option<(IrVar, usize)> = None;
    let mut index: usize = 0;
    while index < ops.len()
        invariant
            ops@ == orig,
            index <= ops@.len(),
            pending matches Some((_, s)) ==> s < index,
            aliases@ + push_pop_pairs(orig, index as int, pending) == push_pop_pairs(orig, 0, None),
        decreases ops.len() - index,
    {
        let ghost before = push_pop_pairs(orig, index as int, pending);
        match pending {
            None => match ops[index] {
                IrOp::Push(src) => {
                    pending = Some((src, index));
                },
                _ => {},
            },
            Some((src, src_index)) => match ops[index] {
                IrOp::Pop(dst) => {
                    aliases.push((dst, src, src_index, index));
                    pending = None;
                    assert(aliases@ + push_pop_pairs(orig, index + 1, pending) =~= push_pop_pairs(
                        orig,
                        0,
                        None,
                    ));
                },
                IrOp::Push(new_src) => {
                    pending = Some((new_src, index));
                },
                _ => {},
            },
        }
        index += 1;
    }
    proof {
        lemma_push_pop_pairs_bounds(orig, 0, None);
    }
    let n = ops.len();
    let ghost qs = aliases@;
    assert(qs.skip(0) =~= qs);
    for t in 0..aliases.len()
        invariant
            qs == aliases@,
            qs == push_pop_pairs(orig, 0, None),
            n == orig.len(),
            ops@.len() == n,
            forall|u: int| 0 <= u < qs.len() ==> (#[trigger] qs[u]).2 < qs[u].3 < n,
            inline_pairs(ops@, qs.skip(t as int)) == push_pop_inlined(orig),
    {
        let alias = aliases[t];
        let ghost cur = ops@;
        alias_variable(ops, alias.0, alias.1);
        ops.set(alias.2, IrOp::Nop);
        ops.set(alias.3, IrOp::Nop);
        assert(ops@ == inline_pair(cur, qs[t as int]));
        assert(qs.skip(t as int).drop_first() =~= qs.skip(t + 1));
    }
    assert(qs.skip(qs.len() as int) =~= Seq::<(IrVar, IrVar, usize, usize)>::empty());
}


fn unneded_move_inline(ops: &mut Vec<IrOp>)
    ensures
        final(ops)@ == moves_inlined(old(ops)@),
{
    let ghost orig = ops@;
    let mut aliases: Vec<(IrVar, IrVar)> = Vec::new();
    let mut index: usize = 0;
    while index < ops.len()
        invariant
            ops@ == orig,
            index <= ops@.len(),
            aliases@ + move_renames(orig, index as int) == move_renames(orig, 0),
        decreases ops.len() - index,
    {
        match ops[index] {
            IrOp::Mov(src, dst) => {
                if !is_var_used_after(ops, src, index) {
                    aliases.push((src, dst));
                    assert(aliases@ + move_renames(orig, index + 1) =~= move_renames(orig, 0));
                }
            },
            _ => {},
        }
        index += 1;
    }
    let ghost rs = aliases@;
    assert(rs.skip(0) =~= rs);
    for t in 0..aliases.len()
        invariant
            rs == aliases@,
            rs == move_renames(orig, 0),
            apply_renames(ops@, rs.skip(t as int)) == moves_inlined(orig),
    {
        let alias = aliases[t];
        //reverse order of tuple because source (alias.0) becomes overrides target (alias.1)
        alias_variable(ops, alias.1, alias.0);
        assert(rs.skip(t as int).drop_first() =~= rs.skip(t + 1));
    }
    assert(rs.skip(rs.len() as int) =~= Seq::<(IrVar, IrVar)>::empty());
}

proof fn lemma_inline_pairs_len(ops: Seq<IrOp>, qs: Seq<(IrVar, IrVar, usize, usize)>)
    requires
        forall|u: int| 0 <= u < qs.len() ==> (#[trigger] qs[u]).2 < qs[u].3 < ops.len(),
    ensures
        inline_pairs(ops, qs).len() == ops.len(),
    decreases qs.len(),
{
    if qs.len() > 0 {
        let next = inline_pair(ops, qs[0]);
        assert(next.len() == ops.len());
        assert forall|u: int| 0 <= u < qs.drop_first().len() implies (
        #[trigger] qs.drop_first()[u]).2 < qs.drop_first()[u].3 < next.len() by {
            assert(qs.drop_first()[u] == qs[u + 1]);
        }
        lemma_inline_pairs_len(next, qs.drop_first());
    }
}

proof fn lemma_apply_renames_len(ops: Seq<IrOp>, rs: Seq<(IrVar, IrVar)>)
    ensures
        apply_renames(ops, rs).len() == ops.len(),
    decreases rs.len(),
{
    if rs.len() > 0 {
        lemma_apply_renames_len(rename_all(ops, rs[0].1, rs[0].0), rs.drop_first());
    }
}

/// A round of the optimiser never lengthens the code and leaves only meaningful operations.
proof fn lemma_optimize_round(ops: Seq<IrOp>)
    requires
        ops.len() <= usize::MAX,
    ensures
        optimize_round(ops).len() <= ops.len(),
        forall|i: int|
            0 <= i < optimize_round(ops).len() ==> op_meaningful(#[trigger] optimize_round(ops)[i]),
{
    broadcast use vstd::seq_lib::group_filter_ensures;

    lemma_push_pop_pairs_bounds(ops, 0, None);
    lemma_inline_pairs_len(ops, push_pop_pairs(ops, 0, None));
    let pp = push_pop_inlined(ops);
    lemma_apply_renames_len(pp, move_renames(pp, 0));
    let mv = moves_inlined(pp);
    let pred = |op: IrOp| op_meaningful(op);
    assert forall|i: int| 0 <= i < optimize_round(ops).len() implies op_meaningful(
        #[trigger] optimize_round(ops)[i],
    ) by {
        assert(pred(mv.filter(pred)[i]));
    }
}

/// Whatever the bound, the optimiser's result is no longer than its input and holds
/// only meaningful operations.
proof fn lemma_optimized_from(ops: Seq<IrOp>, last: nat)
    requires
        ops.len() <= usize::MAX,
    ensures
        optimized_from(ops, last).len() <= ops.len(),
        forall|i: int|
            0 <= i < optimized_from(ops, last).len() ==> op_meaningful(
                #[trigger] optimized_from(ops, last)[i],
            ),
    decreases last,
{
    lemma_optimize_round(ops);
    let o = optimize_round(ops);
    if o.len() < last {
        lemma_optimized_from(o, o.len());
    }
}

/// A state in which every variable holds a distinct value of at least 2, the stack
/// holds one value and nothing has been returned.
spec fn probe_state() -> IrState {
    (seq![0int], |v: IrVar| reg_value(v), None)
}

spec fn reg_value(v: IrVar) -> int {
    match v {
        IrVar::IReg(n) => n + 2,
    }
}

/// The operations that the optimiser drops are exactly those that cannot change the
/// machine's state: an operation that is not meaningful leaves every state as it is,
/// and every meaningful one changes some state (so `Add(a, a)`, which doubles `a`, is kept).
pub proof fn lemma_meaningful_iff_changes_state(op: IrOp)
    ensures
        !op_meaningful(op) ==> forall|st: IrState| #[trigger] ir_step(st, op) == st,
        op_meaningful(op) ==> exists|st: IrState| #[trigger] ir_step(st, op) != st,
{
    if !op_meaningful(op) {
        assert forall|st: IrState| #[trigger] ir_step(st, op) == st by {
            match op {
                IrOp::Mov(a, b) => {
                    assert(assign(st.1, b, st.1(a)) =~= st.1);
                },
                _ => {},
            }
        }
    } else {
        let st = probe_state();
        let env = st.1;
        match op {
            IrOp::Push(v) => assert(ir_step(st, op).0.len() != st.0.len()),
            IrOp::Pop(v) => assert(ir_step(st, op).0.len() != st.0.len()),
            IrOp::Return(v) => assert(ir_step(st, op).2 != st.2),
            IrOp::Mov(a, b) => {
                assert(ir_step(st, op).1(b) != env(b));
            },
            IrOp::Add(a, b) => {
                assert(ir_step(st, op).1(a) != env(a));
            },
            IrOp::Sub(a, b) => {
                assert(ir_step(st, op).1(a) != env(a));
            },
            IrOp::Mul(a, b) => {
                let x = env(a);
                let y = env(b);
                assert(x * y != x) by (nonlinear_arith)
                    requires
                        x >= 2,
                        y >= 2,
                ;
                assert(ir_step(st, op).1(a) != env(a));
            },
            IrOp::Nop => {},
        }
        assert(ir_step(st, op) != st);
    }
}

/// An operation that does not name `v` neither reads nor writes it: run from a state
/// in which `v` has been set to `x`, it gives what it gives without that, with `v`
/// still holding `x`.
pub proof fn lemma_unnamed_var_untouched(op: IrOp, v: IrVar, st: IrState, x: int)
    requires
        !op_uses(op, v),
    ensures
        ({
            let after = ir_step(st, op);
            let after_x = ir_step((st.0, assign(st.1, v, x), st.2), op);
            &&& after_x.0 == after.0
            &&& after_x.2 == after.2
            &&& after_x.1 == assign(after.1, v, x)
        }),
{
    let env = st.1;
    let env_x = assign(env, v, x);
    let after = ir_step(st, op);
    let after_x = ir_step((st.0, env_x, st.2), op);
    match op {
        IrOp::Pop(w) => {
            assert(assign(env_x, w, st.0.last()) =~= assign(assign(env, w, st.0.last()), v, x));
        },
        IrOp::Mov(a, b) => {
            assert(assign(env_x, b, env_x(a)) =~= assign(assign(env, b, env(a)), v, x));
        },
        IrOp::Add(a, b) => {
            assert(assign(env_x, a, env_x(a) + env_x(b)) =~= assign(
                assign(env, a, env(a) + env(b)),
                v,
                x,
            ));
        },
        IrOp::Sub(a, b) => {
            assert(assign(env_x, a, env_x(a) - env_x(b)) =~= assign(
                assign(env, a, env(a) - env(b)),
                v,
                x,
            ));
        },
        IrOp::Mul(a, b) => {
            assert(assign(env_x, a, env_x(a) * env_x(b)) =~= assign(
                assign(env, a, env(a) * env(b)),
                v,
                x,
            ));
        },
        _ => {},
    }
}

proof fn lemma_move_renames_dead_from(ops: Seq<IrOp>, j: int, t: int)
    requires
        0 <= j,
        0 <= t < move_renames(ops, j).len(),
    ensures
        exists|k: int|
            j <= k < ops.len() && ops[k] == IrOp::Mov(
                move_renames(ops, j)[t].0,
                move_renames(ops, j)[t].1,
            ) && forall|i: int| k < i < ops.len() ==> !op_uses(#[trigger] ops[i], move_renames(ops, j)[t].0),
    decreases ops.len() - j,
{
    if j < ops.len() {
        let rest = move_renames(ops, j + 1);
        match ops[j] {
            IrOp::Mov(src, dst) => {
                if !used_after(ops, src, j) {
                    if t == 0 {
                        assert(forall|i: int| j < i < ops.len() ==> !op_uses(#[trigger] ops[i], src));
                    } else {
                        assert(move_renames(ops, j)[t] == rest[t - 1]);
                        lemma_move_renames_dead_from(ops, j + 1, t - 1);
                    }
                } else {
                    lemma_move_renames_dead_from(ops, j + 1, t);
                }
            },
            _ => lemma_move_renames_dead_from(ops, j + 1, t),
        }
    }
}

/// Each move that the optimiser inlines copies a variable that no later operation names,
/// so (by `lemma_unnamed_var_untouched`) no later operation reads or writes it.
pub proof fn lemma_inlined_moves_have_dead_sources(ops: Seq<IrOp>, t: int)
    requires
        0 <= t < move_renames(ops, 0).len(),
    ensures
        exists|k: int|
            0 <= k < ops.len() && ops[k] == IrOp::Mov(
                move_renames(ops, 0)[t].0,
                move_renames(ops, 0)[t].1,
            ) && forall|i: int| k < i < ops.len() ==> !op_uses(#[trigger] ops[i], move_renames(ops, 0)[t].0),
{
    lemma_move_renames_dead_from(ops, 0, t);
}

/// Renaming a variable that an operation does not name leaves the operation as it is.
proof fn lemma_rename_unnamed(op: IrOp, var: IrVar, alias: IrVar)
    requires
        !op_uses(op, var),
    ensures
        op_renamed(op, var, alias) == op,
{
}

/// How the states of a code and of its copy with `d` renamed to `s` correspond once the
/// move `Mov(s, d)` has run: the copy holds in `s` what the code holds in `d`, and
/// every other variable but `s`, the stack and the returned value agree.
pub open spec fn renamed_states_agree(o: IrState, r: IrState, s: IrVar, d: IrVar) -> bool {
    &&& r.0 == o.0
    &&& r.2 == o.2
    &&& r.1(s) == o.1(d)
    &&& forall|v: IrVar| v != s && v != d ==> #[trigger] r.1(v) == o.1(v)
}

proof fn lemma_renamed_step(o: IrState, r: IrState, op: IrOp, s: IrVar, d: IrVar)
    requires
        s != d,
        !op_uses(op, s),
        renamed_states_agree(o, r, s, d),
    ensures
        renamed_states_agree(ir_step(o, op), ir_step(r, op_renamed(op, d, s)), s, d),
{
    let o2 = ir_step(o, op);
    let r2 = ir_step(r, op_renamed(op, d, s));
    // What the copy reads from a variable named by `op` is what the code reads.
    assert(forall|v: IrVar| v != s ==> #[trigger] r.1(renamed(v, d, s)) == o.1(v));
    match op {
        IrOp::Push(a) => {},
        IrOp::Return(a) => {},
        IrOp::Nop => {},
        IrOp::Pop(a) => {
            assert forall|v: IrVar| v != s && v != d implies #[trigger] r2.1(v) == o2.1(v) by {}
        },
        IrOp::Mov(a, b) => {
            assert forall|v: IrVar| v != s && v != d implies #[trigger] r2.1(v) == o2.1(v) by {}
        },
        IrOp::Add(a, b) => {
            assert(r.1(renamed(a, d, s)) == o.1(a));
            assert(r.1(renamed(b, d, s)) == o.1(b));
            assert forall|v: IrVar| v != s && v != d implies #[trigger] r2.1(v) == o2.1(v) by {}
        },
        IrOp::Sub(a, b) => {
            assert(r.1(renamed(a, d, s)) == o.1(a));
            assert(r.1(renamed(b, d, s)) == o.1(b));
            assert forall|v: IrVar| v != s && v != d implies #[trigger] r2.1(v) == o2.1(v) by {}
        },
        IrOp::Mul(a, b) => {
            assert(r.1(renamed(a, d, s)) == o.1(a));
            assert(r.1(renamed(b, d, s)) == o.1(b));
            assert forall|v: IrVar| v != s && v != d implies #[trigger] r2.1(v) == o2.1(v) by {}
        },
    }
}

proof fn lemma_renamed_prefix_runs_equal(st: IrState, ops: Seq<IrOp>, d: IrVar, s: IrVar, m: int)
    requires
        0 <= m <= ops.len(),
        forall|j: int| 0 <= j < m ==> !op_uses(#[trigger] ops[j], d),
    ensures
        ir_run(st, rename_all(ops, d, s).take(m)) == ir_run(st, ops.take(m)),
    decreases m,
{
    if m > 0 {
        lemma_renamed_prefix_runs_equal(st, ops, d, s, m - 1);
        let rops = rename_all(ops, d, s);
        assert(rops.take(m).drop_last() =~= rops.take(m - 1));
        assert(ops.take(m).drop_last() =~= ops.take(m - 1));
        lemma_rename_unnamed(ops[m - 1], d, s);
        assert(rops[m - 1] == ops[m - 1]);
    }
}

proof fn lemma_renamed_suffix_runs_agree(
    st: IrState,
    ops: Seq<IrOp>,
    k: int,
    s: IrVar,
    d: IrVar,
    m: int,
)
    requires
        0 <= k < m <= ops.len(),
        ops[k] == IrOp::Mov(s, d),
        s != d,
        forall|j: int| 0 <= j < k ==> !op_uses(#[trigger] ops[j], d),
        forall|j: int| k < j < ops.len() ==> !op_uses(#[trigger] ops[j], s),
    ensures
        renamed_states_agree(
            ir_run(st, ops.take(m)),
            ir_run(st, rename_all(ops, d, s).take(m)),
            s,
            d,
        ),
    decreases m,
{
    let rops = rename_all(ops, d, s);
    assert(rops.take(m).drop_last() =~= rops.take(m - 1));
    assert(ops.take(m).drop_last() =~= ops.take(m - 1));
    if m == k + 1 {
        lemma_renamed_prefix_runs_equal(st, ops, d, s, k);
        let o = ir_run(st, ops.take(k));
        assert(rops[k] == IrOp::Mov(s, s));
        let o2 = ir_step(o, IrOp::Mov(s, d));
        let r2 = ir_step(o, IrOp::Mov(s, s));
        assert(r2.1(s) == o2.1(d));
        assert forall|v: IrVar| v != s && v != d implies #[trigger] r2.1(v) == o2.1(v) by {}
    } else {
        lemma_renamed_suffix_runs_agree(st, ops, k, s, d, m - 1);
        lemma_renamed_step(
            ir_run(st, ops.take(m - 1)),
            ir_run(st, rops.take(m - 1)),
            ops[m - 1],
            s,
            d,
        );
    }
}

/// Inlining a dead move preserves meaning: when `ops[k]` is `Mov(s, d)`, no operation
/// before it names `d` and none after it names `s`, replacing `d` by `s` everywhere
/// leaves what the code returns, and the stack it leaves, unchanged, from any state.
/// (The optimiser inlines only moves whose source no later operation names, see
/// `lemma_inlined_moves_have_dead_sources`.)
pub proof fn lemma_dead_move_inlining_preserves_meaning(
    st: IrState,
    ops: Seq<IrOp>,
    k: int,
    s: IrVar,
    d: IrVar,
)
    requires
        0 <= k < ops.len(),
        ops[k] == IrOp::Mov(s, d),
        s != d,
        forall|j: int| 0 <= j < k ==> !op_uses(#[trigger] ops[j], d),
        forall|j: int| k < j < ops.len() ==> !op_uses(#[trigger] ops[j], s),
    ensures
        ir_run(st, rename_all(ops, d, s)).0 == ir_run(st, ops).0,
        ir_run(st, rename_all(ops, d, s)).2 == ir_run(st, ops).2,
{
    lemma_renamed_suffix_runs_agree(st, ops, k, s, d, ops.len() as int);
    assert(ops.take(ops.len() as int) =~= ops);
    assert(rename_all(ops, d, s).take(ops.len() as int) =~= rename_all(ops, d, s));
}

/// Whether `op` pushes or pops.
pub open spec fn touches_stack(op: IrOp) -> bool {
    op is Push || op is Pop
}

/// Only pushes and pops change the operand stack.
pub proof fn lemma_only_push_pop_touch_stack(op: IrOp, st: IrState)
    requires
        !touches_stack(op),
    ensures
        ir_step(st, op).0 == st.0,
{
}

/// Whether `q` is a matching pair of the stack discipline in `ops`: a push of `q.1` at
/// `q.2`, a pop into `q.0` at `q.3`, and nothing between them that pushes or pops.
pub open spec fn matching_pair(ops: Seq<IrOp>, q: (IrVar, IrVar, usize, usize)) -> bool {
    &&& q.2 < q.3 < ops.len()
    &&& ops[q.2 as int] == IrOp::Push(q.1)
    &&& ops[q.3 as int] == IrOp::Pop(q.0)
    &&& forall|j: int| q.2 < j < q.3 ==> !touches_stack(#[trigger] ops[j])
}

proof fn lemma_push_pop_pairs_match_from(
    ops: Seq<IrOp>,
    k: int,
    pending: Option<(IrVar, usize)>,
    t: int,
)
    requires
        0 <= k,
        ops.len() <= usize::MAX,
        pending matches Some((v, i)) ==> {
            &&& i < k
            &&& ops[i as int] == IrOp::Push(v)
            &&& forall|j: int| i < j < k ==> !touches_stack(#[trigger] ops[j])
        },
        0 <= t < push_pop_pairs(ops, k, pending).len(),
    ensures
        matching_pair(ops, push_pop_pairs(ops, k, pending)[t]),
    decreases ops.len() - k,
{
    let all = push_pop_pairs(ops, k, pending);
    if let (Some((src, s)), IrOp::Pop(dst)) = (pending, ops[k]) {
        if t > 0 {
            assert(all[t] == push_pop_pairs(ops, k + 1, None)[t - 1]);
            lemma_push_pop_pairs_match_from(ops, k + 1, None, t - 1);
        }
    } else {
        let next = match ops[k] {
            IrOp::Push(v) => Some((v, k as usize)),
            _ => pending,
        };
        assert(all == push_pop_pairs(ops, k + 1, next));
        lemma_push_pop_pairs_match_from(ops, k + 1, next, t);
    }
}

/// Each push/pop pair that the optimiser inlines is a matching pair of the stack
/// discipline, so (by `lemma_only_push_pop_touch_stack`) the pop takes exactly the value
/// that the push put on the stack.
pub proof fn lemma_push_pop_pairs_match(ops: Seq<IrOp>, t: int)
    requires
        ops.len() <= usize::MAX,
        0 <= t < push_pop_pairs(ops, 0, None).len(),
    ensures
        matching_pair(ops, push_pop_pairs(ops, 0, None)[t]),
{
    lemma_push_pop_pairs_match_from(ops, 0, None, t);
}

/// The move-inlining pass preserves meaning when it inlines a single move whose target
/// is not named before it: what the code returns, and the stack it leaves, are those of
/// the original code, from any state.
pub proof fn lemma_single_move_inlining_preserves_meaning(st: IrState, ops: Seq<IrOp>)
    requires
        move_renames(ops, 0).len() == 1,
        forall|j: int|
            0 <= j < ops.len() && ops[j] == IrOp::Mov(move_renames(ops, 0)[0].0, move_renames(ops, 0)[0].1)
                ==> forall|i: int| 0 <= i < j ==> !op_uses(#[trigger] ops[i], move_renames(ops, 0)[0].1),
    ensures
        ir_run(st, moves_inlined(ops)).0 == ir_run(st, ops).0,
        ir_run(st, moves_inlined(ops)).2 == ir_run(st, ops).2,
{
    let rs = move_renames(ops, 0);
    let (src, dst) = rs[0];
    assert(rs.drop_first() =~= Seq::<(IrVar, IrVar)>::empty());
    assert(apply_renames(rename_all(ops, dst, src), rs.drop_first()) == rename_all(ops, dst, src));
    assert(moves_inlined(ops) == rename_all(ops, dst, src));
    lemma_inlined_moves_have_dead_sources(ops, 0);
    let k = choose|k: int|
        0 <= k < ops.len() && ops[k] == IrOp::Mov(src, dst) && forall|i: int|
            k < i < ops.len() ==> !op_uses(#[trigger] ops[i], src);
    if src == dst {
        assert(rename_all(ops, dst, src) =~= ops) by {
            assert forall|i: int| 0 <= i < ops.len() implies #[trigger] op_renamed(ops[i], dst, src)
                == ops[i] by {}
        }
    } else {
        lemma_dead_move_inlining_preserves_meaning(st, ops, k, src, dst);
    }
}

/// Whether `op` gives `v` a new value.
pub open spec fn writes(op: IrOp, v: IrVar) -> bool {
    match op {
        IrOp::Pop(a) => a == v,
        IrOp::Mov(_, b) => b == v,
        IrOp::Add(a, _) => a == v,
        IrOp::Sub(a, _) => a == v,
        IrOp::Mul(a, _) => a == v,
        _ => false,
    }
}

/// An operation that does not write `v` leaves its value as it is.
pub proof fn lemma_unwritten_var_kept(op: IrOp, v: IrVar, st: IrState)
    requires
        !writes(op, v),
    ensures
        ir_step(st, op).1(v) == st.1(v),
{
}

/// After the inlined pop: the copy agrees with the code on everything but `d`, and the
/// code holds in `d` what it holds in `s`.
spec fn inlined_states_agree(o: IrState, r: IrState, s: IrVar, d: IrVar) -> bool {
    &&& r.0 == o.0
    &&& r.2 == o.2
    &&& o.1(d) == o.1(s)
    &&& forall|v: IrVar| v != d ==> #[trigger] r.1(v) == o.1(v)
}

proof fn lemma_inlined_step(o: IrState, r: IrState, op: IrOp, s: IrVar, d: IrVar)
    requires
        s != d,
        !writes(op, s),
        !writes(op, d),
        inlined_states_agree(o, r, s, d),
    ensures
        inlined_states_agree(ir_step(o, op), ir_step(r, op_renamed(op, d, s)), s, d),
{
    let o2 = ir_step(o, op);
    let r2 = ir_step(r, op_renamed(op, d, s));
    assert(forall|v: IrVar| #[trigger] r.1(renamed(v, d, s)) == o.1(v));
    lemma_unwritten_var_kept(op, s, o);
    lemma_unwritten_var_kept(op, d, o);
    match op {
        IrOp::Add(a, b) => {
            assert(r.1(renamed(a, d, s)) == o.1(a));
            assert(r.1(renamed(b, d, s)) == o.1(b));
        },
        IrOp::Sub(a, b) => {
            assert(r.1(renamed(a, d, s)) == o.1(a));
            assert(r.1(renamed(b, d, s)) == o.1(b));
        },
        IrOp::Mul(a, b) => {
            assert(r.1(renamed(a, d, s)) == o.1(a));
            assert(r.1(renamed(b, d, s)) == o.1(b));
        },
        IrOp::Mov(a, b) => {
            assert(r.1(renamed(a, d, s)) == o.1(a));
        },
        _ => {},
    }
    assert forall|v: IrVar| v != d implies #[trigger] r2.1(v) == o2.1(v) by {}
}

proof fn lemma_inline_pair_runs(st: IrState, ops: Seq<IrOp>, q: (IrVar, IrVar, usize, usize), m: int)
    requires
        matching_pair(ops, q),
        q.0 != q.1,
        forall|j: int| 0 <= j < q.3 ==> !op_uses(#[trigger] ops[j], q.0),
        forall|j: int| q.2 < j < ops.len() ==> !writes(#[trigger] ops[j], q.1),
        forall|j: int| q.3 < j < ops.len() ==> !writes(#[trigger] ops[j], q.0),
        0 <= m <= ops.len(),
    ensures
        ({
            let o = ir_run(st, ops.take(m));
            let r = ir_run(st, inline_pair(ops, q).take(m));
            &&& m <= q.2 ==> r == o
            &&& q.2 < m <= q.3 ==> o.0 == r.0.push(o.1(q.1)) && o.1 == r.1 && o.2 == r.2
            &&& q.3 < m ==> inlined_states_agree(o, r, q.1, q.0)
        }),
    decreases m,
{
    let (d, s, i, p) = q;
    let i = i as int;
    let p = p as int;
    let rops = inline_pair(ops, q);
    assert(rops.len() == ops.len());
    if m > 0 {
        lemma_inline_pair_runs(st, ops, q, m - 1);
        assert(rops.take(m).drop_last() =~= rops.take(m - 1));
        assert(ops.take(m).drop_last() =~= ops.take(m - 1));
        let j = m - 1;
        let o = ir_run(st, ops.take(j));
        let r = ir_run(st, rops.take(j));
        let op = ops[j];
        if j < i {
            lemma_rename_unnamed(op, d, s);
            assert(rops[j] == op);
        } else if j == i {
            assert(rops[j] == IrOp::Nop);
        } else if j < p {
            lemma_rename_unnamed(op, d, s);
            assert(rops[j] == op);
            assert(!touches_stack(op));
            lemma_unwritten_var_kept(op, s, o);
            let o2 = ir_step(o, op);
            let r2 = ir_step(r, op);
            assert(o2.1 == r2.1);
        } else if j == p {
            assert(rops[j] == IrOp::Nop);
            let o2 = ir_step(o, op);
            assert(o.0.drop_last() =~= r.0);
            assert forall|v: IrVar| v != d implies #[trigger] r.1(v) == o2.1(v) by {}
        } else {
            assert(rops[j] == op_renamed(op, d, s));
            lemma_inlined_step(o, r, op, s, d);
        }
    }
}

/// Inlining a push/pop pair preserves meaning when the pushed variable is not written
/// after the push, the popped variable is not named before the pop nor written after it:
/// the code with the popped variable renamed to the pushed one and the push and pop
/// dropped returns what the code returns and leaves the same stack, from any state.
/// (The pairs the optimiser inlines are matching pairs, see `lemma_push_pop_pairs_match`;
/// where the pushed variable is overwritten before the pop, meaning is not preserved.)
pub proof fn lemma_push_pop_inlining_preserves_meaning(
    st: IrState,
    ops: Seq<IrOp>,
    q: (IrVar, IrVar, usize, usize),
)
    requires
        matching_pair(ops, q),
        q.0 != q.1,
        forall|j: int| 0 <= j < q.3 ==> !op_uses(#[trigger] ops[j], q.0),
        forall|j: int| q.2 < j < ops.len() ==> !writes(#[trigger] ops[j], q.1),
        forall|j: int| q.3 < j < ops.len() ==> !writes(#[trigger] ops[j], q.0),
    ensures
        ir_run(st, inline_pair(ops, q)).0 == ir_run(st, ops).0,
        ir_run(st, inline_pair(ops, q)).2 == ir_run(st, ops).2,
{
    lemma_inline_pair_runs(st, ops, q, ops.len() as int);
    assert(ops.take(ops.len() as int) =~= ops);
    assert(inline_pair(ops, q).take(ops.len() as int) =~= inline_pair(ops, q));
}

/// Renaming a variable to an alias that the operation does not use, and then
/// renaming the alias back, restores the operation.
pub proof fn lemma_rename_round_trip(op: IrOp, var: IrVar, alias: IrVar)
    requires
        !op_uses(op, alias),
    ensures
        op_renamed(op_renamed(op, var, alias), alias, var) == op,
{
}

/// An operation that does nothing still does nothing after a renaming.
proof fn lemma_renamed_not_meaningful(op: IrOp, var: IrVar, alias: IrVar)
    requires
        !op_meaningful(op),
    ensures
        !op_meaningful(op_renamed(op, var, alias)),
{
}

/// Inlining pairs keeps an operation that does nothing doing nothing.
proof fn lemma_inline_pairs_keeps_idle(
    ops: Seq<IrOp>,
    qs: Seq<(IrVar, IrVar, usize, usize)>,
    i: int,
)
    requires
        0 <= i < ops.len(),
        !op_meaningful(ops[i]),
        forall|u: int| 0 <= u < qs.len() ==> (#[trigger] qs[u]).2 < qs[u].3 < ops.len(),
    ensures
        !op_meaningful(inline_pairs(ops, qs)[i]),
    decreases qs.len(),
{
    if qs.len() > 0 {
        let next = inline_pair(ops, qs[0]);
        lemma_renamed_not_meaningful(ops[i], qs[0].0, qs[0].1);
        assert(!op_meaningful(next[i]));
        assert forall|u: int| 0 <= u < qs.drop_first().len() implies (
        #[trigger] qs.drop_first()[u]).2 < qs.drop_first()[u].3 < next.len() by {
            assert(qs.drop_first()[u] == qs[u + 1]);
        }
        lemma_inline_pairs_keeps_idle(next, qs.drop_first(), i);
    }
}

/// Renamings keep an operation that does nothing doing nothing.
proof fn lemma_apply_renames_keeps_idle(ops: Seq<IrOp>, rs: Seq<(IrVar, IrVar)>, i: int)
    requires
        0 <= i < ops.len(),
        !op_meaningful(ops[i]),
    ensures
        !op_meaningful(apply_renames(ops, rs)[i]),
    decreases rs.len(),
{
    if rs.len() > 0 {
        lemma_renamed_not_meaningful(ops[i], rs[0].1, rs[0].0);
        lemma_apply_renames_keeps_idle(rename_all(ops, rs[0].1, rs[0].0), rs.drop_first(), i);
    }
}

/// The first renaming found from position `j` comes from a move at some position `k >= j`.
proof fn lemma_move_renames_first(ops: Seq<IrOp>, j: int)
    requires
        0 <= j,
        move_renames(ops, j).len() > 0,
    ensures
        exists|k: int|
            j <= k < ops.len() && ops[k] == IrOp::Mov(
                move_renames(ops, j)[0].0,
                move_renames(ops, j)[0].1,
            ),
    decreases ops.len() - j,
{
    if j < ops.len() {
        match ops[j] {
            IrOp::Mov(src, dst) => {
                if !used_after(ops, src, j) {
                    assert(ops[j] == IrOp::Mov(move_renames(ops, j)[0].0, move_renames(ops, j)[0].1));
                } else {
                    lemma_move_renames_first(ops, j + 1);
                }
            },
            _ => lemma_move_renames_first(ops, j + 1),
        }
    }
}

/// Filtering drops an element exactly when some element fails the predicate.
proof fn lemma_filter_meaningful(s: Seq<IrOp>)
    ensures
        (forall|i: int| 0 <= i < s.len() ==> op_meaningful(#[trigger] s[i])) ==> meaningful_only(
            s,
        ) == s,
        (exists|i: int| 0 <= i < s.len() && !op_meaningful(#[trigger] s[i])) ==> meaningful_only(
            s,
        ).len() < s.len(),
    decreases s.len(),
{
    reveal_with_fuel(Seq::<_>::filter, 1);
    broadcast use vstd::seq_lib::group_filter_ensures;

    if s.len() > 0 {
        lemma_filter_meaningful(s.drop_last());
        if forall|i: int| 0 <= i < s.len() ==> op_meaningful(#[trigger] s[i]) {
            assert forall|i: int| 0 <= i < s.drop_last().len() implies op_meaningful(
                #[trigger] s.drop_last()[i],
            ) by {
                assert(s.drop_last()[i] == s[i]);
            }
            assert(s.drop_last().push(s.last()) =~= s);
        }
        if exists|i: int| 0 <= i < s.len() && !op_meaningful(#[trigger] s[i]) {
            let i = choose|i: int| 0 <= i < s.len() && !op_meaningful(#[trigger] s[i]);
            if i < s.len() - 1 {
                assert(!op_meaningful(s.drop_last()[i]));
            }
        }
    }
}

/// A round of the optimiser that does not shorten the code leaves it unchanged.
pub proof fn lemma_round_fixpoint(ops: Seq<IrOp>)
    requires
        ops.len() <= usize::MAX,
        optimize_round(ops).len() >= ops.len(),
    ensures
        optimize_round(ops) == ops,
{
    let qs = push_pop_pairs(ops, 0, None);
    lemma_push_pop_pairs_bounds(ops, 0, None);
    lemma_inline_pairs_len(ops, qs);
    let pp = push_pop_inlined(ops);
    let rs = move_renames(pp, 0);
    lemma_apply_renames_len(pp, rs);
    let mv = moves_inlined(pp);
    if qs.len() > 0 {
        let q = qs[0];
        assert(q.2 < q.3 < ops.len());
        let next = inline_pair(ops, q);
        assert(next[q.2 as int] == IrOp::Nop);
        assert forall|u: int| 0 <= u < qs.drop_first().len() implies (
        #[trigger] qs.drop_first()[u]).2 < qs.drop_first()[u].3 < next.len() by {
            assert(qs.drop_first()[u] == qs[u + 1]);
        }
        lemma_inline_pairs_keeps_idle(next, qs.drop_first(), q.2 as int);
        lemma_apply_renames_keeps_idle(pp, rs, q.2 as int);
        lemma_filter_meaningful(mv);
        assert(false);
    } else if rs.len() > 0 {
        assert(pp == ops);
        lemma_move_renames_first(pp, 0);
        let k = choose|k: int| 0 <= k < pp.len() && pp[k] == IrOp::Mov(rs[0].0, rs[0].1);
        let first = rename_all(pp, rs[0].1, rs[0].0);
        assert(!op_meaningful(first[k]));
        lemma_apply_renames_keeps_idle(first, rs.drop_first(), k);
        lemma_filter_meaningful(mv);
        assert(false);
    } else {
        assert(pp == ops);
        assert(mv == ops);
        lemma_filter_meaningful(ops);
        if exists|i: int| 0 <= i < ops.len() && !op_meaningful(#[trigger] ops[i]) {
            assert(false);
        }
    }
}

/// The optimiser's result is a fixed point of its rounds.
proof fn lemma_optimized_from_fixpoint(ops: Seq<IrOp>, last: nat)
    requires
        ops.len() <= usize::MAX,
        last == ops.len(),
    ensures
        optimize_round(optimized_from(ops, last)) == optimized_from(ops, last),
    decreases last,
{
    lemma_optimize_round(ops);
    let o = optimize_round(ops);
    if o.len() < last {
        lemma_optimized_from_fixpoint(o, o.len());
    } else {
        lemma_round_fixpoint(ops);
    }
}

/// Optimising optimised code changes nothing: `optimize_ir` is idempotent.
pub proof fn lemma_optimize_idempotent(ops: Seq<IrOp>)
    requires
        ops.len() <= usize::MAX,
    ensures
        optimized(optimized(ops)) == optimized(ops),
        optimize_round(optimized(ops)) == optimized(ops),
{
    lemma_optimized_from_fixpoint(ops, ops.len());
    let r = optimized(ops);
    lemma_optimized_from(ops, ops.len());
    assert(optimized(r) == optimized_from(r, r.len()));
    assert(optimize_round(r) == r);
}

/// Keeps only the meaningful operations, in order.
fn retain_meaningful(ops: &mut Vec<IrOp>)
    ensures
        final(ops)@ == meaningful_only(old(ops)@),
{
    let mut kept: Vec<IrOp> = Vec::new();
    let n = ops.len();
    for i in 0..n
        invariant
            n == ops@.len(),
            kept@ == ops@.take(i as int).filter(|op: IrOp| op_meaningful(op)),
    {
        let op = ops[i];
        proof {
            reveal_with_fuel(Seq::<_>::filter, 1);
            assert(ops@.take(i + 1).drop_last() =~= ops@.take(i as int));
        }
        if op.is_meanigfull() {
            kept.push(op);
        }
    }
    assert(ops@.take(n as int) =~= ops@);
    *ops = kept;
}

/// Optimises the IR in place: inlines push/pop pairs and moves whose source is
/// dead, drops operations that do nothing, and repeats while the code shrinks.
pub fn optimize_ir(ops: &mut Vec<IrOp>)
    ensures
        final(ops)@ == optimized(old(ops)@),
        final(ops)@.len() <= old(ops)@.len(),
        forall|i: int| 0 <= i < final(ops)@.len() ==> op_meaningful(#[trigger] final(ops)@[i]),
        optimized(final(ops)@) == final(ops)@,
{
    let n = ops.len();
    proof {
        lemma_optimized_from(ops@, n as nat);
        lemma_optimize_idempotent(ops@);
    }
    let ghost orig = ops@;
    let mut last_size = ops.len();
    let mut shrinking = true;
    while shrinking
        invariant
            shrinking ==> optimized_from(ops@, last_size as nat) == optimized(orig),
            !shrinking ==> ops@ == optimized(orig),
        decreases last_size + if shrinking { 1int } else { 0int },
    {
        let ghost prev = ops@;
        push_pop_inline(ops);
        unneded_move_inline(ops);
        retain_meaningful(ops);
        assert(ops@ == optimize_round(prev));
        let curr_size = ops.len();
        if !(curr_size < last_size) {
            shrinking = false;
        } else {
            last_size = curr_size;
        }
    }
}


/// How many fresh IR variables the lowering of `ops` takes.
pub open spec fn temps_needed(ops: Seq<CILOp>) -> nat
    decreases ops.len(),
{
    if ops.len() == 0 {
        0
    } else {
        temps_needed(ops.drop_last()) + cil_temps(ops.last())
    }
}

/// The IR that `ops` lowers to when fresh variables start at `h`: each operation's
/// lowering, in order, each one's fresh variables following those of the ones before.
pub open spec fn lowered(ops: Seq<CILOp>, h: int) -> Seq<IrOp>
    decreases ops.len(),
{
    if ops.len() == 0 {
        Seq::empty()
    } else {
        lowered(ops.drop_last(), h) + cil_lowered(ops.last(), h + temps_needed(ops.drop_last()))
    }
}

proof fn lemma_temps_needed_prefix(ops: Seq<CILOp>, i: int)
    requires
        0 <= i <= ops.len(),
    ensures
        temps_needed(ops.take(i)) <= temps_needed(ops),
    decreases ops.len(),
{
    if i < ops.len() {
        assert(ops.drop_last().take(i) =~= ops.take(i));
        lemma_temps_needed_prefix(ops.drop_last(), i);
    } else {
        assert(ops.take(i) =~= ops);
    }
}

/// A method in IR form.
pub struct MethodIR {
    pub ops: Vec<IrOp>,
    pub arg_count: usize,
}

impl MethodIR {
    /// Lowers CIL code taking `arg_count` arguments to the IR and optimises it.
    /// The arguments are the variables below `arg_count`; fresh variables follow them.
    pub fn new(ops: &[CILOp], arg_count: usize) -> (m: MethodIR)
        requires
            arg_count + temps_needed(ops@) <= usize::MAX,
        ensures
            m.ops@ == optimized(lowered(ops@, arg_count as int)),
            m.arg_count == arg_count,
    {
        let mut res: Vec<IrOp> = Vec::new();
        let mut highest_var = arg_count;
        let n = ops.len();
        for i in 0..n
            invariant
                n == ops@.len(),
                arg_count + temps_needed(ops@) <= usize::MAX,
                res@ == lowered(ops@.take(i as int), arg_count as int),
                highest_var == arg_count + temps_needed(ops@.take(i as int)),
        {
            proof {
                assert(ops@.take(i + 1).drop_last() =~= ops@.take(i as int));
                lemma_temps_needed_prefix(ops@, i + 1);
            }
            ops[i].to_codegen_ir(&mut res, &mut highest_var);
        }
        assert(ops@.take(n as int) =~= ops@);
        optimize_ir(&mut res);
        MethodIR { ops: res, arg_count }
    }
}

} // verus!
