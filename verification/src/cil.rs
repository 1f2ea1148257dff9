//! The CIL operations that the compiler accepts, and their lowering to the IR.
use crate::codegen_ir::{ir_run, lowered, op_uses, temps_needed, IrOp, IrVar};
use vstd::prelude::*;

verus! {

/// A CIL stack operation.
#[derive(Debug)]
pub enum CILOp {
    LdArg(usize),
    Ret,
    Add,
    Sub,
    Mul,
}

/// The IR register numbered `n`.
pub open spec fn ireg(n: int) -> IrVar {
    IrVar::IReg(n as usize)
}

/// How many fresh IR variables the lowering of `op` takes.
pub open spec fn cil_temps(op: CILOp) -> nat {
    match op {
        CILOp::LdArg(_) => 0,
        CILOp::Ret => 1,
        _ => 3,
    }
}

/// The lowering of a two-operand operation whose fresh variables start at `h`:
/// pop both operands, copy the first popped one into a fresh variable, apply
/// `op` to it, and push the result.
pub open spec fn arith_lowered(h: int, op: IrOp) -> Seq<IrOp> {
    seq![
        IrOp::Pop(ireg(h)),
        IrOp::Pop(ireg(h + 1)),
        IrOp::Mov(ireg(h), ireg(h + 2)),
        op,
        IrOp::Push(ireg(h + 2)),
    ]
}

/// The IR operations that `op` lowers to, when its fresh variables start at `h`.
pub open spec fn cil_lowered(op: CILOp, h: int) -> Seq<IrOp> {
    match op {
        CILOp::LdArg(arg) => seq![IrOp::Push(IrVar::IReg(arg))],
        CILOp::Mul => arith_lowered(h, IrOp::Mul(ireg(h + 2), ireg(h + 1))),
        CILOp::Add => arith_lowered(h, IrOp::Add(ireg(h + 2), ireg(h + 1))),
        CILOp::Sub => arith_lowered(h, IrOp::Sub(ireg(h + 2), ireg(h + 1))),
        CILOp::Ret => seq![IrOp::Pop(ireg(h)), IrOp::Return(ireg(h))],
    }
}

/// Running `ops` is running all but the last, then one step of the last.
proof fn lemma_ir_run_unfold(st: (Seq<int>, spec_fn(IrVar) -> int, Option<int>), ops: Seq<IrOp>)
    requires
        ops.len() > 0,
    ensures
        ir_run(st, ops) == crate::codegen_ir::ir_step(ir_run(st, ops.drop_last()), ops.last()),
{
}

/// Lowering refines the CIL stack step. Run as a stack machine from a stack holding
/// `x` below `y` on top of `below`, the IR of `LdArg(i)` pushes the value of argument
/// variable `i`; that of `Add` and `Mul` replaces `x` and `y` by their sum and product;
/// that of `Sub` replaces them by `y - x` (the top minus the one below); and that of
/// `Ret` pops `y` and returns it. No variable below `h`, where the lowering's fresh
/// variables start, changes.
pub proof fn lemma_lowering_refines_step(
    op: CILOp,
    h: int,
    below: Seq<int>,
    x: int,
    y: int,
    env: spec_fn(IrVar) -> int,
    ret: Option<int>,
)
    requires
        0 <= h,
        h + cil_temps(op) <= usize::MAX,
    ensures
        ({
            let (stack, env2, ret2) = ir_run((below.push(x).push(y), env, ret), cil_lowered(op, h));
            &&& match op {
                CILOp::LdArg(i) => stack == below.push(x).push(y).push(env(IrVar::IReg(i)))
                    && ret2 == ret,
                CILOp::Add => stack == below.push(x + y) && ret2 == ret,
                CILOp::Mul => stack == below.push(x * y) && ret2 == ret,
                CILOp::Sub => stack == below.push(y - x) && ret2 == ret,
                CILOp::Ret => stack == below.push(x) && ret2 == Some(y),
            }
            &&& forall|k: int| 0 <= k < h ==> #[trigger] env2(ireg(k)) == env(ireg(k))
        }),
{
    let st0 = (below.push(x).push(y), env, ret);
    let c = cil_lowered(op, h);
    let s = below.push(x).push(y);
    assert(s.drop_last() =~= below.push(x));
    assert(below.push(x).drop_last() =~= below);
    match op {
        CILOp::LdArg(i) => {
            assert(c.drop_last() =~= Seq::<IrOp>::empty());
            lemma_ir_run_unfold(st0, c);
        },
        CILOp::Ret => {
            assert(c.drop_last().drop_last() =~= Seq::<IrOp>::empty());
            lemma_ir_run_unfold(st0, c);
            lemma_ir_run_unfold(st0, c.drop_last());
        },
        _ => {
            let c4 = c.drop_last();
            let c3 = c4.drop_last();
            let c2 = c3.drop_last();
            let c1 = c2.drop_last();
            assert(c1.drop_last() =~= Seq::<IrOp>::empty());
            assert(c1 =~= seq![IrOp::Pop(ireg(h))]);
            lemma_ir_run_unfold(st0, c1);
            lemma_ir_run_unfold(st0, c2);
            lemma_ir_run_unfold(st0, c3);
            lemma_ir_run_unfold(st0, c4);
            lemma_ir_run_unfold(st0, c);
            assert(ireg(h) != ireg(h + 1));
            assert(ireg(h) != ireg(h + 2));
            assert(ireg(h + 1) != ireg(h + 2));
            assert forall|k: int| 0 <= k < h implies #[trigger] ireg(k) != ireg(h) && ireg(k) != ireg(h + 1)
                && ireg(k) != ireg(h + 2) by {}
            assert(y * x == x * y) by (nonlinear_arith);
        },
    }
}

/// Whether `op` gives `v` a value: a `Pop` into `v` or a move into `v`.
pub open spec fn defines(op: IrOp, v: IrVar) -> bool {
    match op {
        IrOp::Pop(a) => a == v,
        IrOp::Mov(_, t) => t == v,
        _ => false,
    }
}

/// Whether every `LdArg` of `ops` loads one of the first `n` variables.
pub open spec fn args_below(ops: Seq<CILOp>, n: int) -> bool {
    forall|i: int| 0 <= i < ops.len() ==> (#[trigger] ops[i] matches CILOp::LdArg(a) ==> a < n)
}

/// Within the lowering of one operation whose fresh variables start at `h`, every
/// variable from `n` on that is named is one of the fresh ones and is given its value
/// once, before or by its first use.
proof fn lemma_lowered_op_fresh(op: CILOp, h: int, n: int)
    requires
        0 <= n <= h,
        h + cil_temps(op) <= usize::MAX,
        op matches CILOp::LdArg(a) ==> a < n,
    ensures
        forall|j: int, k: usize|
            0 <= j < cil_lowered(op, h).len() && n <= k && #[trigger] op_uses(
                cil_lowered(op, h)[j],
                IrVar::IReg(k),
            ) ==> h <= k < h + cil_temps(op) && exists|d: int|
                0 <= d <= j && defines(cil_lowered(op, h)[d], IrVar::IReg(k)),
        forall|d: int, e: int, k: usize|
            0 <= d < cil_lowered(op, h).len() && 0 <= e < cil_lowered(op, h).len()
                && #[trigger] defines(cil_lowered(op, h)[d], IrVar::IReg(k)) && #[trigger] defines(
                cil_lowered(op, h)[e],
                IrVar::IReg(k),
            ) ==> d == e && h <= k < h + cil_temps(op),
{
    let c = cil_lowered(op, h);
    assert forall|j: int, k: usize|
        0 <= j < c.len() && n <= k && #[trigger] op_uses(c[j], IrVar::IReg(k)) implies h <= k < h
        + cil_temps(op) && exists|d: int| 0 <= d <= j && defines(c[d], IrVar::IReg(k)) by {
        match op {
            CILOp::LdArg(a) => {},
            CILOp::Ret => {
                assert(defines(c[0], IrVar::IReg(k)));
            },
            _ => {
                if k == h {
                    assert(defines(c[0], IrVar::IReg(k)));
                } else if k == h + 1 {
                    assert(defines(c[1], IrVar::IReg(k)));
                } else {
                    assert(defines(c[2], IrVar::IReg(k)));
                }
            },
        }
    }
}

/// Every fresh variable of a lowering is given its value exactly once, before or by
/// its first use: in the IR of `ops` with `n` arguments, every variable from `n` on
/// that is named lies below `n + temps_needed(ops)`, is given a value by a `Pop` or a
/// move at or before each place it is named, and by only one operation.
pub proof fn lemma_lowering_fresh_temps(ops: Seq<CILOp>, n: int)
    requires
        0 <= n,
        n + temps_needed(ops) <= usize::MAX,
        args_below(ops, n),
    ensures
        forall|j: int, k: usize|
            0 <= j < lowered(ops, n).len() && n <= k && #[trigger] op_uses(
                lowered(ops, n)[j],
                IrVar::IReg(k),
            ) ==> k < n + temps_needed(ops) && exists|d: int|
                0 <= d <= j && defines(lowered(ops, n)[d], IrVar::IReg(k)),
        forall|d: int, e: int, k: usize|
            0 <= d < lowered(ops, n).len() && 0 <= e < lowered(ops, n).len() && n <= k
                && #[trigger] defines(lowered(ops, n)[d], IrVar::IReg(k)) && #[trigger] defines(
                lowered(ops, n)[e],
                IrVar::IReg(k),
            ) ==> d == e,
    decreases ops.len(),
{
    if ops.len() > 0 {
        let pre = ops.drop_last();
        let last = ops.last();
        let h1 = n + temps_needed(pre);
        assert(args_below(pre, n)) by {
            assert forall|i: int| 0 <= i < pre.len() implies (#[trigger] pre[i] matches CILOp::LdArg(
                a,
            ) ==> a < n) by {
                assert(pre[i] == ops[i]);
            }
        }
        assert(ops[ops.len() - 1] == last);
        lemma_lowering_fresh_temps(pre, n);
        lemma_lowered_op_fresh(last, h1, n);
        let sp = lowered(pre, n);
        let c = cil_lowered(last, h1);
        let s = lowered(ops, n);
        assert(s == sp + c);
        assert forall|j: int, k: usize|
            0 <= j < s.len() && n <= k && #[trigger] op_uses(s[j], IrVar::IReg(k)) implies k < n
            + temps_needed(ops) && exists|d: int| 0 <= d <= j && defines(s[d], IrVar::IReg(k)) by {
            if j < sp.len() {
                assert(s[j] == sp[j]);
                assert(op_uses(sp[j], IrVar::IReg(k)));
                let d = choose|d: int| 0 <= d <= j && defines(sp[d], IrVar::IReg(k));
                assert(s[d] == sp[d]);
            } else {
                let jj = j - sp.len();
                assert(s[j] == c[jj]);
                assert(op_uses(c[jj], IrVar::IReg(k)));
                let d = choose|d: int| 0 <= d <= jj && defines(c[d], IrVar::IReg(k));
                assert(s[d + sp.len()] == c[d]);
            }
        }
        assert forall|d: int, e: int, k: usize|
            0 <= d < s.len() && 0 <= e < s.len() && n <= k && #[trigger] defines(
                s[d],
                IrVar::IReg(k),
            ) && #[trigger] defines(s[e], IrVar::IReg(k)) implies d == e by {
            if d < sp.len() && e < sp.len() {
                assert(s[d] == sp[d] && s[e] == sp[e]);
            } else if d >= sp.len() && e >= sp.len() {
                assert(s[d] == c[d - sp.len()] && s[e] == c[e - sp.len()]);
            } else if d < sp.len() {
                assert(s[d] == sp[d] && s[e] == c[e - sp.len()]);
                assert(op_uses(sp[d], IrVar::IReg(k)));
                assert(defines(c[e - sp.len()], IrVar::IReg(k)));
            } else {
                assert(s[e] == sp[e] && s[d] == c[d - sp.len()]);
                assert(op_uses(sp[e], IrVar::IReg(k)));
                assert(defines(c[d - sp.len()], IrVar::IReg(k)));
            }
        }
    }
}

impl CILOp {
    /// Appends the IR of this operation to `res`, taking fresh variables from `highest_var` on.
    pub(crate) fn to_codegen_ir(&self, res: &mut Vec<IrOp>, highest_var: &mut usize)
        requires
            *old(highest_var) + cil_temps(*self) <= usize::MAX,
        ensures
            final(res)@ == old(res)@ + cil_lowered(*self, *old(highest_var) as int),
            *final(highest_var) == *old(highest_var) + cil_temps(*self),
    {
        let h = *highest_var;
        match self {
            Self::LdArg(arg) => {
                res.push(IrOp::Push(IrVar::IReg(*arg)));
            },
            Self::Mul => {
                res.push(IrOp::Pop(IrVar::IReg(h)));
                res.push(IrOp::Pop(IrVar::IReg(h + 1)));
                res.push(IrOp::Mov(IrVar::IReg(h), IrVar::IReg(h + 2)));
                res.push(IrOp::Mul(IrVar::IReg(h + 2), IrVar::IReg(h + 1)));
                res.push(IrOp::Push(IrVar::IReg(h + 2)));
                *highest_var += 3;
            },
            Self::Add => {
                res.push(IrOp::Pop(IrVar::IReg(h)));
                res.push(IrOp::Pop(IrVar::IReg(h + 1)));
                res.push(IrOp::Mov(IrVar::IReg(h), IrVar::IReg(h + 2)));
                res.push(IrOp::Add(IrVar::IReg(h + 2), IrVar::IReg(h + 1)));
                res.push(IrOp::Push(IrVar::IReg(h + 2)));
                *highest_var += 3;
            },
            Self::Sub => {
                res.push(IrOp::Pop(IrVar::IReg(h)));
                res.push(IrOp::Pop(IrVar::IReg(h + 1)));
                res.push(IrOp::Mov(IrVar::IReg(h), IrVar::IReg(h + 2)));
                res.push(IrOp::Sub(IrVar::IReg(h + 2), IrVar::IReg(h + 1)));
                res.push(IrOp::Push(IrVar::IReg(h + 2)));
                *highest_var += 3;
            },
            Self::Ret => {
                res.push(IrOp::Pop(IrVar::IReg(h)));
                res.push(IrOp::Return(IrVar::IReg(h)));
                *highest_var += 1;
            },
        }
        assert(res@ =~= old(res)@ + cil_lowered(*self, h as int));
    }
}

} // verus!
