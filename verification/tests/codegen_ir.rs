use cil_jit::cil::CILOp;
use cil_jit::codegen_ir::{optimize_ir, IrOp, IrVar, MethodIR};

#[test]
fn test_opt_stack_simple_ir() {
    let arg0 = IrVar::IReg(0);
    let arg1 = IrVar::IReg(1);
    let tmp0 = IrVar::IReg(2);
    let tmp1 = IrVar::IReg(3);
    let tmp2 = IrVar::IReg(4);
    let tmp3 = IrVar::IReg(5);
    let tmp4 = IrVar::IReg(6);
    let tmp5 = IrVar::IReg(7);
    let tmp6 = IrVar::IReg(8);
    let tmp7 = IrVar::IReg(9);
    let tmp8 = IrVar::IReg(10);
    let ret = IrVar::IReg(11);
    let mut code = vec![
        IrOp::Push(arg0),
        IrOp::Push(arg0),
        IrOp::Pop(tmp0),
        IrOp::Pop(tmp1),
        IrOp::Mov(tmp0, tmp2),
        IrOp::Mul(tmp2, tmp1),
        IrOp::Push(tmp2),
        IrOp::Push(arg1),
        IrOp::Push(arg1),
        IrOp::Pop(tmp3),
        IrOp::Pop(tmp4),
        IrOp::Mov(tmp3, tmp5),
        IrOp::Mul(tmp5, tmp4),
        IrOp::Push(tmp5),
        IrOp::Pop(tmp6),
        IrOp::Pop(tmp7),
        IrOp::Mov(tmp6, tmp8),
        IrOp::Add(tmp8, tmp7),
        IrOp::Push(tmp8),
        IrOp::Pop(ret),
        IrOp::Return(ret),
    ];
    println!("{}:\n{code:?}\n", code.len());
    optimize_ir(&mut code);
    println!("{}:\n{code:?}\n", code.len());
    let expected = [
        IrOp::Mul(IrVar::IReg(0), IrVar::IReg(0)),
        IrOp::Mul(IrVar::IReg(1), IrVar::IReg(1)),
        IrOp::Add(IrVar::IReg(1), IrVar::IReg(0)),
        IrOp::Return(IrVar::IReg(1)),
    ];
    assert!(
        *(&code as &[IrOp]) == *(&expected as &[IrOp]),
        "Generated optimized code {code:?} differs from expected code {expected:?}"
    );
}

#[test]
fn method_to_codegen_ir() {
    let method = MethodIR::new(
        &[
            CILOp::LdArg(0),
            CILOp::LdArg(0),
            CILOp::Mul,
            CILOp::LdArg(1),
            CILOp::LdArg(1),
            CILOp::Mul,
            CILOp::Add,
            CILOp::Ret,
        ],
        2,
    );
    let code = method.ops;
    let expected = [
        IrOp::Mul(IrVar::IReg(0), IrVar::IReg(0)),
        IrOp::Mul(IrVar::IReg(1), IrVar::IReg(1)),
        IrOp::Add(IrVar::IReg(1), IrVar::IReg(0)),
        IrOp::Return(IrVar::IReg(1)),
    ];
    assert!(
        *(&code as &[IrOp]) == *(&expected as &[IrOp]),
        "Generated optimized code {code:?} differs from expected code {expected:?}"
    );
}

#[test]
fn optimize_drops_operations_that_do_nothing() {
    let a = IrVar::IReg(0);
    let b = IrVar::IReg(1);
    let mut code = vec![IrOp::Nop, IrOp::Mov(a, a), IrOp::Add(a, b), IrOp::Nop, IrOp::Return(a)];
    optimize_ir(&mut code);
    assert_eq!(code, vec![IrOp::Add(a, b), IrOp::Return(a)]);
}

#[test]
fn optimize_empty_code() {
    let mut code: Vec<IrOp> = Vec::new();
    optimize_ir(&mut code);
    assert!(code.is_empty());
}

#[test]
fn optimize_inlines_push_pop_and_renames() {
    // The pop target takes the pushed variable's place everywhere.
    let a = IrVar::IReg(0);
    let t = IrVar::IReg(5);
    let mut code = vec![IrOp::Push(a), IrOp::Pop(t), IrOp::Return(t)];
    optimize_ir(&mut code);
    assert_eq!(code, vec![IrOp::Return(a)]);
}

#[test]
fn optimize_keeps_live_moves() {
    // The source of the move is used after it, so the move stays.
    let a = IrVar::IReg(0);
    let b = IrVar::IReg(1);
    let mut code = vec![IrOp::Mov(a, b), IrOp::Add(b, a), IrOp::Return(b)];
    optimize_ir(&mut code);
    assert_eq!(code, vec![IrOp::Mov(a, b), IrOp::Add(b, a), IrOp::Return(b)]);
}

#[test]
fn optimize_replaces_move_target_by_dead_source() {
    let a = IrVar::IReg(0);
    let b = IrVar::IReg(1);
    let mut code = vec![IrOp::Mov(a, b), IrOp::Return(b)];
    optimize_ir(&mut code);
    assert_eq!(code, vec![IrOp::Return(a)]);
}

#[test]
fn optimize_never_lengthens_and_leaves_only_meaningful_ops() {
    let v = |n: usize| IrVar::IReg(n);
    let mut code = vec![
        IrOp::Push(v(0)),
        IrOp::Push(v(1)),
        IrOp::Pop(v(2)),
        IrOp::Pop(v(3)),
        IrOp::Mov(v(2), v(4)),
        IrOp::Sub(v(4), v(3)),
        IrOp::Push(v(4)),
        IrOp::Pop(v(5)),
        IrOp::Return(v(5)),
    ];
    let before = code.len();
    optimize_ir(&mut code);
    assert!(code.len() <= before);
    for op in &code {
        assert!(*op != IrOp::Nop);
        if let IrOp::Mov(s, t) = op {
            assert!(s != t);
        }
    }
}

#[test]
fn lowering_of_each_cil_op() {
    // Two arguments: fresh variables start at 2, and the pushes and pops all inline.
    let m = MethodIR::new(&[CILOp::LdArg(0), CILOp::LdArg(1), CILOp::Sub, CILOp::Ret], 2);
    assert_eq!(m.arg_count, 2);
    assert_eq!(
        m.ops,
        vec![IrOp::Sub(IrVar::IReg(1), IrVar::IReg(0)), IrOp::Return(IrVar::IReg(1))]
    );
}

#[test]
fn identity_method_ir() {
    let m = MethodIR::new(&[CILOp::LdArg(0), CILOp::Ret], 1);
    assert_eq!(m.ops, vec![IrOp::Return(IrVar::IReg(0))]);
}

#[test]
fn optimize_is_idempotent() {
    let v = |n: usize| IrVar::IReg(n);
    let mut code = vec![
        IrOp::Push(v(0)),
        IrOp::Push(v(1)),
        IrOp::Pop(v(3)),
        IrOp::Pop(v(4)),
        IrOp::Mov(v(3), v(5)),
        IrOp::Mul(v(5), v(4)),
        IrOp::Push(v(5)),
        IrOp::Push(v(2)),
        IrOp::Pop(v(6)),
        IrOp::Pop(v(7)),
        IrOp::Mov(v(6), v(8)),
        IrOp::Add(v(8), v(7)),
        IrOp::Push(v(8)),
        IrOp::Pop(v(9)),
        IrOp::Return(v(9)),
    ];
    optimize_ir(&mut code);
    let once = code.clone();
    optimize_ir(&mut code);
    assert_eq!(code, once);
}
