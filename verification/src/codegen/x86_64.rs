//! Encoding of the IR as x86-64 machine code.
use crate::codegen::CompiledMethod;
use crate::codegen_ir::{IrOp, IrVar, MethodIR};
use vstd::prelude::*;

verus! {

/// The hardware register that holds IR register `i`: first the argument registers of
/// the calling convention in their order (rdi, rsi, rdx, rcx, r8, r9), then the others
/// (rax, rbx, rsp, rbp, r10 to r15).
pub open spec fn call_reg_order() -> Seq<u8> {
    seq![7u8, 6, 2, 1, 8, 9, 0, 3, 4, 5, 10, 11, 12, 13, 14, 15]
}

/// The number of an IR register.
pub open spec fn reg_index(v: IrVar) -> nat {
    match v {
        IrVar::IReg(n) => n as nat,
    }
}

/// Whether an IR register has a hardware register: x86-64 has 16.
pub open spec fn has_hw_reg(v: IrVar) -> bool {
    reg_index(v) <= 15
}

/// The hardware register of an IR register.
pub open spec fn hw_reg(v: IrVar) -> u8 {
    call_reg_order()[reg_index(v) as int]
}

/// The ModRM byte for register-direct addressing with `r` in the reg field and
/// `b` in the r/m field.
pub open spec fn spec_modrm(r: IrVar, b: IrVar) -> int {
    0xc0 + 8 * (hw_reg(r) % 8) + hw_reg(b) % 8
}

/// The REX prefix: the pattern in the high nibble, then the W, R, X (always 0) and B bits;
/// R and B are set for the hardware registers 8 to 15.
pub open spec fn spec_rex(bit_pattern: u8, is_wide: bool, r: IrVar, b: IrVar) -> int {
    (bit_pattern % 16) * 16 + (if is_wide { 8int } else { 0 }) + (if hw_reg(r) > 7 { 4int } else { 0 })
        + (if hw_reg(b) > 7 { 1int } else { 0 })
}

/// The IR register that holds the return value (rax).
pub open spec fn return_var() -> IrVar {
    IrVar::IReg(6)
}

/// Whether the native code generator can encode `op`: arithmetic and returns on
/// registers that have a hardware register.
pub open spec fn encodable(op: IrOp) -> bool {
    match op {
        IrOp::Mul(a, b) => has_hw_reg(a) && has_hw_reg(b),
        IrOp::Add(a, b) => has_hw_reg(a) && has_hw_reg(b),
        IrOp::Sub(a, b) => has_hw_reg(a) && has_hw_reg(b),
        IrOp::Return(a) => has_hw_reg(a),
        _ => false,
    }
}

/// The machine code of one operation: `imul r64, r/m64` (0F AF), `add r/m64, r64` (01),
/// `sub r/m64, r64` (29), and a return that first moves its operand to rax
/// (`mov r/m64, r64`, 89) unless it already is the return register, then `ret` (C3).
pub open spec fn encode_op(op: IrOp) -> Seq<u8> {
    match op {
        IrOp::Mul(multiplicand, multiplier) => seq![
            spec_rex(4, true, multiplier, multiplicand) as u8,
            0x0fu8,
            0xafu8,
            spec_modrm(multiplier, multiplicand) as u8,
        ],
        IrOp::Add(to, increment) => seq![
            spec_rex(4, true, increment, to) as u8,
            0x01u8,
            spec_modrm(increment, to) as u8,
        ],
        IrOp::Sub(to, increment) => seq![
            spec_rex(4, true, increment, to) as u8,
            0x29u8,
            spec_modrm(increment, to) as u8,
        ],
        IrOp::Return(reg) => if reg != return_var() {
            seq![
                spec_rex(4, true, reg, return_var()) as u8,
                0x89u8,
                spec_modrm(reg, return_var()) as u8,
                0xc3u8,
            ]
        } else {
            seq![0xc3u8]
        },
        _ => Seq::empty(),
    }
}

/// The machine code of `ops`: the code of each operation, in order.
pub open spec fn encode_all(ops: Seq<IrOp>) -> Seq<u8>
    decreases ops.len(),
{
    if ops.len() == 0 {
        Seq::empty()
    } else {
        encode_all(ops.drop_last()) + encode_op(ops.last())
    }
}

/// Whether every operation of `ops` can be encoded.
pub open spec fn all_encodable(ops: Seq<IrOp>) -> bool {
    forall|i: int| 0 <= i < ops.len() ==> encodable(#[trigger] ops[i])
}

/// Whether `b` is a REX prefix with W set, which makes the instruction 64-bit.
pub open spec fn is_rex_w(b: u8) -> bool {
    b & 0xf8u8 == 0x48u8
}

/// Whether ModRM byte `m` addresses registers directly (mod = 11).
pub open spec fn register_direct(m: u8) -> bool {
    m >> 6u8 == 3u8
}

/// The register named by the reg field of ModRM byte `m`, extended by REX.R of `rex`.
pub open spec fn decoded_reg(rex: u8, m: u8) -> int {
    ((m >> 3u8) & 7u8) + 8 * ((rex >> 2u8) & 1u8)
}

/// The register named by the r/m field of ModRM byte `m`, extended by REX.B of `rex`.
pub open spec fn decoded_rm(rex: u8, m: u8) -> int {
    (m & 7u8) + 8 * (rex & 1u8)
}

proof fn lemma_rex_modrm_decode(r: u8, b: u8)
    requires
        r < 16,
        b < 16,
    ensures
        is_rex_w((72 + (if r > 7 { 4int } else { 0 }) + (if b > 7 { 1int } else { 0 })) as u8),
        register_direct((0xc0 + 8 * (r % 8) + b % 8) as u8),
        decoded_reg(
            (72 + (if r > 7 { 4int } else { 0 }) + (if b > 7 { 1int } else { 0 })) as u8,
            (0xc0 + 8 * (r % 8) + b % 8) as u8,
        ) == r,
        decoded_rm(
            (72 + (if r > 7 { 4int } else { 0 }) + (if b > 7 { 1int } else { 0 })) as u8,
            (0xc0 + 8 * (r % 8) + b % 8) as u8,
        ) == b,
{
    let rr: u8 = if r > 7 { 4 } else { 0 };
    let bb: u8 = if b > 7 { 1 } else { 0 };
    let rex: u8 = (72 + rr + bb) as u8;
    let m: u8 = (0xc0 + 8 * (r % 8) + b % 8) as u8;
    assert(rex & 0xf8u8 == 0x48u8 && m >> 6u8 == 3u8 && ((m >> 3u8) & 7u8) + 8 * ((rex >> 2u8) & 1u8)
        == r && (m & 7u8) + 8 * (rex & 1u8) == b) by (bit_vector)
        requires
            r < 16,
            b < 16,
            rr == (if r > 7 { 4u8 } else { 0u8 }),
            bb == (if b > 7 { 1u8 } else { 0u8 }),
            rex == (72 + rr + bb) as u8,
            m == (0xc0 + 8 * (r % 8) + b % 8) as u8,
    ;
}

/// Every hardware register is one of the sixteen, and distinct IR registers that have
/// one live in distinct hardware registers. The first six IR registers are the argument
/// registers of the calling convention in order: rdi, rsi, rdx, rcx, r8, r9; the
/// return register (rax) is hardware register 0.
pub proof fn lemma_register_assignment(u: IrVar, v: IrVar)
    requires
        has_hw_reg(u),
        has_hw_reg(v),
    ensures
        hw_reg(u) < 16,
        u != v ==> hw_reg(u) != hw_reg(v),
        hw_reg(IrVar::IReg(0)) == 7,
        hw_reg(IrVar::IReg(1)) == 6,
        hw_reg(IrVar::IReg(2)) == 2,
        hw_reg(IrVar::IReg(3)) == 1,
        hw_reg(IrVar::IReg(4)) == 8,
        hw_reg(IrVar::IReg(5)) == 9,
        hw_reg(return_var()) == 0,
{
}

/// What the encoder emits for each encodable operation, read back as x86-64: one 64-bit
/// instruction (REX.W) with register-direct operands naming the operands' hardware
/// registers. `Add(to, increment)` is `add to, increment` (01 /r); `Sub(to, increment)` is
/// `sub to, increment` (29 /r); `Mul(multiplicand, multiplier)` is `imul multiplier,
/// multiplicand` (0F AF /r, which writes the multiplier); `Return(v)` is `mov rax, v`
/// (89 /r) then `ret` (C3), or `ret` alone when `v` is already the return register.
pub proof fn lemma_encode_op_decodes(op: IrOp)
    requires
        encodable(op),
    ensures
        match op {
            IrOp::Add(to, increment) => {
                let e = encode_op(op);
                &&& e.len() == 3 && is_rex_w(e[0]) && e[1] == 0x01 && register_direct(e[2])
                &&& decoded_reg(e[0], e[2]) == hw_reg(increment)
                &&& decoded_rm(e[0], e[2]) == hw_reg(to)
            },
            IrOp::Sub(to, increment) => {
                let e = encode_op(op);
                &&& e.len() == 3 && is_rex_w(e[0]) && e[1] == 0x29 && register_direct(e[2])
                &&& decoded_reg(e[0], e[2]) == hw_reg(increment)
                &&& decoded_rm(e[0], e[2]) == hw_reg(to)
            },
            IrOp::Mul(multiplicand, multiplier) => {
                let e = encode_op(op);
                &&& e.len() == 4 && is_rex_w(e[0]) && e[1] == 0x0f && e[2] == 0xaf
                &&& register_direct(e[3])
                &&& decoded_reg(e[0], e[3]) == hw_reg(multiplier)
                &&& decoded_rm(e[0], e[3]) == hw_reg(multiplicand)
            },
            IrOp::Return(v) => {
                let e = encode_op(op);
                if hw_reg(v) != 0 {
                    &&& e.len() == 4 && is_rex_w(e[0]) && e[1] == 0x89 && register_direct(e[2])
                    &&& decoded_reg(e[0], e[2]) == hw_reg(v)
                    &&& decoded_rm(e[0], e[2]) == 0
                    &&& e[3] == 0xc3
                } else {
                    e == seq![0xc3u8]
                }
            },
            _ => false,
        },
{
    match op {
        IrOp::Add(to, increment) => {
            lemma_register_assignment(increment, to);
            lemma_register_assignment(to, increment);
            lemma_rex_modrm_decode(hw_reg(increment), hw_reg(to));
        },
        IrOp::Sub(to, increment) => {
            lemma_register_assignment(increment, to);
            lemma_register_assignment(to, increment);
            lemma_rex_modrm_decode(hw_reg(increment), hw_reg(to));
        },
        IrOp::Mul(multiplicand, multiplier) => {
            lemma_register_assignment(multiplier, multiplicand);
            lemma_register_assignment(multiplicand, multiplier);
            lemma_rex_modrm_decode(hw_reg(multiplier), hw_reg(multiplicand));
        },
        IrOp::Return(v) => {
            lemma_register_assignment(v, return_var());
            lemma_register_assignment(return_var(), v);
            lemma_rex_modrm_decode(hw_reg(v), hw_reg(return_var()));
        },
        _ => {},
    }
}

fn modrm_adress_register(r: &IrVar, b: &IrVar) -> (m: u8)
    requires
        has_hw_reg(*r),
        has_hw_reg(*b),
    ensures
        m == spec_modrm(*r, *b),
{
    let r = (var_as_reg(r)) % 8;
    let b = (var_as_reg(b)) % 8;
    assert((0b11u8 << 6u8) | (r << 3u8) | b == 0xc0 + 8 * r + b) by (bit_vector)
        requires
            r < 8,
            b < 8,
    ;
    (0b11 << 6) | (r << 3) | b
}

fn var_as_reg(var: &IrVar) -> (r: u8)
    requires
        has_hw_reg(*var),
    ensures
        r == hw_reg(*var),
        r < 16,
{
    let order: [u8; 16] = [7, 6, 2, 1, 8, 9, 0, 3, 4, 5, 10, 11, 12, 13, 14, 15];
    match var {
        IrVar::IReg(var) => {
            assert(order@ =~= call_reg_order());
            order[*var]
        },
    }
}

fn create_rex_prefix(bit_pattern: u8, is_wide: bool, r: &IrVar, b: &IrVar) -> (p: u8)
    requires
        has_hw_reg(*r),
        has_hw_reg(*b),
    ensures
        p == spec_rex(bit_pattern, is_wide, *r, *b),
{
    let r: u8 = if var_as_reg(r) > 7 {
        1
    } else {
        0
    };
    let x: u8 = 0;  // Unused for now.
    let b: u8 = if var_as_reg(b) > 7 {
        1
    } else {
        0
    };
    let w: u8 = if is_wide {
        1
    } else {
        0
    };
    assert((bit_pattern << 4u8) | (w << 3u8) | (r << 2u8) | (x << 1u8) | b == (bit_pattern % 16)
        * 16 + 8 * w + 4 * r + b) by (bit_vector)
        requires
            w < 2,
            r < 2,
            b < 2,
            x == 0,
    ;
    (bit_pattern << 4) | (w << 3) | (r << 2) | (x << 1) | b
}

/// Encodes the method's IR as x86-64 code; every operation must be encodable.
pub(crate) fn compile_method(method: &MethodIR, path: &str) -> (c: CompiledMethod)
    requires
        all_encodable(method.ops@),
    ensures
        c.code@ == encode_all(method.ops@),
        c.path@ == path@,
        c.arg_count == method.arg_count,
{
    let mut code: Vec<u8> = Vec::new();
    let n = method.ops.len();
    for i in 0..n
        invariant
            n == method.ops@.len(),
            all_encodable(method.ops@),
            code@ == encode_all(method.ops@.take(i as int)),
    {
        let op = &method.ops[i];
        assert(encodable(method.ops@[i as int]));
        let ghost before = code@;
        match op {
            IrOp::Mul(multiplicand, multiplier) => {
                let rex = create_rex_prefix(0b0100, true, multiplier, multiplicand);
                let mod_rm = modrm_adress_register(multiplier, multiplicand);
                code.push(rex);
                code.push(0x0F);
                code.push(0xAF);
                code.push(mod_rm);
            },
            IrOp::Add(to, increment) => {
                let rex = create_rex_prefix(0b0100, true, increment, to);
                let mod_rm = modrm_adress_register(increment, to);
                code.push(rex);
                code.push(0x01);
                code.push(mod_rm);
            },
            IrOp::Sub(to, increment) => {
                let rex = create_rex_prefix(0b0100, true, increment, to);
                let mod_rm = modrm_adress_register(increment, to);
                code.push(rex);
                code.push(0x29);
                code.push(mod_rm);
            },
            IrOp::Return(reg) => {
                let to = IrVar::IReg(6);  //rax
                if *reg != to {
                    let rex = create_rex_prefix(0b0100, true, reg, &to);
                    let mod_rm = modrm_adress_register(reg, &to);
                    code.push(rex);
                    code.push(0x89);
                    code.push(mod_rm);
                }
                code.push(0xc3);
            },
            _ => {},
        }
        assert(method.ops@.take(i + 1).drop_last() =~= method.ops@.take(i as int));
        assert(code@ =~= before + encode_op(method.ops@[i as int]));
    }
    assert(method.ops@.take(n as int) =~= method.ops@);
    CompiledMethod { code, path: path.to_owned(), arg_count: method.arg_count }
}

} // verus!
