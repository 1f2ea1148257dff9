use cil_jit::cil::CILOp;
use cil_jit::codegen::stub::{Assembly as StubAssembly, AssemblyStub, CodeGenOp, LocVar, MethodStub};
use cil_jit::codegen::{Assembly, CompiledMethod};
use cil_jit::codegen_ir::{IrOp, IrVar, MethodIR};
use cil_jit::mem_mgr::ExecutableMemory;

/// Runs x86-64 code from `mem[start..]` on a model of the sixteen general purpose
/// registers, with the given argument registers (rdi, rsi, ...), until `ret`,
/// and returns rax. It knows the instructions that the code generators emit.
fn run(mem: &[u8], start: usize, args: &[u64]) -> u64 {
    const ARG_REGS: [usize; 6] = [7, 6, 2, 1, 8, 9];
    let mut regs = [0u64; 16];
    for (i, a) in args.iter().enumerate() {
        regs[ARG_REGS[i]] = *a;
    }
    let mut pc = start;
    loop {
        let mut rex = 0u8;
        if mem[pc] & 0xf0 == 0x40 {
            rex = mem[pc];
            pc += 1;
        }
        let opcode = mem[pc];
        pc += 1;
        if opcode == 0xc3 {
            return regs[0];
        }
        let (two_byte, op) = if opcode == 0x0f {
            let op = mem[pc];
            pc += 1;
            (true, op)
        } else {
            (false, opcode)
        };
        let modrm = mem[pc];
        pc += 1;
        assert_eq!(modrm >> 6, 0b11, "only register-direct operands are modelled");
        let reg = (((modrm >> 3) & 7) | ((rex >> 2) & 1) << 3) as usize;
        let rm = ((modrm & 7) | (rex & 1) << 3) as usize;
        match (two_byte, op) {
            (true, 0xaf) => regs[reg] = regs[reg].wrapping_mul(regs[rm]),
            (false, 0x01) => regs[rm] = regs[rm].wrapping_add(regs[reg]),
            (false, 0x29) => regs[rm] = regs[rm].wrapping_sub(regs[reg]),
            (false, 0x89) => regs[rm] = regs[reg],
            (false, 0x8b) => regs[reg] = regs[rm],
            _ => panic!("instruction {opcode:#x} is not modelled"),
        }
    }
}

fn stub_assembly(code: &[CodeGenOp]) -> StubAssembly {
    let mut assembly = AssemblyStub::new();
    let mstub = MethodStub::new(code);
    assembly.methods.push(mstub);
    assembly.into_assembly()
}

fn call_stub(assembly: &StubAssembly, id: usize, args: &[u64]) -> u64 {
    let base = assembly.exec_mem().get_ptr(0);
    let addr = assembly.get_method_address(id);
    run(assembly.exec_mem().contents(), addr - base, args)
}

fn call_method(assembly: &Assembly, key: &str, args: &[u64]) -> u64 {
    let base = assembly.exec_mem().get_ptr(0);
    let addr = assembly.get_method_address(key).unwrap();
    run(assembly.exec_mem().contents(), addr - base, args)
}

#[test]
fn method_to_native_ops() {
    let method = MethodIR::new(
        &[
            CILOp::LdArg(0),
            CILOp::LdArg(0),
            CILOp::Mul,
            CILOp::LdArg(1),
            CILOp::LdArg(1),
            CILOp::Mul,
            CILOp::Add,
            CILOp::Ret,
        ],
        2,
    );
    let compiled = CompiledMethod::compile(&method, "Test");
}

#[test]
fn native_code_of_sum_of_squares() {
    let method = MethodIR::new(
        &[
            CILOp::LdArg(0),
            CILOp::LdArg(0),
            CILOp::Mul,
            CILOp::LdArg(1),
            CILOp::LdArg(1),
            CILOp::Mul,
            CILOp::Add,
            CILOp::Ret,
        ],
        2,
    );
    let compiled = CompiledMethod::compile(&method, "Test");
    // imul rdi, rdi; imul rsi, rsi; add rsi, rdi; mov rax, rsi; ret
    assert_eq!(
        compiled.code,
        vec![
            0x48, 0x0f, 0xaf, 0xff, 0x48, 0x0f, 0xaf, 0xf6, 0x48, 0x01, 0xfe, 0x48, 0x89, 0xf0,
            0xc3
        ]
    );
    assert_eq!(compiled.path, "Test");
    assert_eq!(compiled.arg_count, 2);
    assert_eq!(compiled.get_size(), 15);
    assert_eq!(compiled.get_max_space(), 15);
    assert_eq!(compiled.align(7), 7);
}

#[test]
fn native_code_of_extended_registers_and_sub() {
    // IR registers 4 and 11 live in r8 and r11: REX.R and REX.B are set.
    let method = MethodIR {
        ops: vec![IrOp::Sub(IrVar::IReg(11), IrVar::IReg(4)), IrOp::Return(IrVar::IReg(6))],
        arg_count: 0,
    };
    let compiled = CompiledMethod::compile(&method, "sub");
    // sub r11, r8; ret (the value is already in rax)
    assert_eq!(compiled.code, vec![0x4d, 0x29, 0xc3, 0xc3]);
}

#[test]
fn compile_simplest() {
    let assembly = stub_assembly(&[CodeGenOp::Ret]);
    println!("assembly:{assembly:?}");
    let met = assembly.get_method_address(0);
    assert_eq!(met, assembly.exec_mem().get_ptr(0));
}

#[test]
fn execute_simplest() {
    let assembly = stub_assembly(&[CodeGenOp::Ret]);
    println!("assembly:{assembly:?}");
    call_stub(&assembly, 0, &[]);
}

#[test]
fn execute_identity() {
    let code = [CodeGenOp::MovI32(LocVar(0), LocVar(7)), CodeGenOp::Ret];
    let assembly = stub_assembly(&code);
    println!("assembly:{assembly:?}");
    for i in 0..0xFFFFu16 {
        let res = call_stub(&assembly, 0, &[i as u64]) as u16;
        assert!(i == res, "{res} != {i}");
    }
}

#[test]
fn execute_identity_wide_move() {
    let code = [
        CodeGenOp::MovI32(LocVar(0), LocVar(1)),
        CodeGenOp::MovI32(LocVar(1), LocVar(2)),
        CodeGenOp::MovI32(LocVar(2), LocVar(13)),
        CodeGenOp::MovI32(LocVar(13), LocVar(7)),
        CodeGenOp::Ret,
    ];
    let assembly = stub_assembly(&code);
    println!("assembly:{assembly:?}");
    for i in 0..0x4u16 {
        let res = call_stub(&assembly, 0, &[i as u64]) as u16;
        println!("res:{res}");
    }
}

#[test]
fn stub_code_bytes() {
    let code = [
        CodeGenOp::MovI32(LocVar(0), LocVar(7)),
        CodeGenOp::MovI32(LocVar(13), LocVar(7)),
        CodeGenOp::Ret,
    ];
    let assembly = stub_assembly(&code);
    let bytes = assembly.exec_mem().get_slice_at(0, 8);
    assert_eq!(bytes, &[0x48, 0x8b, 0xc7, 0x4c, 0x8b, 0xef, 0xc3, 0x00]);
    assert_eq!(assembly.exec_mem().mem_size(), 4096);
}

#[test]
fn stub_methods_laid_out_back_to_back() {
    let mut assembly = AssemblyStub::new();
    assembly.methods.push(MethodStub::new(&[CodeGenOp::MovI32(LocVar(0), LocVar(7)), CodeGenOp::Ret]));
    assembly.methods.push(MethodStub::new(&[]));
    assembly.methods.push(MethodStub::new(&[CodeGenOp::Ret]));
    let mut assembly = assembly.into_assembly();
    assert_eq!(assembly.method_count(), 3);
    assert_eq!(assembly.get_method_address(0), 0);
    assert_eq!(assembly.get_method_address(1), 4);
    assert_eq!(assembly.get_method_address(2), 4);
    assert_eq!(call_stub(&assembly, 0, &[42]), 42);
    assembly.place(0x10000);
    assert_eq!(assembly.get_method_address(2), 0x10004);
    assert_eq!(call_stub(&assembly, 2, &[42]), 0);
}

#[test]
fn identity() {
    let identity = MethodIR::new(&[CILOp::LdArg(0), CILOp::Ret], 1);
    let assembly = Assembly::from_raw(&[identity]);
    for i in 0..64 {
        let arg = 1u64 << i;
        let res = call_method(&assembly, "TODO", &[arg]);
        assert!(res == arg, "{res} != {arg}");
    }
}

#[test]
fn sqr_mag() {
    let sqr_mag = MethodIR::new(
        &[
            CILOp::LdArg(0),
            CILOp::LdArg(0),
            CILOp::Mul,
            CILOp::LdArg(1),
            CILOp::LdArg(1),
            CILOp::Mul,
            CILOp::Add,
            CILOp::Ret,
        ],
        2,
    );
    let assembly = Assembly::from_raw(&[sqr_mag]);
    for x in 0..0xFFu64 {
        for y in 0..0xFFu64 {
            let res = call_method(&assembly, "TODO", &[x, y]);
            assert!(x * x + y * y == res, "{res}");
        }
    }
}

#[test]
fn from_raw_layout_and_table() {
    let first = MethodIR::new(&[CILOp::LdArg(0), CILOp::Ret], 1);
    let second = MethodIR::new(&[CILOp::LdArg(0), CILOp::LdArg(1), CILOp::Add, CILOp::Ret], 2);
    let mut assembly = Assembly::from_raw(&[first, second]);
    let mem = assembly.exec_mem();
    assert_eq!(mem.mem_size(), 4096);
    // mov rax, rdi; ret -- then add rsi, rdi; mov rax, rsi; ret
    assert_eq!(
        mem.get_slice_at(0, 12),
        &[0x48, 0x89, 0xf8, 0xc3, 0x48, 0x01, 0xfe, 0x48, 0x89, 0xf0, 0xc3, 0x00]
    );
    // Both are registered under the same path: the later one wins.
    assert_eq!(assembly.get_method_address("TODO"), Some(4));
    assert_eq!(assembly.get_method_address("missing"), None);
    assert_eq!(call_method(&assembly, "TODO", &[3, 4]), 7);
    assembly.place(0x7000_0000);
    assert_eq!(assembly.get_method_address("TODO"), Some(0x7000_0004));
}

#[test]
fn from_raw_without_methods() {
    let assembly = Assembly::from_raw(&[]);
    assert_eq!(assembly.exec_mem().mem_size(), 0);
    assert_eq!(assembly.get_method_address("TODO"), None);
}

#[test]
fn execute_exec_mem() {
    let mut exec_mem = ExecutableMemory::new(4096);
    let slice = exec_mem.get_slice_at(0, 6);
    println!("slice:{slice:?}");
    exec_mem.write_slice_at(0, &[0o303, 0o125]);
    assert_eq!(exec_mem.get_slice_at(0, 2), &[0o303, 0o125]);
    run(exec_mem.contents(), 0, &[]);
}

#[test]
fn third_and_fourth_arguments_in_rdx_and_rcx() {
    let third = MethodIR { ops: vec![IrOp::Return(IrVar::IReg(2))], arg_count: 3 };
    // mov rax, rdx; ret
    assert_eq!(CompiledMethod::compile(&third, "third").code, vec![0x48, 0x89, 0xd0, 0xc3]);
    let fourth = MethodIR { ops: vec![IrOp::Return(IrVar::IReg(3))], arg_count: 4 };
    // mov rax, rcx; ret
    assert_eq!(CompiledMethod::compile(&fourth, "fourth").code, vec![0x48, 0x89, 0xc8, 0xc3]);
}

#[test]
fn sum_of_three_arguments() {
    let sum3 = MethodIR::new(
        &[CILOp::LdArg(0), CILOp::LdArg(1), CILOp::Add, CILOp::LdArg(2), CILOp::Add, CILOp::Ret],
        3,
    );
    let assembly = Assembly::from_raw(&[sum3]);
    for (x, y, z) in [(1u64, 2u64, 3u64), (10, 0, 7), (0, 0, 0), (5, 100, 1000)] {
        assert_eq!(call_method(&assembly, "TODO", &[x, y, z]), x + y + z);
    }
}

#[test]
fn six_arguments_each_in_its_register() {
    for k in 0..6usize {
        let m = MethodIR { ops: vec![IrOp::Return(IrVar::IReg(k))], arg_count: 6 };
        let assembly = Assembly::from_raw(&[m]);
        let args = [11u64, 22, 33, 44, 55, 66];
        assert_eq!(call_method(&assembly, "TODO", &args), args[k]);
    }
}

#[test]
fn stub_code_bytes_of_a_method() {
    let m = MethodStub::new(&[CodeGenOp::MovI32(LocVar(2), LocVar(13)), CodeGenOp::Ret]);
    // REX.WB, mov, ModRM 0xc0 | 2 << 3 | 13 (bit 3 of 13 reaches the reg field)
    assert_eq!(m.code_bytes(), &[0x49, 0x8b, 0xdd, 0xc3]);
}
