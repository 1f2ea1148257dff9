# cil_jit

A small just-in-time compiler for a subset of CIL, with its compiler passes
stated in contracts and proved.

- `src/cil.rs`: the CIL operations and their lowering to the register IR.
- `src/codegen_ir.rs`: the IR, its optimiser (push/pop inlining, dead-move
  inlining, removal of operations that do nothing, repeated while the code
  shrinks) and `MethodIR`, a method lowered and optimised.
- `src/codegen/x86_64.rs`: the encoding of the IR as x86-64 machine code.
- `src/codegen.rs`: compiled methods and the `Assembly` that lays them out in
  executable memory and finds them by path.
- `src/codegen/stub.rs`: the first code generator, on local variables held in
  hardware registers, with its own one-page assembly.
- `src/mem_mgr.rs`: executable memory, modelled as a page-aligned image and the
  address where it is mapped.
- `app/lib.rs`: maps an assembly's image into executable pages and hands out its
  methods as function pointers (unsafe, unverified).

The tests under `tests/` run the generated code on a small model of the x86-64
registers.
