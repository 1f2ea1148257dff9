//! The first native code generator: operations on local variables that live in
//! the hardware register of the same number, compiled to method stubs and laid
//! out in an assembly of one page.
use crate::codegen::{layout, layout_offset, lemma_layout_prefix, lemma_layout_step};
use crate::mem_mgr::{ExecutableMemory, zeros};
use vstd::prelude::*;

verus! {

/// A local variable, held in the hardware register with its number.
#[derive(Debug, PartialEq, Eq, Clone, Copy, Structural)]
pub struct LocVar(pub u8);

/// Whether the variable has a hardware register: x86-64 has 16.
pub open spec fn loc_is_reg(v: LocVar) -> bool {
    v.0 < 16
}

/// Whether the variable is in one of the extended registers 8 to 15.
pub open spec fn loc_is_extended(v: LocVar) -> bool {
    7 < v.0 < 16
}

/// The REX prefix 0100WR0B, with R and B set for extended registers.
pub open spec fn stub_rex(is_wide: bool, a: LocVar, b: LocVar) -> int {
    0x40 + (if is_wide { 8int } else { 0 }) + (if loc_is_extended(a) { 4int } else { 0 }) + (
    if loc_is_extended(b) { 1int } else { 0 })
}

/// The ModRM byte of a register-to-register operation: `0xc0 | src << 3 | dst`.
pub open spec fn stub_mod_rm(src: LocVar, dst: LocVar) -> u8 {
    0xc0u8 | (src.0 << 3u8) | dst.0
}

fn create_rex_prefix(is_wide: bool, a: &LocVar, b: &LocVar) -> (p: u8)
    ensures
        p == stub_rex(is_wide, *a, *b),
{
    let is_wide: u8 = if is_wide {
        1
    } else {
        0
    };
    let mod_rm_a: u8 = if a.is_extended() {
        1
    } else {
        0
    };
    let mod_rm_b: u8 = if b.is_extended() {
        1
    } else {
        0
    };
    assert(0b100u8 << 4u8 | is_wide << 3u8 | mod_rm_a << 2u8 | mod_rm_b == 0x40 + 8 * is_wide + 4
        * mod_rm_a + mod_rm_b) by (bit_vector)
        requires
            is_wide < 2,
            mod_rm_a < 2,
            mod_rm_b < 2,
    ;
    0b100 << 4 | is_wide << 3 | mod_rm_a << 2 | mod_rm_b
}

impl LocVar {
    fn into_mod_rm(src: &LocVar, dst: &LocVar) -> (m: u8)
        requires
            loc_is_reg(*src),
            loc_is_reg(*dst),
        ensures
            m == stub_mod_rm(*src, *dst),
    {
        0xc0 | src.0 << 3 | dst.0
    }

    fn is_reg(&self) -> (r: bool)
        ensures
            r == loc_is_reg(*self),
    {
        self.0 < 16
    }

    //Checks if LocVar is extended (registers 8-15)
    fn is_extended(&self) -> (r: bool)
        ensures
            r == loc_is_extended(*self),
    {
        self.0 > 7 && self.0 < 16
    }
}

/// An operation of the stub code generator.
pub enum CodeGenOp {
    MovI32(LocVar, LocVar),
    Ret,
}

/// Whether the stub code generator can encode `op`: a move needs both variables in registers.
pub open spec fn stub_encodable(op: CodeGenOp) -> bool {
    match op {
        CodeGenOp::MovI32(src, dst) => loc_is_reg(src) && loc_is_reg(dst),
        CodeGenOp::Ret => true,
    }
}

/// The machine code of one operation: a wide `mov r64, r/m64` (8B) or `ret` (C3).
pub open spec fn stub_encode_op(op: CodeGenOp) -> Seq<u8> {
    match op {
        CodeGenOp::MovI32(src, dst) => seq![
            stub_rex(true, src, dst) as u8,
            0x8bu8,
            stub_mod_rm(src, dst),
        ],
        CodeGenOp::Ret => seq![0xc3u8],
    }
}

/// The machine code of `ops`: the code of each operation, in order.
pub open spec fn stub_encode_all(ops: Seq<CodeGenOp>) -> Seq<u8>
    decreases ops.len(),
{
    if ops.len() == 0 {
        Seq::empty()
    } else {
        stub_encode_all(ops.drop_last()) + stub_encode_op(ops.last())
    }
}

//Link entry: insert_point assembly_id method_id
//Label entry: code_point
//Field offset entry: insert_point assembly_id class_id field_id
/// A compiled method with the tables that linking will need.
pub struct MethodStub {
    code: Vec<u8>,
    link_table: Vec<(usize, (u32, u32))>,
    field_offset_table: Vec<(usize, (u32, u32, u32))>,
    label_table: Vec<usize>,
    label_jump_table: Vec<(usize, usize)>,
}

impl MethodStub {
    /// The method's machine code.
    pub closed spec fn code(&self) -> Seq<u8> {
        self.code@
    }

    /// Whether the method has no link, field offset, label or jump entries.
    pub closed spec fn tables_empty(&self) -> bool {
        &&& self.link_table@.len() == 0
        &&& self.field_offset_table@.len() == 0
        &&& self.label_table@.len() == 0
        &&& self.label_jump_table@.len() == 0
    }

    /// Compiles `ops`; every move must be between registers.
    pub fn new(ops: &[CodeGenOp]) -> (m: Self)
        requires
            forall|i: int| 0 <= i < ops@.len() ==> stub_encodable(#[trigger] ops@[i]),
        ensures
            m.code() == stub_encode_all(ops@),
            m.tables_empty(),
    {
        let mut nmeth = Self {
            code: Vec::new(),
            link_table: Vec::new(),
            field_offset_table: Vec::new(),
            label_table: Vec::new(),
            label_jump_table: Vec::new(),
        };
        nmeth.compile(ops);
        nmeth.finish_codegen();
        assert(nmeth.code@ =~= stub_encode_all(ops@));
        nmeth
    }

    //This is architecture specific function. This and only this will be architecture specific!
    fn compile(&mut self, ops: &[CodeGenOp])
        requires
            forall|i: int| 0 <= i < ops@.len() ==> stub_encodable(#[trigger] ops@[i]),
        ensures
            final(self).code@ == old(self).code@ + stub_encode_all(ops@),
            final(self).link_table == old(self).link_table,
            final(self).field_offset_table == old(self).field_offset_table,
            final(self).label_table == old(self).label_table,
            final(self).label_jump_table == old(self).label_jump_table,
    {
        let n = ops.len();
        for i in 0..n
            invariant
                n == ops@.len(),
                forall|i: int| 0 <= i < ops@.len() ==> stub_encodable(#[trigger] ops@[i]),
                self.code@ == old(self).code@ + stub_encode_all(ops@.take(i as int)),
                self.link_table == old(self).link_table,
                self.field_offset_table == old(self).field_offset_table,
                self.label_table == old(self).label_table,
                self.label_jump_table == old(self).label_jump_table,
        {
            let ghost before = self.code@;
            assert(stub_encodable(ops@[i as int]));
            match &ops[i] {
                CodeGenOp::MovI32(src, dst) => {
                    self.code.push(create_rex_prefix(true, src, dst));  //Prefix
                    self.code.push(0x8b);  //Move Register to Register
                    self.code.push(LocVar::into_mod_rm(src, dst));  // Mod/RM byte
                },
                CodeGenOp::Ret => self.code.push(0o303),
            }
            assert(ops@.take(i + 1).drop_last() =~= ops@.take(i as int));
            assert(self.code@ =~= before + stub_encode_op(ops@[i as int]));
        }
        assert(ops@.take(n as int) =~= ops@);
    }

    /// The method's machine code.
    pub fn code_bytes(&self) -> (r: &[u8])
        ensures
            r@ == self.code(),
    {
        self.code.as_slice()
    }

    //Finishes codegen and links internal labels.
    fn finish_codegen(&mut self)
        ensures
            *final(self) == *old(self),
    {
    }
}

/// The code of each method stub.
pub open spec fn stub_codes(ms: Seq<MethodStub>) -> Seq<Seq<u8>> {
    ms.map_values(|m: MethodStub| m.code())
}

/// The size of the executable memory of an assembly of stubs: one page less a byte.
pub open spec fn spec_stubs_size() -> nat {
    4095
}

/// Method stubs waiting to be laid out in an assembly.
pub struct AssemblyStub {
    pub methods: Vec<MethodStub>,
}

impl AssemblyStub {
    /// An assembly stub without methods.
    pub fn new() -> (a: Self)
        ensures
            a.methods@.len() == 0,
    {
        Self { methods: Vec::new() }
    }

    /// Lays the methods' code out back to back from the start of a page of executable
    /// memory. The code must fit in the first `stubs_size` bytes of the page.
    pub fn into_assembly(self) -> (a: Assembly)
        requires
            layout(stub_codes(self.methods@)).len() <= spec_stubs_size(),
        ensures
            a.wf(),
            a.memory().size() == 4096,
            a.memory().base() == 0,
            a.memory().bytes() == layout(stub_codes(self.methods@)) + zeros(
                (4096 - layout(stub_codes(self.methods@)).len()) as nat,
            ),
            a.offsets().len() == self.methods@.len(),
            forall|i: int|
                0 <= i < self.methods@.len() ==> #[trigger] a.offsets()[i] == layout_offset(
                    stub_codes(self.methods@),
                    i,
                ),
    {
        let size = self.stubs_size();
        let mut exec_mem = ExecutableMemory::new(size);
        assert(exec_mem.size() == 4096);
        let ghost codes = stub_codes(self.methods@);
        let n = self.methods.len();
        let mut offset: usize = 0;
        let mut methods: Vec<usize> = Vec::with_capacity(n);
        assert(codes.take(0) =~= Seq::<Seq<u8>>::empty());
        for i in 0..n
            invariant
                n == self.methods@.len(),
                codes == stub_codes(self.methods@),
                layout(codes).len() <= 4095,
                exec_mem.wf(),
                exec_mem.size() == 4096,
                exec_mem.base() == 0,
                offset == layout_offset(codes, i as int),
                exec_mem.bytes() == layout(codes.take(i as int)) + zeros((4096 - offset) as nat),
                methods@.len() == i,
                forall|j: int|
                    0 <= j < i ==> #[trigger] methods@[j] == layout_offset(codes, j) && methods@[j]
                        < 4096,
        {
            let method = &self.methods[i];
            proof {
                lemma_layout_step(codes, i as int);
                lemma_layout_prefix(codes, i + 1);
                assert(codes.take(n as int) =~= codes);
            }
            methods.push(offset);
            let size = method.code.len();
            exec_mem.write_slice_at(offset, method.code.as_slice());
            offset += size;
            assert(exec_mem.bytes() =~= layout(codes.take(i + 1)) + zeros((4096 - offset) as nat));
        }
        assert(codes.take(n as int) =~= codes);
        Assembly { exec_mem, methods }
    }

    /// The size of executable memory that an assembly of stubs takes.
    fn stubs_size(&self) -> (r: usize)
        ensures
            r == spec_stubs_size(),
    {
        return 4095;
    }
}

/// Method stubs laid out in executable memory, found by number.
#[derive(Debug)]
pub struct Assembly {
    exec_mem: ExecutableMemory,
    methods: Vec<usize>,
}

impl Assembly {
    /// The executable memory that holds the code.
    pub closed spec fn memory(&self) -> ExecutableMemory {
        self.exec_mem
    }

    /// The offset of each method in the memory.
    pub closed spec fn offsets(&self) -> Seq<usize> {
        self.methods@
    }

    /// The memory is well formed and every method starts inside it.
    pub open spec fn wf(&self) -> bool {
        &&& self.memory().wf()
        &&& forall|i: int|
            0 <= i < self.offsets().len() ==> #[trigger] self.offsets()[i] < self.memory().size()
    }

    /// The address of method `id`.
    pub fn get_method_address(&self, id: usize) -> (r: usize)
        requires
            self.wf(),
            id < self.offsets().len(),
        ensures
            r == self.memory().base() + self.offsets()[id as int],
    {
        self.exec_mem.get_ptr(self.methods[id])
    }

    /// The number of methods.
    pub fn method_count(&self) -> (r: usize)
        ensures
            r == self.offsets().len(),
    {
        self.methods.len()
    }

    /// Records that the assembly's memory is mapped at address `mem_beg`.
    pub fn place(&mut self, mem_beg: usize)
        requires
            old(self).wf(),
            mem_beg + old(self).memory().size() <= usize::MAX,
        ensures
            final(self).wf(),
            final(self).memory().base() == mem_beg,
            final(self).memory().size() == old(self).memory().size(),
            final(self).memory().bytes() == old(self).memory().bytes(),
            final(self).offsets() == old(self).offsets(),
    {
        self.exec_mem.place(mem_beg);
        assert forall|i: int| 0 <= i < self.offsets().len() implies #[trigger] self.offsets()[i]
            < self.memory().size() by {
            assert(old(self).offsets()[i] < old(self).memory().size());
        }
    }

    /// The executable memory that holds the code.
    pub fn exec_mem(&self) -> (r: &ExecutableMemory)
        ensures
            *r == self.memory(),
    {
        &self.exec_mem
    }
}

} // verus!
