//! Native code generation: compiled methods and the assembly that holds them.
pub mod stub;
pub mod x86_64;

use crate::codegen_ir::MethodIR;
use crate::mem_mgr::{lemma_page_round_up, page_round_up, zeros, ExecutableMemory, PAGE_SIZE};
use vstd::hash_map::StringHashMap;
use vstd::prelude::*;
use x86_64::{all_encodable, compile_method, encode_all};

verus! {

/// A method compiled to native code.
pub struct CompiledMethod {
    pub code: Vec<u8>,
    pub arg_count: usize,
    pub path: String,
}

impl CompiledMethod {
    /// Gets the max space needed for writing this method(in future including alignment)
    pub fn get_max_space(&self) -> (r: usize)
        ensures
            r == self.code@.len(),
    {
        self.code.len()
    }

    /// The size of the method's code in bytes.
    pub fn get_size(&self) -> (r: usize)
        ensures
            r == self.code@.len(),
    {
        self.code.len()
    }

    /// The offset at which the method is placed when the next free offset is `offset`.
    pub fn align(&self, offset: usize) -> (r: usize)
        ensures
            r == offset,
    {
        offset
    }

    /// Compiles the method for the host architecture.
    pub fn compile(method: &MethodIR, path: &str) -> (c: Self)
        requires
            all_encodable(method.ops@),
        ensures
            c.code@ == encode_all(method.ops@),
            c.path@ == path@,
            c.arg_count == method.arg_count,
    {
        compile_method(method, path)
    }
}

/// The native code of a method.
pub open spec fn method_code(m: MethodIR) -> Seq<u8> {
    encode_all(m.ops@)
}

/// The pieces of code `codes` laid out back to back, in order.
pub open spec fn layout(codes: Seq<Seq<u8>>) -> Seq<u8>
    decreases codes.len(),
{
    if codes.len() == 0 {
        Seq::empty()
    } else {
        layout(codes.drop_last()) + codes.last()
    }
}

/// The offset at which piece `i` starts when `codes` are laid out back to back.
pub open spec fn layout_offset(codes: Seq<Seq<u8>>, i: int) -> nat {
    layout(codes.take(i)).len()
}

/// The native code of each method.
pub open spec fn method_codes(ms: Seq<MethodIR>) -> Seq<Seq<u8>> {
    ms.map_values(|m: MethodIR| method_code(m))
}

/// The code of the methods `ms`, laid out back to back in order.
pub open spec fn image(ms: Seq<MethodIR>) -> Seq<u8> {
    layout(method_codes(ms))
}

/// The method table of an assembly of the methods `ms`, each registered under `path`:
/// the path is mapped to the method's offset in `image(ms)` and its argument count,
/// a later method replacing an earlier one under the same path.
pub open spec fn method_table(ms: Seq<MethodIR>, path: Seq<char>) -> Map<Seq<char>, MethodInfo>
    decreases ms.len(),
{
    if ms.len() == 0 {
        Map::empty()
    } else {
        method_table(ms.drop_last(), path).insert(
            path,
            MethodInfo {
                offset: layout_offset(method_codes(ms), ms.len() - 1) as usize,
                arg_count: ms.last().arg_count,
            },
        )
    }
}

/// Laying out a prefix of the pieces gives a prefix of the whole layout.
pub proof fn lemma_layout_prefix(codes: Seq<Seq<u8>>, i: int)
    requires
        0 <= i <= codes.len(),
    ensures
        layout(codes.take(i)) == layout(codes).subrange(0, layout(codes.take(i)).len() as int),
        layout(codes.take(i)).len() <= layout(codes).len(),
    decreases codes.len(),
{
    if i < codes.len() {
        assert(codes.drop_last().take(i) =~= codes.take(i));
        lemma_layout_prefix(codes.drop_last(), i);
        assert(layout(codes).subrange(0, layout(codes.drop_last()).len() as int) =~= layout(
            codes.drop_last(),
        ));
        assert(layout(codes.take(i)) =~= layout(codes).subrange(
            0,
            layout(codes.take(i)).len() as int,
        ));
    } else {
        assert(codes.take(i) =~= codes);
        assert(layout(codes).subrange(0, layout(codes).len() as int) =~= layout(codes));
    }
}

/// Laying out one more piece appends it.
pub proof fn lemma_layout_step(codes: Seq<Seq<u8>>, i: int)
    requires
        0 <= i < codes.len(),
    ensures
        layout(codes.take(i + 1)) == layout(codes.take(i)) + codes[i],
        layout_offset(codes, i + 1) == layout_offset(codes, i) + codes[i].len(),
{
    assert(codes.take(i + 1).drop_last() =~= codes.take(i));
}

/// In a layout, the bytes from the offset of piece `i` on are that piece: what is
/// laid out can be read back where it was put.
pub proof fn lemma_layout_holds_piece(codes: Seq<Seq<u8>>, i: int)
    requires
        0 <= i < codes.len(),
    ensures
        layout_offset(codes, i) + codes[i].len() <= layout(codes).len(),
        layout(codes).subrange(
            layout_offset(codes, i) as int,
            (layout_offset(codes, i) + codes[i].len()) as int,
        ) == codes[i],
{
    lemma_layout_prefix(codes, i + 1);
    lemma_layout_step(codes, i);
    let pre = layout(codes.take(i + 1));
    let off = layout_offset(codes, i) as int;
    assert(pre.subrange(off, pre.len() as int) =~= codes[i]);
    assert(layout(codes).subrange(off, pre.len() as int) =~= pre.subrange(off, pre.len() as int));
}

/// An assembly's method table maps the path under which all its methods are registered
/// to the last of them, and reading the image at that entry's offset gives back that
/// method's code, whatever follows the image.
pub proof fn lemma_registered_code_readable(ms: Seq<MethodIR>, path: Seq<char>, rest: Seq<u8>)
    requires
        ms.len() > 0,
        image(ms).len() <= usize::MAX,
    ensures
        method_table(ms, path).dom() == set![path],
        method_table(ms, path)[path].arg_count == ms.last().arg_count,
        ({
            let off = method_table(ms, path)[path].offset as int;
            (image(ms) + rest).subrange(off, off + method_code(ms.last()).len())
                == method_code(ms.last())
        }),
    decreases ms.len(),
{
    let codes = method_codes(ms);
    let i = ms.len() - 1;
    lemma_layout_holds_piece(codes, i);
    if ms.len() > 1 {
        lemma_layout_prefix(codes, i);
        assert(method_codes(ms.drop_last()) =~= codes.take(i));
        lemma_registered_code_readable(ms.drop_last(), path, rest);
    } else {
        assert(method_table(ms.drop_last(), path).dom() =~= Set::<Seq<char>>::empty());
    }
    assert(method_table(ms, path).dom() =~= set![path]);
    let off = layout_offset(codes, i) as int;
    let len = method_code(ms.last()).len() as int;
    assert((image(ms) + rest).subrange(off, off + len) =~= image(ms).subrange(off, off + len));
}

/// Where a compiled method lies in an assembly, and how many arguments it takes.
pub struct MethodInfo {
    pub offset: usize,
    pub arg_count: usize,
}

impl MethodInfo {
    fn new(offset: usize, arg_count: usize) -> (r: Self)
        ensures
            r == (MethodInfo { offset, arg_count }),
    {
        Self { offset, arg_count }
    }
}

/// Compiled methods laid out in executable memory, found by path.
pub struct Assembly {
    exec_mem: ExecutableMemory,
    method_info: StringHashMap<MethodInfo>,
}

impl Assembly {
    /// The executable memory that holds the code.
    pub closed spec fn memory(&self) -> ExecutableMemory {
        self.exec_mem
    }

    /// The method table: path to offset and argument count.
    pub closed spec fn methods(&self) -> Map<Seq<char>, MethodInfo> {
        self.method_info@
    }

    /// The memory is well formed and every method starts inside it.
    pub open spec fn wf(&self) -> bool {
        &&& self.memory().wf()
        &&& forall|k: Seq<char>|
            #[trigger] self.methods().contains_key(k) ==> self.methods()[k].offset
                < self.memory().size()
    }

    /// Compiles the methods and lays their code out back to back in executable memory
    /// of the total size rounded up to whole pages, registering each under the path "TODO".
    /// The last method must end before the end of the memory, so the total size may
    /// not be a whole number of pages unless there is no method.
    #[verifier::spinoff_prover]
    #[verifier::rlimit(30)]
    pub fn from_raw(methods: &[MethodIR]) -> (a: Self)
        requires
            forall|i: int| 0 <= i < methods@.len() ==> all_encodable(#[trigger] methods@[i].ops@),
            image(methods@).len() + (PAGE_SIZE - 1) <= usize::MAX,
            methods@.len() == 0 || image(methods@).len() % PAGE_SIZE as nat != 0,
        ensures
            a.wf(),
            a.memory().size() == page_round_up(image(methods@).len()),
            a.memory().bytes() == image(methods@) + zeros(
                (a.memory().size() - image(methods@).len()) as nat,
            ),
            a.memory().base() == 0,
            a.methods() == method_table(methods@, "TODO"@),
    {
        let ghost ms = methods@;
        let ghost codes = method_codes(ms);
        let n = methods.len();
        let mut total_size: usize = 0;
        let mut compiled_methods: Vec<CompiledMethod> = Vec::with_capacity(n);
        for i in 0..n
            invariant
                n == ms.len(),
                ms == methods@,
                codes == method_codes(ms),
                forall|i: int| 0 <= i < ms.len() ==> all_encodable(#[trigger] ms[i].ops@),
                layout(codes).len() + (PAGE_SIZE - 1) <= usize::MAX,
                compiled_methods@.len() == i,
                forall|j: int|
                    0 <= j < i ==> {
                        &&& (#[trigger] compiled_methods@[j]).code@ == codes[j]
                        &&& compiled_methods@[j].path@ == "TODO"@
                        &&& compiled_methods@[j].arg_count == ms[j].arg_count
                    },
                total_size == layout_offset(codes, i as int),
        {
            let compiled = CompiledMethod::compile(&methods[i], "TODO");
            proof {
                lemma_layout_step(codes, i as int);
                lemma_layout_prefix(codes, i + 1);
            }
            total_size += compiled.get_max_space();
            compiled_methods.push(compiled);
        }
        assert(codes.take(n as int) =~= codes);
        let mut exec_mem = ExecutableMemory::new(total_size);
        let ghost mem_size = exec_mem.size();
        proof {
            lemma_page_round_up(total_size as nat);
        }
        let mut offset: usize = 0;
        let mut method_info: StringHashMap<MethodInfo> = StringHashMap::with_capacity(n);
        assert(codes.take(0) =~= Seq::<Seq<u8>>::empty());
        assert(ms.take(0) =~= Seq::<MethodIR>::empty());
        for i in 0..n
            invariant
                n == ms.len(),
                n == compiled_methods@.len(),
                codes == method_codes(ms),
                forall|j: int|
                    0 <= j < n ==> {
                        &&& (#[trigger] compiled_methods@[j]).code@ == codes[j]
                        &&& compiled_methods@[j].path@ == "TODO"@
                        &&& compiled_methods@[j].arg_count == ms[j].arg_count
                    },
                total_size == layout(codes).len(),
                n == 0 || total_size as nat % PAGE_SIZE as nat != 0,
                mem_size == page_round_up(total_size as nat),
                mem_size % PAGE_SIZE as nat == 0,
                total_size <= mem_size,
                exec_mem.wf(),
                exec_mem.size() == mem_size,
                exec_mem.base() == 0,
                offset == layout_offset(codes, i as int),
                exec_mem.bytes() == layout(codes.take(i as int)) + zeros((mem_size - offset) as nat),
                method_info@ == method_table(ms.take(i as int), "TODO"@),
                forall|k: Seq<char>|
                    #[trigger] method_info@.contains_key(k) ==> method_info@[k].offset < mem_size,
        {
            let method = &compiled_methods[i];
            proof {
                lemma_layout_step(codes, i as int);
                lemma_layout_prefix(codes, i + 1);
                assert(codes.take(n as int) =~= codes);
                assert(ms.take(i + 1).drop_last() =~= ms.take(i as int));
                assert(method_codes(ms.take(i + 1)).take(i as int) =~= codes.take(i as int));
            }
            offset = method.align(offset);
            let beg = offset;
            let size = method.get_size();
            exec_mem.write_slice_at(offset, method.code.as_slice());
            offset += size;
            assert(exec_mem.bytes() =~= layout(codes.take(i + 1)) + zeros(
                (mem_size - offset) as nat,
            ));
            method_info.insert(method.path.clone(), MethodInfo::new(beg, method.arg_count));
        }
        assert(ms.take(n as int) =~= ms);
        assert(codes.take(n as int) =~= codes);
        Self { exec_mem, method_info }
    }

    /// The address of the method registered under `key`, if there is one.
    pub fn get_method_address(&self, key: &str) -> (r: Option<usize>)
        requires
            self.wf(),
        ensures
            r == (if self.methods().contains_key(key@) {
                Some((self.memory().base() + self.methods()[key@].offset) as usize)
            } else {
                None
            }),
    {
        match self.method_info.get(key) {
            Some(mi) => Some(self.exec_mem.get_ptr(mi.offset)),
            None => None,
        }
    }

    /// Records that the assembly's memory is mapped at address `mem_beg`.
    pub fn place(&mut self, mem_beg: usize)
        requires
            old(self).wf(),
            mem_beg + old(self).memory().size() <= usize::MAX,
        ensures
            final(self).wf(),
            final(self).memory().base() == mem_beg,
            final(self).memory().size() == old(self).memory().size(),
            final(self).memory().bytes() == old(self).memory().bytes(),
            final(self).methods() == old(self).methods(),
    {
        self.exec_mem.place(mem_beg);
        assert forall|k: Seq<char>| #[trigger] self.methods().contains_key(k) implies self.methods()[k].offset
            < self.memory().size() by {
            assert(old(self).methods().contains_key(k));
        }
    }

    /// The executable memory that holds the code.
    pub fn exec_mem(&self) -> (r: &ExecutableMemory)
        ensures
            *r == self.memory(),
    {
        &self.exec_mem
    }
}

} // verus!
