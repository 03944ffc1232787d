//! The just-in-time compiler's emission stage: lower a finalized token
//! stream into the body of a code generator function that takes the
//! tape's base address and executes the program against it. The
//! surrounding work — picking the target, compiling the function and
//! mapping it executable — is the caller's, since it is tied to the
//! host platform; the per-opcode lowering and the loop block
//! discipline live here.
//!
//! The function under construction is modeled by its emission trace:
//! an abstract sequence with one [`EmitStep`] record per builder
//! operation, named by the uninterpreted [`emitted`]. Each trusted
//! wrapper states which record its call appends, and the emission
//! stage guarantees that the trace it appends is exactly [`lower`] of
//! the token stream — the per-opcode operation sequences of the
//! lowering, with their immediates, in order. How the emitted values
//! feed each other is not part of the model; the records carry the
//! operation kinds and immediates alone.

use vstd::prelude::*;

verus! {

use crate::code::{Token, TokenStream, balanced, net, wf_stream, lemma_net_step, op_valid};
use cranelift::codegen::ir::InstBuilder;
use crate::STORAGE_SIZE;

#[verifier::external_type_specification]
#[verifier::external_body]
/// The code generator's function builder.
pub struct ExFunctionBuilder<'a>(cranelift::frontend::FunctionBuilder<'a>);

#[verifier::external_type_specification]
#[verifier::external_body]
/// A basic block of the generated function.
pub struct ExBlock(cranelift::codegen::ir::Block);

#[verifier::external_type_specification]
#[verifier::external_body]
/// An SSA value of the generated function.
pub struct ExValue(cranelift::codegen::ir::Value);

#[verifier::external_type_specification]
#[verifier::external_body]
/// A declared variable of the generated function.
pub struct ExVariable(cranelift::frontend::Variable);

#[verifier::external_type_specification]
#[verifier::external_body]
/// A value type of the code generator.
pub struct ExType(cranelift::codegen::ir::Type);

#[verifier::external_type_specification]
#[verifier::external_body]
/// A calling convention of the target.
pub struct ExCallConv(cranelift::codegen::isa::CallConv);

#[verifier::external_type_specification]
#[verifier::external_body]
/// A reference to an imported signature.
pub struct ExSigRef(cranelift::codegen::ir::SigRef);

#[verifier::external_type_specification]
#[verifier::external_body]
/// Flags attached to memory operations.
pub struct ExMemFlags(cranelift::codegen::ir::MemFlagsData);

/// One recorded builder operation: the operation's kind together with
/// the immediates and caller-supplied types it was invoked with.
pub ghost enum EmitStep {
    /// A new basic block was created.
    CreateBlock,
    /// A block was sealed: all its predecessors are known.
    SealBlock,
    /// Emission switched to a block.
    SwitchToBlock,
    /// The entry block received the function's parameters and the
    /// first one was taken as the tape base.
    EntryParam,
    /// A variable of the given type was declared.
    DeclareVar(cranelift::codegen::ir::Type),
    /// The variable's current value was read.
    UseVar,
    /// The variable was assigned a value.
    DefVar,
    /// An integer constant of the given type and value.
    Iconst(cranelift::codegen::ir::Type, i64),
    /// An integer constant of the byte type.
    IconstByte(i64),
    /// An addition of two values.
    Iadd,
    /// An addition of an immediate to a value.
    IaddImm(i64),
    /// A byte load at offset zero.
    LoadByte,
    /// A store at offset zero.
    Store,
    /// A comparison against an immediate for equality.
    IcmpImmEq(i64),
    /// A signed less-than comparison against an immediate.
    IcmpImmSlt(i64),
    /// A selection between two values.
    Select,
    /// A conditional branch to two blocks.
    Brif,
    /// A return with no values.
    Return,
    /// The read port's signature was imported, with the given calling
    /// convention: no parameters, one byte result.
    ImportReadSig(cranelift::codegen::isa::CallConv),
    /// The write port's signature was imported, with the given calling
    /// convention: one byte parameter, no result.
    ImportWriteSig(cranelift::codegen::isa::CallConv),
    /// An indirect call to the read port.
    CallRead,
    /// An indirect call to the write port.
    CallWrite,
}

/// The emission trace of the function under construction: one record
/// per builder operation performed through the wrappers below, in
/// order. The wrappers state how each call extends it.
pub uninterp spec fn emitted(b: cranelift::frontend::FunctionBuilder<'_>) -> Seq<EmitStep>;

/// Relies on cranelift's MemFlagsData::new: plain flags for loads and
/// stores.
#[verifier::external_body]
fn w_mem_flags() -> cranelift::codegen::ir::MemFlagsData {
    cranelift::codegen::ir::MemFlagsData::new()
}

/// Relies on cranelift's FunctionBuilder::create_block.
#[verifier::external_body]
fn w_create_block<'a>(b: &mut cranelift::frontend::FunctionBuilder<'a>) -> (r:
    cranelift::codegen::ir::Block)
    ensures
        emitted(*final(b)) == emitted(*old(b)).push(EmitStep::CreateBlock),
{
    b.create_block()
}

/// Relies on cranelift's FunctionBuilder::switch_to_block.
#[verifier::external_body]
fn w_switch_to_block<'a>(
    b: &mut cranelift::frontend::FunctionBuilder<'a>,
    blk: cranelift::codegen::ir::Block,
)
    ensures
        emitted(*final(b)) == emitted(*old(b)).push(EmitStep::SwitchToBlock),
{
    b.switch_to_block(blk)
}

/// Relies on cranelift's FunctionBuilder::seal_block: all of the
/// block's predecessors are known.
#[verifier::external_body]
fn w_seal_block<'a>(
    b: &mut cranelift::frontend::FunctionBuilder<'a>,
    blk: cranelift::codegen::ir::Block,
)
    ensures
        emitted(*final(b)) == emitted(*old(b)).push(EmitStep::SealBlock),
{
    b.seal_block(blk)
}

/// Relies on cranelift's
/// FunctionBuilder::append_block_params_for_function_params and
/// FunctionBuilder::block_params: gives the block one parameter per
/// function parameter and hands back the first, if there is one.
#[verifier::external_body]
fn w_entry_param<'a>(
    b: &mut cranelift::frontend::FunctionBuilder<'a>,
    blk: cranelift::codegen::ir::Block,
) -> (r: Option<cranelift::codegen::ir::Value>)
    ensures
        emitted(*final(b)) == emitted(*old(b)).push(EmitStep::EntryParam),
{
    b.append_block_params_for_function_params(blk);
    b.block_params(blk).first().copied()
}

/// Relies on cranelift's FunctionBuilder::declare_var.
#[verifier::external_body]
fn w_declare_var<'a>(
    b: &mut cranelift::frontend::FunctionBuilder<'a>,
    ty: cranelift::codegen::ir::Type,
) -> (r: cranelift::frontend::Variable)
    ensures
        emitted(*final(b)) == emitted(*old(b)).push(EmitStep::DeclareVar(ty)),
{
    b.declare_var(ty)
}

/// Relies on cranelift's FunctionBuilder::use_var.
#[verifier::external_body]
fn w_use_var<'a>(
    b: &mut cranelift::frontend::FunctionBuilder<'a>,
    var: cranelift::frontend::Variable,
) -> (r: cranelift::codegen::ir::Value)
    ensures
        emitted(*final(b)) == emitted(*old(b)).push(EmitStep::UseVar),
{
    b.use_var(var)
}

/// Relies on cranelift's FunctionBuilder::def_var.
#[verifier::external_body]
fn w_def_var<'a>(
    b: &mut cranelift::frontend::FunctionBuilder<'a>,
    var: cranelift::frontend::Variable,
    val: cranelift::codegen::ir::Value,
)
    ensures
        emitted(*final(b)) == emitted(*old(b)).push(EmitStep::DefVar),
{
    b.def_var(var, val)
}

/// Relies on cranelift's InstBuilder::iconst at the given type.
#[verifier::external_body]
fn w_iconst<'a>(
    b: &mut cranelift::frontend::FunctionBuilder<'a>,
    ty: cranelift::codegen::ir::Type,
    imm: i64,
) -> (r: cranelift::codegen::ir::Value)
    ensures
        emitted(*final(b)) == emitted(*old(b)).push(EmitStep::Iconst(ty, imm)),
{
    b.ins().iconst(ty, imm)
}

/// Relies on cranelift's InstBuilder::iconst at the byte type.
#[verifier::external_body]
fn w_iconst_byte<'a>(b: &mut cranelift::frontend::FunctionBuilder<'a>, imm: i64) -> (r:
    cranelift::codegen::ir::Value)
    ensures
        emitted(*final(b)) == emitted(*old(b)).push(EmitStep::IconstByte(imm)),
{
    b.ins().iconst(cranelift::codegen::ir::types::I8, imm)
}

/// Relies on cranelift's InstBuilder::iadd.
#[verifier::external_body]
fn w_iadd<'a>(
    b: &mut cranelift::frontend::FunctionBuilder<'a>,
    x: cranelift::codegen::ir::Value,
    y: cranelift::codegen::ir::Value,
) -> (r: cranelift::codegen::ir::Value)
    ensures
        emitted(*final(b)) == emitted(*old(b)).push(EmitStep::Iadd),
{
    b.ins().iadd(x, y)
}

/// Relies on cranelift's InstBuilder::iadd_imm.
#[verifier::external_body]
fn w_iadd_imm<'a>(
    b: &mut cranelift::frontend::FunctionBuilder<'a>,
    x: cranelift::codegen::ir::Value,
    imm: i64,
) -> (r: cranelift::codegen::ir::Value)
    ensures
        emitted(*final(b)) == emitted(*old(b)).push(EmitStep::IaddImm(imm)),
{
    b.ins().iadd_imm(x, imm)
}

/// Relies on cranelift's InstBuilder::load at the byte type, offset
/// zero.
#[verifier::external_body]
fn w_load_byte<'a>(
    b: &mut cranelift::frontend::FunctionBuilder<'a>,
    flags: cranelift::codegen::ir::MemFlagsData,
    addr: cranelift::codegen::ir::Value,
) -> (r: cranelift::codegen::ir::Value)
    ensures
        emitted(*final(b)) == emitted(*old(b)).push(EmitStep::LoadByte),
{
    b.ins().load(cranelift::codegen::ir::types::I8, flags, addr, 0)
}

/// Relies on cranelift's InstBuilder::store at offset zero.
#[verifier::external_body]
fn w_store<'a>(
    b: &mut cranelift::frontend::FunctionBuilder<'a>,
    flags: cranelift::codegen::ir::MemFlagsData,
    val: cranelift::codegen::ir::Value,
    addr: cranelift::codegen::ir::Value,
)
    ensures
        emitted(*final(b)) == emitted(*old(b)).push(EmitStep::Store),
{
    b.ins().store(flags, val, addr, 0);
}

/// Relies on cranelift's InstBuilder::icmp_imm with the equality
/// condition.
#[verifier::external_body]
fn w_icmp_imm_eq<'a>(
    b: &mut cranelift::frontend::FunctionBuilder<'a>,
    x: cranelift::codegen::ir::Value,
    imm: i64,
) -> (r: cranelift::codegen::ir::Value)
    ensures
        emitted(*final(b)) == emitted(*old(b)).push(EmitStep::IcmpImmEq(imm)),
{
    b.ins().icmp_imm(cranelift::codegen::ir::condcodes::IntCC::Equal, x, imm)
}

/// Relies on cranelift's InstBuilder::icmp_imm with the signed
/// less-than condition.
#[verifier::external_body]
fn w_icmp_imm_slt<'a>(
    b: &mut cranelift::frontend::FunctionBuilder<'a>,
    x: cranelift::codegen::ir::Value,
    imm: i64,
) -> (r: cranelift::codegen::ir::Value)
    ensures
        emitted(*final(b)) == emitted(*old(b)).push(EmitStep::IcmpImmSlt(imm)),
{
    b.ins().icmp_imm(cranelift::codegen::ir::condcodes::IntCC::SignedLessThan, x, imm)
}

/// Relies on cranelift's InstBuilder::select.
#[verifier::external_body]
fn w_select<'a>(
    b: &mut cranelift::frontend::FunctionBuilder<'a>,
    cond: cranelift::codegen::ir::Value,
    x: cranelift::codegen::ir::Value,
    y: cranelift::codegen::ir::Value,
) -> (r: cranelift::codegen::ir::Value)
    ensures
        emitted(*final(b)) == emitted(*old(b)).push(EmitStep::Select),
{
    b.ins().select(cond, x, y)
}

/// Relies on cranelift's InstBuilder::brif with no block arguments:
/// branch to the first block when the condition is nonzero, else to
/// the second.
#[verifier::external_body]
fn w_brif<'a>(
    b: &mut cranelift::frontend::FunctionBuilder<'a>,
    cond: cranelift::codegen::ir::Value,
    then_blk: cranelift::codegen::ir::Block,
    else_blk: cranelift::codegen::ir::Block,
)
    ensures
        emitted(*final(b)) == emitted(*old(b)).push(EmitStep::Brif),
{
    b.ins().brif(cond, then_blk, &[], else_blk, &[]);
}

/// Relies on cranelift's InstBuilder::return_ with no values.
#[verifier::external_body]
fn w_return<'a>(b: &mut cranelift::frontend::FunctionBuilder<'a>)
    ensures
        emitted(*final(b)) == emitted(*old(b)).push(EmitStep::Return),
{
    b.ins().return_(&[]);
}

/// Relies on cranelift's Signature::new, AbiParam::new and
/// FunctionBuilder::import_signature: imports the signature of the
/// read port, a function of no arguments returning one byte.
#[verifier::external_body]
fn w_import_read_signature<'a>(
    b: &mut cranelift::frontend::FunctionBuilder<'a>,
    call_conv: cranelift::codegen::isa::CallConv,
) -> (r: cranelift::codegen::ir::SigRef)
    ensures
        emitted(*final(b)) == emitted(*old(b)).push(EmitStep::ImportReadSig(call_conv)),
{
    let mut sig = cranelift::codegen::ir::Signature::new(call_conv);
    sig.returns.push(cranelift::codegen::ir::AbiParam::new(cranelift::codegen::ir::types::I8));
    b.import_signature(sig)
}

/// Relies on cranelift's Signature::new, AbiParam::new and
/// FunctionBuilder::import_signature: imports the signature of the
/// write port, a function of one byte argument returning nothing.
#[verifier::external_body]
fn w_import_write_signature<'a>(
    b: &mut cranelift::frontend::FunctionBuilder<'a>,
    call_conv: cranelift::codegen::isa::CallConv,
) -> (r: cranelift::codegen::ir::SigRef)
    ensures
        emitted(*final(b)) == emitted(*old(b)).push(EmitStep::ImportWriteSig(call_conv)),
{
    let mut sig = cranelift::codegen::ir::Signature::new(call_conv);
    sig.params.push(cranelift::codegen::ir::AbiParam::new(cranelift::codegen::ir::types::I8));
    b.import_signature(sig)
}

/// Relies on cranelift's InstBuilder::call_indirect and
/// FunctionBuilder::inst_results: calls the read port and hands back
/// the call's first result, if there is one.
#[verifier::external_body]
fn w_call_read<'a>(
    b: &mut cranelift::frontend::FunctionBuilder<'a>,
    sig: cranelift::codegen::ir::SigRef,
    callee: cranelift::codegen::ir::Value,
) -> (r: Option<cranelift::codegen::ir::Value>)
    ensures
        emitted(*final(b)) == emitted(*old(b)).push(EmitStep::CallRead),
{
    let inst = b.ins().call_indirect(sig, callee, &[]);
    b.inst_results(inst).first().copied()
}

/// Relies on cranelift's InstBuilder::call_indirect: calls the write
/// port with the given byte value.
#[verifier::external_body]
fn w_call_write<'a>(
    b: &mut cranelift::frontend::FunctionBuilder<'a>,
    sig: cranelift::codegen::ir::SigRef,
    callee: cranelift::codegen::ir::Value,
    arg: cranelift::codegen::ir::Value,
)
    ensures
        emitted(*final(b)) == emitted(*old(b)).push(EmitStep::CallWrite),
{
    b.ins().call_indirect(sig, callee, &[arg]);
}

/// The operations that read the byte under the data pointer: the
/// pointer variable plus the tape base gives the cell address, which
/// is loaded.
pub open spec fn load_cell_steps() -> Seq<EmitStep> {
    seq![EmitStep::UseVar, EmitStep::Iadd, EmitStep::LoadByte]
}

/// The operations that compute the tape index at distance `d` from a
/// pointer value, wrapped around the tape: both the plain and the
/// wrapped index are computed and the right one selected.
pub open spec fn wrapped_index_steps(d: int) -> Seq<EmitStep> {
    seq![
        EmitStep::IaddImm(d as i64),
        EmitStep::IaddImm((d - STORAGE_SIZE) as i64),
        EmitStep::IcmpImmSlt(STORAGE_SIZE as i64),
        EmitStep::Select,
    ]
}

/// The operations the lowering emits for one opcode.
pub open spec fn op_steps(t: Token) -> Seq<EmitStep> {
    match t {
        Token::Add(n) => load_cell_steps() + seq![EmitStep::IaddImm(n as i64), EmitStep::Store],
        Token::Move(d) => seq![EmitStep::UseVar] + wrapped_index_steps(d as int) + seq![
            EmitStep::DefVar,
        ],
        Token::Input => seq![
            EmitStep::UseVar,
            EmitStep::Iadd,
            EmitStep::CallRead,
            EmitStep::Store,
        ],
        Token::Output => load_cell_steps() + seq![EmitStep::CallWrite],
        Token::OpenBr(_) => seq![EmitStep::CreateBlock, EmitStep::CreateBlock] + load_cell_steps()
            + seq![EmitStep::IcmpImmEq(0), EmitStep::Brif, EmitStep::SwitchToBlock],
        Token::CloseBr(_) => load_cell_steps() + seq![
            EmitStep::IcmpImmEq(0),
            EmitStep::Brif,
            EmitStep::SealBlock,
            EmitStep::SealBlock,
            EmitStep::SwitchToBlock,
        ],
        Token::ClearCell => seq![
            EmitStep::UseVar,
            EmitStep::Iadd,
            EmitStep::IconstByte(0),
            EmitStep::Store,
        ],
        Token::AddTo(d) => seq![EmitStep::UseVar, EmitStep::Iadd, EmitStep::LoadByte]
            + wrapped_index_steps(d as int) + seq![
            EmitStep::Iadd,
            EmitStep::LoadByte,
            EmitStep::Iadd,
            EmitStep::Store,
            EmitStep::IconstByte(0),
            EmitStep::Store,
        ],
        Token::AddToCopy(d1, d2) => seq![EmitStep::UseVar, EmitStep::Iadd, EmitStep::LoadByte]
            + wrapped_index_steps(d1 as int) + seq![
            EmitStep::Iadd,
            EmitStep::LoadByte,
            EmitStep::Iadd,
            EmitStep::Store,
        ] + wrapped_index_steps(d2 as int) + seq![
            EmitStep::Iadd,
            EmitStep::LoadByte,
            EmitStep::Iadd,
            EmitStep::Store,
            EmitStep::IconstByte(0),
            EmitStep::Store,
        ],
    }
}

/// The operations the lowering emits for a whole stream, in order.
pub open spec fn lower_ops(s: Seq<Token>) -> Seq<EmitStep>
    decreases s.len(),
{
    if s.len() == 0 {
        Seq::empty()
    } else {
        lower_ops(s.drop_last()) + op_steps(s.last())
    }
}

/// The operations of the function prologue: the sealed entry block
/// with the tape-base parameter, the zero-initialized pointer
/// variable, and the two imported port signatures with the ports'
/// addresses as pointer-typed constants.
pub open spec fn prologue_steps(
    ptr_type: cranelift::codegen::ir::Type,
    call_conv: cranelift::codegen::isa::CallConv,
    read_address: i64,
    write_address: i64,
) -> Seq<EmitStep> {
    seq![
        EmitStep::CreateBlock,
        EmitStep::SealBlock,
        EmitStep::EntryParam,
        EmitStep::SwitchToBlock,
        EmitStep::DeclareVar(ptr_type),
        EmitStep::Iconst(ptr_type, 0),
        EmitStep::DefVar,
        EmitStep::ImportReadSig(call_conv),
        EmitStep::Iconst(ptr_type, read_address),
        EmitStep::ImportWriteSig(call_conv),
        EmitStep::Iconst(ptr_type, write_address),
    ]
}

/// The whole emission trace of lowering a stream: the prologue, the
/// per-opcode operations, and the final return.
pub open spec fn lower(
    s: Seq<Token>,
    ptr_type: cranelift::codegen::ir::Type,
    call_conv: cranelift::codegen::isa::CallConv,
    read_address: i64,
    write_address: i64,
) -> Seq<EmitStep> {
    prologue_steps(ptr_type, call_conv, read_address, write_address) + lower_ops(s) + seq![
        EmitStep::Return,
    ]
}

/// Load the byte under the data pointer: the pointer variable plus the
/// tape base gives the cell address.
fn emit_load_cell<'a>(
    builder: &mut cranelift::frontend::FunctionBuilder<'a>,
    mem_flags: cranelift::codegen::ir::MemFlagsData,
    memory_address: cranelift::codegen::ir::Value,
    data_ptr: cranelift::frontend::Variable,
) -> (r: (cranelift::codegen::ir::Value, cranelift::codegen::ir::Value))
    ensures
        emitted(*final(builder)) == emitted(*old(builder)) + load_cell_steps(),
{
    let ptr_val = w_use_var(builder, data_ptr);
    let cell_address = w_iadd(builder, memory_address, ptr_val);
    let cell_value = w_load_byte(builder, mem_flags, cell_address);
    proof {
        assert(emitted(*builder) =~= emitted(*old(builder)) + load_cell_steps());
    }
    (cell_address, cell_value)
}

/// The address of the cell at distance `d` from the data pointer,
/// wrapped around the tape: both the plain and the wrapped index are
/// computed and the right one selected, so that the pointer update is
/// a straight-line instruction sequence without a branch.
fn emit_wrapped_index<'a>(
    builder: &mut cranelift::frontend::FunctionBuilder<'a>,
    ptr_val: cranelift::codegen::ir::Value,
    d: i64,
) -> (r: cranelift::codegen::ir::Value)
    requires
        0 <= d < STORAGE_SIZE,
    ensures
        emitted(*final(builder)) == emitted(*old(builder)) + wrapped_index_steps(d as int),
{
    let plus = w_iadd_imm(builder, ptr_val, d);
    let wrapped = w_iadd_imm(builder, ptr_val, d - STORAGE_SIZE as i64);
    let cmp = w_icmp_imm_slt(builder, plus, STORAGE_SIZE as i64);
    let r = w_select(builder, cmp, plus, wrapped);
    proof {
        assert(emitted(*builder) =~= emitted(*old(builder)) + wrapped_index_steps(d as int));
    }
    r
}

/// Emit the operations for one addition opcode.
fn emit_add<'a>(
    builder: &mut cranelift::frontend::FunctionBuilder<'a>,
    mem_flags: cranelift::codegen::ir::MemFlagsData,
    memory_address: cranelift::codegen::ir::Value,
    data_ptr: cranelift::frontend::Variable,
    add_v: u8,
)
    ensures
        emitted(*final(builder)) == emitted(*old(builder)) + op_steps(Token::Add(add_v)),
{
    let (cell_address, cell_value) = emit_load_cell(builder, mem_flags, memory_address, data_ptr);
    let cell_value = w_iadd_imm(builder, cell_value, add_v as i64);
    w_store(builder, mem_flags, cell_value, cell_address);
    proof {
        assert(emitted(*builder) =~= emitted(*old(builder)) + op_steps(Token::Add(add_v)));
    }
}

/// Emit the operations for one move opcode.
fn emit_move<'a>(
    builder: &mut cranelift::frontend::FunctionBuilder<'a>,
    data_ptr: cranelift::frontend::Variable,
    d: usize,
)
    requires
        d < STORAGE_SIZE,
    ensures
        emitted(*final(builder)) == emitted(*old(builder)) + op_steps(Token::Move(d)),
{
    let ptr_val = w_use_var(builder, data_ptr);
    let new_ptr = emit_wrapped_index(builder, ptr_val, d as i64);
    w_def_var(builder, data_ptr, new_ptr);
    proof {
        assert(emitted(*builder) =~= emitted(*old(builder)) + op_steps(Token::Move(d)));
    }
}

/// Emit the operations for one input opcode; false if the port call
/// handed back no result.
fn emit_input<'a>(
    builder: &mut cranelift::frontend::FunctionBuilder<'a>,
    mem_flags: cranelift::codegen::ir::MemFlagsData,
    memory_address: cranelift::codegen::ir::Value,
    data_ptr: cranelift::frontend::Variable,
    read_sig: cranelift::codegen::ir::SigRef,
    read_callee: cranelift::codegen::ir::Value,
) -> (ok: bool)
    ensures
        ok ==> emitted(*final(builder)) == emitted(*old(builder)) + op_steps(Token::Input),
{
    let ptr_val = w_use_var(builder, data_ptr);
    let cell_address = w_iadd(builder, memory_address, ptr_val);
    let read_res = match w_call_read(builder, read_sig, read_callee) {
        Some(v) => v,
        None => {
            return false;
        },
    };
    w_store(builder, mem_flags, read_res, cell_address);
    proof {
        assert(emitted(*builder) =~= emitted(*old(builder)) + op_steps(Token::Input));
    }
    true
}

/// Emit the operations for one output opcode.
fn emit_output<'a>(
    builder: &mut cranelift::frontend::FunctionBuilder<'a>,
    mem_flags: cranelift::codegen::ir::MemFlagsData,
    memory_address: cranelift::codegen::ir::Value,
    data_ptr: cranelift::frontend::Variable,
    write_sig: cranelift::codegen::ir::SigRef,
    write_callee: cranelift::codegen::ir::Value,
)
    ensures
        emitted(*final(builder)) == emitted(*old(builder)) + op_steps(Token::Output),
{
    let (_, cell_value) = emit_load_cell(builder, mem_flags, memory_address, data_ptr);
    w_call_write(builder, write_sig, write_callee, cell_value);
    proof {
        assert(emitted(*builder) =~= emitted(*old(builder)) + op_steps(Token::Output));
    }
}

/// Emit the operations for one open bracket: create the loop body and
/// continuation blocks, test the cell, branch, and continue emission
/// in the body. Returns the pair of blocks for the matching close
/// bracket.
fn emit_open<'a>(
    builder: &mut cranelift::frontend::FunctionBuilder<'a>,
    mem_flags: cranelift::codegen::ir::MemFlagsData,
    memory_address: cranelift::codegen::ir::Value,
    data_ptr: cranelift::frontend::Variable,
    jmp: usize,
) -> (blocks: (cranelift::codegen::ir::Block, cranelift::codegen::ir::Block))
    ensures
        emitted(*final(builder)) == emitted(*old(builder)) + op_steps(Token::OpenBr(jmp)),
{
    let inner_block = w_create_block(builder);
    let after_block = w_create_block(builder);
    let (_, cell_value) = emit_load_cell(builder, mem_flags, memory_address, data_ptr);
    let eq_zero = w_icmp_imm_eq(builder, cell_value, 0);
    w_brif(builder, eq_zero, after_block, inner_block);
    w_switch_to_block(builder, inner_block);
    proof {
        assert(emitted(*builder) =~= emitted(*old(builder)) + op_steps(Token::OpenBr(jmp)));
    }
    (inner_block, after_block)
}

/// Emit the operations for one close bracket: test the cell, branch
/// back to the body or on to the continuation, seal both blocks (all
/// their predecessors are now known), and continue emission after the
/// loop.
fn emit_close<'a>(
    builder: &mut cranelift::frontend::FunctionBuilder<'a>,
    mem_flags: cranelift::codegen::ir::MemFlagsData,
    memory_address: cranelift::codegen::ir::Value,
    data_ptr: cranelift::frontend::Variable,
    inner_block: cranelift::codegen::ir::Block,
    after_block: cranelift::codegen::ir::Block,
    jmp: usize,
)
    ensures
        emitted(*final(builder)) == emitted(*old(builder)) + op_steps(Token::CloseBr(jmp)),
{
    let (_, cell_value) = emit_load_cell(builder, mem_flags, memory_address, data_ptr);
    let eq_zero = w_icmp_imm_eq(builder, cell_value, 0);
    w_brif(builder, eq_zero, after_block, inner_block);
    w_seal_block(builder, inner_block);
    w_seal_block(builder, after_block);
    w_switch_to_block(builder, after_block);
    proof {
        assert(emitted(*builder) =~= emitted(*old(builder)) + op_steps(Token::CloseBr(jmp)));
    }
}

/// Emit the operations for one clear-cell opcode.
fn emit_clear<'a>(
    builder: &mut cranelift::frontend::FunctionBuilder<'a>,
    mem_flags: cranelift::codegen::ir::MemFlagsData,
    memory_address: cranelift::codegen::ir::Value,
    data_ptr: cranelift::frontend::Variable,
)
    ensures
        emitted(*final(builder)) == emitted(*old(builder)) + op_steps(Token::ClearCell),
{
    let ptr_val = w_use_var(builder, data_ptr);
    let cell_address = w_iadd(builder, memory_address, ptr_val);
    let zero_byte = w_iconst_byte(builder, 0);
    w_store(builder, mem_flags, zero_byte, cell_address);
    proof {
        assert(emitted(*builder) =~= emitted(*old(builder)) + op_steps(Token::ClearCell));
    }
}

/// Emit the operations for one add-to opcode.
fn emit_add_to<'a>(
    builder: &mut cranelift::frontend::FunctionBuilder<'a>,
    mem_flags: cranelift::codegen::ir::MemFlagsData,
    memory_address: cranelift::codegen::ir::Value,
    data_ptr: cranelift::frontend::Variable,
    d: usize,
)
    requires
        d < STORAGE_SIZE,
    ensures
        emitted(*final(builder)) == emitted(*old(builder)) + op_steps(Token::AddTo(d)),
{
    let ptr_val = w_use_var(builder, data_ptr);
    let src_address = w_iadd(builder, memory_address, ptr_val);
    let src_value = w_load_byte(builder, mem_flags, src_address);
    let dest_index = emit_wrapped_index(builder, ptr_val, d as i64);
    let dest_address = w_iadd(builder, memory_address, dest_index);
    let dest_value = w_load_byte(builder, mem_flags, dest_address);
    let sum = w_iadd(builder, dest_value, src_value);
    w_store(builder, mem_flags, sum, dest_address);
    let zero_byte = w_iconst_byte(builder, 0);
    w_store(builder, mem_flags, zero_byte, src_address);
    proof {
        assert(emitted(*builder) =~= emitted(*old(builder)) + op_steps(Token::AddTo(d)));
    }
}

/// Emit the operations for one add-to-copy opcode.
fn emit_add_to_copy<'a>(
    builder: &mut cranelift::frontend::FunctionBuilder<'a>,
    mem_flags: cranelift::codegen::ir::MemFlagsData,
    memory_address: cranelift::codegen::ir::Value,
    data_ptr: cranelift::frontend::Variable,
    d1: usize,
    d2: usize,
)
    requires
        d1 < STORAGE_SIZE,
        d2 < STORAGE_SIZE,
    ensures
        emitted(*final(builder)) == emitted(*old(builder)) + op_steps(Token::AddToCopy(d1, d2)),
{
    let ptr_val = w_use_var(builder, data_ptr);
    let src_address = w_iadd(builder, memory_address, ptr_val);
    let src_value = w_load_byte(builder, mem_flags, src_address);
    let dest1_index = emit_wrapped_index(builder, ptr_val, d1 as i64);
    let dest1_address = w_iadd(builder, memory_address, dest1_index);
    let dest1_value = w_load_byte(builder, mem_flags, dest1_address);
    let sum1 = w_iadd(builder, dest1_value, src_value);
    w_store(builder, mem_flags, sum1, dest1_address);
    let dest2_index = emit_wrapped_index(builder, ptr_val, d2 as i64);
    let dest2_address = w_iadd(builder, memory_address, dest2_index);
    let dest2_value = w_load_byte(builder, mem_flags, dest2_address);
    let sum2 = w_iadd(builder, dest2_value, src_value);
    w_store(builder, mem_flags, sum2, dest2_address);
    let zero_byte = w_iconst_byte(builder, 0);
    w_store(builder, mem_flags, zero_byte, src_address);
    proof {
        assert(emitted(*builder) =~= emitted(*old(builder)) + op_steps(
            Token::AddToCopy(d1, d2),
        ));
    }
}

/// Lower a finalized token stream into the body of the function under
/// construction. The function under construction must take the tape's
/// base address as its first parameter; `read_address` and
/// `write_address` are the native addresses of the two port functions,
/// called with `call_conv`, and `ptr_type` is the target's pointer
/// type.
///
/// Emission keeps one open pair of blocks per unclosed loop bracket;
/// that the stream's brackets are matched guarantees that every close
/// bracket finds its pair and that both blocks of a pair are sealed
/// exactly when all their predecessors are known. Returns false only
/// if the code generator hands back a malformed function parameter or
/// call result, which a caller should treat as a failed emission; on
/// success, the builder's emission trace has grown by exactly
/// [`lower`] of the stream.
#[verifier::rlimit(100)]
#[verifier::spinoff_prover]
pub fn build_function_body<'a>(
    builder: &mut cranelift::frontend::FunctionBuilder<'a>,
    token_stream: &TokenStream,
    ptr_type: cranelift::codegen::ir::Type,
    call_conv: cranelift::codegen::isa::CallConv,
    read_address: i64,
    write_address: i64,
) -> (ok: bool)
    requires
        wf_stream(token_stream@),
        balanced(token_stream@),
    ensures
        ok ==> emitted(*final(builder)) == emitted(*old(builder)) + lower(
            token_stream@,
            ptr_type,
            call_conv,
            read_address,
            write_address,
        ),
{
    let mem_flags = w_mem_flags();
    let first_block = w_create_block(builder);
    w_seal_block(builder, first_block);
    let memory_address = match w_entry_param(builder, first_block) {
        Some(v) => v,
        None => {
            return false;
        },
    };
    w_switch_to_block(builder, first_block);
    let data_ptr = w_declare_var(builder, ptr_type);
    let zero = w_iconst(builder, ptr_type, 0);
    w_def_var(builder, data_ptr, zero);
    let read_sig = w_import_read_signature(builder, call_conv);
    let read_callee = w_iconst(builder, ptr_type, read_address);
    let write_sig = w_import_write_signature(builder, call_conv);
    let write_callee = w_iconst(builder, ptr_type, write_address);
    proof {
        assert(emitted(*builder) =~= emitted(*old(builder)) + prologue_steps(
            ptr_type,
            call_conv,
            read_address,
            write_address,
        ));
        assert(lower_ops(token_stream@.subrange(0, 0)) =~= Seq::<EmitStep>::empty());
        assert(emitted(*builder) =~= emitted(*old(builder)) + prologue_steps(
            ptr_type,
            call_conv,
            read_address,
            write_address,
        ) + lower_ops(token_stream@.subrange(0, 0)));
    }
    let mut stack: Vec<(cranelift::codegen::ir::Block, cranelift::codegen::ir::Block)> =
        Vec::new();
    let n = token_stream.len();
    let mut i: usize = 0;
    while i < n
        invariant
            wf_stream(token_stream@),
            balanced(token_stream@),
            i <= n,
            n == token_stream@.len(),
            stack@.len() == net(token_stream@.subrange(0, i as int)),
            emitted(*builder) == emitted(*old(builder)) + prologue_steps(
                ptr_type,
                call_conv,
                read_address,
                write_address,
            ) + lower_ops(token_stream@.subrange(0, i as int)),
        decreases n - i,
    {
        let t = token_stream[i];
        let ghost pre_emitted = emitted(*builder);
        proof {
            lemma_net_step(token_stream@, i as int);
            assert(op_valid(token_stream@[i as int]));
            assert(token_stream@.subrange(0, i as int + 1).drop_last() =~= token_stream@.subrange(
                0,
                i as int,
            ));
            assert(token_stream@.subrange(0, i as int + 1).last() == t);
        }
        match t {
            Token::Add(add_v) => {
                emit_add(builder, mem_flags, memory_address, data_ptr, add_v);
            },
            Token::Move(d) => {
                emit_move(builder, data_ptr, d);
            },
            Token::Input => {
                if !emit_input(builder, mem_flags, memory_address, data_ptr, read_sig, read_callee)
                {
                    return false;
                }
            },
            Token::Output => {
                emit_output(builder, mem_flags, memory_address, data_ptr, write_sig, write_callee);
            },
            Token::OpenBr(jmp) => {
                let blocks = emit_open(builder, mem_flags, memory_address, data_ptr, jmp);
                stack.push(blocks);
            },
            Token::CloseBr(jmp) => {
                proof {
                    if stack@.len() == 0 {
                        assert(net(token_stream@.subrange(0, i as int + 1)) == -1);
                        assert(false);
                    }
                }
                let (inner_block, after_block) = match stack.pop() {
                    Some(p) => p,
                    None => {
                        proof {
                            assert(false);
                        }
                        return false;
                    },
                };
                emit_close(
                    builder,
                    mem_flags,
                    memory_address,
                    data_ptr,
                    inner_block,
                    after_block,
                    jmp,
                );
            },
            Token::ClearCell => {
                emit_clear(builder, mem_flags, memory_address, data_ptr);
            },
            Token::AddTo(d) => {
                emit_add_to(builder, mem_flags, memory_address, data_ptr, d);
            },
            Token::AddToCopy(d1, d2) => {
                emit_add_to_copy(builder, mem_flags, memory_address, data_ptr, d1, d2);
            },
        }
        proof {
            assert(emitted(*builder) == pre_emitted + op_steps(t));
            assert(emitted(*builder) =~= emitted(*old(builder)) + prologue_steps(
                ptr_type,
                call_conv,
                read_address,
                write_address,
            ) + lower_ops(token_stream@.subrange(0, i as int + 1)));
        }
        i = i + 1;
    }
    w_return(builder);
    proof {
        assert(token_stream@.subrange(0, n as int) =~= token_stream@);
        assert(emitted(*builder) =~= emitted(*old(builder)) + lower(
            token_stream@,
            ptr_type,
            call_conv,
            read_address,
            write_address,
        ));
    }
    true
}

} // verus!
