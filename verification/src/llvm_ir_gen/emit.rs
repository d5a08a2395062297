//! Object emission: the generated code handed to LLVM, call by call.
//!
//! Every instruction of the SSA form becomes the LLVM instruction of the
//! same meaning; the address of a cell is computed from the address of the
//! tape and the index, sign-extended and scaled to the size of a cell. LLVM
//! checks the finished module, which is then printed, or written out as a
//! relocatable object for the host.
//!
//! For generated code that is complete the only failure left is LLVM's own
//! refusal: no place is read that holds no value of the right kind, and no
//! branch names a block that is not there.
//!
//! What LLVM does with a call is not proved here. Each call stands in a
//! function of its own that does nothing else, and nothing is claimed of
//! what it returns. The values that flow between these functions are made
//! by them alone: pointers are the addresses of the two globals and of
//! cells, integers are 32-bit values, flags, and 64-bit addresses, and each
//! is used as what it was made as.

use vstd::prelude::*;
use crate::ir::{
    gives_flag, gives_ptr, inst_ok, operand_ok, term_ok, BlockView, Inst, IrBlock, Label, Operand,
    Terminator, TAPE_LEN,
};
use crate::llvm_ir_gen::{complete, IrModule};

verus! {

/// `inkwell::context::Context`, the owner of everything that LLVM makes; carried
/// through as it is.
#[verifier::external_type_specification]
#[verifier::external_body]
pub struct ExContext(inkwell::context::Context);

/// `inkwell::module::Module`, the module under construction; carried through as
/// it is.
#[verifier::external_type_specification]
#[verifier::external_body]
pub struct ExModule<'ctx>(inkwell::module::Module<'ctx>);

/// `inkwell::builder::Builder`, the instruction builder; carried through as it
/// is.
#[verifier::external_type_specification]
#[verifier::external_body]
pub struct ExBuilder<'ctx>(inkwell::builder::Builder<'ctx>);

/// `inkwell::basic_block::BasicBlock`, a basic block of LLVM; carried through
/// as it is.
#[verifier::external_type_specification]
#[verifier::external_body]
pub struct ExLlvmBlock<'ctx>(inkwell::basic_block::BasicBlock<'ctx>);

/// `inkwell::values::IntValue`, an integer value of LLVM; carried through as it
/// is.
#[verifier::external_type_specification]
#[verifier::external_body]
pub struct ExIntValue<'ctx>(inkwell::values::IntValue<'ctx>);

/// `inkwell::values::PointerValue`, a pointer value of LLVM; carried through as
/// it is.
#[verifier::external_type_specification]
#[verifier::external_body]
pub struct ExPointerValue<'ctx>(inkwell::values::PointerValue<'ctx>);

/// `inkwell::values::FunctionValue`, a function of the module; carried through
/// as it is.
#[verifier::external_type_specification]
#[verifier::external_body]
pub struct ExFunctionValue<'ctx>(inkwell::values::FunctionValue<'ctx>);

/// `inkwell::values::GlobalValue`, a global of the module; carried through as
/// it is.
#[verifier::external_type_specification]
#[verifier::external_body]
pub struct ExGlobalValue<'ctx>(inkwell::values::GlobalValue<'ctx>);

/// `inkwell::types::BasicTypeEnum`, a type of LLVM that values can have;
/// carried through as it is.
#[verifier::external_type_specification]
#[verifier::external_body]
pub struct ExBasicTypeEnum<'ctx>(inkwell::types::BasicTypeEnum<'ctx>);

/// `inkwell::types::FunctionType`, the type of a function; carried through
/// as it is.
#[verifier::external_type_specification]
#[verifier::external_body]
pub struct ExFunctionType<'ctx>(inkwell::types::FunctionType<'ctx>);

/// `inkwell::values::BasicValueEnum`, a value of LLVM of any basic type;
/// carried through as it is.
#[verifier::external_type_specification]
#[verifier::external_body]
pub struct ExBasicValueEnum<'ctx>(inkwell::values::BasicValueEnum<'ctx>);

/// `inkwell::targets::TargetTriple`, the name of a target; carried through as it
/// is.
#[verifier::external_type_specification]
#[verifier::external_body]
pub struct ExTargetTriple(inkwell::targets::TargetTriple);

/// `inkwell::targets::Target`, a target that LLVM knows; carried through as it
/// is.
#[verifier::external_type_specification]
#[verifier::external_body]
pub struct ExTarget(inkwell::targets::Target);

/// `inkwell::targets::TargetMachine`, a target with its settings; carried
/// through as it is.
#[verifier::external_type_specification]
#[verifier::external_body]
pub struct ExTargetMachine(inkwell::targets::TargetMachine);

/// Why no object came out.
#[derive(Debug, PartialEq, Eq)]
pub enum EmitError {
    /// The generated code is not complete: a place is read that holds no
    /// value of the right kind, a block has no terminator, or a branch names
    /// a block that is not there.
    Malformed,
    /// LLVM refused to make a target machine or to write the object; the
    /// text is what it said.
    ObjectWriteFailure(String),
}

/// `inkwell::context::Context::create`: a fresh LLVM context. Nothing is
/// claimed of it.
#[verifier::external_body]
fn create_context() -> inkwell::context::Context {
    inkwell::context::Context::create()
}

/// `Context::create_module`: an empty module of the context with the given
/// name. Nothing is claimed of it.
#[verifier::external_body]
fn create_module<'ctx>(
    context: &'ctx inkwell::context::Context,
    name: &str,
) -> inkwell::module::Module<'ctx> {
    context.create_module(name)
}

/// `Context::create_builder`: an instruction builder of the context.
/// Nothing is claimed of it.
#[verifier::external_body]
fn create_builder<'ctx>(
    context: &'ctx inkwell::context::Context,
) -> inkwell::builder::Builder<'ctx> {
    context.create_builder()
}

/// `Context::i32_type`: the type of 32-bit integers. Nothing is claimed of
/// it.
#[verifier::external_body]
fn int_type<'ctx>(context: &'ctx inkwell::context::Context) -> inkwell::types::BasicTypeEnum<'ctx> {
    context.i32_type().into()
}

/// `IntType::array_type`: the type of arrays of `cells` 32-bit integers.
/// Nothing is claimed of it.
#[verifier::external_body]
fn array_type<'ctx>(
    context: &'ctx inkwell::context::Context,
    cells: u32,
) -> inkwell::types::BasicTypeEnum<'ctx> {
    context.i32_type().array_type(cells).into()
}

/// `Module::add_global`: declares a global of the given type and name.
/// Nothing is claimed of the result.
#[verifier::external_body]
fn add_global<'ctx>(
    module: &inkwell::module::Module<'ctx>,
    ty: inkwell::types::BasicTypeEnum<'ctx>,
    name: &str,
) -> inkwell::values::GlobalValue<'ctx> {
    module.add_global(ty, Some(inkwell::AddressSpace::default()), name)
}

/// `BasicTypeEnum::const_zero`: the zero of a type. Nothing is claimed of
/// it.
#[verifier::external_body]
fn zero_of<'ctx>(
    ty: inkwell::types::BasicTypeEnum<'ctx>,
) -> inkwell::values::BasicValueEnum<'ctx> {
    ty.const_zero()
}

/// `GlobalValue::set_initializer`: gives a global its initial value, which
/// is of the type that the global was declared with.
#[verifier::external_body]
fn set_initializer<'ctx>(
    global: inkwell::values::GlobalValue<'ctx>,
    value: inkwell::values::BasicValueEnum<'ctx>,
) {
    global.set_initializer(&value)
}

/// `GlobalValue::as_pointer_value`: the address of a global. Nothing is
/// claimed of it.
#[verifier::external_body]
fn address_of<'ctx>(
    global: inkwell::values::GlobalValue<'ctx>,
) -> inkwell::values::PointerValue<'ctx> {
    global.as_pointer_value()
}

/// `IntType::fn_type`: the type of functions that take `params` 32-bit
/// integers and give one. Nothing is claimed of it.
#[verifier::external_body]
fn int_function_type<'ctx>(
    context: &'ctx inkwell::context::Context,
    params: usize,
) -> inkwell::types::FunctionType<'ctx> {
    let taken = vec![context.i32_type().into(); params];
    context.i32_type().fn_type(&taken, false)
}

/// `PointerType::fn_type`: the type of functions that take `params` 64-bit
/// integers and give a pointer to bytes. Nothing is claimed of it.
#[verifier::external_body]
fn pointer_function_type<'ctx>(
    context: &'ctx inkwell::context::Context,
    params: usize,
) -> inkwell::types::FunctionType<'ctx> {
    let taken = vec![context.i64_type().into(); params];
    context.i8_type().ptr_type(inkwell::AddressSpace::default()).fn_type(&taken, false)
}

/// `Module::add_function`: declares a function of the given name and type,
/// to be found by the linker under that name. Nothing is claimed of the
/// result.
#[verifier::external_body]
fn add_function<'ctx>(
    module: &inkwell::module::Module<'ctx>,
    name: &str,
    ty: inkwell::types::FunctionType<'ctx>,
) -> inkwell::values::FunctionValue<'ctx> {
    module.add_function(name, ty, Some(inkwell::module::Linkage::External))
}

/// `Context::append_basic_block`: a new block at the end of `function`.
/// Nothing is claimed of it.
#[verifier::external_body]
fn append_block<'ctx>(
    context: &'ctx inkwell::context::Context,
    function: inkwell::values::FunctionValue<'ctx>,
    name: &str,
) -> inkwell::basic_block::BasicBlock<'ctx> {
    context.append_basic_block(function, name)
}

/// `Builder::position_at_end`: instructions go to the end of `block` from
/// now on.
#[verifier::external_body]
fn position_at_end<'ctx>(
    builder: &inkwell::builder::Builder<'ctx>,
    block: inkwell::basic_block::BasicBlock<'ctx>,
) {
    builder.position_at_end(block)
}

/// `IntType::const_int`: the 32-bit constant `value`. Nothing is claimed of
/// the result.
#[verifier::external_body]
fn const_i32<'ctx>(
    context: &'ctx inkwell::context::Context,
    value: i32,
) -> inkwell::values::IntValue<'ctx> {
    context.i32_type().const_int(value as i64 as u64, true)
}

/// `Builder::build_load`: loads what `ptr` points to. `None` when LLVM
/// hands back anything but an integer.
#[verifier::external_body]
fn build_load<'ctx>(
    builder: &inkwell::builder::Builder<'ctx>,
    ptr: inkwell::values::PointerValue<'ctx>,
    name: &str,
) -> Option<inkwell::values::IntValue<'ctx>> {
    match builder.build_load(ptr, name) {
        inkwell::values::BasicValueEnum::IntValue(v) => Some(v),
        _ => None,
    }
}

/// `Builder::build_store`: stores `value` where `ptr` points.
#[verifier::external_body]
fn build_store<'ctx>(
    builder: &inkwell::builder::Builder<'ctx>,
    ptr: inkwell::values::PointerValue<'ctx>,
    value: inkwell::values::IntValue<'ctx>,
) {
    builder.build_store(ptr, value);
}

/// `Builder::build_int_add`: the sum. Nothing is claimed of the result.
#[verifier::external_body]
fn build_add<'ctx>(
    builder: &inkwell::builder::Builder<'ctx>,
    lhs: inkwell::values::IntValue<'ctx>,
    rhs: inkwell::values::IntValue<'ctx>,
    name: &str,
) -> inkwell::values::IntValue<'ctx> {
    builder.build_int_add(lhs, rhs, name)
}

/// `Builder::build_int_mul`: the product. Nothing is claimed of the result.
#[verifier::external_body]
fn build_mul<'ctx>(
    builder: &inkwell::builder::Builder<'ctx>,
    lhs: inkwell::values::IntValue<'ctx>,
    rhs: inkwell::values::IntValue<'ctx>,
    name: &str,
) -> inkwell::values::IntValue<'ctx> {
    builder.build_int_mul(lhs, rhs, name)
}

/// `Builder::build_int_compare` with the predicate `NE`: whether the two
/// values differ. Nothing is claimed of the result.
#[verifier::external_body]
fn build_not_equal<'ctx>(
    builder: &inkwell::builder::Builder<'ctx>,
    lhs: inkwell::values::IntValue<'ctx>,
    rhs: inkwell::values::IntValue<'ctx>,
    name: &str,
) -> inkwell::values::IntValue<'ctx> {
    builder.build_int_compare(inkwell::IntPredicate::NE, lhs, rhs, name)
}

/// `Builder::build_ptr_to_int`: the address that `ptr` holds, as a 64-bit
/// integer. Nothing is claimed of the result.
#[verifier::external_body]
fn build_ptr_to_int<'ctx>(
    context: &'ctx inkwell::context::Context,
    builder: &inkwell::builder::Builder<'ctx>,
    ptr: inkwell::values::PointerValue<'ctx>,
    name: &str,
) -> inkwell::values::IntValue<'ctx> {
    builder.build_ptr_to_int(ptr, context.i64_type(), name)
}

/// `Builder::build_int_s_extend`: `value` sign-extended to 64 bits. Nothing
/// is claimed of the result.
#[verifier::external_body]
fn build_sign_extend<'ctx>(
    context: &'ctx inkwell::context::Context,
    builder: &inkwell::builder::Builder<'ctx>,
    value: inkwell::values::IntValue<'ctx>,
    name: &str,
) -> inkwell::values::IntValue<'ctx> {
    builder.build_int_s_extend(value, context.i64_type(), name)
}

/// `Builder::build_int_to_ptr`: the 64-bit `address` as a pointer to a
/// 32-bit integer. Nothing is claimed of the result.
#[verifier::external_body]
fn build_int_to_ptr<'ctx>(
    context: &'ctx inkwell::context::Context,
    builder: &inkwell::builder::Builder<'ctx>,
    address: inkwell::values::IntValue<'ctx>,
    name: &str,
) -> inkwell::values::PointerValue<'ctx> {
    let cell_ptr = context.i32_type().ptr_type(inkwell::AddressSpace::default());
    builder.build_int_to_ptr(address, cell_ptr, name)
}

/// `Builder::build_call`: calls `function` on the integers `args`. `None`
/// when the call gives anything but an integer.
#[verifier::external_body]
fn build_call<'ctx>(
    builder: &inkwell::builder::Builder<'ctx>,
    function: inkwell::values::FunctionValue<'ctx>,
    args: &Vec<inkwell::values::IntValue<'ctx>>,
    name: &str,
) -> Option<inkwell::values::IntValue<'ctx>> {
    let passed: Vec<inkwell::values::BasicMetadataValueEnum> =
        args.iter().map(|v| (*v).into()).collect();
    match builder.build_call(function, &passed, name).try_as_basic_value().left() {
        Some(inkwell::values::BasicValueEnum::IntValue(v)) => Some(v),
        _ => None,
    }
}

/// `Builder::build_conditional_branch`: ends the block with a branch to
/// `then_block` when `flag` is set and to `else_block` otherwise.
#[verifier::external_body]
fn build_conditional_branch<'ctx>(
    builder: &inkwell::builder::Builder<'ctx>,
    flag: inkwell::values::IntValue<'ctx>,
    then_block: inkwell::basic_block::BasicBlock<'ctx>,
    else_block: inkwell::basic_block::BasicBlock<'ctx>,
) {
    builder.build_conditional_branch(flag, then_block, else_block);
}

/// `Builder::build_return`: ends the block with the return of `value`.
#[verifier::external_body]
fn build_return<'ctx>(
    builder: &inkwell::builder::Builder<'ctx>,
    value: inkwell::values::IntValue<'ctx>,
) {
    builder.build_return(Some(&value));
}

/// `Module::verify`: LLVM's own check of the module; the error is what
/// LLVM found wrong.
#[verifier::external_body]
fn verify_module<'ctx>(module: &inkwell::module::Module<'ctx>) -> Result<(), String> {
    match module.verify() {
        Ok(()) => Ok(()),
        Err(err) => Err(err.to_string()),
    }
}

/// `Module::print_to_string`: the module as LLVM prints it. Nothing is
/// claimed of the text.
#[verifier::external_body]
fn print_module<'ctx>(module: &inkwell::module::Module<'ctx>) -> String {
    module.print_to_string().to_string()
}

/// `Target::initialize_all`: makes every target that LLVM was built with
/// known to it.
#[verifier::external_body]
fn initialize_targets() {
    inkwell::targets::Target::initialize_all(&inkwell::targets::InitializationConfig::default())
}

/// `TargetMachine::get_default_triple`: the triple of the host. It depends
/// on the machine; nothing is claimed of it.
#[verifier::external_body]
fn host_triple() -> inkwell::targets::TargetTriple {
    inkwell::targets::TargetMachine::get_default_triple()
}

/// `TargetMachine::get_host_cpu_name`: the name of the host's processor. It
/// depends on the machine; nothing is claimed of it.
#[verifier::external_body]
fn host_cpu_name() -> String {
    inkwell::targets::TargetMachine::get_host_cpu_name().to_string()
}

/// `TargetMachine::get_host_cpu_features`: the features of the host's
/// processor. They depend on the machine; nothing is claimed of them.
#[verifier::external_body]
fn host_cpu_features() -> String {
    inkwell::targets::TargetMachine::get_host_cpu_features().to_string()
}

/// `Target::from_triple`: the target for a triple, or what LLVM said when
/// it knows none.
#[verifier::external_body]
fn target_for(triple: &inkwell::targets::TargetTriple) -> Result<inkwell::targets::Target, String> {
    match inkwell::targets::Target::from_triple(triple) {
        Ok(target) => Ok(target),
        Err(err) => Err(err.to_string()),
    }
}

/// `Target::create_target_machine`: a target machine with the default
/// optimization level, relocation mode and code model, or `None` when LLVM
/// refuses.
#[verifier::external_body]
fn create_target_machine(
    target: &inkwell::targets::Target,
    triple: &inkwell::targets::TargetTriple,
    cpu: &str,
    features: &str,
) -> Option<inkwell::targets::TargetMachine> {
    target.create_target_machine(
        triple,
        cpu,
        features,
        inkwell::OptimizationLevel::Default,
        inkwell::targets::RelocMode::Default,
        inkwell::targets::CodeModel::Default,
    )
}

/// `TargetMachine::write_to_memory_buffer` with the file type `Object`: the
/// module as a relocatable object, or what LLVM said when it refuses.
/// Nothing is claimed of the bytes.
#[verifier::external_body]
fn write_object<'ctx>(
    machine: &inkwell::targets::TargetMachine,
    module: &inkwell::module::Module<'ctx>,
) -> Result<Vec<u8>, String> {
    match machine.write_to_memory_buffer(module, inkwell::targets::FileType::Object) {
        Ok(buffer) => Ok(buffer.as_slice().to_vec()),
        Err(err) => Err(err.to_string()),
    }
}

/// The kind of value that an instruction gives.
#[derive(Clone, Copy, PartialEq, Eq, Structural)]
enum Kind {
    Int,
    Ptr,
    Flag,
    Nothing,
}

/// The kind of value that `inst` gives.
spec fn kind_of(inst: Inst) -> Kind {
    match inst {
        Inst::LoadPos => Kind::Int,
        Inst::Load(_) => Kind::Int,
        Inst::Add(_, _) => Kind::Int,
        Inst::Mul(_, _) => Kind::Int,
        Inst::GetChar => Kind::Int,
        Inst::CellPtr(_) => Kind::Ptr,
        Inst::NonZero(_) => Kind::Flag,
        Inst::StorePos(_) => Kind::Nothing,
        Inst::Store(_, _) => Kind::Nothing,
        Inst::PutChar(_) => Kind::Nothing,
    }
}

/// Generated code that can be handed to LLVM: every block is closed, reads
/// only earlier results of the right kind and branches only to blocks that
/// are there. Complete generated code is of this sort.
pub open spec fn emittable(blocks: Seq<BlockView>) -> bool {
    forall|i: int|
        0 <= i < blocks.len() ==> (#[trigger] blocks[i]).term is Some && blocks[i].ok(
            blocks.len() as int,
        )
}

/// What LLVM made of one instruction.
#[derive(Clone, Copy)]
enum Value<'ctx> {
    Int(inkwell::values::IntValue<'ctx>),
    Ptr(inkwell::values::PointerValue<'ctx>),
    Flag(inkwell::values::IntValue<'ctx>),
    Nothing,
}

impl<'ctx> Value<'ctx> {
    spec fn kind(self) -> Kind {
        match self {
            Value::Int(_) => Kind::Int,
            Value::Ptr(_) => Kind::Ptr,
            Value::Flag(_) => Kind::Flag,
            Value::Nothing => Kind::Nothing,
        }
    }
}

/// `values` holds what LLVM made of `insts`, place by place.
spec fn tracks<'ctx>(values: Seq<Value<'ctx>>, insts: Seq<Inst>) -> bool {
    &&& values.len() == insts.len()
    &&& forall|i: int| 0 <= i < values.len() ==> (#[trigger] values[i]).kind() == kind_of(insts[i])
}

/// What the instructions of the function read besides each other.
struct Globals<'ctx> {
    tape: inkwell::values::PointerValue<'ctx>,
    tape_pos: inkwell::values::PointerValue<'ctx>,
    getchar: inkwell::values::FunctionValue<'ctx>,
    putchar: inkwell::values::FunctionValue<'ctx>,
}

/// The LLVM value of an operand, if the operand can be read.
fn operand<'ctx>(
    context: &'ctx inkwell::context::Context,
    values: &Vec<Value<'ctx>>,
    o: Operand,
    Ghost(insts): Ghost<Seq<Inst>>,
) -> (r: Option<inkwell::values::IntValue<'ctx>>)
    requires
        tracks(values@, insts),
    ensures
        r is Some <==> operand_ok(insts, o),
{
    match o {
        Operand::Const(c) => Some(const_i32(context, c)),
        Operand::Inst(at) => {
            if at < values.len() {
                match values[at] {
                    Value::Int(v) => Some(v),
                    _ => None,
                }
            } else {
                None
            }
        },
    }
}

/// The address that the instruction at place `at` made, if it made one.
fn pointer<'ctx>(
    values: &Vec<Value<'ctx>>,
    at: usize,
    Ghost(insts): Ghost<Seq<Inst>>,
) -> (r: Option<inkwell::values::PointerValue<'ctx>>)
    requires
        tracks(values@, insts),
    ensures
        r is Some <==> gives_ptr(insts, at as int),
{
    if at < values.len() {
        match values[at] {
            Value::Ptr(v) => Some(v),
            _ => None,
        }
    } else {
        None
    }
}

/// The flag that the instruction at place `at` made, if it made one.
fn flag<'ctx>(
    values: &Vec<Value<'ctx>>,
    at: usize,
    Ghost(insts): Ghost<Seq<Inst>>,
) -> (r: Option<inkwell::values::IntValue<'ctx>>)
    requires
        tracks(values@, insts),
    ensures
        r is Some <==> gives_flag(insts, at as int),
{
    if at < values.len() {
        match values[at] {
            Value::Flag(v) => Some(v),
            _ => None,
        }
    } else {
        None
    }
}

/// What is said when LLVM hands back a value of a kind that the instruction
/// does not give.
pub open spec fn unexpected_text() -> Seq<char> {
    "LLVM gave back a value of another kind"@
}

/// The failure when LLVM hands back a value of a kind that the instruction
/// does not give: an `ObjectWriteFailure` that says so.
fn unexpected() -> (r: EmitError)
    ensures
        r matches EmitError::ObjectWriteFailure(why) && why@ == unexpected_text(),
{
    EmitError::ObjectWriteFailure(String::from_str("LLVM gave back a value of another kind"))
}

/// The address of the cell with the given index: the address of the tape
/// plus the index, sign-extended, times the size of a cell.
fn cell_address<'ctx>(
    context: &'ctx inkwell::context::Context,
    builder: &inkwell::builder::Builder<'ctx>,
    tape: inkwell::values::PointerValue<'ctx>,
    index: inkwell::values::IntValue<'ctx>,
) -> inkwell::values::PointerValue<'ctx> {
    let base = build_ptr_to_int(context, builder, tape, "tape_address");
    let wide = build_sign_extend(context, builder, index, "index");
    let size = build_sign_extend(context, builder, const_i32(context, 4), "cell_size");
    let offset = build_mul(builder, wide, size, "offset");
    let address = build_add(builder, base, offset, "address");
    build_int_to_ptr(context, builder, address, "ptr_to_value")
}

/// Hands one instruction to LLVM. `Malformed` comes exactly when the
/// instruction reads what is not there.
fn emit_inst<'ctx>(
    context: &'ctx inkwell::context::Context,
    builder: &inkwell::builder::Builder<'ctx>,
    globals: &Globals<'ctx>,
    values: &Vec<Value<'ctx>>,
    inst: Inst,
    Ghost(insts): Ghost<Seq<Inst>>,
) -> (r: Result<Value<'ctx>, EmitError>)
    requires
        tracks(values@, insts),
    ensures
        r matches Ok(v) ==> v.kind() == kind_of(inst) && inst_ok(insts, inst),
        r matches Err(e) ==> (e is Malformed <==> !inst_ok(insts, inst)),
{
    match inst {
        Inst::LoadPos => match build_load(builder, globals.tape_pos, "tape_pos") {
            Some(v) => Ok(Value::Int(v)),
            None => Err(unexpected()),
        },
        Inst::StorePos(v) => match operand(context, values, v, Ghost(insts)) {
            Some(v) => {
                build_store(builder, globals.tape_pos, v);
                Ok(Value::Nothing)
            },
            None => Err(EmitError::Malformed),
        },
        Inst::CellPtr(index) => match operand(context, values, index, Ghost(insts)) {
            Some(index) => Ok(Value::Ptr(cell_address(context, builder, globals.tape, index))),
            None => Err(EmitError::Malformed),
        },
        Inst::Load(ptr) => match pointer(values, ptr, Ghost(insts)) {
            Some(ptr) => match build_load(builder, ptr, "value") {
                Some(v) => Ok(Value::Int(v)),
                None => Err(unexpected()),
            },
            None => Err(EmitError::Malformed),
        },
        Inst::Store(ptr, v) => match (
            pointer(values, ptr, Ghost(insts)),
            operand(context, values, v, Ghost(insts)),
        ) {
            (Some(ptr), Some(v)) => {
                build_store(builder, ptr, v);
                Ok(Value::Nothing)
            },
            _ => Err(EmitError::Malformed),
        },
        Inst::Add(a, b) => match (
            operand(context, values, a, Ghost(insts)),
            operand(context, values, b, Ghost(insts)),
        ) {
            (Some(a), Some(b)) => Ok(Value::Int(build_add(builder, a, b, "new_value"))),
            _ => Err(EmitError::Malformed),
        },
        Inst::Mul(a, b) => match (
            operand(context, values, a, Ghost(insts)),
            operand(context, values, b, Ghost(insts)),
        ) {
            (Some(a), Some(b)) => Ok(Value::Int(build_mul(builder, a, b, "multiplied"))),
            _ => Err(EmitError::Malformed),
        },
        Inst::NonZero(v) => match operand(context, values, v, Ghost(insts)) {
            Some(v) => Ok(
                Value::Flag(build_not_equal(builder, v, const_i32(context, 0), "is_not_zero")),
            ),
            None => Err(EmitError::Malformed),
        },
        Inst::GetChar => match build_call(builder, globals.getchar, &Vec::new(), "input") {
            Some(v) => Ok(Value::Int(v)),
            None => Err(unexpected()),
        },
        Inst::PutChar(v) => match operand(context, values, v, Ghost(insts)) {
            Some(v) => {
                let mut args = Vec::new();
                args.push(v);
                match build_call(builder, globals.putchar, &args, "_") {
                    Some(_) => Ok(Value::Nothing),
                    None => Err(unexpected()),
                }
            },
            None => Err(EmitError::Malformed),
        },
    }
}

/// Hands the terminator of a block to LLVM, if it reads a flag of the block
/// and names blocks that are there.
fn emit_terminator<'ctx>(
    context: &'ctx inkwell::context::Context,
    builder: &inkwell::builder::Builder<'ctx>,
    blocks: &Vec<inkwell::basic_block::BasicBlock<'ctx>>,
    values: &Vec<Value<'ctx>>,
    term: Terminator,
    Ghost(insts): Ghost<Seq<Inst>>,
) -> (done: bool)
    requires
        tracks(values@, insts),
    ensures
        done == term_ok(insts, term, blocks@.len() as int),
{
    match term {
        Terminator::CondBr { cond, then_block, else_block } => {
            if then_block >= blocks.len() || else_block >= blocks.len() {
                return false;
            }
            match flag(values, cond, Ghost(insts)) {
                Some(f) => {
                    build_conditional_branch(builder, f, blocks[then_block], blocks[else_block]);
                    true
                },
                None => false,
            }
        },
        Terminator::Ret(value) => {
            build_return(builder, const_i32(context, value));
            true
        },
    }
}

/// Hands one block to LLVM: its instructions in order, then its terminator.
fn emit_block<'ctx>(
    context: &'ctx inkwell::context::Context,
    builder: &inkwell::builder::Builder<'ctx>,
    globals: &Globals<'ctx>,
    blocks: &Vec<inkwell::basic_block::BasicBlock<'ctx>>,
    block: &IrBlock,
    at: usize,
) -> (r: Result<(), EmitError>)
    requires
        at < blocks@.len(),
    ensures
        r is Ok ==> block.term is Some && block.deep_view().ok(blocks@.len() as int),
        r matches Err(e) ==> (e is Malformed ==> !(block.term is Some && block.deep_view().ok(
            blocks@.len() as int,
        ))),
{
    position_at_end(builder, blocks[at]);
    let mut values: Vec<Value<'ctx>> = Vec::new();
    let n = block.insts.len();
    let mut k: usize = 0;
    while k < n
        invariant
            n == block.insts@.len(),
            k <= n,
            tracks(values@, block.insts@.take(k as int)),
            forall|i: int|
                0 <= i < k ==> inst_ok(block.insts@.take(i), #[trigger] block.insts@[i]),
        decreases n - k,
    {
        let ghost before = block.insts@.take(k as int);
        let inst = block.insts[k];
        match emit_inst(context, builder, globals, &values, inst, Ghost(before)) {
            Ok(v) => {
                values.push(v);
            },
            Err(e) => {
                return Err(e);
            },
        }
        proof {
            let now = block.insts@.take(k + 1);
            assert forall|i: int| 0 <= i < values@.len() implies (#[trigger] values@[i]).kind()
                == kind_of(now[i]) by {
                if i < k {
                    assert(now[i] == before[i]);
                }
            }
        }
        k += 1;
    }
    proof {
        assert(block.insts@.take(n as int) == block.insts@);
    }
    match block.term {
        Some(term) => {
            if emit_terminator(context, builder, blocks, &values, term, Ghost(block.insts@)) {
                Ok(())
            } else {
                Err(EmitError::Malformed)
            }
        },
        None => Err(EmitError::Malformed),
    }
}

/// The decimal digit of a number below ten.
pub open spec fn digit(d: nat) -> char {
    if d == 0 {
        '0'
    } else if d == 1 {
        '1'
    } else if d == 2 {
        '2'
    } else if d == 3 {
        '3'
    } else if d == 4 {
        '4'
    } else if d == 5 {
        '5'
    } else if d == 6 {
        '6'
    } else if d == 7 {
        '7'
    } else if d == 8 {
        '8'
    } else {
        '9'
    }
}

/// A number written in decimal, without leading zeros: its last digit after
/// the decimal of its tenth.
pub open spec fn decimal(n: nat) -> Seq<char>
    decreases n,
{
    if n < 10 {
        seq![digit(n)]
    } else {
        decimal(n / 10).push(digit(n % 10))
    }
}

/// The name that the block with `label` has in the module.
pub open spec fn block_text(label: Label) -> Seq<char> {
    match label {
        Label::Entry => "entry"@,
        Label::Loop(n) => "loop_"@ + decimal(n as nat),
        Label::Cont(n) => "cont_"@ + decimal(n as nat),
    }
}

/// The text of one decimal digit.
fn digit_text(d: usize) -> (r: &'static str)
    requires
        d < 10,
    ensures
        r@ == seq![digit(d as nat)],
{
    proof {
        reveal_strlit("0");
        reveal_strlit("1");
        reveal_strlit("2");
        reveal_strlit("3");
        reveal_strlit("4");
        reveal_strlit("5");
        reveal_strlit("6");
        reveal_strlit("7");
        reveal_strlit("8");
        reveal_strlit("9");
    }
    let text = if d == 0 {
        "0"
    } else if d == 1 {
        "1"
    } else if d == 2 {
        "2"
    } else if d == 3 {
        "3"
    } else if d == 4 {
        "4"
    } else if d == 5 {
        "5"
    } else if d == 6 {
        "6"
    } else if d == 7 {
        "7"
    } else if d == 8 {
        "8"
    } else {
        "9"
    };
    assert(text@ =~= seq![digit(d as nat)]);
    text
}

/// Appends `n`, written in decimal, to `out`.
fn push_decimal(out: &mut String, n: usize)
    ensures
        final(out)@ == old(out)@ + decimal(n as nat),
    decreases n,
{
    if n >= 10 {
        push_decimal(out, n / 10);
    }
    out.append(digit_text(n % 10));
    assert(out@ =~= old(out)@ + decimal(n as nat));
}

/// The name that the block with `label` gets in the module: `entry`, or
/// `loop_` or `cont_` and the number of the loop in decimal.
fn block_name(label: Label) -> (r: String)
    ensures
        r@ == block_text(label),
{
    match label {
        Label::Entry => String::from_str("entry"),
        Label::Loop(n) => {
            let mut name = String::from_str("loop_");
            push_decimal(&mut name, n);
            name
        },
        Label::Cont(n) => {
            let mut name = String::from_str("cont_");
            push_decimal(&mut name, n);
            name
        },
    }
}

/// The declarations of the module and its one function, block by block.
fn fill_module<'ctx>(
    context: &'ctx inkwell::context::Context,
    module: &inkwell::module::Module<'ctx>,
    ir: &IrModule,
) -> (r: Result<(), EmitError>)
    ensures
        r is Ok ==> emittable(ir@),
        r matches Err(e) ==> (e is Malformed ==> !emittable(ir@)),
{
    let builder = create_builder(context);
    let tape = add_global(module, array_type(context, TAPE_LEN), "tape");
    set_initializer(tape, zero_of(array_type(context, TAPE_LEN)));
    let tape_pos = add_global(module, int_type(context), "tape_pos");
    set_initializer(tape_pos, zero_of(int_type(context)));
    add_function(module, "calloc", pointer_function_type(context, 2));
    let globals = Globals {
        tape: address_of(tape),
        tape_pos: address_of(tape_pos),
        getchar: add_function(module, "getchar", int_function_type(context, 0)),
        putchar: add_function(module, "putchar", int_function_type(context, 1)),
    };
    let main_fn = add_function(module, "main", int_function_type(context, 0));

    let n = ir.blocks.len();
    let mut blocks: Vec<inkwell::basic_block::BasicBlock> = Vec::new();
    let mut k: usize = 0;
    while k < n
        invariant
            n == ir.blocks@.len(),
            k <= n,
            blocks@.len() == k,
        decreases n - k,
    {
        let name = block_name(ir.blocks[k].label);
        blocks.push(append_block(context, main_fn, name.as_str()));
        k += 1;
    }
    k = 0;
    while k < n
        invariant
            n == ir.blocks@.len(),
            k <= n,
            blocks@.len() == n,
            forall|i: int|
                0 <= i < k ==> (#[trigger] ir@[i]).term is Some && ir@[i].ok(n as int),
        decreases n - k,
    {
        proof {
            assert(ir@[k as int] == ir.blocks@[k as int].deep_view());
        }
        match emit_block(context, &builder, &globals, &blocks, &ir.blocks[k], k) {
            Ok(()) => {},
            Err(e) => {
                return Err(e);
            },
        }
        k += 1;
    }
    match verify_module(module) {
        Ok(()) => Ok(()),
        Err(why) => Err(EmitError::ObjectWriteFailure(why)),
    }
}

/// What is said when LLVM makes no target machine.
pub open spec fn no_machine_text() -> Seq<char> {
    "Unable to create target machine!"@
}

/// What comes of LLVM's answer to the request for a target machine: the
/// machine, where it made one, and else an `ObjectWriteFailure` that says
/// that it made none.
fn machine_or_failure(made: Option<inkwell::targets::TargetMachine>) -> (r: Result<
    inkwell::targets::TargetMachine,
    EmitError,
>)
    ensures
        made matches Some(machine) ==> r == Ok::<inkwell::targets::TargetMachine, EmitError>(
            machine,
        ),
        made is None ==> (r matches Err(EmitError::ObjectWriteFailure(why)) && why@
            == no_machine_text()),
{
    match made {
        Some(machine) => Ok(machine),
        None => Err(
            EmitError::ObjectWriteFailure(String::from_str("Unable to create target machine!")),
        ),
    }
}

/// The target machine for the host. Whether there is one is for LLVM to
/// say; where there is none, the failure is an `ObjectWriteFailure`.
fn host_machine() -> (r: Result<inkwell::targets::TargetMachine, EmitError>)
    ensures
        r matches Err(e) ==> e is ObjectWriteFailure,
{
    initialize_targets();
    let triple = host_triple();
    let cpu = host_cpu_name();
    let features = host_cpu_features();
    match target_for(&triple) {
        Ok(target) => machine_or_failure(
            create_target_machine(&target, &triple, cpu.as_str(), features.as_str()),
        ),
        Err(why) => Err(EmitError::ObjectWriteFailure(why)),
    }
}

/// The LLVM module of the generated code, as LLVM prints it. Complete
/// generated code, such as `compile` gives, is never found malformed; what
/// is found malformed cannot be handed to LLVM.
pub fn emit_llvm_ir(ir: &IrModule) -> (r: Result<String, EmitError>)
    ensures
        r is Ok ==> emittable(ir@),
        r matches Err(e) ==> (e is Malformed ==> !emittable(ir@)),
        complete(ir@) ==> !(r matches Err(EmitError::Malformed)),
{
    let context = create_context();
    let module = create_module(&context, "brainf");
    match fill_module(&context, &module, ir) {
        Ok(()) => Ok(print_module(&module)),
        Err(e) => Err(e),
    }
}

/// The generated code as a relocatable object for the host. Complete
/// generated code, such as `compile` gives, is never found malformed: the
/// one failure left for it is `ObjectWriteFailure`, when LLVM refuses to
/// make a target machine or to write the object.
pub fn emit_object(ir: &IrModule) -> (r: Result<Vec<u8>, EmitError>)
    ensures
        r is Ok ==> emittable(ir@),
        r matches Err(e) ==> (e is Malformed ==> !emittable(ir@)),
        complete(ir@) ==> !(r matches Err(EmitError::Malformed)),
{
    let context = create_context();
    let module = create_module(&context, "brainf");
    match fill_module(&context, &module, ir) {
        Ok(()) => {},
        Err(e) => {
            return Err(e);
        },
    }
    match host_machine() {
        Ok(machine) => match write_object(&machine, &module) {
            Ok(code) => Ok(code),
            Err(why) => Err(EmitError::ObjectWriteFailure(why)),
        },
        Err(e) => Err(e),
    }
}

} // verus!
