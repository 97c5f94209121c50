//! The EVM's own vocabulary, as the `revm` crates define it.
use revm::context::result::{HaltReason, OutOfGasError, SuccessReason};
use revm::interpreter::{InstructionResult, InternalResult, SuccessOrHalt};
use revm_inspectors::tracing::types::{CallKind, TraceMemberOrder};
use vstd::prelude::*;

verus! {

/// How a single instruction, and with it a call, ended.
#[verifier::external_type_specification]
pub struct ExInstructionResult(revm::interpreter::InstructionResult);

/// The classes that instruction results fall into.
#[verifier::external_type_specification]
#[verifier::reject_recursive_types(HaltReasonTr)]
pub struct ExSuccessOrHalt<HaltReasonTr>(revm::interpreter::SuccessOrHalt<HaltReasonTr>);

/// Results that the interpreter keeps to itself.
#[verifier::external_type_specification]
pub struct ExInternalResult(revm::interpreter::InternalResult);

/// Why a call succeeded.
#[verifier::external_type_specification]
pub struct ExSuccessReason(revm::context::result::SuccessReason);

/// Why a call halted.
#[verifier::external_type_specification]
pub struct ExHaltReason(revm::context::result::HaltReason);

/// Which gas ran out.
#[verifier::external_type_specification]
pub struct ExOutOfGasError(revm::context::result::OutOfGasError);

/// How a call was made.
#[verifier::external_type_specification]
pub struct ExCallKind(revm_inspectors::tracing::types::CallKind);

/// What a call did next: log, call, or execute a step.
#[verifier::external_type_specification]
pub struct ExTraceMemberOrder(revm_inspectors::tracing::types::TraceMemberOrder);

/// `CallKind::is_any_create` holds of the two kinds that create a contract, and
/// of no other.
pub assume_specification[ revm_inspectors::tracing::types::CallKind::is_any_create ](
    kind: &CallKind,
) -> (r: bool)
    ensures
        r == (*kind is Create || *kind is Create2),
;

/// What `OpCode::name_by_op` answers for an opcode byte.
pub uninterp spec fn opcode_name(op: u8) -> Seq<char>;

/// The mnemonic of an opcode byte, by `OpCode::name_by_op`. The table of the
/// 256 names is left to that function: the contract says only that a byte
/// always has the same name.
#[verifier::external_body]
pub(crate) fn name_by_op(op: u8) -> (r: String)
    ensures
        r@ == opcode_name(op),
{
    revm::bytecode::opcode::OpCode::name_by_op(op).to_string()
}

/// The class of an instruction result.
pub open spec fn outcome_of(status: InstructionResult) -> SuccessOrHalt<HaltReason> {
    match status {
        InstructionResult::Stop => SuccessOrHalt::Success(SuccessReason::Stop),
        InstructionResult::Return => SuccessOrHalt::Success(SuccessReason::Return),
        InstructionResult::SelfDestruct => SuccessOrHalt::Success(SuccessReason::SelfDestruct),
        InstructionResult::Revert => SuccessOrHalt::Revert,
        InstructionResult::CreateInitCodeStartingEF00 => SuccessOrHalt::Revert,
        InstructionResult::InvalidEOFInitCode => SuccessOrHalt::Revert,
        InstructionResult::FatalExternalError => SuccessOrHalt::FatalExternalError,
        InstructionResult::InvalidExtDelegateCallTarget => SuccessOrHalt::Internal(
            InternalResult::InvalidExtDelegateCallTarget,
        ),
        InstructionResult::OutOfGas => SuccessOrHalt::Halt(
            HaltReason::OutOfGas(OutOfGasError::Basic),
        ),
        InstructionResult::MemoryOOG => SuccessOrHalt::Halt(
            HaltReason::OutOfGas(OutOfGasError::Memory),
        ),
        InstructionResult::MemoryLimitOOG => SuccessOrHalt::Halt(
            HaltReason::OutOfGas(OutOfGasError::MemoryLimit),
        ),
        InstructionResult::PrecompileOOG => SuccessOrHalt::Halt(
            HaltReason::OutOfGas(OutOfGasError::Precompile),
        ),
        InstructionResult::InvalidOperandOOG => SuccessOrHalt::Halt(
            HaltReason::OutOfGas(OutOfGasError::InvalidOperand),
        ),
        InstructionResult::ReentrancySentryOOG => SuccessOrHalt::Halt(
            HaltReason::OutOfGas(OutOfGasError::ReentrancySentry),
        ),
        InstructionResult::CallTooDeep => SuccessOrHalt::Halt(HaltReason::CallTooDeep),
        InstructionResult::OutOfFunds => SuccessOrHalt::Halt(HaltReason::OutOfFunds),
        InstructionResult::OpcodeNotFound => SuccessOrHalt::Halt(HaltReason::OpcodeNotFound),
        InstructionResult::CallNotAllowedInsideStatic => SuccessOrHalt::Halt(
            HaltReason::CallNotAllowedInsideStatic,
        ),
        InstructionResult::StateChangeDuringStaticCall => SuccessOrHalt::Halt(
            HaltReason::StateChangeDuringStaticCall,
        ),
        InstructionResult::InvalidFEOpcode => SuccessOrHalt::Halt(HaltReason::InvalidFEOpcode),
        InstructionResult::InvalidJump => SuccessOrHalt::Halt(HaltReason::InvalidJump),
        InstructionResult::NotActivated => SuccessOrHalt::Halt(HaltReason::NotActivated),
        InstructionResult::StackUnderflow => SuccessOrHalt::Halt(HaltReason::StackUnderflow),
        InstructionResult::StackOverflow => SuccessOrHalt::Halt(HaltReason::StackOverflow),
        InstructionResult::OutOfOffset => SuccessOrHalt::Halt(HaltReason::OutOfOffset),
        InstructionResult::CreateCollision => SuccessOrHalt::Halt(HaltReason::CreateCollision),
        InstructionResult::OverflowPayment => SuccessOrHalt::Halt(HaltReason::OverflowPayment),
        InstructionResult::PrecompileError => SuccessOrHalt::Halt(HaltReason::PrecompileError),
        InstructionResult::NonceOverflow => SuccessOrHalt::Halt(HaltReason::NonceOverflow),
        InstructionResult::CreateContractSizeLimit => SuccessOrHalt::Halt(
            HaltReason::CreateContractSizeLimit,
        ),
        InstructionResult::CreateContractStartingWithEF => SuccessOrHalt::Halt(
            HaltReason::CreateContractStartingWithEF,
        ),
        InstructionResult::CreateInitCodeSizeLimit => SuccessOrHalt::Halt(
            HaltReason::CreateInitCodeSizeLimit,
        ),
    }
}

/// The class of an instruction result, by the conversion that `revm` defines
/// from `InstructionResult` into `SuccessOrHalt`.
#[verifier::external_body]
pub(crate) fn success_or_halt(status: InstructionResult) -> (r: SuccessOrHalt<HaltReason>)
    ensures
        r == outcome_of(status),
{
    status.into()
}

} // verus!
