//! Flattening recorded call trees.
use edr_eip712::trace::{
    convert_named_step, convert_node, convert_outcome, convert_reasoned_result, convert_status,
    u256_to_bigint, CallTrace, CallTraceArena, CallTraceNode, CallTraceStep, ExitReason, RawTrace,
    TraceEntry, TracingMessage, TracingMessageResult, TracingStep, U256,
};
use revm::context::result::{HaltReason, OutOfGasError, SuccessReason};
use revm::interpreter::{InstructionResult, InternalResult, SuccessOrHalt};
use revm_inspectors::tracing::types::{CallKind, TraceMemberOrder};

fn word(n: u64) -> U256 {
    U256 { limbs: [n, 0, 0, 0] }
}

fn step(pc: usize, op: u8, stack: Option<Vec<u64>>, memory: Option<Vec<u8>>) -> CallTraceStep {
    CallTraceStep {
        pc,
        op,
        stack: stack.map(|items| items.into_iter().map(word).collect()),
        memory,
    }
}

fn call(kind: CallKind, depth: usize, steps: Vec<CallTraceStep>) -> CallTrace {
    CallTrace {
        depth,
        success: true,
        caller: [1; 20],
        address: [2; 20],
        kind,
        value: U256 { limbs: [7, 0, 0, 8] },
        data: vec![3, 4],
        output: vec![5],
        gas_used: 21,
        gas_limit: 42,
        status: Some(InstructionResult::Stop),
        steps,
    }
}

fn node(trace: CallTrace, children: Vec<usize>, ordering: Vec<TraceMemberOrder>) -> CallTraceNode {
    CallTraceNode { children, trace, ordering }
}

fn flat(nodes: Vec<CallTraceNode>, verbose: bool) -> Vec<TraceEntry> {
    let arena = CallTraceArena { nodes };
    assert!(arena.is_walkable());
    RawTrace::new(arena, verbose).trace()
}

fn message(entry: &TraceEntry) -> &TracingMessage {
    match entry {
        TraceEntry::Message(message) => message,
        other => panic!("expected a message: {:?}", other),
    }
}

fn tracing_step(entry: &TraceEntry) -> &TracingStep {
    match entry {
        TraceEntry::Step(step) => step,
        other => panic!("expected a step: {:?}", other),
    }
}

fn result(entry: &TraceEntry) -> &TracingMessageResult {
    match entry {
        TraceEntry::Result(result) => result,
        other => panic!("expected a result: {:?}", other),
    }
}

fn words(step: &TracingStep) -> Vec<Vec<u64>> {
    step.stack.iter().map(|item| item.words.clone()).collect()
}

#[test]
fn an_empty_arena_has_no_trace() {
    assert!(flat(vec![], true).is_empty());
}

#[test]
fn a_call_is_a_message_its_steps_and_a_result() {
    let entries = flat(
        vec![node(
            call(
                CallKind::Call,
                3,
                vec![
                    step(0, 0x60, Some(vec![]), None),
                    step(2, 0x01, Some(vec![10, 20]), Some(vec![9, 9])),
                ],
            ),
            vec![],
            vec![
                TraceMemberOrder::Step(0),
                TraceMemberOrder::Log(0),
                TraceMemberOrder::Step(1),
            ],
        )],
        true,
    );
    assert_eq!(entries.len(), 4);
    let first = message(&entries[0]);
    assert_eq!(first.caller, vec![1; 20]);
    assert_eq!(first.to, Some(vec![2; 20]));
    assert_eq!(first.code_address, Some(vec![2; 20]));
    assert!(!first.value.sign_bit);
    assert_eq!(first.value.words, vec![7, 0, 0, 8]);
    assert_eq!(first.data, vec![3, 4]);
    assert_eq!(first.gas_limit.words, vec![42]);
    assert!(!first.is_static_call);

    let push = tracing_step(&entries[1]);
    assert_eq!((push.pc, push.depth), (0, 3));
    assert_eq!(push.opcode.name, "PUSH1");
    assert!(push.stack.is_empty());
    assert_eq!(push.memory, None);

    let add = tracing_step(&entries[2]);
    assert_eq!(add.opcode.name, "ADD");
    assert_eq!(words(add), vec![vec![10, 0, 0, 0], vec![20, 0, 0, 0]]);
    assert_eq!(add.memory, Some(vec![9, 9]));

    let last = &result(&entries[3]).exec_result;
    assert!(last.success);
    assert_eq!(last.execution_gas_used.words, vec![21]);
    assert_eq!(last.contract_address, None);
    assert!(matches!(last.reason, Some(ExitReason::Success(SuccessReason::Stop))));
    assert_eq!(last.output, Some(vec![5]));
}

#[test]
fn a_terse_trace_shows_the_whole_stack_and_no_memory() {
    let nodes = || {
        vec![node(
            call(
                CallKind::Call,
                0,
                vec![
                    step(0, 0x01, Some(vec![10, 20]), Some(vec![9])),
                    step(1, 0x02, None, None),
                    step(2, 0x03, Some(vec![]), None),
                ],
            ),
            vec![],
            vec![
                TraceMemberOrder::Step(0),
                TraceMemberOrder::Step(1),
                TraceMemberOrder::Step(2),
            ],
        )]
    };
    let terse = flat(nodes(), false);
    assert_eq!(
        words(tracing_step(&terse[1])),
        vec![vec![10, 0, 0, 0], vec![20, 0, 0, 0]]
    );
    assert_eq!(tracing_step(&terse[1]).memory, None);
    assert!(tracing_step(&terse[2]).stack.is_empty());
    assert!(tracing_step(&terse[3]).stack.is_empty());
    let verbose = flat(nodes(), true);
    assert_eq!(verbose.len(), terse.len());
    assert_eq!(words(tracing_step(&verbose[1])).len(), 2);
    assert_eq!(tracing_step(&verbose[1]).memory, Some(vec![9]));
}

#[test]
fn nested_calls_stand_where_they_were_made() {
    let entries = flat(
        vec![
            node(
                call(CallKind::Call, 0, vec![step(1, 0xf1, None, None), step(2, 0x00, None, None)]),
                vec![2, 1],
                vec![
                    TraceMemberOrder::Step(0),
                    TraceMemberOrder::Call(1),
                    TraceMemberOrder::Step(1),
                    TraceMemberOrder::Call(0),
                ],
            ),
            node(call(CallKind::StaticCall, 1, vec![]), vec![], vec![]),
            node(call(CallKind::DelegateCall, 1, vec![]), vec![], vec![]),
        ],
        true,
    );
    let kinds: Vec<&str> = entries
        .iter()
        .map(|entry| match entry {
            TraceEntry::Message(m) if m.is_static_call => "static",
            TraceEntry::Message(_) => "message",
            TraceEntry::Step(_) => "step",
            TraceEntry::Result(_) => "result",
        })
        .collect();
    assert_eq!(
        kinds,
        vec!["message", "step", "static", "result", "step", "message", "result", "result"]
    );
    assert_eq!(tracing_step(&entries[1]).opcode.name, "CALL");
    assert_eq!(tracing_step(&entries[4]).opcode.name, "STOP");
}

#[test]
fn creations_have_no_recipient_and_yield_an_address() {
    for kind in [CallKind::Create, CallKind::Create2] {
        let entries = flat(vec![node(call(kind, 0, vec![]), vec![], vec![])], true);
        assert_eq!(message(&entries[0]).to, None);
        assert_eq!(message(&entries[0]).code_address, None);
        assert_eq!(result(&entries[1]).exec_result.contract_address, Some(vec![2; 20]));

        let mut failed = call(kind, 0, vec![]);
        failed.success = false;
        failed.status = Some(InstructionResult::Revert);
        let entries = flat(vec![node(failed, vec![], vec![])], true);
        let last = &result(&entries[1]).exec_result;
        assert!(!last.success);
        assert_eq!(last.contract_address, None);
        assert!(last.reason.is_none());
        assert_eq!(last.output, Some(vec![5]));
    }
}

#[test]
fn positions_are_cut_to_32_bits() {
    let entries = flat(
        vec![node(
            call(CallKind::Call, (1 << 32) + 6, vec![step((1 << 32) + 5, 0x00, None, None)]),
            vec![],
            vec![TraceMemberOrder::Step(0)],
        )],
        true,
    );
    let only = tracing_step(&entries[1]);
    assert_eq!((only.pc, only.depth), (5, 6));
}

#[test]
fn statuses_give_reasons() {
    assert!(convert_status(None).is_none());
    assert!(matches!(
        convert_status(Some(InstructionResult::Return)),
        Some(ExitReason::Success(SuccessReason::Return))
    ));
    assert!(matches!(
        convert_status(Some(InstructionResult::SelfDestruct)),
        Some(ExitReason::Success(SuccessReason::SelfDestruct))
    ));
    assert!(convert_status(Some(InstructionResult::Revert)).is_none());
    assert!(convert_status(Some(InstructionResult::CreateInitCodeStartingEF00)).is_none());
    assert!(convert_status(Some(InstructionResult::InvalidEOFInitCode)).is_none());
    assert!(convert_status(Some(InstructionResult::FatalExternalError)).is_none());
    assert!(convert_status(Some(InstructionResult::InvalidExtDelegateCallTarget)).is_none());
    assert!(matches!(
        convert_status(Some(InstructionResult::OutOfGas)),
        Some(ExitReason::Halt(HaltReason::OutOfGas(OutOfGasError::Basic)))
    ));
    assert!(matches!(
        convert_status(Some(InstructionResult::StackUnderflow)),
        Some(ExitReason::Halt(HaltReason::StackUnderflow))
    ));
}

#[test]
fn every_halt_has_its_own_reason() {
    let halts = [
        (InstructionResult::OutOfGas, HaltReason::OutOfGas(OutOfGasError::Basic)),
        (InstructionResult::MemoryOOG, HaltReason::OutOfGas(OutOfGasError::Memory)),
        (InstructionResult::MemoryLimitOOG, HaltReason::OutOfGas(OutOfGasError::MemoryLimit)),
        (InstructionResult::PrecompileOOG, HaltReason::OutOfGas(OutOfGasError::Precompile)),
        (
            InstructionResult::InvalidOperandOOG,
            HaltReason::OutOfGas(OutOfGasError::InvalidOperand),
        ),
        (
            InstructionResult::ReentrancySentryOOG,
            HaltReason::OutOfGas(OutOfGasError::ReentrancySentry),
        ),
        (InstructionResult::CallTooDeep, HaltReason::CallTooDeep),
        (InstructionResult::OutOfFunds, HaltReason::OutOfFunds),
        (InstructionResult::OpcodeNotFound, HaltReason::OpcodeNotFound),
        (
            InstructionResult::CallNotAllowedInsideStatic,
            HaltReason::CallNotAllowedInsideStatic,
        ),
        (
            InstructionResult::StateChangeDuringStaticCall,
            HaltReason::StateChangeDuringStaticCall,
        ),
        (InstructionResult::InvalidFEOpcode, HaltReason::InvalidFEOpcode),
        (InstructionResult::InvalidJump, HaltReason::InvalidJump),
        (InstructionResult::NotActivated, HaltReason::NotActivated),
        (InstructionResult::StackUnderflow, HaltReason::StackUnderflow),
        (InstructionResult::StackOverflow, HaltReason::StackOverflow),
        (InstructionResult::OutOfOffset, HaltReason::OutOfOffset),
        (InstructionResult::CreateCollision, HaltReason::CreateCollision),
        (InstructionResult::OverflowPayment, HaltReason::OverflowPayment),
        (InstructionResult::PrecompileError, HaltReason::PrecompileError),
        (InstructionResult::NonceOverflow, HaltReason::NonceOverflow),
        (InstructionResult::CreateContractSizeLimit, HaltReason::CreateContractSizeLimit),
        (
            InstructionResult::CreateContractStartingWithEF,
            HaltReason::CreateContractStartingWithEF,
        ),
        (InstructionResult::CreateInitCodeSizeLimit, HaltReason::CreateInitCodeSizeLimit),
    ];
    for (status, reason) in halts {
        assert!(matches!(convert_status(Some(status)), Some(ExitReason::Halt(r)) if r == reason));
    }
}

#[test]
fn outcomes_give_reasons() {
    assert!(matches!(
        convert_outcome(SuccessOrHalt::Success(SuccessReason::Stop)),
        Some(ExitReason::Success(SuccessReason::Stop))
    ));
    assert!(matches!(
        convert_outcome(SuccessOrHalt::Halt(HaltReason::StackOverflow)),
        Some(ExitReason::Halt(HaltReason::StackOverflow))
    ));
    assert!(convert_outcome(SuccessOrHalt::Revert).is_none());
    assert!(convert_outcome(SuccessOrHalt::FatalExternalError).is_none());
    assert!(convert_outcome(SuccessOrHalt::Internal(
        InternalResult::InvalidExtDelegateCallTarget
    ))
    .is_none());
}

#[test]
fn given_names_and_reasons_are_shown() {
    let shown = convert_named_step(&step(4, 0x01, None, None), "PLUS".to_string(), 1, true);
    assert_eq!(shown.opcode.name, "PLUS");
    let shown = convert_reasoned_result(
        &call(CallKind::Call, 0, vec![]),
        Some(ExitReason::Halt(HaltReason::OpcodeNotFound)),
    );
    assert!(matches!(
        shown.exec_result.reason,
        Some(ExitReason::Halt(HaltReason::OpcodeNotFound))
    ));
    // The recorded flag counts, not the reason.
    assert!(shown.exec_result.success);
}

#[test]
fn integers_keep_their_limbs() {
    let big = u256_to_bigint(&U256 { limbs: [1, 2, 3, u64::MAX] });
    assert!(!big.sign_bit);
    assert_eq!(big.words, vec![1, 2, 3, u64::MAX]);
}

#[test]
fn trees_with_missing_parts_or_cycles_cannot_be_walked() {
    let with = |children: Vec<usize>, ordering: Vec<TraceMemberOrder>| CallTraceArena {
        nodes: vec![node(call(CallKind::Call, 0, vec![]), children, ordering)],
    };
    assert!(with(vec![], vec![]).is_walkable());
    assert!(with(vec![5], vec![]).is_walkable());
    assert!(!with(vec![], vec![TraceMemberOrder::Step(0)]).is_walkable());
    assert!(!with(vec![], vec![TraceMemberOrder::Call(0)]).is_walkable());
    assert!(!with(vec![1], vec![TraceMemberOrder::Call(0)]).is_walkable());
    assert!(!with(vec![0], vec![TraceMemberOrder::Call(0)]).is_walkable());
    assert!(with(vec![], vec![TraceMemberOrder::Log(9)]).is_walkable());
}

#[test]
fn the_trace_of_a_call_is_appended() {
    let arena = CallTraceArena {
        nodes: vec![
            node(call(CallKind::Call, 0, vec![]), vec![1], vec![TraceMemberOrder::Call(0)]),
            node(
                call(CallKind::StaticCall, 1, vec![step(7, 0x00, None, None)]),
                vec![],
                vec![TraceMemberOrder::Step(0)],
            ),
        ],
    };
    assert!(arena.is_walkable_from(1));
    assert!(!arena.is_walkable_from(2));
    let mut output = Vec::new();
    convert_node(&arena, 1, true, &mut output);
    assert_eq!(output.len(), 3);
    convert_node(&arena, 0, false, &mut output);
    assert_eq!(output.len(), 8);
    assert!(message(&output[0]).is_static_call);
    assert_eq!(tracing_step(&output[1]).pc, 7);
    assert!(result(&output[2]).exec_result.success);
    assert!(!message(&output[3]).is_static_call);
    assert!(message(&output[4]).is_static_call);
    assert!(result(&output[7]).exec_result.success);
}
