//! Raw traces: a recorded call tree, flattened into the sequence of messages,
//! steps and results that trace consumers read.
use crate::evm::{name_by_op, opcode_name, outcome_of, success_or_halt};
use revm::context::result::{HaltReason, SuccessReason};
use revm::interpreter::{InstructionResult, SuccessOrHalt};
use revm_inspectors::tracing::types::{CallKind, TraceMemberOrder};
use vstd::prelude::*;
use vstd::slice::slice_to_vec;

verus! {

/// An integer as a sign and its 64-bit words, least significant first.
#[derive(Debug)]
pub struct BigInt {
    /// Whether the integer is negative.
    pub sign_bit: bool,
    /// The words of its magnitude.
    pub words: Vec<u64>,
}

/// An unsigned 256-bit integer as four 64-bit limbs, least significant first.
#[derive(Clone, Copy, Debug)]
pub struct U256 {
    /// The limbs.
    pub limbs: [u64; 4],
}

/// Sent before a call or a contract creation starts.
#[derive(Debug)]
pub struct TracingMessage {
    /// Sender address.
    pub caller: Vec<u8>,
    /// Recipient address. `None` if a contract is created.
    pub to: Option<Vec<u8>>,
    /// Address of the code that is being executed. `None` if a contract is
    /// created.
    pub code_address: Option<Vec<u8>>,
    /// Value sent in the message.
    pub value: BigInt,
    /// Input data of the message.
    pub data: Vec<u8>,
    /// Gas limit.
    pub gas_limit: BigInt,
    /// Whether it is a static call.
    pub is_static_call: bool,
}

/// Opcode information for a tracing step.
#[derive(Debug)]
pub struct TracingOpcode {
    /// The name of the opcode.
    pub name: String,
}

/// A step of the interpreter.
#[derive(Debug)]
pub struct TracingStep {
    /// The program counter.
    pub pc: u32,
    /// Call depth.
    pub depth: u32,
    /// The executed opcode.
    pub opcode: TracingOpcode,
    /// The entries on the stack.
    pub stack: Vec<BigInt>,
    /// The memory at the step. None if verbose tracing is disabled.
    pub memory: Option<Vec<u8>>,
}

/// Why a call ended, where it neither reverted nor failed for reasons outside
/// of the EVM.
#[derive(Debug)]
pub enum ExitReason {
    /// It succeeded.
    Success(SuccessReason),
    /// It halted.
    Halt(HaltReason),
}

/// How a call went.
#[derive(Debug)]
pub struct TracingExecResult {
    /// Whether execution succeeded.
    pub success: bool,
    /// Gas used during execution.
    pub execution_gas_used: BigInt,
    /// Address of the created contract, if any.
    pub contract_address: Option<Vec<u8>>,
    /// The reason for the exit.
    pub reason: Option<ExitReason>,
    /// The output data.
    pub output: Option<Vec<u8>>,
}

/// Sent after a call or a contract creation has ended.
#[derive(Debug)]
pub struct TracingMessageResult {
    /// The execution result.
    pub exec_result: TracingExecResult,
}

/// An element of a flat trace.
#[derive(Debug)]
pub enum TraceEntry {
    /// A call starts.
    Message(TracingMessage),
    /// An instruction is executed.
    Step(TracingStep),
    /// A call ends.
    Result(TracingMessageResult),
}

/// A recorded instruction.
#[derive(Debug)]
pub struct CallTraceStep {
    /// Program counter.
    pub pc: usize,
    /// Opcode byte.
    pub op: u8,
    /// Stack before the instruction, bottom first, if it was recorded.
    pub stack: Option<Vec<U256>>,
    /// Memory before the instruction, if it was recorded.
    pub memory: Option<Vec<u8>>,
}

/// A recorded call.
#[derive(Debug)]
pub struct CallTrace {
    /// Depth of the call.
    pub depth: usize,
    /// Whether the call was successful.
    pub success: bool,
    /// Caller address.
    pub caller: [u8; 20],
    /// Callee address, or the address of the created contract.
    pub address: [u8; 20],
    /// How the call was made.
    pub kind: CallKind,
    /// Value sent with the call.
    pub value: U256,
    /// Input data.
    pub data: Vec<u8>,
    /// Output data.
    pub output: Vec<u8>,
    /// Gas used by the call.
    pub gas_used: u64,
    /// Gas limit of the call.
    pub gas_limit: u64,
    /// How the call ended, if it did.
    pub status: Option<InstructionResult>,
    /// The instructions of the call itself.
    pub steps: Vec<CallTraceStep>,
}

/// A recorded call and the calls that it made.
#[derive(Debug)]
pub struct CallTraceNode {
    /// Positions of the calls that this one made.
    pub children: Vec<usize>,
    /// The call.
    pub trace: CallTrace,
    /// What the call did, in order.
    pub ordering: Vec<TraceMemberOrder>,
}

/// Recorded calls. The outermost one stands first.
#[derive(Debug)]
pub struct CallTraceArena {
    /// The calls.
    pub nodes: Vec<CallTraceNode>,
}

/// The value of a [`BigInt`].
#[verifier::ext_equal]
pub ghost struct BigIntModel {
    pub sign_bit: bool,
    pub words: Seq<u64>,
}

/// The contents of a [`TracingMessage`].
#[verifier::ext_equal]
pub ghost struct MessageModel {
    pub caller: Seq<u8>,
    pub to: Option<Seq<u8>>,
    pub code_address: Option<Seq<u8>>,
    pub value: BigIntModel,
    pub data: Seq<u8>,
    pub gas_limit: BigIntModel,
    pub is_static_call: bool,
}

/// The contents of a [`TracingStep`].
#[verifier::ext_equal]
pub ghost struct StepModel {
    pub pc: u32,
    pub depth: u32,
    pub opcode: Seq<char>,
    pub stack: Seq<BigIntModel>,
    pub memory: Option<Seq<u8>>,
}

/// The contents of a [`TracingMessageResult`].
#[verifier::ext_equal]
pub ghost struct ResultModel {
    pub success: bool,
    pub execution_gas_used: BigIntModel,
    pub contract_address: Option<Seq<u8>>,
    pub reason: Option<ExitReason>,
    pub output: Option<Seq<u8>>,
}

/// The contents of a [`TraceEntry`].
#[verifier::ext_equal]
pub ghost enum EntryModel {
    Message(MessageModel),
    Step(StepModel),
    Result(ResultModel),
}

/// The bytes of an optional buffer.
pub open spec fn opt_bytes(bytes: Option<Vec<u8>>) -> Option<Seq<u8>> {
    match bytes {
        Some(b) => Some(b@),
        None => None,
    }
}

/// The values of a list of integers.
pub open spec fn big_ints(v: Seq<BigInt>) -> Seq<BigIntModel> {
    v.map_values(|b: BigInt| b@)
}

/// The contents of a list of trace entries.
pub open spec fn entry_models(v: Seq<TraceEntry>) -> Seq<EntryModel> {
    v.map_values(|e: TraceEntry| e@)
}

impl View for BigInt {
    type V = BigIntModel;

    open spec fn view(&self) -> BigIntModel {
        BigIntModel { sign_bit: self.sign_bit, words: self.words@ }
    }
}

impl View for TracingMessage {
    type V = MessageModel;

    open spec fn view(&self) -> MessageModel {
        MessageModel {
            caller: self.caller@,
            to: opt_bytes(self.to),
            code_address: opt_bytes(self.code_address),
            value: self.value@,
            data: self.data@,
            gas_limit: self.gas_limit@,
            is_static_call: self.is_static_call,
        }
    }
}

impl View for TracingStep {
    type V = StepModel;

    open spec fn view(&self) -> StepModel {
        StepModel {
            pc: self.pc,
            depth: self.depth,
            opcode: self.opcode.name@,
            stack: big_ints(self.stack@),
            memory: opt_bytes(self.memory),
        }
    }
}

impl View for TracingMessageResult {
    type V = ResultModel;

    open spec fn view(&self) -> ResultModel {
        ResultModel {
            success: self.exec_result.success,
            execution_gas_used: self.exec_result.execution_gas_used@,
            contract_address: opt_bytes(self.exec_result.contract_address),
            reason: self.exec_result.reason,
            output: opt_bytes(self.exec_result.output),
        }
    }
}

impl View for TraceEntry {
    type V = EntryModel;

    open spec fn view(&self) -> EntryModel {
        match self {
            TraceEntry::Message(m) => EntryModel::Message(m@),
            TraceEntry::Step(s) => EntryModel::Step(s@),
            TraceEntry::Result(r) => EntryModel::Result(r@),
        }
    }
}

/// An unsigned 256-bit integer: its four limbs, as a non-negative integer.
pub open spec fn big_of_u256(v: U256) -> BigIntModel {
    BigIntModel { sign_bit: false, words: v.limbs@ }
}

/// A 64-bit integer: one word, as a non-negative integer.
pub open spec fn big_of_u64(v: u64) -> BigIntModel {
    BigIntModel { sign_bit: false, words: seq![v] }
}

/// The low 32 bits of a machine word.
pub open spec fn low_32(v: usize) -> u32 {
    (v as nat % 0x1_0000_0000) as u32
}

/// Whether a call creates a contract.
pub open spec fn creates(trace: CallTrace) -> bool {
    trace.kind is Create || trace.kind is Create2
}

/// The message that announces a call. A creation has neither recipient nor
/// code address.
pub open spec fn message_of(trace: CallTrace) -> MessageModel {
    let callee = if creates(trace) {
        None
    } else {
        Some(trace.address@)
    };
    MessageModel {
        caller: trace.caller@,
        to: callee,
        code_address: callee,
        value: big_of_u256(trace.value),
        data: trace.data@,
        gas_limit: big_of_u64(trace.gas_limit),
        is_static_call: trace.kind is StaticCall,
    }
}

/// The stack that a step shows: all that was recorded, bottom first. A stack that
/// was not recorded shows as empty.
pub open spec fn stack_of(stack: Option<Vec<U256>>) -> Seq<BigIntModel> {
    match stack {
        Some(s) => s@.map_values(|v: U256| big_of_u256(v)),
        None => Seq::empty(),
    }
}

/// The entry of an instruction. It shows the depth of the call that it is part
/// of, and its memory in a verbose trace only.
pub open spec fn step_of(step: CallTraceStep, depth: usize, verbose: bool) -> StepModel {
    StepModel {
        pc: low_32(step.pc),
        depth: low_32(depth),
        opcode: opcode_name(step.op),
        stack: stack_of(step.stack),
        memory: if verbose {
            opt_bytes(step.memory)
        } else {
            None
        },
    }
}

/// The reason that an outcome gives for the end of a call.
pub open spec fn reason_of_outcome(outcome: SuccessOrHalt<HaltReason>) -> Option<ExitReason> {
    match outcome {
        SuccessOrHalt::Success(reason) => Some(ExitReason::Success(reason)),
        SuccessOrHalt::Halt(reason) => Some(ExitReason::Halt(reason)),
        _ => None,
    }
}

/// The reason that a status gives for the end of a call.
pub open spec fn reason_of(status: Option<InstructionResult>) -> Option<ExitReason> {
    match status {
        Some(s) => reason_of_outcome(outcome_of(s)),
        None => None,
    }
}

/// The entry that ends a call. It names a contract only where one was created
/// successfully.
pub open spec fn result_of(trace: CallTrace) -> ResultModel {
    ResultModel {
        success: trace.success,
        execution_gas_used: big_of_u64(trace.gas_used),
        contract_address: if creates(trace) && trace.success {
            Some(trace.address@)
        } else {
            None
        },
        reason: reason_of(trace.status),
        output: Some(trace.output@),
    }
}

/// Whether the calls below `idx` end within `depth` levels, and everything that
/// they refer to is there.
pub open spec fn ends_within(nodes: Seq<CallTraceNode>, idx: int, depth: nat) -> bool
    decreases depth,
{
    &&& depth > 0
    &&& 0 <= idx < nodes.len()
    &&& forall|j: int|
        0 <= j < nodes[idx].ordering@.len() ==> match #[trigger] nodes[idx].ordering@[j] {
            TraceMemberOrder::Step(i) => i < nodes[idx].trace.steps@.len(),
            TraceMemberOrder::Call(i) => i < nodes[idx].children@.len() && ends_within(
                nodes,
                nodes[idx].children@[i as int] as int,
                (depth - 1) as nat,
            ),
            TraceMemberOrder::Log(_) => true,
        }
}

/// The flat trace of the call at `idx`: its message; each of its steps, and the
/// flat trace of each call that it made, in order; its result.
pub open spec fn flat_trace(
    nodes: Seq<CallTraceNode>,
    idx: int,
    verbose: bool,
    depth: nat,
) -> Seq<EntryModel>
    decreases depth, 1int,
{
    if depth == 0 {
        Seq::empty()
    } else {
        seq![EntryModel::Message(message_of(nodes[idx].trace))] + member_traces(
            nodes,
            idx,
            verbose,
            depth,
        ).flatten() + seq![EntryModel::Result(result_of(nodes[idx].trace))]
    }
}

/// What each thing that the call at `idx` did adds to its flat trace. Logs add
/// nothing.
pub open spec fn member_traces(
    nodes: Seq<CallTraceNode>,
    idx: int,
    verbose: bool,
    depth: nat,
) -> Seq<Seq<EntryModel>>
    decreases depth, 0int,
{
    let node = nodes[idx];
    Seq::new(
        node.ordering@.len(),
        |j: int|
            match node.ordering@[j] {
                TraceMemberOrder::Step(i) => seq![
                    EntryModel::Step(
                        step_of(node.trace.steps@[i as int], node.trace.depth, verbose),
                    ),
                ],
                TraceMemberOrder::Call(i) => if depth > 0 {
                    flat_trace(
                        nodes,
                        node.children@[i as int] as int,
                        verbose,
                        (depth - 1) as nat,
                    )
                } else {
                    Seq::empty()
                },
                TraceMemberOrder::Log(_) => Seq::empty(),
            },
    )
}

impl CallTraceArena {
    /// Whether the call at `idx` and those below it can be walked: everything
    /// that they refer to is recorded, and none is below itself.
    pub open spec fn walkable_from(self, idx: int) -> bool {
        ends_within(self.nodes@, idx, self.nodes@.len())
    }

    /// Whether the call tree can be walked from its outermost call.
    pub open spec fn walkable(self) -> bool {
        self.nodes@.len() == 0 || self.walkable_from(0)
    }

    /// The flat trace of the call at `idx`.
    pub open spec fn trace_of(self, idx: int, verbose: bool) -> Seq<EntryModel> {
        flat_trace(self.nodes@, idx, verbose, self.nodes@.len())
    }

    /// The flat trace of the outermost call. Nothing recorded, nothing traced.
    pub open spec fn flattened(self, verbose: bool) -> Seq<EntryModel> {
        if self.nodes@.len() == 0 {
            Seq::empty()
        } else {
            self.trace_of(0, verbose)
        }
    }

    /// Whether the call at `idx` and those below it can be walked.
    pub fn is_walkable_from(&self, idx: usize) -> (r: bool)
        ensures
            r == self.walkable_from(idx as int),
    {
        check_node(self, idx, self.nodes.len())
    }

    /// Whether the call tree can be walked from its outermost call.
    pub fn is_walkable(&self) -> (r: bool)
        ensures
            r == self.walkable(),
    {
        self.nodes.len() == 0 || self.is_walkable_from(0)
    }
}

/// Whether the calls below `idx` end within `depth` levels.
fn check_node(arena: &CallTraceArena, idx: usize, depth: usize) -> (r: bool)
    ensures
        r == ends_within(arena.nodes@, idx as int, depth as nat),
    decreases depth,
{
    if depth == 0 || idx >= arena.nodes.len() {
        return false;
    }
    let node = &arena.nodes[idx];
    let mut j: usize = 0;
    while j < node.ordering.len()
        invariant
            depth > 0,
            idx < arena.nodes@.len(),
            node == arena.nodes@[idx as int],
            j <= node.ordering@.len(),
            forall|k: int|
                0 <= k < j ==> match #[trigger] node.ordering@[k] {
                    TraceMemberOrder::Step(i) => i < node.trace.steps@.len(),
                    TraceMemberOrder::Call(i) => i < node.children@.len() && ends_within(
                        arena.nodes@,
                        node.children@[i as int] as int,
                        (depth - 1) as nat,
                    ),
                    TraceMemberOrder::Log(_) => true,
                },
        decreases node.ordering@.len() - j,
    {
        let found = match &node.ordering[j] {
            TraceMemberOrder::Step(i) => *i < node.trace.steps.len(),
            TraceMemberOrder::Call(i) => *i < node.children.len() && check_node(
                arena,
                node.children[*i],
                depth - 1,
            ),
            TraceMemberOrder::Log(_) => true,
        };
        if !found {
            return false;
        }
        j = j + 1;
    }
    true
}

/// An unsigned 256-bit integer as a [`BigInt`] of four words.
pub fn u256_to_bigint(v: &U256) -> (r: BigInt)
    ensures
        r@ == big_of_u256(*v),
{
    let words = slice_to_vec(vstd::array::array_as_slice(&v.limbs));
    assert(words@ =~= v.limbs@);
    BigInt { sign_bit: false, words }
}

/// A 64-bit integer as a [`BigInt`] of one word.
fn u64_to_bigint(v: u64) -> (r: BigInt)
    ensures
        r@ == big_of_u64(v),
{
    let mut words: Vec<u64> = Vec::new();
    words.push(v);
    assert(words@ =~= seq![v]);
    BigInt { sign_bit: false, words }
}

/// The low 32 bits of a machine word.
fn truncate_to_u32(v: usize) -> (r: u32)
    ensures
        r == low_32(v),
{
    let wide: u64 = v as u64;
    assert(wide as u32 == wide % 0x1_0000_0000) by (bit_vector);
    #[verifier::truncate]
    (wide as u32)
}

/// A copy of a buffer.
fn copy_bytes(bytes: &Vec<u8>) -> (r: Vec<u8>)
    ensures
        r@ == bytes@,
{
    slice_to_vec(bytes.as_slice())
}

/// A copy of an address.
fn copy_address(address: &[u8; 20]) -> (r: Vec<u8>)
    ensures
        r@ == address@,
{
    slice_to_vec(vstd::array::array_as_slice(address))
}

/// The stack that a step shows.
fn convert_stack(stack: &Option<Vec<U256>>) -> (r: Vec<BigInt>)
    ensures
        big_ints(r@) == stack_of(*stack),
{
    let mut out: Vec<BigInt> = Vec::new();
    assert(big_ints(out@) =~= Seq::<BigIntModel>::empty());
    if let Some(items) = stack {
        let ghost all = items@.map_values(|v: U256| big_of_u256(v));
        let mut i: usize = 0;
        while i < items.len()
            invariant
                i <= items@.len(),
                all == items@.map_values(|v: U256| big_of_u256(v)),
                big_ints(out@) =~= all.take(i as int),
            decreases items@.len() - i,
        {
            let ghost so_far = out@;
            out.push(u256_to_bigint(&items[i]));
            assert(big_ints(out@) =~= big_ints(so_far).push(all[i as int]));
            i = i + 1;
        }
        assert(all.take(i as int) =~= all);
    }
    out
}

/// A copy of an optional buffer.
fn copy_opt_bytes(bytes: &Option<Vec<u8>>) -> (r: Option<Vec<u8>>)
    ensures
        opt_bytes(r) == opt_bytes(*bytes),
{
    match bytes {
        Some(b) => Some(copy_bytes(b)),
        None => None,
    }
}

/// The reason that an outcome gives for the end of a call. Reverts, and
/// failures outside of the EVM, give none.
pub fn convert_outcome(outcome: SuccessOrHalt<HaltReason>) -> (r: Option<ExitReason>)
    ensures
        r == reason_of_outcome(outcome),
{
    match outcome {
        SuccessOrHalt::Success(reason) => Some(ExitReason::Success(reason)),
        SuccessOrHalt::Revert => None,
        SuccessOrHalt::Halt(reason) => Some(ExitReason::Halt(reason)),
        SuccessOrHalt::FatalExternalError => None,
        SuccessOrHalt::Internal(_) => None,
    }
}

/// The reason that a status gives for the end of a call.
pub fn convert_status(status: Option<InstructionResult>) -> (r: Option<ExitReason>)
    ensures
        r == reason_of(status),
        r is None <==> (status matches Some(s) ==> s is Revert || s is CreateInitCodeStartingEF00
            || s is InvalidEOFInitCode || s is FatalExternalError
            || s is InvalidExtDelegateCallTarget),
        r matches Some(ExitReason::Success(_)) <==> (status matches Some(s) && (s is Stop
            || s is Return || s is SelfDestruct)),
{
    match status {
        Some(s) => convert_outcome(success_or_halt(s)),
        None => None,
    }
}

/// The message that announces a call.
pub fn convert_message(trace: &CallTrace) -> (r: TracingMessage)
    ensures
        r@ == message_of(*trace),
{
    let is_create = trace.kind.is_any_create();
    let is_static_call = match &trace.kind {
        CallKind::StaticCall => true,
        _ => false,
    };
    TracingMessage {
        caller: copy_address(&trace.caller),
        to: if is_create {
            None
        } else {
            Some(copy_address(&trace.address))
        },
        code_address: if is_create {
            None
        } else {
            Some(copy_address(&trace.address))
        },
        value: u256_to_bigint(&trace.value),
        data: copy_bytes(&trace.data),
        gas_limit: u64_to_bigint(trace.gas_limit),
        is_static_call,
    }
}

/// The entry of an instruction, under a name for its opcode.
pub fn convert_named_step(
    step: &CallTraceStep,
    opcode: String,
    depth: usize,
    verbose: bool,
) -> (r: TracingStep)
    ensures
        r@ == (StepModel { opcode: opcode@, ..step_of(*step, depth, verbose) }),
{
    TracingStep {
        pc: truncate_to_u32(step.pc),
        depth: truncate_to_u32(depth),
        opcode: TracingOpcode { name: opcode },
        stack: convert_stack(&step.stack),
        memory: if verbose {
            copy_opt_bytes(&step.memory)
        } else {
            None
        },
    }
}

/// The entry of an instruction.
pub fn convert_step(step: &CallTraceStep, depth: usize, verbose: bool) -> (r: TracingStep)
    ensures
        r@ == step_of(*step, depth, verbose),
{
    let opcode = name_by_op(step.op);
    convert_named_step(step, opcode, depth, verbose)
}

/// The entry that ends a call, with a reason for its end.
pub fn convert_reasoned_result(trace: &CallTrace, reason: Option<ExitReason>) -> (r:
    TracingMessageResult)
    ensures
        r@ == (ResultModel { reason, ..result_of(*trace) }),
{
    let contract_address = if trace.kind.is_any_create() && trace.success {
        Some(copy_address(&trace.address))
    } else {
        None
    };
    TracingMessageResult {
        exec_result: TracingExecResult {
            success: trace.success,
            execution_gas_used: u64_to_bigint(trace.gas_used),
            contract_address,
            reason,
            output: Some(copy_bytes(&trace.output)),
        },
    }
}

/// The entry that ends a call.
pub fn convert_result(trace: &CallTrace) -> (r: TracingMessageResult)
    ensures
        r@ == result_of(*trace),
{
    let reason = convert_status(trace.status);
    convert_reasoned_result(trace, reason)
}

/// Walks the call at `node_idx` and everything below it, depth first, and
/// appends its flat trace to `output`. What stood in `output` stays as it is.
pub fn convert_node(
    arena: &CallTraceArena,
    node_idx: usize,
    verbose: bool,
    output: &mut Vec<TraceEntry>,
)
    requires
        arena.walkable_from(node_idx as int),
    ensures
        entry_models(final(output)@) == entry_models(old(output)@) + arena.trace_of(
            node_idx as int,
            verbose,
        ),
        old(output)@.is_prefix_of(final(output)@),
{
    walk_node(arena, node_idx, verbose, output, Ghost(arena.nodes@.len()));
}

/// Walks calls that end within `depth` levels.
fn walk_node(
    arena: &CallTraceArena,
    node_idx: usize,
    verbose: bool,
    output: &mut Vec<TraceEntry>,
    Ghost(depth): Ghost<nat>,
)
    requires
        ends_within(arena.nodes@, node_idx as int, depth),
    ensures
        entry_models(final(output)@) == entry_models(old(output)@) + flat_trace(
            arena.nodes@,
            node_idx as int,
            verbose,
            depth,
        ),
        old(output)@.is_prefix_of(final(output)@),
    decreases depth,
{
    let node = &arena.nodes[node_idx];
    let ghost start = entry_models(output@);
    let ghost message = EntryModel::Message(message_of(node.trace));
    let ghost members = member_traces(arena.nodes@, node_idx as int, verbose, depth);

    output.push(TraceEntry::Message(convert_message(&node.trace)));
    proof {
        assert(entry_models(output@) =~= start.push(message));
        assert(members.take(0) =~= Seq::<Seq<EntryModel>>::empty());
        assert(start.push(message) + members.take(0).flatten() =~= start.push(message));
    }

    let mut j: usize = 0;
    while j < node.ordering.len()
        invariant
            ends_within(arena.nodes@, node_idx as int, depth),
            node == arena.nodes@[node_idx as int],
            members == member_traces(arena.nodes@, node_idx as int, verbose, depth),
            j <= node.ordering@.len(),
            members.len() == node.ordering@.len(),
            entry_models(output@) == start.push(message) + members.take(j as int).flatten(),
            old(output)@.is_prefix_of(output@),
        decreases node.ordering@.len() - j,
    {
        let ghost so_far = entry_models(output@);
        match &node.ordering[j] {
            TraceMemberOrder::Step(i) => {
                let step = &node.trace.steps[*i];
                output.push(TraceEntry::Step(convert_step(step, node.trace.depth, verbose)));
                assert(entry_models(output@) =~= so_far + members[j as int]);
            },
            TraceMemberOrder::Call(i) => {
                let child_idx = node.children[*i];
                walk_node(arena, child_idx, verbose, output, Ghost((depth - 1) as nat));
                assert(entry_models(output@) =~= so_far + members[j as int]);
            },
            TraceMemberOrder::Log(_) => {
                assert(entry_models(output@) =~= so_far + members[j as int]);
            },
        }
        proof {
            assert(members.take(j + 1) =~= members.take(j as int).push(members[j as int]));
            members.take(j as int).lemma_flatten_push(members[j as int]);
            assert(start.push(message) + members.take(j as int).flatten() + members[j as int]
                =~= start.push(message) + (members.take(j as int).flatten() + members[j as int]));
        }
        j = j + 1;
    }
    let ghost walked = entry_models(output@);
    output.push(TraceEntry::Result(convert_result(&node.trace)));
    proof {
        let result = EntryModel::Result(result_of(node.trace));
        assert(entry_models(output@) =~= walked.push(result));
        assert(members.take(j as int) =~= members);
        assert(walked.push(result) =~= start + (seq![message] + members.flatten() + seq![result]));
    }
}

/// A recorded call tree, with the amount of detail to show of it.
#[derive(Debug)]
pub struct RawTrace {
    arena: CallTraceArena,
    verbose: bool,
}

impl RawTrace {
    /// The recorded calls.
    pub closed spec fn arena(self) -> CallTraceArena {
        self.arena
    }

    /// Whether steps show their memory.
    pub closed spec fn verbose(self) -> bool {
        self.verbose
    }

    /// A trace of recorded calls.
    pub fn new(arena: CallTraceArena, verbose: bool) -> (r: Self)
        ensures
            r.arena() == arena,
            r.verbose() == verbose,
    {
        Self { arena, verbose }
    }

    /// The flat trace.
    pub fn trace(&self) -> (r: Vec<TraceEntry>)
        requires
            self.arena().walkable(),
        ensures
            entry_models(r@) == self.arena().flattened(self.verbose()),
    {
        let mut result: Vec<TraceEntry> = Vec::new();
        assert(entry_models(result@) =~= Seq::<EntryModel>::empty());
        if !self.arena.nodes.is_empty() {
            convert_node(&self.arena, 0, self.verbose, &mut result);
            assert(entry_models(result@) =~= self.arena.flattened(self.verbose));
        }
        result
    }
}

/// More levels than needed change nothing.
proof fn lemma_deeper(nodes: Seq<CallTraceNode>, idx: int, verbose: bool, depth: nat, more: nat)
    requires
        ends_within(nodes, idx, depth),
        depth <= more,
    ensures
        ends_within(nodes, idx, more),
        flat_trace(nodes, idx, verbose, more) == flat_trace(nodes, idx, verbose, depth),
    decreases depth,
{
    let node = nodes[idx];
    let less = (depth - 1) as nat;
    let deeper = (more - 1) as nat;
    assert forall|j: int| 0 <= j < node.ordering@.len() implies match #[trigger] node.ordering@[j] {
        TraceMemberOrder::Step(i) => i < node.trace.steps@.len(),
        TraceMemberOrder::Call(i) => i < node.children@.len() && ends_within(
            nodes,
            node.children@[i as int] as int,
            deeper,
        ),
        TraceMemberOrder::Log(_) => true,
    } by {
        if let TraceMemberOrder::Call(i) = node.ordering@[j] {
            lemma_deeper(nodes, node.children@[i as int] as int, verbose, less, deeper);
        }
    }
    let wide = member_traces(nodes, idx, verbose, more);
    let narrow = member_traces(nodes, idx, verbose, depth);
    assert forall|j: int| 0 <= j < node.ordering@.len() implies wide[j] == narrow[j] by {
        if let TraceMemberOrder::Call(i) = node.ordering@[j] {
            lemma_deeper(nodes, node.children@[i as int] as int, verbose, less, deeper);
        }
    }
    assert(wide =~= narrow);
}

/// Where the calls below `idx` end within `depth` levels but not within fewer,
/// there are at least `depth` calls on record.
proof fn lemma_levels_are_distinct(nodes: Seq<CallTraceNode>, idx: int, depth: nat) -> (calls: Set<
    int,
>)
    requires
        ends_within(nodes, idx, depth),
        !ends_within(nodes, idx, (depth - 1) as nat),
    ensures
        calls.finite(),
        calls.len() == depth,
        forall|n: int| #[trigger] calls.contains(n) ==> 0 <= n < nodes.len(),
        forall|n: int| #[trigger] calls.contains(n) ==> ends_within(nodes, n, depth),
    decreases depth,
{
    if depth == 1 {
        assert(Set::<int>::empty().insert(idx).len() == 1);
        Set::<int>::empty().insert(idx)
    } else {
        let node = nodes[idx];
        let less = (depth - 1) as nat;
        let least = (depth - 2) as nat;
        let j = choose|j: int|
            0 <= j < node.ordering@.len() && !(match #[trigger] node.ordering@[j] {
                TraceMemberOrder::Step(i) => i < node.trace.steps@.len(),
                TraceMemberOrder::Call(i) => i < node.children@.len() && ends_within(
                    nodes,
                    node.children@[i as int] as int,
                    least,
                ),
                TraceMemberOrder::Log(_) => true,
            });
        let child = match node.ordering@[j] {
            TraceMemberOrder::Call(i) => node.children@[i as int] as int,
            _ => idx,
        };
        let below = lemma_levels_are_distinct(nodes, child, less);
        assert(!below.contains(idx));
        assert forall|n: int| #[trigger] below.insert(idx).contains(n) implies ends_within(
            nodes,
            n,
            depth,
        ) by {
            if n != idx {
                lemma_deeper(nodes, n, false, less, depth);
            }
        }
        below.insert(idx)
    }
}

/// No call whose walk ends is refused: one that ends within any number of levels
/// ends within as many as there are calls, and has the same flat trace.
pub proof fn law_walkable_is_exact(
    arena: CallTraceArena,
    idx: int,
    verbose: bool,
    depth: nat,
)
    requires
        ends_within(arena.nodes@, idx, depth),
    ensures
        arena.walkable_from(idx),
        arena.trace_of(idx, verbose) == flat_trace(arena.nodes@, idx, verbose, depth),
{
    let nodes = arena.nodes@;
    lemma_least_depth(nodes, idx, depth);
    let least = choose|k: nat|
        #![trigger ends_within(nodes, idx, k)]
        k <= depth && ends_within(nodes, idx, k) && !ends_within(nodes, idx, (k - 1) as nat);
    let calls = lemma_levels_are_distinct(nodes, idx, least);
    vstd::set_lib::lemma_int_range(0, nodes.len() as int);
    assert(calls.subset_of(vstd::set_lib::set_int_range(0, nodes.len() as int)));
    vstd::set_lib::lemma_len_subset(calls, vstd::set_lib::set_int_range(0, nodes.len() as int));
    lemma_deeper(nodes, idx, verbose, least, nodes.len());
    lemma_deeper(nodes, idx, verbose, least, depth);
}

/// There is a least number of levels.
proof fn lemma_least_depth(nodes: Seq<CallTraceNode>, idx: int, depth: nat)
    requires
        ends_within(nodes, idx, depth),
    ensures
        exists|k: nat|
            #![trigger ends_within(nodes, idx, k)]
            k <= depth && ends_within(nodes, idx, k) && !ends_within(nodes, idx, (k - 1) as nat),
    decreases depth,
{
    if ends_within(nodes, idx, (depth - 1) as nat) {
        lemma_least_depth(nodes, idx, (depth - 1) as nat);
    }
}

/// How many calls are open after the entries `t`: those announced, less those
/// ended.
pub open spec fn open_calls(t: Seq<EntryModel>) -> int
    decreases t.len(),
{
    if t.len() == 0 {
        0
    } else {
        open_calls(t.drop_last()) + match t.last() {
            EntryModel::Message(_) => 1int,
            EntryModel::Step(_) => 0int,
            EntryModel::Result(_) => -1int,
        }
    }
}

/// Whether `t` ends every call that it announces, and no other.
pub open spec fn nested(t: Seq<EntryModel>) -> bool {
    &&& open_calls(t) == 0
    &&& forall|k: int| 0 <= k <= t.len() ==> #[trigger] open_calls(t.take(k)) >= 0
}

proof fn lemma_open_calls_add(a: Seq<EntryModel>, b: Seq<EntryModel>)
    ensures
        open_calls(a + b) == open_calls(a) + open_calls(b),
    decreases b.len(),
{
    if b.len() == 0 {
        assert(a + b =~= a);
    } else {
        lemma_open_calls_add(a, b.drop_last());
        assert((a + b).drop_last() =~= a + b.drop_last());
    }
}

proof fn lemma_nested_add(a: Seq<EntryModel>, b: Seq<EntryModel>)
    requires
        nested(a),
        nested(b),
    ensures
        nested(a + b),
{
    lemma_open_calls_add(a, b);
    assert forall|k: int| 0 <= k <= (a + b).len() implies #[trigger] open_calls((a + b).take(k))
        >= 0 by {
        if k <= a.len() {
            assert((a + b).take(k) =~= a.take(k));
        } else {
            assert((a + b).take(k) =~= a + b.take(k - a.len()));
            lemma_open_calls_add(a, b.take(k - a.len()));
        }
    }
}

proof fn lemma_nested_flatten(parts: Seq<Seq<EntryModel>>)
    requires
        forall|j: int| 0 <= j < parts.len() ==> nested(#[trigger] parts[j]),
    ensures
        nested(parts.flatten()),
    decreases parts.len(),
{
    if parts.len() == 0 {
        assert(parts.flatten() =~= Seq::<EntryModel>::empty());
        assert forall|k: int| 0 <= k <= 0 implies #[trigger] open_calls(
            Seq::<EntryModel>::empty().take(k),
        ) >= 0 by {
            assert(Seq::<EntryModel>::empty().take(k) =~= Seq::<EntryModel>::empty());
        }
    } else {
        let rest = parts.drop_last();
        assert forall|j: int| 0 <= j < rest.len() implies nested(#[trigger] rest[j]) by {
            assert(nested(parts[j]));
        }
        lemma_nested_flatten(rest);
        assert(nested(parts[parts.len() - 1]));
        lemma_nested_add(rest.flatten(), parts.last());
        rest.lemma_flatten_push(parts.last());
        assert(rest.push(parts.last()) =~= parts);
    }
}

/// The flat trace of one call is nested, and that call stays open until its end.
proof fn lemma_flat_trace_nested(nodes: Seq<CallTraceNode>, idx: int, verbose: bool, depth: nat)
    requires
        ends_within(nodes, idx, depth),
    ensures
        nested(flat_trace(nodes, idx, verbose, depth)),
        forall|k: int|
            0 < k < flat_trace(nodes, idx, verbose, depth).len() ==> #[trigger] open_calls(
                flat_trace(nodes, idx, verbose, depth).take(k),
            ) >= 1,
    decreases depth,
{
    reveal_with_fuel(open_calls, 2);
    let node = nodes[idx];
    let members = member_traces(nodes, idx, verbose, depth);
    assert forall|j: int| 0 <= j < members.len() implies nested(#[trigger] members[j]) by {
        match node.ordering@[j] {
            TraceMemberOrder::Call(i) => {
                lemma_flat_trace_nested(
                    nodes,
                    node.children@[i as int] as int,
                    verbose,
                    (depth - 1) as nat,
                );
            },
            _ => {
                if members[j].len() > 0 {
                    assert(members[j].drop_last() =~= Seq::<EntryModel>::empty());
                }
                assert forall|k: int| 0 <= k <= members[j].len() implies #[trigger] open_calls(
                    members[j].take(k),
                ) >= 0 by {
                    if k == 0 {
                        assert(members[j].take(k) =~= Seq::<EntryModel>::empty());
                    } else {
                        assert(members[j].take(k) =~= members[j]);
                    }
                }
            },
        }
    }
    lemma_nested_flatten(members);
    let inner = members.flatten();
    let message = seq![EntryModel::Message(message_of(node.trace))];
    let result = seq![EntryModel::Result(result_of(node.trace))];
    let t = flat_trace(nodes, idx, verbose, depth);
    assert(message.drop_last() =~= Seq::<EntryModel>::empty());
    assert(result.drop_last() =~= Seq::<EntryModel>::empty());
    assert(open_calls(message) == 1);
    assert(open_calls(result) == -1);
    lemma_open_calls_add(message, inner);
    lemma_open_calls_add(message + inner, result);
    assert forall|k: int| 0 < k < t.len() implies #[trigger] open_calls(t.take(k)) >= 1 by {
        assert(t.take(k) =~= message + inner.take(k - 1));
        lemma_open_calls_add(message, inner.take(k - 1));
        assert(open_calls(inner.take(k - 1)) >= 0);
    }
    assert(t.take(0) =~= Seq::<EntryModel>::empty());
    assert(t.take(t.len() as int) =~= t);
}

/// A flat trace brackets its calls: it begins with the message of the call and
/// ends with its result. In between that call is open, every result ends a call
/// that was announced before it, and at the end none is open.
pub proof fn law_trace_is_nested(arena: CallTraceArena, idx: int, verbose: bool)
    requires
        arena.walkable_from(idx),
    ensures
        ({
            let t = arena.trace_of(idx, verbose);
            &&& t.len() >= 2
            &&& t.first() == EntryModel::Message(message_of(arena.nodes@[idx].trace))
            &&& t.last() == EntryModel::Result(result_of(arena.nodes@[idx].trace))
            &&& nested(t)
            &&& forall|k: int| 0 < k < t.len() ==> #[trigger] open_calls(t.take(k)) >= 1
        }),
{
    lemma_flat_trace_nested(arena.nodes@, idx, verbose, arena.nodes@.len());
}

/// An entry without memory.
pub open spec fn terse(entry: EntryModel) -> EntryModel {
    match entry {
        EntryModel::Step(s) => EntryModel::Step(StepModel { memory: None, ..s }),
        _ => entry,
    }
}

proof fn lemma_terse_flatten(parts: Seq<Seq<EntryModel>>, terses: Seq<Seq<EntryModel>>)
    requires
        parts.len() == terses.len(),
        forall|j: int|
            0 <= j < parts.len() ==> #[trigger] terses[j] == parts[j].map_values(
                |e: EntryModel| terse(e),
            ),
    ensures
        terses.flatten() == parts.flatten().map_values(|e: EntryModel| terse(e)),
    decreases parts.len(),
{
    let f = |e: EntryModel| terse(e);
    if parts.len() == 0 {
        assert(terses.flatten() =~= parts.flatten().map_values(f));
    } else {
        lemma_terse_flatten(parts.drop_last(), terses.drop_last());
        parts.drop_last().lemma_flatten_push(parts.last());
        terses.drop_last().lemma_flatten_push(terses.last());
        assert(parts.drop_last().push(parts.last()) =~= parts);
        assert(terses.drop_last().push(terses.last()) =~= terses);
        assert(terses.last() == parts.last().map_values(f));
        assert((parts.drop_last().flatten() + parts.last()).map_values(f)
            =~= parts.drop_last().flatten().map_values(f) + parts.last().map_values(f));
    }
}

proof fn lemma_verbose_shows_more(nodes: Seq<CallTraceNode>, idx: int, depth: nat)
    requires
        ends_within(nodes, idx, depth),
    ensures
        flat_trace(nodes, idx, false, depth) == flat_trace(nodes, idx, true, depth).map_values(
            |e: EntryModel| terse(e),
        ),
    decreases depth,
{
    let f = |e: EntryModel| terse(e);
    let node = nodes[idx];
    let parts = member_traces(nodes, idx, true, depth);
    let terses = member_traces(nodes, idx, false, depth);
    assert forall|j: int| 0 <= j < parts.len() implies #[trigger] terses[j] == parts[j].map_values(
        f,
    ) by {
        match node.ordering@[j] {
            TraceMemberOrder::Call(i) => {
                lemma_verbose_shows_more(
                    nodes,
                    node.children@[i as int] as int,
                    (depth - 1) as nat,
                );
            },
            _ => {
                assert(terses[j] =~= parts[j].map_values(f));
            },
        }
    }
    lemma_terse_flatten(parts, terses);
    assert(flat_trace(nodes, idx, false, depth) =~= flat_trace(nodes, idx, true, depth).map_values(
        f,
    ));
}

/// Verbose or not, a trace has the same entries: a terse trace is the verbose
/// one without the memory.
pub proof fn law_verbosity_affects_memory_only(arena: CallTraceArena, idx: int)
    requires
        arena.walkable_from(idx),
    ensures
        arena.trace_of(idx, false) == arena.trace_of(idx, true).map_values(
            |e: EntryModel| terse(e),
        ),
{
    lemma_verbose_shows_more(arena.nodes@, idx, arena.nodes@.len());
}

} // verus!
