//! The contract virtual machine: its opcodes, their byte encoding, and the
//! interpreter that runs a program against a read-only view of storage.

use crate::digest;
use crate::storage::Storage;
use crate::word;
use crate::word::Word;
use vstd::prelude::*;

verus! {

/// Capacity of the value stack.
pub const STACK_SIZE: usize = 32;

/// Capacity of the locals (return) stack.
pub const RETURN_STACK_SIZE: usize = 32;

#[derive(Clone, Copy, PartialEq, Eq, Debug, Structural)]
pub enum Opcode {
    Terminate,
    Add,
    Sub,
    Mul,
    Div,
    Eqi,
    Lt,
    Gt,
    Geq,
    Leq,
    Iszero,
    Store,
    Get,
    Push(u8),
    Swap(u8),
    MoveToReturn(u8),
    CopyToReturn(u8),
    CopyToMain(u8),
    ClearReturn,
    Jumpif,
    Jumpifnot,
    Jump,
    Dup,
}

impl Opcode {
    /// Whether the operand is in its family's range: counts and depths run
    /// from 1 to 32, locals indices from 0 to 32.
    pub open spec fn valid(self) -> bool {
        match self {
            Opcode::Push(n) => 1 <= n <= 32,
            Opcode::Swap(n) => 1 <= n <= 32,
            Opcode::MoveToReturn(n) => 1 <= n <= 32,
            Opcode::CopyToReturn(n) => 1 <= n <= 32,
            Opcode::CopyToMain(n) => n <= 32,
            _ => true,
        }
    }

    /// The byte that stands for the opcode.
    pub open spec fn encoding(self) -> int {
        match self {
            Opcode::Terminate => 0x00,
            Opcode::Add => 0x01,
            Opcode::Sub => 0x02,
            Opcode::Mul => 0x03,
            Opcode::Div => 0x04,
            Opcode::Store => 0x05,
            Opcode::Get => 0x06,
            Opcode::Push(n) => 0x07 + n - 1,
            Opcode::Swap(n) => 0x27 + n - 1,
            Opcode::Jumpif => 0x48,
            Opcode::Jump => 0x49,
            Opcode::CopyToMain(n) => 0x4a + n,
            Opcode::Dup => 0x6b,
            Opcode::ClearReturn => 0x6c,
            Opcode::MoveToReturn(n) => 0x6d + n - 1,
            Opcode::CopyToReturn(n) => 0x8e + n - 1,
            Opcode::Eqi => 0xaf,
            Opcode::Lt => 0xb0,
            Opcode::Gt => 0xb1,
            Opcode::Geq => 0xb2,
            Opcode::Leq => 0xb3,
            Opcode::Jumpifnot => 0xb4,
            Opcode::Iszero => 0xb5,
        }
    }

    pub fn from_u8(opcode: u8) -> (r: Option<Opcode>)
        ensures
            r == decode(opcode),
    {
        match opcode {
            0x00 => Some(Opcode::Terminate),
            0x01 => Some(Opcode::Add),
            0x02 => Some(Opcode::Sub),
            0x03 => Some(Opcode::Mul),
            0x04 => Some(Opcode::Div),
            0x05 => Some(Opcode::Store),
            0x06 => Some(Opcode::Get),
            0x07..=0x26 => Some(Opcode::Push(opcode - 0x06)),
            0x27..=0x46 => Some(Opcode::Swap(opcode - 0x26)),
            0x48 => Some(Opcode::Jumpif),
            0x49 => Some(Opcode::Jump),
            0x4a..=0x6a => Some(Opcode::CopyToMain(opcode - 0x4a)),
            0x6b => Some(Opcode::Dup),
            0x6c => Some(Opcode::ClearReturn),
            0x6d..=0x8c => Some(Opcode::MoveToReturn(opcode - 0x6c)),
            0x8e..=0xad => Some(Opcode::CopyToReturn(opcode - 0x8d)),
            0xaf => Some(Opcode::Eqi),
            0xb0 => Some(Opcode::Lt),
            0xb1 => Some(Opcode::Gt),
            0xb2 => Some(Opcode::Geq),
            0xb3 => Some(Opcode::Leq),
            0xb4 => Some(Opcode::Jumpifnot),
            0xb5 => Some(Opcode::Iszero),
            _ => None,
        }
    }

    pub fn to_u8(&self) -> (r: u8)
        requires
            self.valid(),
        ensures
            r == self.encoding(),
    {
        match self {
            Opcode::Terminate => 0x00,
            Opcode::Add => 0x01,
            Opcode::Sub => 0x02,
            Opcode::Mul => 0x03,
            Opcode::Div => 0x04,
            Opcode::Eqi => 0xaf,
            Opcode::Lt => 0xb0,
            Opcode::Gt => 0xb1,
            Opcode::Geq => 0xb2,
            Opcode::Leq => 0xb3,
            Opcode::Iszero => 0xb5,
            Opcode::Store => 0x05,
            Opcode::Get => 0x06,
            Opcode::Push(n) => 0x07 + *n - 1,
            Opcode::MoveToReturn(n) => 0x6d + *n - 1,
            Opcode::CopyToReturn(n) => 0x8e + *n - 1,
            Opcode::CopyToMain(n) => 0x4a + *n,
            Opcode::Swap(n) => 0x27 + *n - 1,
            Opcode::Jumpif => 0x48,
            Opcode::Jumpifnot => 0xb4,
            Opcode::Jump => 0x49,
            Opcode::Dup => 0x6b,
            Opcode::ClearReturn => 0x6c,
        }
    }
}

/// The opcode a byte stands for, if any.
pub open spec fn decode(b: u8) -> Option<Opcode> {
    if b <= 0x06 {
        Some(
            if b == 0 {
                Opcode::Terminate
            } else if b == 1 {
                Opcode::Add
            } else if b == 2 {
                Opcode::Sub
            } else if b == 3 {
                Opcode::Mul
            } else if b == 4 {
                Opcode::Div
            } else if b == 5 {
                Opcode::Store
            } else {
                Opcode::Get
            },
        )
    } else if b <= 0x26 {
        Some(Opcode::Push((b - 0x06) as u8))
    } else if b <= 0x46 {
        Some(Opcode::Swap((b - 0x26) as u8))
    } else if b == 0x48 {
        Some(Opcode::Jumpif)
    } else if b == 0x49 {
        Some(Opcode::Jump)
    } else if 0x4a <= b <= 0x6a {
        Some(Opcode::CopyToMain((b - 0x4a) as u8))
    } else if b == 0x6b {
        Some(Opcode::Dup)
    } else if b == 0x6c {
        Some(Opcode::ClearReturn)
    } else if 0x6d <= b <= 0x8c {
        Some(Opcode::MoveToReturn((b - 0x6c) as u8))
    } else if 0x8e <= b <= 0xad {
        Some(Opcode::CopyToReturn((b - 0x8d) as u8))
    } else if b == 0xaf {
        Some(Opcode::Eqi)
    } else if b == 0xb0 {
        Some(Opcode::Lt)
    } else if b == 0xb1 {
        Some(Opcode::Gt)
    } else if b == 0xb2 {
        Some(Opcode::Geq)
    } else if b == 0xb3 {
        Some(Opcode::Leq)
    } else if b == 0xb4 {
        Some(Opcode::Jumpifnot)
    } else if b == 0xb5 {
        Some(Opcode::Iszero)
    } else {
        None
    }
}

/// Encoding then decoding gives back every valid opcode.
pub proof fn lemma_decode_encoding(op: Opcode)
    requires
        op.valid(),
    ensures
        0 <= op.encoding() < 256,
        decode(op.encoding() as u8) == Some(op),
{
}

/// Every byte that decodes stands for a valid opcode whose encoding is that byte.
pub proof fn lemma_encoding_decode(b: u8)
    ensures
        decode(b) matches Some(op) ==> op.valid() && op.encoding() == b,
{
}

#[derive(Clone, Copy, PartialEq, Eq, Debug, Structural)]
pub enum VmError {
    /// The fetched byte is no opcode, or there was nothing left to fetch.
    ShouldStop,
    StackUnderflow,
    StackOverflow,
    /// A push wanted this many bytes more than the code holds.
    ExpectedValue(usize),
    /// A jump aimed at this target in code of this length.
    InvalidJump(Word, usize),
}

/// The machine's state between two instructions.
pub struct VmState {
    pub stack: Seq<Word>,
    pub locals: Seq<Word>,
    pub pc: nat,
    pub terminated: bool,
    pub stores: Seq<(Word, Word)>,
}

/// The machine stops once it has terminated or run past the end of the code.
pub open spec fn halted(code: Seq<u8>, s: VmState) -> bool {
    s.terminated || s.pc >= code.len()
}

/// Both stacks within capacity and the counter within the code.
pub open spec fn state_ok(code: Seq<u8>, s: VmState) -> bool {
    s.stack.len() <= STACK_SIZE && s.locals.len() <= RETURN_STACK_SIZE && s.pc <= code.len()
}

pub open spec fn zero_word() -> Word {
    Word { l0: 0, l1: 0, l2: 0, l3: 0 }
}

/// 1 for true, 0 for false.
pub open spec fn bool_word(b: bool) -> Word {
    Word { l0: if b { 1 } else { 0 }, l1: 0, l2: 0, l3: 0 }
}

/// The map index of contract storage slots, as eight little-endian bytes.
pub open spec fn map_index_bytes() -> Seq<u8> {
    seq![1u8, 0u8, 0u8, 0u8, 0u8, 0u8, 0u8, 0u8]
}

/// The storage key of the slot `key` of the contract with identity `contract_hash`.
pub open spec fn slot_key(key: Word, contract_hash: Seq<u8>) -> Seq<u8> {
    digest::sha3_256_of(map_index_bytes() + word::le_bytes(key.val(), 32) + contract_hash)
}

/// The word a slot holds: its first 32 bytes read little-endian, or zero when absent.
pub open spec fn slot_value(kv: Map<Seq<u8>, Seq<u8>>, k: Seq<u8>) -> Word {
    if kv.contains_key(k) {
        let v = kv[k];
        word::word_of(word::le_value(if v.len() <= 32 { v } else { v.subrange(0, 32) }))
    } else {
        zero_word()
    }
}

/// Pop the right operand, then the left one, and push `f(lhs, rhs)`.
pub open spec fn binary(s: VmState, f: spec_fn(Word, Word) -> Word) -> Result<VmState, VmError> {
    let n = s.stack.len();
    if n < 2 {
        Err(VmError::StackUnderflow)
    } else {
        Ok(
            VmState {
                stack: s.stack.subrange(0, n - 2).push(f(s.stack[n - 2], s.stack[n - 1])),
                ..s
            },
        )
    }
}

/// Advance the counter by `offset`, which may reach the end of the code but not pass it.
pub open spec fn jump_to(code: Seq<u8>, s: VmState, offset: Word) -> Result<VmState, VmError> {
    if offset.val() <= code.len() - s.pc {
        Ok(VmState { pc: (s.pc + offset.val()) as nat, ..s })
    } else {
        Err(
            VmError::InvalidJump(
                word::word_of((offset.val() + s.pc) % word::word_modulus()),
                code.len() as usize,
            ),
        )
    }
}

/// Push onto the value stack, which holds at most `STACK_SIZE` words.
pub open spec fn push(s: VmState, w: Word) -> Result<VmState, VmError> {
    if s.stack.len() >= STACK_SIZE {
        Err(VmError::StackOverflow)
    } else {
        Ok(VmState { stack: s.stack.push(w), ..s })
    }
}

/// What one instruction does: `s` is the state before it, the counter on its opcode.
pub open spec fn step(
    code: Seq<u8>,
    contract_hash: Seq<u8>,
    kv: Map<Seq<u8>, Seq<u8>>,
    s: VmState,
) -> Result<VmState, VmError> {
    if halted(code, s) {
        Err(VmError::ShouldStop)
    } else {
        let t = VmState { pc: (s.pc + 1) as nat, ..s };
        let n = t.stack.len();
        match decode(code[s.pc as int]) {
            None => Err(VmError::ShouldStop),
            Some(op) => match op {
                Opcode::Terminate => Ok(VmState { terminated: true, ..t }),
                Opcode::Add => binary(
                    t,
                    |a: Word, b: Word| word::word_of((a.val() + b.val()) % word::word_modulus()),
                ),
                Opcode::Sub => binary(
                    t,
                    |a: Word, b: Word|
                        word::word_of(
                            ((a.val() - b.val()) % (word::word_modulus() as int)) as nat,
                        ),
                ),
                Opcode::Mul => binary(
                    t,
                    |a: Word, b: Word| word::word_of((a.val() * b.val()) % word::word_modulus()),
                ),
                Opcode::Div => binary(
                    t,
                    |a: Word, b: Word|
                        if b.val() == 0 {
                            zero_word()
                        } else {
                            word::word_of(a.val() / b.val())
                        },
                ),
                Opcode::Eqi => binary(t, |a: Word, b: Word| bool_word(a.val() == b.val())),
                Opcode::Lt => binary(t, |a: Word, b: Word| bool_word(a.val() < b.val())),
                Opcode::Gt => binary(t, |a: Word, b: Word| bool_word(a.val() > b.val())),
                Opcode::Geq => binary(t, |a: Word, b: Word| bool_word(a.val() >= b.val())),
                Opcode::Leq => binary(t, |a: Word, b: Word| bool_word(a.val() <= b.val())),
                Opcode::Iszero => if n < 1 {
                    Err(VmError::StackUnderflow)
                } else {
                    Ok(
                        VmState {
                            stack: t.stack.drop_last().push(bool_word(t.stack[n - 1].val() == 0)),
                            ..t
                        },
                    )
                },
                Opcode::Store => if n < 2 {
                    Err(VmError::StackUnderflow)
                } else {
                    Ok(
                        VmState {
                            stack: t.stack.subrange(0, n - 2),
                            stores: t.stores.push((t.stack[n - 2], t.stack[n - 1])),
                            ..t
                        },
                    )
                },
                Opcode::Get => if n < 1 {
                    Err(VmError::StackUnderflow)
                } else {
                    Ok(
                        VmState {
                            stack: t.stack.drop_last().push(
                                slot_value(kv, slot_key(t.stack[n - 1], contract_hash)),
                            ),
                            ..t
                        },
                    )
                },
                Opcode::Push(k) => if k > code.len() - t.pc {
                    Err(VmError::ExpectedValue((k - (code.len() - t.pc)) as usize))
                } else {
                    push(
                        VmState { pc: (t.pc + k) as nat, ..t },
                        word::word_of(word::le_value(code.subrange(t.pc as int, t.pc + k))),
                    )
                },
                Opcode::Swap(k) => if n == 0 || k > n {
                    Err(VmError::StackUnderflow)
                } else {
                    Ok(
                        VmState {
                            stack: t.stack.update(n - 1, t.stack[k - 1]).update(
                                k - 1,
                                t.stack[n - 1],
                            ),
                            ..t
                        },
                    )
                },
                Opcode::MoveToReturn(k) => if k > n {
                    Err(VmError::StackUnderflow)
                } else if t.locals.len() + k > RETURN_STACK_SIZE {
                    Err(VmError::StackOverflow)
                } else {
                    Ok(
                        VmState {
                            stack: t.stack.subrange(0, n - k),
                            locals: t.locals + t.stack.subrange(n - k, n as int),
                            ..t
                        },
                    )
                },
                Opcode::CopyToReturn(k) => if k > n {
                    Err(VmError::StackUnderflow)
                } else if t.locals.len() + k > RETURN_STACK_SIZE {
                    Err(VmError::StackOverflow)
                } else {
                    Ok(VmState { locals: t.locals + t.stack.subrange(n - k, n as int), ..t })
                },
                Opcode::CopyToMain(k) => if k >= RETURN_STACK_SIZE {
                    Err(VmError::StackUnderflow)
                } else {
                    push(t, if k < t.locals.len() { t.locals[k as int] } else { zero_word() })
                },
                Opcode::ClearReturn => Ok(VmState { locals: Seq::empty(), ..t }),
                Opcode::Jump => if n < 1 {
                    Err(VmError::StackUnderflow)
                } else {
                    jump_to(code, VmState { stack: t.stack.drop_last(), ..t }, t.stack[n - 1])
                },
                Opcode::Jumpif => if n < 2 {
                    Err(VmError::StackUnderflow)
                } else {
                    let u = VmState { stack: t.stack.subrange(0, n - 2), ..t };
                    if t.stack[n - 2].val() == 0 {
                        jump_to(code, u, t.stack[n - 1])
                    } else {
                        Ok(u)
                    }
                },
                Opcode::Jumpifnot => if n < 2 {
                    Err(VmError::StackUnderflow)
                } else {
                    let u = VmState { stack: t.stack.subrange(0, n - 2), ..t };
                    if t.stack[n - 2].val() != 0 {
                        jump_to(code, u, t.stack[n - 1])
                    } else {
                        Ok(u)
                    }
                },
                Opcode::Dup => if n < 1 {
                    Err(VmError::StackUnderflow)
                } else {
                    push(t, t.stack[n - 1])
                },
            },
        }
    }
}

/// How many operands an instruction pops before it can fail.
pub open spec fn operand_count(op: Opcode) -> nat {
    match op {
        Opcode::Add | Opcode::Sub | Opcode::Mul | Opcode::Div | Opcode::Eqi | Opcode::Lt
        | Opcode::Gt | Opcode::Geq | Opcode::Leq | Opcode::Store | Opcode::Jumpif
        | Opcode::Jumpifnot => 2,
        Opcode::Get | Opcode::Iszero | Opcode::Jump => 1,
        _ => 0,
    }
}

/// The state a failing instruction leaves behind: its opcode fetched, and
/// the operands it pops (as many as there were) gone; nothing else changed.
pub open spec fn failed(code: Seq<u8>, s: VmState) -> VmState {
    if halted(code, s) {
        s
    } else {
        let k = match decode(code[s.pc as int]) {
            Some(op) => operand_count(op),
            None => 0,
        };
        let n = s.stack.len();
        VmState {
            stack: if k == 0 {
                s.stack
            } else if n < k {
                Seq::empty()
            } else {
                s.stack.subrange(0, n - k)
            },
            pc: s.pc + 1,
            ..s
        }
    }
}

/// Every instruction that succeeds moves the counter forward, keeps it within
/// the code, and keeps both stacks within capacity.
pub proof fn lemma_step_progress(
    code: Seq<u8>,
    contract_hash: Seq<u8>,
    kv: Map<Seq<u8>, Seq<u8>>,
    s: VmState,
)
    requires
        state_ok(code, s),
        !halted(code, s),
    ensures
        step(code, contract_hash, kv, s) matches Ok(t) ==> t.pc > s.pc && state_ok(code, t),
{
}

/// The machine run from `s` until it halts or fails.
pub open spec fn run(
    code: Seq<u8>,
    contract_hash: Seq<u8>,
    kv: Map<Seq<u8>, Seq<u8>>,
    s: VmState,
) -> Result<VmState, VmError>
    decreases code.len() - s.pc,
{
    if halted(code, s) {
        Ok(s)
    } else {
        match step(code, contract_hash, kv, s) {
            Err(e) => Err(e),
            Ok(t) => if s.pc < t.pc <= code.len() {
                run(code, contract_hash, kv, t)
            } else {
                Ok(t)
            },
        }
    }
}

/// The state a program starts in: its arguments on the locals stack.
pub open spec fn initial(args: Seq<Word>) -> Result<VmState, VmError> {
    if args.len() > RETURN_STACK_SIZE {
        Err(VmError::StackOverflow)
    } else {
        Ok(
            VmState {
                stack: Seq::empty(),
                locals: args,
                pc: 0,
                terminated: false,
                stores: Seq::empty(),
            },
        )
    }
}

/// What running `code` with `args` gives.
pub open spec fn outcome(
    code: Seq<u8>,
    contract_hash: Seq<u8>,
    kv: Map<Seq<u8>, Seq<u8>>,
    args: Seq<Word>,
) -> Result<VmState, VmError> {
    match initial(args) {
        Err(e) => Err(e),
        Ok(s) => run(code, contract_hash, kv, s),
    }
}

/// The store after the pending writes are applied in order: each word is
/// written as 32 little-endian bytes under its slot key.
pub open spec fn committed(
    kv: Map<Seq<u8>, Seq<u8>>,
    stores: Seq<(Word, Word)>,
    contract_hash: Seq<u8>,
) -> Map<Seq<u8>, Seq<u8>>
    decreases stores.len(),
{
    if stores.len() == 0 {
        kv
    } else {
        let last = stores.last();
        committed(kv, stores.drop_last(), contract_hash).insert(
            slot_key(last.0, contract_hash),
            word::le_bytes(last.1.val(), 32),
        )
    }
}

/// Committing the writes of a run of the contract with identity
/// `contract_hash` leaves every key that is not one of that contract's slot
/// keys as it was: present or absent, and with the same value.
pub proof fn lemma_commit_isolation(
    kv: Map<Seq<u8>, Seq<u8>>,
    stores: Seq<(Word, Word)>,
    contract_hash: Seq<u8>,
    k: Seq<u8>,
)
    requires
        forall|w: Word| slot_key(w, contract_hash) != k,
    ensures
        committed(kv, stores, contract_hash).contains_key(k) == kv.contains_key(k),
        kv.contains_key(k) ==> committed(kv, stores, contract_hash)[k] == kv[k],
    decreases stores.len(),
{
    if stores.len() > 0 {
        lemma_commit_isolation(kv, stores.drop_last(), contract_hash, k);
        assert(slot_key(stores.last().0, contract_hash) != k);
    }
}

/// A run reads storage only through its own contract's slots: two stores
/// that agree on every slot of the contract give the same run.
pub proof fn lemma_run_reads_own_slots(
    code: Seq<u8>,
    contract_hash: Seq<u8>,
    kv1: Map<Seq<u8>, Seq<u8>>,
    kv2: Map<Seq<u8>, Seq<u8>>,
    s: VmState,
)
    requires
        forall|w: Word|
            slot_value(kv1, #[trigger] slot_key(w, contract_hash)) == slot_value(
                kv2,
                slot_key(w, contract_hash),
            ),
    ensures
        run(code, contract_hash, kv1, s) == run(code, contract_hash, kv2, s),
    decreases code.len() - s.pc,
{
    if !halted(code, s) {
        assert(step(code, contract_hash, kv1, s) == step(code, contract_hash, kv2, s));
        match step(code, contract_hash, kv1, s) {
            Ok(t) => {
                if s.pc < t.pc <= code.len() {
                    lemma_run_reads_own_slots(code, contract_hash, kv1, kv2, t);
                }
            },
            Err(_) => {},
        }
    }
}

#[derive(Debug)]
pub struct Vm {
    stack: Vec<Word>,
    locals: Vec<Word>,
    code: Vec<u8>,
    pc: usize,
    terminated: bool,
    stores: Vec<(Word, Word)>,
    contract_hash: [u8; 32],
}

impl Vm {
    pub closed spec fn state(&self) -> VmState {
        VmState {
            stack: self.stack@,
            locals: self.locals@,
            pc: self.pc as nat,
            terminated: self.terminated,
            stores: self.stores@,
        }
    }

    pub closed spec fn code(&self) -> Seq<u8> {
        self.code@
    }

    pub closed spec fn contract_hash(&self) -> Seq<u8> {
        self.contract_hash@
    }

    pub open spec fn wf(&self) -> bool {
        state_ok(self.code(), self.state())
    }

    /// A machine about to run `code` with `args` on its locals stack.
    pub fn with_arguments(contract_hash: [u8; 32], code: Vec<u8>, args: Vec<Word>) -> (r: Result<
        Vm,
        VmError,
    >)
        ensures
            match initial(args@) {
                Err(e) => r == Err::<Vm, VmError>(e),
                Ok(s) => r matches Ok(vm) && vm.state() == s && vm.code() == code@
                    && vm.contract_hash() == contract_hash@ && vm.wf(),
            },
    {
        if args.len() > RETURN_STACK_SIZE {
            return Err(VmError::StackOverflow);
        }
        Ok(
            Vm {
                stack: Vec::new(),
                locals: args,
                code,
                pc: 0,
                terminated: false,
                stores: Vec::new(),
                contract_hash,
            },
        )
    }

    pub fn should_stop(&self) -> (r: bool)
        ensures
            r == halted(self.code(), self.state()),
    {
        self.terminated || self.pc >= self.code.len()
    }

    /// The value stack, bottom first.
    pub fn stack(&self) -> (r: &Vec<Word>)
        ensures
            r@ == self.state().stack,
    {
        &self.stack
    }

    /// The locals stack, bottom first.
    pub fn locals(&self) -> (r: &Vec<Word>)
        ensures
            r@ == self.state().locals,
    {
        &self.locals
    }

    /// The writes collected so far, as (slot, value) in the order made.
    pub fn stores(&self) -> (r: &Vec<(Word, Word)>)
        ensures
            r@ == self.state().stores,
    {
        &self.stores
    }

    pub fn terminated(&self) -> (r: bool)
        ensures
            r == self.state().terminated,
    {
        self.terminated
    }

    fn pop(&mut self) -> (r: Result<Word, VmError>)
        ensures
            final(self).code() == old(self).code(),
            final(self).contract_hash() == old(self).contract_hash(),
            old(self).state().stack.len() == 0 ==> r == Err::<Word, VmError>(
                VmError::StackUnderflow,
            ) && final(self).state() == old(self).state() && final(self).state() == (VmState {
                stack: Seq::empty(),
                ..old(self).state()
            }),
            old(self).state().stack.len() > 0 ==> r == Ok::<Word, VmError>(
                old(self).state().stack.last(),
            ) && final(self).state() == (VmState {
                stack: old(self).state().stack.drop_last(),
                ..old(self).state()
            }),
    {
        match self.stack.pop() {
            Some(w) => Ok(w),
            None => {
                assert(self.stack@ =~= Seq::<Word>::empty());
                Err(VmError::StackUnderflow)
            },
        }
    }

    fn push(&mut self, w: Word) -> (r: Result<(), VmError>)
        ensures
            final(self).code() == old(self).code(),
            final(self).contract_hash() == old(self).contract_hash(),
            match push(old(self).state(), w) {
                Err(e) => r == Err::<(), VmError>(e) && final(self).state() == old(self).state(),
                Ok(t) => r is Ok && final(self).state() == t,
            },
    {
        if self.stack.len() >= STACK_SIZE {
            Err(VmError::StackOverflow)
        } else {
            self.stack.push(w);
            Ok(())
        }
    }

    fn pop2(&mut self) -> (r: Result<(Word, Word), VmError>)
        ensures
            final(self).code() == old(self).code(),
            final(self).contract_hash() == old(self).contract_hash(),
            old(self).state().stack.len() < 2 ==> r == Err::<(Word, Word), VmError>(
                VmError::StackUnderflow,
            ) && final(self).state() == (VmState {
                stack: Seq::empty(),
                ..old(self).state()
            }),
            old(self).state().stack.len() >= 2 ==> {
                let st = old(self).state().stack;
                &&& r == Ok::<(Word, Word), VmError>((st[st.len() - 2], st[st.len() - 1]))
                &&& final(self).state() == (VmState {
                    stack: st.subrange(0, st.len() - 2),
                    ..old(self).state()
                })
            },
    {
        let rhs = match self.pop() {
            Ok(w) => w,
            Err(e) => {
                return Err(e);
            },
        };
        let lhs = match self.pop() {
            Ok(w) => w,
            Err(e) => {
                assert(self.stack@ =~= Seq::<Word>::empty());
                return Err(e);
            },
        };
        assert(self.stack@ =~= old(self).stack@.subrange(0, old(self).stack@.len() - 2));
        Ok((lhs, rhs))
    }

    /// The storage key of slot `key` of the running contract.
    fn slot_key_of(&self, key: Word) -> (r: [u8; 32])
        ensures
            r@ == slot_key(key, self.contract_hash()),
    {
        let mut data: Vec<u8> = Vec::new();
        data.push(1u8);
        data.push(0u8);
        data.push(0u8);
        data.push(0u8);
        data.push(0u8);
        data.push(0u8);
        data.push(0u8);
        data.push(0u8);
        assert(data@ =~= map_index_bytes());
        let key_bytes = word::to_le_array(key);
        digest::push_all(&mut data, &key_bytes);
        digest::push_all(&mut data, &self.contract_hash);
        digest::sha3_256(data.as_slice())
    }

    /// Advance the counter by a popped offset, if that stays within the code.
    fn jump(&mut self, offset: Word) -> (r: Result<(), VmError>)
        requires
            old(self).wf(),
        ensures
            final(self).code() == old(self).code(),
            final(self).contract_hash() == old(self).contract_hash(),
            match jump_to(old(self).code(), old(self).state(), offset) {
                Err(e) => r == Err::<(), VmError>(e) && final(self).state() == old(self).state(),
                Ok(t) => r is Ok && final(self).state() == t,
            },
    {
        let remaining = self.code.len() - self.pc;
        if word::less_than(Word::from_u64(remaining as u64), offset) {
            let target = word::wrapping_add(offset, Word::from_u64(self.pc as u64));
            Err(VmError::InvalidJump(target, self.code.len()))
        } else {
            proof {
                word::lemma_val_bounds(offset);
            }
            let k = offset.l0 as usize;
            self.pc = self.pc + k;
            Ok(())
        }
    }

    /// Fetches and carries out one instruction; storage is only read.
    pub fn advance<S: Storage>(&mut self, storage: &S) -> (r: Result<(), VmError>)
        requires
            old(self).wf(),
            storage.inv(),
        ensures
            final(self).code() == old(self).code(),
            final(self).contract_hash() == old(self).contract_hash(),
            match step(old(self).code(), old(self).contract_hash(), storage.kv(), old(self).state()) {
                Ok(t) => r is Ok && final(self).state() == t,
                Err(e) => r == Err::<(), VmError>(e),
            },
            r is Ok ==> final(self).wf(),
            r is Err ==> final(self).state() == failed(old(self).code(), old(self).state()),
    {
        proof {
            if !halted(self.code(), self.state()) {
                lemma_step_progress(self.code(), self.contract_hash(), storage.kv(), self.state());
            }
        }
        if self.terminated || self.pc >= self.code.len() {
            return Err(VmError::ShouldStop);
        }
        let byte = self.code[self.pc];
        self.pc = self.pc + 1;
        let op = match Opcode::from_u8(byte) {
            Some(op) => op,
            None => return Err(VmError::ShouldStop),
        };
        match op {
            Opcode::Terminate => {
                self.terminated = true;
                Ok(())
            },
            Opcode::Add => {
                let (lhs, rhs) = self.pop2()?;
                self.push(word::wrapping_add(lhs, rhs))
            },
            Opcode::Sub => {
                let (lhs, rhs) = self.pop2()?;
                self.push(word::wrapping_sub(lhs, rhs))
            },
            Opcode::Mul => {
                let (lhs, rhs) = self.pop2()?;
                self.push(word::wrapping_mul(lhs, rhs))
            },
            Opcode::Div => {
                let (lhs, rhs) = self.pop2()?;
                if word::is_zero(rhs) {
                    self.push(Word { l0: 0, l1: 0, l2: 0, l3: 0 })
                } else {
                    self.push(word::floor_div(lhs, rhs))
                }
            },
            Opcode::Eqi => {
                let (lhs, rhs) = self.pop2()?;
                self.push(word_of_bool(word::equal(lhs, rhs)))
            },
            Opcode::Lt => {
                let (lhs, rhs) = self.pop2()?;
                self.push(word_of_bool(word::less_than(lhs, rhs)))
            },
            Opcode::Gt => {
                let (lhs, rhs) = self.pop2()?;
                self.push(word_of_bool(word::less_than(rhs, lhs)))
            },
            Opcode::Geq => {
                let (lhs, rhs) = self.pop2()?;
                self.push(word_of_bool(!word::less_than(lhs, rhs)))
            },
            Opcode::Leq => {
                let (lhs, rhs) = self.pop2()?;
                self.push(word_of_bool(!word::less_than(rhs, lhs)))
            },
            Opcode::Iszero => {
                let top = self.pop()?;
                self.push(word_of_bool(word::is_zero(top)))
            },
            Opcode::Store => {
                let (key, value) = self.pop2()?;
                self.stores.push((key, value));
                Ok(())
            },
            Opcode::Get => {
                let key = self.pop()?;
                let slot = self.slot_key_of(key);
                let value = match storage.get(&slot) {
                    Some(bytes) => {
                        if bytes.len() <= 32 {
                            word::from_le_slice(bytes.as_slice())
                        } else {
                            word::from_le_slice(vstd::slice::slice_subrange(bytes.as_slice(), 0, 32))
                        }
                    },
                    None => Word { l0: 0, l1: 0, l2: 0, l3: 0 },
                };
                self.push(value)
            },
            Opcode::Push(n) => {
                let remaining = self.code.len() - self.pc;
                if n as usize > remaining {
                    return Err(VmError::ExpectedValue(n as usize - remaining));
                }
                let start = self.pc;
                let value = word::from_le_slice(
                    vstd::slice::slice_subrange(self.code.as_slice(), start, start + n as usize),
                );
                match self.push(value) {
                    Ok(()) => {
                        self.pc = start + n as usize;
                        Ok(())
                    },
                    Err(e) => Err(e),
                }
            },
            Opcode::Swap(n) => {
                let len = self.stack.len();
                if len == 0 || n as usize > len {
                    return Err(VmError::StackUnderflow);
                }
                let top = self.stack[len - 1];
                let other = self.stack[n as usize - 1];
                self.stack[len - 1] = other;
                self.stack[n as usize - 1] = top;
                Ok(())
            },
            Opcode::MoveToReturn(n) => {
                self.to_locals(n as usize)?;
                let len = self.stack.len();
                self.stack.truncate(len - n as usize);
                Ok(())
            },
            Opcode::CopyToReturn(n) => self.to_locals(n as usize),
            Opcode::CopyToMain(n) => {
                if n as usize >= RETURN_STACK_SIZE {
                    return Err(VmError::StackUnderflow);
                }
                let value = if (n as usize) < self.locals.len() {
                    self.locals[n as usize]
                } else {
                    Word { l0: 0, l1: 0, l2: 0, l3: 0 }
                };
                self.push(value)
            },
            Opcode::ClearReturn => {
                self.locals.clear();
                Ok(())
            },
            Opcode::Jump => {
                let offset = self.pop()?;
                self.jump(offset)
            },
            Opcode::Jumpif => {
                let (cond, offset) = self.pop2()?;
                if word::is_zero(cond) {
                    self.jump(offset)
                } else {
                    Ok(())
                }
            },
            Opcode::Jumpifnot => {
                let (cond, offset) = self.pop2()?;
                if !word::is_zero(cond) {
                    self.jump(offset)
                } else {
                    Ok(())
                }
            },
            Opcode::Dup => {
                let len = self.stack.len();
                if len == 0 {
                    return Err(VmError::StackUnderflow);
                }
                let top = self.stack[len - 1];
                self.push(top)
            },
        }
    }

    /// Appends the top `n` values, bottom first, to the locals stack.
    fn to_locals(&mut self, n: usize) -> (r: Result<(), VmError>)
        requires
            old(self).wf(),
        ensures
            final(self).code() == old(self).code(),
            final(self).contract_hash() == old(self).contract_hash(),
            ({
                let s = old(self).state();
                let len = s.stack.len();
                if n > len {
                    r == Err::<(), VmError>(VmError::StackUnderflow) && final(self).state() == s
                } else if s.locals.len() + n > RETURN_STACK_SIZE {
                    r == Err::<(), VmError>(VmError::StackOverflow) && final(self).state() == s
                } else {
                    r is Ok && final(self).state() == (VmState {
                        locals: s.locals + s.stack.subrange(len - n, len as int),
                        ..s
                    })
                }
            }),
    {
        let len = self.stack.len();
        if n > len {
            return Err(VmError::StackUnderflow);
        }
        if self.locals.len() + n > RETURN_STACK_SIZE {
            return Err(VmError::StackOverflow);
        }
        let ghost st = self.stack@;
        let mut i: usize = len - n;
        while i < len
            invariant
                st == self.stack@,
                len == st.len(),
                n <= len,
                len - n <= i <= len,
                self.stack@ == old(self).stack@,
                self.code@ == old(self).code@,
                self.contract_hash@ == old(self).contract_hash@,
                self.pc == old(self).pc,
                self.terminated == old(self).terminated,
                self.stores@ == old(self).stores@,
                self.locals@ == old(self).locals@ + self.stack@.subrange(len - n, i as int),
            decreases len - i,
        {
            let v = self.stack[i];
            self.locals.push(v);
            assert(v == st[i as int]);
            assert(st.subrange(len - n, i + 1) =~= st.subrange(len - n, i as int).push(st[i as int]));
            i = i + 1;
        }
        Ok(())
    }

    /// Applies the collected writes to storage, in the order they were made.
    pub fn commit<S: Storage>(&self, storage: &mut S)
        requires
            old(storage).inv(),
        ensures
            final(storage).inv(),
            final(storage).kv() == committed(
                old(storage).kv(),
                self.state().stores,
                self.contract_hash(),
            ),
    {
        let mut i: usize = 0;
        while i < self.stores.len()
            invariant
                i <= self.stores@.len(),
                storage.inv(),
                storage.kv() == committed(
                    old(storage).kv(),
                    self.stores@.subrange(0, i as int),
                    self.contract_hash(),
                ),
            decreases self.stores@.len() - i,
        {
            let (key, value) = self.stores[i];
            let slot = self.slot_key_of(key);
            let bytes = word::to_le_array(value);
            storage.set(&slot, &bytes);
            assert(self.stores@.subrange(0, i + 1).drop_last() == self.stores@.subrange(
                0,
                i as int,
            ));
            i = i + 1;
        }
        assert(self.stores@.subrange(0, i as int) == self.stores@);
    }
}

/// 1 for true, 0 for false.
pub fn word_of_bool(b: bool) -> (r: Word)
    ensures
        r == bool_word(b),
{
    Word { l0: if b { 1 } else { 0 }, l1: 0, l2: 0, l3: 0 }
}

/// Runs `code` with `args` on the locals stack until it terminates, runs off
/// the end, or fails; storage is only read.
pub fn execute<S: Storage>(contract_hash: [u8; 32], code: Vec<u8>, args: Vec<Word>, storage: &S) -> (r:
    Result<Vm, VmError>)
    requires
        storage.inv(),
    ensures
        match outcome(code@, contract_hash@, storage.kv(), args@) {
            Ok(t) => r matches Ok(vm) && vm.state() == t && vm.code() == code@
                && vm.contract_hash() == contract_hash@,
            Err(e) => r == Err::<Vm, VmError>(e),
        },
{
    let ghost c = code@;
    let ghost a = args@;
    let mut vm = Vm::with_arguments(contract_hash, code, args)?;
    while !vm.should_stop()
        invariant
            vm.wf(),
            c == code@,
            a == args@,
            vm.code() == c,
            vm.contract_hash() == contract_hash@,
            storage.inv(),
            run(c, contract_hash@, storage.kv(), vm.state()) == outcome(
                c,
                contract_hash@,
                storage.kv(),
                a,
            ),
        decreases c.len() - vm.state().pc,
    {
        proof {
            lemma_step_progress(c, contract_hash@, storage.kv(), vm.state());
        }
        let ghost before = vm.state();
        match vm.advance(storage) {
            Ok(()) => {},
            Err(e) => {
                assert(run(c, contract_hash@, storage.kv(), before) == Err::<VmState, VmError>(e));
                assert(outcome(c, contract_hash@, storage.kv(), a) == Err::<VmState, VmError>(e));
                return Err(e);
            },
        }
    }
    Ok(vm)
}

} // verus!
