use vstd::prelude::*;

use crate::checksum::{lemma_low_bits, rotate32, rotl32};
use crate::cursor::{le16, truncated, Cursor};
use crate::dictionary::{find_id, Dictionary, DictionaryEntryModel};
use crate::error::{JunctionError, Result, Subject};
use crate::model::{views, ScriptOp, ScriptOpModel, ScriptProgram, ScriptProgramModel};

verus! {

/// What running a controller script gives back.
#[derive(Clone, Debug)]
pub struct ExecutionReport {
    pub program_id: u16,
    pub emitted: Vec<u8>,
    pub accumulator: u32,
    pub steps: usize,
}

pub ghost struct ReportModel {
    pub program_id: u16,
    pub emitted: Seq<u8>,
    pub accumulator: u32,
    pub steps: usize,
}

impl View for ExecutionReport {
    type V = ReportModel;

    open spec fn view(&self) -> ReportModel {
        ReportModel {
            program_id: self.program_id,
            emitted: self.emitted@,
            accumulator: self.accumulator,
            steps: self.steps,
        }
    }
}

/// A dictionary load of an id the dictionary lacks, with the top bit set, becomes a
/// constant load of the id masked with the program id.
pub open spec fn resolve_op(
    op: ScriptOpModel,
    dict: Seq<DictionaryEntryModel>,
    program_id: u16,
) -> ScriptOpModel {
    match op {
        ScriptOpModel::LoadDict(id) => if find_id(dict, id) is None && id & 0x8000 != 0 {
            ScriptOpModel::LoadConst(id ^ program_id)
        } else {
            ScriptOpModel::LoadDict(id)
        },
        other => other,
    }
}

/// The opcodes read from `p`, after the opcodes `ops`, with at most `left` still to
/// read. A vendor opcode whose payload is cut short ends the program; any other
/// opcode whose operand is cut short is an error.
pub open spec fn ops_from(
    s: Seq<u8>,
    p: int,
    left: nat,
    ops: Seq<ScriptOpModel>,
    dict: Seq<DictionaryEntryModel>,
    program_id: u16,
) -> Result<Seq<ScriptOpModel>>
    decreases left,
{
    if left == 0 || p < 0 || p >= s.len() {
        Ok(ops)
    } else {
        let op = s[p];
        let rest = s.len() - (p + 1);
        if op == 0x01 || op == 0x02 {
            if rest < 2 {
                Err(truncated(2, rest))
            } else {
                let decoded = if op == 0x01 {
                    ScriptOpModel::LoadConst(le16(s, p + 1))
                } else {
                    ScriptOpModel::LoadDict(le16(s, p + 1))
                };
                ops_from(
                    s,
                    p + 3,
                    (left - 1) as nat,
                    ops.push(resolve_op(decoded, dict, program_id)),
                    dict,
                    program_id,
                )
            }
        } else if op == 0x05 || op == 0x06 || op == 0x07 {
            if rest < 1 {
                Err(truncated(1, rest))
            } else {
                let decoded = if op == 0x05 {
                    ScriptOpModel::Rotate(s[p + 1])
                } else if op == 0x06 {
                    ScriptOpModel::BranchIfZero(s[p + 1] as i8)
                } else {
                    ScriptOpModel::Emit(s[p + 1])
                };
                ops_from(s, p + 2, (left - 1) as nat, ops.push(decoded), dict, program_id)
            }
        } else if op == 0x03 || op == 0x04 || op == 0xff {
            let decoded = if op == 0x03 {
                ScriptOpModel::Add
            } else if op == 0x04 {
                ScriptOpModel::Xor
            } else {
                ScriptOpModel::Halt
            };
            ops_from(s, p + 1, (left - 1) as nat, ops.push(decoded), dict, program_id)
        } else {
            let len = (op & 0x07) as int;
            if rest < len {
                Ok(ops)
            } else {
                let decoded = ScriptOpModel::Vendor(op, s.subrange(p + 1, p + 1 + len));
                ops_from(s, p + 1 + len, (left - 1) as nat, ops.push(decoded), dict, program_id)
            }
        }
    }
}

/// The program of a script section.
pub open spec fn program_of(s: Seq<u8>, dict: Seq<DictionaryEntryModel>) -> Result<
    ScriptProgramModel,
> {
    if s.len() < 3 {
        Err(truncated(3, s.len() as int))
    } else if s[2] > 192 {
        Err(JunctionError::LimitExceeded(Subject::ScriptOpcodes))
    } else {
        match ops_from(s, 3, s[2] as nat, seq![], dict, le16(s, 0)) {
            Ok(ops) => Ok(ScriptProgramModel { program_id: le16(s, 0), opcodes: ops }),
            Err(e) => Err(e),
        }
    }
}

pub fn parse_script_program(data: &[u8], dict: &Dictionary) -> (r: Result<ScriptProgram>)
    ensures
        match r {
            Ok(p) => program_of(data@, dict@) == Ok::<ScriptProgramModel, JunctionError>(p@)
                && p.opcodes@.len() <= 192,
            Err(e) => program_of(data@, dict@) == Err::<ScriptProgramModel, JunctionError>(e),
        },
{
    let mut c = Cursor::new(data);
    if c.remaining() < 3 {
        return Err(JunctionError::Truncated { needed: 3, remaining: c.remaining() });
    }
    let ghost s = data@;
    let program_id = c.read_u16()?;
    let op_count = c.read_u8()? as usize;
    if op_count > 192 {
        return Err(JunctionError::LimitExceeded(Subject::ScriptOpcodes));
    }
    let mut opcodes: Vec<ScriptOp> = Vec::new();
    let mut left: usize = op_count;
    assert(views(opcodes@) =~= Seq::<ScriptOpModel>::empty());
    while left > 0 && !c.is_empty()
        invariant_except_break
            ops_from(s, 3, op_count as nat, seq![], dict@, program_id) == ops_from(
                s,
                c.pos(),
                left as nat,
                views(opcodes@),
                dict@,
                program_id,
            ),
        invariant
            c.bytes() == s,
            s == data@,
            s.len() >= 3,
            program_id == le16(s, 0),
            op_count == s[2],
            op_count <= 192,
            left <= op_count,
            views(opcodes@).len() + left <= op_count,
            0 <= c.pos() <= s.len(),
        ensures
            ops_from(s, 3, op_count as nat, seq![], dict@, program_id) == Ok::<
                Seq<ScriptOpModel>,
                JunctionError,
            >(views(opcodes@)),
        decreases left,
    {
        let ghost p = c.pos();
        let ghost done = views(opcodes@);
        let op = c.read_u8()?;
        let decoded = if op == 0x01 {
            ScriptOp::LoadConst(c.read_u16()?)
        } else if op == 0x02 {
            ScriptOp::LoadDict(c.read_u16()?)
        } else if op == 0x03 {
            ScriptOp::Add
        } else if op == 0x04 {
            ScriptOp::Xor
        } else if op == 0x05 {
            ScriptOp::Rotate(c.read_u8()?)
        } else if op == 0x06 {
            ScriptOp::BranchIfZero(c.read_i8()?)
        } else if op == 0x07 {
            ScriptOp::Emit(c.read_u8()?)
        } else if op == 0xff {
            ScriptOp::Halt
        } else {
            let len = (op & 0x07) as usize;
            if c.remaining() < len {
                break;
            }
            ScriptOp::Vendor(op, c.read_vec(len)?)
        };
        let resolved = match decoded {
            ScriptOp::LoadDict(id) => {
                if dict.lookup(id).is_none() && id & 0x8000 != 0 {
                    ScriptOp::LoadConst(id ^ program_id)
                } else {
                    ScriptOp::LoadDict(id)
                }
            },
            other => other,
        };
        proof {
            crate::model::lemma_views_push(opcodes@, resolved);
        }
        opcodes.push(resolved);
        left = left - 1;
    }
    Ok(ScriptProgram { program_id, opcodes })
}

/// The state of the script machine.
pub ghost struct VmState {
    pub pc: int,
    pub stack: Seq<u32>,
    pub emitted: Seq<u8>,
    pub acc: u32,
    pub steps: nat,
    pub halted: bool,
}

/// The accumulator after a vendor opcode folds its payload into it.
pub open spec fn vendor_fold(acc: u32, code: u8, payload: Seq<u8>) -> u32
    decreases payload.len(),
{
    if payload.len() == 0 {
        acc
    } else {
        rotl32(vendor_fold(acc, code, payload.drop_last()), (code & 7) as u32) ^ (
        payload.last() as u32)
    }
}

/// The stack entry a vendor opcode with the top bit mixes in: the entry `distance`
/// places from the top, where the stack is that deep.
pub open spec fn vendor_sample(stack: Seq<u32>, payload_len: nat, acc: u32) -> Option<u32> {
    let distance = (((payload_len as u32) ^ acc) & 0x3fu32) as int;
    if 1 <= distance <= stack.len() {
        Some(stack[stack.len() - distance])
    } else {
        None
    }
}

/// The top of the stack and the rest, or `d` and the stack where it is empty.
pub open spec fn pop_or(stack: Seq<u32>, d: u32) -> (u32, Seq<u32>) {
    if stack.len() == 0 {
        (d, stack)
    } else {
        (stack.last(), stack.drop_last())
    }
}

/// One step of the machine at an opcode.
pub open spec fn vm_step(op: ScriptOpModel, st: VmState) -> VmState {
    let steps = st.steps + 1;
    match op {
        ScriptOpModel::LoadConst(v) => VmState {
            pc: st.pc + 1,
            stack: st.stack.push(v as u32),
            emitted: st.emitted,
            acc: st.acc,
            steps,
            halted: false,
        },
        ScriptOpModel::LoadDict(v) => VmState {
            pc: st.pc + 1,
            stack: st.stack.push(rotl32(v as u32, 3)),
            emitted: st.emitted,
            acc: st.acc,
            steps,
            halted: false,
        },
        ScriptOpModel::Add => {
            let (rhs, s1) = pop_or(st.stack, 0);
            let (lhs, s2) = pop_or(s1, st.acc);
            let acc = lhs.wrapping_add(rhs);
            VmState { pc: st.pc + 1, stack: s2.push(acc), emitted: st.emitted, acc, steps, halted: false }
        },
        ScriptOpModel::Xor => {
            let (rhs, s1) = pop_or(st.stack, 0);
            let (lhs, s2) = pop_or(s1, st.acc);
            let acc = lhs ^ rhs;
            VmState { pc: st.pc + 1, stack: s2.push(acc), emitted: st.emitted, acc, steps, halted: false }
        },
        ScriptOpModel::Rotate(bits) => {
            let acc = rotl32(st.acc, (bits & 31) as u32);
            VmState {
                pc: st.pc + 1,
                stack: st.stack.push(acc),
                emitted: st.emitted,
                acc,
                steps,
                halted: false,
            }
        },
        ScriptOpModel::BranchIfZero(delta) => {
            let value = if st.stack.len() == 0 { st.acc } else { st.stack.last() };
            VmState {
                pc: if value == 0 { st.pc + delta } else { st.pc + 1 },
                stack: st.stack,
                emitted: st.emitted,
                acc: st.acc,
                steps,
                halted: false,
            }
        },
        ScriptOpModel::Emit(mask) => VmState {
            pc: st.pc + 1,
            stack: st.stack,
            emitted: st.emitted.push((st.acc as u8) ^ mask),
            acc: st.acc,
            steps,
            halted: false,
        },
        ScriptOpModel::Halt => VmState {
            pc: st.pc,
            stack: st.stack,
            emitted: st.emitted,
            acc: st.acc,
            steps,
            halted: true,
        },
        ScriptOpModel::Vendor(code, payload) => {
            let folded = vendor_fold(st.acc, code, payload);
            let acc = if code & 0x80 != 0 && st.stack.len() > 0 {
                match vendor_sample(st.stack, payload.len(), folded) {
                    Some(v) => folded ^ v,
                    None => folded,
                }
            } else {
                folded
            };
            VmState { pc: st.pc + 1, stack: st.stack, emitted: st.emitted, acc, steps, halted: false }
        },
    }
}

/// The machine runs while its program counter is on an opcode, it has not halted and
/// it has taken fewer than 512 steps.
pub open spec fn vm_running(ops: Seq<ScriptOpModel>, st: VmState) -> bool {
    !st.halted && 0 <= st.pc < ops.len() && st.steps < 512
}

/// The state where the machine stops.
pub open spec fn vm_run(ops: Seq<ScriptOpModel>, st: VmState) -> VmState
    decreases 512 - st.steps,
{
    if vm_running(ops, st) {
        vm_run(ops, vm_step(ops[st.pc], st))
    } else {
        st
    }
}

/// What running a program gives back.
pub open spec fn report_of(p: ScriptProgramModel) -> ReportModel {
    let end = vm_run(
        p.opcodes,
        VmState {
            pc: 0,
            stack: seq![],
            emitted: seq![],
            acc: p.program_id as u32,
            steps: 0,
            halted: false,
        },
    );
    ReportModel {
        program_id: p.program_id,
        emitted: end.emitted,
        accumulator: end.acc,
        steps: end.steps as usize,
    }
}

/// The arithmetic opcodes pop their right operand, then their left one, and push
/// their result, which becomes the accumulator: `Add` adds with wrap-around, `Xor`
/// takes the exclusive or. A missing right operand counts as 0 and a missing left
/// operand as the accumulator. Each step counts once and moves to the next opcode.
pub proof fn lemma_arith_steps(st: VmState)
    ensures
        st.stack.len() >= 2 ==> {
            let n = st.stack.len() as int;
            let (a, b) = (st.stack[n - 2], st.stack[n - 1]);
            &&& vm_step(ScriptOpModel::Xor, st).acc == a ^ b
            &&& vm_step(ScriptOpModel::Xor, st).stack == st.stack.subrange(0, n - 2).push(a ^ b)
            &&& vm_step(ScriptOpModel::Add, st).acc == ((a as int + b as int) % 0x1_0000_0000) as u32
            &&& vm_step(ScriptOpModel::Add, st).stack == st.stack.subrange(0, n - 2).push(
                vm_step(ScriptOpModel::Add, st).acc,
            )
        },
        st.stack.len() == 1 ==> {
            &&& vm_step(ScriptOpModel::Xor, st).acc == st.acc ^ st.stack[0]
            &&& vm_step(ScriptOpModel::Add, st).acc == ((st.acc as int + st.stack[0] as int)
                % 0x1_0000_0000) as u32
        },
        st.stack.len() == 0 ==> {
            &&& vm_step(ScriptOpModel::Xor, st).acc == st.acc
            &&& vm_step(ScriptOpModel::Add, st).acc == st.acc
            &&& vm_step(ScriptOpModel::Xor, st).stack == seq![st.acc]
        },
        vm_step(ScriptOpModel::Xor, st).pc == st.pc + 1,
        vm_step(ScriptOpModel::Add, st).pc == st.pc + 1,
        vm_step(ScriptOpModel::Xor, st).steps == st.steps + 1,
        vm_step(ScriptOpModel::Xor, st).emitted == st.emitted,
        vm_step(ScriptOpModel::Add, st).emitted == st.emitted,
{
    let n = st.stack.len() as int;
    if n >= 2 {
        assert(st.stack.drop_last().drop_last() =~= st.stack.subrange(0, n - 2));
        assert(st.stack.drop_last().last() == st.stack[n - 2]);
    }
    let a = if n >= 2 { st.stack[n - 2] } else if n == 1 { st.acc } else { st.acc };
    let b = if n >= 1 { st.stack[n - 1] } else { 0u32 };
    assert(a.wrapping_add(b) == ((a as int + b as int) % 0x1_0000_0000) as u32) by (bit_vector);
    assert(a ^ 0u32 == a) by (bit_vector);
    assert(a.wrapping_add(0u32) == a) by (bit_vector);
}

/// Loads push their value and leave the accumulator; `Emit` writes the low byte of
/// the accumulator masked by its operand; `Rotate` rotates the accumulator left and
/// pushes it; `Halt` stops where it is; a branch moves by its offset exactly when the
/// top of the stack (the accumulator where the stack is empty) is zero.
pub proof fn lemma_other_steps(st: VmState, v: u16, mask: u8, bits: u8, delta: i8)
    ensures
        vm_step(ScriptOpModel::LoadConst(v), st).stack == st.stack.push(v as u32),
        vm_step(ScriptOpModel::LoadConst(v), st).acc == st.acc,
        vm_step(ScriptOpModel::LoadDict(v), st).stack == st.stack.push(
            ((v as u32) << 3u32) | ((v as u32) >> 29u32),
        ),
        vm_step(ScriptOpModel::LoadDict(v), st).acc == st.acc,
        vm_step(ScriptOpModel::Emit(mask), st).emitted == st.emitted.push(
            ((st.acc % 256) as u8) ^ mask,
        ),
        vm_step(ScriptOpModel::Emit(mask), st).acc == st.acc,
        vm_step(ScriptOpModel::Emit(mask), st).stack == st.stack,
        bits % 32 == 0 ==> vm_step(ScriptOpModel::Rotate(bits), st).acc == st.acc,
        bits % 32 != 0 ==> vm_step(ScriptOpModel::Rotate(bits), st).acc == (st.acc << ((bits
            % 32) as u32)) | (st.acc >> ((32 - bits % 32) as u32)),
        vm_step(ScriptOpModel::Rotate(bits), st).stack == st.stack.push(
            vm_step(ScriptOpModel::Rotate(bits), st).acc,
        ),
        vm_step(ScriptOpModel::Halt, st).halted,
        vm_step(ScriptOpModel::Halt, st).pc == st.pc,
        vm_step(ScriptOpModel::Halt, st).acc == st.acc,
        ({
            let top = if st.stack.len() == 0 { st.acc } else { st.stack[st.stack.len() - 1] };
            vm_step(ScriptOpModel::BranchIfZero(delta), st).pc == if top == 0 {
                st.pc + delta
            } else {
                st.pc + 1
            }
        }),
        vm_step(ScriptOpModel::BranchIfZero(delta), st).stack == st.stack,
        vm_step(ScriptOpModel::BranchIfZero(delta), st).acc == st.acc,
{
    let acc = st.acc;
    assert((acc as u8) == ((acc % 256) as u8)) by (bit_vector);
    assert(bits & 31 == bits % 32) by (bit_vector);
}

/// A program that loads `a` and `b` and combines them ends with their exclusive or
/// (for `Xor`) or their wrapping sum (for `Add`) in the accumulator, after three
/// steps and without emitting anything.
pub proof fn lemma_two_operand_programs(program_id: u16, a: u16, b: u16)
    ensures
        ({
            let r = report_of(
                ScriptProgramModel {
                    program_id,
                    opcodes: seq![
                        ScriptOpModel::LoadConst(a),
                        ScriptOpModel::LoadConst(b),
                        ScriptOpModel::Xor,
                    ],
                },
            );
            r.accumulator == (a as u32) ^ (b as u32) && r.steps == 3 && r.emitted.len() == 0
        }),
        ({
            let r = report_of(
                ScriptProgramModel {
                    program_id,
                    opcodes: seq![
                        ScriptOpModel::LoadConst(a),
                        ScriptOpModel::LoadConst(b),
                        ScriptOpModel::Add,
                    ],
                },
            );
            r.accumulator == (a as u32) + (b as u32) && r.steps == 3 && r.emitted.len() == 0
        }),
{
    let s0 = VmState {
        pc: 0,
        stack: seq![],
        emitted: seq![],
        acc: program_id as u32,
        steps: 0,
        halted: false,
    };
    let s2 = VmState {
        pc: 2,
        stack: seq![a as u32, b as u32],
        emitted: seq![],
        acc: program_id as u32,
        steps: 2,
        halted: false,
    };
    let ox = seq![ScriptOpModel::LoadConst(a), ScriptOpModel::LoadConst(b), ScriptOpModel::Xor];
    let oa = seq![ScriptOpModel::LoadConst(a), ScriptOpModel::LoadConst(b), ScriptOpModel::Add];
    let s1 = vm_step(ox[0], s0);
    assert(ox[0] == ScriptOpModel::LoadConst(a) && ox[1] == ScriptOpModel::LoadConst(b));
    assert(oa[0] == ScriptOpModel::LoadConst(a) && oa[1] == ScriptOpModel::LoadConst(b));
    assert(vm_step(ox[1], s1).stack =~= s2.stack);
    assert(vm_step(ox[1], s1) == s2);
    assert(vm_step(oa[1], vm_step(oa[0], s0)).stack =~= s2.stack);
    assert(vm_step(oa[1], vm_step(oa[0], s0)) == s2);
    assert(ox[2] == ScriptOpModel::Xor && oa[2] == ScriptOpModel::Add);
    lemma_arith_steps(s2);
    assert(s2.stack.subrange(0, 0) =~= Seq::<u32>::empty());
    let ex = vm_step(ScriptOpModel::Xor, s2);
    let ea = vm_step(ScriptOpModel::Add, s2);
    assert(!vm_running(ox, ex));
    assert(!vm_running(oa, ea));
    assert(vm_run(ox, ex) == ex);
    assert(vm_run(ox, s2) == vm_run(ox, ex));
    assert(vm_run(ox, s1) == vm_run(ox, s2));
    assert(vm_run(ox, s0) == vm_run(ox, s1));
    assert(vm_run(oa, ea) == ea);
    assert(vm_run(oa, s2) == vm_run(oa, ea));
    assert(vm_run(oa, vm_step(oa[0], s0)) == vm_run(oa, s2));
    assert(vm_run(oa, s0) == vm_run(oa, vm_step(oa[0], s0)));
}

pub fn run_program(program: &ScriptProgram) -> (r: ExecutionReport)
    requires
        program.opcodes@.len() + 128 <= isize::MAX,
    ensures
        r@ == report_of(program@),
        r.steps <= 512,
        r.emitted@.len() <= r.steps,
{
    let mut pc: isize = 0;
    let mut stack: Vec<u32> = Vec::new();
    let mut emitted: Vec<u8> = Vec::new();
    let mut accumulator: u32 = program.program_id as u32;
    let mut steps: usize = 0;
    let mut halted = false;
    let ghost ops = program@.opcodes;
    let ghost init = VmState {
        pc: 0,
        stack: seq![],
        emitted: seq![],
        acc: program.program_id as u32,
        steps: 0,
        halted: false,
    };
    assert(init == (VmState { pc: 0, stack: stack@, emitted: emitted@, acc: accumulator, steps: 0, halted: false }));
    while !halted && pc >= 0 && (pc as usize) < program.opcodes.len() && steps < 512
        invariant
            ops == program@.opcodes,
            ops.len() == program.opcodes@.len(),
            ops.len() + 128 <= isize::MAX,
            -200 <= pc <= ops.len() + 200,
            steps <= 512,
            stack@.len() <= steps,
            emitted@.len() <= steps,
            vm_run(ops, init) == vm_run(
                ops,
                VmState {
                    pc: pc as int,
                    stack: stack@,
                    emitted: emitted@,
                    acc: accumulator,
                    steps: steps as nat,
                    halted,
                },
            ),
        decreases 512 - steps,
    {
        let ghost before = VmState {
            pc: pc as int,
            stack: stack@,
            emitted: emitted@,
            acc: accumulator,
            steps: steps as nat,
            halted,
        };
        let op = &program.opcodes[pc as usize];
        assert(ops[pc as int] == op@);
        steps = steps + 1;
        match op {
            ScriptOp::LoadConst(v) => {
                stack.push(*v as u32);
                pc = pc + 1;
            },
            ScriptOp::LoadDict(v) => {
                stack.push(rotate32(*v as u32, 3));
                pc = pc + 1;
            },
            ScriptOp::Add => {
                let rhs = match stack.pop() {
                    Some(x) => x,
                    None => 0,
                };
                let lhs = match stack.pop() {
                    Some(x) => x,
                    None => accumulator,
                };
                accumulator = lhs.wrapping_add(rhs);
                stack.push(accumulator);
                pc = pc + 1;
            },
            ScriptOp::Xor => {
                let rhs = match stack.pop() {
                    Some(x) => x,
                    None => 0,
                };
                let lhs = match stack.pop() {
                    Some(x) => x,
                    None => accumulator,
                };
                accumulator = lhs ^ rhs;
                stack.push(accumulator);
                pc = pc + 1;
            },
            ScriptOp::Rotate(bits) => {
                proof {
                    lemma_low_bits(*bits);
                }
                accumulator = rotate32(accumulator, (*bits & 31) as u32);
                stack.push(accumulator);
                pc = pc + 1;
            },
            ScriptOp::BranchIfZero(delta) => {
                let value = if stack.len() == 0 {
                    accumulator
                } else {
                    stack[stack.len() - 1]
                };
                if value == 0 {
                    pc = pc + *delta as isize;
                } else {
                    pc = pc + 1;
                }
            },
            ScriptOp::Emit(mask) => {
                emitted.push((#[verifier::truncate] (accumulator as u8)) ^ *mask);
                pc = pc + 1;
            },
            ScriptOp::Halt => {
                halted = true;
            },
            ScriptOp::Vendor(code, payload) => {
                accumulator = vendor_accumulate(accumulator, *code, payload.as_slice());
                if *code & 0x80 != 0 && stack.len() > 0 {
                    let distance = (((#[verifier::truncate] (payload.len() as u32)) ^ accumulator) & 0x3f) as usize;
                    if 1 <= distance && distance <= stack.len() {
                        accumulator = accumulator ^ stack[stack.len() - distance];
                    }
                }
                pc = pc + 1;
            },
        }
        assert(vm_step(ops[before.pc], before) == (VmState {
            pc: pc as int,
            stack: stack@,
            emitted: emitted@,
            acc: accumulator,
            steps: steps as nat,
            halted,
        }));
    }
    ExecutionReport { program_id: program.program_id, emitted, accumulator, steps }
}

fn vendor_accumulate(acc: u32, code: u8, payload: &[u8]) -> (r: u32)
    ensures
        r == vendor_fold(acc, code, payload@),
{
    let mut a = acc;
    let mut i: usize = 0;
    proof {
        lemma_low_bits(code);
    }
    assert(payload@.take(0) =~= Seq::<u8>::empty());
    while i < payload.len()
        invariant
            i <= payload@.len(),
            code & 7 < 8,
            a == vendor_fold(acc, code, payload@.take(i as int)),
        decreases payload.len() - i,
    {
        a = rotate32(a, (code & 7) as u32) ^ payload[i] as u32;
        assert(payload@.take(i + 1).drop_last() =~= payload@.take(i as int));
        i = i + 1;
    }
    assert(payload@.take(payload@.len() as int) =~= payload@);
    a
}

pub fn compile_and_run(data: &[u8]) -> (r: Result<ExecutionReport>)
    ensures
        match r {
            Ok(rep) => program_of(data@, Seq::empty()) matches Ok(p) && rep@ == report_of(p),
            Err(e) => program_of(data@, Seq::empty()) == Err::<ScriptProgramModel, JunctionError>(
                e,
            ),
        },
{
    let program = parse_script_program(data, &Dictionary::new())?;
    Ok(run_program(&program))
}

} // verus!
