use std::collections::HashMap;

use lib::{
    Allocator, BlockBuilder, BlockId, Config, Generator, GeneratorFunctions, Graph, GroupHelper, InstrId,
    KindHelper, RegisterHelper, UseKind, Value,
};

/// Instruction kinds of a small machine.
#[derive(Clone, Debug, PartialEq)]
pub enum Kind {
    Increment,
    Sum,
    DoubleSum,
    MultAdd,
    BranchIfBigger,
    JustUse,
    FixedUse,
    Nop,
    Print,
    Number(usize),
    DoubleNumber(f64),
    ToDouble,
    Return,
    ReturnDouble,
}

/// Register groups.
#[derive(Clone, Copy, Debug, PartialEq, Eq)]
pub enum Group {
    Normal,
    Double,
}

/// Registers.
#[allow(non_camel_case_types)]
#[derive(Clone, Copy, Debug, PartialEq, Eq)]
pub enum Register {
    rax,
    rbx,
    rcx,
    rdx,
    xmm1,
    xmm2,
    xmm3,
    xmm4,
}

const NORMAL: usize = 0;
const DOUBLE: usize = 1;

impl GroupHelper for Group {
    fn any() -> Group {
        Group::Normal
    }

    fn to_uint(&self) -> usize {
        match self {
            Group::Normal => 0,
            Group::Double => 1,
        }
    }

    fn from_uint(i: usize) -> Group {
        match i {
            0 => Group::Normal,
            1 => Group::Double,
            _ => panic!("unknown group"),
        }
    }
}

impl RegisterHelper<Group> for Register {
    fn group(&self) -> Group {
        match self {
            Register::rax | Register::rbx | Register::rcx | Register::rdx => Group::Normal,
            _ => Group::Double,
        }
    }

    fn to_uint(&self) -> usize {
        match self {
            Register::rax => 0,
            Register::rbx => 1,
            Register::rcx => 2,
            Register::rdx => 3,
            Register::xmm1 => 0,
            Register::xmm2 => 1,
            Register::xmm3 => 2,
            Register::xmm4 => 3,
        }
    }

    fn from_uint(g: &Group, i: usize) -> Register {
        match (g, i) {
            (Group::Normal, 0) => Register::rax,
            (Group::Normal, 1) => Register::rbx,
            (Group::Normal, 2) => Register::rcx,
            (Group::Normal, 3) => Register::rdx,
            (Group::Double, 0) => Register::xmm1,
            (Group::Double, 1) => Register::xmm2,
            (Group::Double, 2) => Register::xmm3,
            (Group::Double, 3) => Register::xmm4,
            _ => panic!("unknown register"),
        }
    }
}

fn fixed(r: Register) -> UseKind {
    UseKind::UseFixed(r.group().to_uint(), r.to_uint())
}

impl KindHelper for Kind {
    fn clobbers(&self, _group: usize) -> bool {
        matches!(self, Kind::Print)
    }

    fn temporary(&self) -> Vec<usize> {
        match self {
            Kind::BranchIfBigger => vec![NORMAL],
            _ => vec![],
        }
    }

    fn use_kind(&self, i: usize) -> UseKind {
        match self {
            Kind::BranchIfBigger if i == 0 => fixed(Register::rcx),
            Kind::JustUse => fixed(Register::rbx),
            Kind::FixedUse => fixed(Register::from_uint(&Group::Normal, i)),
            Kind::Print => fixed(Register::rdx),
            Kind::Return => fixed(Register::rax),
            Kind::ReturnDouble => fixed(Register::xmm1),
            Kind::DoubleSum => UseKind::UseRegister(DOUBLE),
            Kind::ToDouble => UseKind::UseRegister(NORMAL),
            _ => UseKind::UseAny(NORMAL),
        }
    }

    fn result_kind(&self) -> Option<UseKind> {
        match self {
            Kind::Return => None,
            Kind::ReturnDouble => None,
            Kind::BranchIfBigger => None,
            Kind::JustUse => None,
            Kind::FixedUse => None,
            Kind::Nop => None,
            Kind::DoubleNumber(_) => Some(UseKind::UseAny(DOUBLE)),
            Kind::DoubleSum => Some(UseKind::UseRegister(DOUBLE)),
            Kind::ToDouble => Some(UseKind::UseRegister(DOUBLE)),
            _ => Some(UseKind::UseRegister(NORMAL)),
        }
    }
}

/// A result of the machine: an integer or a double.
#[derive(Clone, Copy, Debug, PartialEq)]
pub enum Outcome {
    Left(usize),
    Right(f64),
}

impl Outcome {
    fn left(self) -> usize {
        match self {
            Outcome::Left(v) => v,
            Outcome::Right(_) => panic!("integer expected"),
        }
    }

    fn right(self) -> f64 {
        match self {
            Outcome::Right(v) => v,
            Outcome::Left(_) => panic!("double expected"),
        }
    }
}

#[derive(Clone, Debug)]
enum EmuInstruction {
    Move(Value, Value),
    Swap(Value, Value),
    UnexpectedEnd,
    Block(BlockId),
    Goto(BlockId),
    Generic(GenericInstruction),
}

#[derive(Clone, Debug)]
struct GenericInstruction {
    kind: Kind,
    output: Option<Value>,
    inputs: Vec<Value>,
    temporary: Vec<Value>,
    succ: Vec<BlockId>,
}

/// Runs the code that the generator hands it.
pub struct Emulator {
    ip: usize,
    instructions: Vec<EmuInstruction>,
    blocks: HashMap<usize, usize>,
    result: Option<Outcome>,
    registers: HashMap<usize, usize>,
    double_registers: HashMap<usize, f64>,
    stack: HashMap<usize, usize>,
    double_stack: HashMap<usize, f64>,
}

impl GeneratorFunctions<Kind> for Emulator {
    fn prelude(&mut self) {}

    fn epilogue(&mut self) {
        self.instructions.push(EmuInstruction::UnexpectedEnd);
    }

    fn swap(&mut self, left: &Value, right: &Value) {
        self.instructions.push(EmuInstruction::Swap(*left, *right));
    }

    fn move_value(&mut self, from: &Value, to: &Value) {
        self.instructions.push(EmuInstruction::Move(*from, *to));
    }

    fn block(&mut self, id: BlockId) {
        let ip = self.instructions.len();
        self.blocks.insert(id.0, ip);
        self.instructions.push(EmuInstruction::Block(id));
    }

    fn goto(&mut self, id: BlockId) {
        self.instructions.push(EmuInstruction::Goto(id));
    }

    fn instr(&mut self, kind: &Kind, output: Option<Value>, inputs: &[Value], temporary: &[Value], succ: &[BlockId]) {
        self.instructions.push(EmuInstruction::Generic(GenericInstruction {
            kind: kind.clone(),
            output,
            inputs: inputs.to_vec(),
            temporary: temporary.to_vec(),
            succ: succ.to_vec(),
        }));
    }
}

/// Build a graph with `body`, allocate four registers of each group, run
/// the generated code and compare its result.
pub fn run_test<F: FnOnce(&mut Graph<Kind>)>(expected: Outcome, body: F) {
    let mut g: Graph<Kind> = Graph::new();
    body(&mut g);
    g.allocate(Config { register_groups: vec![4, 4] }).unwrap();
    let mut emu = Emulator::new();
    let got = emu.run(&g);
    if got != expected {
        panic!("got {:?} expected {:?}", got, expected);
    }
}

impl Emulator {
    pub fn new() -> Emulator {
        Emulator {
            ip: 0,
            instructions: Vec::new(),
            blocks: HashMap::new(),
            result: None,
            registers: HashMap::new(),
            double_registers: HashMap::new(),
            stack: HashMap::new(),
            double_stack: HashMap::new(),
        }
    }

    pub fn run(&mut self, graph: &Graph<Kind>) -> Outcome {
        // Generate instructions
        graph.generate(self).unwrap();

        let instructions = self.instructions.clone();
        let mut steps = 0;
        loop {
            // Execution finished
            if let Some(result) = self.result {
                return result;
            }
            steps += 1;
            assert!(steps < 100_000, "the program does not end");

            match &instructions[self.ip] {
                EmuInstruction::UnexpectedEnd => panic!("This end was really unexpected"),
                EmuInstruction::Block(_) => {
                    self.ip += 1;
                },
                EmuInstruction::Move(from, to) => {
                    let v = self.get(*from);
                    self.put(*to, v);
                    self.ip += 1;
                },
                EmuInstruction::Swap(left, right) => {
                    let t = self.get(*left);
                    let v = self.get(*right);
                    self.put(*left, v);
                    self.put(*right, t);
                    self.ip += 1;
                },
                EmuInstruction::Goto(block) => {
                    self.ip = *self.blocks.get(&block.0).expect("Block to be present");
                },
                EmuInstruction::Generic(instr) => self.exec_generic(instr),
            }
        }
    }

    fn get(&self, slot: Value) -> Outcome {
        match slot {
            Value::RegisterVal(NORMAL, r) => Outcome::Left(*self.registers.get(&r).expect("Defined register")),
            Value::RegisterVal(DOUBLE, r) => {
                Outcome::Right(*self.double_registers.get(&r).expect("Defined double register"))
            },
            Value::StackVal(NORMAL, s) => Outcome::Left(*self.stack.get(&s.0).expect("Defined stack slot")),
            Value::StackVal(DOUBLE, s) => {
                Outcome::Right(*self.double_stack.get(&s.0).expect("Defined double stack slot"))
            },
            _ => panic!("unexpected location {:?}", slot),
        }
    }

    fn put(&mut self, slot: Value, value: Outcome) {
        match slot {
            Value::RegisterVal(NORMAL, r) => {
                self.registers.insert(r, value.left());
            },
            Value::RegisterVal(DOUBLE, r) => {
                self.double_registers.insert(r, value.right());
            },
            Value::StackVal(NORMAL, s) => {
                self.stack.insert(s.0, value.left());
            },
            Value::StackVal(DOUBLE, s) => {
                self.double_stack.insert(s.0, value.right());
            },
            _ => panic!("unexpected location {:?}", slot),
        }
    }

    fn exec_generic(&mut self, instr: &GenericInstruction) {
        let out = instr.output;
        let inputs: Vec<Outcome> = instr.inputs.iter().map(|i| self.get(*i)).collect();
        let tmp = instr.temporary.clone();

        match instr.kind {
            Kind::Increment => self.put(out.expect("Increment out"), Outcome::Left(inputs[0].left() + 1)),
            Kind::JustUse => {},
            Kind::FixedUse => {},
            Kind::Nop => {},
            Kind::Print => self.put(out.expect("Print out"), Outcome::Left(0)),
            Kind::Number(n) => self.put(out.expect("Number out"), Outcome::Left(n)),
            Kind::DoubleNumber(n) => self.put(out.expect("Double Number out"), Outcome::Right(n)),
            Kind::Sum => self.put(out.expect("Sum out"), Outcome::Left(inputs[0].left() + inputs[1].left())),
            Kind::MultAdd => self.put(
                out.expect("Mult add out"),
                Outcome::Left(inputs[0].left() * inputs[1].left() + inputs[2].left()),
            ),
            Kind::DoubleSum => {
                self.put(out.expect("Double sum out"), Outcome::Right(inputs[0].right() + inputs[1].right()))
            },
            Kind::ToDouble => self.put(out.expect("ToDouble out"), Outcome::Right(inputs[0].left() as f64)),
            Kind::Return => {
                assert!(matches!(inputs[0], Outcome::Left(_)));
                self.result = Some(inputs[0]);
                return;
            },
            Kind::ReturnDouble => {
                assert!(matches!(inputs[0], Outcome::Right(_)));
                self.result = Some(inputs[0]);
                return;
            },
            Kind::BranchIfBigger => {
                self.put(tmp[0], Outcome::Left(0));
                if inputs[0].left() > inputs[1].left() {
                    self.ip = *self.blocks.get(&instr.succ[0].0).expect("branch true");
                } else {
                    self.ip = *self.blocks.get(&instr.succ[1].0).expect("branch false");
                }
                return;
            },
        }

        // Move forward
        self.ip += 1;
    }
}

#[test]
fn runner_realword_example() {
    run_test(Outcome::Left(21), |g| {
        let phi = g.phi(NORMAL);

        let cond = g.empty_block();
        let left = g.empty_block();
        let after_left = g.empty_block();
        let right = g.empty_block();
        let ret = g.new_instr(Kind::Number(10), vec![]);

        g.block(|b: &mut BlockBuilder<Kind>| {
            b.make_root();

            b.add_existing(ret);
            let zero = b.add(Kind::Number(0), vec![]);
            b.to_phi(zero, phi);
            b.goto(cond);
        });

        g.with_block(cond, |b: &mut BlockBuilder<Kind>| {
            let ten = b.add(Kind::Number(10), vec![]);
            b.add(Kind::JustUse, vec![phi]);
            b.add(Kind::BranchIfBigger, vec![phi, ten]);
            b.branch(right, left);
        });

        g.with_block(left, |b: &mut BlockBuilder<Kind>| {
            let print_res = b.add(Kind::Print, vec![phi]);
            b.add(Kind::Increment, vec![print_res]);
            b.goto(after_left);
        });

        g.with_block(after_left, |b: &mut BlockBuilder<Kind>| {
            let counter = b.add(Kind::Increment, vec![phi]);
            b.to_phi(counter, phi);
            b.goto(cond);
        });

        g.with_block(right, |b: &mut BlockBuilder<Kind>| {
            let sum = b.add(Kind::Sum, vec![ret, phi]);
            b.add(Kind::Return, vec![sum]);
            b.end();
        });
    });
}

struct LoopResult {
    pre: BlockId,
    after: BlockId,
    out: InstrId,
}

/// A loop that counts to five around `depth - 1` nested loops, threading
/// `input` through a phi of its own.
fn create_loop(g: &mut Graph<Kind>, input: InstrId, depth: usize) -> Option<LoopResult> {
    let phi = g.phi(NORMAL);
    let res_phi = g.phi(NORMAL);
    let cond = g.empty_block();
    let body = g.empty_block();
    let after = g.empty_block();

    // Pre
    let pre = g.block(|b: &mut BlockBuilder<Kind>| {
        let init = b.add(Kind::Number(0), vec![]);
        b.to_phi(init, phi);
        b.to_phi(input, res_phi);
        b.goto(cond);
    });

    // Cond
    g.with_block(cond, |b: &mut BlockBuilder<Kind>| {
        let limit = b.add(Kind::Number(4), vec![]);
        b.add(Kind::BranchIfBigger, vec![phi, limit]);
        b.branch(after, body);
    });

    // Body
    g.with_block(body, |b: &mut BlockBuilder<Kind>| {
        let next = b.add(Kind::Increment, vec![phi]);
        b.to_phi(next, phi);
    });

    g.with_block(after, |b: &mut BlockBuilder<Kind>| {
        b.add(Kind::Nop, vec![]);
    });

    let inner = if depth > 1 { create_loop(g, res_phi, depth - 1) } else { None };
    match inner {
        // Link loops together
        Some(LoopResult { pre: inner_pre, after: inner_after, out }) => {
            g.with_block(body, |b: &mut BlockBuilder<Kind>| {
                b.goto(inner_pre);
            });
            g.with_block(inner_after, |b: &mut BlockBuilder<Kind>| {
                b.to_phi(out, res_phi);
                b.goto(cond);
            });
        },
        // Just loop
        None => {
            g.with_block(body, |b: &mut BlockBuilder<Kind>| {
                let next = b.add(Kind::Increment, vec![res_phi]);
                b.to_phi(next, res_phi);
                b.goto(cond);
            });
        },
    }

    Some(LoopResult { pre, after, out: res_phi })
}

#[test]
fn nested_loops() {
    run_test(Outcome::Left(125), |g| {
        let input = g.new_instr(Kind::Number(0), vec![]);
        let LoopResult { pre, after, out } = create_loop(g, input, 3).unwrap();

        // Start
        g.block(|b: &mut BlockBuilder<Kind>| {
            b.make_root();
            b.add_existing(input);
            b.goto(pre);
        });

        g.with_block(after, |b: &mut BlockBuilder<Kind>| {
            b.add(Kind::Return, vec![out]);
            b.end();
        });
    });
}

#[test]
fn double_and_normal() {
    run_test(Outcome::Right(286.875), |g| {
        g.block(|b: &mut BlockBuilder<Kind>| {
            b.make_root();

            // Create very high register pressure
            let mut normals = Vec::new();
            let mut doubles = Vec::new();
            let count = 16;
            for i in 0..count {
                normals.push(b.add(Kind::Number(i + 1), vec![]));
                doubles.push(b.add(Kind::DoubleNumber(((i + 1) as f64) / 8.0), vec![]));
            }

            let mut total = b.add(Kind::DoubleNumber(0.0), vec![]);
            for i in (1..count).rev() {
                let left = b.add(Kind::Sum, vec![normals[i - 1], normals[i]]);
                let right = b.add(Kind::DoubleSum, vec![doubles[i - 1], doubles[i]]);
                let double_left = b.add(Kind::ToDouble, vec![left]);

                let subtotal = b.add(Kind::DoubleSum, vec![double_left, right]);
                total = b.add(Kind::DoubleSum, vec![total, subtotal]);
            }
            b.add(Kind::ReturnDouble, vec![total]);
            b.end();
        });
    });
}

#[test]
fn parallel_move_cycles() {
    run_test(Outcome::Left(1234), |g| {
        g.block(|b: &mut BlockBuilder<Kind>| {
            b.make_root();

            let n1 = b.add(Kind::Number(1), vec![]);
            let n2 = b.add(Kind::Number(2), vec![]);
            let n3 = b.add(Kind::Number(3), vec![]);
            let n4 = b.add(Kind::Number(4), vec![]);

            // 1 <=> 2
            b.add(Kind::FixedUse, vec![n1, n2, n3, n4]);
            b.add(Kind::FixedUse, vec![n2, n1, n3, n4]);

            // 1 <=> 2, 3 <=> 4
            b.add(Kind::FixedUse, vec![n1, n2, n3, n4]);
            b.add(Kind::FixedUse, vec![n2, n1, n4, n3]);

            // shift
            b.add(Kind::FixedUse, vec![n1, n2, n3, n4]);
            b.add(Kind::FixedUse, vec![n4, n1, n2, n3]);

            // reverse shift
            b.add(Kind::FixedUse, vec![n1, n2, n3, n4]);
            b.add(Kind::FixedUse, vec![n2, n3, n4, n1]);

            // mixed
            b.add(Kind::FixedUse, vec![n1, n2, n3, n4]);
            b.add(Kind::FixedUse, vec![n3, n2, n4, n1]);

            let ten = b.add(Kind::Number(10), vec![]);
            let mut res = b.add(Kind::Number(0), vec![]);
            res = b.add(Kind::MultAdd, vec![res, ten, n1]);
            res = b.add(Kind::MultAdd, vec![res, ten, n2]);
            res = b.add(Kind::MultAdd, vec![res, ten, n3]);
            res = b.add(Kind::MultAdd, vec![res, ten, n4]);

            b.add(Kind::Return, vec![res]);
            b.end();
        });
    });
}
