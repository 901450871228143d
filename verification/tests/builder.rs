use lib::{
    Block, BlockBuilder, BlockId, Flatten, GapResolver, GraphId, Graph, InstrId, InstrKind, Interval, IntervalId,
    KindHelper, Liveness, UseKind, Value,
};

#[derive(Clone, Copy, Debug, PartialEq, Eq)]
enum Op {
    Const,
    Add,
    Ret,
}

impl KindHelper for Op {
    fn clobbers(&self, _group: usize) -> bool {
        false
    }

    fn temporary(&self) -> Vec<usize> {
        vec![]
    }

    fn use_kind(&self, _i: usize) -> UseKind {
        UseKind::UseAny(0)
    }

    fn result_kind(&self) -> Option<UseKind> {
        match self {
            Op::Ret => None,
            _ => Some(UseKind::UseRegister(0)),
        }
    }
}

#[test]
fn goto_and_branch_record_edges() {
    let mut g: Graph<Op> = Graph::new();
    let a = g.empty_block();
    let b = g.empty_block();
    let c = g.empty_block();
    g.with_block(a, |bb: &mut BlockBuilder<Op>| {
        bb.make_root();
        bb.add(Op::Const, vec![]);
        bb.branch(b, c);
    });
    g.with_block(b, |bb: &mut BlockBuilder<Op>| {
        bb.add(Op::Const, vec![]);
        bb.goto(c);
    });
    assert_eq!(g.root, Some(a));
    assert_eq!(g.get_block(&a).successors, vec![b, c]);
    assert_eq!(g.get_block(&c).predecessors, vec![a, b]);
    assert_eq!(g.get_block(&c).incoming_forward_branches, 2);
    assert!(g.get_block(&a).ended);
    assert!(!g.get_block(&c).ended);
}

#[test]
fn add_arg_appends_an_input() {
    let mut g: Graph<Op> = Graph::new();
    let mut ids = Vec::new();
    g.block(|bb: &mut BlockBuilder<Op>| {
        let x = bb.add(Op::Const, vec![]);
        let s = bb.add(Op::Add, vec![]);
        bb.add_arg(s, x);
        bb.add_arg(s, x);
        ids.push(x);
        ids.push(s);
    });
    assert_eq!(g.get_instr(&ids[1]).inputs, vec![ids[0], ids[0]]);
    let out = g.get_output(&ids[0]);
    assert_eq!(g.get_interval(&out).value, Value::VirtualVal(0));
}

#[test]
fn phi_moves_feed_the_phi() {
    let mut g: Graph<Op> = Graph::new();
    let phi = g.phi(0);
    let mut moves = Vec::new();
    let mut inputs = Vec::new();
    g.block(|bb: &mut BlockBuilder<Op>| {
        let x = bb.add(Op::Const, vec![]);
        bb.to_phi(x, phi);
        inputs.push(x);
        moves.push(InstrId(bb.graph.instr_id - 1));
    });
    let to_phi = moves[0];
    assert!(matches!(g.get_instr(&to_phi).kind, InstrKind::ToPhi(0)));
    assert_eq!(g.get_instr(&to_phi).inputs, vec![inputs[0]]);
    assert_eq!(g.get_instr(&phi).inputs, vec![to_phi]);
    // the phi move writes the phi's value, which is hinted to the input
    let phi_value = g.get_output(&phi);
    assert_eq!(g.get_output(&to_phi), phi_value);
    assert_eq!(g.get_interval(&phi_value).hint, Some(g.get_output(&inputs[0])));
}

#[test]
fn blocks_and_instructions_are_numbered() {
    let mut g: Graph<Op> = Graph::new();
    let b = Block::new(&mut g);
    assert_eq!(b.id, BlockId(0));
    assert_eq!(g.block_id, 1);
    let i = g.instr_id();
    assert_eq!(i, InstrId(0));
    let gap = g.create_gap(&BlockId(0));
    assert_eq!(gap.id, InstrId(1));
    assert!(matches!(gap.kind, InstrKind::Gap));
    assert_eq!(InstrId(5).next(), InstrId(6));
    assert_eq!(InstrId(5).prev(), InstrId(4));
    assert_eq!(InstrId(7).to_uint(), 7);
    assert_eq!(IntervalId(3).to_uint(), 3);
}

#[test]
fn block_edges_can_be_added_directly() {
    let mut g: Graph<Op> = Graph::new();
    let a = g.empty_block();
    let b = g.empty_block();
    g.get_mut_block(&a).add_successor(b);
    g.get_mut_block(&b).add_predecessor(a);
    assert_eq!(g.blocks[0].successors, vec![b]);
    assert_eq!(g.blocks[1].predecessors, vec![a]);
    assert_eq!(g.blocks[1].incoming_forward_branches, 1);
}

#[test]
fn children_are_visited_after_the_parent() {
    let mut g: Graph<Op> = Graph::new();
    let p = Interval::new(&mut g, 0);
    let c1 = Interval::new(&mut g, 0);
    let c2 = Interval::new(&mut g, 0);
    g.get_mut_interval(&p).children = vec![c1, c2];
    let seen = std::cell::RefCell::new(Vec::new());
    let all = g.iterate_children(&p, |iv: &Interval| {
        seen.borrow_mut().push(iv.id);
        iv.id != c1
    });
    assert!(all);
    assert_eq!(seen.into_inner(), vec![p, c1]);
    assert!(!g.iterate_children(&p, |_iv: &Interval| false));
}

#[test]
fn flatten_orders_blocks_after_their_predecessors() {
    let mut g: Graph<Op> = Graph::new();
    let exit = g.empty_block();
    let entry = g.empty_block();
    g.with_block(entry, |bb: &mut BlockBuilder<Op>| {
        bb.make_root();
        bb.add(Op::Const, vec![]);
        bb.goto(exit);
    });
    let x = g.instructions[0].id;
    g.with_block(exit, |bb: &mut BlockBuilder<Op>| {
        bb.add(Op::Ret, vec![x]);
        bb.end();
    });
    g.flatten().unwrap();
    // the entry block comes first and the blocks are renumbered
    assert_eq!(g.root, Some(BlockId(0)));
    assert_eq!(g.blocks[0].successors, vec![BlockId(1)]);
    assert_eq!(g.blocks[0].instructions, vec![InstrId(0), InstrId(1), InstrId(2)]);
    assert_eq!(g.blocks[1].instructions, vec![InstrId(3), InstrId(4), InstrId(5)]);
    // the return reads the renumbered constant
    assert_eq!(g.instructions[4].inputs, vec![InstrId(1)]);
    g.liveness_analysis().unwrap();
    let x_value = g.get_output(&InstrId(1));
    assert!(g.blocks[0].live_out.contains(x_value.0));
    assert!(g.blocks[1].live_in.contains(x_value.0));
    assert!(g.blocks[1].live_gen.contains(x_value.0));
    assert!(g.blocks[0].live_kill.contains(x_value.0));
    assert_eq!(g.resolve_gaps(), Ok(()));
}

#[test]
fn flatten_needs_a_root() {
    let mut g: Graph<Op> = Graph::new();
    g.empty_block();
    assert!(g.flatten().is_err());
}

#[test]
fn flatten_refuses_an_instruction_in_two_places() {
    let mut g: Graph<Op> = Graph::new();
    let b = g.empty_block();
    g.with_block(b, |bb: &mut BlockBuilder<Op>| {
        bb.make_root();
        bb.add(Op::Const, vec![]);
        bb.end();
    });
    let x = g.instructions[0].id;
    g.blocks[0].instructions.push(x);
    assert_eq!(g.flatten(), Err("instruction in two places".to_owned()));
}
