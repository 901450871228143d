use lib::{
    Allocator, AllocatorState, BitSet, BlockBuilder, BlockId, Config, DCEKindHelper, GapAction, GapActionKind,
    GenEvent, Graph, InstrId, InstrKind, Interval, IntervalId, KindHelper, LiveRange, StackId, Use, UseKind, Value,
    DCE,
};

/// A small instruction set: constants, an addition, a call, a return in
/// register 0, an instruction that wants its inputs in registers 0, 1, ...
/// and one with a side effect.
#[derive(Clone, Copy, Debug, PartialEq, Eq)]
enum K {
    Const,
    Add,
    Call,
    Ret,
    FixedA,
    Effect,
}

impl KindHelper for K {
    fn clobbers(&self, _group: usize) -> bool {
        matches!(self, K::Call)
    }

    fn temporary(&self) -> Vec<usize> {
        vec![]
    }

    fn use_kind(&self, i: usize) -> UseKind {
        match self {
            K::FixedA => UseKind::UseFixed(0, i),
            K::Ret => UseKind::UseFixed(0, 0),
            _ => UseKind::UseAny(0),
        }
    }

    fn result_kind(&self) -> Option<UseKind> {
        match self {
            K::Ret | K::Effect | K::FixedA => None,
            _ => Some(UseKind::UseRegister(0)),
        }
    }
}

impl DCEKindHelper for K {
    fn has_sideeffects(&self) -> bool {
        matches!(self, K::Ret | K::Effect | K::Call)
    }
}

fn range(start: usize, end: usize) -> LiveRange {
    LiveRange { start: InstrId(start), end: InstrId(end) }
}

fn mv(from: usize, to: usize) -> GapAction {
    GapAction { kind: GapActionKind::Move, from: IntervalId(from), to: IntervalId(to) }
}

/// A graph of one block: two constants, their sum and a return of it.
fn straight_line() -> Graph<K> {
    let mut g: Graph<K> = Graph::new();
    g.block(|b: &mut BlockBuilder<K>| {
        b.make_root();
        let x = b.add(K::Const, vec![]);
        let y = b.add(K::Const, vec![]);
        let s = b.add(K::Add, vec![x, y]);
        b.add(K::Ret, vec![s]);
        b.end();
    });
    g
}

#[test]
fn live_range_covers_and_meets() {
    let r = range(2, 5);
    assert!(r.covers(InstrId(2)));
    assert!(r.covers(InstrId(4)));
    assert!(!r.covers(InstrId(5)));
    assert!(!r.covers(InstrId(1)));
    assert_eq!(r.get_intersection(&range(4, 8)), Some(InstrId(4)));
    assert_eq!(r.get_intersection(&range(0, 3)), Some(InstrId(2)));
    assert_eq!(r.get_intersection(&range(5, 7)), None);
    assert_eq!(r.get_intersection(&range(0, 2)), None);
}

#[test]
fn add_range_merges_touching_ranges() {
    let mut g: Graph<K> = Graph::new();
    let id = Interval::new(&mut g, 0);
    let iv = g.get_mut_interval(&id);
    iv.add_range(InstrId(4), InstrId(6));
    iv.add_range(InstrId(2), InstrId(4));
    assert_eq!(iv.ranges, vec![range(2, 6)]);
    iv.add_range(InstrId(0), InstrId(1));
    assert_eq!(iv.ranges, vec![range(0, 1), range(2, 6)]);
    assert_eq!(iv.start(), InstrId(0));
    assert_eq!(iv.end(), InstrId(6));
    assert!(iv.covers(InstrId(3)));
    assert!(!iv.covers(InstrId(1)));
}

#[test]
fn uses_are_found_in_order() {
    let mut g: Graph<K> = Graph::new();
    let id = Interval::new(&mut g, 0);
    let iv = g.get_mut_interval(&id);
    iv.add_use(UseKind::UseAny(0), InstrId(8));
    iv.add_use(UseKind::UseFixed(0, 1), InstrId(6));
    iv.add_use(UseKind::UseRegister(0), InstrId(3));
    iv.add_use(UseKind::UseAny(0), InstrId(1));
    assert_eq!(iv.uses[0], Use { kind: UseKind::UseAny(0), pos: InstrId(1) });
    assert_eq!(iv.next_use(InstrId(0)).map(|u| u.pos), Some(InstrId(3)));
    assert_eq!(iv.next_use(InstrId(4)).map(|u| u.pos), Some(InstrId(6)));
    assert_eq!(iv.next_use(InstrId(7)), None);
    assert_eq!(iv.next_fixed_use(InstrId(0)).map(|u| u.pos), Some(InstrId(6)));
    assert_eq!(iv.last_use(InstrId(5)).map(|u| u.pos), Some(InstrId(3)));
    assert_eq!(iv.last_use(InstrId(2)), None);
}

#[test]
fn bitset_union_and_difference() {
    let mut a = BitSet::new();
    a.insert(1);
    a.insert(4);
    let mut b = BitSet::new();
    b.insert(4);
    b.insert(7);
    assert_eq!(a.union(&b).to_vec(), vec![1, 4, 7]);
    assert_eq!(a.difference(&b).to_vec(), vec![1]);
    assert!(a.contains(4));
    assert!(!a.contains(7));
    assert!(!a.insert(4));
    assert!(a.insert(5));
    let c = a.copy();
    assert!(c.same(&a));
}

#[test]
fn spill_slots_are_reused() {
    let mut st = AllocatorState {
        group: 0,
        register_count: 2,
        spill_count: 0,
        spills: vec![],
        unhandled: vec![],
        active: vec![],
        inactive: vec![],
    };
    assert_eq!(st.get_spill(), Value::StackVal(0, StackId(0)));
    assert_eq!(st.get_spill(), Value::StackVal(0, StackId(1)));
    st.to_handled(Value::RegisterVal(0, 1));
    st.to_handled(Value::StackVal(0, StackId(0)));
    assert_eq!(st.get_spill(), Value::StackVal(0, StackId(0)));
    assert_eq!(st.get_spill(), Value::StackVal(0, StackId(2)));
    assert_eq!(st.spill_count, 3);
}

/// Three intervals in registers 0, 1 and 2 of group 0.
fn three_registers() -> Graph<K> {
    let mut g: Graph<K> = Graph::new();
    for r in 0..3 {
        let id = Interval::new(&mut g, 0);
        g.get_mut_interval(&id).value = Value::RegisterVal(0, r);
    }
    g
}

#[test]
fn gap_cycle_becomes_swap() {
    let g = three_registers();
    let res = g.resolve_gap(&vec![mv(0, 1), mv(1, 0)]).unwrap();
    assert_eq!(res, vec![GapAction { kind: GapActionKind::Swap, from: IntervalId(0), to: IntervalId(1) }]);
}

#[test]
fn gap_chain_is_ordered() {
    let g = three_registers();
    // 0 -> 1 must wait until 1 -> 2 has read register 1
    let res = g.resolve_gap(&vec![mv(0, 1), mv(1, 2)]).unwrap();
    assert_eq!(res, vec![mv(1, 2), mv(0, 1)]);
}

#[test]
fn gap_drops_moves_within_one_location() {
    let mut g = three_registers();
    g.get_mut_interval(&IntervalId(2)).value = Value::RegisterVal(0, 0);
    let res = g.resolve_gap(&vec![mv(0, 2), mv(1, 0)]).unwrap();
    assert_eq!(res, vec![mv(1, 0)]);
}

/// Intervals 0..n in registers 0..n of group 0.
fn registers(n: usize) -> Graph<K> {
    let mut g: Graph<K> = Graph::new();
    for r in 0..n {
        let id = Interval::new(&mut g, 0);
        g.get_mut_interval(&id).value = Value::RegisterVal(0, r);
    }
    g
}

/// Run moves and swaps in order on registers holding `start`.
fn run_in_order(res: &[GapAction], start: &[i64]) -> Vec<i64> {
    let mut regs = start.to_vec();
    for a in res {
        match a.kind {
            GapActionKind::Move => regs[a.to.0] = regs[a.from.0],
            GapActionKind::Swap => regs.swap(a.from.0, a.to.0),
        }
    }
    regs
}

/// Run moves all at once on registers holding `start`.
fn run_at_once(moves: &[GapAction], start: &[i64]) -> Vec<i64> {
    let mut regs = start.to_vec();
    for a in moves {
        regs[a.to.0] = start[a.from.0];
    }
    regs
}

#[test]
fn gap_tree_of_moves_runs_as_parallel() {
    let g = registers(5);
    let moves = vec![mv(3, 4), mv(0, 1), mv(1, 3), mv(1, 2)];
    let res = g.resolve_gap(&moves).unwrap();
    let start = [10, 11, 12, 13, 14];
    assert_eq!(run_in_order(&res, &start), run_at_once(&moves, &start));
    assert_eq!(run_in_order(&res, &start), vec![10, 10, 11, 11, 13]);
}

#[test]
fn gap_cycle_of_three_runs_as_parallel() {
    let g = registers(3);
    let moves = vec![mv(0, 1), mv(1, 2), mv(2, 0)];
    let res = g.resolve_gap(&moves).unwrap();
    let start = [10, 11, 12];
    assert_eq!(run_in_order(&res, &start), run_at_once(&moves, &start));
}

#[test]
fn gap_cycle_with_branch_reads_after_swap() {
    // A register on a cycle that a further move also reads: the swap of the
    // cycle comes before that move, which then reads the swapped value.
    let g = registers(4);
    let moves = vec![mv(0, 1), mv(1, 2), mv(2, 0), mv(1, 3)];
    let res = g.resolve_gap(&moves).unwrap();
    let swap = |a: usize, b: usize| GapAction { kind: GapActionKind::Swap, from: IntervalId(a), to: IntervalId(b) };
    assert_eq!(res, vec![swap(1, 2), mv(1, 3), swap(0, 1)]);
    let start = [10, 11, 12, 13];
    assert_eq!(run_in_order(&res, &start), vec![12, 10, 11, 12]);
    assert_eq!(run_at_once(&moves, &start), vec![12, 10, 11, 11]);
}

#[test]
fn gap_refuses_swaps_as_input() {
    let g = three_registers();
    let swap = GapAction { kind: GapActionKind::Swap, from: IntervalId(0), to: IntervalId(1) };
    assert_eq!(g.resolve_gap(&vec![swap]), Err("Expected move".to_owned()));
}

/// One interval with a range and the given location and use.
fn one_use(value: Value, kind: UseKind) -> Graph<K> {
    let mut g: Graph<K> = Graph::new();
    let id = Interval::new(&mut g, 0);
    let iv = g.get_mut_interval(&id);
    iv.value = value;
    iv.add_range(InstrId(0), InstrId(2));
    iv.add_use(kind, InstrId(1));
    g
}

#[test]
fn verify_reports_each_fault() {
    let g = one_use(Value::VirtualVal(0), UseKind::UseAny(0));
    assert_eq!(g.verify(), Err("interval without a location".to_owned()));
    let g = one_use(Value::StackVal(0, StackId(0)), UseKind::UseRegister(0));
    assert_eq!(g.verify(), Err("Register expected".to_owned()));
    let g = one_use(Value::RegisterVal(0, 0), UseKind::UseFixed(0, 1));
    assert_eq!(g.verify(), Err("Expected fixed register".to_owned()));
    let g = one_use(Value::RegisterVal(0, 0), UseKind::UseAny(1));
    assert_eq!(g.verify(), Err("use of another group".to_owned()));
    let g = one_use(Value::RegisterVal(0, 1), UseKind::UseFixed(0, 1));
    assert_eq!(g.verify(), Ok(()));
    let g = one_use(Value::StackVal(0, StackId(3)), UseKind::UseAny(0));
    assert_eq!(g.verify(), Ok(()));
}

#[test]
fn allocation_gives_every_live_value_a_location() {
    let mut g = straight_line();
    let res = g.allocate(Config { register_groups: vec![4] }).unwrap();
    assert_eq!(res.spill_count, vec![0]);
    assert_eq!(g.verify(), Ok(()));
    for iv in g.intervals.iter() {
        if iv.ranges.len() > 0 {
            assert!(!iv.value.is_virtual());
        }
    }
}

#[test]
fn fixed_uses_get_their_registers() {
    let mut g: Graph<K> = Graph::new();
    let mut xs = Vec::new();
    g.block(|b: &mut BlockBuilder<K>| {
        b.make_root();
        let x = b.add(K::Const, vec![]);
        let y = b.add(K::Const, vec![]);
        b.add(K::FixedA, vec![y, x]);
        xs.push(x);
        xs.push(y);
        b.end();
    });
    g.allocate(Config { register_groups: vec![2] }).unwrap();
    // after flattening, find the FixedA instruction and its inputs' places
    let fixed = g.instructions.iter().find(|i| matches!(i.kind, InstrKind::User(K::FixedA))).unwrap();
    let pos = fixed.id;
    let first = g.get_output(&fixed.inputs[0]);
    let second = g.get_output(&fixed.inputs[1]);
    assert_eq!(g.get_value(&first, pos), Some(Value::RegisterVal(0, 0)));
    assert_eq!(g.get_value(&second, pos), Some(Value::RegisterVal(0, 1)));
}

#[test]
fn allocation_without_registers_is_impossible() {
    let mut g: Graph<K> = Graph::new();
    g.block(|b: &mut BlockBuilder<K>| {
        b.make_root();
        let x = b.add(K::Const, vec![]);
        b.add(K::Effect, vec![x]);
        b.end();
    });
    let res = g.allocate(Config { register_groups: vec![0] });
    assert_eq!(res.err(), Some("Incorrect input, allocation impossible".to_owned()));
}

#[test]
fn call_spills_values_live_across_it() {
    let mut g: Graph<K> = Graph::new();
    g.block(|b: &mut BlockBuilder<K>| {
        b.make_root();
        let x = b.add(K::Const, vec![]);
        let c = b.add(K::Call, vec![]);
        let s = b.add(K::Add, vec![x, c]);
        b.add(K::Ret, vec![s]);
        b.end();
    });
    let res = g.allocate(Config { register_groups: vec![2] }).unwrap();
    assert_eq!(res.spill_count, vec![1]);
    assert_eq!(g.verify(), Ok(()));
    // the one stack slot counted is the one slot held, and every register
    // lies in the group
    let mut slots = Vec::new();
    for iv in g.intervals.iter() {
        match iv.value {
            Value::StackVal(0, StackId(s)) => slots.push(s),
            Value::RegisterVal(0, r) => assert!(r < 2),
            _ => {},
        }
    }
    assert!(!slots.is_empty());
    assert!(slots.iter().all(|s| *s == 0));
}

#[test]
fn flattening_puts_gaps_around_instructions() {
    let mut g = straight_line();
    g.prepare().unwrap();
    let block = &g.blocks[0];
    assert_eq!(block.instructions.len(), 9);
    for (k, id) in block.instructions.iter().enumerate() {
        assert_eq!(id.0, k);
        assert_eq!(g.is_gap(id), k % 2 == 0);
    }
}

#[test]
fn loop_header_needs_the_phi() {
    let mut g: Graph<K> = Graph::new();
    let phi = g.phi(0);
    let head = g.empty_block();
    let body = g.empty_block();
    let exit = g.empty_block();
    g.block(|b: &mut BlockBuilder<K>| {
        b.make_root();
        let zero = b.add(K::Const, vec![]);
        b.to_phi(zero, phi);
        b.goto(head);
    });
    g.with_block(head, |b: &mut BlockBuilder<K>| {
        b.add(K::Effect, vec![phi]);
        b.branch(body, exit);
    });
    g.with_block(body, |b: &mut BlockBuilder<K>| {
        let next = b.add(K::Add, vec![phi]);
        b.to_phi(next, phi);
        b.goto(head);
    });
    g.with_block(exit, |b: &mut BlockBuilder<K>| {
        b.add(K::Ret, vec![phi]);
        b.end();
    });
    g.prepare().unwrap();
    let phi_value = g.get_output(g.phis.last().unwrap());
    // the loop header is the second block in the flat order
    assert!(g.blocks[1].live_in.contains(phi_value.0));
    assert!(!g.blocks[0].live_in.contains(phi_value.0));
    g.allocate(Config { register_groups: vec![3] }).unwrap();
    assert_eq!(g.verify(), Ok(()));
}

#[test]
fn dead_code_is_dropped() {
    let mut g: Graph<K> = Graph::new();
    let mut kept = Vec::new();
    g.block(|b: &mut BlockBuilder<K>| {
        b.make_root();
        let x = b.add(K::Const, vec![]);
        let _unused = b.add(K::Const, vec![]);
        let s = b.add(K::Add, vec![x]);
        let r = b.add(K::Ret, vec![s]);
        kept.push(x);
        kept.push(s);
        kept.push(r);
        b.end();
    });
    g.eliminate_dead_code().unwrap();
    assert_eq!(g.blocks[0].instructions, kept);
}

#[test]
fn dead_code_runs_before_allocation() {
    let mut g = straight_line();
    g.allocate(Config { register_groups: vec![4] }).unwrap();
    assert_eq!(g.eliminate_dead_code(), Err("DCE should run before allocation".to_owned()));
}

#[test]
fn events_follow_the_program() {
    let mut g = straight_line();
    g.allocate(Config { register_groups: vec![4] }).unwrap();
    let ev = g.generate_events().unwrap();
    assert!(matches!(ev[0], GenEvent::Prelude));
    assert!(matches!(ev[1], GenEvent::Block(BlockId(0))));
    assert!(matches!(ev[ev.len() - 1], GenEvent::Epilogue));
    let instrs = ev.iter().filter(|e| matches!(e, GenEvent::Instr(..))).count();
    assert_eq!(instrs, 4);
}

#[test]
fn split_moves_the_tail_to_a_child() {
    let mut g = straight_line();
    g.prepare().unwrap();
    let list = g.get_block_list();
    g.build_ranges(&list, &Config { register_groups: vec![4] }).unwrap();
    // the first constant is defined at 1 and read by the sum at 5
    let x = g.get_output(&InstrId(1));
    assert_eq!(g.intervals[x.0].ranges, vec![range(1, 5)]);
    let child = g.split_at(&x, InstrId(4)).unwrap();
    assert_eq!(g.intervals[x.0].ranges, vec![range(1, 4)]);
    assert_eq!(g.intervals[child.0].ranges, vec![range(4, 5)]);
    assert_eq!(g.intervals[child.0].parent, Some(x));
    assert_eq!(g.intervals[x.0].children, vec![child]);
    assert_eq!(g.intervals[child.0].uses[0].pos, InstrId(5));
    assert_eq!(g.child_at(&x, InstrId(2)), Some(x));
    assert_eq!(g.child_at(&x, InstrId(4)), Some(child));
    // a move into the child waits in the gap at the split
    assert_eq!(g.gaps[4].actions, vec![mv(x.0, child.0)]);
    // a split that would not make progress is refused
    assert!(g.split_at(&x, InstrId(1)).is_err());
}

#[test]
fn split_positions_stay_in_range() {
    let mut g = straight_line();
    g.prepare().unwrap();
    assert_eq!(g.optimal_split_pos(0, InstrId(3), InstrId(3)), Ok(InstrId(3)));
    assert!(g.optimal_split_pos(0, InstrId(5), InstrId(3)).is_err());
    let p = g.optimal_split_pos(0, InstrId(1), InstrId(7)).unwrap();
    assert!(InstrId(1) < p && p <= InstrId(7));
}

#[test]
fn malformed_graph_is_refused() {
    let mut g = straight_line();
    g.intervals[0].id = IntervalId(5);
    assert_eq!(g.allocate(Config { register_groups: vec![4] }).err(), Some("malformed graph".to_owned()));
}

#[test]
fn hint_of_another_group_is_refused() {
    let mut g: Graph<K> = Graph::new();
    let a = Interval::new(&mut g, 0);
    let b = Interval::new(&mut g, 1);
    g.get_mut_interval(&b).value = Value::RegisterVal(1, 0);
    g.get_mut_interval(&a).hint = Some(b);
    assert!(g.get_hint(a).is_err());
    g.get_mut_interval(&b).value = Value::RegisterVal(0, 2);
    assert_eq!(g.get_hint(a), Ok(Some(2)));
}

/// An interval of group 0 with one range and the given location.
fn interval_with(g: &mut Graph<K>, start: usize, end: usize, value: Value) -> IntervalId {
    let id = Interval::new(g, 0);
    let iv = g.get_mut_interval(&id);
    iv.add_range(InstrId(start), InstrId(end));
    iv.value = value;
    id
}

fn state(active: Vec<IntervalId>, inactive: Vec<IntervalId>, registers: usize) -> AllocatorState {
    AllocatorState {
        group: 0,
        register_count: registers,
        spill_count: 0,
        spills: vec![],
        unhandled: vec![],
        active,
        inactive,
    }
}

#[test]
fn free_register_for_the_whole_lifetime_is_taken() {
    let mut g: Graph<K> = Graph::new();
    let current = interval_with(&mut g, 2, 6, Value::VirtualVal(0));
    let a = interval_with(&mut g, 0, 10, Value::RegisterVal(0, 0));
    let b = interval_with(&mut g, 4, 8, Value::RegisterVal(0, 1));
    let mut st = state(vec![a], vec![b], 3);
    // register 0 is taken, register 1 is needed again at 4, register 2 is free
    assert_eq!(g.allocate_free_reg(current, &mut st), Ok(true));
    assert_eq!(g.intervals[current.0].value, Value::RegisterVal(0, 2));
}

#[test]
fn hinted_register_wins_among_equals() {
    let mut g: Graph<K> = Graph::new();
    let current = interval_with(&mut g, 2, 6, Value::VirtualVal(0));
    let a = interval_with(&mut g, 0, 10, Value::RegisterVal(0, 0));
    let hinted = interval_with(&mut g, 0, 2, Value::RegisterVal(0, 2));
    g.get_mut_interval(&current).hint = Some(hinted);
    let mut st = state(vec![a], vec![], 3);
    assert_eq!(g.allocate_free_reg(current, &mut st), Ok(true));
    assert_eq!(g.intervals[current.0].value, Value::RegisterVal(0, 2));
}

#[test]
fn no_free_register_changes_nothing() {
    let mut g: Graph<K> = Graph::new();
    let current = interval_with(&mut g, 2, 6, Value::VirtualVal(0));
    let a = interval_with(&mut g, 0, 10, Value::RegisterVal(0, 0));
    let mut st = state(vec![a], vec![], 1);
    assert_eq!(g.allocate_free_reg(current, &mut st), Ok(false));
    assert_eq!(g.intervals[current.0].value, Value::VirtualVal(0));
}

#[test]
fn blocked_interval_without_register_uses_is_spilled() {
    let mut g: Graph<K> = Graph::new();
    let current = interval_with(&mut g, 2, 6, Value::VirtualVal(0));
    let a = interval_with(&mut g, 0, 10, Value::RegisterVal(0, 0));
    let mut st = state(vec![a], vec![], 1);
    assert_eq!(g.allocate_blocked_reg(current, &mut st), Ok(()));
    assert_eq!(g.intervals[current.0].value, Value::StackVal(0, StackId(0)));
    assert_eq!(st.spill_count, 1);
}

#[test]
fn local_liveness_refuses_an_input_without_output() {
    let mut g: Graph<K> = Graph::new();
    g.block(|b: &mut BlockBuilder<K>| {
        b.make_root();
        let e = b.add(K::Effect, vec![]);
        b.add(K::Add, vec![e]);
        b.end();
    });
    assert_eq!(g.build_local(&vec![BlockId(0)]), Err("Instruction output".to_owned()));
}

#[test]
fn local_liveness_collects_reads_and_definitions() {
    let mut g = straight_line();
    assert_eq!(g.build_local(&vec![BlockId(0)]), Ok(()));
    // every value is defined in the block, so none is read before it is
    // defined
    let out_x = g.instructions[0].output.unwrap();
    assert!(g.blocks[0].live_kill.contains(out_x.0));
    assert!(!g.blocks[0].live_gen.contains(out_x.0));
}

#[test]
fn block_renumbering_needs_every_successor() {
    let mut g: Graph<K> = Graph::new();
    let next = g.empty_block();
    g.block(|b: &mut BlockBuilder<K>| {
        b.make_root();
        b.add(K::Const, vec![]);
        b.goto(next);
    });
    g.with_block(next, |b: &mut BlockBuilder<K>| {
        b.add(K::Effect, vec![]);
        b.end();
    });
    let root = BlockId(1);
    assert!(g.flatten_reindex_blocks(&vec![root]).is_err());

    let mut g2: Graph<K> = Graph::new();
    let next2 = g2.empty_block();
    g2.block(|b: &mut BlockBuilder<K>| {
        b.make_root();
        b.add(K::Const, vec![]);
        b.goto(next2);
    });
    g2.with_block(next2, |b: &mut BlockBuilder<K>| {
        b.add(K::Effect, vec![]);
        b.end();
    });
    let ids = g2.flatten_reindex_blocks(&vec![root, next2]).unwrap();
    assert_eq!(ids, vec![BlockId(0), BlockId(1)]);
    assert_eq!(g2.root, Some(BlockId(0)));
    assert_eq!(g2.blocks[0].successors, vec![BlockId(1)]);
    assert_eq!(g2.blocks[1].predecessors, vec![BlockId(0)]);
}

#[test]
fn branch_may_name_one_target_twice() {
    let mut g: Graph<K> = Graph::new();
    let next = g.empty_block();
    g.block(|b: &mut BlockBuilder<K>| {
        b.make_root();
        b.add(K::Const, vec![]);
        b.branch(next, next);
    });
    let root = g.root.unwrap();
    assert_eq!(g.blocks[root.0].successors, vec![next, next]);
    assert_eq!(g.blocks[next.0].predecessors, vec![root, root]);
    assert_eq!(g.blocks[next.0].incoming_forward_branches, 2);
}

#[test]
fn liveness_of_one_block_needs_nothing_from_outside() {
    let mut g = straight_line();
    g.prepare().unwrap();
    // the least solution: nothing flows into the only block
    assert!(g.blocks[0].live_in.to_vec().is_empty());
    assert!(g.blocks[0].live_out.to_vec().is_empty());
}

#[test]
fn events_refuse_an_output_without_result_kind() {
    let mut g = straight_line();
    g.prepare().unwrap();
    // position 1 holds the first constant, which has an output
    assert!(g.instructions[1].output.is_some());
    assert_eq!(g.instr_events_with(1, None, false).err(), Some("output without a result kind".to_owned()));
    // the gap that opens the block starts it
    let ev = g.instr_events_with(0, None, false).unwrap();
    assert!(matches!(ev[0], GenEvent::Block(BlockId(0))));
}

#[test]
fn allocated_registers_never_meet() {
    let mut g = straight_line();
    g.allocate(Config { register_groups: vec![2] }).unwrap();
    assert_eq!(g.check_no_conflict(), Ok(()));
    // two intervals that share a position, forced into one register
    let mut a = None;
    let mut b = None;
    for (i, x) in g.intervals.iter().enumerate() {
        for (j, y) in g.intervals.iter().enumerate() {
            if i < j && !x.fixed && !y.fixed && a.is_none() {
                let meet = x.ranges.iter().any(|r| y.ranges.iter().any(|q| r.start.0 < q.end.0 && q.start.0 < r.end.0
                    && r.start.0 < r.end.0 && q.start.0 < q.end.0));
                if meet {
                    a = Some(i);
                    b = Some(j);
                }
            }
        }
    }
    let (a, b) = (a.unwrap(), b.unwrap());
    g.intervals[a].value = Value::RegisterVal(0, 1);
    g.intervals[b].value = Value::RegisterVal(0, 1);
    assert!(g.check_no_conflict().is_err());
}

#[test]
fn data_flow_moves_need_instructions_in_every_block() {
    let mut g: Graph<K> = Graph::new();
    let next = g.empty_block();
    g.block(|b: &mut BlockBuilder<K>| {
        b.make_root();
        b.add(K::Const, vec![]);
        b.goto(next);
    });
    // the target block has no instruction
    let root = g.root.unwrap();
    assert!(g.resolve_data_flow(&vec![root]).is_err());
    assert!(g.resolve_data_flow(&vec![]).is_ok());
}
