use lib::{Allocator, BlockBuilder, Config, Graph, KindHelper, UseKind};

#[derive(Clone, Copy, Debug, PartialEq, Eq)]
enum Kind {
    Phi,
    Increment,
    BranchIfBigger,
    AB,
    JustUse,
    Print,
    Zero,
    Ten,
    Goto,
    Return,
}

impl KindHelper for Kind {
    fn clobbers(&self, _group: usize) -> bool {
        matches!(self, Kind::Print)
    }

    fn temporary(&self) -> Vec<usize> {
        match self {
            Kind::BranchIfBigger => vec![0],
            _ => vec![],
        }
    }

    fn use_kind(&self, i: usize) -> UseKind {
        match self {
            Kind::BranchIfBigger if i == 0 => UseKind::UseFixed(0, 2),
            Kind::AB => UseKind::UseFixed(0, i),
            Kind::JustUse => UseKind::UseFixed(0, 1),
            Kind::Print => UseKind::UseFixed(0, 3),
            Kind::Return => UseKind::UseFixed(0, 0),
            _ => UseKind::UseAny(0),
        }
    }

    fn result_kind(&self) -> Option<UseKind> {
        match self {
            Kind::Goto => None,
            Kind::Return => None,
            Kind::BranchIfBigger => None,
            Kind::JustUse => None,
            Kind::AB => None,
            _ => Some(UseKind::UseRegister(0)),
        }
    }
}

/// Build a graph with `body` and allocate four registers.
fn graph_test<F: FnOnce(&mut Graph<Kind>)>(body: F) -> Graph<Kind> {
    let mut g: Graph<Kind> = Graph::new();
    body(&mut g);
    g.allocate(Config { register_groups: vec![4] }).unwrap();
    g
}

#[test]
fn tests_realword_example() {
    graph_test(|g| {
        let phi = g.phi(0);

        let cond = g.empty_block();
        let left = g.empty_block();
        let after_left = g.empty_block();
        let right = g.empty_block();
        let ret = g.new_instr(Kind::Zero, vec![]);

        g.block(|b: &mut BlockBuilder<Kind>| {
            b.make_root();

            b.add_existing(ret);
            let zero = b.add(Kind::Zero, vec![]);
            b.to_phi(zero, phi);
            b.add(Kind::Goto, vec![]);
            b.goto(cond);
        });

        g.with_block(cond, |b: &mut BlockBuilder<Kind>| {
            let ten = b.add(Kind::Ten, vec![]);
            b.add(Kind::JustUse, vec![phi]);
            b.add(Kind::BranchIfBigger, vec![phi, ten]);
            b.branch(left, right);
        });

        g.with_block(left, |b: &mut BlockBuilder<Kind>| {
            let print_res = b.add(Kind::Print, vec![phi]);
            b.add(Kind::Increment, vec![print_res]);
            b.add(Kind::Goto, vec![]);
            b.goto(after_left);
        });

        g.with_block(after_left, |b: &mut BlockBuilder<Kind>| {
            let counter = b.add(Kind::Increment, vec![phi]);
            b.to_phi(counter, phi);
            b.add(Kind::Goto, vec![]);
            b.goto(cond);
        });

        g.with_block(right, |b: &mut BlockBuilder<Kind>| {
            b.add(Kind::Return, vec![ret]);
            b.end();
        });
    });
}
