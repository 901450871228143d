use vstd::prelude::*;
use crate::api::KindHelper;
use crate::graph::{Graph, Value, InstrKind, GapAction, GapActionKind, Block, UseKind};
use crate::ids::{BlockId, InstrId};

verus! {

/// One call of code generation, in the order of the program.
pub enum GenEvent {
    Prelude,
    Epilogue,
    Swap(Value, Value),
    Move(Value, Value),
    Block(BlockId),
    Goto(BlockId),
    /// A user instruction with the locations of its output, its inputs and
    /// its temporaries.
    Instr(InstrId, Option<Value>, Vec<Value>, Vec<Value>),
}

/// Code generation over an allocated graph.
pub trait Generator<K, G> {
    fn generate(&self, g: &mut G) -> Result<(), String>;
}

/// What a code generator does at each step.
pub trait GeneratorFunctions<K> {
    /// Function prologue (stack initialization, etc).
    fn prelude(&mut self);

    /// Function epilogue; called at the end of every block without
    /// successors.
    fn epilogue(&mut self);

    /// Swap the values of `left` and `right`.
    fn swap(&mut self, left: &Value, right: &Value);

    /// Move the value of `from` to `to`.
    fn move_value(&mut self, from: &Value, to: &Value);

    /// A block starts here (to place labels).
    fn block(&mut self, id: BlockId);

    /// Jump to a block.
    fn goto(&mut self, id: BlockId);

    /// A user instruction.
    fn instr(
        &mut self,
        kind: &K,
        output: Option<Value>,
        inputs: &[Value],
        temporary: &[Value],
        succ: &[BlockId],
    );
}

/// An event that names no user instruction of the graph placed in a block.
pub open spec fn emit_refused<K>(g: &Graph<K>, e: GenEvent) -> bool {
    match e {
        GenEvent::Instr(id, _, _, _) => {
            ||| id.0 >= g.ni()
            ||| g.instructions@[id.0 as int].block.0 >= g.nb()
            ||| !(g.instructions@[id.0 as int].kind is User)
        },
        _ => false,
    }
}

/// Events that the code generator accepts, each of them.
pub open spec fn all_emittable<K>(g: &Graph<K>, s: Seq<GenEvent>) -> bool {
    forall|k: int| 0 <= k < s.len() ==> !emit_refused(g, #[trigger] s[k])
}

proof fn lemma_emittable_concat<K>(g: &Graph<K>, a: Seq<GenEvent>, b: Seq<GenEvent>)
    requires
        all_emittable(g, a),
        all_emittable(g, b),
    ensures
        all_emittable(g, a + b),
{
    assert forall|k: int| 0 <= k < (a + b).len() implies !emit_refused(g, #[trigger] (a + b)[k]) by {
        if k < a.len() {
            assert((a + b)[k] == a[k]);
        } else {
            assert((a + b)[k] == b[k - a.len()]);
        }
    }
}

/// Some input of instruction `i` has no location there.
pub open spec fn input_missing<K>(g: &Graph<K>, i: int) -> bool {
    exists|j: int| 0 <= j < g.instructions@[i].inputs@.len() && (#[trigger] input_value(g, i, j)) is None
}

/// Some temporary of instruction `i` has no location there.
pub open spec fn temp_missing<K>(g: &Graph<K>, i: int) -> bool {
    exists|j: int| 0 <= j < g.instructions@[i].temporary@.len() && (#[trigger] temp_value(g, i, j)) is None
}

/// The inputs on which the events of position `i` may be refused: its
/// block is missing or empty; a location it needs is missing; a phi move
/// has other than one input or no output; its block ends with more than
/// two successors; or it is a user instruction with an output, whose group
/// the user's kind gives.
pub open spec fn events_may_fail<K>(g: &Graph<K>, i: int) -> bool {
    let ins = g.instructions@[i];
    &&& !(ins.kind is Phi)
    &&& {
        ||| ins.block.0 >= g.nb()
        ||| block_of(g, i).instructions@.len() == 0
        ||| (ins.kind is User && ins.output is Some)
        ||| ((ins.kind is User || ins.kind is ToPhi) && (input_missing(g, i) || temp_missing(g, i)))
        ||| (ins.kind is ToPhi && (ins.inputs@.len() != 1 || output_value(g, i, false) is None))
        ||| (block_of(g, i).instructions@.last().0 == i && block_of(g, i).successors@.len() > 2)
    }
}

/// Whether the instruction at `i` is treated as a call, where `call` is
/// what its kind answers: only an instruction with an output that is not a
/// gap asks.
pub open spec fn eff_call<K>(g: &Graph<K>, i: int, call: bool) -> bool {
    !(g.instructions@[i].kind is Gap) && g.instructions@[i].output is Some && call
}

/// The inputs on which the events of position `i` are refused, where
/// `result` is what the kind of its instruction answers for its result and
/// `call` whether it clobbers that result's group: its block is missing or
/// empty; it has an output but its kind no result; a location it needs is
/// missing; a phi move has other than one input or no output location; or
/// its block ends with it and has more than two successors.
pub open spec fn events_fail_with<K>(g: &Graph<K>, i: int, result: Option<UseKind>, call: bool) -> bool {
    let ins = g.instructions@[i];
    &&& !(ins.kind is Phi)
    &&& {
        ||| ins.block.0 >= g.nb()
        ||| block_of(g, i).instructions@.len() == 0
        ||| ((ins.kind is User || ins.kind is ToPhi) && ins.output is Some && result is None)
        ||| ((ins.kind is User || ins.kind is ToPhi) && (input_missing(g, i) || temp_missing(g, i)))
        ||| (ins.kind is ToPhi && (ins.inputs@.len() != 1 || output_value(g, i, eff_call(g, i, call)) is None))
        ||| (block_of(g, i).instructions@.last().0 == i && block_of(g, i).successors@.len() > 2)
    }
}

/// The events of position `i`, `call` telling whether its instruction
/// clobbers its result's group: none for a phi; else the start of its
/// block, the moves of its gap, its own events and the end of its block.
pub open spec fn events_with<K>(g: &Graph<K>, i: int, call: bool, ev: Seq<GenEvent>) -> bool {
    if g.instructions@[i].kind is Phi {
        ev.len() == 0
    } else {
        exists|body: Seq<GenEvent>| #[trigger] body_ok(g, i, eff_call(g, i, call), body)
            && ev == start_events(g, i) + gap_events(g, i) + body + end_events(g, i)
    }
}

/// What the events of position `i` come to for the kind's answers
/// `result` and `call`: refused exactly on `events_fail_with`, else the
/// events of `events_with`.
pub open spec fn events_done<K>(g: &Graph<K>, i: int, result: Option<UseKind>, call: bool, r: Result<Vec<GenEvent>, String>) -> bool {
    &&& (r is Err <==> events_fail_with(g, i, result, call))
    &&& (r matches Ok(ev) ==> events_with(g, i, call, ev@))
}

/// A code generator, together with the events handed to it so far: each
/// of its methods here hands one event on to the generator's method of
/// the same name and records it.
pub struct Recorder<'a, K, GF> {
    pub inner: &'a mut GF,
    pub handed: Ghost<Seq<GenEvent>>,
    pub kind: core::marker::PhantomData<K>,
}

impl<'a, K, GF: GeneratorFunctions<K>> Recorder<'a, K, GF> {
    pub fn prelude(&mut self)
        ensures
            final(self).handed@ == old(self).handed@.push(GenEvent::Prelude),
    {
        self.inner.prelude();
        self.handed = Ghost(self.handed@.push(GenEvent::Prelude));
    }

    pub fn epilogue(&mut self)
        ensures
            final(self).handed@ == old(self).handed@.push(GenEvent::Epilogue),
    {
        self.inner.epilogue();
        self.handed = Ghost(self.handed@.push(GenEvent::Epilogue));
    }

    pub fn swap(&mut self, left: &Value, right: &Value)
        ensures
            final(self).handed@ == old(self).handed@.push(GenEvent::Swap(*left, *right)),
    {
        self.inner.swap(left, right);
        self.handed = Ghost(self.handed@.push(GenEvent::Swap(*left, *right)));
    }

    pub fn move_value(&mut self, from: &Value, to: &Value)
        ensures
            final(self).handed@ == old(self).handed@.push(GenEvent::Move(*from, *to)),
    {
        self.inner.move_value(from, to);
        self.handed = Ghost(self.handed@.push(GenEvent::Move(*from, *to)));
    }

    pub fn block(&mut self, id: BlockId)
        ensures
            final(self).handed@ == old(self).handed@.push(GenEvent::Block(id)),
    {
        self.inner.block(id);
        self.handed = Ghost(self.handed@.push(GenEvent::Block(id)));
    }

    pub fn goto(&mut self, id: BlockId)
        ensures
            final(self).handed@ == old(self).handed@.push(GenEvent::Goto(id)),
    {
        self.inner.goto(id);
        self.handed = Ghost(self.handed@.push(GenEvent::Goto(id)));
    }

    /// Hand on the user instruction of event `ev`, with its kind, the
    /// locations that the event names and the successors of its block.
    pub fn instr(
        &mut self,
        ev: Ghost<GenEvent>,
        kind: &K,
        output: Option<Value>,
        inputs: &[Value],
        temporary: &[Value],
        succ: &[BlockId],
    )
        requires
            ev@ matches GenEvent::Instr(_, o, ins, tmps) && o == output && ins@ == inputs@ && tmps@ == temporary@,
        ensures
            final(self).handed@ == old(self).handed@.push(ev@),
    {
        self.inner.instr(kind, output, inputs, temporary, succ);
        self.handed = Ghost(self.handed@.push(ev@));
    }
}

/// Code generation of the moves of one gap.
pub trait GeneratorHelper<K, GF> {
    fn generate_gap(&self, g: &mut GF, id: &InstrId) -> Result<(), String>;
}

/// The event of one gap action, with the locations of its intervals.
pub open spec fn gap_event<K>(g: &Graph<K>, a: GapAction) -> GenEvent {
    let from = g.intervals@[a.from.0 as int].value;
    let to = g.intervals@[a.to.0 as int].value;
    match a.kind {
        GapActionKind::Swap => GenEvent::Swap(from, to),
        GapActionKind::Move => GenEvent::Move(from, to),
    }
}

/// The events of the gap actions at position `p`.
pub open spec fn gap_events<K>(g: &Graph<K>, p: int) -> Seq<GenEvent> {
    Seq::new(g.gap_actions(p).len(), |k: int| gap_event(g, g.gap_actions(p)[k]))
}

pub open spec fn block_of<K>(g: &Graph<K>, i: int) -> Block {
    g.blocks@[g.instructions@[i].block.0 as int]
}

/// A block starts at its first instruction.
pub open spec fn start_events<K>(g: &Graph<K>, i: int) -> Seq<GenEvent> {
    if block_of(g, i).instructions@[0].0 == i {
        seq![GenEvent::Block(block_of(g, i).id)]
    } else {
        seq![]
    }
}

/// After the last instruction of a block: the epilogue where it has no
/// successor, a jump where its one successor does not follow it.
pub open spec fn end_events<K>(g: &Graph<K>, i: int) -> Seq<GenEvent> {
    let b = block_of(g, i);
    if b.instructions@.last().0 == i {
        if b.successors@.len() == 0 {
            seq![GenEvent::Epilogue]
        } else if b.successors@.len() == 1 && b.successors@[0].0 != b.id.0 + 1 {
            seq![GenEvent::Goto(b.successors@[0])]
        } else {
            seq![]
        }
    } else {
        seq![]
    }
}

/// The location of input `j` of instruction `i` there.
pub open spec fn input_value<K>(g: &Graph<K>, i: int, j: int) -> Option<Value> {
    match g.instructions@[g.instructions@[i].inputs@[j].0 as int].output {
        Some(o) => g.value_at(o, i),
        None => None,
    }
}

/// The location of temporary `j` of instruction `i` there.
pub open spec fn temp_value<K>(g: &Graph<K>, i: int, j: int) -> Option<Value> {
    g.value_at(g.instructions@[i].temporary@[j], i)
}

/// The location of the output of instruction `i`: right after it when it
/// is a call that clobbers the output's group.
pub open spec fn output_value<K>(g: &Graph<K>, i: int, call: bool) -> Option<Value> {
    match g.instructions@[i].output {
        Some(o) => g.value_at(o, if call { i + 1 } else { i }),
        None => None,
    }
}

pub open spec fn inputs_are<K>(g: &Graph<K>, i: int, vs: Seq<Value>) -> bool {
    &&& vs.len() == g.instructions@[i].inputs@.len()
    &&& forall|j: int| 0 <= j < vs.len() ==> Some(#[trigger] vs[j]) == input_value(g, i, j)
}

pub open spec fn temps_are<K>(g: &Graph<K>, i: int, vs: Seq<Value>) -> bool {
    &&& vs.len() == g.instructions@[i].temporary@.len()
    &&& forall|j: int| 0 <= j < vs.len() ==> Some(#[trigger] vs[j]) == temp_value(g, i, j)
}

/// The events of instruction `i` itself: none for a gap; a move of the
/// input to the output's location for a phi move (where they differ); the
/// instruction with its locations for a user instruction.
pub open spec fn body_ok<K>(g: &Graph<K>, i: int, call: bool, body: Seq<GenEvent>) -> bool {
    match g.instructions@[i].kind {
        InstrKind::Gap => body.len() == 0,
        InstrKind::Phi(_) => body.len() == 0,
        InstrKind::ToPhi(_) => {
            &&& g.instructions@[i].inputs@.len() == 1
            &&& input_value(g, i, 0) is Some
            &&& output_value(g, i, call) is Some
            &&& body == if output_value(g, i, call) == input_value(g, i, 0) {
                Seq::<GenEvent>::empty()
            } else {
                seq![GenEvent::Move(input_value(g, i, 0)->0, output_value(g, i, call)->0)]
            }
        },
        InstrKind::User(_) => {
            &&& body.len() == 1
            &&& body[0] matches GenEvent::Instr(id, o, ins, tmps) && id.0 == i && o == output_value(g, i, call)
                && inputs_are(g, i, ins@) && temps_are(g, i, tmps@)
        },
    }
}

/// The events of position `i`: phis have none; otherwise the start of its
/// block, the moves of its gap, its own events and the end of its block.
pub open spec fn events_ok<K>(g: &Graph<K>, i: int, ev: Seq<GenEvent>) -> bool {
    if g.instructions@[i].kind is Phi {
        ev.len() == 0
    } else {
        exists|call: bool, body: Seq<GenEvent>| #[trigger] body_ok(g, i, call, body)
            && ev == start_events(g, i) + gap_events(g, i) + body + end_events(g, i)
    }
}

/// The sequences of `parts`, one after the other.
pub open spec fn concat(parts: Seq<Seq<GenEvent>>) -> Seq<GenEvent>
    decreases parts.len(),
{
    if parts.len() == 0 {
        seq![]
    } else {
        concat(parts.drop_last()) + parts.last()
    }
}

fn append_events(dst: &mut Vec<GenEvent>, src: Vec<GenEvent>)
    ensures
        final(dst)@ == old(dst)@ + src@,
{
    let mut src = src;
    let ghost s0 = src@;
    let ghost d0 = dst@;
    let mut rest: Vec<GenEvent> = Vec::new();
    while src.len() > 0
        invariant
            src@.len() + rest@.len() == s0.len(),
            rest@ == s0.subrange(src@.len() as int, s0.len() as int),
            src@ == s0.subrange(0, src@.len() as int),
        decreases src.len(),
    {
        let e = src.pop().unwrap();
        rest.insert(0, e);
        assert(rest@ =~= s0.subrange(src@.len() as int, s0.len() as int));
    }
    while rest.len() > 0
        invariant
            dst@ + rest@ == d0 + s0,
        decreases rest.len(),
    {
        let e = rest.remove(0);
        dst.push(e);
        assert(dst@ + rest@ =~= d0 + s0);
    }
    assert(dst@ =~= d0 + s0);
}

impl<K: KindHelper> Graph<K> {
    /// The events of the gap actions at `id`.
    pub fn gap_events_at(&self, id: InstrId) -> (r: Vec<GenEvent>)
        requires
            self.wf(),
        ensures
            r@ == gap_events(self, id.0 as int),
    {
        let mut r: Vec<GenEvent> = Vec::new();
        if id.0 >= self.gaps.len() {
            assert(r@ =~= gap_events(self, id.0 as int));
            return r;
        }
        let actions = &self.gaps[id.0].actions;
        assert(crate::graph::gap_ok(self.gaps@[id.0 as int], self.nv()));
        let mut k: usize = 0;
        while k < actions.len()
            invariant
                k <= actions@.len(),
                *actions == self.gaps@[id.0 as int].actions,
                id.0 < self.gaps@.len(),
                crate::graph::gap_ok(self.gaps@[id.0 as int], self.nv()),
                r@.len() == k,
                forall|j: int| 0 <= j < k ==> #[trigger] r@[j] == gap_event(self, actions@[j]),
            decreases actions.len() - k,
        {
            let a = actions[k];
            let from = self.intervals[a.from.0].value;
            let to = self.intervals[a.to.0].value;
            match a.kind {
                GapActionKind::Swap => r.push(GenEvent::Swap(from, to)),
                GapActionKind::Move => r.push(GenEvent::Move(from, to)),
            }
            k = k + 1;
        }
        assert(r@ =~= gap_events(self, id.0 as int));
        r
    }

    /// The location of the output of instruction `i` and whether the
    /// instruction is a call that clobbers the output's group, where
    /// `result` is what its kind answers for its result and `call` whether
    /// the kind clobbers that result's group: refused when the instruction
    /// has an output but its kind no result.
    fn output_location_with(&self, i: usize, result: Option<UseKind>, call: bool) -> (r: Result<(Option<Value>, bool), String>)
        requires
            self.wf(),
            i < self.ni(),
        ensures
            self.instructions@[i as int].output is None ==> r == Ok::<(Option<Value>, bool), String>((None, false)),
            self.instructions@[i as int].output is Some ==> (r is Err <==> result is None),
            self.instructions@[i as int].output is Some ==> (r matches Ok((o, c)) ==> c == call
                && o == output_value(self, i as int, call)),
    {
        let instr = &self.instructions[i];
        match instr.output {
            Some(out) => {
                assert(crate::graph::instr_ok(self.instructions@[i as int], self.ni(), self.nv()));
                if result.is_none() {
                    return Err("output without a result kind".to_owned());
                }
                let pos = if call {
                    InstrId(i + 1)
                } else {
                    InstrId(i)
                };
                Ok((self.get_value(&out, pos), call))
            },
            None => Ok((None, false)),
        }
    }

    /// The events of position `i` of the program: the kind of its
    /// instruction is asked for its result and, where it has one, whether
    /// it clobbers that result's group; `instr_events_with` does the rest.
    pub fn instr_events(&self, i: usize) -> (r: Result<Vec<GenEvent>, String>)
        requires
            self.wf(),
            i < self.ni(),
        ensures
            r matches Ok(ev) ==> events_ok(self, i as int, ev@) && all_emittable(self, ev@),
            r is Err ==> events_may_fail(self, i as int),
            exists|result: Option<UseKind>, call: bool| {
                &&& (self.instructions@[i as int].kind is ToPhi && self.instructions@[i as int].output is Some
                    ==> result == Some(UseKind::UseAny(self.instructions@[i as int].kind->ToPhi_0)) && !call)
                &&& #[trigger] events_done(self, i as int, result, call, r)
            },
    {
        let instr = &self.instructions[i];
        let mut result: Option<UseKind> = None;
        let mut call = false;
        match instr.kind {
            InstrKind::Gap => {},
            InstrKind::Phi(_) => {},
            _ => {
                if instr.output.is_some() {
                    result = instr.kind.result_kind();
                    match result {
                        Some(k) => {
                            call = instr.kind.clobbers(k.group());
                        },
                        None => {},
                    }
                }
            },
        }
        let r = self.instr_events_with(i, result, call);
        proof {
            assert(events_done(self, i as int, result, call, r));
            if r is Ok {
                let ev = r->Ok_0;
                if !(self.instructions@[i as int].kind is Phi) {
                    let c = eff_call(self, i as int, call);
                    let body = choose|body: Seq<GenEvent>| #[trigger] body_ok(self, i as int, c, body)
                        && ev@ == start_events(self, i as int) + gap_events(self, i as int) + body + end_events(self, i as int);
                    assert(body_ok(self, i as int, c, body));
                }
            }
        }
        r
    }

    /// The events of position `i` of the program, where `result` is what
    /// the kind of its instruction answers for its result and `call`
    /// whether the kind clobbers that result's group.
    pub fn instr_events_with(&self, i: usize, result: Option<UseKind>, call: bool) -> (r: Result<Vec<GenEvent>, String>)
        requires
            self.wf(),
            i < self.ni(),
        ensures
            events_done(self, i as int, result, call, r),
            r matches Ok(ev) ==> all_emittable(self, ev@),
    {
        let instr = &self.instructions[i];
        if let InstrKind::Phi(_) = instr.kind {
            return Ok(Vec::new());
        }
        let b = instr.block.0;
        if b >= self.blocks.len() {
            return Err("instruction outside of the blocks".to_owned());
        }
        let block = &self.blocks[b];
        let n_instr = block.instructions.len();
        if n_instr == 0 {
            return Err("block without instructions".to_owned());
        }

        // The start of the block
        let mut ev: Vec<GenEvent> = Vec::new();
        if block.instructions[0].0 == i {
            ev.push(GenEvent::Block(block.id));
        }
        assert(ev@ == start_events(self, i as int));

        // The moves of the gap
        let gev = self.gap_events_at(InstrId(i));
        append_events(&mut ev, gev);

        // The instruction itself
        let mut body: Vec<GenEvent> = Vec::new();
        let mut effective = false;
        match instr.kind {
            InstrKind::Gap => {},
            InstrKind::Phi(_) => {},
            _ => {
                let (output, c) = match self.output_location_with(i, result, call) {
                    Ok(oc) => oc,
                    Err(e) => {
                        return Err(e);
                    },
                };
                effective = c;
                assert(crate::graph::instr_ok(self.instructions@[i as int], self.ni(), self.nv()));
                let mut inputs: Vec<Value> = Vec::new();
                let mut j: usize = 0;
                while j < instr.inputs.len()
                    invariant
                        self.wf(),
                        i < self.ni(),
                        *instr == self.instructions@[i as int],
                        instr.kind is User || instr.kind is ToPhi,
                        crate::graph::instr_ok(self.instructions@[i as int], self.ni(), self.nv()),
                        j <= instr.inputs@.len(),
                        inputs@.len() == j,
                        forall|k: int| 0 <= k < j ==> Some(#[trigger] inputs@[k]) == input_value(self, i as int, k),
                    decreases instr.inputs.len() - j,
                {
                    let input_instr = instr.inputs[j];
                    let out = match self.instructions[input_instr.0].output {
                        Some(o) => o,
                        None => {
                            assert(input_value(self, i as int, j as int) is None);
                            return Err("input without a value".to_owned());
                        },
                    };
                    assert(crate::graph::instr_ok(self.instructions@[input_instr.0 as int], self.ni(), self.nv()));
                    match self.get_value(&out, InstrId(i)) {
                        Some(v) => inputs.push(v),
                        None => {
                            assert(input_value(self, i as int, j as int) is None);
                            return Err("input".to_owned());
                        },
                    }
                    j = j + 1;
                }
                let mut temporary: Vec<Value> = Vec::new();
                let mut j: usize = 0;
                while j < instr.temporary.len()
                    invariant
                        self.wf(),
                        i < self.ni(),
                        *instr == self.instructions@[i as int],
                        instr.kind is User || instr.kind is ToPhi,
                        crate::graph::instr_ok(self.instructions@[i as int], self.ni(), self.nv()),
                        j <= instr.temporary@.len(),
                        temporary@.len() == j,
                        forall|k: int| 0 <= k < j ==> Some(#[trigger] temporary@[k]) == temp_value(self, i as int, k),
                    decreases instr.temporary.len() - j,
                {
                    match self.get_value(&instr.temporary[j], InstrId(i)) {
                        Some(v) => temporary.push(v),
                        None => {
                            assert(temp_value(self, i as int, j as int) is None);
                            return Err("temporary".to_owned());
                        },
                    }
                    j = j + 1;
                }
                proof {
                    assert forall|k: int| 0 <= k < instr.inputs@.len() implies (#[trigger] input_value(self, i as int, k)) is Some by {
                        assert(Some(inputs@[k]) == input_value(self, i as int, k));
                    }
                    assert forall|k: int| 0 <= k < instr.temporary@.len() implies (#[trigger] temp_value(self, i as int, k)) is Some by {
                        assert(Some(temporary@[k]) == temp_value(self, i as int, k));
                    }
                    assert(!input_missing(self, i as int));
                    assert(!temp_missing(self, i as int));
                }
                match instr.kind {
                    InstrKind::ToPhi(_) => {
                        if inputs.len() != 1 {
                            return Err("phi move with other than one input".to_owned());
                        }
                        let out = match output {
                            Some(o) => o,
                            None => {
                                return Err("ToPhi output".to_owned());
                            },
                        };
                        if out != inputs[0] {
                            body.push(GenEvent::Move(inputs[0], out));
                        }
                        assert(body@ =~= if output_value(self, i as int, effective) == input_value(self, i as int, 0) {
                            Seq::<GenEvent>::empty()
                        } else {
                            seq![GenEvent::Move(input_value(self, i as int, 0)->0, output_value(self, i as int, effective)->0)]
                        });
                    },
                    _ => {
                        body.push(GenEvent::Instr(InstrId(i), output, inputs, temporary));
                    },
                }
            },
        }
        proof {
            assert(effective == eff_call(self, i as int, call));
        }
        assert(body_ok(self, i as int, effective, body@));
        let ghost body_seq = body@;
        append_events(&mut ev, body);

        // The end of the block
        let last = block.instructions[n_instr - 1];
        let mut tail: Vec<GenEvent> = Vec::new();
        if last.0 == i {
            let ns = block.successors.len();
            if ns == 0 {
                tail.push(GenEvent::Epilogue);
            } else if ns == 1 {
                assert(block.id.0 == b);
                if block.successors[0].0 != block.id.0 + 1 {
                    tail.push(GenEvent::Goto(block.successors[0]));
                }
            } else if ns > 2 {
                return Err("Too much successors".to_owned());
            }
        }
        assert(tail@ =~= end_events(self, i as int));
        append_events(&mut ev, tail);
        assert(ev@ == start_events(self, i as int) + gap_events(self, i as int) + body_seq + end_events(self, i as int));
        Ok(ev)
    }

    /// The events of the whole program, in order of increasing position.
    pub fn generate_events(&self) -> (r: Result<Vec<GenEvent>, String>)
        requires
            self.wf(),
        ensures
            r matches Ok(ev) ==> exists|parts: Seq<Seq<GenEvent>>| {
                &&& parts.len() == self.ni()
                &&& ev@ == seq![GenEvent::Prelude] + concat(parts)
                &&& forall|i: int| 0 <= i < self.ni() ==> events_ok(self, i, #[trigger] parts[i])
            },
            r matches Ok(ev) ==> all_emittable(self, ev@),
            r is Err ==> exists|i: int| 0 <= i < self.ni() && events_may_fail(self, i),
    {
        let mut ev: Vec<GenEvent> = Vec::new();
        ev.push(GenEvent::Prelude);
        let ghost mut parts: Seq<Seq<GenEvent>> = seq![];
        let n = self.instructions.len();
        let mut i: usize = 0;
        while i < n
            invariant
                self.wf(),
                n == self.ni(),
                i <= n,
                parts.len() == i,
                ev@ == seq![GenEvent::Prelude] + concat(parts),
                forall|k: int| 0 <= k < i ==> events_ok(self, k, #[trigger] parts[k]),
                all_emittable(self, ev@),
            decreases n - i,
        {
            let part = match self.instr_events(i) {
                Ok(p) => p,
                Err(e) => {
                    assert(events_may_fail(self, i as int));
                    return Err(e);
                },
            };
            proof {
                assert(all_emittable(self, seq![GenEvent::Prelude]));
            }
            proof {
                let p2 = parts.push(part@);
                assert(p2.drop_last() =~= parts);
                assert(concat(p2) == concat(parts) + part@);
                assert forall|k: int| 0 <= k < i + 1 implies events_ok(self, k, #[trigger] p2[k]) by {
                    if k < i {
                        assert(p2[k] == parts[k]);
                    }
                }
                parts = p2;
            }
            let ghost ev0 = ev@;
            let ghost pt = part@;
            append_events(&mut ev, part);
            proof {
                lemma_emittable_concat(self, ev0, pt);
                assert(ev@ =~= seq![GenEvent::Prelude] + concat(parts));
            }
            i = i + 1;
        }
        Ok(ev)
    }

    /// Hand the program to the code generator, in order of increasing
    /// position: the prelude, then for each position the start of its
    /// block, the moves of its gap, the instruction and the end of its
    /// block. The recorder gains exactly these events, in this order.
    pub fn generate_to<GF: GeneratorFunctions<K>>(&self, g: &mut Recorder<K, GF>) -> (r: Result<(), String>)
        ensures
            !self.wf() ==> r is Err,
            r is Err ==> !self.wf() || exists|i: int| 0 <= i < self.ni() && events_may_fail(self, i),
            r is Ok ==> exists|parts: Seq<Seq<GenEvent>>| {
                &&& parts.len() == self.ni()
                &&& final(g).handed@ == old(g).handed@ + (seq![GenEvent::Prelude] + concat(parts))
                &&& forall|i: int| 0 <= i < self.ni() ==> events_ok(self, i, #[trigger] parts[i])
            },
    {
        if !self.check_wf() {
            return Err("malformed graph".to_owned());
        }
        let events = self.generate_events()?;
        let ghost h0 = g.handed@;
        let mut k: usize = 0;
        while k < events.len()
            invariant
                self.wf(),
                all_emittable(self, events@),
                k <= events@.len(),
                g.handed@ == h0 + events@.take(k as int),
            decreases events.len() - k,
        {
            self.emit(g, &events[k])?;
            assert(events@.take(k + 1) =~= events@.take(k as int).push(events@[k as int]));
            assert(h0 + events@.take(k + 1) =~= (h0 + events@.take(k as int)).push(events@[k as int]));
            k = k + 1;
        }
        assert(events@.take(events@.len() as int) =~= events@);
        Ok(())
    }

    /// Hand the moves and swaps of the gap at `id` to the code generator;
    /// the recorder gains exactly the events of that gap, in order.
    pub fn generate_gap_to<GF: GeneratorFunctions<K>>(&self, g: &mut Recorder<K, GF>, id: &InstrId) -> (r: Result<(), String>)
        ensures
            r is Ok <==> self.wf(),
            r is Ok ==> final(g).handed@ == old(g).handed@ + gap_events(self, id.0 as int),
    {
        if !self.check_wf() {
            return Err("malformed graph".to_owned());
        }
        let events = self.gap_events_at(*id);
        let ghost h0 = g.handed@;
        let mut k: usize = 0;
        while k < events.len()
            invariant
                self.wf(),
                events@ == gap_events(self, id.0 as int),
                k <= events@.len(),
                g.handed@ == h0 + events@.take(k as int),
            decreases events.len() - k,
        {
            self.emit(g, &events[k])?;
            assert(events@.take(k + 1) =~= events@.take(k as int).push(events@[k as int]));
            assert(h0 + events@.take(k + 1) =~= (h0 + events@.take(k as int)).push(events@[k as int]));
            k = k + 1;
        }
        assert(events@.take(events@.len() as int) =~= events@);
        Ok(())
    }

    /// Hand one event to the code generator.
    fn emit<GF: GeneratorFunctions<K>>(&self, g: &mut Recorder<K, GF>, e: &GenEvent) -> (r: Result<(), String>)
        requires
            self.wf(),
        ensures
            r is Err <==> emit_refused(self, *e),
            r is Ok ==> final(g).handed@ == old(g).handed@.push(*e),
            r is Err ==> final(g).handed@ == old(g).handed@,
    {
        match e {
            GenEvent::Prelude => g.prelude(),
            GenEvent::Epilogue => g.epilogue(),
            GenEvent::Swap(a, b) => g.swap(a, b),
            GenEvent::Move(a, b) => g.move_value(a, b),
            GenEvent::Block(b) => g.block(*b),
            GenEvent::Goto(b) => g.goto(*b),
            GenEvent::Instr(id, output, inputs, temporary) => {
                if id.0 >= self.instructions.len() {
                    return Err("unknown instruction".to_owned());
                }
                let instr = &self.instructions[id.0];
                let b = instr.block.0;
                if b >= self.blocks.len() {
                    return Err("instruction outside of the blocks".to_owned());
                }
                match &instr.kind {
                    InstrKind::User(k) => {
                        g.instr(Ghost(*e), k, *output, inputs.as_slice(), temporary.as_slice(), self.blocks[b].successors.as_slice());
                    },
                    _ => {
                        return Err("user instruction expected".to_owned());
                    },
                }
            },
        }
        Ok(())
    }
}

impl<K: KindHelper, GF: GeneratorFunctions<K>> Generator<K, GF> for Graph<K> {
    /// Hand the program to the code generator, in order of increasing
    /// position: the prelude, then for each position the start of its
    /// block, the moves of its gap, the instruction and the end of its
    /// block.
    fn generate(&self, g: &mut GF) -> (r: Result<(), String>)
        ensures
            !self.wf() ==> r is Err,
            r is Err ==> !self.wf() || exists|i: int| 0 <= i < self.ni() && events_may_fail(self, i),
    {
        let mut rec = Recorder { inner: g, handed: Ghost(Seq::empty()), kind: core::marker::PhantomData };
        self.generate_to(&mut rec)
    }
}

impl<K: KindHelper, GF: GeneratorFunctions<K>> GeneratorHelper<K, GF> for Graph<K> {
    /// Hand the moves and swaps of the gap at `id` to the code generator.
    fn generate_gap(&self, g: &mut GF, id: &InstrId) -> (r: Result<(), String>)
        ensures
            r is Ok <==> self.wf(),
    {
        let mut rec = Recorder { inner: g, handed: Ghost(Seq::empty()), kind: core::marker::PhantomData };
        self.generate_gap_to(&mut rec, id)
    }
}

} // verus!
