//! Building a control system from blocks, and stepping it at a fixed period.
use vstd::prelude::*;
use crate::graph::{
    add_error, graph_wf, has_producer, ports_view, resolve, wired, wired_block, wires_view, BlockModel,
    BuildError, Graph, PortDecl, PortModel, Wire,
};
use crate::order::{depends, is_topological, missing_producer, placed_has, topo_order};

verus! {

/// What a block learns of the current step: its index `k`, the period
/// `dt_us` and the time `t_us = k * dt_us`, both in microseconds.
#[derive(Debug, Clone, Copy, PartialEq, Eq, Structural)]
pub struct StepInfo {
    pub k: u64,
    pub dt_us: u64,
    pub t_us: u128,
}

/// Whether the system should go on after a step.
#[derive(Debug, Clone, Copy, PartialEq, Eq, Structural)]
pub enum StepResult {
    Continue,
    Stop,
}

/// A block failed during a step.
#[derive(Debug)]
pub struct StepError {
    pub block: String,
    pub message: String,
}

/// A computational unit of the graph. `V` is the type of signal values.
///
/// Its name and ports are declared when it is added to the builder. On each
/// step it is handed the current values of its inputs, in the order of its
/// input ports, and returns the values of its outputs, in the order of its
/// output ports.
pub trait Block<V> {
    fn step(&mut self, info: StepInfo, inputs: &Vec<V>) -> Result<(StepResult, Vec<V>), String>;
}

/// Collects blocks and unit delays, and builds the control system.
pub struct ControlSystemBuilder<V, B> {
    graph: Graph,
    blocks: Vec<Option<B>>,
    delay_init: Vec<Option<V>>,
}

impl<V, B> View for ControlSystemBuilder<V, B> {
    type V = Seq<BlockModel>;

    closed spec fn view(&self) -> Seq<BlockModel> {
        self.graph@
    }
}

/// The ports of a unit delay from signal `input` to signal `output`.
pub open spec fn delay_block(name: Seq<char>, input: Seq<char>, output: Seq<char>, ty: u32) -> BlockModel {
    BlockModel { name, ins: seq![(input, ty)], outs: seq![(output, ty)], delay: true }
}

impl<V: Copy, B: Block<V>> ControlSystemBuilder<V, B> {
    pub closed spec fn wf(&self) -> bool {
        &&& self.graph.wf()
        &&& self.blocks@.len() == self.graph@.len()
        &&& self.delay_init@.len() == self.graph@.len()
        &&& forall|i: int|
            0 <= i < self.graph@.len() ==> {
                let m = #[trigger] self.graph@[i];
                if m.delay {
                    &&& self.delay_init@[i] is Some
                    &&& m.ins.len() == 1
                    &&& m.outs.len() == 1
                } else {
                    self.blocks@[i] is Some
                }
            }
    }

    /// The initial value given to the delay at index `i`.
    pub closed spec fn initial_value(&self, i: int) -> V {
        self.delay_init@[i]->Some_0
    }

    /// An empty builder.
    pub fn new() -> (r: Self)
        ensures
            r.wf(),
            r@ == Seq::<BlockModel>::empty(),
    {
        ControlSystemBuilder { graph: Graph::new(), blocks: Vec::new(), delay_init: Vec::new() }
    }

    /// Add `block` under `name` with the declared ports `inputs` and
    /// `outputs`, binding them to signals through the wiring lists (a port
    /// that no entry names is bound to the signal of its own name). On an
    /// error nothing is added.
    pub fn add_block(
        &mut self,
        block: B,
        name: String,
        inputs: &Vec<PortDecl>,
        outputs: &Vec<PortDecl>,
        input_wiring: &Vec<Wire>,
        output_wiring: &Vec<Wire>,
    ) -> (r: Result<(), BuildError>)
        requires
            old(self).wf(),
        ensures
            final(self).wf(),
            match add_error(
                old(self)@,
                name@,
                ports_view(inputs@),
                ports_view(outputs@),
                wires_view(input_wiring@),
                wires_view(output_wiring@),
                false,
            ) {
                Some(e) => r == Err::<(), BuildError>(e) && final(self)@ == old(self)@,
                None => r is Ok && final(self)@ == old(self)@.push(
                    wired_block(
                        name@,
                        ports_view(inputs@),
                        ports_view(outputs@),
                        wires_view(input_wiring@),
                        wires_view(output_wiring@),
                        false,
                    ),
                ),
            },
            forall|i: int|
                0 <= i < old(self)@.len() && old(self)@[i].delay ==> final(self).initial_value(i)
                    == old(self).initial_value(i),
    {
        let r = self.graph.add_block(name, inputs, outputs, input_wiring, output_wiring, false);
        if r.is_ok() {
            self.blocks.push(Some(block));
            self.delay_init.push(None);
        }
        assert forall|i: int| 0 <= i < self.graph@.len() implies {
            let m = #[trigger] self.graph@[i];
            if m.delay {
                &&& self.delay_init@[i] is Some
                &&& m.ins.len() == 1
                &&& m.outs.len() == 1
            } else {
                self.blocks@[i] is Some
            }
        } by {
            if i < old(self)@.len() {
                assert(self.graph@[i] == old(self).graph@[i]);
            }
        }
        r
    }

    /// Add a unit delay named `name` whose output signal `output` holds, at
    /// each step, the value that signal `input` had at the step before, and
    /// `initial` at the first step. Both signals have type tag `ty`.
    pub fn add_delay(&mut self, name: String, initial: V, input: String, output: String, ty: u32) -> (r:
        Result<(), BuildError>)
        requires
            old(self).wf(),
        ensures
            final(self).wf(),
            match add_error(
                old(self)@,
                name@,
                seq![(input@, ty)],
                seq![(output@, ty)],
                Seq::empty(),
                Seq::empty(),
                true,
            ) {
                Some(e) => r == Err::<(), BuildError>(e) && final(self)@ == old(self)@,
                None => r is Ok && final(self)@ == old(self)@.push(
                    delay_block(name@, input@, output@, ty),
                ) && final(self).initial_value(old(self)@.len() as int) == initial,
            },
            forall|i: int|
                0 <= i < old(self)@.len() && old(self)@[i].delay ==> final(self).initial_value(i)
                    == old(self).initial_value(i),
    {
        let mut ins: Vec<PortDecl> = Vec::new();
        ins.push(PortDecl { name: input, ty });
        let mut outs: Vec<PortDecl> = Vec::new();
        outs.push(PortDecl { name: output, ty });
        let no_wires: Vec<Wire> = Vec::new();
        assert(ports_view(ins@) =~= seq![(input@, ty)]);
        assert(ports_view(outs@) =~= seq![(output@, ty)]);
        assert(wires_view(no_wires@) =~= Seq::empty());
        let r = self.graph.add_block(name, &ins, &outs, &no_wires, &no_wires, true);
        assert(wired(input@, Seq::empty()) == input@);
        assert(wired(output@, Seq::empty()) == output@);
        assert(resolve(seq![(input@, ty)], Seq::empty()) =~= seq![(input@, ty)]);
        assert(resolve(seq![(output@, ty)], Seq::empty()) =~= seq![(output@, ty)]);
        if r.is_ok() {
            self.blocks.push(None);
            self.delay_init.push(Some(initial));
        }
        assert forall|i: int| 0 <= i < self.graph@.len() implies {
            let m = #[trigger] self.graph@[i];
            if m.delay {
                &&& self.delay_init@[i] is Some
                &&& m.ins.len() == 1
                &&& m.outs.len() == 1
            } else {
                self.blocks@[i] is Some
            }
        } by {
            if i < old(self)@.len() {
                assert(self.graph@[i] == old(self).graph@[i]);
            }
        }
        r
    }
}

/// Where input `j` of block `v` reads from: output port `s.1` of block `s.0`,
/// which produces the signal that the input is bound to.
pub open spec fn source_ok(g: Seq<BlockModel>, v: int, j: int, s: (usize, usize)) -> bool {
    &&& s.0 < g.len()
    &&& s.1 < g[s.0 as int].outs.len()
    &&& g[s.0 as int].outs[s.1 as int].0 == g[v].ins[j].0
}

/// A built control system: the blocks in execution order, the signal values
/// of the last step, and the step counter.
pub struct ControlSystem<V, B> {
    graph: Graph,
    blocks: Vec<Option<B>>,
    delay_state: Vec<Option<V>>,
    order: Vec<usize>,
    sources: Vec<Vec<(usize, usize)>>,
    values: Vec<Vec<Option<V>>>,
    last_inputs: Ghost<Seq<Seq<V>>>,
    written: Ghost<Seq<u64>>,
    returned: Ghost<Seq<Option<Result<(StepResult, Vec<V>), String>>>>,
    last_info: Ghost<StepInfo>,
    k: u64,
    dt_us: u64,
    max_iter: u64,
    stopped: bool,
}

impl<V, B> View for ControlSystem<V, B> {
    type V = Seq<BlockModel>;

    closed spec fn view(&self) -> Seq<BlockModel> {
        self.graph@
    }
}

impl<V: Copy, B: Block<V>> ControlSystem<V, B> {
    pub closed spec fn wf(&self) -> bool {
        let g = self.graph@;
        let n = g.len();
        &&& self.graph.wf()
        &&& self.blocks@.len() == n
        &&& self.delay_state@.len() == n
        &&& self.values@.len() == n
        &&& self.sources@.len() == n
        &&& self.last_inputs@.len() == n
        &&& self.written@.len() == n
        &&& self.returned@.len() == n
        &&& is_topological(g, self.order@)
        &&& forall|i: int|
            0 <= i < n ==> {
                let m = #[trigger] g[i];
                &&& self.sources@[i]@.len() == m.ins.len()
                &&& self.values@[i]@.len() == m.outs.len()
                &&& if m.delay {
                    &&& self.delay_state@[i] is Some
                    &&& m.ins.len() == 1
                    &&& m.outs.len() == 1
                } else {
                    self.blocks@[i] is Some
                }
            }
        &&& forall|v: int, j: int|
            0 <= v < n && 0 <= j < self.sources@[v]@.len() ==> source_ok(
                g,
                v,
                j,
                #[trigger] self.sources@[v]@[j],
            )
    }

    /// The execution order.
    pub closed spec fn order_spec(&self) -> Seq<usize> {
        self.order@
    }

    /// Index of the next step.
    pub closed spec fn step_index(&self) -> u64 {
        self.k
    }

    pub closed spec fn is_stopped(&self) -> bool {
        self.stopped
    }

    pub closed spec fn max_iter_spec(&self) -> u64 {
        self.max_iter
    }

    /// The value that output `k` of block `b` wrote at the last step.
    pub closed spec fn value(&self, b: int, k: int) -> Option<V> {
        self.values@[b]@[k]
    }

    /// The block and output port that input `j` of block `v` reads.
    pub closed spec fn source(&self, v: int, j: int) -> (usize, usize) {
        self.sources@[v]@[j]
    }

    /// The value that the delay at index `b` will output at the next step.
    pub closed spec fn delay_value(&self, b: int) -> V {
        self.delay_state@[b]->Some_0
    }

    /// What block `b` returned at the last step (`None` when it was not
    /// stepped).
    pub closed spec fn returned(&self, b: int) -> Option<Result<(StepResult, Vec<V>), String>> {
        self.returned@[b]
    }

    /// The step information handed to every block at the last step.
    pub closed spec fn info_spec(&self) -> StepInfo {
        self.last_info@
    }

    /// The output slots of block `b` after the last step.
    pub closed spec fn outputs_of(&self, b: int) -> Seq<Option<V>> {
        self.values@[b]@
    }

    /// The step period in microseconds.
    pub closed spec fn dt_spec(&self) -> u64 {
        self.dt_us
    }

    /// The index of the step at which block `b` last wrote its outputs.
    pub closed spec fn written_at(&self, b: int) -> u64 {
        self.written@[b]
    }

    /// The value handed to input `j` of block `v` at the last step.
    pub closed spec fn handed(&self, v: int, j: int) -> V {
        self.last_inputs@[v][j]
    }
}

impl<V: Copy, B: Block<V>> ControlSystemBuilder<V, B> {
    /// Check the graph, compute its execution order, and hand over a control
    /// system that steps with period `dt_us` microseconds and stops after
    /// `max_iter` steps (`0`: never).
    pub fn build(self, dt_us: u64, max_iter: u64) -> (r: Result<ControlSystem<V, B>, BuildError>)
        requires
            self.wf(),
        ensures
            missing_producer(self@) ==> (r matches Err(e) && e == BuildError::UnknownSignal),
            !missing_producer(self@) && topo_order(self@) is None ==> (r matches Err(e) && e
                == BuildError::Cycle),
            !missing_producer(self@) && topo_order(self@) is Some ==> r is Ok,
            r matches Ok(cs) ==> {
                &&& cs.wf()
                &&& cs@ == self@
                &&& graph_wf(cs@)
                &&& !missing_producer(cs@)
                &&& Some(cs.order_spec()) == topo_order(self@)
                &&& cs.step_index() == 0
                &&& !cs.is_stopped()
                &&& cs.max_iter_spec() == max_iter
                &&& forall|i: int|
                    0 <= i < self@.len() && self@[i].delay ==> cs.delay_value(i)
                        == self.initial_value(i)
                &&& forall|v: int, j: int|
                    0 <= v < self@.len() && 0 <= j < self@[v].ins.len() ==> source_ok(
                        self@,
                        v,
                        j,
                        #[trigger] cs.source(v, j),
                    )
            },
    {
        let order = match self.graph.execution_order() {
            Err(e) => return Err(e),
            Ok(o) => o,
        };
        let ghost g = self.graph@;
        let n = self.graph.len();
        proof {
            crate::order::lemma_cycle_detection(self.graph@);
        }
        let mut sources: Vec<Vec<(usize, usize)>> = Vec::new();
        let mut values: Vec<Vec<Option<V>>> = Vec::new();
        let mut v: usize = 0;
        while v < n
            invariant
                0 <= v <= n,
                n == g.len(),
                g == self.graph@,
                self.graph.wf(),
                !missing_producer(g),
                sources@.len() == v,
                values@.len() == v,
                forall|i: int|
                    0 <= i < v ==> {
                        &&& (#[trigger] sources@[i])@.len() == g[i].ins.len()
                        &&& values@[i]@.len() == g[i].outs.len()
                    },
                forall|vv: int, j: int|
                    0 <= vv < v && 0 <= j < sources@[vv]@.len() ==> source_ok(
                        g,
                        vv,
                        j,
                        #[trigger] sources@[vv]@[j],
                    ),
            decreases n - v,
        {
            let blk = self.graph.block(v);
            let mut sv: Vec<(usize, usize)> = Vec::new();
            let mut j: usize = 0;
            while j < blk.inputs.len()
                invariant
                    0 <= j <= blk.inputs@.len(),
                    v < n,
                    n == g.len(),
                    g == self.graph@,
                    !missing_producer(g),
                    blk@ == g[v as int],
                    sv@.len() == j,
                    forall|jj: int| 0 <= jj < j ==> source_ok(g, v as int, jj, #[trigger] sv@[jj]),
                decreases blk.inputs@.len() - j,
            {
                assert(g[v as int].ins[j as int] == blk.inputs@[j as int]@);
                assert(has_producer(g, g[v as int].ins[j as int].0));
                let bk = self.graph.producer_of(&blk.inputs[j].signal).unwrap();
                sv.push(bk);
                j += 1;
            }
            let mut vals: Vec<Option<V>> = Vec::new();
            let mut k: usize = 0;
            while k < blk.outputs.len()
                invariant
                    0 <= k <= blk.outputs@.len(),
                    vals@.len() == k,
                decreases blk.outputs@.len() - k,
            {
                vals.push(None);
                k += 1;
            }
            let ghost s_old = sources@;
            let ghost v_old = values@;
            sources.push(sv);
            values.push(vals);
            assert(forall|i: int| 0 <= i < v ==> sources@[i] == s_old[i] && values@[i] == v_old[i]);
            v += 1;
        }
        let ControlSystemBuilder { graph, blocks, delay_init } = self;
        let cs = ControlSystem {
            graph,
            blocks,
            delay_state: delay_init,
            order,
            sources,
            values,
            last_inputs: Ghost(Seq::new(n as nat, |i: int| Seq::empty())),
            written: Ghost(Seq::new(n as nat, |i: int| 0u64)),
            returned: Ghost(Seq::new(n as nat, |i: int| None)),
            last_info: Ghost(StepInfo { k: 0, dt_us, t_us: 0 }),
            k: 0,
            dt_us,
            max_iter,
            stopped: false,
        };
        assert forall|i: int| 0 <= i < n implies {
            let m = #[trigger] g[i];
            &&& cs.sources@[i]@.len() == m.ins.len()
            &&& cs.values@[i]@.len() == m.outs.len()
            &&& if m.delay {
                &&& cs.delay_state@[i] is Some
                &&& m.ins.len() == 1
                &&& m.outs.len() == 1
            } else {
                cs.blocks@[i] is Some
            }
        } by {
            assert(sources@[i]@.len() == g[i].ins.len());
        }
        Ok(cs)
    }
}

/// A block returned `n_outs` output values.
pub open spec fn returned_ok<V>(r: Option<Result<(StepResult, Vec<V>), String>>, n_outs: nat) -> bool {
    r matches Some(Ok((_, outs))) && outs@.len() == n_outs
}

/// A block returned `Stop`.
pub open spec fn returned_stop<V>(r: Option<Result<(StepResult, Vec<V>), String>>) -> bool {
    r matches Some(Ok((StepResult::Stop, _)))
}

/// The outputs a block returned are what its output slots hold.
pub open spec fn stored<V>(vals: Seq<Option<V>>, r: Option<Result<(StepResult, Vec<V>), String>>) -> bool {
    r matches Some(Ok((_, outs))) && forall|k: int| 0 <= k < outs@.len() ==> vals[k] == Some(#[trigger] outs@[k])
}

/// A block failed with message `msg`: its step returned that error, or
/// returned a number of outputs other than `n_outs`.
pub open spec fn failed_with<V>(r: Option<Result<(StepResult, Vec<V>), String>>, n_outs: nat, msg: Seq<char>) -> bool {
    match r {
        Some(Err(m)) => m@ == msg,
        Some(Ok((_, outs))) => outs@.len() != n_outs && msg == "wrong number of outputs"@,
        None => false,
    }
}

/// Every output of block `b` holds a value.
pub open spec fn outputs_set<V>(g: Seq<BlockModel>, values: Seq<Vec<Option<V>>>, b: int) -> bool {
    forall|kk: int| 0 <= kk < g[b].outs.len() ==> #[trigger] values[b]@[kk] is Some
}

/// Input `j` of block `v` was handed the value its source holds.
pub open spec fn read_ok<V>(
    values: Seq<Vec<Option<V>>>,
    sources: Seq<Vec<(usize, usize)>>,
    handed: Seq<Seq<V>>,
    v: int,
    j: int,
) -> bool {
    values[sources[v]@[j].0 as int]@[sources[v]@[j].1 as int] == Some(handed[v][j])
}

impl<V: Copy, B: Block<V>> ControlSystem<V, B> {
    /// Input `j` of block `b` reads a block that stands before position `i`
    /// of the order.
    proof fn lemma_source_earlier(&self, i: int, j: int) -> (jj: int)
        requires
            self.wf(),
            0 <= i < self.order@.len(),
            !self.graph@[self.order@[i] as int].delay,
            0 <= j < self.graph@[self.order@[i] as int].ins.len(),
        ensures
            0 <= jj < i,
            self.order@[jj] == self.sources@[self.order@[i] as int]@[j].0,
    {
        let g = self.graph@;
        let o = self.order@;
        let v = o[i] as int;
        let s = self.sources@[v]@[j];
        assert(source_ok(g, v, j, s));
        assert(crate::graph::produces(g, s.0 as int, g[v].ins[j].0));
        assert(depends(g, v, s.0 as int));
        choose|jj: int| 0 <= jj < i && #[trigger] o[jj] == s.0
    }

    /// Run one step: every block in execution order, each handed the values
    /// its inputs read now; a delay outputs the value it stored at the step
    /// before (its initial value at the first step) and then stores the
    /// current value of its input. Once a block asks to stop, fails, or the
    /// step limit is reached, the system stops and every later call returns
    /// `Stop` at once.
    pub fn step(&mut self) -> (r: Result<StepResult, StepError>)
        requires
            old(self).wf(),
        ensures
            final(self).wf(),
            final(self)@ == old(self)@,
            final(self).order_spec() == old(self).order_spec(),
            final(self).max_iter_spec() == old(self).max_iter_spec(),
            forall|v: int, j: int| #[trigger] final(self).source(v, j) == old(self).source(v, j),
            old(self).is_stopped() ==> r == Ok::<StepResult, StepError>(StepResult::Stop)
                && final(self).step_index() == old(self).step_index(),
            old(self).step_index() == u64::MAX ==> r == Ok::<StepResult, StepError>(
                StepResult::Stop,
            ),
            r is Err ==> final(self).is_stopped(),
            r matches Err(e) ==> exists|b: int|
                0 <= b < old(self)@.len() && !old(self)@[b].delay && #[trigger] old(self)@[b].name
                    == e.block@ && failed_with(
                    final(self).returned(b),
                    old(self)@[b].outs.len(),
                    e.message@,
                ) && forall|c: int|
                    0 <= c < old(self)@.len() && c != b ==> final(self).returned(c) is None
                        || returned_ok(final(self).returned(c), old(self)@[c].outs.len()),
            r == Ok::<StepResult, StepError>(StepResult::Stop) ==> final(self).is_stopped(),
            r == Ok::<StepResult, StepError>(StepResult::Continue) ==> !final(self).is_stopped(),
            !old(self).is_stopped() && old(self).step_index() < u64::MAX && r is Ok ==> {
                let g = old(self)@;
                &&& final(self).step_index() == old(self).step_index() + 1
                &&& final(self).info_spec().k == old(self).step_index()
                &&& final(self).info_spec().dt_us == old(self).dt_spec()
                &&& final(self).info_spec().t_us == old(self).step_index() * old(self).dt_spec()
                &&& (r == Ok::<StepResult, StepError>(StepResult::Stop) <==> (exists|b: int|
                    0 <= b < g.len() && returned_stop(#[trigger] final(self).returned(b))) || (old(
                    self,
                ).max_iter_spec() != 0 && final(self).step_index() >= old(self).max_iter_spec()))
                &&& forall|b: int|
                    0 <= b < g.len() && !g[b].delay ==> returned_ok(
                        #[trigger] final(self).returned(b),
                        g[b].outs.len(),
                    ) && stored(final(self).outputs_of(b), final(self).returned(b))
                &&& forall|b: int| 0 <= b < g.len() && g[b].delay ==> #[trigger] final(self).returned(b) is None
                &&& forall|b: int|
                    0 <= b < g.len() ==> #[trigger] final(self).written_at(b) == old(
                        self,
                    ).step_index()
                &&& forall|v: int, j: int|
                    0 <= v < g.len() && !g[v].delay && 0 <= j < g[v].ins.len() ==> final(self).value(
                        final(self).source(v, j).0 as int,
                        final(self).source(v, j).1 as int,
                    ) == Some(#[trigger] final(self).handed(v, j))
                &&& forall|b: int|
                    0 <= b < g.len() && g[b].delay ==> {
                        &&& final(self).value(b, 0) == Some(old(self).delay_value(b))
                        &&& final(self).value(
                            final(self).source(b, 0).0 as int,
                            final(self).source(b, 0).1 as int,
                        ) == Some(#[trigger] final(self).delay_value(b))
                    }
            },
    {
        if self.stopped {
            return Ok(StepResult::Stop);
        }
        if self.k == u64::MAX {
            self.stopped = true;
            return Ok(StepResult::Stop);
        }
        let ghost g = self.graph@;
        let ghost o = self.order@;
        let ghost k0 = self.k;
        let ghost old_delays = self.delay_state@;
        let n = self.graph.len();
        assert(self.k as u128 * self.dt_us as u128 <= 0xffff_ffff_ffff_ffffu128
            * 0xffff_ffff_ffff_ffffu128) by (nonlinear_arith)
            requires
                self.k <= 0xffff_ffff_ffff_ffffu64,
                self.dt_us <= 0xffff_ffff_ffff_ffffu64,
        ;
        let info = StepInfo {
            k: self.k,
            dt_us: self.dt_us,
            t_us: self.k as u128 * self.dt_us as u128,
        };
        let mut stop_seen = false;
        self.returned = Ghost(Seq::new(n as nat, |c: int| None));
        self.last_info = Ghost(info);
        proof {
            assert forall|c: int| 0 <= c < n implies #[trigger] placed_has(o, c) by {
                crate::order::lemma_covers(o, n as int, c);
            }
        }
        let mut i: usize = 0;
        while i < n
            invariant
                forall|ii: int|
                    0 <= ii < i ==> if g[#[trigger] o[ii] as int].delay {
                        self.returned@[o[ii] as int] is None
                    } else {
                        returned_ok(self.returned@[o[ii] as int], g[o[ii] as int].outs.len())
                            && stored(self.values@[o[ii] as int]@, self.returned@[o[ii] as int])
                    },
                stop_seen <==> exists|ii: int|
                    0 <= ii < i && returned_stop(self.returned@[#[trigger] o[ii] as int]),
                self.last_info@ == info,
                self.returned@.len() == n,
                forall|c: int| 0 <= c < n ==> #[trigger] placed_has(o, c),
                forall|ii: int| i <= ii < n ==> self.returned@[#[trigger] o[ii] as int] is None,
                0 <= i <= n,
                n == g.len(),
                g == self.graph@,
                o == self.order@,
                k0 == self.k,
                k0 < u64::MAX,
                old_delays == self.delay_state@,
                self.wf(),
                !self.stopped,
                !old(self).stopped,
                old(self).graph@ == g,
                old(self).order@ == o,
                old(self).sources@ == self.sources@,
                old(self).max_iter == self.max_iter,
                old(self).k == self.k,
                old(self).delay_state@ == old_delays,
                forall|ii: int|
                    0 <= ii < i ==> self.written@[#[trigger] o[ii] as int] == k0 && outputs_set(
                        g,
                        self.values@,
                        o[ii] as int,
                    ),
                forall|ii: int, j: int|
                    0 <= ii < i && !g[o[ii] as int].delay && 0 <= j < g[o[ii] as int].ins.len()
                        ==> #[trigger] read_ok(
                        self.values@,
                        self.sources@,
                        self.last_inputs@,
                        o[ii] as int,
                        j,
                    ),
                forall|ii: int|
                    0 <= ii < i && g[#[trigger] o[ii] as int].delay ==> self.values@[o[ii] as int]@[0]
                        == Some(old_delays[o[ii] as int]->Some_0),
            decreases n - i,
        {
            let b = self.order[i];
            let ghost values_before = self.values@;
            let ghost last_before = self.last_inputs@;
            let decl = self.graph.block(b);
            let is_delay = decl.delay;
            if is_delay {
                let st = self.delay_state[b].unwrap();
                let mut nv: Vec<Option<V>> = Vec::new();
                nv.push(Some(st));
                self.values.set(b, nv);
                self.written = Ghost(self.written@.update(b as int, k0));
                proof {
                    assert(self.returned@[o[i as int] as int] is None);
                    assert(stop_seen <==> exists|ii: int|
                        0 <= ii < i + 1 && returned_stop(self.returned@[#[trigger] o[ii] as int])) by {
                        if exists|ii: int|
                            0 <= ii < i + 1 && returned_stop(self.returned@[#[trigger] o[ii] as int]) {
                            let ii = choose|ii: int|
                                0 <= ii < i + 1 && returned_stop(self.returned@[#[trigger] o[ii] as int]);
                            assert(ii < i);
                        }
                    }
                }
            } else {
                let srcs = &self.sources[b];
                let mut ins: Vec<V> = Vec::new();
                let mut j: usize = 0;
                while j < srcs.len()
                    invariant
                        0 <= j <= srcs@.len(),
                        b < n,
                        n == g.len(),
                        i < n,
                        o[i as int] == b,
                        g == self.graph@,
                        o == self.order@,
                        !g[b as int].delay,
                        srcs == self.sources@[b as int],
                        self.wf(),
                        ins@.len() == j,
                        forall|ii: int|
                            0 <= ii < i ==> self.written@[#[trigger] o[ii] as int] == k0
                                && outputs_set(g, self.values@, o[ii] as int),
                        forall|jj: int|
                            0 <= jj < j ==> self.values@[srcs@[jj].0 as int]@[srcs@[jj].1 as int]
                                == Some(#[trigger] ins@[jj]),
                    decreases srcs@.len() - j,
                {
                    let (pb, pk) = srcs[j];
                    proof {
                        let jj = self.lemma_source_earlier(i as int, j as int);
                        assert(outputs_set(g, self.values@, o[jj] as int));
                        assert(source_ok(g, b as int, j as int, srcs@[j as int]));
                        assert(self.values@[pb as int]@[pk as int] is Some);
                    }
                    let x = self.values[pb][pk].unwrap();
                    ins.push(x);
                    j += 1;
                }
                let mut slot: Option<B> = None;
                self.blocks.set_and_swap(b, &mut slot);
                let mut blk = slot.unwrap();
                let res = blk.step(info, &ins);
                self.blocks.set(b, Some(blk));
                let ghost rec = res;
                let ghost ret_before = self.returned@;
                self.returned = Ghost(self.returned@.update(b as int, Some(rec)));
                let decl = self.graph.block(b);
                proof {
                    assert forall|c: int| 0 <= c < n && c != b implies #[trigger] self.returned@[c]
                        is None || returned_ok(self.returned@[c], g[c].outs.len()) by {
                        {
                            assert(placed_has(o, c));
                            let ii = choose|ii: int| 0 <= ii < o.len() && o[ii] == c;
                            assert(self.returned@[c] == ret_before[c]);
                            if ii > i {
                                assert(ret_before[o[ii] as int] is None);
                            } else if ii < i {
                                assert(g[o[ii] as int].delay || returned_ok(ret_before[o[ii] as int], g[o[ii] as int].outs.len()));
                            }
                        }
                    }
                }
                match res {
                    Err(msg) => {
                        self.stopped = true;
                        assert(g[b as int].name == decl.name@);
                        return Err(StepError { block: decl.name.clone(), message: msg });
                    },
                    Ok((sr, outs)) => {
                        if outs.len() != decl.outputs.len() {
                            self.stopped = true;
                            assert(g[b as int].name == decl.name@);
                            assert(!g[b as int].delay);
                            assert(old(self)@[b as int].name == decl.name@);
                            return Err(
                                StepError {
                                    block: decl.name.clone(),
                                    message: String::from_str("wrong number of outputs"),
                                },
                            );
                        }
                        let mut nv: Vec<Option<V>> = Vec::new();
                        let mut kk: usize = 0;
                        while kk < outs.len()
                            invariant
                                0 <= kk <= outs@.len(),
                                nv@.len() == kk,
                                forall|q: int| 0 <= q < kk ==> #[trigger] nv@[q] == Some(outs@[q]),
                            decreases outs@.len() - kk,
                        {
                            nv.push(Some(outs[kk]));
                            kk += 1;
                        }
                        proof {
                            assert forall|jj: int| 0 <= jj < ins@.len() implies #[trigger] srcs@[jj].0
                                != b by {
                                let q = self.lemma_source_earlier(i as int, jj);
                                assert(o[q] != o[i as int]);
                            }
                        }
                        self.values.set(b, nv);
                        self.written = Ghost(self.written@.update(b as int, k0));
                        self.last_inputs = Ghost(self.last_inputs@.update(b as int, ins@));
                        assert forall|jj: int| 0 <= jj < g[b as int].ins.len() implies #[trigger] read_ok(
                            self.values@,
                            self.sources@,
                            self.last_inputs@,
                            b as int,
                            jj,
                        ) by {
                            assert(self.values@[srcs@[jj].0 as int] == values_before[srcs@[jj].0 as int]);
                        }
                        let ghost was = stop_seen;
                        if sr == StepResult::Stop {
                            stop_seen = true;
                        }
                        proof {
                            assert(self.returned@[b as int] == Some(rec));
                            assert(stored(self.values@[b as int]@, self.returned@[b as int]));
                            assert(returned_ok(self.returned@[b as int], g[b as int].outs.len()));
                            assert(stop_seen <==> exists|ii: int|
                                0 <= ii < i + 1 && returned_stop(self.returned@[#[trigger] o[ii] as int])) by {
                                if was {
                                    let ii = choose|ii: int|
                                        0 <= ii < i && returned_stop(ret_before[#[trigger] o[ii] as int]);
                                    assert(o[ii] != o[i as int]);
                                    assert(returned_stop(self.returned@[o[ii] as int]));
                                }
                                if sr == StepResult::Stop {
                                    assert(returned_stop(self.returned@[o[i as int] as int]));
                                }
                                if exists|ii: int|
                                    0 <= ii < i + 1 && returned_stop(self.returned@[#[trigger] o[ii] as int]) {
                                    let ii = choose|ii: int|
                                        0 <= ii < i + 1 && returned_stop(self.returned@[#[trigger] o[ii] as int]);
                                    if ii < i {
                                        assert(o[ii] != o[i as int]);
                                        assert(returned_stop(ret_before[o[ii] as int]));
                                    }
                                }
                            }
                        }
                    },
                }
            }
            assert forall|ii: int, j: int|
                0 <= ii <= i && !g[o[ii] as int].delay && 0 <= j < g[o[ii] as int].ins.len()
                    implies #[trigger] read_ok(
                    self.values@,
                    self.sources@,
                    self.last_inputs@,
                    o[ii] as int,
                    j,
                ) by {
                if ii < i {
                    let q = self.lemma_source_earlier(ii, j);
                    assert(o[q] != o[i as int]);
                    assert(o[ii] != o[i as int]);
                    assert(read_ok(values_before, self.sources@, last_before, o[ii] as int, j));
                    assert(self.last_inputs@[o[ii] as int] == last_before[o[ii] as int]);
                    assert(self.values@[o[q] as int] == values_before[o[q] as int]);
                }
            }
            assert forall|ii: int| 0 <= ii <= i implies if g[#[trigger] o[ii] as int].delay {
                self.returned@[o[ii] as int] is None
            } else {
                returned_ok(self.returned@[o[ii] as int], g[o[ii] as int].outs.len())
                    && stored(self.values@[o[ii] as int]@, self.returned@[o[ii] as int])
            } by {
                if ii < i {
                    assert(o[ii] != o[i as int]);
                    assert(self.values@[o[ii] as int] == values_before[o[ii] as int]);
                }
            }
            assert forall|ii: int| i + 1 <= ii < n implies self.returned@[#[trigger] o[ii] as int] is None by {
                assert(o[ii] != o[i as int]);
            }
            assert forall|ii: int| 0 <= ii <= i implies self.written@[#[trigger] o[ii] as int] == k0
                && outputs_set(g, self.values@, o[ii] as int) by {
                if ii < i {
                    assert(o[ii] != o[i as int]);
                    assert(self.values@[o[ii] as int] == values_before[o[ii] as int]);
                    assert(outputs_set(g, values_before, o[ii] as int));
                }
            }
            assert forall|ii: int| 0 <= ii <= i && g[#[trigger] o[ii] as int].delay implies self.values@[o[ii] as int]@[0]
                == Some(old_delays[o[ii] as int]->Some_0) by {
                if ii < i {
                    assert(o[ii] != o[i as int]);
                    assert(self.values@[o[ii] as int] == values_before[o[ii] as int]);
                }
            }
            i += 1;
        }
        let ghost values_after = self.values@;
        let ghost last_after = self.last_inputs@;
        proof {
            assert forall|c: int| 0 <= c < n implies #[trigger] placed_has(o, c) by {
                crate::order::lemma_covers(o, n as int, c);
            }
        }
        let mut b: usize = 0;
        while b < n
            invariant
                forall|ii: int|
                    0 <= ii < n ==> if g[#[trigger] o[ii] as int].delay {
                        self.returned@[o[ii] as int] is None
                    } else {
                        returned_ok(self.returned@[o[ii] as int], g[o[ii] as int].outs.len())
                            && stored(self.values@[o[ii] as int]@, self.returned@[o[ii] as int])
                    },
                stop_seen <==> exists|ii: int|
                    0 <= ii < n && returned_stop(self.returned@[#[trigger] o[ii] as int]),
                self.last_info@ == info,
                self.returned@.len() == n,
                0 <= b <= n,
                n == g.len(),
                g == self.graph@,
                o == self.order@,
                k0 == self.k,
                k0 < u64::MAX,
                self.wf(),
                !self.stopped,
                values_after == self.values@,
                last_after == self.last_inputs@,
                !old(self).stopped,
                old_delays.len() == n,
                forall|ii: int, j: int|
                    0 <= ii < n && !g[o[ii] as int].delay && 0 <= j < g[o[ii] as int].ins.len()
                        ==> #[trigger] read_ok(
                        self.values@,
                        self.sources@,
                        self.last_inputs@,
                        o[ii] as int,
                        j,
                    ),
                forall|ii: int|
                    0 <= ii < n && g[#[trigger] o[ii] as int].delay ==> self.values@[o[ii] as int]@[0]
                        == Some(old_delays[o[ii] as int]->Some_0),
                old(self).graph@ == g,
                old(self).order@ == o,
                old(self).sources@ == self.sources@,
                old(self).max_iter == self.max_iter,
                old(self).k == self.k,
                forall|c: int| 0 <= c < n ==> #[trigger] placed_has(o, c),
                forall|ii: int|
                    0 <= ii < n ==> self.written@[#[trigger] o[ii] as int] == k0 && outputs_set(
                        g,
                        self.values@,
                        o[ii] as int,
                    ),
                forall|c: int| b <= c < n ==> #[trigger] self.delay_state@[c] == old_delays[c],
                forall|c: int|
                    0 <= c < b && #[trigger] g[c].delay ==> self.delay_state@[c] == self.values@[self.sources@[c]@[0].0 as int]@[self.sources@[c]@[0].1 as int],
            decreases n - b,
        {
            let decl = self.graph.block(b);
            if decl.delay {
                let (pb, pk) = self.sources[b][0];
                proof {
                    assert(source_ok(g, b as int, 0, self.sources@[b as int]@[0]));
                    assert(placed_has(o, pb as int));
                    let ii = choose|ii: int| 0 <= ii < o.len() && o[ii] == pb;
                    assert(outputs_set(g, self.values@, o[ii] as int));
                    assert(self.values@[pb as int]@[pk as int] is Some);
                }
                let x = self.values[pb][pk];
                self.delay_state.set(b, x);
            }
            b += 1;
        }
        proof {
            assert forall|c: int| 0 <= c < n implies #[trigger] self.written@[c] == k0 by {
                assert(placed_has(o, c));
                let ii = choose|ii: int| 0 <= ii < o.len() && o[ii] == c;
                assert(self.written@[o[ii] as int] == k0);
            }
            assert forall|v: int, j: int|
                0 <= v < n && !g[v].delay && 0 <= j < g[v].ins.len() implies read_ok(
                self.values@,
                self.sources@,
                self.last_inputs@,
                v,
                j,
            ) by {
                assert(placed_has(o, v));
                let ii = choose|ii: int| 0 <= ii < o.len() && o[ii] == v;
                assert(read_ok(self.values@, self.sources@, self.last_inputs@, o[ii] as int, j));
            }
            assert forall|c: int| 0 <= c < n && g[c].delay implies self.values@[c]@[0] == Some(
                old_delays[c]->Some_0,
            ) by {
                assert(placed_has(o, c));
                let ii = choose|ii: int| 0 <= ii < o.len() && o[ii] == c;
                assert(g[o[ii] as int].delay);
            }
        }
        assert forall|c: int| 0 <= c < n && g[c].delay implies self.values@[self.sources@[c]@[0].0 as int]@[self.sources@[c]@[0].1 as int] == Some(self.delay_state@[c]->Some_0) by {
            assert(source_ok(g, c, 0, self.sources@[c]@[0]));
            assert(placed_has(o, self.sources@[c]@[0].0 as int));
            let ii = choose|ii: int| 0 <= ii < o.len() && o[ii] == self.sources@[c]@[0].0;
            assert(outputs_set(g, self.values@, o[ii] as int));
        }
        assert forall|v: int, j: int|
            0 <= v < n && !g[v].delay && 0 <= j < g[v].ins.len() implies self.values@[self.sources@[v]@[j].0 as int]@[self.sources@[v]@[j].1 as int] == Some(self.last_inputs@[v][j]) by {
            assert(read_ok(self.values@, self.sources@, self.last_inputs@, v, j));
        }
        proof {
            assert forall|c: int| 0 <= c < n && !g[c].delay implies returned_ok(
                #[trigger] self.returned@[c],
                g[c].outs.len(),
            ) && stored(self.values@[c]@, self.returned@[c]) by {
                assert(placed_has(o, c));
                let ii = choose|ii: int| 0 <= ii < o.len() && o[ii] == c;
                assert(!g[o[ii] as int].delay);
            }
            assert forall|c: int| 0 <= c < n && g[c].delay implies #[trigger] self.returned@[c] is None by {
                assert(placed_has(o, c));
                let ii = choose|ii: int| 0 <= ii < o.len() && o[ii] == c;
                assert(g[o[ii] as int].delay);
            }
            assert(stop_seen <==> exists|c: int| 0 <= c < n && returned_stop(#[trigger] self.returned@[c])) by {
                if exists|c: int| 0 <= c < n && returned_stop(#[trigger] self.returned@[c]) {
                    let c = choose|c: int| 0 <= c < n && returned_stop(#[trigger] self.returned@[c]);
                    assert(placed_has(o, c));
                    let ii = choose|ii: int| 0 <= ii < o.len() && o[ii] == c;
                    assert(returned_stop(self.returned@[o[ii] as int]));
                }
                if stop_seen {
                    let ii = choose|ii: int| 0 <= ii < n && returned_stop(self.returned@[#[trigger] o[ii] as int]);
                    assert(returned_stop(self.returned@[o[ii] as int]));
                }
            }
        }
        self.k = self.k + 1;
        if stop_seen || (self.max_iter != 0 && self.k >= self.max_iter) {
            self.stopped = true;
            assert(stop_seen ==> exists|c: int| 0 <= c < n && returned_stop(#[trigger] self.returned(c))) by {
                if stop_seen {
                    let c = choose|c: int| 0 <= c < n && returned_stop(#[trigger] self.returned@[c]);
                    assert(returned_stop(self.returned(c)));
                }
            }
            return Ok(StepResult::Stop);
        }
        Ok(StepResult::Continue)
    }
}

impl<V: Copy, B: Block<V>> ControlSystem<V, B> {
    /// The execution order, as indices of blocks in the order they were added.
    pub fn order(&self) -> (r: &Vec<usize>)
        ensures
            r@ == self.order_spec(),
    {
        &self.order
    }

    /// Number of blocks, delays included.
    pub fn len(&self) -> (r: usize)
        ensures
            r == self@.len(),
    {
        self.graph.len()
    }

    /// The name of block `b`.
    pub fn block_name(&self, b: usize) -> (r: &String)
        requires
            b < self@.len(),
        ensures
            r@ == self@[b as int].name,
    {
        &self.graph.block(b).name
    }

    /// Index of the next step.
    pub fn current_step(&self) -> (r: u64)
        ensures
            r == self.step_index(),
    {
        self.k
    }

    /// Whether the system has stopped.
    pub fn stopped(&self) -> (r: bool)
        ensures
            r == self.is_stopped(),
    {
        self.stopped
    }

    /// The value that output `k` of block `b` wrote at the last step.
    pub fn output_value(&self, b: usize, k: usize) -> (r: Option<V>)
        requires
            self.wf(),
            b < self@.len(),
            k < self@[b as int].outs.len(),
        ensures
            r == self.value(b as int, k as int),
    {
        self.values[b][k]
    }

    /// The value of signal `name` at the last step: what its producer wrote.
    pub fn signal_value(&self, name: &String) -> (r: Option<V>)
        requires
            self.wf(),
        ensures
            !has_producer(self@, name@) ==> r is None,
            forall|b: int, k: int|
                0 <= b < self@.len() && 0 <= k < self@[b].outs.len() && #[trigger] self@[b].outs[k].0
                    == name@ ==> r == self.value(b, k),
    {
        match self.graph.producer_of(name) {
            None => {
                assert forall|b2: int, k2: int|
                    0 <= b2 < self@.len() && 0 <= k2 < self@[b2].outs.len() && #[trigger] self@[b2].outs[k2].0
                        == name@ implies false by {
                    assert(crate::graph::produces(self@, b2, name@));
                }
                None
            },
            Some((b, k)) => {
                assert(crate::graph::produces(self@, b as int, name@));
                let r = self.values[b][k];
                assert forall|b2: int, k2: int|
                    0 <= b2 < self@.len() && 0 <= k2 < self@[b2].outs.len() && #[trigger] self@[b2].outs[k2].0
                        == name@ implies r == self.value(b2, k2) by {
                    assert(graph_wf(self@));
                    if b2 != b || k2 != k {
                        assert(self@[b2].outs[k2].0 != self@[b as int].outs[k as int].0);
                    }
                }
                r
            },
        }
    }
}

} // verus!
