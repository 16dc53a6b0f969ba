//! Block graph: declarations, name wiring, validation and execution order.
use vstd::prelude::*;

verus! {

/// Why a graph could not be built.
#[derive(Debug, Clone, Copy, PartialEq, Eq, Structural)]
pub enum BuildError {
    DuplicateBlockName,
    DuplicateProducer,
    UnknownSignal,
    TypeMismatch,
    Cycle,
    UnknownPort,
}

/// A port as a block declares it: its local name and its element type tag.
#[derive(Debug)]
pub struct PortDecl {
    pub name: String,
    pub ty: u32,
}

/// One entry of a wiring list: the block's port `port` is bound to `signal`.
#[derive(Debug)]
pub struct Wire {
    pub port: String,
    pub signal: String,
}

/// A port after wiring: the signal it is bound to and its element type tag.
#[derive(Debug)]
pub struct Binding {
    pub signal: String,
    pub ty: u32,
}

/// A block of the graph after wiring.
#[derive(Debug)]
pub struct BlockDecl {
    pub name: String,
    pub inputs: Vec<Binding>,
    pub outputs: Vec<Binding>,
    pub delay: bool,
}

/// A bound port in the model: signal name and type tag.
pub type PortModel = (Seq<char>, u32);

/// What a block is to the graph: its name, its bound inputs and outputs, and
/// whether it is a unit delay.
pub struct BlockModel {
    pub name: Seq<char>,
    pub ins: Seq<PortModel>,
    pub outs: Seq<PortModel>,
    pub delay: bool,
}

impl View for PortDecl {
    type V = PortModel;

    open spec fn view(&self) -> PortModel {
        (self.name@, self.ty)
    }
}

impl View for Wire {
    type V = (Seq<char>, Seq<char>);

    open spec fn view(&self) -> (Seq<char>, Seq<char>) {
        (self.port@, self.signal@)
    }
}

impl View for Binding {
    type V = PortModel;

    open spec fn view(&self) -> PortModel {
        (self.signal@, self.ty)
    }
}

pub open spec fn ports_view(v: Seq<PortDecl>) -> Seq<PortModel> {
    v.map_values(|p: PortDecl| p@)
}

pub open spec fn wires_view(v: Seq<Wire>) -> Seq<(Seq<char>, Seq<char>)> {
    v.map_values(|w: Wire| w@)
}

pub open spec fn bindings_view(v: Seq<Binding>) -> Seq<PortModel> {
    v.map_values(|b: Binding| b@)
}

impl View for BlockDecl {
    type V = BlockModel;

    open spec fn view(&self) -> BlockModel {
        BlockModel {
            name: self.name@,
            ins: bindings_view(self.inputs@),
            outs: bindings_view(self.outputs@),
            delay: self.delay,
        }
    }
}

/// The signal that port `port` is bound to under `wiring`: the signal of the
/// first entry that names the port, or the port's own name when none does.
pub open spec fn wired(port: Seq<char>, wiring: Seq<(Seq<char>, Seq<char>)>) -> Seq<char>
    decreases wiring.len(),
{
    if wiring.len() == 0 {
        port
    } else if wiring[0].0 == port {
        wiring[0].1
    } else {
        wired(port, wiring.drop_first())
    }
}

/// Declared ports bound through a wiring list.
pub open spec fn resolve(ports: Seq<PortModel>, wiring: Seq<(Seq<char>, Seq<char>)>) -> Seq<
    PortModel,
> {
    Seq::new(ports.len(), |i: int| (wired(ports[i].0, wiring), ports[i].1))
}

/// A port named `name` is among the declared ports.
pub open spec fn declared(ports: Seq<PortModel>, name: Seq<char>) -> bool {
    exists|i: int| 0 <= i < ports.len() && ports[i].0 == name
}

/// Some entry of the wiring list names a port that is not declared.
pub open spec fn unknown_port(ports: Seq<PortModel>, wiring: Seq<(Seq<char>, Seq<char>)>) -> bool {
    exists|j: int| 0 <= j < wiring.len() && !declared(ports, #[trigger] wiring[j].0)
}

/// All bound ports of a block, inputs first.
pub open spec fn ports_of(b: BlockModel) -> Seq<PortModel> {
    b.ins + b.outs
}

/// Two ports bound to one signal with different types.
pub open spec fn conflicts(p: PortModel, q: PortModel) -> bool {
    p.0 == q.0 && p.1 != q.1
}

pub open spec fn name_taken(g: Seq<BlockModel>, name: Seq<char>) -> bool {
    exists|b: int| 0 <= b < g.len() && g[b].name == name
}

/// Block `b` has an output bound to signal `s`.
pub open spec fn produces(g: Seq<BlockModel>, b: int, s: Seq<char>) -> bool {
    0 <= b < g.len() && exists|k: int| 0 <= k < g[b].outs.len() && g[b].outs[k].0 == s
}

pub open spec fn has_producer(g: Seq<BlockModel>, s: Seq<char>) -> bool {
    exists|b: int| produces(g, b, s)
}

/// A new block would produce a signal that already has a producer, or the
/// same signal twice.
pub open spec fn output_clash(g: Seq<BlockModel>, outs: Seq<PortModel>) -> bool {
    (exists|k: int| 0 <= k < outs.len() && has_producer(g, #[trigger] outs[k].0)) || (exists|
        k1: int,
        k2: int,
    | 0 <= k1 < k2 < outs.len() && #[trigger] outs[k1].0 == #[trigger] outs[k2].0)
}

/// Port `p` disagrees in type with some port of graph `g`.
pub open spec fn clashes_with_graph(g: Seq<BlockModel>, p: PortModel) -> bool {
    exists|b: int, j: int|
        0 <= b < g.len() && 0 <= j < ports_of(g[b]).len() && conflicts(
            p,
            #[trigger] ports_of(g[b])[j],
        )
}

/// Port `p` disagrees in type with some port of the list `l`.
pub open spec fn clashes_with_list(l: Seq<PortModel>, p: PortModel) -> bool {
    exists|j: int| 0 <= j < l.len() && conflicts(p, #[trigger] l[j])
}

/// A port of a new block disagrees in type with a port of the graph or of
/// the new block itself.
pub open spec fn type_clash(g: Seq<BlockModel>, ports: Seq<PortModel>) -> bool {
    exists|i: int|
        0 <= i < ports.len() && (clashes_with_graph(g, #[trigger] ports[i]) || clashes_with_list(
            ports,
            ports[i],
        ))
}

/// The block that `add_block` appends for the given declaration.
pub open spec fn wired_block(
    name: Seq<char>,
    ins: Seq<PortModel>,
    outs: Seq<PortModel>,
    iw: Seq<(Seq<char>, Seq<char>)>,
    ow: Seq<(Seq<char>, Seq<char>)>,
    delay: bool,
) -> BlockModel {
    BlockModel { name, ins: resolve(ins, iw), outs: resolve(outs, ow), delay }
}

/// The error, if any, of adding a block to graph `g`, in the order in which
/// the checks are made.
pub open spec fn add_error(
    g: Seq<BlockModel>,
    name: Seq<char>,
    ins: Seq<PortModel>,
    outs: Seq<PortModel>,
    iw: Seq<(Seq<char>, Seq<char>)>,
    ow: Seq<(Seq<char>, Seq<char>)>,
    delay: bool,
) -> Option<BuildError> {
    let nb = wired_block(name, ins, outs, iw, ow, delay);
    if name_taken(g, name) {
        Some(BuildError::DuplicateBlockName)
    } else if unknown_port(ins, iw) || unknown_port(outs, ow) {
        Some(BuildError::UnknownPort)
    } else if output_clash(g, nb.outs) {
        Some(BuildError::DuplicateProducer)
    } else if type_clash(g, ports_of(nb)) {
        Some(BuildError::TypeMismatch)
    } else {
        None
    }
}

/// Well-formed graph: unique block names, at most one producer per signal,
/// one type per signal.
pub open spec fn graph_wf(g: Seq<BlockModel>) -> bool {
    &&& forall|b1: int, b2: int|
        0 <= b1 < g.len() && 0 <= b2 < g.len() && b1 != b2 ==> g[b1].name != g[b2].name
    &&& forall|b1: int, k1: int, b2: int, k2: int|
        0 <= b1 < g.len() && 0 <= b2 < g.len() && 0 <= k1 < g[b1].outs.len() && 0 <= k2
            < g[b2].outs.len() && (b1 != b2 || k1 != k2) ==> g[b1].outs[k1].0 != g[b2].outs[k2].0
    &&& forall|b1: int, j1: int, b2: int, j2: int|
        0 <= b1 < g.len() && 0 <= b2 < g.len() && 0 <= j1 < ports_of(g[b1]).len() && 0 <= j2
            < ports_of(g[b2]).len() ==> !conflicts(ports_of(g[b1])[j1], ports_of(g[b2])[j2])
}

/// The signal that port `port` is bound to under `wiring`.
fn wired_signal(port: &String, wiring: &Vec<Wire>) -> (r: String)
    ensures
        r@ == wired(port@, wires_view(wiring@)),
{
    let mut j: usize = 0;
    assert(wires_view(wiring@).subrange(0, wiring.len() as int) =~= wires_view(wiring@));
    while j < wiring.len()
        invariant
            0 <= j <= wiring.len(),
            wired(port@, wires_view(wiring@)) == wired(
                port@,
                wires_view(wiring@).subrange(j as int, wiring.len() as int),
            ),
        decreases wiring.len() - j,
    {
        let ghost rest = wires_view(wiring@).subrange(j as int, wiring.len() as int);
        if wiring[j].port == *port {
            return wiring[j].signal.clone();
        }
        assert(rest.drop_first() =~= wires_view(wiring@).subrange(j + 1, wiring.len() as int));
        j += 1;
    }
    assert(wires_view(wiring@).subrange(j as int, wiring.len() as int).len() == 0);
    port.clone()
}

/// Bind each declared port through the wiring list.
fn resolve_ports(ports: &Vec<PortDecl>, wiring: &Vec<Wire>) -> (r: Vec<Binding>)
    ensures
        bindings_view(r@) == resolve(ports_view(ports@), wires_view(wiring@)),
{
    let mut r: Vec<Binding> = Vec::new();
    let mut i: usize = 0;
    while i < ports.len()
        invariant
            0 <= i <= ports.len(),
            r@.len() == i,
            bindings_view(r@) == resolve(ports_view(ports@), wires_view(wiring@)).subrange(
                0,
                i as int,
            ),
        decreases ports.len() - i,
    {
        let s = wired_signal(&ports[i].name, wiring);
        let ghost before = r@;
        r.push(Binding { signal: s, ty: ports[i].ty });
        assert(ports_view(ports@)[i as int] == ports@[i as int]@);
        assert(bindings_view(r@)[i as int] == r@[i as int]@);
        assert(bindings_view(r@).subrange(0, i as int) =~= bindings_view(before));
        assert(bindings_view(r@) =~= resolve(ports_view(ports@), wires_view(wiring@)).subrange(
            0,
            i + 1,
        ));
        i += 1;
    }
    assert(resolve(ports_view(ports@), wires_view(wiring@)).subrange(0, i as int) =~= resolve(
        ports_view(ports@),
        wires_view(wiring@),
    ));
    r
}

/// Whether some wiring entry names a port that is not declared.
fn has_unknown_port(ports: &Vec<PortDecl>, wiring: &Vec<Wire>) -> (r: bool)
    ensures
        r == unknown_port(ports_view(ports@), wires_view(wiring@)),
{
    let ghost pv = ports_view(ports@);
    let ghost wv = wires_view(wiring@);
    let mut j: usize = 0;
    while j < wiring.len()
        invariant
            0 <= j <= wiring.len(),
            pv == ports_view(ports@),
            wv == wires_view(wiring@),
            forall|jj: int| 0 <= jj < j ==> declared(pv, #[trigger] wv[jj].0),
        decreases wiring.len() - j,
    {
        let mut found = false;
        let mut i: usize = 0;
        while i < ports.len()
            invariant
                0 <= i <= ports.len(),
                0 <= j < wiring.len(),
                pv == ports_view(ports@),
                wv == wires_view(wiring@),
                found ==> exists|ii: int| 0 <= ii < pv.len() && pv[ii].0 == wv[j as int].0,
                !found ==> forall|ii: int| 0 <= ii < i ==> pv[ii].0 != wv[j as int].0,
            decreases ports.len() - i,
        {
            assert(pv[i as int] == ports@[i as int]@);
            assert(wv[j as int] == wiring@[j as int]@);
            if ports[i].name == wiring[j].port {
                found = true;
            }
            i += 1;
        }
        if !found {
            assert(!declared(pv, wv[j as int].0));
            return true;
        }
        j += 1;
    }
    false
}

/// Adding a block that passes every check keeps the graph well formed.
proof fn lemma_add_keeps_wf(g: Seq<BlockModel>, nb: BlockModel)
    requires
        graph_wf(g),
        !name_taken(g, nb.name),
        !output_clash(g, nb.outs),
        !type_clash(g, ports_of(nb)),
    ensures
        graph_wf(g.push(nb)),
{
    let h = g.push(nb);
    let n = g.len() as int;
    assert forall|b1: int, k1: int, b2: int, k2: int|
        0 <= b1 < h.len() && 0 <= b2 < h.len() && 0 <= k1 < h[b1].outs.len() && 0 <= k2
            < h[b2].outs.len() && (b1 != b2 || k1 != k2) implies h[b1].outs[k1].0
        != h[b2].outs[k2].0 by {
        if b1 == n && b2 < n {
            if h[b1].outs[k1].0 == h[b2].outs[k2].0 {
                assert(produces(g, b2, nb.outs[k1].0));
            }
        } else if b2 == n && b1 < n {
            if h[b1].outs[k1].0 == h[b2].outs[k2].0 {
                assert(produces(g, b1, nb.outs[k2].0));
            }
        } else if b1 == n && b2 == n {
            if k1 < k2 {
                assert(nb.outs[k1].0 != nb.outs[k2].0);
            } else {
                assert(nb.outs[k2].0 != nb.outs[k1].0);
            }
        }
    }
    assert forall|b1: int, j1: int, b2: int, j2: int|
        0 <= b1 < h.len() && 0 <= b2 < h.len() && 0 <= j1 < ports_of(h[b1]).len() && 0 <= j2
            < ports_of(h[b2]).len() implies !conflicts(
        ports_of(h[b1])[j1],
        ports_of(h[b2])[j2],
    ) by {
        if b1 == n && b2 < n {
            if conflicts(ports_of(h[b1])[j1], ports_of(h[b2])[j2]) {
                assert(clashes_with_graph(g, ports_of(nb)[j1]));
            }
        } else if b2 == n && b1 < n {
            if conflicts(ports_of(h[b1])[j1], ports_of(h[b2])[j2]) {
                assert(conflicts(ports_of(nb)[j2], ports_of(g[b1])[j1]));
                assert(clashes_with_graph(g, ports_of(nb)[j2]));
            }
        } else if b1 == n && b2 == n {
            if conflicts(ports_of(h[b1])[j1], ports_of(h[b2])[j2]) {
                assert(clashes_with_list(ports_of(nb), ports_of(nb)[j1]));
            }
        }
    }
}

/// Whether `s` is bound to a port of the list `l` with a type other than `ty`.
fn list_clash(l: &Vec<Binding>, s: &String, ty: u32) -> (r: bool)
    ensures
        r == clashes_with_list(bindings_view(l@), (s@, ty)),
{
    let ghost lv = bindings_view(l@);
    let mut j: usize = 0;
    while j < l.len()
        invariant
            0 <= j <= l.len(),
            lv == bindings_view(l@),
            forall|jj: int| 0 <= jj < j ==> !conflicts((s@, ty), #[trigger] lv[jj]),
        decreases l.len() - j,
    {
        assert(lv[j as int] == l@[j as int]@);
        if l[j].signal == *s && l[j].ty != ty {
            assert(conflicts((s@, ty), lv[j as int]));
            return true;
        }
        j += 1;
    }
    false
}

/// The bound ports of a whole graph.
pub struct Graph {
    blocks: Vec<BlockDecl>,
}

impl View for Graph {
    type V = Seq<BlockModel>;

    closed spec fn view(&self) -> Seq<BlockModel> {
        self.blocks@.map_values(|b: BlockDecl| b@)
    }
}

impl Graph {
    pub open spec fn wf(&self) -> bool {
        graph_wf(self@)
    }

    /// The empty graph.
    pub fn new() -> (g: Graph)
        ensures
            g@ == Seq::<BlockModel>::empty(),
            g.wf(),
    {
        let g = Graph { blocks: Vec::new() };
        assert(g@ =~= Seq::<BlockModel>::empty());
        g
    }

    /// Number of blocks.
    pub fn len(&self) -> (r: usize)
        ensures
            r == self@.len(),
    {
        self.blocks.len()
    }

    /// The declaration of block `b`.
    pub fn block(&self, b: usize) -> (r: &BlockDecl)
        requires
            b < self@.len(),
        ensures
            r@ == self@[b as int],
    {
        &self.blocks[b]
    }

    /// Whether a block of this name exists.
    fn name_in_use(&self, name: &String) -> (r: bool)
        ensures
            r == name_taken(self@, name@),
    {
        let mut b: usize = 0;
        while b < self.blocks.len()
            invariant
                0 <= b <= self.blocks.len(),
                forall|bb: int| 0 <= bb < b ==> #[trigger] self@[bb].name != name@,
            decreases self.blocks.len() - b,
        {
            assert(self@[b as int] == self.blocks@[b as int]@);
            if self.blocks[b].name == *name {
                return true;
            }
            b += 1;
        }
        false
    }

    /// The block and output port that produce signal `s`, if any.
    pub fn producer_of(&self, s: &String) -> (r: Option<(usize, usize)>)
        ensures
            r matches Some((b, k)) ==> b < self@.len() && k < self@[b as int].outs.len()
                && self@[b as int].outs[k as int].0 == s@,
            r is None ==> !has_producer(self@, s@),
    {
        let mut b: usize = 0;
        while b < self.blocks.len()
            invariant
                0 <= b <= self.blocks.len(),
                forall|bb: int| 0 <= bb < b ==> !#[trigger] produces(self@, bb, s@),
            decreases self.blocks.len() - b,
        {
            let outs = &self.blocks[b].outputs;
            assert(self@[b as int] == self.blocks@[b as int]@);
            let mut k: usize = 0;
            while k < outs.len()
                invariant
                    0 <= k <= outs.len(),
                    b < self.blocks.len(),
                    outs == self.blocks@[b as int].outputs,
                    self@[b as int] == self.blocks@[b as int]@,
                    forall|kk: int| 0 <= kk < k ==> #[trigger] self@[b as int].outs[kk].0 != s@,
                decreases outs.len() - k,
            {
                assert(self@[b as int].outs[k as int] == outs@[k as int]@);
                if outs[k].signal == *s {
                    return Some((b, k));
                }
                k += 1;
            }
            b += 1;
        }
        None
    }
}

impl Graph {
    /// Whether `s` is bound somewhere in the graph with a type other than `ty`.
    fn graph_clash(&self, s: &String, ty: u32) -> (r: bool)
        ensures
            r == clashes_with_graph(self@, (s@, ty)),
    {
        let mut b: usize = 0;
        while b < self.blocks.len()
            invariant
                0 <= b <= self.blocks.len(),
                forall|bb: int, j: int|
                    0 <= bb < b && 0 <= j < ports_of(self@[bb]).len() ==> !conflicts(
                        (s@, ty),
                        #[trigger] ports_of(self@[bb])[j],
                    ),
            decreases self.blocks.len() - b,
        {
            let ghost m = self@[b as int];
            assert(m == self.blocks@[b as int]@);
            let c1 = list_clash(&self.blocks[b].inputs, s, ty);
            let c2 = list_clash(&self.blocks[b].outputs, s, ty);
            if c1 || c2 {
                proof {
                    if c1 {
                        let j = choose|j: int|
                            0 <= j < m.ins.len() && conflicts((s@, ty), #[trigger] m.ins[j]);
                        assert(ports_of(m)[j] == m.ins[j]);
                    } else {
                        let j = choose|j: int|
                            0 <= j < m.outs.len() && conflicts((s@, ty), #[trigger] m.outs[j]);
                        assert(ports_of(m)[m.ins.len() + j] == m.outs[j]);
                    }
                }
                return true;
            }
            assert forall|j: int| 0 <= j < ports_of(m).len() implies !conflicts(
                (s@, ty),
                #[trigger] ports_of(m)[j],
            ) by {
                if j < m.ins.len() {
                    assert(ports_of(m)[j] == m.ins[j]);
                } else {
                    assert(ports_of(m)[j] == m.outs[j - m.ins.len()]);
                }
            }
            b += 1;
        }
        false
    }

    /// Whether the outputs `outs` of a new block clash with producers of the
    /// graph or with each other.
    fn outputs_clash(&self, outs: &Vec<Binding>) -> (r: bool)
        ensures
            r == output_clash(self@, bindings_view(outs@)),
    {
        let ghost ov = bindings_view(outs@);
        let mut k: usize = 0;
        while k < outs.len()
            invariant
                0 <= k <= outs.len(),
                ov == bindings_view(outs@),
                forall|kk: int| 0 <= kk < k ==> !has_producer(self@, #[trigger] ov[kk].0),
                forall|k1: int, k2: int|
                    0 <= k1 < k2 < k ==> #[trigger] ov[k1].0 != #[trigger] ov[k2].0,
            decreases outs.len() - k,
        {
            assert(ov[k as int] == outs@[k as int]@);
            match self.producer_of(&outs[k].signal) {
                Some((b, kk)) => {
                    assert(self@[b as int].outs[kk as int].0 == ov[k as int].0);
                    assert(produces(self@, b as int, ov[k as int].0));
                    return true;
                },
                None => {},
            }
            let mut k1: usize = 0;
            while k1 < k
                invariant
                    0 <= k1 <= k < outs.len(),
                    ov == bindings_view(outs@),
                    forall|kk: int| 0 <= kk < k1 ==> #[trigger] ov[kk].0 != ov[k as int].0,
                decreases k - k1,
            {
                assert(ov[k1 as int] == outs@[k1 as int]@);
                if outs[k1].signal == outs[k].signal {
                    assert(ov[k1 as int].0 == ov[k as int].0);
                    return true;
                }
                k1 += 1;
            }
            k += 1;
        }
        false
    }

    /// Whether some port of a new block with inputs `ins` and outputs `outs`
    /// disagrees in type with the graph or with the new block itself.
    fn types_clash(&self, ins: &Vec<Binding>, outs: &Vec<Binding>) -> (r: bool)
        ensures
            r == type_clash(self@, bindings_view(ins@) + bindings_view(outs@)),
    {
        let ghost iv = bindings_view(ins@);
        let ghost ov = bindings_view(outs@);
        let ghost all = iv + ov;
        proof {
            assert forall|p: PortModel| #[trigger]
                clashes_with_list(all, p) == (clashes_with_list(iv, p) || clashes_with_list(
                    ov,
                    p,
                )) by {
                if clashes_with_list(iv, p) {
                    let j = choose|j: int| 0 <= j < iv.len() && conflicts(p, #[trigger] iv[j]);
                    assert(all[j] == iv[j]);
                }
                if clashes_with_list(ov, p) {
                    let j = choose|j: int| 0 <= j < ov.len() && conflicts(p, #[trigger] ov[j]);
                    assert(all[iv.len() + j] == ov[j]);
                }
                if clashes_with_list(all, p) {
                    let j = choose|j: int| 0 <= j < all.len() && conflicts(p, #[trigger] all[j]);
                    if j < iv.len() {
                        assert(all[j] == iv[j]);
                    } else {
                        assert(all[j] == ov[j - iv.len()]);
                    }
                }
            }
        }
        let mut i: usize = 0;
        while i < ins.len()
            invariant
                0 <= i <= ins.len(),
                iv == bindings_view(ins@),
                ov == bindings_view(outs@),
                all == iv + ov,
                forall|p: PortModel| #[trigger]
                    clashes_with_list(all, p) == (clashes_with_list(iv, p) || clashes_with_list(
                        ov,
                        p,
                    )),
                forall|ii: int|
                    0 <= ii < i ==> !clashes_with_graph(self@, #[trigger] all[ii])
                        && !clashes_with_list(all, all[ii]),
            decreases ins.len() - i,
        {
            assert(all[i as int] == iv[i as int]);
            assert(iv[i as int] == ins@[i as int]@);
            let p = &ins[i];
            if self.graph_clash(&p.signal, p.ty) || list_clash(ins, &p.signal, p.ty) || list_clash(
                outs,
                &p.signal,
                p.ty,
            ) {
                return true;
            }
            i += 1;
        }
        let mut k: usize = 0;
        while k < outs.len()
            invariant
                0 <= k <= outs.len(),
                iv == bindings_view(ins@),
                ov == bindings_view(outs@),
                all == iv + ov,
                forall|p: PortModel| #[trigger]
                    clashes_with_list(all, p) == (clashes_with_list(iv, p) || clashes_with_list(
                        ov,
                        p,
                    )),
                forall|ii: int|
                    0 <= ii < iv.len() + k ==> !clashes_with_graph(self@, #[trigger] all[ii])
                        && !clashes_with_list(all, all[ii]),
            decreases outs.len() - k,
        {
            assert(all[iv.len() + k] == ov[k as int]);
            assert(ov[k as int] == outs@[k as int]@);
            let p = &outs[k];
            if self.graph_clash(&p.signal, p.ty) || list_clash(ins, &p.signal, p.ty) || list_clash(
                outs,
                &p.signal,
                p.ty,
            ) {
                return true;
            }
            k += 1;
        }
        false
    }

    /// Add a block named `name` with the declared ports `inputs` and `outputs`,
    /// bound by the wiring lists. On an error the graph is left as it was.
    pub fn add_block(
        &mut self,
        name: String,
        inputs: &Vec<PortDecl>,
        outputs: &Vec<PortDecl>,
        input_wiring: &Vec<Wire>,
        output_wiring: &Vec<Wire>,
        delay: bool,
    ) -> (r: Result<(), BuildError>)
        requires
            old(self).wf(),
        ensures
            final(self).wf(),
            match add_error(
                old(self)@,
                name@,
                ports_view(inputs@),
                ports_view(outputs@),
                wires_view(input_wiring@),
                wires_view(output_wiring@),
                delay,
            ) {
                Some(e) => r == Err::<(), BuildError>(e) && final(self)@ == old(self)@,
                None => r is Ok && final(self)@ == old(self)@.push(
                    wired_block(
                        name@,
                        ports_view(inputs@),
                        ports_view(outputs@),
                        wires_view(input_wiring@),
                        wires_view(output_wiring@),
                        delay,
                    ),
                ),
            },
    {
        if self.name_in_use(&name) {
            return Err(BuildError::DuplicateBlockName);
        }
        if has_unknown_port(inputs, input_wiring) || has_unknown_port(outputs, output_wiring) {
            return Err(BuildError::UnknownPort);
        }
        let ins = resolve_ports(inputs, input_wiring);
        let outs = resolve_ports(outputs, output_wiring);
        if self.outputs_clash(&outs) {
            return Err(BuildError::DuplicateProducer);
        }
        if self.types_clash(&ins, &outs) {
            return Err(BuildError::TypeMismatch);
        }
        let ghost nb = wired_block(
            name@,
            ports_view(inputs@),
            ports_view(outputs@),
            wires_view(input_wiring@),
            wires_view(output_wiring@),
            delay,
        );
        let decl = BlockDecl { name, inputs: ins, outputs: outs, delay };
        assert(decl@ == nb);
        proof {
            lemma_add_keeps_wf(self@, nb);
        }
        let ghost before = self.blocks@;
        self.blocks.push(decl);
        assert(self@ =~= before.map_values(|b: BlockDecl| b@).push(nb));
        Ok(())
    }
}

} // verus!
