use drone::graph::{BuildError, PortDecl, Wire};
use drone::system::{Block, ControlSystem, ControlSystemBuilder, StepInfo, StepResult};

const F64: u32 = 0;
const VEC3: u32 = 1;

fn port(name: &str) -> PortDecl {
    PortDecl { name: name.to_string(), ty: F64 }
}

fn wire(port: &str, signal: &str) -> Wire {
    Wire { port: port.to_string(), signal: signal.to_string() }
}

fn wires(pairs: &[(&str, &str)]) -> Vec<Wire> {
    pairs.iter().map(|(p, s)| wire(p, s)).collect()
}

enum TestBlock {
    Constant { name: String, value: f64 },
    Add { name: String },
    Gain { name: String, k: f64 },
    Pid { name: String, kp: f64 },
    Cart { name: String, m: f64, x: f64, v: f64 },
    StopAt { name: String, k: u64 },
    Fail { name: String },
    WrongArity { name: String },
    Typed { name: String, ty: u32 },
    Clock { name: String },
}

impl TestBlock {
    fn name(&self) -> String {
        match self {
            TestBlock::Constant { name, .. }
            | TestBlock::Add { name }
            | TestBlock::Gain { name, .. }
            | TestBlock::Pid { name, .. }
            | TestBlock::Cart { name, .. }
            | TestBlock::StopAt { name, .. }
            | TestBlock::Fail { name }
            | TestBlock::WrongArity { name }
            | TestBlock::Typed { name, .. }
            | TestBlock::Clock { name } => name.clone(),
        }
    }

    fn input_ports(&self) -> Vec<PortDecl> {
        match self {
            TestBlock::Constant { .. } | TestBlock::StopAt { .. } | TestBlock::Clock { .. } => {
                vec![]
            }
            TestBlock::Add { .. } => vec![port("a"), port("b")],
            TestBlock::Gain { .. } | TestBlock::Fail { .. } | TestBlock::WrongArity { .. } => {
                vec![port("u")]
            }
            TestBlock::Pid { .. } => vec![port("ref"), port("val")],
            TestBlock::Cart { .. } => vec![port("f")],
            TestBlock::Typed { ty, .. } => vec![PortDecl { name: "u".to_string(), ty: *ty }],
        }
    }

    fn output_ports(&self) -> Vec<PortDecl> {
        match self {
            TestBlock::Cart { .. } => vec![port("pos"), port("vel")],
            TestBlock::StopAt { .. } | TestBlock::Typed { .. } => vec![],
            _ => vec![port("y")],
        }
    }
}

impl Block<f64> for TestBlock {
    fn step(&mut self, info: StepInfo, inputs: &Vec<f64>) -> Result<(StepResult, Vec<f64>), String> {
        let dt = info.dt_us as f64 / 1e6;
        match self {
            TestBlock::Constant { value, .. } => Ok((StepResult::Continue, vec![*value])),
            TestBlock::Add { .. } => Ok((StepResult::Continue, vec![inputs[0] + inputs[1]])),
            TestBlock::Gain { k, .. } => Ok((StepResult::Continue, vec![*k * inputs[0]])),
            TestBlock::Pid { kp, .. } => {
                Ok((StepResult::Continue, vec![*kp * (inputs[0] - inputs[1])]))
            }
            TestBlock::Cart { m, x, v, .. } => {
                let a = inputs[0] / *m;
                let f = |s: (f64, f64)| (s.1, a);
                let s0 = (*x, *v);
                let k1 = f(s0);
                let k2 = f((s0.0 + 0.5 * dt * k1.0, s0.1 + 0.5 * dt * k1.1));
                let k3 = f((s0.0 + 0.5 * dt * k2.0, s0.1 + 0.5 * dt * k2.1));
                let k4 = f((s0.0 + dt * k3.0, s0.1 + dt * k3.1));
                *x += dt / 6.0 * (k1.0 + 2.0 * k2.0 + 2.0 * k3.0 + k4.0);
                *v += dt / 6.0 * (k1.1 + 2.0 * k2.1 + 2.0 * k3.1 + k4.1);
                Ok((StepResult::Continue, vec![*x, *v]))
            }
            TestBlock::StopAt { k, .. } => {
                if info.k >= *k {
                    Ok((StepResult::Stop, vec![]))
                } else {
                    Ok((StepResult::Continue, vec![]))
                }
            }
            TestBlock::Fail { .. } => Err("sensor unavailable".to_string()),
            TestBlock::WrongArity { .. } => Ok((StepResult::Continue, vec![1.0, 2.0])),
            TestBlock::Typed { .. } => Ok((StepResult::Continue, vec![])),
            TestBlock::Clock { .. } => Ok((StepResult::Continue, vec![info.t_us as f64])),
        }
    }
}

/// Add a block under its own name and ports.
fn add(
    b: &mut ControlSystemBuilder<f64, TestBlock>,
    block: TestBlock,
    input_wiring: &Vec<Wire>,
    output_wiring: &Vec<Wire>,
) -> Result<(), BuildError> {
    let name = block.name();
    let ins = block.input_ports();
    let outs = block.output_ports();
    b.add_block(block, name, &ins, &outs, input_wiring, output_wiring)
}

fn constant(name: &str, value: f64) -> TestBlock {
    TestBlock::Constant { name: name.to_string(), value }
}

fn gain(name: &str, k: f64) -> TestBlock {
    TestBlock::Gain { name: name.to_string(), k }
}

fn value(cs: &ControlSystem<f64, TestBlock>, signal: &str) -> Option<f64> {
    cs.signal_value(&signal.to_string())
}

#[test]
fn s1_closed_loop_pid_on_cart() {
    let mut b = ControlSystemBuilder::<f64, TestBlock>::new();
    add(&mut b, constant("ref", 15.0), &vec![], &wires(&[("y", "/ref/pos")])).unwrap();
    add(
        &mut b,
        TestBlock::Pid { name: "pid_pos".to_string(), kp: 1.0 },
        &wires(&[("ref", "/ref/pos"), ("val", "/cart/pos_d")]),
        &wires(&[("y", "/ref/vel")]),
    )
    .unwrap();
    add(
        &mut b,
        TestBlock::Pid { name: "pid_vel".to_string(), kp: 4.0 },
        &wires(&[("ref", "/ref/vel"), ("val", "/cart/vel_d")]),
        &wires(&[("y", "/force")]),
    )
    .unwrap();
    add(
        &mut b,
        TestBlock::Cart { name: "cart".to_string(), m: 1.0, x: 0.0, v: 0.0 },
        &wires(&[("f", "/force")]),
        &wires(&[("pos", "/cart/pos"), ("vel", "/cart/vel")]),
    )
    .unwrap();
    b.add_delay("pos_delay".to_string(), 0.0, "/cart/pos".to_string(), "/cart/pos_d".to_string(), F64)
        .unwrap();
    b.add_delay("vel_delay".to_string(), 0.0, "/cart/vel".to_string(), "/cart/vel_d".to_string(), F64)
        .unwrap();
    let mut cs = b.build(10_000, 0).ok().unwrap();
    for _ in 0..1000 {
        assert_eq!(cs.step().ok(), Some(StepResult::Continue));
    }
    let pos = value(&cs, "/cart/pos").unwrap();
    assert!((pos - 15.0).abs() < 0.5, "position {pos}");
    assert_eq!(cs.current_step(), 1000);
}

#[test]
fn s2_cycle_rejected() {
    let mut b = ControlSystemBuilder::<f64, TestBlock>::new();
    add(&mut b, gain("a", 1.0), &wires(&[("u", "/b")]), &wires(&[("y", "/a")])).unwrap();
    add(&mut b, gain("b", 1.0), &wires(&[("u", "/a")]), &wires(&[("y", "/b")])).unwrap();
    assert_eq!(b.build(1000, 0).err(), Some(BuildError::Cycle));
}

#[test]
fn s3_feedback_through_delay() {
    // one -> add -> sum, and sum fed back through a unit delay as fb.
    let mut b = ControlSystemBuilder::<f64, TestBlock>::new();
    add(&mut b, constant("one", 1.0), &vec![], &wires(&[("y", "one")])).unwrap();
    add(
        &mut b,
        TestBlock::Add { name: "add".to_string() },
        &wires(&[("a", "one"), ("b", "fb")]),
        &wires(&[("y", "sum")]),
    )
    .unwrap();
    b.add_delay("delay".to_string(), 0.0, "sum".to_string(), "fb".to_string(), F64).unwrap();
    let mut cs = b.build(1000, 0).ok().unwrap();
    let mut sums = vec![];
    let mut fbs = vec![];
    for _ in 0..3 {
        cs.step().ok().unwrap();
        sums.push(value(&cs, "sum").unwrap());
        fbs.push(value(&cs, "fb").unwrap());
    }
    assert_eq!(fbs, vec![0.0, 1.0, 2.0]);
    assert_eq!(sums, vec![1.0, 2.0, 3.0]);
    // fb at each step is sum of the step before; step 0 gives the initial value.
    assert_eq!(fbs[0], 0.0);
    assert_eq!(fbs[1], sums[0]);
    assert_eq!(fbs[2], sums[1]);
}

#[test]
fn delay_initial_value_is_read_at_step_zero() {
    let mut b = ControlSystemBuilder::<f64, TestBlock>::new();
    add(&mut b, constant("c", 4.0), &vec![], &wires(&[("y", "u")])).unwrap();
    b.add_delay("d".to_string(), -7.5, "u".to_string(), "y".to_string(), F64).unwrap();
    add(&mut b, gain("g", 2.0), &wires(&[("u", "y")]), &wires(&[("y", "out")])).unwrap();
    let mut cs = b.build(1000, 0).ok().unwrap();
    cs.step().ok().unwrap();
    assert_eq!(value(&cs, "y"), Some(-7.5));
    assert_eq!(value(&cs, "out"), Some(-15.0));
    cs.step().ok().unwrap();
    assert_eq!(value(&cs, "y"), Some(4.0));
    assert_eq!(value(&cs, "out"), Some(8.0));
}

fn chain_in_reverse() -> ControlSystemBuilder<f64, TestBlock> {
    // Added consumers first: the order must still put producers first.
    let mut b = ControlSystemBuilder::<f64, TestBlock>::new();
    add(&mut b, gain("g2", 3.0), &wires(&[("u", "/x1")]), &wires(&[("y", "/x2")])).unwrap();
    add(&mut b, gain("g1", 2.0), &wires(&[("u", "/x0")]), &wires(&[("y", "/x1")])).unwrap();
    add(&mut b, constant("src", 5.0), &vec![], &wires(&[("y", "/x0")])).unwrap();
    add(&mut b, constant("other", 1.0), &vec![], &wires(&[("y", "/o")])).unwrap();
    b
}

#[test]
fn p1_same_sequence_same_order() {
    let cs1 = chain_in_reverse().build(1000, 0).ok().unwrap();
    let cs2 = chain_in_reverse().build(1000, 0).ok().unwrap();
    assert_eq!(cs1.order(), cs2.order());
    // Level by level, each in insertion order: src (2) and other (3), then
    // g1 (1), then g2 (0).
    assert_eq!(cs1.order(), &vec![2, 3, 1, 0]);
    assert_eq!(cs1.block_name(2), "src");
}

#[test]
fn p4_consumer_reads_same_step() {
    let mut cs = chain_in_reverse().build(1000, 0).ok().unwrap();
    cs.step().ok().unwrap();
    assert_eq!(value(&cs, "/x0"), Some(5.0));
    assert_eq!(value(&cs, "/x1"), Some(10.0));
    assert_eq!(value(&cs, "/x2"), Some(30.0));
}

#[test]
fn p2_one_producer() {
    let mut b = ControlSystemBuilder::<f64, TestBlock>::new();
    add(&mut b, constant("c1", 1.0), &vec![], &wires(&[("y", "/s")])).unwrap();
    let r = add(&mut b, constant("c2", 2.0), &vec![], &wires(&[("y", "/s")]));
    assert_eq!(r, Err(BuildError::DuplicateProducer));
    add(&mut b, gain("g", 1.0), &wires(&[("u", "/s")]), &wires(&[("y", "/t")])).unwrap();
    let mut cs = b.build(1000, 0).ok().unwrap();
    cs.step().ok().unwrap();
    assert_eq!(value(&cs, "/t"), Some(1.0));
}

#[test]
fn duplicate_block_name() {
    let mut b = ControlSystemBuilder::<f64, TestBlock>::new();
    add(&mut b, constant("c", 1.0), &vec![], &wires(&[("y", "/a")])).unwrap();
    let r = add(&mut b, constant("c", 2.0), &vec![], &wires(&[("y", "/b")]));
    assert_eq!(r, Err(BuildError::DuplicateBlockName));
}

#[test]
fn unknown_port() {
    let mut b = ControlSystemBuilder::<f64, TestBlock>::new();
    let r = add(&mut b, constant("c", 1.0), &vec![], &wires(&[("z", "/a")]));
    assert_eq!(r, Err(BuildError::UnknownPort));
    let r = add(&mut b, gain("g", 1.0), &wires(&[("w", "/a")]), &vec![]);
    assert_eq!(r, Err(BuildError::UnknownPort));
}

#[test]
fn duplicate_producer_within_one_block() {
    let mut b = ControlSystemBuilder::<f64, TestBlock>::new();
    let cart = TestBlock::Cart { name: "cart".to_string(), m: 1.0, x: 0.0, v: 0.0 };
    let r = add(&mut b, cart, &vec![], &wires(&[("pos", "/p"), ("vel", "/p")]));
    assert_eq!(r, Err(BuildError::DuplicateProducer));
}

#[test]
fn type_mismatch() {
    let mut b = ControlSystemBuilder::<f64, TestBlock>::new();
    add(&mut b, constant("c", 1.0), &vec![], &wires(&[("y", "/a")])).unwrap();
    let r = add(
        &mut b,
        TestBlock::Typed { name: "t".to_string(), ty: VEC3 },
        &wires(&[("u", "/a")]),
        &vec![],
    );
    assert_eq!(r, Err(BuildError::TypeMismatch));
    add(&mut b, TestBlock::Typed { name: "t".to_string(), ty: F64 }, &wires(&[("u", "/a")]), &vec![])
        .unwrap();
}

#[test]
fn unwired_port_binds_to_its_own_name() {
    let mut b = ControlSystemBuilder::<f64, TestBlock>::new();
    add(&mut b, constant("c", 3.0), &vec![], &vec![]).unwrap();
    add(&mut b, gain("g", 2.0), &wires(&[("u", "y")]), &wires(&[("y", "z")])).unwrap();
    let mut cs = b.build(1000, 0).ok().unwrap();
    cs.step().ok().unwrap();
    assert_eq!(value(&cs, "z"), Some(6.0));
}

#[test]
fn unknown_signal() {
    let mut b = ControlSystemBuilder::<f64, TestBlock>::new();
    add(&mut b, gain("g", 1.0), &wires(&[("u", "/nowhere")]), &wires(&[("y", "/a")])).unwrap();
    assert_eq!(b.build(1000, 0).err(), Some(BuildError::UnknownSignal));
}

#[test]
fn cycle_of_delays_only_is_legal() {
    let mut b = ControlSystemBuilder::<f64, TestBlock>::new();
    b.add_delay("d1".to_string(), 1.0, "/b".to_string(), "/a".to_string(), F64).unwrap();
    b.add_delay("d2".to_string(), 2.0, "/a".to_string(), "/b".to_string(), F64).unwrap();
    let mut cs = b.build(1000, 0).ok().unwrap();
    cs.step().ok().unwrap();
    assert_eq!(value(&cs, "/a"), Some(1.0));
    assert_eq!(value(&cs, "/b"), Some(2.0));
    cs.step().ok().unwrap();
    assert_eq!(value(&cs, "/a"), Some(2.0));
    assert_eq!(value(&cs, "/b"), Some(1.0));
}

#[test]
fn stop_is_sticky() {
    let mut b = ControlSystemBuilder::<f64, TestBlock>::new();
    add(&mut b, TestBlock::StopAt { name: "s".to_string(), k: 2 }, &vec![], &vec![]).unwrap();
    let mut cs = b.build(1000, 0).ok().unwrap();
    assert_eq!(cs.step().ok(), Some(StepResult::Continue));
    assert_eq!(cs.step().ok(), Some(StepResult::Continue));
    assert_eq!(cs.step().ok(), Some(StepResult::Stop));
    assert_eq!(cs.current_step(), 3);
    assert_eq!(cs.step().ok(), Some(StepResult::Stop));
    assert_eq!(cs.current_step(), 3);
    assert!(cs.stopped());
}

#[test]
fn max_iter_stops() {
    let mut b = ControlSystemBuilder::<f64, TestBlock>::new();
    add(&mut b, constant("c", 1.0), &vec![], &vec![]).unwrap();
    let mut cs = b.build(1000, 2).ok().unwrap();
    assert_eq!(cs.step().ok(), Some(StepResult::Continue));
    assert_eq!(cs.step().ok(), Some(StepResult::Stop));
    assert_eq!(cs.step().ok(), Some(StepResult::Stop));
    assert_eq!(cs.current_step(), 2);
}

#[test]
fn block_error_names_the_block() {
    let mut b = ControlSystemBuilder::<f64, TestBlock>::new();
    add(&mut b, constant("c", 1.0), &vec![], &wires(&[("y", "u")])).unwrap();
    add(&mut b, TestBlock::Fail { name: "imu".to_string() }, &vec![], &wires(&[("y", "/imu")]))
        .unwrap();
    let mut cs = b.build(1000, 0).ok().unwrap();
    let e = cs.step().err().unwrap();
    assert_eq!(e.block, "imu");
    assert_eq!(e.message, "sensor unavailable");
    assert!(cs.stopped());
    assert_eq!(cs.step().ok(), Some(StepResult::Stop));
}

#[test]
fn wrong_number_of_outputs() {
    let mut b = ControlSystemBuilder::<f64, TestBlock>::new();
    add(&mut b, constant("c", 1.0), &vec![], &wires(&[("y", "u")])).unwrap();
    add(&mut b, TestBlock::WrongArity { name: "w".to_string() }, &vec![], &wires(&[("y", "/w")]))
        .unwrap();
    let mut cs = b.build(1000, 0).ok().unwrap();
    let e = cs.step().err().unwrap();
    assert_eq!(e.block, "w");
    assert_eq!(e.message, "wrong number of outputs");
}

#[test]
fn step_info_carries_time() {
    let mut b = ControlSystemBuilder::<f64, TestBlock>::new();
    add(&mut b, TestBlock::Clock { name: "clk".to_string() }, &vec![], &wires(&[("y", "/t")]))
        .unwrap();
    let mut cs = b.build(2500, 0).ok().unwrap();
    let mut ts = vec![];
    for _ in 0..4 {
        cs.step().ok().unwrap();
        ts.push(value(&cs, "/t").unwrap());
    }
    assert_eq!(ts, vec![0.0, 2500.0, 5000.0, 7500.0]);
    assert_eq!(cs.current_step(), 4);
}

#[test]
fn longer_cycle_rejected() {
    let mut b = ControlSystemBuilder::<f64, TestBlock>::new();
    add(&mut b, constant("c", 1.0), &vec![], &wires(&[("y", "/in")])).unwrap();
    add(&mut b, gain("a", 1.0), &wires(&[("u", "/c")]), &wires(&[("y", "/a")])).unwrap();
    add(&mut b, gain("b", 1.0), &wires(&[("u", "/a")]), &wires(&[("y", "/b")])).unwrap();
    add(&mut b, gain("c2", 1.0), &wires(&[("u", "/b")]), &wires(&[("y", "/c")])).unwrap();
    assert_eq!(b.build(1000, 0).err(), Some(BuildError::Cycle));
}

#[test]
fn self_loop_rejected() {
    let mut b = ControlSystemBuilder::<f64, TestBlock>::new();
    add(&mut b, gain("g", 1.0), &wires(&[("u", "/g")]), &wires(&[("y", "/g")])).unwrap();
    assert_eq!(b.build(1000, 0).err(), Some(BuildError::Cycle));
}

#[test]
fn cycle_broken_by_delay_builds() {
    let mut b = ControlSystemBuilder::<f64, TestBlock>::new();
    add(&mut b, gain("a", 2.0), &wires(&[("u", "/c")]), &wires(&[("y", "/a")])).unwrap();
    add(&mut b, gain("b", 3.0), &wires(&[("u", "/a")]), &wires(&[("y", "/b")])).unwrap();
    b.add_delay("d".to_string(), 1.0, "/b".to_string(), "/c".to_string(), F64).unwrap();
    let mut cs = b.build(1000, 0).ok().unwrap();
    assert_eq!(cs.order(), &vec![2, 0, 1]);
    cs.step().ok().unwrap();
    assert_eq!(value(&cs, "/b"), Some(6.0));
    cs.step().ok().unwrap();
    assert_eq!(value(&cs, "/c"), Some(6.0));
    assert_eq!(value(&cs, "/b"), Some(36.0));
}

#[test]
fn equal_depth_blocks_keep_insertion_order() {
    let mut b = ControlSystemBuilder::<f64, TestBlock>::new();
    add(&mut b, gain("a", 1.0), &wires(&[("u", "/b")]), &wires(&[("y", "/a")])).unwrap();
    add(&mut b, constant("b", 1.0), &vec![], &wires(&[("y", "/b")])).unwrap();
    add(&mut b, constant("c", 1.0), &vec![], &wires(&[("y", "/c")])).unwrap();
    let cs = b.build(1000, 0).ok().unwrap();
    assert_eq!(cs.order(), &vec![1, 2, 0]);
}
