use drone::node::{resolve_channel, round_outcome, FtlOrderedExecutor, NamedNode, Node, NodeConfig, TelemetryError};
use drone::system::StepResult;
use drone::params::{axis_file_name, Bmp280Params, Mpu9250Params, ParameterStore};

fn remap_config() -> NodeConfig {
    NodeConfig {
        tm_input_map: vec![
            ("i1".to_string(), "/a/b/i1".to_string()),
            ("i2".to_string(), "/a/b/i2".to_string()),
        ],
        tm_output_map: vec![
            ("o1".to_string(), "/a/b/i1".to_string()),
            ("o2".to_string(), "/a/b/i2".to_string()),
        ],
    }
}

#[test]
fn test_input_remap() {
    let nt = remap_config();
    assert_eq!(nt.input_path("i1"), Ok("/a/b/i1".to_string()));
    assert_eq!(nt.input_path("/a/b/i1"), Ok("/a/b/i1".to_string()));
    assert!(nt.input_path("o2").is_err());
    assert!(nt.input_path("no_remap").is_err());
    assert_eq!(nt.input_path("i2"), Ok("/a/b/i2".to_string()));
}

#[test]
fn test_output_remap() {
    let nt = remap_config();
    assert!(nt.output_path("i1").is_err());
    assert!(nt.output_path("no_remap").is_err());
    assert_eq!(nt.output_path("o1"), Ok("/a/b/i1".to_string()));
    assert_eq!(nt.output_path("/a/b/i2"), Ok("/a/b/i2".to_string()));
}

#[test]
fn invalid_channel_name() {
    assert_eq!(resolve_channel(&vec![], "plain"), Err(TelemetryError::InvalidChannelName));
    assert_eq!(resolve_channel(&vec![], ""), Err(TelemetryError::InvalidChannelName));
    assert_eq!(resolve_channel(&vec![], "/p"), Ok("/p".to_string()));
}

#[test]
fn first_mapping_wins() {
    let map = vec![("c".to_string(), "/one".to_string()), ("c".to_string(), "/two".to_string())];
    assert_eq!(resolve_channel(&map, "c"), Ok("/one".to_string()));
}

#[test]
fn params_default_on_miss() {
    let mut store = ParameterStore::new();
    let d = Bmp280Params { pressure_file: "p".to_string(), temperature_file: "t".to_string() };
    let blob = format!("{};{}", d.pressure_file, d.temperature_file);
    assert_eq!(store.get_block_params("bmp280", blob.clone()), "p;t");
    assert_eq!(store.len(), 1);
    assert_eq!(store.get_block_params("bmp280", "other".to_string()), "p;t");
    assert_eq!(store.len(), 1);
    let m = Mpu9250Params { device: "iio:device0".to_string() };
    assert_eq!(store.get_block_params("mpu", m.device.clone()), "iio:device0");
    assert_eq!(store.len(), 2);
    let (k, v) = store.entry(1);
    assert_eq!((k.as_str(), v.as_str()), ("mpu", "iio:device0"));
}

#[test]
fn axis_file_names() {
    assert_eq!(axis_file_name("in_accel_%_raw", "x"), "in_accel_x_raw");
    assert_eq!(axis_file_name("in_anglvel_scale", "y"), "in_anglvel_scale");
    assert_eq!(axis_file_name("%_%", "zz"), "zz_zz");
    assert_eq!(axis_file_name("", "x"), "");
}

struct Counter {
    steps: u32,
    stop_after: u32,
    fail_at: Option<u32>,
}

impl Node for Counter {
    fn step(&mut self) -> Result<StepResult, String> {
        self.steps += 1;
        if Some(self.steps) == self.fail_at {
            return Err(format!("failed at {}", self.steps));
        }
        if self.steps >= self.stop_after {
            Ok(StepResult::Stop)
        } else {
            Ok(StepResult::Continue)
        }
    }
}

fn named(name: &str, stop_after: u32, fail_at: Option<u32>) -> NamedNode<Counter> {
    NamedNode { name: name.to_string(), node: Counter { steps: 0, stop_after, fail_at } }
}

#[test]
fn round_steps_every_node_in_order() {
    let mut nodes = vec![named("a", 2, None), named("b", 5, None)];
    let (out, results) = FtlOrderedExecutor::run_round(&mut nodes);
    assert_eq!(out.ok(), Some(StepResult::Continue));
    assert_eq!(results, vec![Ok(StepResult::Continue), Ok(StepResult::Continue)]);
    let (out, results) = FtlOrderedExecutor::run_round(&mut nodes);
    assert_eq!(out.ok(), Some(StepResult::Stop));
    assert_eq!(results, vec![Ok(StepResult::Stop), Ok(StepResult::Continue)]);
    assert_eq!(nodes[0].node.steps, 2);
    assert_eq!(nodes[1].node.steps, 2);
    assert_eq!(nodes[0].name, "a");
    assert_eq!(nodes[1].name, "b");
}

#[test]
fn round_halts_at_first_failure() {
    let mut nodes = vec![named("a", 9, None), named("b", 9, Some(1)), named("c", 9, Some(1))];
    let (out, results) = FtlOrderedExecutor::run_round(&mut nodes);
    let e = out.err().unwrap();
    assert_eq!(e.block, "b");
    assert_eq!(e.message, "failed at 1");
    assert_eq!(results.len(), 2);
    assert_eq!(nodes[0].node.steps, 1);
    assert_eq!(nodes[2].node.steps, 0);
}

#[test]
fn empty_round_continues() {
    let mut nodes: Vec<NamedNode<Counter>> = vec![];
    let (out, results) = FtlOrderedExecutor::run_round(&mut nodes);
    assert_eq!(out.ok(), Some(StepResult::Continue));
    assert!(results.is_empty());
}

#[test]
fn outcome_of_results() {
    let names = vec!["x".to_string(), "y".to_string(), "z".to_string()];
    let r = round_outcome(&names, &vec![Ok(StepResult::Continue), Ok(StepResult::Stop)]);
    assert_eq!(r.ok(), Some(StepResult::Stop));
    let r = round_outcome(
        &names,
        &vec![Ok(StepResult::Stop), Err("m1".to_string()), Err("m2".to_string())],
    );
    let e = r.err().unwrap();
    assert_eq!((e.block.as_str(), e.message.as_str()), ("y", "m1"));
    assert_eq!(round_outcome(&names, &vec![]).ok(), Some(StepResult::Continue));
}
