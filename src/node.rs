//! Nodes: independently stepped units whose telemetry channels are renamed
//! through per-node configuration.
use vstd::prelude::*;
use crate::params::lookup;
use crate::system::{StepError, StepResult};

verus! {

/// Why a node could not be added.
#[derive(Debug)]
pub enum Error {
    MissingConfig(String),
    NodeInstantiation(String),
}

/// Why a telemetry channel could not be opened.
#[derive(Debug, Clone, Copy, PartialEq, Eq, Structural)]
pub enum TelemetryError {
    InvalidChannelName,
    ChannelTypeMismatch,
}

/// A unit that is stepped on its own.
pub trait Node {
    fn step(&mut self) -> Result<StepResult, String>;
}

/// How a node's local channel names map to telemetry paths, for the
/// channels it reads and those it writes.
#[derive(Debug, Clone, Default)]
pub struct NodeConfig {
    pub tm_input_map: Vec<(String, String)>,
    pub tm_output_map: Vec<(String, String)>,
}

pub open spec fn pairs_view(v: Seq<(String, String)>) -> Seq<(Seq<char>, Seq<char>)> {
    v.map_values(|e: (String, String)| (e.0@, e.1@))
}

/// A channel name usable as a telemetry path: it starts with `/`.
pub open spec fn is_channel_path(s: Seq<char>) -> bool {
    s.len() > 0 && s[0] == '/'
}

/// The path of channel `name` under `map`: the mapped path when the map
/// names it, else the name itself when it is a path.
pub open spec fn channel_path(map: Seq<(Seq<char>, Seq<char>)>, name: Seq<char>) -> Result<
    Seq<char>,
    TelemetryError,
> {
    match lookup(map, name) {
        Some(p) => Ok(p),
        None => if is_channel_path(name) {
            Ok(name)
        } else {
            Err(TelemetryError::InvalidChannelName)
        },
    }
}

/// Resolve channel `channel_name` through `map`.
pub fn resolve_channel(map: &Vec<(String, String)>, channel_name: &str) -> (r: Result<
    String,
    TelemetryError,
>)
    ensures
        match channel_path(pairs_view(map@), channel_name@) {
            Ok(p) => r matches Ok(s) && s@ == p,
            Err(e) => r == Err::<String, TelemetryError>(e),
        },
{
    let key = String::from_str(channel_name);
    let ghost mv = pairs_view(map@);
    let mut i: usize = 0;
    assert(mv.subrange(0, mv.len() as int) =~= mv);
    while i < map.len()
        invariant
            0 <= i <= map@.len(),
            key@ == channel_name@,
            mv == pairs_view(map@),
            lookup(mv, key@) == lookup(mv.subrange(i as int, mv.len() as int), key@),
        decreases map@.len() - i,
    {
        proof {
            let rest = mv.subrange(i as int, mv.len() as int);
            assert(rest.drop_first() =~= mv.subrange(i + 1, mv.len() as int));
            assert(rest[0] == (map@[i as int].0@, map@[i as int].1@));
        }
        if map[i].0 == key {
            return Ok(map[i].1.clone());
        }
        i += 1;
    }
    assert(mv.subrange(i as int, mv.len() as int) =~= Seq::<(Seq<char>, Seq<char>)>::empty());
    if channel_name.unicode_len() > 0 && channel_name.get_char(0) == '/' {
        Ok(key)
    } else {
        Err(TelemetryError::InvalidChannelName)
    }
}

impl NodeConfig {
    /// The telemetry path that input channel `channel_name` reads.
    pub fn input_path(&self, channel_name: &str) -> (r: Result<String, TelemetryError>)
        ensures
            match channel_path(pairs_view(self.tm_input_map@), channel_name@) {
                Ok(p) => r matches Ok(s) && s@ == p,
                Err(e) => r == Err::<String, TelemetryError>(e),
            },
    {
        resolve_channel(&self.tm_input_map, channel_name)
    }

    /// The telemetry path that output channel `channel_name` writes.
    pub fn output_path(&self, channel_name: &str) -> (r: Result<String, TelemetryError>)
        ensures
            match channel_path(pairs_view(self.tm_output_map@), channel_name@) {
                Ok(p) => r matches Ok(s) && s@ == p,
                Err(e) => r == Err::<String, TelemetryError>(e),
            },
    {
        resolve_channel(&self.tm_output_map, channel_name)
    }
}

/// A node together with the name it was added under.
pub struct NamedNode<N> {
    pub name: String,
    pub node: N,
}

pub open spec fn names_of<N>(v: Seq<NamedNode<N>>) -> Seq<Seq<char>> {
    v.map_values(|n: NamedNode<N>| n.name@)
}

/// Some node's result is a failure.
pub open spec fn has_failure(results: Seq<Result<StepResult, String>>) -> bool {
    exists|i: int| 0 <= i < results.len() && #[trigger] results[i] is Err
}

/// Some node asked to stop.
pub open spec fn has_stop(results: Seq<Result<StepResult, String>>) -> bool {
    exists|i: int| 0 <= i < results.len() && #[trigger] results[i] == Ok::<StepResult, String>(StepResult::Stop)
}

/// The outcome of a round whose nodes, named `names`, returned `results` in
/// order: the first failure, naming its node; else `Stop` when some node
/// asked to stop; else `Continue`.
pub open spec fn outcome_matches(
    names: Seq<Seq<char>>,
    results: Seq<Result<StepResult, String>>,
    r: Result<StepResult, StepError>,
) -> bool {
    if has_failure(results) {
        r matches Err(e) && exists|i: int|
            0 <= i < results.len() && (#[trigger] results[i] matches Err(m) && m@ == e.message@)
                && names[i] == e.block@ && forall|j: int| 0 <= j < i ==> results[j] is Ok
    } else if has_stop(results) {
        r == Ok::<StepResult, StepError>(StepResult::Stop)
    } else {
        r == Ok::<StepResult, StepError>(StepResult::Continue)
    }
}

pub open spec fn strings_view(v: Seq<String>) -> Seq<Seq<char>> {
    v.map_values(|s: String| s@)
}

/// Combine what the nodes of a round returned, in order, into the round's
/// outcome.
pub fn round_outcome(names: &Vec<String>, results: &Vec<Result<StepResult, String>>) -> (r: Result<
    StepResult,
    StepError,
>)
    requires
        results@.len() <= names@.len(),
    ensures
        outcome_matches(strings_view(names@), results@, r),
{
    let mut stop = false;
    let mut i: usize = 0;
    while i < results.len()
        invariant
            0 <= i <= results@.len(),
            results@.len() <= names@.len(),
            forall|j: int| 0 <= j < i ==> #[trigger] results@[j] is Ok,
            stop <==> exists|j: int|
                0 <= j < i && #[trigger] results@[j] == Ok::<StepResult, String>(StepResult::Stop),
        decreases results@.len() - i,
    {
        match &results[i] {
            Err(m) => {
                let e = StepError { block: names[i].clone(), message: m.clone() };
                assert(strings_view(names@)[i as int] == names@[i as int]@);
                assert(results@[i as int] is Err);
                return Err(e);
            },
            Ok(StepResult::Stop) => {
                stop = true;
            },
            Ok(StepResult::Continue) => {},
        }
        i += 1;
    }
    if stop {
        Ok(StepResult::Stop)
    } else {
        Ok(StepResult::Continue)
    }
}

/// Steps nodes one after another, in a fixed order, round after round.
pub struct FtlOrderedExecutor;

impl FtlOrderedExecutor {
    /// Step the nodes once each, in order, halting at the first failure.
    /// Returns the round's outcome (see `round_outcome`) together with what
    /// each stepped node returned, in order: one result per node, except that
    /// the list ends at the first failure. The nodes keep their order and
    /// names.
    pub fn run_round<N: Node>(nodes: &mut Vec<NamedNode<N>>) -> (r: (
        Result<StepResult, StepError>,
        Vec<Result<StepResult, String>>,
    ))
        ensures
            names_of(final(nodes)@) == names_of(old(nodes)@),
            r.1@.len() <= old(nodes)@.len(),
            forall|j: int| 0 <= j < r.1@.len() - 1 ==> #[trigger] r.1@[j] is Ok,
            r.1@.len() < old(nodes)@.len() ==> r.1@.len() > 0 && r.1@.last() is Err,
            outcome_matches(names_of(old(nodes)@), r.1@, r.0),
            old(nodes)@.len() == 0 ==> r.0 == Ok::<StepResult, StepError>(StepResult::Continue),
    {
        let mut names: Vec<String> = Vec::new();
        let mut results: Vec<Result<StepResult, String>> = Vec::new();
        let mut i: usize = 0;
        while i < nodes.len()
            invariant
                0 <= i <= nodes@.len(),
                names_of(nodes@) == names_of(old(nodes)@),
                results@.len() == i,
                names@.len() == i,
                forall|j: int| 0 <= j < i ==> #[trigger] results@[j] is Ok,
                forall|j: int| 0 <= j < i ==> #[trigger] names@[j]@ == names_of(old(nodes)@)[j],
            decreases nodes@.len() - i,
        {
            let ghost before = nodes@;
            let mut nn = nodes.remove(i);
            let res = nn.node.step();
            names.push(nn.name.clone());
            nodes.insert(i, nn);
            assert(names_of(nodes@) =~= names_of(before));
            let failed = res.is_err();
            results.push(res);
            if failed {
                proof {
                    assert(strings_view(names@) =~= names_of(old(nodes)@).subrange(0, i + 1));
                }
                let out = round_outcome(&names, &results);
                proof {
                    lemma_outcome_prefix(names_of(old(nodes)@), strings_view(names@), results@, out);
                }
                return (out, results);
            }
            i += 1;
        }
        proof {
            assert(strings_view(names@) =~= names_of(old(nodes)@));
        }
        let out = round_outcome(&names, &results);
        (out, results)
    }
}

/// The outcome of a round is the same over the names of all nodes as over
/// those of the nodes that were stepped.
proof fn lemma_outcome_prefix(
    all: Seq<Seq<char>>,
    stepped: Seq<Seq<char>>,
    results: Seq<Result<StepResult, String>>,
    r: Result<StepResult, StepError>,
)
    requires
        stepped.len() <= all.len(),
        results.len() == stepped.len(),
        stepped == all.subrange(0, stepped.len() as int),
        outcome_matches(stepped, results, r),
    ensures
        outcome_matches(all, results, r),
{
    if has_failure(results) {
        let e = r->Err_0;
        let i = choose|i: int|
            0 <= i < results.len() && (#[trigger] results[i] matches Err(m) && m@ == e.message@)
                && stepped[i] == e.block@ && forall|j: int| 0 <= j < i ==> results[j] is Ok;
        assert(all[i] == stepped[i]);
    }
}

} // verus!
