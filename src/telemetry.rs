//! Telemetry registry: dense stream identifiers, discovery by topic prefix,
//! and the names of plotter taps.
use rand::distributions::Alphanumeric;
use rand::{thread_rng, Rng};
use vstd::prelude::*;

verus! {

/// Dense identifier of a registered telemetry stream.
#[derive(Debug, Clone, Copy, PartialEq, Eq, Hash, Structural)]
pub struct TelemetryID(pub u64);

impl TelemetryID {
    /// The raw number of this identifier.
    pub fn as_u64(self) -> (r: u64)
        ensures
            r == self.0,
    {
        self.0
    }
}

/// A registered stream: its identifier and its name.
#[derive(Debug)]
pub struct TelemetryEntry {
    pub id: TelemetryID,
    pub name: String,
}

/// `p` is a prefix of `s`.
pub open spec fn is_prefix(p: Seq<char>, s: Seq<char>) -> bool {
    p.len() <= s.len() && s.subrange(0, p.len() as int) == p
}

/// The entries of `names` (a stream's identifier is its index) whose name
/// starts with `base`, in identifier order.
pub open spec fn listing(names: Seq<Seq<char>>, base: Seq<char>) -> Seq<(u64, Seq<char>)>
    decreases names.len(),
{
    if names.len() == 0 {
        Seq::empty()
    } else {
        let rest = listing(names.drop_last(), base);
        if is_prefix(base, names.last()) {
            rest.push(((names.len() - 1) as u64, names.last()))
        } else {
            rest
        }
    }
}

pub open spec fn entries_view(v: Seq<TelemetryEntry>) -> Seq<(u64, Seq<char>)> {
    v.map_values(|e: TelemetryEntry| (e.id.0, e.name@))
}

/// Whether `p` is a prefix of `s`.
pub fn starts_with(s: &str, p: &str) -> (r: bool)
    ensures
        r == is_prefix(p@, s@),
{
    let n = s.unicode_len();
    let m = p.unicode_len();
    if m > n {
        return false;
    }
    let mut i: usize = 0;
    while i < m
        invariant
            0 <= i <= m,
            m == p@.len(),
            n == s@.len(),
            m <= n,
            forall|j: int| 0 <= j < i ==> s@[j] == p@[j],
        decreases m - i,
    {
        if s.get_char(i) != p.get_char(i) {
            assert(s@.subrange(0, m as int)[i as int] != p@[i as int]);
            return false;
        }
        i += 1;
    }
    assert(s@.subrange(0, m as int) =~= p@);
    true
}

/// Collects the telemetry streams of an application while it is built.
pub struct TelemetryServiceBuilder {
    entries: Vec<TelemetryEntry>,
    channel_size: usize,
}

impl View for TelemetryServiceBuilder {
    type V = Seq<Seq<char>>;

    closed spec fn view(&self) -> Seq<Seq<char>> {
        self.entries@.map_values(|e: TelemetryEntry| e.name@)
    }
}

/// Stream `i` has identifier `i`.
pub open spec fn dense(v: Seq<TelemetryEntry>) -> bool {
    forall|i: int| 0 <= i < v.len() ==> #[trigger] v[i].id.0 == i
}

impl TelemetryServiceBuilder {
    pub closed spec fn wf(&self) -> bool {
        dense(self.entries@)
    }

    /// The bound on buffered samples that the application asked for.
    pub closed spec fn channel_size_spec(&self) -> usize {
        self.channel_size
    }

    /// A builder with no stream yet, whose sample queue holds `channel_size`
    /// samples.
    pub fn new(channel_size: usize) -> (r: Self)
        ensures
            r.wf(),
            r@ == Seq::<Seq<char>>::empty(),
            r.channel_size_spec() == channel_size,
    {
        let r = TelemetryServiceBuilder { entries: Vec::new(), channel_size };
        assert(r@ =~= Seq::<Seq<char>>::empty());
        r
    }

    /// The bound on buffered samples.
    pub fn channel_size(&self) -> (r: usize)
        ensures
            r == self.channel_size_spec(),
    {
        self.channel_size
    }

    /// Register a stream named `signal_name`; its identifier is the number of
    /// streams registered before it.
    pub fn register_signal(&mut self, signal_name: &str) -> (r: TelemetryID)
        requires
            old(self).wf(),
        ensures
            final(self).wf(),
            r.0 == old(self)@.len(),
            final(self)@ == old(self)@.push(signal_name@),
            final(self).channel_size_spec() == old(self).channel_size_spec(),
    {
        let id = TelemetryID(self.entries.len() as u64);
        let ghost before = self.entries@;
        self.entries.push(TelemetryEntry { id, name: String::from_str(signal_name) });
        assert(self@ =~= before.map_values(|e: TelemetryEntry| e.name@).push(signal_name@));
        id
    }

    /// Freeze the set of streams.
    pub fn build(self) -> (r: TelemetryService)
        requires
            self.wf(),
        ensures
            r.wf(),
            r@ == self@,
    {
        TelemetryService { entries: self.entries }
    }
}

/// The frozen set of telemetry streams that the service offers.
pub struct TelemetryService {
    entries: Vec<TelemetryEntry>,
}

impl View for TelemetryService {
    type V = Seq<Seq<char>>;

    closed spec fn view(&self) -> Seq<Seq<char>> {
        self.entries@.map_values(|e: TelemetryEntry| e.name@)
    }
}

impl TelemetryService {
    pub closed spec fn wf(&self) -> bool {
        dense(self.entries@)
    }

    /// Every registered stream whose name starts with `base_topic`, in
    /// identifier order.
    pub fn list_telemetries(&self, base_topic: &str) -> (r: Vec<TelemetryEntry>)
        requires
            self.wf(),
        ensures
            entries_view(r@) == listing(self@, base_topic@),
    {
        let mut r: Vec<TelemetryEntry> = Vec::new();
        let mut i: usize = 0;
        while i < self.entries.len()
            invariant
                0 <= i <= self.entries@.len(),
                self.wf(),
                entries_view(r@) == listing(self@.subrange(0, i as int), base_topic@),
            decreases self.entries@.len() - i,
        {
            let e = &self.entries[i];
            let ghost names = self@.subrange(0, i as int + 1);
            assert(names.drop_last() =~= self@.subrange(0, i as int));
            assert(names.last() == e.name@);
            let ghost before = r@;
            if starts_with(e.name.as_str(), base_topic) {
                r.push(TelemetryEntry { id: e.id, name: e.name.clone() });
                assert(entries_view(r@) =~= entries_view(before).push((i as u64, e.name@)));
            }
            i += 1;
        }
        assert(self@.subrange(0, i as int) =~= self@);
        r
    }
}

/// Discovery lists each matching stream exactly once: every listed entry
/// is the registered stream of that identifier and its name starts with the
/// base topic, identifiers strictly increase (so none repeats), and every
/// stream whose name starts with the base topic is listed.
pub proof fn lemma_listing(names: Seq<Seq<char>>, base: Seq<char>)
    requires
        names.len() <= u64::MAX,
    ensures
        forall|k: int|
            0 <= k < listing(names, base).len() ==> {
                let e = #[trigger] listing(names, base)[k];
                &&& e.0 < names.len()
                &&& names[e.0 as int] == e.1
                &&& is_prefix(base, e.1)
            },
        forall|k1: int, k2: int|
            0 <= k1 < k2 < listing(names, base).len() ==> #[trigger] listing(names, base)[k1].0
                < #[trigger] listing(names, base)[k2].0,
        forall|i: int|
            0 <= i < names.len() && is_prefix(base, #[trigger] names[i]) ==> exists|k: int|
                0 <= k < listing(names, base).len() && listing(names, base)[k].0 == i,
    decreases names.len(),
{
    if names.len() > 0 {
        let init = names.drop_last();
        lemma_listing(init, base);
        let rest = listing(init, base);
        let r = listing(names, base);
        assert forall|k: int| 0 <= k < rest.len() implies rest[k].0 < init.len() by {
            let e = rest[k];
        }
        assert forall|i: int|
            0 <= i < names.len() && is_prefix(base, #[trigger] names[i]) implies exists|k: int|
            0 <= k < r.len() && r[k].0 == i by {
            if i < init.len() {
                assert(init[i] == names[i]);
                let k = choose|k: int| 0 <= k < rest.len() && rest[k].0 == i;
                assert(r[k] == rest[k]);
            } else {
                assert(r[rest.len() as int].0 == i);
            }
        }
        assert forall|k: int| 0 <= k < r.len() implies {
            let e = #[trigger] r[k];
            &&& e.0 < names.len()
            &&& names[e.0 as int] == e.1
            &&& is_prefix(base, e.1)
        } by {
            if k < rest.len() {
                assert(r[k] == rest[k]);
                assert(init[rest[k].0 as int] == names[rest[k].0 as int]);
            }
        }
        assert forall|k1: int, k2: int| 0 <= k1 < k2 < r.len() implies #[trigger] r[k1].0
            < #[trigger] r[k2].0 by {
            assert(r[k1] == rest[k1]);
            if k2 < rest.len() {
                assert(r[k2] == rest[k2]);
            }
        }
    }
}

/// An ASCII letter or digit.
pub open spec fn is_alphanumeric(c: char) -> bool {
    ('a' <= c && c <= 'z') || ('A' <= c && c <= 'Z') || ('0' <= c && c <= '9')
}

/// Relies on rand's `Alphanumeric` distribution, sampled from the thread-local
/// generator: each of the `n` characters is drawn from the ASCII letters and
/// digits.
#[verifier::external_body]
fn random_alphanumeric(n: usize) -> (r: String)
    ensures
        r@.len() == n,
        forall|i: int| 0 <= i < n ==> is_alphanumeric(#[trigger] r@[i]),
{
    thread_rng().sample_iter(&Alphanumeric).take(n).map(char::from).collect()
}

/// `s` with every `/` replaced by `_`.
pub open spec fn slashes_to_underscores(s: Seq<char>) -> Seq<char> {
    s.map_values(|c: char| if c == '/' { '_' } else { c })
}

/// The name of a plotter tap on `signal` with the distinguishing `suffix`.
pub open spec fn plotter_name_spec(signal: Seq<char>, suffix: Seq<char>) -> Seq<char> {
    "protoplotter"@ + slashes_to_underscores(signal) + "_"@ + suffix
}

/// The block name of a plotter tap on `signal_name`, made unique by `suffix`.
pub fn plotter_name(signal_name: &str, suffix: &str) -> (r: String)
    ensures
        r@ == plotter_name_spec(signal_name@, suffix@),
{
    let mut r = String::from_str("protoplotter");
    let ghost head = r@;
    let n = signal_name.unicode_len();
    let mut i: usize = 0;
    while i < n
        invariant
            0 <= i <= n,
            n == signal_name@.len(),
            head == "protoplotter"@,
            r@ == head + slashes_to_underscores(signal_name@.subrange(0, i as int)),
        decreases n - i,
    {
        let c = signal_name.get_char(i);
        let ghost before = r@;
        if c == '/' {
            r.append("_");
            proof {
                reveal_strlit("_");
            }
        } else {
            r.append(signal_name.substring_char(i, i + 1));
        }
        assert(slashes_to_underscores(signal_name@.subrange(0, i + 1)) =~= slashes_to_underscores(
            signal_name@.subrange(0, i as int),
        ).push(if c == '/' { '_' } else { c }));
        i += 1;
    }
    assert(signal_name@.subrange(0, n as int) =~= signal_name@);
    r.append("_");
    r.append(suffix);
    r
}

/// The block name of a new plotter tap on `signal_name`: a fixed head, the
/// signal name with `/` turned into `_`, and six random letters or digits.
pub fn protoplotter_name(signal_name: &str) -> (r: String)
    ensures
        exists|suffix: Seq<char>|
            suffix.len() == 6 && (forall|i: int|
                0 <= i < 6 ==> is_alphanumeric(#[trigger] suffix[i])) && r@ == plotter_name_spec(
                signal_name@,
                suffix,
            ),
{
    let suffix = random_alphanumeric(6);
    plotter_name(signal_name, suffix.as_str())
}

impl TelemetryServiceBuilder {
    /// Register one stream per component of a composite signal: stream `i`
    /// is named `topic` followed by `suffixes[i]`, and the identifiers are
    /// consecutive.
    pub fn register_components(&mut self, topic: &str, suffixes: &Vec<String>) -> (r: Vec<
        TelemetryID,
    >)
        requires
            old(self).wf(),
        ensures
            final(self).wf(),
            final(self).channel_size_spec() == old(self).channel_size_spec(),
            r@.len() == suffixes@.len(),
            final(self)@.len() == old(self)@.len() + suffixes@.len(),
            final(self)@.subrange(0, old(self)@.len() as int) == old(self)@,
            forall|i: int|
                0 <= i < suffixes@.len() ==> #[trigger] r@[i].0 == old(self)@.len() + i
                    && final(self)@[old(self)@.len() + i] == topic@ + suffixes@[i]@,
    {
        let mut r: Vec<TelemetryID> = Vec::new();
        let mut i: usize = 0;
        while i < suffixes.len()
            invariant
                0 <= i <= suffixes@.len(),
                self.wf(),
                self.channel_size_spec() == old(self).channel_size_spec(),
                r@.len() == i,
                self@.len() == old(self)@.len() + i,
                self@.subrange(0, old(self)@.len() as int) == old(self)@,
                forall|j: int|
                    0 <= j < i ==> #[trigger] r@[j].0 == old(self)@.len() + j && self@[old(
                        self,
                    )@.len() + j] == topic@ + suffixes@[j]@,
            decreases suffixes@.len() - i,
        {
            let mut name = String::from_str(topic);
            name.append(suffixes[i].as_str());
            let ghost before = self@;
            let id = self.register_signal(name.as_str());
            assert(self@.subrange(0, old(self)@.len() as int) =~= before.subrange(
                0,
                old(self)@.len() as int,
            ));
            let ghost rb = r@;
            r.push(id);
            assert forall|j: int| 0 <= j < i + 1 implies #[trigger] r@[j].0 == old(self)@.len() + j
                && self@[old(self)@.len() + j] == topic@ + suffixes@[j]@ by {
                if j < i {
                    assert(r@[j] == rb[j]);
                    assert(self@[old(self)@.len() + j] == before[old(self)@.len() + j]);
                }
            }
            i += 1;
        }
        r
    }
}

} // verus!
