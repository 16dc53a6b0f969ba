//! Telemetry fan-out: subscription decisions, the subscriber table, and the
//! wire form of a sample.
use vstd::prelude::*;

verus! {

/// Where samples for one subscriber go: an IP address (IPv4 addresses in the
/// low 32 bits, `v6` false) and a UDP port.
#[derive(Debug, Clone, Copy, PartialEq, Eq, Hash, Structural)]
pub struct Destination {
    pub ip: u128,
    pub v6: bool,
    pub port: u16,
}

/// Why a telemetry subscription call ended.
#[derive(Debug, Clone, Copy, PartialEq, Eq, Structural)]
pub enum StopReason {
    TelemetryEnded,
    BadPort,
}

/// The destination of a subscription asked for by a client at `ip` for
/// `port`, or `BadPort` when the port does not fit in 16 bits.
pub fn start_destination(ip: u128, v6: bool, port: u32) -> (r: Result<Destination, StopReason>)
    ensures
        port > 65535 ==> r == Err::<Destination, StopReason>(StopReason::BadPort),
        port <= 65535 ==> r == Ok::<Destination, StopReason>(
            Destination { ip, v6, port: port as u16 },
        ),
{
    if port > 65535 {
        Err(StopReason::BadPort)
    } else {
        Ok(Destination { ip, v6, port: port as u16 })
    }
}

/// Whether a subscriber that asked for the streams `ids` gets samples of
/// stream `id`: an empty list asks for every stream.
pub fn sample_wanted(ids: &Vec<u64>, id: u64) -> (r: bool)
    ensures
        r == (ids@.len() == 0 || ids@.contains(id)),
{
    if ids.len() == 0 {
        return true;
    }
    let mut i: usize = 0;
    while i < ids.len()
        invariant
            0 <= i <= ids@.len(),
            forall|j: int| 0 <= j < i ==> ids@[j] != id,
        decreases ids@.len() - i,
    {
        if ids[i] == id {
            return true;
        }
        i += 1;
    }
    false
}

/// A change to the subscriber table, carrying the subscriber's socket `S`.
pub enum SubscriptionCmd<S> {
    New(Destination, S),
    Drop(Destination),
}

/// The subscriber table after a command, as a set of destinations.
pub open spec fn after_cmd(t: Set<Destination>, d: Destination, subscribe: bool) -> Set<Destination> {
    if subscribe {
        t.insert(d)
    } else {
        t.remove(d)
    }
}

/// The active subscribers, each with its outbound socket.
pub struct SubscriberTable<S> {
    entries: Vec<(Destination, S)>,
}

impl<S> View for SubscriberTable<S> {
    type V = Seq<Destination>;

    closed spec fn view(&self) -> Seq<Destination> {
        self.entries@.map_values(|e: (Destination, S)| e.0)
    }
}

impl<S> SubscriberTable<S> {
    pub closed spec fn wf(&self) -> bool {
        self@.no_duplicates()
    }

    /// The empty table.
    pub fn new() -> (r: Self)
        ensures
            r.wf(),
            r@ == Seq::<Destination>::empty(),
    {
        let r = SubscriberTable { entries: Vec::new() };
        assert(r@ =~= Seq::<Destination>::empty());
        r
    }

    /// The socket of subscriber `i`.
    pub closed spec fn socket(&self, i: int) -> S {
        self.entries@[i].1
    }

    /// Every subscriber of `old` other than `d` is in `new`, with its socket.
    pub open spec fn keeps_others(old: &Self, new: &Self, d: Destination) -> bool {
        forall|j: int|
            0 <= j < old@.len() && old@[j] != d ==> exists|i: int|
                0 <= i < new@.len() && new@[i] == old@[j] && (#[trigger] new.socket(i)) == old.socket(j)
    }

    proof fn lemma_keeps_itself(t: &Self, d: Destination)
        ensures
            Self::keeps_others(t, t, d),
    {
        assert forall|j: int| 0 <= j < t@.len() && t@[j] != d implies exists|i: int|
            0 <= i < t@.len() && t@[i] == t@[j] && (#[trigger] t.socket(i)) == t.socket(j) by {
            let i = j;
            assert(0 <= i < t@.len() && t@[i] == t@[j] && t.socket(i) == t.socket(j));
        }
    }

    /// Number of subscribers.
    pub fn len(&self) -> (r: usize)
        ensures
            r == self@.len(),
    {
        self.entries.len()
    }

    /// Subscriber `i`: its destination and its socket.
    pub fn get(&self, i: usize) -> (r: (&Destination, &S))
        requires
            i < self@.len(),
        ensures
            *r.0 == self@[i as int],
            *r.1 == self.socket(i as int),
    {
        let e = &self.entries[i];
        (&e.0, &e.1)
    }

    /// The position of destination `d`, if it is subscribed.
    fn find(&self, d: &Destination) -> (r: Option<usize>)
        ensures
            r matches Some(i) ==> i < self@.len() && self@[i as int] == *d,
            r is None ==> !self@.contains(*d),
    {
        let mut i: usize = 0;
        while i < self.entries.len()
            invariant
                0 <= i <= self@.len(),
                forall|j: int| 0 <= j < i ==> #[trigger] self@[j] != *d,
            decreases self@.len() - i,
        {
            if self.entries[i].0 == *d {
                return Some(i);
            }
            i += 1;
        }
        None
    }

    /// Apply a command: `New` adds the destination (replacing the socket of
    /// one already there), `Drop` removes it. What is replaced or removed is
    /// handed back.
    pub fn apply(&mut self, cmd: SubscriptionCmd<S>) -> (r: Option<S>)
        requires
            old(self).wf(),
        ensures
            final(self).wf(),
            match cmd {
                SubscriptionCmd::New(d, s) => (exists|i: int|
                    0 <= i < final(self)@.len() && final(self)@[i] == d && #[trigger] final(self).socket(i)
                        == s) && Self::keeps_others(old(self), final(self), d) && (r matches Some(x)
                    ==> exists|j: int| 0 <= j < old(self)@.len() && old(self)@[j] == d && (#[trigger] old(self).socket(j)) == x)
                    && (r is Some <==> old(self)@.contains(d)) && final(self)@.to_set() == after_cmd(
                    old(self)@.to_set(),
                    d,
                    true,
                ) && final(self)@.len() == old(self)@.len() + (if old(self)@.contains(d) {
                    0int
                } else {
                    1int
                }),
                SubscriptionCmd::Drop(d) => Self::keeps_others(old(self), final(self), d) && (r matches Some(x)
                    ==> exists|j: int| 0 <= j < old(self)@.len() && old(self)@[j] == d && (#[trigger] old(self).socket(j)) == x)
                    && final(self)@.to_set() == after_cmd(
                    old(self)@.to_set(),
                    d,
                    false,
                ) && final(self)@.len() == old(self)@.len() - (if old(self)@.contains(d) {
                    1int
                } else {
                    0int
                }) && (r is Some <==> old(self)@.contains(d)),
            },
    {
        match cmd {
            SubscriptionCmd::New(d, s) => {
                match self.find(&d) {
                    Some(i) => {
                        let ghost before = self@;
                        let mut e = (d, s);
                        self.entries.set_and_swap(i, &mut e);
                        assert(self@ =~= before.update(i as int, d));
                        assert(self@ =~= before);
                        assert(before.to_set().contains(d));
                        assert(self@.to_set() =~= before.to_set().insert(d));
                        assert(self.socket(i as int) == s);
                        assert(old(self).socket(i as int) == e.1);
                        assert(Self::keeps_others(old(self), self, d)) by {
                            assert forall|j: int| 0 <= j < old(self)@.len() && old(self)@[j] != d implies exists|k: int|
                                0 <= k < self@.len() && self@[k] == old(self)@[j] && (#[trigger] self.socket(k)) == old(self).socket(j) by {
                                assert(j != i);
                                assert(self.socket(j) == old(self).socket(j));
                            }
                        }
                        Some(e.1)
                    },
                    None => {
                        let ghost before = self@;
                        self.entries.push((d, s));
                        assert(self@ =~= before.push(d));
                        proof {
                            before.lemma_push_to_set_commute(d);
                        }
                        assert(self@.to_set() =~= before.to_set().insert(d));
                        assert(self@[before.len() as int] == d);
                        assert(self.socket(before.len() as int) == s);
                        assert(Self::keeps_others(old(self), self, d)) by {
                            assert forall|j: int| 0 <= j < old(self)@.len() && old(self)@[j] != d implies exists|k: int|
                                0 <= k < self@.len() && self@[k] == old(self)@[j] && (#[trigger] self.socket(k)) == old(self).socket(j) by {
                                assert(self.socket(j) == old(self).socket(j));
                            }
                        }
                        None
                    },
                }
            },
            SubscriptionCmd::Drop(d) => {
                match self.find(&d) {
                    Some(i) => {
                        let ghost before = self@;
                        let e = self.entries.remove(i);
                        assert(self@ =~= before.remove(i as int));
                        assert forall|x: Destination| #[trigger] self@.to_set().contains(x) == before.to_set().remove(d).contains(x) by {
                            if before.to_set().remove(d).contains(x) {
                                let j = choose|j: int| 0 <= j < before.len() && before[j] == x;
                                if j < i {
                                    assert(self@[j] == x);
                                } else {
                                    assert(self@[j - 1] == x);
                                }
                            }
                            if self@.to_set().contains(x) {
                                let j = choose|j: int| 0 <= j < self@.len() && self@[j] == x;
                                if j < i {
                                    assert(before[j] == x);
                                } else {
                                    assert(before[j + 1] == x);
                                }
                            }
                        }
                        assert(self@.to_set() =~= before.to_set().remove(d));
                        assert(old(self).socket(i as int) == e.1);
                        assert(Self::keeps_others(old(self), self, d)) by {
                            assert forall|j: int| 0 <= j < old(self)@.len() && old(self)@[j] != d implies exists|k: int|
                                0 <= k < self@.len() && self@[k] == old(self)@[j] && (#[trigger] self.socket(k)) == old(self).socket(j) by {
                                assert(j != i);
                                if j < i {
                                    assert(self.socket(j) == old(self).socket(j));
                                } else {
                                    assert(self.socket(j - 1) == old(self).socket(j));
                                }
                            }
                        }
                        Some(e.1)
                    },
                    None => {
                        assert(self@.to_set() =~= self@.to_set().remove(d));
                        proof {
                            Self::lemma_keeps_itself(self, d);
                        }
                        None
                    },
                }
            },
        }
    }
}

/// Subscriber lifecycle: once the call that subscribed a destination ends
/// and its `Drop` is applied, the destination is no longer subscribed, and
/// the table is what it was before the call with that destination removed.
pub proof fn lemma_subscriber_lifecycle(t: Set<Destination>, d: Destination)
    ensures
        !after_cmd(after_cmd(t, d, true), d, false).contains(d),
        after_cmd(after_cmd(t, d, true), d, false) == t.remove(d),
        after_cmd(t, d, true).contains(d),
{
    assert(after_cmd(after_cmd(t, d, true), d, false) =~= t.remove(d));
}

/// Base-128 varint: seven bits per byte, least significant group first, the
/// high bit set on every byte but the last.
pub open spec fn varint(x: nat) -> Seq<u8>
    decreases x,
{
    if x < 128 {
        seq![x as u8]
    } else {
        seq![(x % 128 + 128) as u8] + varint(x / 128)
    }
}

/// The `n` low bytes of `x`, least significant first.
pub open spec fn le_bytes(x: nat, n: nat) -> Seq<u8>
    decreases n,
{
    if n == 0 {
        Seq::empty()
    } else {
        seq![(x % 256) as u8] + le_bytes(x / 256, (n - 1) as nat)
    }
}

/// The bits of a double that equals zero (`+0.0` or `-0.0`).
pub open spec fn is_zero_double(bits: u64) -> bool {
    bits % 0x8000_0000_0000_0000 == 0
}

/// The wire form of a sample: field 1 (`id`, varint), field 2 (`time`,
/// 64-bit little-endian) and field 3 (`value`, 64-bit little-endian), each
/// left out when it is zero. `time_bits` and `value_bits` are the IEEE 754
/// bits of the two doubles.
pub open spec fn sample_bytes(id: u64, time_bits: u64, value_bits: u64) -> Seq<u8> {
    (if id == 0 {
        Seq::empty()
    } else {
        seq![0x08u8] + varint(id as nat)
    }) + (if is_zero_double(time_bits) {
        Seq::empty()
    } else {
        seq![0x11u8] + le_bytes(time_bits as nat, 8)
    }) + (if is_zero_double(value_bits) {
        Seq::empty()
    } else {
        seq![0x19u8] + le_bytes(value_bits as nat, 8)
    })
}

fn push_varint(buf: &mut Vec<u8>, x: u64)
    ensures
        final(buf)@ == old(buf)@ + varint(x as nat),
{
    let mut y: u64 = x;
    while y >= 128
        invariant
            old(buf)@ + varint(x as nat) == buf@ + varint(y as nat),
        decreases y,
    {
        let ghost before = buf@;
        buf.push((y % 128 + 128) as u8);
        assert(varint(y as nat) == seq![(y % 128 + 128) as u8] + varint((y / 128) as nat));
        assert(before + varint(y as nat) =~= buf@ + varint((y / 128) as nat));
        y = y / 128;
    }
    let ghost before = buf@;
    buf.push(y as u8);
    assert(before + varint(y as nat) =~= buf@);
}

fn push_le64(buf: &mut Vec<u8>, x: u64)
    ensures
        final(buf)@ == old(buf)@ + le_bytes(x as nat, 8),
{
    let mut y: u64 = x;
    let mut i: u64 = 0;
    while i < 8
        invariant
            0 <= i <= 8,
            old(buf)@ + le_bytes(x as nat, 8) == buf@ + le_bytes(y as nat, (8 - i) as nat),
        decreases 8 - i,
    {
        let ghost before = buf@;
        buf.push((y % 256) as u8);
        assert(le_bytes(y as nat, (8 - i) as nat) == seq![(y % 256) as u8] + le_bytes(
            (y / 256) as nat,
            (8 - i - 1) as nat,
        ));
        assert(before + le_bytes(y as nat, (8 - i) as nat) =~= buf@ + le_bytes(
            (y / 256) as nat,
            (8 - i - 1) as nat,
        ));
        y = y / 256;
        i = i + 1;
    }
    assert(le_bytes(y as nat, 0) =~= Seq::<u8>::empty());
    assert(buf@ + Seq::<u8>::empty() =~= buf@);
}

/// Append the wire form of a sample to `buf`.
pub fn encode_sample(id: u64, time_bits: u64, value_bits: u64, buf: &mut Vec<u8>)
    ensures
        final(buf)@ == old(buf)@ + sample_bytes(id, time_bits, value_bits),
{
    let ghost b0 = buf@;
    if id != 0 {
        buf.push(0x08u8);
        push_varint(buf, id);
    }
    let ghost b1 = buf@;
    if time_bits % 0x8000_0000_0000_0000 != 0 {
        buf.push(0x11u8);
        push_le64(buf, time_bits);
    }
    let ghost b2 = buf@;
    if value_bits % 0x8000_0000_0000_0000 != 0 {
        buf.push(0x19u8);
        push_le64(buf, value_bits);
    }
    let ghost p1 = if id == 0 {
        Seq::<u8>::empty()
    } else {
        seq![0x08u8] + varint(id as nat)
    };
    let ghost p2 = if is_zero_double(time_bits) {
        Seq::<u8>::empty()
    } else {
        seq![0x11u8] + le_bytes(time_bits as nat, 8)
    };
    let ghost p3 = if is_zero_double(value_bits) {
        Seq::<u8>::empty()
    } else {
        seq![0x19u8] + le_bytes(value_bits as nat, 8)
    };
    assert(b1 =~= b0 + p1);
    assert(b2 =~= b1 + p2);
    assert(buf@ =~= b2 + p3);
    assert(buf@ =~= b0 + (p1 + p2 + p3));
}

} // verus!
