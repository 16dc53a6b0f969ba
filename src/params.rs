//! Per-block parameters: the store that holds them, keyed by block name, and
//! the parameter sets of the sensor drivers.
use vstd::prelude::*;

verus! {

/// Where a BMP280 driver reads pressure and temperature.
#[derive(Debug, Clone)]
pub struct Bmp280Params {
    pub pressure_file: String,
    pub temperature_file: String,
}

/// Which industrial-I/O device an MPU9250 driver reads.
#[derive(Debug, Clone)]
pub struct Mpu9250Params {
    pub device: String,
}

/// `template` with every `%` replaced by `axis`.
pub open spec fn fill_axis(template: Seq<char>, axis: Seq<char>) -> Seq<char>
    decreases template.len(),
{
    if template.len() == 0 {
        Seq::empty()
    } else {
        fill_axis(template.drop_last(), axis) + if template.last() == '%' {
            axis
        } else {
            seq![template.last()]
        }
    }
}

/// The name of a per-axis device file: `template` with every `%` replaced by
/// `axis` (`in_accel_%_raw` and `x` give `in_accel_x_raw`).
pub fn axis_file_name(template: &str, axis: &str) -> (r: String)
    ensures
        r@ == fill_axis(template@, axis@),
{
    let mut r = String::new();
    let n = template.unicode_len();
    let mut i: usize = 0;
    while i < n
        invariant
            0 <= i <= n,
            n == template@.len(),
            r@ == fill_axis(template@.subrange(0, i as int), axis@),
        decreases n - i,
    {
        let c = template.get_char(i);
        let ghost before = template@.subrange(0, i as int);
        assert(template@.subrange(0, i + 1).drop_last() =~= before);
        if c == '%' {
            r.append(axis);
        } else {
            r.append(template.substring_char(i, i + 1));
        }
        assert(template@.subrange(i as int, i + 1) =~= seq![c]);
        i += 1;
    }
    assert(template@.subrange(0, n as int) =~= template@);
    r
}

/// The first entry of `entries` whose key is `name`, if any.
pub open spec fn lookup(entries: Seq<(Seq<char>, Seq<char>)>, name: Seq<char>) -> Option<Seq<char>>
    decreases entries.len(),
{
    if entries.len() == 0 {
        None
    } else if entries[0].0 == name {
        Some(entries[0].1)
    } else {
        lookup(entries.drop_first(), name)
    }
}

/// Serialized parameters of each block, keyed by block name, in the order
/// in which the blocks were first seen.
pub struct ParameterStore {
    entries: Vec<(String, String)>,
}

impl View for ParameterStore {
    type V = Seq<(Seq<char>, Seq<char>)>;

    closed spec fn view(&self) -> Seq<(Seq<char>, Seq<char>)> {
        self.entries@.map_values(|e: (String, String)| (e.0@, e.1@))
    }
}

impl ParameterStore {
    /// An empty store.
    pub fn new() -> (r: Self)
        ensures
            r@ == Seq::<(Seq<char>, Seq<char>)>::empty(),
    {
        let r = ParameterStore { entries: Vec::new() };
        assert(r@ =~= Seq::<(Seq<char>, Seq<char>)>::empty());
        r
    }

    /// Number of entries.
    pub fn len(&self) -> (r: usize)
        ensures
            r == self@.len(),
    {
        self.entries.len()
    }

    /// Entry `i`: a block name and its serialized parameters.
    pub fn entry(&self, i: usize) -> (r: (&String, &String))
        requires
            i < self@.len(),
        ensures
            (r.0@, r.1@) == self@[i as int],
    {
        let e = &self.entries[i];
        (&e.0, &e.1)
    }

    /// The parameters of block `name`; when the store has none, `default` is
    /// stored for it and returned.
    pub fn get_block_params(&mut self, name: &str, default: String) -> (r: String)
        ensures
            lookup(old(self)@, name@) matches Some(p) ==> r@ == p && final(self)@ == old(self)@,
            lookup(old(self)@, name@) is None ==> r@ == default@ && final(self)@ == old(
                self,
            )@.push((name@, default@)),
    {
        let key = String::from_str(name);
        let mut i: usize = 0;
        assert(self@.subrange(0, self@.len() as int) =~= self@);
        while i < self.entries.len()
            invariant
                0 <= i <= self@.len(),
                key@ == name@,
                self@ == old(self)@,
                lookup(self@, name@) == lookup(self@.subrange(i as int, self@.len() as int), name@),
            decreases self@.len() - i,
        {
            proof {
                let rest = self@.subrange(i as int, self@.len() as int);
                assert(rest.drop_first() =~= self@.subrange(i + 1, self@.len() as int));
                assert(rest[0] == (self.entries@[i as int].0@, self.entries@[i as int].1@));
            }
            if self.entries[i].0 == key {
                return self.entries[i].1.clone();
            }
            i += 1;
        }
        let r = default.clone();
        let ghost before = self@;
        self.entries.push((String::from_str(name), default));
        assert(self@ =~= before.push((name@, r@)));
        r
    }
}

} // verus!
