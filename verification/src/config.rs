//! The declarative configuration and its transformation into devices:
//! named templates, per-device overrides, and the merge rules joining them.
//!
//! Scalar fields (`id`, `scan_interval`) must come from exactly one side;
//! tag maps union with the device side winning; register lists concatenate,
//! template side first.  Scan intervals are written in a human-readable
//! duration form and parsed through the `humantime` crate.

use vstd::prelude::*;

use crate::datatype::{spec_from_str, DataType};
use crate::device::Device;
use crate::plan::{all_fit, map_view, Register, RegisterView};
use crate::sink::InfluxDbConfig;
use crate::strutil::{dec_str, u128_to_dec};

verus! {

/// IEEE-754 bit pattern of 1.0, the default scale factor.
pub const SCALING_ONE_BITS: u64 = 0x3FF0_0000_0000_0000;

/// The longest duration string the core hands to the parser, in characters.
/// Anything longer is rejected up front as an invalid duration.
pub const MAX_DURATION_CHARS: usize = 20;

/// The nanosecond count that `humantime` reads out of a duration string,
/// if it accepts the string; a function of the characters alone.
pub uninterp spec fn duration_nanos_of(s: Seq<char>) -> Option<u128>;

/// What the core reads out of a duration string: the parse result within
/// the length bound, a rejection beyond it.
pub open spec fn checked_duration_nanos(s: Seq<char>) -> Option<u128> {
    if s.len() <= MAX_DURATION_CHARS {
        duration_nanos_of(s)
    } else {
        None
    }
}

/// Relies on humantime::parse_duration: parses a human-readable duration
/// (`"1s"`, `"2m30s"`) from the characters alone, rejecting anything else.
///
/// The length bound keeps the parser total.  On a string whose spans sum to
/// exactly 2^64 seconds while the subsecond spans sum to exactly 10^9
/// nanoseconds, `parse_duration` aborts instead of erring (its carry test
/// `nsec > 1_000_000_000` is strict, so the constructor's own carry then
/// overflows the seconds).  Reaching 2^64 seconds needs at least a 12-digit
/// span of the largest unit (13 characters), a second span to hit the odd
/// total exactly (2 more), and a subsecond span worth 10^9 nanoseconds
/// (6 more, `1000ms` at the shortest) — over 20 characters in all, so
/// strings within the bound cannot reach the aborting state.
#[verifier::external_body]
fn parse_duration_nanos(s: &str) -> (r: Option<u128>)
    requires
        s@.len() <= MAX_DURATION_CHARS,
    ensures
        r == duration_nanos_of(s@),
{
    match humantime::parse_duration(s) {
        Ok(d) => Some(d.as_nanos()),
        Err(_) => None,
    }
}

/// A configuration error found while building devices.
#[derive(Debug, PartialEq)]
pub enum ErrorKind {
    /// A scalar field was given in both or neither of template and device
    /// section.
    ConfigConflict { field: String },
    /// A scan interval that `humantime` rejects, or one that does not fit
    /// a positive 64-bit nanosecond count.
    ConfigBadDuration { value: String },
    /// A register names a data type that does not exist.
    ConfigBadRegisterType { name: String, value: String },
    /// A register would run past the end of the 16-bit address space.
    ConfigBadAddress { addr: u16 },
}

/// The mathematical content of an `ErrorKind`.
pub ghost enum ErrorKindView {
    ConfigConflict { field: Seq<char> },
    ConfigBadDuration { value: Seq<char> },
    ConfigBadRegisterType { name: Seq<char>, value: Seq<char> },
    ConfigBadAddress { addr: u16 },
}

impl View for ErrorKind {
    type V = ErrorKindView;

    open spec fn view(&self) -> ErrorKindView {
        match self {
            ErrorKind::ConfigConflict { field } => ErrorKindView::ConfigConflict {
                field: field@,
            },
            ErrorKind::ConfigBadDuration { value } => ErrorKindView::ConfigBadDuration {
                value: value@,
            },
            ErrorKind::ConfigBadRegisterType { name, value } => ErrorKindView::ConfigBadRegisterType {
                name: name@,
                value: value@,
            },
            ErrorKind::ConfigBadAddress { addr } => ErrorKindView::ConfigBadAddress {
                addr: *addr,
            },
        }
    }
}

/// The Modbus connection block: where the shared transport connects, and
/// its read/write timeout as a duration string.
#[derive(Debug, PartialEq)]
pub struct ModbusConfig {
    pub hostname: String,
    pub port: u16,
    pub timeout: String,
}

impl ModbusConfig {
    /// The configured timeout in nanoseconds, if the duration string is
    /// valid and within the accepted length.  Opening the TCP transport
    /// itself happens outside the core.
    pub fn timeout_nanos(&self) -> (r: Option<u128>)
        ensures
            r == checked_duration_nanos(self.timeout@),
    {
        if self.timeout.as_str().unicode_len() <= MAX_DURATION_CHARS {
            parse_duration_nanos(self.timeout.as_str())
        } else {
            None
        }
    }
}

/// One register entry of a device section: either a bare address, or a
/// structured entry with a name and optional type, scaling and tags.
#[derive(Debug, PartialEq)]
pub enum RegisterConfig {
    Simple(u16),
    Advanced {
        addr: u16,
        name: String,
        data_type: Option<String>,
        /// IEEE-754 bit pattern of the scale factor.
        scaling_bits: Option<u64>,
        tags: Vec<(String, String)>,
    },
}

/// The mathematical content of a `RegisterConfig`.
pub ghost enum RegisterConfigView {
    Simple(u16),
    Advanced {
        addr: u16,
        name: Seq<char>,
        data_type: Option<Seq<char>>,
        scaling_bits: Option<u64>,
        tags: Seq<(Seq<char>, Seq<char>)>,
    },
}

impl View for RegisterConfig {
    type V = RegisterConfigView;

    open spec fn view(&self) -> RegisterConfigView {
        match self {
            RegisterConfig::Simple(addr) => RegisterConfigView::Simple(*addr),
            RegisterConfig::Advanced { addr, name, data_type, scaling_bits, tags } => {
                RegisterConfigView::Advanced {
                    addr: *addr,
                    name: name@,
                    data_type: data_type.deep_view(),
                    scaling_bits: *scaling_bits,
                    tags: tags.deep_view(),
                }
            },
        }
    }
}

impl DeepView for RegisterConfig {
    type V = RegisterConfigView;

    open spec fn deep_view(&self) -> RegisterConfigView {
        self.view()
    }
}

impl Clone for RegisterConfig {
    /// A copy with the same mathematical content.
    fn clone(&self) -> (r: Self)
        ensures
            r@ == self@,
    {
        match self {
            RegisterConfig::Simple(addr) => RegisterConfig::Simple(*addr),
            RegisterConfig::Advanced { addr, name, data_type, scaling_bits, tags } => {
                RegisterConfig::Advanced {
                    addr: *addr,
                    name: name.clone(),
                    data_type: clone_opt_string(data_type),
                    scaling_bits: *scaling_bits,
                    tags: crate::plan::clone_tags(tags),
                }
            },
        }
    }
}

/// Copies an optional string.
fn clone_opt_string(s: &Option<String>) -> (r: Option<String>)
    ensures
        r.deep_view() == s.deep_view(),
{
    match s {
        Some(v) => Some(v.clone()),
        None => None,
    }
}

/// One device section (or one named template): scalar fields that may come
/// from either side of a merge, and the tag and register collections.
#[derive(Debug, PartialEq)]
pub struct DeviceConfig {
    pub template: Option<String>,
    pub id: Option<u8>,
    pub scan_interval: Option<String>,
    pub tags: Vec<(String, String)>,
    pub input_registers: Vec<RegisterConfig>,
}

/// The mathematical content of a `DeviceConfig`.
pub ghost struct DeviceConfigView {
    pub template: Option<Seq<char>>,
    pub id: Option<u8>,
    pub scan_interval: Option<Seq<char>>,
    pub tags: Seq<(Seq<char>, Seq<char>)>,
    pub input_registers: Seq<RegisterConfigView>,
}

impl View for DeviceConfig {
    type V = DeviceConfigView;

    open spec fn view(&self) -> DeviceConfigView {
        DeviceConfigView {
            template: self.template.deep_view(),
            id: self.id,
            scan_interval: self.scan_interval.deep_view(),
            tags: self.tags.deep_view(),
            input_registers: self.input_registers.deep_view(),
        }
    }
}

impl DeepView for DeviceConfig {
    type V = DeviceConfigView;

    open spec fn deep_view(&self) -> DeviceConfigView {
        self.view()
    }
}

impl Clone for DeviceConfig {
    /// A copy with the same mathematical content.
    fn clone(&self) -> (r: Self)
        ensures
            r@ == self@,
    {
        DeviceConfig {
            template: clone_opt_string(&self.template),
            id: self.id,
            scan_interval: clone_opt_string(&self.scan_interval),
            tags: crate::plan::clone_tags(&self.tags),
            input_registers: clone_register_configs(&self.input_registers),
        }
    }
}

/// Copies a register entry list.
fn clone_register_configs(rcs: &Vec<RegisterConfig>) -> (r: Vec<RegisterConfig>)
    ensures
        r.deep_view() == rcs.deep_view(),
{
    let mut r: Vec<RegisterConfig> = Vec::new();
    let mut i: usize = 0;
    while i < rcs.len()
        invariant
            i <= rcs.len(),
            r@.len() == i,
            r.deep_view() =~= rcs.deep_view().subrange(0, i as int),
        decreases rcs.len() - i,
    {
        let item = rcs[i].clone();
        r.push(item);
        proof {
            assert(r.deep_view() =~= rcs.deep_view().subrange(0, i + 1 as int));
        }
        i += 1;
    }
    proof {
        assert(rcs.deep_view().subrange(0, rcs@.len() as int) =~= rcs.deep_view());
    }
    r
}

/// The scaffold a section starts from when it names no template.
pub open spec fn empty_device_config() -> DeviceConfigView {
    DeviceConfigView {
        template: None,
        id: None,
        scan_interval: None,
        tags: Seq::empty(),
        input_registers: Seq::empty(),
    }
}

impl Default for DeviceConfig {
    /// The empty scaffold: every field absent.
    fn default() -> (r: Self)
        ensures
            r@ == empty_device_config(),
    {
        let r = DeviceConfig {
            template: None,
            id: None,
            scan_interval: None,
            tags: Vec::new(),
            input_registers: Vec::new(),
        };
        proof {
            assert(r@.tags =~= empty_device_config().tags);
            assert(r@.input_registers =~= empty_device_config().input_registers);
        }
        r
    }
}

/// The first template of that name, if any.
pub open spec fn lookup_template(
    ts: Seq<(Seq<char>, DeviceConfigView)>,
    name: Seq<char>,
) -> Option<DeviceConfigView>
    decreases ts.len(),
{
    if ts.len() == 0 {
        None
    } else if ts[0].0 == name {
        Some(ts[0].1)
    } else {
        lookup_template(ts.drop_first(), name)
    }
}

/// The scaffold of a device section: its named template if that exists,
/// the empty scaffold otherwise.
pub open spec fn spec_scaffold(
    ts: Seq<(Seq<char>, DeviceConfigView)>,
    c: DeviceConfigView,
) -> DeviceConfigView {
    match c.template {
        Some(name) => match lookup_template(ts, name) {
            Some(t) => t,
            None => empty_device_config(),
        },
        None => empty_device_config(),
    }
}

/// A scalar that must be given on exactly one side.
pub open spec fn xor_opt<T>(a: Option<T>, b: Option<T>) -> Option<T> {
    match (a, b) {
        (Some(x), None) => Some(x),
        (None, Some(y)) => Some(y),
        _ => None,
    }
}

/// `ts` with the first pair keyed `k` replaced by `(k, v)`, or `(k, v)`
/// appended when no pair has that key.
pub open spec fn upsert_tag(
    ts: Seq<(Seq<char>, Seq<char>)>,
    k: Seq<char>,
    v: Seq<char>,
) -> Seq<(Seq<char>, Seq<char>)>
    decreases ts.len(),
{
    if ts.len() == 0 {
        seq![(k, v)]
    } else if ts[0].0 == k {
        seq![(k, v)] + ts.drop_first()
    } else {
        seq![ts[0]] + upsert_tag(ts.drop_first(), k, v)
    }
}

/// The union of two tag maps, the overriding side winning on a shared key;
/// base pairs keep their places, new keys append in their order.
pub open spec fn merge_tags(
    base: Seq<(Seq<char>, Seq<char>)>,
    over: Seq<(Seq<char>, Seq<char>)>,
) -> Seq<(Seq<char>, Seq<char>)>
    decreases over.len(),
{
    if over.len() == 0 {
        base
    } else {
        merge_tags(upsert_tag(base, over[0].0, over[0].1), over.drop_first())
    }
}

/// `k` is a key of the tag list.
pub open spec fn tag_has_key(ts: Seq<(Seq<char>, Seq<char>)>, k: Seq<char>) -> bool {
    exists|i: int| 0 <= i < ts.len() && (#[trigger] ts[i]).0 == k
}

/// The value of the first pair keyed `k`.
pub open spec fn tag_value_of(ts: Seq<(Seq<char>, Seq<char>)>, k: Seq<char>) -> Seq<char>
    decreases ts.len(),
{
    if ts.len() == 0 {
        Seq::empty()
    } else if ts[0].0 == k {
        ts[0].1
    } else {
        tag_value_of(ts.drop_first(), k)
    }
}

/// No two pairs share a key.
pub open spec fn tag_keys_distinct(ts: Seq<(Seq<char>, Seq<char>)>) -> bool {
    forall|i: int, j: int| 0 <= i < j < ts.len() ==> (#[trigger] ts[i]).0 != (#[trigger] ts[j]).0
}

proof fn lemma_upsert_props(ts: Seq<(Seq<char>, Seq<char>)>, k: Seq<char>, v: Seq<char>)
    requires
        tag_keys_distinct(ts),
    ensures
        tag_keys_distinct(upsert_tag(ts, k, v)),
        forall|k2: Seq<char>|
            #[trigger] tag_has_key(upsert_tag(ts, k, v), k2) <==> (tag_has_key(ts, k2) || k2
                == k),
        tag_value_of(upsert_tag(ts, k, v), k) == v,
        forall|k2: Seq<char>|
            k2 != k && tag_has_key(ts, k2) ==> #[trigger] tag_value_of(upsert_tag(ts, k, v), k2)
                == tag_value_of(ts, k2),
    decreases ts.len(),
{
    let up = upsert_tag(ts, k, v);
    if ts.len() == 0 {
        assert(up =~= seq![(k, v)]);
        assert forall|k2: Seq<char>| tag_has_key(up, k2) implies (tag_has_key(ts, k2) || k2
            == k) by {
            let i = choose|i: int| 0 <= i < up.len() && (#[trigger] up[i]).0 == k2;
        }
        assert(up[0].0 == k);
    } else if ts[0].0 == k {
        assert(up =~= seq![(k, v)] + ts.drop_first());
        assert(up[0].0 == k);
        assert forall|k2: Seq<char>| tag_has_key(up, k2) implies (tag_has_key(ts, k2) || k2
            == k) by {
            let i = choose|i: int| 0 <= i < up.len() && (#[trigger] up[i]).0 == k2;
            if i > 0 {
                assert(ts[i].0 == k2);
            }
        }
        assert forall|k2: Seq<char>| tag_has_key(ts, k2) implies tag_has_key(up, k2) || k2
            == k by {
            let i = choose|i: int| 0 <= i < ts.len() && (#[trigger] ts[i]).0 == k2;
            if i > 0 {
                assert(up[i].0 == k2);
            }
        }
        assert forall|k2: Seq<char>|
            k2 != k && tag_has_key(ts, k2) implies tag_value_of(up, k2) == tag_value_of(
            ts,
            k2,
        ) by {
            assert(up.drop_first() =~= ts.drop_first());
        }
    } else {
        lemma_upsert_props(ts.drop_first(), k, v);
        assert(up =~= seq![ts[0]] + upsert_tag(ts.drop_first(), k, v));
        assert(up[0] == ts[0]);
        assert(up.drop_first() =~= upsert_tag(ts.drop_first(), k, v));
        assert forall|k2: Seq<char>| tag_has_key(up, k2) implies (tag_has_key(ts, k2) || k2
            == k) by {
            let i = choose|i: int| 0 <= i < up.len() && (#[trigger] up[i]).0 == k2;
            if i == 0 {
                assert(ts[0].0 == k2);
            } else {
                assert(up.drop_first()[i - 1].0 == k2);
                assert(tag_has_key(upsert_tag(ts.drop_first(), k, v), k2));
                if tag_has_key(ts.drop_first(), k2) {
                    let t = choose|t: int|
                        0 <= t < ts.drop_first().len() && (#[trigger] ts.drop_first()[t]).0 == k2;
                    assert(ts[t + 1].0 == k2);
                }
            }
        }
        assert forall|k2: Seq<char>| (tag_has_key(ts, k2) || k2 == k) implies tag_has_key(
            up,
            k2,
        ) by {
            if k2 == k {
                assert(tag_has_key(upsert_tag(ts.drop_first(), k, v), k));
                let t = choose|t: int|
                    0 <= t < up.drop_first().len() && (#[trigger] up.drop_first()[t]).0 == k2;
                assert(up[t + 1].0 == k2);
            } else {
                let i = choose|i: int| 0 <= i < ts.len() && (#[trigger] ts[i]).0 == k2;
                if i == 0 {
                    assert(up[0].0 == k2);
                } else {
                    assert(ts.drop_first()[i - 1].0 == k2);
                    assert(tag_has_key(upsert_tag(ts.drop_first(), k, v), k2));
                    let t = choose|t: int|
                        0 <= t < up.drop_first().len() && (#[trigger] up.drop_first()[t]).0 == k2;
                    assert(up[t + 1].0 == k2);
                }
            }
        }
        assert(tag_keys_distinct(up)) by {
            assert(tag_keys_distinct(ts.drop_first()));
            assert(ts[0].0 != k);
            assert forall|i: int, j: int| 0 <= i < j < up.len() implies (#[trigger] up[i]).0 != (
            #[trigger] up[j]).0 by {
                if i == 0 {
                    assert(up.drop_first()[j - 1] == up[j]);
                    assert(tag_has_key(upsert_tag(ts.drop_first(), k, v), up[j].0));
                    if up[j].0 == ts[0].0 {
                        if tag_has_key(ts.drop_first(), ts[0].0) {
                            let t = choose|t: int|
                                0 <= t < ts.drop_first().len() && (#[trigger] ts.drop_first()[
                                t]).0 == ts[0].0;
                            assert(ts[t + 1].0 == ts[0].0);
                        }
                    }
                } else {
                    assert(up.drop_first()[i - 1] == up[i]);
                    assert(up.drop_first()[j - 1] == up[j]);
                }
            }
        }
        assert forall|k2: Seq<char>|
            k2 != k && tag_has_key(ts, k2) implies tag_value_of(up, k2) == tag_value_of(
            ts,
            k2,
        ) by {
            if k2 == ts[0].0 {
                assert(up[0].0 == k2);
                assert(tag_value_of(up, k2) == up[0].1);
                assert(tag_value_of(ts, k2) == ts[0].1);
            } else {
                assert(tag_has_key(ts.drop_first(), k2)) by {
                    let i = choose|i: int| 0 <= i < ts.len() && (#[trigger] ts[i]).0 == k2;
                    assert(i > 0);
                    assert(ts.drop_first()[i - 1].0 == k2);
                }
                assert(tag_value_of(upsert_tag(ts.drop_first(), k, v), k2) == tag_value_of(
                    ts.drop_first(),
                    k2,
                ));
                assert(tag_value_of(up, k2) == tag_value_of(up.drop_first(), k2));
                assert(tag_value_of(ts, k2) == tag_value_of(ts.drop_first(), k2));
            }
        }
    }
}

/// Tag merge law: merging is a union of the two maps in which the
/// overriding side wins every shared key.
pub proof fn lemma_merge_tags_union(
    base: Seq<(Seq<char>, Seq<char>)>,
    over: Seq<(Seq<char>, Seq<char>)>,
)
    requires
        tag_keys_distinct(base),
        tag_keys_distinct(over),
    ensures
        tag_keys_distinct(merge_tags(base, over)),
        forall|k: Seq<char>|
            #[trigger] tag_has_key(merge_tags(base, over), k) <==> (tag_has_key(base, k)
                || tag_has_key(over, k)),
        forall|k: Seq<char>|
            tag_has_key(over, k) ==> #[trigger] tag_value_of(merge_tags(base, over), k)
                == tag_value_of(over, k),
        forall|k: Seq<char>|
            !tag_has_key(over, k) && tag_has_key(base, k) ==> #[trigger] tag_value_of(
                merge_tags(base, over),
                k,
            ) == tag_value_of(base, k),
    decreases over.len(),
{
    if over.len() > 0 {
        let k0 = over[0].0;
        let v0 = over[0].1;
        let base2 = upsert_tag(base, k0, v0);
        lemma_upsert_props(base, k0, v0);
        assert(tag_keys_distinct(over.drop_first()));
        lemma_merge_tags_union(base2, over.drop_first());
        let merged = merge_tags(base, over);
        assert(merged == merge_tags(base2, over.drop_first()));
        assert(!tag_has_key(over.drop_first(), k0)) by {
            if tag_has_key(over.drop_first(), k0) {
                let t = choose|t: int|
                    0 <= t < over.drop_first().len() && (#[trigger] over.drop_first()[t]).0 == k0;
                assert(over[t + 1].0 == k0);
            }
        }
        assert forall|k: Seq<char>| tag_has_key(over, k) implies tag_value_of(merged, k)
            == tag_value_of(over, k) by {
            if k == k0 {
                assert(tag_value_of(merged, k) == tag_value_of(base2, k));
                assert(tag_value_of(base2, k) == v0);
            } else {
                assert(tag_has_key(over.drop_first(), k)) by {
                    let i = choose|i: int| 0 <= i < over.len() && (#[trigger] over[i]).0 == k;
                    assert(i > 0);
                    assert(over.drop_first()[i - 1].0 == k);
                }
            }
        }
        assert forall|k: Seq<char>| tag_has_key(merged, k) implies (tag_has_key(base, k)
            || tag_has_key(over, k)) by {
            if !tag_has_key(base, k) {
                if tag_has_key(over.drop_first(), k) {
                    let i = choose|i: int|
                        0 <= i < over.drop_first().len() && (#[trigger] over.drop_first()[i]).0
                            == k;
                    assert(over[i + 1].0 == k);
                } else {
                    assert(k == k0);
                    assert(over[0].0 == k);
                }
            }
        }
        assert forall|k: Seq<char>| (tag_has_key(base, k) || tag_has_key(over, k)) implies
            tag_has_key(merged, k) by {
            if tag_has_key(over, k) && k != k0 {
                let i = choose|i: int| 0 <= i < over.len() && (#[trigger] over[i]).0 == k;
                assert(i > 0);
                assert(over.drop_first()[i - 1].0 == k);
            }
        }
    } else {
        assert forall|k: Seq<char>| !tag_has_key(over, k) by {
            if tag_has_key(over, k) {
                let i = choose|i: int| 0 <= i < over.len() && (#[trigger] over[i]).0 == k;
            }
        }
    }
}

/// The default name of a bare register entry.
pub open spec fn reg_default_name(addr: u16) -> Seq<char> {
    "input_register_"@ + dec_str(addr as nat)
}

/// The data type a register entry asks for: `u16` by default.
pub open spec fn reg_type_of(rc: RegisterConfigView) -> Result<DataType, ()> {
    match rc {
        RegisterConfigView::Simple(_) => Ok(DataType::U16),
        RegisterConfigView::Advanced { data_type, .. } => match data_type {
            None => Ok(DataType::U16),
            Some(s) => spec_from_str(s),
        },
    }
}

/// The address of a register entry.
pub open spec fn reg_addr_of(rc: RegisterConfigView) -> u16 {
    match rc {
        RegisterConfigView::Simple(addr) => addr,
        RegisterConfigView::Advanced { addr, .. } => addr,
    }
}

/// The entry's type exists and the register fits the address space.
pub open spec fn reg_ok(rc: RegisterConfigView) -> bool {
    &&& reg_type_of(rc) is Ok
    &&& (match reg_type_of(rc) {
        Ok(dt) => reg_addr_of(rc) + dt.spec_num_registers() <= u16::MAX,
        Err(_) => false,
    })
}

/// What a good register entry becomes: a bare address becomes a `u16`
/// register named after it with unit scaling and no tags; a structured
/// entry keeps its fields, defaults filled in.
pub open spec fn reg_view_of(rc: RegisterConfigView) -> (u16, RegisterView) {
    match rc {
        RegisterConfigView::Simple(addr) => (
            addr,
            RegisterView {
                data_type: DataType::U16,
                scaling_bits: SCALING_ONE_BITS,
                name: reg_default_name(addr),
                tags: Seq::empty(),
            },
        ),
        RegisterConfigView::Advanced { addr, name, data_type: _, scaling_bits, tags } => (
            addr,
            RegisterView {
                data_type: match reg_type_of(rc) {
                    Ok(dt) => dt,
                    Err(_) => DataType::U16,
                },
                scaling_bits: match scaling_bits {
                    Some(b) => b,
                    None => SCALING_ONE_BITS,
                },
                name,
                tags,
            },
        ),
    }
}

/// The error of one register entry, if it has one: an unknown type first,
/// an overflowing address second.
pub open spec fn reg_error_of(rc: RegisterConfigView) -> Option<ErrorKindView> {
    if !(reg_type_of(rc) is Ok) {
        match rc {
            RegisterConfigView::Advanced { name, data_type, .. } => Some(
                ErrorKindView::ConfigBadRegisterType {
                    name,
                    value: match data_type {
                        Some(s) => s,
                        None => Seq::empty(),
                    },
                },
            ),
            RegisterConfigView::Simple(_) => None,
        }
    } else if !reg_ok(rc) {
        Some(ErrorKindView::ConfigBadAddress { addr: reg_addr_of(rc) })
    } else {
        None
    }
}

/// The error of the first bad register entry, if any is bad.
pub open spec fn first_reg_error(rcs: Seq<RegisterConfigView>) -> Option<ErrorKindView>
    decreases rcs.len(),
{
    if rcs.len() == 0 {
        None
    } else if reg_error_of(rcs[0]) is Some {
        reg_error_of(rcs[0])
    } else {
        first_reg_error(rcs.drop_first())
    }
}

/// Every entry converted; meaningful when every entry is good.
pub open spec fn regs_converted(rcs: Seq<RegisterConfigView>) -> Seq<(u16, RegisterView)> {
    rcs.map_values(|rc: RegisterConfigView| reg_view_of(rc))
}

/// The merged `id` of a device section over its scaffold.
pub open spec fn spec_device_id(
    ts: Seq<(Seq<char>, DeviceConfigView)>,
    c: DeviceConfigView,
) -> Option<u8> {
    xor_opt(spec_scaffold(ts, c).id, c.id)
}

/// The merged `scan_interval` string of a device section over its scaffold.
pub open spec fn spec_device_interval_str(
    ts: Seq<(Seq<char>, DeviceConfigView)>,
    c: DeviceConfigView,
) -> Option<Seq<char>> {
    xor_opt(spec_scaffold(ts, c).scan_interval, c.scan_interval)
}

/// A duration string the core accepts: within the length bound,
/// `humantime` reads it, and it is a positive nanosecond count that fits
/// 64 bits.
pub open spec fn valid_interval(s: Seq<char>) -> bool {
    match checked_duration_nanos(s) {
        Some(d) => 0 < d <= u64::MAX,
        None => false,
    }
}

/// The merged register entries: scaffold entries first.
pub open spec fn spec_device_regs(
    ts: Seq<(Seq<char>, DeviceConfigView)>,
    c: DeviceConfigView,
) -> Seq<RegisterConfigView> {
    spec_scaffold(ts, c).input_registers + c.input_registers
}

/// The merged tags: scaffold tags, the section's tags winning shared keys.
pub open spec fn spec_device_tags(
    ts: Seq<(Seq<char>, DeviceConfigView)>,
    c: DeviceConfigView,
) -> Seq<(Seq<char>, Seq<char>)> {
    merge_tags(spec_scaffold(ts, c).tags, c.tags)
}

/// The first error of a device section, if it has one: a conflicting or
/// missing scalar, then a bad duration, then the first bad register.
pub open spec fn spec_device_error(
    ts: Seq<(Seq<char>, DeviceConfigView)>,
    c: DeviceConfigView,
) -> Option<ErrorKindView> {
    if spec_device_id(ts, c) is None {
        Some(ErrorKindView::ConfigConflict { field: "id"@ })
    } else if spec_device_interval_str(ts, c) is None {
        Some(ErrorKindView::ConfigConflict { field: "scan_interval"@ })
    } else if !valid_interval(spec_device_interval_str(ts, c).unwrap()) {
        Some(
            ErrorKindView::ConfigBadDuration { value: spec_device_interval_str(ts, c).unwrap() },
        )
    } else {
        first_reg_error(spec_device_regs(ts, c))
    }
}

/// A device section merges cleanly.
pub open spec fn device_ok(ts: Seq<(Seq<char>, DeviceConfigView)>, c: DeviceConfigView) -> bool {
    spec_device_error(ts, c) is None
}

/// `d` is the device a clean section `c` merges to over templates `ts`.
pub open spec fn device_matches(
    ts: Seq<(Seq<char>, DeviceConfigView)>,
    c: DeviceConfigView,
    d: Device,
) -> bool {
    &&& d.wf()
    &&& Some(d.id) == spec_device_id(ts, c)
    &&& (match spec_device_interval_str(ts, c) {
        Some(s) => checked_duration_nanos(s) == Some(d.scan_interval_ns as u128),
        None => false,
    })
    &&& d.tags.deep_view() == spec_device_tags(ts, c)
    &&& map_view(d.input_registers.dv()) == map_view(regs_converted(spec_device_regs(ts, c)))
}

/// Converts one register entry, or says what is wrong with it.
fn register_from_config(rc: &RegisterConfig) -> (r: Result<(u16, Register), ErrorKind>)
    ensures
        match r {
            Ok(p) => reg_ok(rc@) && p.deep_view() == reg_view_of(rc@),
            Err(e) => Some(e@) == reg_error_of(rc@),
        },
{
    match rc {
        RegisterConfig::Simple(addr) => {
            if *addr == u16::MAX {
                return Err(ErrorKind::ConfigBadAddress { addr: *addr });
            }
            let mut name = String::from_str("input_register_");
            let dec = u128_to_dec(*addr as u128);
            name.append(dec.as_str());
            let reg = Register {
                data_type: DataType::U16,
                scaling_bits: SCALING_ONE_BITS,
                name,
                tags: Vec::new(),
            };
            let p = (*addr, reg);
            proof {
                assert(p.deep_view().1.tags =~= reg_view_of(rc@).1.tags);
            }
            Ok(p)
        },
        RegisterConfig::Advanced { addr, name, data_type, scaling_bits, tags } => {
            let dt = match data_type {
                None => DataType::U16,
                Some(s) => match DataType::from_str(s.as_str()) {
                    Ok(t) => t,
                    Err(_) => {
                        return Err(
                            ErrorKind::ConfigBadRegisterType {
                                name: name.clone(),
                                value: s.clone(),
                            },
                        );
                    },
                },
            };
            let w = dt.num_registers();
            if !(*addr as u32 + w as u32 <= u16::MAX as u32) {
                return Err(ErrorKind::ConfigBadAddress { addr: *addr });
            }
            let reg = Register {
                data_type: dt,
                scaling_bits: match scaling_bits {
                    Some(b) => *b,
                    None => SCALING_ONE_BITS,
                },
                name: name.clone(),
                tags: crate::plan::clone_tags(tags),
            };
            Ok((*addr, reg))
        },
    }
}

/// Replaces the value of the first pair keyed `k`, or appends the pair.
fn upsert_tag_exec(ts: &mut Vec<(String, String)>, k: String, v: String)
    ensures
        final(ts).deep_view() == upsert_tag(old(ts).deep_view(), k@, v@),
{
    let ghost dv = ts.deep_view();
    let mut j: usize = 0;
    while j < ts.len() && !(ts[j].0 == k)
        invariant
            dv == ts.deep_view(),
            j <= ts@.len(),
            dv.len() == ts@.len(),
            forall|t: int| 0 <= t < j ==> (#[trigger] dv[t]).0 != k@,
        decreases ts@.len() - j,
    {
        j += 1;
    }
    if j < ts.len() {
        assert(dv[j as int].0 == k@);
        let ghost prev = ts.deep_view();
        ts.set(j, (k, v));
        proof {
            assert(ts.deep_view() =~= prev.update(j as int, (k@, v@)));
            lemma_upsert_found(prev, k@, v@, j as int);
        }
    } else {
        let ghost prev = ts.deep_view();
        ts.push((k, v));
        proof {
            assert(ts.deep_view() =~= prev.push((k@, v@)));
            lemma_upsert_absent(prev, k@, v@);
        }
    }
}

/// An upsert that finds its key replaces exactly that pair.
proof fn lemma_upsert_found(ts: Seq<(Seq<char>, Seq<char>)>, k: Seq<char>, v: Seq<char>, j: int)
    requires
        0 <= j < ts.len(),
        ts[j].0 == k,
        forall|t: int| 0 <= t < j ==> (#[trigger] ts[t]).0 != k,
    ensures
        upsert_tag(ts, k, v) == ts.update(j, (k, v)),
    decreases ts.len(),
{
    if j == 0 {
        assert(upsert_tag(ts, k, v) =~= ts.update(0, (k, v)));
    } else {
        assert(ts[0].0 != k);
        lemma_upsert_found(ts.drop_first(), k, v, j - 1);
        assert(ts.drop_first().update(j - 1, (k, v)) =~= ts.update(j, (k, v)).drop_first());
        assert(upsert_tag(ts, k, v) =~= ts.update(j, (k, v)));
    }
}

/// An upsert that finds no key appends its pair.
proof fn lemma_upsert_absent(ts: Seq<(Seq<char>, Seq<char>)>, k: Seq<char>, v: Seq<char>)
    requires
        forall|t: int| 0 <= t < ts.len() ==> (#[trigger] ts[t]).0 != k,
    ensures
        upsert_tag(ts, k, v) == ts.push((k, v)),
    decreases ts.len(),
{
    if ts.len() == 0 {
        assert(upsert_tag(ts, k, v) =~= ts.push((k, v)));
    } else {
        lemma_upsert_absent(ts.drop_first(), k, v);
        assert(ts.drop_first().push((k, v)) =~= ts.push((k, v)).drop_first());
        assert(upsert_tag(ts, k, v) =~= ts.push((k, v)));
    }
}

/// Merges `over` into `base`, the overriding side winning shared keys.
fn merge_tag_lists(base: Vec<(String, String)>, over: &Vec<(String, String)>) -> (r: Vec<
    (String, String),
>)
    ensures
        r.deep_view() == merge_tags(base.deep_view(), over.deep_view()),
{
    let ghost base_dv = base.deep_view();
    let ghost over_dv = over.deep_view();
    let mut acc = base;
    proof {
        assert(over_dv.skip(0) =~= over_dv);
    }
    let mut i: usize = 0;
    while i < over.len()
        invariant
            i <= over@.len(),
            over_dv == over.deep_view(),
            merge_tags(acc.deep_view(), over_dv.skip(i as int)) == merge_tags(base_dv, over_dv),
        decreases over@.len() - i,
    {
        let pair = (over[i].0.clone(), over[i].1.clone());
        proof {
            let rest = over_dv.skip(i as int);
            assert(rest[0] == over_dv[i as int]);
            assert(rest.drop_first() =~= over_dv.skip(i + 1 as int));
            assert(merge_tags(acc.deep_view(), rest) == merge_tags(
                upsert_tag(acc.deep_view(), over_dv[i as int].0, over_dv[i as int].1),
                over_dv.skip(i + 1 as int),
            ));
        }
        upsert_tag_exec(&mut acc, pair.0, pair.1);
        proof {
            assert(over_dv[i as int] == (over@[i as int].0@, over@[i as int].1@));
        }
        i += 1;
    }
    proof {
        assert(over_dv.skip(over@.len() as int) =~= Seq::<(Seq<char>, Seq<char>)>::empty());
    }
    acc
}

/// Builds one device from its section, merged over the named template.
#[verifier::loop_isolation(false)]
fn device_from_config(templates: &Vec<(String, DeviceConfig)>, config: DeviceConfig) -> (r:
    Result<Device, ErrorKind>)
    ensures
        match r {
            Ok(d) => device_ok(templates.deep_view(), config@) && device_matches(
                templates.deep_view(),
                config@,
                d,
            ),
            Err(e) => Some(e@) == spec_device_error(templates.deep_view(), config@),
        },
{
    let ghost tsv = templates.deep_view();
    let ghost cv = config@;
    // Use the named template as the scaffold if it exists.
    let scaffold: DeviceConfig = match &config.template {
        Some(name) => lookup_template_exec(templates, name),
        None => DeviceConfig::default(),
    };
    proof {
        assert(scaffold@ == spec_scaffold(tsv, cv));
    }
    // Merge the scalar fields: each must come from exactly one side.
    let id: u8 = match (scaffold.id, config.id) {
        (Some(x), None) => x,
        (None, Some(y)) => y,
        _ => {
            return Err(ErrorKind::ConfigConflict { field: String::from_str("id") });
        },
    };
    let interval_str: String = match (scaffold.scan_interval, config.scan_interval) {
        (Some(x), None) => x,
        (None, Some(y)) => y,
        _ => {
            return Err(ErrorKind::ConfigConflict { field: String::from_str("scan_interval") });
        },
    };
    if interval_str.as_str().unicode_len() > MAX_DURATION_CHARS {
        return Err(ErrorKind::ConfigBadDuration { value: interval_str });
    }
    let scan_interval_ns: u64 = match parse_duration_nanos(interval_str.as_str()) {
        Some(d) => {
            if 0 < d && d <= u64::MAX as u128 {
                d as u64
            } else {
                return Err(ErrorKind::ConfigBadDuration { value: interval_str });
            }
        },
        None => {
            return Err(ErrorKind::ConfigBadDuration { value: interval_str });
        },
    };
    // Concatenate the register lists, template side first, and convert them.
    let mut reg_configs = scaffold.input_registers;
    let mut over_regs = config.input_registers;
    let ghost scaffold_regs = reg_configs.deep_view();
    let ghost over_regs_dv = over_regs.deep_view();
    reg_configs.append(&mut over_regs);
    proof {
        assert(reg_configs.deep_view() =~= spec_device_regs(tsv, cv));
    }
    let mut entries: Vec<(u16, Register)> = Vec::new();
    let ghost rcs = reg_configs.deep_view();
    proof {
        assert(entries.deep_view() =~= regs_converted(rcs.subrange(0, 0)));
    }
    let mut k: usize = 0;
    while k < reg_configs.len()
        invariant
            k <= reg_configs@.len(),
            rcs == reg_configs.deep_view(),
            entries@.len() == k,
            forall|t: int| 0 <= t < k ==> reg_error_of(#[trigger] rcs[t]) is None,
            entries.deep_view() =~= regs_converted(rcs.subrange(0, k as int)),
        decreases reg_configs@.len() - k,
    {
        match register_from_config(&reg_configs[k]) {
            Ok(p) => {
                let ghost prev = entries.deep_view();
                entries.push(p);
                proof {
                    assert(rcs[k as int] == reg_configs@[k as int]@);
                    assert(reg_ok(rcs[k as int]));
                    let target = regs_converted(rcs.subrange(0, k + 1 as int));
                    assert forall|t: int| 0 <= t < entries@.len() implies entries.deep_view()[t]
                        == target[t] by {
                        if t < k as int {
                            assert(entries.deep_view()[t] == prev[t]);
                            assert(prev[t] == regs_converted(rcs.subrange(0, k as int))[t]);
                        } else {
                            assert(entries@[t] == p);
                        }
                    }
                    assert(entries.deep_view() =~= target);
                }
            },
            Err(e) => {
                proof {
                    assert(rcs[k as int] == reg_configs@[k as int]@);
                    lemma_first_reg_error_here(rcs, k as int);
                }
                return Err(e);
            },
        }
        k += 1;
    }
    proof {
        assert(rcs.subrange(0, reg_configs@.len() as int) =~= rcs);
        lemma_first_reg_error_none(rcs);
        assert(all_fit(entries.deep_view())) by {
            assert forall|t: int| 0 <= t < entries.deep_view().len() implies #[trigger] entries.deep_view()[t].0
                + crate::plan::e_width(entries.deep_view()[t]) <= u16::MAX by {
                assert(entries.deep_view()[t] == reg_view_of(rcs[t]));
                assert(reg_ok(rcs[t]));
            }
        }
    }
    // Merge the tag maps, the device section winning shared keys.
    let tags = merge_tag_lists(scaffold.tags, &config.tags);
    let d = Device::new(id, scan_interval_ns, tags, entries);
    Ok(d)
}

/// The error of the first bad entry is this entry's, when all before are
/// good.
proof fn lemma_first_reg_error_here(rcs: Seq<RegisterConfigView>, k: int)
    requires
        0 <= k < rcs.len(),
        forall|t: int| 0 <= t < k ==> reg_error_of(#[trigger] rcs[t]) is None,
        reg_error_of(rcs[k]) is Some,
    ensures
        first_reg_error(rcs) == reg_error_of(rcs[k]),
    decreases rcs.len(),
{
    if k > 0 {
        lemma_first_reg_error_here(rcs.drop_first(), k - 1);
    }
}

/// No entry is bad, no error.
proof fn lemma_first_reg_error_none(rcs: Seq<RegisterConfigView>)
    requires
        forall|t: int| 0 <= t < rcs.len() ==> reg_error_of(#[trigger] rcs[t]) is None,
    ensures
        first_reg_error(rcs) is None,
    decreases rcs.len(),
{
    if rcs.len() > 0 {
        lemma_first_reg_error_none(rcs.drop_first());
    }
}

/// The first template of the given name, copied; the empty scaffold when
/// none has it.
fn lookup_template_exec(templates: &Vec<(String, DeviceConfig)>, name: &String) -> (r:
    DeviceConfig)
    ensures
        r@ == (match lookup_template(templates.deep_view(), name@) {
            Some(t) => t,
            None => empty_device_config(),
        }),
{
    let ghost tsv = templates.deep_view();
    proof {
        assert(tsv.skip(0) =~= tsv);
    }
    let mut i: usize = 0;
    while i < templates.len()
        invariant
            i <= templates@.len(),
            tsv == templates.deep_view(),
            lookup_template(tsv, name@) == lookup_template(tsv.skip(i as int), name@),
        decreases templates@.len() - i,
    {
        proof {
            let rest = tsv.skip(i as int);
            assert(rest[0] == tsv[i as int]);
            assert(rest.drop_first() =~= tsv.skip(i + 1 as int));
        }
        if templates[i].0 == *name {
            return templates[i].1.clone();
        }
        i += 1;
    }
    proof {
        assert(tsv.skip(templates@.len() as int) =~= Seq::<(Seq<char>, DeviceConfigView)>::empty());
    }
    DeviceConfig::default()
}

/// A configuration error together with the device section it names: the
/// position of the failing section in the device list, and what is wrong
/// with it.
#[derive(Debug, PartialEq)]
pub struct ConfigError {
    pub device_index: usize,
    pub kind: ErrorKind,
}

/// The device list of the configuration: named templates and the sections
/// that draw on them.
#[derive(Debug, PartialEq)]
pub struct DevicesConfig {
    pub templates: Vec<(String, DeviceConfig)>,
    pub devices: Vec<DeviceConfig>,
}

impl DevicesConfig {
    /// Builds every configured device, or reports the first section that
    /// cannot be built — by its position in the list — and why.
    pub fn into_devices(self) -> (r: Result<Vec<Device>, ConfigError>)
        ensures
            match r {
                Ok(v) => {
                    &&& v@.len() == self.devices@.len()
                    &&& forall|k: int|
                        0 <= k < v@.len() ==> device_ok(
                            self.templates.deep_view(),
                            #[trigger] self.devices.deep_view()[k],
                        ) && device_matches(
                            self.templates.deep_view(),
                            self.devices.deep_view()[k],
                            v@[k],
                        )
                },
                Err(e) => {
                    &&& e.device_index < self.devices@.len()
                    &&& Some(e.kind@) == spec_device_error(
                        self.templates.deep_view(),
                        self.devices.deep_view()[e.device_index as int],
                    )
                    &&& forall|t: int|
                        0 <= t < e.device_index ==> device_ok(
                            self.templates.deep_view(),
                            #[trigger] self.devices.deep_view()[t],
                        )
                },
            },
    {
        let ghost tsv = self.templates.deep_view();
        let ghost csv = self.devices.deep_view();
        let mut out: Vec<Device> = Vec::new();
        let mut k: usize = 0;
        while k < self.devices.len()
            invariant
                k <= self.devices@.len(),
                tsv == self.templates.deep_view(),
                csv == self.devices.deep_view(),
                out@.len() == k,
                forall|t: int|
                    0 <= t < k ==> device_ok(tsv, #[trigger] csv[t]) && device_matches(
                        tsv,
                        csv[t],
                        out@[t],
                    ),
            decreases self.devices@.len() - k,
        {
            match device_from_config(&self.templates, self.devices[k].clone()) {
                Ok(d) => {
                    out.push(d);
                },
                Err(e) => {
                    return Err(ConfigError { device_index: k, kind: e });
                },
            }
            k += 1;
        }
        Ok(out)
    }
}

/// The whole configuration document: the Modbus connection, the sink, and
/// the device list.
#[derive(Debug, PartialEq)]
pub struct Config {
    pub modbus: ModbusConfig,
    pub influxdb: InfluxDbConfig,
    pub devices: DevicesConfig,
}

} // verus!
