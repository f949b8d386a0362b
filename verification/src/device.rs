//! A device: Modbus unit id, scan interval, static tags, and a register
//! plan.  One sampling round reads every interval of the plan, decodes each
//! register, and emits one line-protocol record per register, all carrying
//! one timestamp quantized to the scan interval.
//!
//! The Modbus reads themselves, and the float arithmetic that scales and
//! renders the decoded values, happen outside the verified core: the decoding
//! step takes the word buffers the transport returned, and the encoding step
//! takes the rendered value texts.

use vstd::prelude::*;

use crate::datatype::{spec_parse_data, DecodedValue};
use crate::encode::{influxdb_line, spec_line};
use crate::plan::{
    all_fit, clone_tags, covered, covers, e_width, map_view, Register, Registers, RegisterView,
    lemma_plan_of_props, lemma_covered_unique,
};
use crate::strutil::{dec_str, u128_to_dec};

verus! {

/// A unit of polling.
#[derive(Debug, PartialEq)]
pub struct Device {
    /// The Modbus unit id selected before each read.
    pub id: u8,
    /// The polling period, in nanoseconds; always positive.
    pub scan_interval_ns: u64,
    /// Static tags stamped on every line of this device.
    pub tags: Vec<(String, String)>,
    /// The register schema and its read plan.
    pub input_registers: Registers,
}

/// One register decoded from a response buffer, still unscaled.
#[derive(Debug, PartialEq)]
pub struct DecodedRegister {
    pub name: String,
    pub tags: Vec<(String, String)>,
    pub value: DecodedValue,
    /// IEEE-754 bit pattern of the scale factor to apply outside the core.
    pub scaling_bits: u64,
}

/// The mathematical content of a `DecodedRegister`.
pub ghost struct DecodedRegisterView {
    pub name: Seq<char>,
    pub tags: Seq<(Seq<char>, Seq<char>)>,
    pub value: DecodedValue,
    pub scaling_bits: u64,
}

impl View for DecodedRegister {
    type V = DecodedRegisterView;

    open spec fn view(&self) -> DecodedRegisterView {
        DecodedRegisterView {
            name: self.name@,
            tags: self.tags.deep_view(),
            value: self.value,
            scaling_bits: self.scaling_bits,
        }
    }
}

impl DeepView for DecodedRegister {
    type V = DecodedRegisterView;

    open spec fn deep_view(&self) -> DecodedRegisterView {
        self.view()
    }
}

/// A timestamp rounded down to a whole number of intervals.
pub open spec fn spec_quantize(timestamp_ns: nat, interval_ns: nat) -> nat {
    (timestamp_ns / interval_ns) * interval_ns
}

/// Quantizes a nanosecond timestamp to the interval granularity: the result
/// is the greatest multiple of `interval_ns` not above `timestamp_ns`.
pub fn quantize_timestamp(timestamp_ns: u128, interval_ns: u128) -> (r: u128)
    requires
        interval_ns > 0,
    ensures
        r == spec_quantize(timestamp_ns as nat, interval_ns as nat),
        r % interval_ns == 0,
        r <= timestamp_ns,
        timestamp_ns - r < interval_ns,
{
    proof {
        let t = timestamp_ns as int;
        let iv = interval_ns as int;
        vstd::arithmetic::div_mod::lemma_fundamental_div_mod(t, iv);
        vstd::arithmetic::div_mod::lemma_mod_pos_bound(t, iv);
        assert((t / iv) * iv == iv * (t / iv)) by (nonlinear_arith);
        vstd::arithmetic::div_mod::lemma_mod_multiples_basic(t / iv, iv);
    }
    (timestamp_ns / interval_ns) * interval_ns
}

/// The index of the plan interval that covers the register at `a`.
pub open spec fn covering_index(rs: Seq<crate::plan::Request>, a: u16, w: u16) -> int {
    choose|j: int| 0 <= j < rs.len() && covers(rs[j], a, w)
}

/// The words belonging to the register `es[k]` inside the response buffers:
/// the slice of its covering interval's buffer that starts at the register's
/// offset within the interval and is as wide as the register.
pub open spec fn register_words(
    es: Seq<(u16, RegisterView)>,
    rs: Seq<crate::plan::Request>,
    responses: Seq<Seq<u16>>,
    k: int,
) -> Seq<u16> {
    let a = es[k].0;
    let w = e_width(es[k]);
    let j = covering_index(rs, a, w);
    responses[j].subrange(a - rs[j].start, a - rs[j].start + w)
}

impl Device {
    /// The schema is well formed and the scan interval is positive.
    pub open spec fn wf(self) -> bool {
        self.input_registers.wf() && self.scan_interval_ns > 0
    }

    /// Builds a device over a register list; the list is brought into plan
    /// form (address-ordered, later duplicates winning).
    pub fn new(
        id: u8,
        scan_interval_ns: u64,
        tags: Vec<(String, String)>,
        input_registers: Vec<(u16, Register)>,
    ) -> (r: Device)
        requires
            scan_interval_ns > 0,
            all_fit(input_registers.deep_view()),
        ensures
            r.wf(),
            r.id == id,
            r.scan_interval_ns == scan_interval_ns,
            r.tags == tags,
            map_view(r.input_registers.dv()) == map_view(input_registers.deep_view()),
    {
        Device { id, scan_interval_ns, tags, input_registers: Registers::new(input_registers) }
    }

    /// Decodes every register of the plan from the response buffers, in
    /// address order.  `responses[j]` must be the words the transport
    /// returned for plan interval `j`, one word per address in `[start, end)`.
    pub fn decode_responses(&self, responses: &Vec<Vec<u16>>) -> (r: Vec<DecodedRegister>)
        requires
            self.wf(),
            responses@.len() == self.input_registers.requests@.len(),
            forall|j: int|
                0 <= j < responses@.len() ==> (#[trigger] responses@[j])@.len()
                    == self.input_registers.requests@[j].end - self.input_registers.requests@[j].start,
        ensures
            r@.len() == self.input_registers.dv().len(),
            forall|k: int|
                0 <= k < r@.len() ==> {
                    let es = self.input_registers.dv();
                    &&& (#[trigger] r@[k])@.name == es[k].1.name
                    &&& r@[k]@.tags == es[k].1.tags
                    &&& r@[k]@.scaling_bits == es[k].1.scaling_bits
                    &&& r@[k]@.value == spec_parse_data(
                        es[k].1.data_type,
                        register_words(
                            es,
                            self.input_registers.requests@,
                            responses.deep_view(),
                            k,
                        ),
                    )
                },
    {
        let ghost es = self.input_registers.dv();
        let ghost rs = self.input_registers.requests@;
        proof {
            lemma_plan_of_props(es);
        }
        let mut out: Vec<DecodedRegister> = Vec::new();
        let mut k: usize = 0;
        while k < self.input_registers.entries.len()
            invariant
                self.wf(),
                es == self.input_registers.dv(),
                rs == self.input_registers.requests@,
                responses@.len() == rs.len(),
                forall|j: int|
                    0 <= j < responses@.len() ==> (#[trigger] responses@[j])@.len() == rs[j].end
                        - rs[j].start,
                crate::plan::reqs_wf(rs),
                crate::plan::separated(rs),
                forall|i: int| 0 <= i < es.len() ==> covered(rs, #[trigger] es[i].0, e_width(es[i])),
                k <= es.len(),
                out@.len() == k,
                forall|i: int|
                    0 <= i < k ==> {
                        &&& (#[trigger] out@[i])@.name == es[i].1.name
                        &&& out@[i]@.tags == es[i].1.tags
                        &&& out@[i]@.scaling_bits == es[i].1.scaling_bits
                        &&& out@[i]@.value == spec_parse_data(
                            es[i].1.data_type,
                            register_words(es, rs, responses.deep_view(), i),
                        )
                    },
            decreases self.input_registers.entries.len() - k,
        {
            let addr = self.input_registers.entries[k].0;
            let reg = &self.input_registers.entries[k].1;
            let w = reg.data_type.num_registers();
            proof {
                assert(es[k as int].0 == addr);
                assert(es[k as int].1 == reg@);
                assert(e_width(es[k as int]) == w);
                assert(covered(rs, addr, w));
            }
            // Find the unique interval that covers this register.
            let mut j: usize = 0;
            let nreq = self.input_registers.requests.len();
            while j < nreq && !(self.input_registers.requests[j].start <= addr && addr as u32 + w
                as u32 <= self.input_registers.requests[j].end as u32)
                invariant
                    rs == self.input_registers.requests@,
                    nreq == rs.len(),
                    j <= nreq,
                    covered(rs, addr, w),
                    forall|t: int| 0 <= t < j ==> !covers(#[trigger] rs[t], addr, w),
                decreases nreq - j,
            {
                j += 1;
            }
            proof {
                if j == nreq {
                    let jw = choose|jw: int| 0 <= jw < rs.len() && covers(#[trigger] rs[jw], addr, w);
                    assert(!covers(rs[jw], addr, w));
                }
                assert(j < nreq);
                assert(covers(rs[j as int], addr, w));
                let jc = covering_index(rs, addr, w);
                assert(covers(rs[jc], addr, w));
                lemma_covered_unique(rs, addr, w, j as int, jc);
            }
            // Copy the register's words out of the interval's buffer.
            let start = self.input_registers.requests[j].start;
            let off = (addr - start) as usize;
            let buf = &responses[j];
            let mut words: Vec<u16> = Vec::new();
            let mut t: usize = 0;
            while t < w as usize
                invariant
                    t <= w,
                    covers(rs[j as int], addr, w),
                    j < rs.len(),
                    rs == self.input_registers.requests@,
                    start == rs[j as int].start,
                    off == addr - start,
                    buf@ == responses@[j as int]@,
                    buf@.len() == rs[j as int].end - rs[j as int].start,
                    words@ =~= buf@.subrange(off as int, off + t as int),
                decreases w - t,
            {
                words.push(buf[off + t]);
                proof {
                    assert(words@ =~= buf@.subrange(off as int, off + (t + 1) as int));
                }
                t += 1;
            }
            let value = reg.data_type.parse_data(words.as_slice());
            let item = DecodedRegister {
                name: reg.name.clone(),
                tags: clone_tags(&reg.tags),
                value,
                scaling_bits: reg.scaling_bits,
            };
            proof {
                assert(responses.deep_view()[j as int] =~= responses@[j as int]@);
                assert(words@ =~= register_words(es, rs, responses.deep_view(), k as int));
            }
            out.push(item);
            k += 1;
        }
        out
    }

    /// The tag list of one line of this device: the device tags, then the
    /// register tags, then the synthetic `modbus_id` tag.
    pub open spec fn spec_line_tags(self, reg_tags: Seq<(Seq<char>, Seq<char>)>) -> Seq<
        (Seq<char>, Seq<char>),
    > {
        self.tags.deep_view() + reg_tags + seq![("modbus_id"@, dec_str(self.id as nat))]
    }

    /// The concatenated lines for decoded registers `ds` with value texts
    /// `vs`, all carrying quantized timestamp `ts`.
    pub open spec fn spec_lines(
        self,
        ds: Seq<DecodedRegisterView>,
        vs: Seq<Seq<char>>,
        ts: nat,
    ) -> Seq<char>
        decreases ds.len(),
    {
        if ds.len() == 0 {
            Seq::empty()
        } else {
            self.spec_lines(ds.drop_last(), vs.drop_last(), ts) + spec_line(
                ds.last().name,
                self.spec_line_tags(ds.last().tags),
                vs.last(),
                ts,
            )
        }
    }

    /// Encodes one sampling round: one line per decoded register, each with
    /// the same timestamp, quantized to the scan interval.  `value_texts[k]`
    /// is the rendered, scaled numeric text of `decoded[k]`.
    pub fn encode_lines(
        &self,
        decoded: &Vec<DecodedRegister>,
        value_texts: &Vec<String>,
        timestamp_ns: u128,
    ) -> (r: String)
        requires
            self.wf(),
            value_texts@.len() == decoded@.len(),
        ensures
            r@ == self.spec_lines(
                decoded.deep_view(),
                value_texts.deep_view(),
                spec_quantize(timestamp_ns as nat, self.scan_interval_ns as nat),
            ),
    {
        let ts_q = quantize_timestamp(timestamp_ns, self.scan_interval_ns as u128);
        let ghost ts = spec_quantize(timestamp_ns as nat, self.scan_interval_ns as nat);
        let id_string = u128_to_dec(self.id as u128);
        let mut lines = String::new();
        let mut k: usize = 0;
        while k < decoded.len()
            invariant
                ts_q == ts,
                value_texts@.len() == decoded@.len(),
                id_string@ == dec_str(self.id as nat),
                k <= decoded@.len(),
                lines@ == self.spec_lines(
                    decoded.deep_view().subrange(0, k as int),
                    value_texts.deep_view().subrange(0, k as int),
                    ts,
                ),
            decreases decoded@.len() - k,
        {
            let d = &decoded[k];
            let mut line_tags = clone_tags(&self.tags);
            push_tags(&mut line_tags, &d.tags);
            let mut id_tag = String::new();
            id_tag.append(id_string.as_str());
            line_tags.push((String::from_str("modbus_id"), id_tag));
            proof {
                reveal_strlit("modbus_id");
                assert(line_tags.deep_view() =~= self.spec_line_tags(d@.tags));
            }
            let line = influxdb_line(d.name.as_str(), &line_tags, value_texts[k].as_str(), ts_q);
            lines.append(line.as_str());
            proof {
                let dsk = decoded.deep_view().subrange(0, k + 1 as int);
                let vsk = value_texts.deep_view().subrange(0, k + 1 as int);
                assert(dsk.drop_last() =~= decoded.deep_view().subrange(0, k as int));
                assert(vsk.drop_last() =~= value_texts.deep_view().subrange(0, k as int));
                assert(dsk.last() == decoded@[k as int]@);
                assert(vsk.last() == value_texts@[k as int]@);
                assert(lines@ =~= self.spec_lines(dsk, vsk, ts));
            }
            k += 1;
        }
        proof {
            assert(decoded.deep_view().subrange(0, decoded@.len() as int) =~= decoded.deep_view());
            assert(value_texts.deep_view().subrange(0, value_texts@.len() as int)
                =~= value_texts.deep_view());
        }
        lines
    }
}

/// Appends a copy of every pair of `src` to `dst`.
pub fn push_tags(dst: &mut Vec<(String, String)>, src: &Vec<(String, String)>)
    ensures
        final(dst).deep_view() == old(dst).deep_view() + src.deep_view(),
{
    let mut i: usize = 0;
    while i < src.len()
        invariant
            i <= src.len(),
            dst@.len() == old(dst)@.len() + i,
            dst.deep_view() =~= old(dst).deep_view() + src.deep_view().subrange(0, i as int),
        decreases src.len() - i,
    {
        let pair = (src[i].0.clone(), src[i].1.clone());
        assert(pair == src@[i as int]);
        let ghost prev_dv = dst.deep_view();
        dst.push(pair);
        proof {
            let target = old(dst).deep_view() + src.deep_view().subrange(0, i + 1 as int);
            assert forall|k: int| 0 <= k < dst@.len() implies dst.deep_view()[k] == target[k] by {
                if k < prev_dv.len() {
                    assert(dst.deep_view()[k] == prev_dv[k]);
                } else {
                    assert(dst@[k] == src@[i as int]);
                }
            }
            assert(dst.deep_view() =~= target);
        }
        i += 1;
    }
    proof {
        assert(src.deep_view().subrange(0, src@.len() as int) =~= src.deep_view());
    }
}

} // verus!
