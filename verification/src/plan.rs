//! Register schemas and the read plan derived from them.
//!
//! A device's registers form an address-ordered map.  The plan coalesces
//! consecutive or overlapping registers into a minimal ordered sequence of
//! read intervals `[start, end)` (in 16-bit word units), so that one Modbus
//! request serves every register inside one interval.

use vstd::prelude::*;

use crate::datatype::DataType;

verus! {

/// One register of a device schema.
#[derive(Debug, PartialEq)]
pub struct Register {
    pub data_type: DataType,
    /// IEEE-754 bit pattern of the `f64` scale factor; the multiplication
    /// itself happens outside the verified core.
    pub scaling_bits: u64,
    pub name: String,
    pub tags: Vec<(String, String)>,
}

/// The mathematical content of a `Register`: names and tags as character
/// sequences.
pub ghost struct RegisterView {
    pub data_type: DataType,
    pub scaling_bits: u64,
    pub name: Seq<char>,
    pub tags: Seq<(Seq<char>, Seq<char>)>,
}

impl View for Register {
    type V = RegisterView;

    open spec fn view(&self) -> RegisterView {
        RegisterView {
            data_type: self.data_type,
            scaling_bits: self.scaling_bits,
            name: self.name@,
            tags: self.tags.deep_view(),
        }
    }
}

impl DeepView for Register {
    type V = RegisterView;

    open spec fn deep_view(&self) -> RegisterView {
        self.view()
    }
}

/// Copies a tag list, key and value of each pair.
pub fn clone_tags(tags: &Vec<(String, String)>) -> (r: Vec<(String, String)>)
    ensures
        r.deep_view() == tags.deep_view(),
{
    let mut r: Vec<(String, String)> = Vec::new();
    let mut i: usize = 0;
    while i < tags.len()
        invariant
            i <= tags.len(),
            r@.len() == i,
            r.deep_view() =~= tags.deep_view().subrange(0, i as int),
        decreases tags.len() - i,
    {
        let pair = (tags[i].0.clone(), tags[i].1.clone());
        assert(pair == tags@[i as int]);
        r.push(pair);
        proof {
            assert(r.deep_view() =~= tags.deep_view().subrange(0, i + 1 as int));
        }
        i += 1;
    }
    proof {
        assert(tags.deep_view().subrange(0, tags@.len() as int) =~= tags.deep_view());
    }
    r
}

impl Clone for Register {
    /// A copy with the same mathematical content.
    fn clone(&self) -> (r: Self)
        ensures
            r@ == self@,
    {
        Register {
            data_type: self.data_type,
            scaling_bits: self.scaling_bits,
            name: self.name.clone(),
            tags: clone_tags(&self.tags),
        }
    }
}

/// One read interval `[start, end)` of a plan, issued as a single
/// read-input-registers request.
#[derive(Copy, Clone, Debug, PartialEq, Eq, Structural)]
pub struct Request {
    pub start: u16,
    pub end: u16,
}

impl Request {
    /// The interval of `len` words beginning at `addr`.
    pub fn new(addr: u16, len: u16) -> (r: Request)
        requires
            addr + len <= u16::MAX,
        ensures
            r.start == addr,
            r.end == addr + len,
    {
        Request { start: addr, end: addr + len }
    }

    /// The word count of the interval.
    pub fn len(&self) -> (n: u16)
        requires
            self.start <= self.end,
        ensures
            n == self.end - self.start,
    {
        self.end - self.start
    }
}

/// The word width of the register of an entry.
pub open spec fn e_width(e: (u16, RegisterView)) -> u16 {
    e.1.data_type.spec_num_registers()
}

/// The register of each entry fits the 16-bit address space.
pub open spec fn all_fit(es: Seq<(u16, RegisterView)>) -> bool {
    forall|i: int| 0 <= i < es.len() ==> #[trigger] es[i].0 + e_width(es[i]) <= u16::MAX
}

/// Addresses strictly increase along the sequence.
pub open spec fn addrs_sorted(es: Seq<(u16, RegisterView)>) -> bool {
    forall|i: int, j: int| 0 <= i < j < es.len() ==> es[i].0 < es[j].0
}

/// The entries read as a map from address to register, later entries winning.
pub open spec fn map_view(es: Seq<(u16, RegisterView)>) -> Map<u16, RegisterView>
    decreases es.len(),
{
    if es.len() == 0 {
        Map::empty()
    } else {
        map_view(es.drop_last()).insert(es.last().0, es.last().1)
    }
}

/// The read plan of an address-ordered entry sequence: walk the registers in
/// ascending address order; a register that overlaps or touches the last
/// interval extends it, any other starts a new one.
pub open spec fn plan_of(es: Seq<(u16, RegisterView)>) -> Seq<Request>
    decreases es.len(),
{
    if es.len() == 0 {
        Seq::empty()
    } else {
        let prev = plan_of(es.drop_last());
        let a = es.last().0;
        let e = (a + e_width(es.last())) as u16;
        if prev.len() > 0 && a <= prev.last().end {
            if e > prev.last().end {
                prev.update(prev.len() - 1, Request { start: prev.last().start, end: e })
            } else {
                prev
            }
        } else {
            prev.push(Request { start: a, end: e })
        }
    }
}

/// Every interval is non-empty.
pub open spec fn reqs_wf(rs: Seq<Request>) -> bool {
    forall|i: int| 0 <= i < rs.len() ==> rs[i].start < #[trigger] rs[i].end
}

/// Adjacent intervals leave a strict gap: none could have been merged.
pub open spec fn separated(rs: Seq<Request>) -> bool {
    forall|i: int| 0 <= i && i + 1 < rs.len() ==> #[trigger] rs[i].end < rs[i + 1].start
}

/// The interval holds all `w` words of the register at `a`.
pub open spec fn covers(r: Request, a: u16, w: u16) -> bool {
    r.start <= a && a + w <= r.end
}

/// Some interval of the plan holds all `w` words of the register at `a`.
pub open spec fn covered(rs: Seq<Request>, a: u16, w: u16) -> bool {
    exists|j: int| 0 <= j < rs.len() && covers(#[trigger] rs[j], a, w)
}

/// The structural facts of a plan built from sorted, fitting entries: the
/// intervals are non-empty, strictly separated, and cover every register;
/// the last interval begins no later than the last register and ends no
/// earlier than its end.
pub proof fn lemma_plan_of_props(es: Seq<(u16, RegisterView)>)
    requires
        addrs_sorted(es),
        all_fit(es),
    ensures
        plan_of(es).len() == 0 <==> es.len() == 0,
        reqs_wf(plan_of(es)),
        separated(plan_of(es)),
        forall|k: int|
            0 <= k < es.len() ==> covered(plan_of(es), #[trigger] es[k].0, e_width(es[k])),
        es.len() > 0 ==> plan_of(es).last().start <= es.last().0
            && es.last().0 + e_width(es.last()) <= plan_of(es).last().end,
    decreases es.len(),
{
    if es.len() > 0 {
        let prefix = es.drop_last();
        lemma_plan_of_props(prefix);
        let prev = plan_of(prefix);
        let a = es.last().0;
        let w = e_width(es.last());
        let e = (a + w) as u16;
        assert(a + w <= u16::MAX);
        assert(w >= 1);
        let plan = plan_of(es);
        if prev.len() > 0 && a <= prev.last().end {
            assert(prefix.len() > 0);
            assert(prefix.last().0 < a);
            assert(prev.last().start <= prefix.last().0);
            if e > prev.last().end {
                let up = Request { start: prev.last().start, end: e };
                assert(plan =~= prev.update(prev.len() - 1, up));
                assert forall|k: int| 0 <= k < es.len() implies covered(
                    plan,
                    #[trigger] es[k].0,
                    e_width(es[k]),
                ) by {
                    if k < es.len() - 1 {
                        assert(prefix[k] == es[k]);
                        assert(covered(prev, es[k].0, e_width(es[k])));
                        let j = choose|j: int|
                            0 <= j < prev.len() && covers(#[trigger] prev[j], es[k].0, e_width(es[k]));
                        assert(covers(plan[j], es[k].0, e_width(es[k])));
                    } else {
                        assert(covers(plan[plan.len() - 1], a, w));
                    }
                }
            } else {
                assert(plan =~= prev);
                assert forall|k: int| 0 <= k < es.len() implies covered(
                    plan,
                    #[trigger] es[k].0,
                    e_width(es[k]),
                ) by {
                    if k < es.len() - 1 {
                        assert(prefix[k] == es[k]);
                        assert(covered(prev, es[k].0, e_width(es[k])));
                    } else {
                        assert(covers(plan[plan.len() - 1], a, w));
                    }
                }
            }
        } else {
            assert(plan =~= prev.push(Request { start: a, end: e }));
            if prefix.len() > 0 {
                assert(prev.len() > 0);
                assert(prev.last().end < a);
            }
            assert forall|k: int| 0 <= k < es.len() implies covered(
                plan,
                #[trigger] es[k].0,
                e_width(es[k]),
            ) by {
                if k < es.len() - 1 {
                    assert(prefix[k] == es[k]);
                    assert(covered(prev, es[k].0, e_width(es[k])));
                    let j = choose|j: int|
                        0 <= j < prev.len() && covers(#[trigger] prev[j], es[k].0, e_width(es[k]));
                    assert(covers(plan[j], es[k].0, e_width(es[k])));
                } else {
                    assert(covers(plan[plan.len() - 1], a, w));
                }
            }
        }
    }
}

/// In a well-formed separated plan, intervals are separated pairwise, not
/// only between neighbours.
pub proof fn lemma_separated_pairwise(rs: Seq<Request>, i: int, j: int)
    requires
        reqs_wf(rs),
        separated(rs),
        0 <= i < j < rs.len(),
    ensures
        rs[i].end < rs[j].start,
    decreases j - i,
{
    if i + 1 < j {
        lemma_separated_pairwise(rs, i + 1, j);
    }
}

/// A register lies in at most one interval of a separated plan.
pub proof fn lemma_covered_unique(rs: Seq<Request>, a: u16, w: u16, j1: int, j2: int)
    requires
        reqs_wf(rs),
        separated(rs),
        w >= 1,
        0 <= j1 < rs.len(),
        0 <= j2 < rs.len(),
        covers(rs[j1], a, w),
        covers(rs[j2], a, w),
    ensures
        j1 == j2,
{
    if j1 < j2 {
        lemma_separated_pairwise(rs, j1, j2);
    } else if j2 < j1 {
        lemma_separated_pairwise(rs, j2, j1);
    }
}

/// `k` is the address of some entry.
pub open spec fn has_addr(es: Seq<(u16, RegisterView)>, k: u16) -> bool {
    exists|i: int| 0 <= i < es.len() && (#[trigger] es[i]).0 == k
}

proof fn lemma_map_view_dom(es: Seq<(u16, RegisterView)>)
    ensures
        forall|k: u16| map_view(es).dom().contains(k) <==> has_addr(es, k),
    decreases es.len(),
{
    if es.len() > 0 {
        lemma_map_view_dom(es.drop_last());
        assert forall|k: u16| map_view(es).dom().contains(k) implies has_addr(es, k) by {
            if k == es.last().0 {
                assert(es[es.len() - 1].0 == k);
            } else {
                assert(map_view(es.drop_last()).dom().contains(k));
                assert(has_addr(es.drop_last(), k));
                let i = choose|i: int|
                    0 <= i < es.drop_last().len() && (#[trigger] es.drop_last()[i]).0 == k;
                assert(es[i].0 == k);
            }
        }
        assert forall|k: u16| has_addr(es, k) implies map_view(es).dom().contains(k) by {
            let i = choose|i: int| 0 <= i < es.len() && (#[trigger] es[i]).0 == k;
            if i < es.len() - 1 {
                assert(es.drop_last()[i].0 == k);
                assert(has_addr(es.drop_last(), k));
                assert(map_view(es.drop_last()).dom().contains(k));
            } else {
                assert(k == es.last().0);
            }
        }
    }
}

proof fn lemma_map_view_update_existing(es: Seq<(u16, RegisterView)>, j: int, v: (u16, RegisterView))
    requires
        addrs_sorted(es),
        0 <= j < es.len(),
        es[j].0 == v.0,
    ensures
        map_view(es.update(j, v)) == map_view(es).insert(v.0, v.1),
    decreases es.len(),
{
    let upd = es.update(j, v);
    if j == es.len() - 1 {
        assert(upd.drop_last() =~= es.drop_last());
        assert(map_view(upd) == map_view(es.drop_last()).insert(v.0, v.1));
        assert(map_view(es).insert(v.0, v.1) =~= map_view(es.drop_last()).insert(v.0, v.1));
    } else {
        lemma_map_view_update_existing(es.drop_last(), j, v);
        assert(upd.drop_last() =~= es.drop_last().update(j, v));
        assert(upd.last() == es.last());
        assert(v.0 != es.last().0);
        assert(map_view(upd) == map_view(es.drop_last()).insert(v.0, v.1).insert(
            es.last().0,
            es.last().1,
        ));
        assert(map_view(es.drop_last()).insert(v.0, v.1).insert(es.last().0, es.last().1)
            =~= map_view(es.drop_last()).insert(es.last().0, es.last().1).insert(v.0, v.1));
    }
}

proof fn lemma_map_view_insert_new(es: Seq<(u16, RegisterView)>, j: int, v: (u16, RegisterView))
    requires
        !has_addr(es, v.0),
        0 <= j <= es.len(),
    ensures
        map_view(es.insert(j, v)) == map_view(es).insert(v.0, v.1),
    decreases es.len(),
{
    let ins = es.insert(j, v);
    if j == es.len() {
        assert(ins.drop_last() =~= es);
        assert(ins.last() == v);
    } else {
        assert(es.len() > 0);
        assert(!has_addr(es.drop_last(), v.0)) by {
            if has_addr(es.drop_last(), v.0) {
                let i = choose|i: int|
                    0 <= i < es.drop_last().len() && (#[trigger] es.drop_last()[i]).0 == v.0;
                assert(es[i].0 == v.0);
            }
        }
        lemma_map_view_insert_new(es.drop_last(), j, v);
        assert(ins.drop_last() =~= es.drop_last().insert(j, v));
        assert(ins.last() == es.last());
        assert(v.0 != es.last().0) by {
            assert(es[es.len() - 1].0 == es.last().0);
        }
        assert(map_view(ins) == map_view(es.drop_last()).insert(v.0, v.1).insert(
            es.last().0,
            es.last().1,
        ));
        assert(map_view(es.drop_last()).insert(v.0, v.1).insert(es.last().0, es.last().1)
            =~= map_view(es.drop_last()).insert(es.last().0, es.last().1).insert(v.0, v.1));
    }
}

/// In a sorted (hence duplicate-free) entry sequence, each entry is its
/// address's binding in the map reading.
proof fn lemma_sorted_entry_in_map(es: Seq<(u16, RegisterView)>, i: int)
    requires
        addrs_sorted(es),
        0 <= i < es.len(),
    ensures
        map_view(es).dom().contains(es[i].0),
        map_view(es)[es[i].0] == es[i].1,
    decreases es.len(),
{
    if i == es.len() - 1 {
    } else {
        lemma_sorted_entry_in_map(es.drop_last(), i);
        assert(es[i].0 != es.last().0);
    }
}

/// Every binding of the map reading fits the address space, when every entry
/// does.
proof fn lemma_map_view_fits(es: Seq<(u16, RegisterView)>)
    requires
        all_fit(es),
    ensures
        forall|k: u16|
            map_view(es).dom().contains(k) ==> k + (#[trigger] map_view(es)[k]).data_type.spec_num_registers()
                <= u16::MAX,
    decreases es.len(),
{
    if es.len() > 0 {
        assert(all_fit(es.drop_last())) by {
            assert(forall|i: int|
                0 <= i < es.drop_last().len() ==> es.drop_last()[i] == #[trigger] es[i]);
        }
        lemma_map_view_fits(es.drop_last());
        assert(es[es.len() - 1].0 + e_width(es[es.len() - 1]) <= u16::MAX);
    }
}

/// An address-keyed register schema and its read plan.
#[derive(Debug, PartialEq)]
pub struct Registers {
    /// The registers, address-ordered.
    pub entries: Vec<(u16, Register)>,
    /// The read intervals covering them.
    pub requests: Vec<Request>,
}

impl Registers {
    /// The entries as a sequence of (address, register content) pairs.
    pub open spec fn dv(self) -> Seq<(u16, RegisterView)> {
        self.entries.deep_view()
    }

    /// Addresses strictly increase, every register fits the address space,
    /// and the requests are exactly the plan of the entries.
    pub open spec fn wf(self) -> bool {
        addrs_sorted(self.dv()) && all_fit(self.dv()) && self.requests@ == plan_of(self.dv())
    }

    /// Builds the plan: entries are brought into ascending address order
    /// (later duplicates of an address win), then coalesced into minimal
    /// read intervals.
    pub fn new(entries: Vec<(u16, Register)>) -> (r: Registers)
        requires
            all_fit(entries.deep_view()),
        ensures
            r.wf(),
            map_view(r.dv()) == map_view(entries.deep_view()),
    {
        let ghost input_dv = entries.deep_view();
        let sorted = normalize_entries(entries);
        proof {
            lemma_map_view_fits(input_dv);
            lemma_map_view_dom(sorted.deep_view());
            assert forall|i: int| 0 <= i < sorted.deep_view().len() implies #[trigger] sorted.deep_view()[i].0
                + e_width(sorted.deep_view()[i]) <= u16::MAX by {
                lemma_sorted_entry_in_map(sorted.deep_view(), i);
                assert(map_view(sorted.deep_view()) == map_view(input_dv));
            }
        }
        let requests = build_requests(&sorted);
        Registers { entries: sorted, requests }
    }
}

/// Sorts entries by ascending address; of two entries with one address the
/// later wins.  The result reads as the same address map.
fn normalize_entries(entries: Vec<(u16, Register)>) -> (r: Vec<(u16, Register)>)
    ensures
        addrs_sorted(r.deep_view()),
        map_view(r.deep_view()) == map_view(entries.deep_view()),
{
    let ghost dv_in = entries.deep_view();
    let mut out: Vec<(u16, Register)> = Vec::new();
    let mut i: usize = 0;
    while i < entries.len()
        invariant
            i <= entries.len(),
            dv_in == entries.deep_view(),
            addrs_sorted(out.deep_view()),
            map_view(out.deep_view()) == map_view(dv_in.subrange(0, i as int)),
        decreases entries.len() - i,
    {
        let addr = entries[i].0;
        let item = (addr, entries[i].1.clone());
        assert(item.deep_view() == dv_in[i as int]);
        let mut j: usize = 0;
        while j < out.len() && out[j].0 < addr
            invariant
                j <= out.len(),
                forall|k: int| 0 <= k < j ==> (#[trigger] out.deep_view()[k]).0 < addr,
            decreases out.len() - j,
        {
            j += 1;
        }
        let ghost old_dv = out.deep_view();
        if j < out.len() && out[j].0 == addr {
            out.set(j, item);
            proof {
                assert(out.deep_view() =~= old_dv.update(j as int, dv_in[i as int]));
                lemma_map_view_update_existing(old_dv, j as int, dv_in[i as int]);
            }
        } else {
            proof {
                assert(!has_addr(old_dv, addr)) by {
                    if has_addr(old_dv, addr) {
                        let k = choose|k: int|
                            0 <= k < old_dv.len() && (#[trigger] old_dv[k]).0 == addr;
                        if k >= j {
                            assert(old_dv[j as int].0 <= old_dv[k].0);
                        }
                    }
                }
            }
            out.insert(j, item);
            proof {
                assert(out.deep_view() =~= old_dv.insert(j as int, dv_in[i as int]));
                lemma_map_view_insert_new(old_dv, j as int, dv_in[i as int]);
            }
        }
        proof {
            assert(dv_in.subrange(0, i + 1 as int).drop_last() =~= dv_in.subrange(0, i as int));
            assert(map_view(dv_in.subrange(0, i + 1 as int)) == map_view(
                dv_in.subrange(0, i as int),
            ).insert(dv_in[i as int].0, dv_in[i as int].1));
        }
        i += 1;
    }
    proof {
        assert(dv_in.subrange(0, entries@.len() as int) =~= dv_in);
    }
    out
}

/// Coalesces the address-ordered entries into read intervals: a register
/// that overlaps or touches the last interval extends it, any other starts
/// a new interval.
fn build_requests(entries: &Vec<(u16, Register)>) -> (r: Vec<Request>)
    requires
        addrs_sorted(entries.deep_view()),
        all_fit(entries.deep_view()),
    ensures
        r@ == plan_of(entries.deep_view()),
{
    let ghost dv = entries.deep_view();
    let mut requests: Vec<Request> = Vec::new();
    let mut i: usize = 0;
    while i < entries.len()
        invariant
            i <= entries.len(),
            dv == entries.deep_view(),
            addrs_sorted(dv),
            all_fit(dv),
            requests@ == plan_of(dv.subrange(0, i as int)),
        decreases entries.len() - i,
    {
        let addr = entries[i].0;
        let w = entries[i].1.data_type.num_registers();
        proof {
            assert(dv[i as int].0 == addr && e_width(dv[i as int]) == w);
            assert(dv[i as int].0 + e_width(dv[i as int]) <= u16::MAX);
        }
        assert(addr + w <= u16::MAX);
        let e = addr + w;
        let n = requests.len();
        proof {
            assert(dv.subrange(0, i + 1 as int).drop_last() =~= dv.subrange(0, i as int));
            assert(dv.subrange(0, i + 1 as int).last() == dv[i as int]);
        }
        if n > 0 && addr <= requests[n - 1].end {
            if e > requests[n - 1].end {
                let s = requests[n - 1].start;
                requests.set(n - 1, Request { start: s, end: e });
            }
        } else {
            requests.push(Request { start: addr, end: e });
        }
        proof {
            assert(requests@ =~= plan_of(dv.subrange(0, i + 1 as int)));
        }
        i += 1;
    }
    proof {
        assert(dv.subrange(0, entries@.len() as int) =~= dv);
    }
    requests
}

/// Plan coverage law: every register of a well-formed schema lies fully
/// inside some interval of its plan.
pub proof fn lemma_plan_coverage(r: Registers)
    requires
        r.wf(),
    ensures
        forall|k: int|
            0 <= k < r.dv().len() ==> covered(r.requests@, #[trigger] r.dv()[k].0, e_width(r.dv()[k])),
{
    lemma_plan_of_props(r.dv());
}

/// Plan uniqueness law: that interval is the only one; together with
/// coverage, every register lies in exactly one interval.
pub proof fn lemma_plan_coverage_unique(r: Registers, k: int, j1: int, j2: int)
    requires
        r.wf(),
        0 <= k < r.dv().len(),
        0 <= j1 < r.requests@.len(),
        0 <= j2 < r.requests@.len(),
        covers(r.requests@[j1], r.dv()[k].0, e_width(r.dv()[k])),
        covers(r.requests@[j2], r.dv()[k].0, e_width(r.dv()[k])),
    ensures
        j1 == j2,
{
    lemma_plan_of_props(r.dv());
    lemma_covered_unique(r.requests@, r.dv()[k].0, e_width(r.dv()[k]), j1, j2);
}

/// Plan minimality law: adjacent intervals of a well-formed schema's plan
/// leave a strict gap, so no two could have been merged.
pub proof fn lemma_plan_minimality(r: Registers)
    requires
        r.wf(),
    ensures
        separated(r.requests@),
        reqs_wf(r.requests@),
{
    lemma_plan_of_props(r.dv());
}

/// Word `x` lies inside some register of the entries.
pub open spec fn word_in_registers(es: Seq<(u16, RegisterView)>, x: int) -> bool {
    exists|k: int| 0 <= k < es.len() && (#[trigger] es[k]).0 <= x < es[k].0 + e_width(es[k])
}

/// Word `x` lies inside interval `j` of the plan.
pub open spec fn in_interval(rs: Seq<Request>, j: int, x: int) -> bool {
    0 <= j < rs.len() && rs[j].start <= x < rs[j].end
}

/// Every word of every plan interval lies inside some register: the plan
/// reads nothing beyond the registers' own spans.
proof fn lemma_plan_of_tight(es: Seq<(u16, RegisterView)>)
    requires
        addrs_sorted(es),
        all_fit(es),
    ensures
        forall|j: int, x: int| #[trigger] in_interval(plan_of(es), j, x) ==> word_in_registers(
            es,
            x,
        ),
    decreases es.len(),
{
    if es.len() > 0 {
        let prefix = es.drop_last();
        lemma_plan_of_tight(prefix);
        lemma_plan_of_props(prefix);
        let prev = plan_of(prefix);
        let a = es.last().0;
        let w = e_width(es.last());
        let e = (a + w) as u16;
        assert(a + w <= u16::MAX);
        let plan = plan_of(es);
        assert forall|j: int, x: int| #[trigger] in_interval(plan, j, x) implies
            word_in_registers(es, x) by {
            assert(0 <= j < plan.len() && plan[j].start <= x < plan[j].end);
            let covered_by = |k: int, y: int|
                0 <= k < es.len() && es[k].0 <= y < es[k].0 + e_width(es[k]);
            if prev.len() > 0 && a <= prev.last().end {
                if e > prev.last().end {
                    assert(plan =~= prev.update(
                        prev.len() - 1,
                        Request { start: prev.last().start, end: e },
                    ));
                    if j < plan.len() - 1 || x < prev.last().end {
                        assert(prev[j].start <= x < prev[j].end);
                        assert(in_interval(prev, j, x));
                        assert(word_in_registers(prefix, x));
                        let k = choose|k: int|
                            0 <= k < prefix.len() && (#[trigger] prefix[k]).0 <= x < prefix[k].0
                                + e_width(prefix[k]);
                        assert(es[k] == prefix[k]);
                        assert(covered_by(k, x));
                    } else {
                        assert(prev.last().end <= x < e);
                        assert(covered_by(es.len() - 1, x));
                    }
                } else {
                    assert(plan =~= prev);
                    assert(in_interval(prev, j, x));
                    assert(word_in_registers(prefix, x));
                    let k = choose|k: int|
                        0 <= k < prefix.len() && (#[trigger] prefix[k]).0 <= x < prefix[k].0
                            + e_width(prefix[k]);
                    assert(es[k] == prefix[k]);
                    assert(covered_by(k, x));
                }
            } else {
                assert(plan =~= prev.push(Request { start: a, end: e }));
                if j < plan.len() - 1 {
                    assert(prev[j].start <= x < prev[j].end);
                    assert(in_interval(prev, j, x));
                    assert(word_in_registers(prefix, x));
                    let k = choose|k: int|
                        0 <= k < prefix.len() && (#[trigger] prefix[k]).0 <= x < prefix[k].0
                            + e_width(prefix[k]);
                    assert(es[k] == prefix[k]);
                    assert(covered_by(k, x));
                } else {
                    assert(a <= x < e);
                    assert(covered_by(es.len() - 1, x));
                }
            }
        }
    }
}

/// Plan tightness law: the plan reads a word if and only if some register
/// holds it.  With coverage this makes the word set of the intervals exactly
/// the union of the registers' spans `[a, a+w)`: no gap word inside an
/// interval, nothing read beyond the registers.
pub proof fn lemma_plan_tight(r: Registers)
    requires
        r.wf(),
    ensures
        forall|j: int, x: int| #[trigger] in_interval(r.requests@, j, x) ==> word_in_registers(
            r.dv(),
            x,
        ),
        forall|x: int|
            #[trigger] word_in_registers(r.dv(), x) ==> exists|j: int|
                in_interval(r.requests@, j, x),
{
    lemma_plan_of_tight(r.dv());
    lemma_plan_of_props(r.dv());
    assert forall|x: int| #[trigger] word_in_registers(r.dv(), x) implies exists|j: int|
        in_interval(r.requests@, j, x) by {
        let k = choose|k: int|
            0 <= k < r.dv().len() && (#[trigger] r.dv()[k]).0 <= x < r.dv()[k].0 + e_width(
                r.dv()[k],
            );
        assert(covered(r.requests@, r.dv()[k].0, e_width(r.dv()[k])));
        let j = choose|j: int|
            0 <= j < r.requests@.len() && covers(#[trigger] r.requests@[j], r.dv()[k].0, e_width(
                r.dv()[k],
            ));
        assert(in_interval(r.requests@, j, x));
    }
}

/// A word lies in at most one interval of a separated plan.
proof fn lemma_word_interval_unique(rs: Seq<Request>, x: int, j1: int, j2: int)
    requires
        reqs_wf(rs),
        separated(rs),
        in_interval(rs, j1, x),
        in_interval(rs, j2, x),
    ensures
        j1 == j2,
{
    if j1 < j2 {
        lemma_separated_pairwise(rs, j1, j2);
    } else if j2 < j1 {
        lemma_separated_pairwise(rs, j2, j1);
    }
}

/// Every plan interval fully holds some register — the one sitting at its
/// start.
proof fn lemma_plan_interval_register(es: Seq<(u16, RegisterView)>, j: int) -> (k: int)
    requires
        addrs_sorted(es),
        all_fit(es),
        0 <= j < plan_of(es).len(),
    ensures
        0 <= k < es.len(),
        covers(plan_of(es)[j], es[k].0, e_width(es[k])),
{
    let plan = plan_of(es);
    lemma_plan_of_props(es);
    lemma_plan_of_tight(es);
    let x = plan[j].start as int;
    assert(in_interval(plan, j, x));
    assert(word_in_registers(es, x));
    let k = choose|k: int|
        0 <= k < es.len() && (#[trigger] es[k]).0 <= x < es[k].0 + e_width(es[k]);
    assert(covered(plan, es[k].0, e_width(es[k])));
    let jm = choose|jm: int|
        0 <= jm < plan.len() && covers(#[trigger] plan[jm], es[k].0, e_width(es[k]));
    assert(in_interval(plan, jm, x));
    lemma_word_interval_unique(plan, x, jm, j);
    k
}

/// The word just past an interval that is not the last belongs to no
/// register: the next interval would otherwise have been merged.
proof fn lemma_gap_word_uncovered(es: Seq<(u16, RegisterView)>, jgap: int, x: int)
    requires
        addrs_sorted(es),
        all_fit(es),
        0 <= jgap,
        jgap + 1 < plan_of(es).len(),
        x == plan_of(es)[jgap].end,
    ensures
        !word_in_registers(es, x),
{
    let plan = plan_of(es);
    lemma_plan_of_props(es);
    if word_in_registers(es, x) {
        let km = choose|km: int|
            0 <= km < es.len() && (#[trigger] es[km]).0 <= x < es[km].0 + e_width(es[km]);
        assert(covered(plan, es[km].0, e_width(es[km])));
        let jm = choose|jm: int|
            0 <= jm < plan.len() && covers(#[trigger] plan[jm], es[km].0, e_width(es[km]));
        assert(plan[jm].start <= x < plan[jm].end);
        assert(plan[jgap].end < plan[jgap + 1].start);
        if jm < jgap {
            lemma_separated_pairwise(plan, jm, jgap);
        } else if jm > jgap + 1 {
            lemma_separated_pairwise(plan, jgap + 1, jm);
        }
        assert(false);
    }
}

/// Along the plan's intervals, the competitor interval covering each
/// interval's resident register sits ever later in the competitor list.
proof fn lemma_alt_chain(es: Seq<(u16, RegisterView)>, alt: Seq<Request>, j: int) -> (q: int)
    requires
        addrs_sorted(es),
        all_fit(es),
        reqs_wf(alt),
        separated(alt),
        forall|k: int|
            0 <= k < es.len() ==> covered(alt, (#[trigger] es[k]).0, e_width(es[k])),
        forall|jj: int, x: int| #[trigger] in_interval(alt, jj, x) ==> word_in_registers(es, x),
        0 <= j < plan_of(es).len(),
    ensures
        j <= q < alt.len(),
        exists|k: int|
            0 <= k < es.len() && covers(plan_of(es)[j], (#[trigger] es[k]).0, e_width(es[k]))
                && covers(alt[q], es[k].0, e_width(es[k])),
    decreases j,
{
    let plan = plan_of(es);
    lemma_plan_of_props(es);
    let k = lemma_plan_interval_register(es, j);
    let a = es[k].0;
    let w = e_width(es[k]);
    assert(covered(alt, a, w));
    let q = choose|q: int| 0 <= q < alt.len() && covers(#[trigger] alt[q], a, w);
    if j > 0 {
        let q0 = lemma_alt_chain(es, alt, j - 1);
        let k0 = choose|k0: int|
            0 <= k0 < es.len() && covers(plan[j - 1], (#[trigger] es[k0]).0, e_width(es[k0]))
                && covers(alt[q0], es[k0].0, e_width(es[k0]));
        let a0 = es[k0].0;
        let w0 = e_width(es[k0]);
        assert(plan[j - 1].end < plan[j].start);
        assert(a0 + w0 <= plan[j - 1].end);
        assert(plan[j].start <= a);
        assert(a0 < a);
        if q == q0 {
            // The shared competitor interval would read the gap word just
            // past interval j-1, which no register holds.
            let x = plan[j - 1].end as int;
            assert(alt[q].start <= a0);
            assert(a + w <= alt[q].end);
            assert(in_interval(alt, q, x));
            assert(word_in_registers(es, x));
            lemma_gap_word_uncovered(es, j - 1, x);
            assert(false);
        } else if q < q0 {
            // Competitor intervals are ordered: the earlier one ends
            // before the later begins, against a0 < a.
            lemma_separated_pairwise(alt, q, q0);
            assert(alt[q].end < alt[q0].start);
            assert(false);
        }
        assert(q > q0);
    }
    q
}

/// Plan count-minimality law: no well-formed, separated interval list with
/// fewer intervals than the plan covers every register while reading only
/// words that some register holds.
pub proof fn lemma_plan_count_minimal(r: Registers, alt: Seq<Request>)
    requires
        r.wf(),
        reqs_wf(alt),
        separated(alt),
        forall|k: int|
            0 <= k < r.dv().len() ==> covered(alt, (#[trigger] r.dv()[k]).0, e_width(r.dv()[k])),
        forall|j: int, x: int|
            #[trigger] in_interval(alt, j, x) ==> word_in_registers(r.dv(), x),
    ensures
        alt.len() >= r.requests@.len(),
{
    if r.requests@.len() > 0 {
        let q = lemma_alt_chain(r.dv(), alt, r.requests@.len() - 1);
    }
}

} // verus!
