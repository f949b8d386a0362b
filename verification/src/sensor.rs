//! A slimmer register map keyed by measurement name: consecutive addresses
//! group into one read request of `(start, count)` form.  The Modbus calls
//! that fetch each group happen outside the verified core; the pairing of
//! returned words with their addresses is verified here.

use vstd::prelude::*;

verus! {

/// Addresses strictly increase along the sequence.
pub open spec fn addrs_strictly_sorted(addrs: Seq<u16>) -> bool {
    forall|i: int, j: int| 0 <= i < j < addrs.len() ==> addrs[i] < addrs[j]
}

/// The read groups of a sorted address sequence: an address adjoining the
/// last group extends its count, any other starts a new group.
pub open spec fn group_spec(addrs: Seq<u16>) -> Seq<(u16, u16)>
    decreases addrs.len(),
{
    if addrs.len() == 0 {
        Seq::empty()
    } else {
        let prev = group_spec(addrs.drop_last());
        let a = addrs.last();
        if prev.len() > 0 && a == prev.last().0 + prev.last().1 {
            prev.update(prev.len() - 1, (prev.last().0, (prev.last().1 + 1) as u16))
        } else {
            prev.push((a, 1))
        }
    }
}

/// Structural facts of the groups of a sorted address sequence: every group
/// is non-empty and stays inside the address space, and the last group ends
/// right after the last address.
pub proof fn lemma_group_spec_props(addrs: Seq<u16>)
    requires
        addrs_strictly_sorted(addrs),
        addrs.len() <= u16::MAX,
    ensures
        group_spec(addrs).len() == 0 <==> addrs.len() == 0,
        forall|j: int|
            0 <= j < group_spec(addrs).len() ==> 1 <= (#[trigger] group_spec(addrs)[j]).1
                && group_spec(addrs)[j].1 <= addrs.len() && group_spec(addrs)[j].0
                + group_spec(addrs)[j].1 <= 0x10000,
        addrs.len() > 0 ==> group_spec(addrs).last().0 + group_spec(addrs).last().1 - 1
            == addrs.last(),
    decreases addrs.len(),
{
    if addrs.len() > 0 {
        let prefix = addrs.drop_last();
        lemma_group_spec_props(prefix);
        let prev = group_spec(prefix);
        let a = addrs.last();
        let gs = group_spec(addrs);
        if prev.len() > 0 && a == prev.last().0 + prev.last().1 {
            assert(prefix.len() > 0);
            assert(prev.last().0 + prev.last().1 - 1 == prefix.last());
            assert(prev.last().1 + 1 <= addrs.len());
            assert(gs =~= prev.update(prev.len() - 1, (prev.last().0, (prev.last().1 + 1) as u16)));
            assert forall|j: int| 0 <= j < gs.len() implies 1 <= (#[trigger] gs[j]).1 && gs[j].1
                <= addrs.len() && gs[j].0 + gs[j].1 <= 0x10000 by {
                if j < gs.len() - 1 {
                    assert(gs[j] == prev[j]);
                } else {
                    assert(gs[j].0 + gs[j].1 == a + 1);
                }
            }
        } else {
            assert(gs =~= prev.push((a, 1)));
            assert forall|j: int| 0 <= j < gs.len() implies 1 <= (#[trigger] gs[j]).1 && gs[j].1
                <= addrs.len() && gs[j].0 + gs[j].1 <= 0x10000 by {
                if j < gs.len() - 1 {
                    assert(gs[j] == prev[j]);
                }
            }
        }
    }
}

/// A register map keyed by address, with the measurement name of each
/// register and the grouped read requests covering them.
#[derive(Debug, PartialEq)]
pub struct RegisterMap {
    /// Address and measurement name of each register, address-ordered.
    pub registers: Vec<(u16, String)>,
    /// `(starting address, register count)` of each read call.
    pub read_groups: Vec<(u16, u16)>,
}

impl RegisterMap {
    /// The addresses of the registers, in order.
    pub open spec fn addrs(self) -> Seq<u16> {
        self.registers.deep_view().map_values(|p: (u16, Seq<char>)| p.0)
    }

    /// Addresses strictly increase and the groups are exactly theirs.
    pub open spec fn wf(self) -> bool {
        &&& addrs_strictly_sorted(self.addrs())
        &&& self.registers@.len() <= u16::MAX
        &&& self.read_groups@ == group_spec(self.addrs())
    }

    /// Builds the map over address-ordered registers, grouping consecutive
    /// addresses into single read requests.
    pub fn new(registers: Vec<(u16, String)>) -> (r: RegisterMap)
        requires
            addrs_strictly_sorted(
                registers.deep_view().map_values(|p: (u16, Seq<char>)| p.0),
            ),
            registers@.len() <= u16::MAX,
        ensures
            r.wf(),
            r.registers == registers,
    {
        let ghost addrs = registers.deep_view().map_values(|p: (u16, Seq<char>)| p.0);
        let read_groups = group_registers(&registers);
        RegisterMap { registers, read_groups }
    }

    /// The grouped read requests.
    pub fn read_groups(&self) -> (r: &Vec<(u16, u16)>)
        ensures
            r@ == self.read_groups@,
    {
        &self.read_groups
    }

    /// The measurement name of the register at `addr`, which must exist.
    pub fn get_name(&self, addr: u16) -> (r: &String)
        requires
            exists|i: int|
                0 <= i < self.registers@.len() && (#[trigger] self.registers.deep_view()[i]).0
                    == addr,
        ensures
            exists|i: int|
                0 <= i < self.registers@.len() && (#[trigger] self.registers.deep_view()[i]).0
                    == addr && r@ == self.registers.deep_view()[i].1,
    {
        let mut i: usize = 0;
        while i < self.registers.len()
            invariant
                i <= self.registers@.len(),
                exists|t: int|
                    i <= t < self.registers@.len() && (#[trigger] self.registers.deep_view()[t]).0
                        == addr,
            decreases self.registers@.len() - i,
        {
            if self.registers[i].0 == addr {
                proof {
                    assert(self.registers.deep_view()[i as int].0 == addr);
                    assert(self.registers@[i as int].1@ == self.registers.deep_view()[
                        i as int
                    ].1);
                }
                return &self.registers[i].1;
            }
            proof {
                let t = choose|t: int|
                    i <= t < self.registers@.len() && (#[trigger] self.registers.deep_view()[t]).0
                        == addr;
                assert(t > i);
            }
            i += 1;
        }
        proof {
            assert(false);
        }
        &self.registers[0].1
    }
}

/// Groups consecutive addresses into read requests; the addresses must be
/// sorted.
#[verifier::loop_isolation(false)]
fn group_registers(registers: &Vec<(u16, String)>) -> (r: Vec<(u16, u16)>)
    requires
        addrs_strictly_sorted(registers.deep_view().map_values(|p: (u16, Seq<char>)| p.0)),
        registers@.len() <= u16::MAX,
    ensures
        r@ == group_spec(registers.deep_view().map_values(|p: (u16, Seq<char>)| p.0)),
{
    let ghost addrs = registers.deep_view().map_values(|p: (u16, Seq<char>)| p.0);
    let mut groups: Vec<(u16, u16)> = Vec::new();
    let mut i: usize = 0;
    while i < registers.len()
        invariant
            i <= registers@.len(),
            groups@ == group_spec(addrs.subrange(0, i as int)),
        decreases registers@.len() - i,
    {
        let addr = registers[i].0;
        proof {
            assert(addrs[i as int] == addr);
            assert(addrs.subrange(0, i + 1 as int).drop_last() =~= addrs.subrange(0, i as int));
            assert(addrs.subrange(0, i + 1 as int).last() == addr);
            assert(addrs_strictly_sorted(addrs.subrange(0, i + 1 as int)));
            lemma_group_spec_props(addrs.subrange(0, i + 1 as int));
            lemma_group_spec_props(addrs.subrange(0, i as int));
        }
        let n = groups.len();
        if n > 0 && addr as u32 == groups[n - 1].0 as u32 + groups[n - 1].1 as u32 {
            let start = groups[n - 1].0;
            let count = groups[n - 1].1;
            groups.set(n - 1, (start, count + 1));
        } else {
            groups.push((addr, 1));
        }
        proof {
            assert(groups@ =~= group_spec(addrs.subrange(0, i + 1 as int)));
        }
        i += 1;
    }
    proof {
        assert(addrs.subrange(0, registers@.len() as int) =~= addrs);
    }
    groups
}

/// The `(address, word)` pairs of one group's response.
pub open spec fn group_pairs(start: u16, words: Seq<u16>) -> Seq<(u16, u16)> {
    Seq::new(words.len(), |t: int| ((start + t) as u16, words[t]))
}

/// The `(address, word)` pairs of all groups' responses, in group order.
pub open spec fn all_group_pairs(groups: Seq<(u16, u16)>, responses: Seq<Seq<u16>>) -> Seq<
    (u16, u16),
>
    decreases groups.len(),
{
    if groups.len() == 0 {
        Seq::empty()
    } else {
        all_group_pairs(groups.drop_last(), responses.drop_last()) + group_pairs(
            groups.last().0,
            responses.last(),
        )
    }
}

/// One sensor: a unit id, a register map shared with others of its group,
/// and static tags.
#[derive(Debug)]
pub struct Sensor<'a> {
    pub id: u8,
    pub group: &'a str,
    pub registers: &'a RegisterMap,
    pub tags: Vec<(String, String)>,
}

impl<'a> Sensor<'a> {
    /// Pairs the words of each group's response with their addresses, in
    /// group order.  `responses[j]` must hold exactly the words the
    /// transport returned for read group `j`; the Modbus calls themselves
    /// happen outside the verified core.
    pub fn read_registers(&self, responses: &Vec<Vec<u16>>) -> (r: Vec<(u16, u16)>)
        requires
            self.registers.wf(),
            responses@.len() == self.registers.read_groups@.len(),
            forall|j: int|
                0 <= j < responses@.len() ==> (#[trigger] responses@[j])@.len()
                    == self.registers.read_groups@[j].1,
        ensures
            r@ == all_group_pairs(self.registers.read_groups@, responses.deep_view()),
    {
        let ghost groups = self.registers.read_groups@;
        let ghost resp = responses.deep_view();
        proof {
            lemma_group_spec_props(self.registers.addrs());
        }
        let mut out: Vec<(u16, u16)> = Vec::new();
        let mut j: usize = 0;
        while j < self.registers.read_groups.len()
            invariant
                self.registers.wf(),
                groups == self.registers.read_groups@,
                resp == responses.deep_view(),
                responses@.len() == groups.len(),
                forall|t: int|
                    0 <= t < responses@.len() ==> (#[trigger] responses@[t])@.len() == groups[t].1,
                forall|t: int|
                    0 <= t < groups.len() ==> 1 <= (#[trigger] groups[t]).1 && groups[t].0
                        + groups[t].1 <= 0x10000,
                j <= groups.len(),
                out@ == all_group_pairs(
                    groups.subrange(0, j as int),
                    resp.subrange(0, j as int),
                ),
            decreases groups.len() - j,
        {
            let start = self.registers.read_groups[j].0;
            let count = self.registers.read_groups[j].1;
            let buf = &responses[j];
            let mut t: usize = 0;
            while t < count as usize
                invariant
                    start == groups[j as int].0,
                    count == groups[j as int].1,
                    j < groups.len(),
                    start + count <= 0x10000,
                    buf@ == responses@[j as int]@,
                    buf@.len() == count,
                    t <= count,
                    out@ == all_group_pairs(
                        groups.subrange(0, j as int),
                        resp.subrange(0, j as int),
                    ) + group_pairs(start, buf@).subrange(0, t as int),
                decreases count - t,
            {
                out.push((start + t as u16, buf[t]));
                proof {
                    assert(group_pairs(start, buf@)[t as int] == (
                        (start + t) as u16,
                        buf@[t as int],
                    ));
                    assert(out@ =~= all_group_pairs(
                        groups.subrange(0, j as int),
                        resp.subrange(0, j as int),
                    ) + group_pairs(start, buf@).subrange(0, t + 1 as int));
                }
                t += 1;
            }
            proof {
                assert(group_pairs(start, buf@).subrange(0, count as int) =~= group_pairs(
                    start,
                    buf@,
                ));
                assert(groups.subrange(0, j + 1 as int).drop_last() =~= groups.subrange(
                    0,
                    j as int,
                ));
                assert(resp.subrange(0, j + 1 as int).drop_last() =~= resp.subrange(0, j as int));
                assert(resp.subrange(0, j + 1 as int).last() =~= buf@);
                assert(out@ =~= all_group_pairs(
                    groups.subrange(0, j + 1 as int),
                    resp.subrange(0, j + 1 as int),
                ));
            }
            j += 1;
        }
        proof {
            assert(groups.subrange(0, groups.len() as int) =~= groups);
            assert(resp.subrange(0, resp.len() as int) =~= resp);
        }
        out
    }
}

} // verus!
