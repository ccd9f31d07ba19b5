use vstd::prelude::*;
use std::collections::HashMap;

verus! {

broadcast use vstd::std_specs::hash::group_hash_axioms;

/// The common data bus with the register status table: `busy` maps a
/// register to the station that will write it, `result` maps a station to
/// the value it broadcast in the current cycle.
pub struct CommonDataBus {
    busy: HashMap<usize, usize>,
    result: HashMap<usize, i32>,
}

/// The mathematical value of a [`CommonDataBus`].
pub struct BusView {
    pub busy: Map<usize, usize>,
    pub result: Map<usize, i32>,
}

impl View for CommonDataBus {
    type V = BusView;

    closed spec fn view(&self) -> BusView {
        BusView { busy: self.busy@, result: self.result@ }
    }
}

impl CommonDataBus {
    pub fn new() -> (cdb: Self)
        ensures
            cdb@.busy == Map::<usize, usize>::empty(),
            cdb@.result == Map::<usize, i32>::empty(),
    {
        CommonDataBus { busy: HashMap::new(), result: HashMap::new() }
    }

    /// The station that will write register `reg`, if any.
    pub fn get_busy(&self, reg: usize) -> (r: Option<usize>)
        ensures
            r == self@.busy.get(reg),
    {
        let t = self.busy.get(&reg);
        match t {
            Some(x) => Some(*x),
            None => None,
        }
    }

    pub fn set_busy(&mut self, reg: usize, station: usize)
        ensures
            final(self)@.busy == old(self)@.busy.insert(reg, station),
            final(self)@.result == old(self)@.result,
            final(self)@ == bus_step(old(self)@, BusOp::SetBusy(reg, station)),
    {
        self.busy.insert(reg, station);
    }

    pub fn clean_busy(&mut self, reg: usize)
        ensures
            final(self)@.busy == old(self)@.busy.remove(reg),
            final(self)@.result == old(self)@.result,
            final(self)@ == bus_step(old(self)@, BusOp::CleanBusy(reg)),
    {
        self.busy.remove(&reg);
    }

    /// The value station `inst` broadcast in this cycle, if any.
    pub fn get_result(&self, inst: usize) -> (r: Option<i32>)
        ensures
            r == self@.result.get(inst),
    {
        let t = self.result.get(&inst);
        match t {
            Some(x) => Some(*x),
            None => None,
        }
    }

    pub fn set_result(&mut self, inst: usize, res: i32)
        ensures
            final(self)@.result == old(self)@.result.insert(inst, res),
            final(self)@.busy == old(self)@.busy,
            final(self)@ == bus_step(old(self)@, BusOp::SetResult(inst, res)),
    {
        self.result.insert(inst, res);
    }

    pub fn clean_result(&mut self)
        ensures
            final(self)@.result == Map::<usize, i32>::empty(),
            final(self)@.busy == old(self)@.busy,
            final(self)@ == bus_step(old(self)@, BusOp::CleanResult),
    {
        self.result.clear();
    }
}

/// Reading the bus gives back what was written: after `set_busy(reg, station)`
/// the register reads `station` and every other register reads as before;
/// after `clean_busy(reg)` it reads nothing. The same holds of
/// `set_result` and `get_result`, and `clean_result` leaves nothing to read.
pub proof fn law_bus_read_after_write(b: BusView, reg: usize, station: usize, other: usize, value: i32)
    ensures
        b.busy.insert(reg, station).get(reg) == Some(station),
        other != reg ==> b.busy.insert(reg, station).get(other) == b.busy.get(other),
        b.busy.remove(reg).get(reg) is None,
        other != reg ==> b.busy.remove(reg).get(other) == b.busy.get(other),
        b.result.insert(station, value).get(station) == Some(value),
        other != station ==> b.result.insert(station, value).get(other) == b.result.get(other),
        Map::<usize, i32>::empty().get(other) is None,
{
}

/// One call on the bus: `set_busy`, `clean_busy`, `set_result` or
/// `clean_result`, with its arguments.
pub enum BusOp {
    SetBusy(usize, usize),
    CleanBusy(usize),
    SetResult(usize, i32),
    CleanResult,
}

/// The bus after one call, as that call's contract describes it.
pub open spec fn bus_step(b: BusView, op: BusOp) -> BusView {
    match op {
        BusOp::SetBusy(reg, station) => BusView { busy: b.busy.insert(reg, station), result: b.result },
        BusOp::CleanBusy(reg) => BusView { busy: b.busy.remove(reg), result: b.result },
        BusOp::SetResult(station, value) => BusView { busy: b.busy, result: b.result.insert(station, value) },
        BusOp::CleanResult => BusView { busy: b.busy, result: Map::empty() },
    }
}

/// The bus after a sequence of calls, in order.
pub open spec fn bus_run(b: BusView, ops: Seq<BusOp>) -> BusView
    decreases ops.len(),
{
    if ops.len() == 0 {
        b
    } else {
        bus_step(bus_run(b, ops.drop_last()), ops.last())
    }
}

/// The call sets or clears the producer of register `reg`.
pub open spec fn touches_reg(op: BusOp, reg: usize) -> bool {
    match op {
        BusOp::SetBusy(r, _) => r == reg,
        BusOp::CleanBusy(r) => r == reg,
        _ => false,
    }
}

/// The call sets or clears the broadcast value of `station`.
pub open spec fn touches_result(op: BusOp, station: usize) -> bool {
    match op {
        BusOp::SetResult(s, _) => s == station,
        BusOp::CleanResult => true,
        _ => false,
    }
}

/// Over a whole sequence of calls, `get_busy(reg)` reads the station of the
/// last `set_busy(reg, _)` that no later `set_busy(reg, _)` or `clean_busy(reg)`
/// follows, or what the bus held before if no call touched `reg`, and
/// nothing otherwise; `get_result(station)` reads the value of the last
/// `set_result(station, _)` that no later `set_result(station, _)` or
/// `clean_result()` follows, likewise. The result calls never change what
/// `get_busy` reads, nor the busy calls what `get_result` reads.
pub proof fn law_bus_history(b: BusView, ops: Seq<BusOp>, reg: usize, station: usize, value: i32)
    ensures
        bus_run(b, ops).busy.get(reg) == Some(station) <==> (exists|k: int|
            0 <= k < ops.len() && ops[k] == BusOp::SetBusy(reg, station) && forall|m: int|
                k < m < ops.len() ==> !touches_reg(#[trigger] ops[m], reg)) || (b.busy.get(reg) == Some(station)
            && forall|m: int| 0 <= m < ops.len() ==> !touches_reg(#[trigger] ops[m], reg)),
        bus_run(b, ops).result.get(station) == Some(value) <==> (exists|k: int|
            0 <= k < ops.len() && ops[k] == BusOp::SetResult(station, value) && forall|m: int|
                k < m < ops.len() ==> !touches_result(#[trigger] ops[m], station)) || (b.result.get(station) == Some(
            value) && forall|m: int| 0 <= m < ops.len() ==> !touches_result(#[trigger] ops[m], station)),
    decreases ops.len(),
{
    if ops.len() > 0 {
        let pre = ops.drop_last();
        let n = ops.len() - 1;
        law_bus_history(b, pre, reg, station, value);
        assert forall|m: int| 0 <= m < n implies #[trigger] pre[m] == ops[m] by {}
        let op = ops.last();
        // Busy side.
        if touches_reg(op, reg) {
            if let BusOp::SetBusy(r, st) = op {
                if st == station {
                    assert(ops[n] == BusOp::SetBusy(reg, station));
                }
            }
            assert forall|k: int| 0 <= k < n implies !(ops[k] == BusOp::SetBusy(reg, station) && forall|m: int|
                k < m < ops.len() ==> !touches_reg(#[trigger] ops[m], reg)) by {
                assert(touches_reg(ops[n], reg));
            }
        } else {
            if exists|k: int|
                0 <= k < ops.len() && ops[k] == BusOp::SetBusy(reg, station) && forall|m: int|
                    k < m < ops.len() ==> !touches_reg(#[trigger] ops[m], reg) {
                let k = choose|k: int|
                    0 <= k < ops.len() && ops[k] == BusOp::SetBusy(reg, station) && forall|m: int|
                        k < m < ops.len() ==> !touches_reg(#[trigger] ops[m], reg);
                assert(k != n);
                assert(pre[k] == BusOp::SetBusy(reg, station));
                assert forall|m: int| k < m < pre.len() implies !touches_reg(#[trigger] pre[m], reg) by {
                    assert(!touches_reg(ops[m], reg));
                }
            }
            if exists|k: int|
                0 <= k < pre.len() && pre[k] == BusOp::SetBusy(reg, station) && forall|m: int|
                    k < m < pre.len() ==> !touches_reg(#[trigger] pre[m], reg) {
                let k = choose|k: int|
                    0 <= k < pre.len() && pre[k] == BusOp::SetBusy(reg, station) && forall|m: int|
                        k < m < pre.len() ==> !touches_reg(#[trigger] pre[m], reg);
                assert(ops[k] == BusOp::SetBusy(reg, station));
                assert forall|m: int| k < m < ops.len() implies !touches_reg(#[trigger] ops[m], reg) by {
                    if m < n {
                        assert(!touches_reg(pre[m], reg));
                    }
                }
            }
            if forall|m: int| 0 <= m < pre.len() ==> !touches_reg(#[trigger] pre[m], reg) {
                assert forall|m: int| 0 <= m < ops.len() implies !touches_reg(#[trigger] ops[m], reg) by {
                    if m < n {
                        assert(!touches_reg(pre[m], reg));
                    }
                }
            }
            if forall|m: int| 0 <= m < ops.len() ==> !touches_reg(#[trigger] ops[m], reg) {
                assert forall|m: int| 0 <= m < pre.len() implies !touches_reg(#[trigger] pre[m], reg) by {
                    assert(!touches_reg(ops[m], reg));
                }
            }
        }
        // Result side.
        if touches_result(op, station) {
            if let BusOp::SetResult(st, v) = op {
                if v == value {
                    assert(ops[n] == BusOp::SetResult(station, value));
                }
            }
            assert forall|k: int| 0 <= k < n implies !(ops[k] == BusOp::SetResult(station, value) && forall|m: int|
                k < m < ops.len() ==> !touches_result(#[trigger] ops[m], station)) by {
                assert(touches_result(ops[n], station));
            }
        } else {
            if exists|k: int|
                0 <= k < ops.len() && ops[k] == BusOp::SetResult(station, value) && forall|m: int|
                    k < m < ops.len() ==> !touches_result(#[trigger] ops[m], station) {
                let k = choose|k: int|
                    0 <= k < ops.len() && ops[k] == BusOp::SetResult(station, value) && forall|m: int|
                        k < m < ops.len() ==> !touches_result(#[trigger] ops[m], station);
                assert(k != n);
                assert(pre[k] == BusOp::SetResult(station, value));
                assert forall|m: int| k < m < pre.len() implies !touches_result(#[trigger] pre[m], station) by {
                    assert(!touches_result(ops[m], station));
                }
            }
            if exists|k: int|
                0 <= k < pre.len() && pre[k] == BusOp::SetResult(station, value) && forall|m: int|
                    k < m < pre.len() ==> !touches_result(#[trigger] pre[m], station) {
                let k = choose|k: int|
                    0 <= k < pre.len() && pre[k] == BusOp::SetResult(station, value) && forall|m: int|
                        k < m < pre.len() ==> !touches_result(#[trigger] pre[m], station);
                assert(ops[k] == BusOp::SetResult(station, value));
                assert forall|m: int| k < m < ops.len() implies !touches_result(#[trigger] ops[m], station) by {
                    if m < n {
                        assert(!touches_result(pre[m], station));
                    }
                }
            }
            if forall|m: int| 0 <= m < pre.len() ==> !touches_result(#[trigger] pre[m], station) {
                assert forall|m: int| 0 <= m < ops.len() implies !touches_result(#[trigger] ops[m], station) by {
                    if m < n {
                        assert(!touches_result(pre[m], station));
                    }
                }
            }
            if forall|m: int| 0 <= m < ops.len() ==> !touches_result(#[trigger] ops[m], station) {
                assert forall|m: int| 0 <= m < pre.len() implies !touches_result(#[trigger] pre[m], station) by {
                    assert(!touches_result(ops[m], station));
                }
            }
        }
    }
}

} // verus!
