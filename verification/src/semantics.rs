//! The mathematical model of the simulator: its state, and what each phase of
//! a clock cycle does to it.
use vstd::prelude::*;
use crate::instruction::{InstFunc, InstructionType, InstructionView, ParamType};
use crate::parse::{operand_value, split_commas};
use crate::reserve_station::{all_tags_resolved, cleaned, StationState, StationView};

verus! {

/// Number of registers; the last one, `F32`, is the program counter.
pub const REG_COUNT: usize = 33;

/// Number of reservation stations (load buffers included).
pub const RES_COUNT: usize = 12;

/// Number of instruction types.
pub const INS_COUNT: usize = 6;

/// Number of functional-unit groups.
pub const COM_COUNT: usize = 3;

/// The register that holds the program counter.
pub const PC_REG: usize = 32;

/// The mathematical value of a platform.
pub struct PlatformView {
    pub clock: usize,
    pub regs: Seq<i32>,
    pub busy: Map<usize, usize>,
    pub results: Map<usize, i32>,
    pub types: Seq<InstructionType>,
    pub insts: Seq<InstructionView>,
    pub stations: Seq<StationView>,
    pub running: Seq<i32>,
}

/// The functional-unit group of station `i`: stations 0..6 share the adders,
/// 6..9 the multipliers and 9..12 are the load buffers.
pub open spec fn group_of(i: int) -> usize {
    if i < 6 {
        0
    } else if i < 9 {
        1
    } else {
        2
    }
}

/// How many instructions of group `g` may execute at once.
pub open spec fn bound_of(g: int) -> i32 {
    if g == 0 {
        3
    } else {
        2
    }
}

/// `t` has the given mnemonic, latency, operand layout, destination operand,
/// operation and stations.
pub open spec fn type_is(
    t: InstructionType,
    name: Seq<char>,
    cycles: i32,
    param_type: Seq<ParamType>,
    dest: usize,
    func: InstFunc,
    stations: Seq<usize>,
) -> bool {
    &&& t.name@ =~= name
    &&& t.cycles == cycles
    &&& t.param_type@ =~= param_type
    &&& t.dest == dest
    &&& t.func == func
    &&& t.stations@ =~= stations
}

/// The six instruction types of the platform, in their fixed order.
pub open spec fn standard_types(t: Seq<InstructionType>) -> bool {
    let r = ParamType::REGISTER;
    let n = ParamType::INSTANT;
    let adders = seq![0usize, 1, 2, 3, 4, 5];
    let multipliers = seq![6usize, 7, 8];
    &&& t.len() == INS_COUNT
    &&& type_is(t[0], seq!['A', 'D', 'D'], 3, seq![r, r, r], 0, InstFunc::Add, adders)
    &&& type_is(t[1], seq!['S', 'U', 'B'], 3, seq![r, r, r], 0, InstFunc::Sub, adders)
    &&& type_is(t[2], seq!['J', 'U', 'M', 'P'], 1, seq![n, r, n, r, r], 4, InstFunc::Jump, adders)
    &&& type_is(t[3], seq!['M', 'U', 'L'], 12, seq![r, r, r], 0, InstFunc::Mul, multipliers)
    &&& type_is(t[4], seq!['D', 'I', 'V'], 40, seq![r, r, r], 0, InstFunc::Div, multipliers)
    &&& type_is(t[5], seq!['L', 'D'], 3, seq![r, n], 0, InstFunc::Ld, seq![9usize, 10, 11])
}

/// An instruction of type `t` may go to at least one station, and every
/// station it may go to exists.
pub open spec fn stations_usable(t: InstructionType) -> bool {
    &&& t.stations@.len() > 0
    &&& forall|m: int| 0 <= m < t.stations@.len() ==> #[trigger] t.stations@[m] < RES_COUNT
}

/// A station that holds an instruction is consistent with it: one parameter
/// and one tag per operand, the destination among them, a tag exactly where
/// the value is unknown, and no tag left once the station is past `ISSUE`.
pub open spec fn station_consistent(st: StationView, insts: Seq<InstructionView>) -> bool {
    st.state != StationState::IDLE ==> {
        let inst = insts[st.inst as int];
        &&& st.inst < insts.len()
        &&& st.params.len() == inst.param.len()
        &&& st.tags.len() == inst.param.len()
        &&& inst.inst_type.dest < inst.param.len()
        &&& forall|j: int| 0 <= j < st.params.len() ==> (#[trigger] st.params[j] is None <==> st.tags[j] is Some)
        &&& st.state != StationState::ISSUE ==> all_tags_resolved(st.tags)
    }
}

/// The invariant every platform keeps.
pub open spec fn platform_wf(s: PlatformView) -> bool {
    &&& s.regs.len() == REG_COUNT
    &&& s.stations.len() == RES_COUNT
    &&& s.running.len() == COM_COUNT
    &&& standard_types(s.types)
    &&& forall|i: int| 0 <= i < RES_COUNT ==> (#[trigger] s.stations[i]).belong == group_of(i)
    &&& forall|n: int| 0 <= n < s.insts.len() ==> stations_usable(#[trigger] s.insts[n].inst_type)
    &&& forall|i: int| 0 <= i < RES_COUNT ==> station_consistent(#[trigger] s.stations[i], s.insts)
}

// ---------------------------------------------------------------------------
// Write back
// ---------------------------------------------------------------------------

/// The register the instruction held by `st` writes.
pub open spec fn dest_reg(s: PlatformView, st: StationView) -> usize {
    let inst = s.insts[st.inst as int];
    st.params[inst.inst_type.dest as int]->Some_0 as usize
}

/// Station `i` is the latest producer of register `d`.
pub open spec fn owns(s: PlatformView, d: usize, i: int) -> bool {
    s.busy.contains_key(d) && s.busy[d] == i
}

/// Writing back station `i` would write a register that does not exist.
pub open spec fn write_back_traps_at(s: PlatformView, i: int) -> bool {
    let st = s.stations[i];
    &&& st.state == StationState::WRITE_BACK
    &&& dest_reg(s, st) >= REG_COUNT
    &&& owns(s, dest_reg(s, st), i)
}

/// Station `i` writes back: it broadcasts its result, updates its destination
/// register if it is still that register's latest producer, records the cycle
/// on its instruction, frees its functional unit and becomes idle.
pub open spec fn write_back_one(s: PlatformView, i: int) -> PlatformView {
    let st = s.stations[i];
    if st.state != StationState::WRITE_BACK {
        s
    } else {
        let d = dest_reg(s, st);
        let inst = s.insts[st.inst as int];
        PlatformView {
            regs: if owns(s, d, i) { s.regs.update(d as int, st.result) } else { s.regs },
            busy: if owns(s, d, i) { s.busy.remove(d) } else { s.busy },
            results: s.results.insert(i as usize, st.result),
            insts: if inst.write_back_time == -1 {
                s.insts.update(st.inst as int, InstructionView { write_back_time: s.clock as i32, ..inst })
            } else {
                s.insts
            },
            running: s.running.update(st.belong as int, s.running[st.belong as int].wrapping_sub(1)),
            stations: s.stations.update(i, cleaned(st)),
            ..s
        }
    }
}

/// The platform after the first `k` stations have been through write back.
pub open spec fn write_back_upto(s: PlatformView, k: nat) -> PlatformView
    decreases k,
{
    if k == 0 {
        s
    } else {
        write_back_one(write_back_upto(s, (k - 1) as nat), k - 1)
    }
}

/// The write-back phase: every station in `WRITE_BACK`, in order.
pub open spec fn write_back_spec(s: PlatformView) -> PlatformView {
    write_back_upto(s, RES_COUNT as nat)
}

/// The write-back phase would write a register that does not exist.
pub open spec fn write_back_traps(s: PlatformView) -> bool {
    exists|k: int| 0 <= k < RES_COUNT && #[trigger] write_back_traps_at(write_back_upto(s, k as nat), k)
}

/// The instructions written back by the first `k` stations, in order.
pub open spec fn written_back_upto(s: PlatformView, k: nat) -> Seq<usize>
    decreases k,
{
    if k == 0 {
        Seq::empty()
    } else {
        let st = write_back_upto(s, (k - 1) as nat).stations[k - 1];
        written_back_upto(s, (k - 1) as nat) + if st.state == StationState::WRITE_BACK {
            seq![st.inst]
        } else {
            Seq::empty()
        }
    }
}

// ---------------------------------------------------------------------------
// The invariant through write back
// ---------------------------------------------------------------------------

/// Two programs agree on every instruction's type and operands (they may
/// differ in the recorded cycles).
pub open spec fn same_program_shape(a: Seq<InstructionView>, b: Seq<InstructionView>) -> bool {
    &&& a.len() == b.len()
    &&& forall|n: int| 0 <= n < a.len() ==> (#[trigger] a[n]).inst_type == b[n].inst_type && a[n].param == b[n].param
}

pub proof fn lemma_station_consistent_shape(st: StationView, a: Seq<InstructionView>, b: Seq<InstructionView>)
    requires
        station_consistent(st, a),
        same_program_shape(a, b),
    ensures
        station_consistent(st, b),
{
    if st.state != StationState::IDLE {
        assert(a[st.inst as int].inst_type == b[st.inst as int].inst_type);
    }
}

pub proof fn lemma_write_back_one_wf(s: PlatformView, i: int)
    requires
        platform_wf(s),
        0 <= i < RES_COUNT,
        !write_back_traps_at(s, i),
    ensures
        platform_wf(write_back_one(s, i)),
        same_program_shape(s.insts, write_back_one(s, i).insts),
{
    let t = write_back_one(s, i);
    let st = s.stations[i];
    if st.state == StationState::WRITE_BACK {
        assert(s.stations[i].belong == group_of(i));
        assert(station_consistent(st, s.insts));
        let inst = s.insts[st.inst as int];
        assert(inst.inst_type.dest < st.params.len());
        assert(st.params[inst.inst_type.dest as int] is Some);
        assert forall|n: int| 0 <= n < t.insts.len() implies stations_usable(#[trigger] t.insts[n].inst_type) by {
            assert(stations_usable(s.insts[n].inst_type));
        }
        assert forall|k: int| 0 <= k < RES_COUNT implies station_consistent(#[trigger] t.stations[k], t.insts) by {
            if k != i {
                assert(station_consistent(s.stations[k], s.insts));
                lemma_station_consistent_shape(s.stations[k], s.insts, t.insts);
            }
        }
        assert forall|k: int| 0 <= k < RES_COUNT implies (#[trigger] t.stations[k]).belong == group_of(k) by {
            assert(s.stations[k].belong == group_of(k));
        }
    }
}

pub proof fn lemma_write_back_upto_wf(s: PlatformView, k: nat)
    requires
        platform_wf(s),
        k <= RES_COUNT,
        forall|j: int| 0 <= j < k ==> !#[trigger] write_back_traps_at(write_back_upto(s, j as nat), j),
    ensures
        platform_wf(write_back_upto(s, k)),
        same_program_shape(s.insts, write_back_upto(s, k).insts),
        write_back_upto(s, k).clock == s.clock,
    decreases k,
{
    if k > 0 {
        lemma_write_back_upto_wf(s, (k - 1) as nat);
        assert(!write_back_traps_at(write_back_upto(s, (k - 1) as nat), k - 1));
        lemma_write_back_one_wf(write_back_upto(s, (k - 1) as nat), k - 1);
    }
}

// ---------------------------------------------------------------------------
// Execute
// ---------------------------------------------------------------------------

/// Station `j` holds an instruction whose operands are all known and that
/// waits for a functional unit.
pub open spec fn waiting(s: PlatformView, j: int) -> bool {
    0 <= j < RES_COUNT && s.stations[j].state == StationState::READY
}

/// Station `j` is ahead of station `i` in the queue for a functional unit: it
/// became ready in an earlier cycle, or in the same cycle with an earlier
/// instruction, or with the same instruction in a lower-numbered station.
pub open spec fn ahead_of(s: PlatformView, j: int, i: int) -> bool {
    let a = s.stations[j];
    let b = s.stations[i];
    ||| a.ready_punch < b.ready_punch
    ||| a.ready_punch == b.ready_punch && a.inst < b.inst
    ||| a.ready_punch == b.ready_punch && a.inst == b.inst && j < i
}

/// The waiting stations of `i`'s group that are ahead of `i`.
pub open spec fn queue_ahead(s: PlatformView, i: int) -> Set<int> {
    Set::new(
        |j: int|
            waiting(s, j) && s.stations[j].belong == s.stations[i].belong && ahead_of(s, j, i),
    )
}

/// The waiting stations of group `g`.
pub open spec fn waiting_in(s: PlatformView, g: int) -> Set<int> {
    Set::new(|j: int| waiting(s, j) && s.stations[j].belong == g)
}

/// How many functional units of group `g` are free.
pub open spec fn free_units(s: PlatformView, g: int) -> int {
    let f = bound_of(g) - s.running[g];
    if f > 0 {
        f
    } else {
        0
    }
}

/// Waiting station `i` gets a functional unit in this cycle: fewer of its
/// group's waiting stations are ahead of it than there are free units.
pub open spec fn admitted(s: PlatformView, i: int) -> bool {
    waiting(s, i) && queue_ahead(s, i).len() < free_units(s, s.stations[i].belong as int)
}

/// Handing out functional units: the admitted stations start executing, and
/// each group's count of busy units grows by the number of stations it
/// admitted, the smaller of its waiting stations and its free units.
pub open spec fn dispatch_spec(s: PlatformView) -> PlatformView {
    PlatformView {
        stations: Seq::new(
            RES_COUNT as nat,
            |i: int|
                if admitted(s, i) {
                    StationView { state: StationState::EXEC, ..s.stations[i] }
                } else {
                    s.stations[i]
                },
        ),
        running: Seq::new(
            COM_COUNT as nat,
            |g: int|
                (s.running[g] + if waiting_in(s, g).len() < free_units(s, g) {
                    waiting_in(s, g).len() as int
                } else {
                    free_units(s, g)
                }) as i32,
        ),
        ..s
    }
}

/// One cycle of execution on station `i`: an executing station counts down
/// its remaining time, and when it reaches zero it records the cycle on its
/// instruction and moves to `WRITE_BACK`.
pub open spec fn tick_one(s: PlatformView, i: int) -> PlatformView {
    let st = s.stations[i];
    if st.state != StationState::EXEC {
        s
    } else {
        let left = st.time_left.wrapping_sub(1);
        if left != 0 {
            PlatformView { stations: s.stations.update(i, StationView { time_left: left, ..st }), ..s }
        } else {
            let inst = s.insts[st.inst as int];
            PlatformView {
                insts: if inst.exec_time == -1 {
                    s.insts.update(st.inst as int, InstructionView { exec_time: s.clock as i32, ..inst })
                } else {
                    s.insts
                },
                stations: s.stations.update(
                    i,
                    StationView { time_left: 0, state: StationState::WRITE_BACK, ..st },
                ),
                ..s
            }
        }
    }
}

/// The platform after the first `k` stations have ticked.
pub open spec fn tick_upto(s: PlatformView, k: nat) -> PlatformView
    decreases k,
{
    if k == 0 {
        s
    } else {
        tick_one(tick_upto(s, (k - 1) as nat), k - 1)
    }
}

/// The execute phase: hand out functional units, then let every executing
/// station tick.
pub open spec fn exec_spec(s: PlatformView) -> PlatformView {
    tick_upto(dispatch_spec(s), RES_COUNT as nat)
}

/// `order` lists exactly the stations admitted in `s`, in queue order.
pub open spec fn dispatch_order(s: PlatformView, order: Seq<usize>) -> bool {
    &&& forall|a: int, b: int| 0 <= a < b < order.len() ==> #[trigger] ahead_of(s, order[a] as int, order[b] as int)
    &&& forall|a: int| 0 <= a < order.len() ==> #[trigger] admitted(s, order[a] as int)
    &&& forall|k: int| #[trigger] admitted(s, k) ==> order.contains(k as usize)
}

pub proof fn lemma_dispatch_wf(s: PlatformView)
    requires
        platform_wf(s),
    ensures
        platform_wf(dispatch_spec(s)),
{
    let t = dispatch_spec(s);
    assert forall|k: int| 0 <= k < RES_COUNT implies station_consistent(#[trigger] t.stations[k], t.insts) by {
        assert(station_consistent(s.stations[k], s.insts));
    }
    assert forall|k: int| 0 <= k < RES_COUNT implies (#[trigger] t.stations[k]).belong == group_of(k) by {
        assert(s.stations[k].belong == group_of(k));
    }
}

pub proof fn lemma_tick_one_wf(s: PlatformView, i: int)
    requires
        platform_wf(s),
        0 <= i < RES_COUNT,
    ensures
        platform_wf(tick_one(s, i)),
        same_program_shape(s.insts, tick_one(s, i).insts),
{
    let t = tick_one(s, i);
    assert(station_consistent(s.stations[i], s.insts));
    assert forall|n: int| 0 <= n < t.insts.len() implies stations_usable(#[trigger] t.insts[n].inst_type) by {
        assert(stations_usable(s.insts[n].inst_type));
    }
    assert forall|k: int| 0 <= k < RES_COUNT implies station_consistent(#[trigger] t.stations[k], t.insts) by {
        assert(station_consistent(s.stations[k], s.insts));
        lemma_station_consistent_shape(s.stations[k], s.insts, t.insts);
    }
    assert forall|k: int| 0 <= k < RES_COUNT implies (#[trigger] t.stations[k]).belong == group_of(k) by {
        assert(s.stations[k].belong == group_of(k));
    }
}

pub proof fn lemma_tick_upto_wf(s: PlatformView, k: nat)
    requires
        platform_wf(s),
        k <= RES_COUNT,
    ensures
        platform_wf(tick_upto(s, k)),
        same_program_shape(s.insts, tick_upto(s, k).insts),
        tick_upto(s, k).clock == s.clock,
        tick_upto(s, k).regs == s.regs,
        tick_upto(s, k).busy == s.busy,
        tick_upto(s, k).results == s.results,
        tick_upto(s, k).running == s.running,
    decreases k,
{
    if k > 0 {
        lemma_tick_upto_wf(s, (k - 1) as nat);
        lemma_tick_one_wf(tick_upto(s, (k - 1) as nat), k - 1);
    }
}

// ---------------------------------------------------------------------------
// Issue
// ---------------------------------------------------------------------------

/// A jump is in flight: some station will still write the program counter.
pub open spec fn jump_pending(s: PlatformView) -> bool {
    s.busy.contains_key(PC_REG)
}

/// The program counter points at an instruction of the program.
pub open spec fn pc_in_program(s: PlatformView) -> bool {
    0 <= s.regs[PC_REG as int] < s.insts.len()
}

/// The position, from `m` on, of the first idle station in `cands`.
pub open spec fn first_idle_from(s: PlatformView, cands: Seq<usize>, m: int) -> Option<int>
    decreases cands.len() - m,
{
    if m < 0 || m >= cands.len() {
        None
    } else if s.stations[cands[m] as int].state == StationState::IDLE {
        Some(m)
    } else {
        first_idle_from(s, cands, m + 1)
    }
}

/// The instruction at the program counter.
pub open spec fn current_inst(s: PlatformView) -> InstructionView {
    s.insts[s.regs[PC_REG as int] as int]
}

/// The station that receives the instruction at the program counter in this
/// cycle, if any: the first idle one among those its type may use, provided
/// no jump is in flight and the program counter is inside the program.
pub open spec fn issue_target(s: PlatformView) -> Option<usize> {
    if jump_pending(s) || !pc_in_program(s) {
        None
    } else {
        let cands = current_inst(s).inst_type.stations@;
        match first_idle_from(s, cands, 0) {
            Some(m) => Some(cands[m]),
            None => None,
        }
    }
}

/// The register operand `j` of `inst` names.
pub open spec fn operand_reg(inst: InstructionView, j: int) -> usize {
    inst.param[j] as usize
}

/// What a station records for operand `j` of `inst` at issue: the literal for
/// the destination and for immediate operands; for a register operand, its
/// producing station if one is pending, and the register's value otherwise.
pub open spec fn issue_operand(s: PlatformView, inst: InstructionView, j: int) -> (Option<i32>, Option<usize>) {
    let t = inst.inst_type;
    let r = operand_reg(inst, j);
    if j == t.dest || t.param_type@[j] == ParamType::INSTANT {
        (Some(inst.param[j]), None)
    } else if s.busy.contains_key(r) {
        (None, Some(s.busy[r]))
    } else {
        (Some(s.regs[r as int]), None)
    }
}

/// Reading operand `j` of `inst` at issue would fail: the operand has no
/// declared kind, or it names a register that does not exist and has no
/// pending producer.
pub open spec fn operand_traps(s: PlatformView, inst: InstructionView, j: int) -> bool {
    let t = inst.inst_type;
    let r = operand_reg(inst, j);
    &&& j != t.dest
    &&& (j >= t.param_type@.len() || (t.param_type@[j] == ParamType::REGISTER && !s.busy.contains_key(r)
        && r >= REG_COUNT))
}

/// Issuing the instruction at the program counter would fail: it has no
/// destination operand, or one of its operands cannot be read.
pub open spec fn issue_traps(s: PlatformView) -> bool {
    let inst = current_inst(s);
    &&& issue_target(s) is Some
    &&& (inst.inst_type.dest >= inst.param.len() || exists|j: int|
        0 <= j < inst.param.len() && #[trigger] operand_traps(s, inst, j))
}

/// The issue phase: the instruction at the program counter goes to its
/// station with its operands read, its destination register is renamed to
/// that station, its issue cycle is recorded and the program counter moves on.
pub open spec fn issue_spec(s: PlatformView) -> PlatformView {
    match issue_target(s) {
        None => s,
        Some(k) => {
            let p = s.regs[PC_REG as int];
            let inst = current_inst(s);
            let n = inst.param.len();
            let st = StationView {
                state: StationState::ISSUE,
                inst: p as usize,
                params: Seq::new(n, |j: int| issue_operand(s, inst, j).0),
                tags: Seq::new(n, |j: int| issue_operand(s, inst, j).1),
                ..s.stations[k as int]
            };
            PlatformView {
                stations: s.stations.update(k as int, st),
                insts: if inst.issue_time == -1 {
                    s.insts.update(p as int, InstructionView { issue_time: s.clock as i32, ..inst })
                } else {
                    s.insts
                },
                busy: s.busy.insert(operand_reg(inst, inst.inst_type.dest as int), k),
                regs: s.regs.update(PC_REG as int, p.wrapping_add(1)),
                ..s
            }
        },
    }
}

/// What the issue phase reports: `false` once the program has ended, that is
/// when no jump is in flight and the program counter has left the program.
pub open spec fn issue_result(s: PlatformView) -> bool {
    jump_pending(s) || pc_in_program(s)
}

pub proof fn lemma_first_idle_from(s: PlatformView, cands: Seq<usize>, m: int)
    requires
        0 <= m,
    ensures
        first_idle_from(s, cands, m) matches Some(q) ==> m <= q < cands.len()
            && s.stations[cands[q] as int].state == StationState::IDLE,
        first_idle_from(s, cands, m) is None ==> forall|q: int|
            m <= q < cands.len() ==> s.stations[#[trigger] cands[q] as int].state != StationState::IDLE,
    decreases cands.len() - m,
{
    if m < cands.len() && s.stations[cands[m] as int].state != StationState::IDLE {
        lemma_first_idle_from(s, cands, m + 1);
    }
}

pub proof fn lemma_issue_wf(s: PlatformView)
    requires
        platform_wf(s),
        !issue_traps(s),
    ensures
        platform_wf(issue_spec(s)),
{
    let t = issue_spec(s);
    if let Some(k) = issue_target(s) {
        let p = s.regs[PC_REG as int] as int;
        let inst = current_inst(s);
        let cands = inst.inst_type.stations@;
        lemma_first_idle_from(s, cands, 0);
        let m = first_idle_from(s, cands, 0)->Some_0;
        assert(stations_usable(s.insts[p].inst_type));
        assert(cands[m] < RES_COUNT);
        assert(same_program_shape(s.insts, t.insts));
        assert forall|n: int| 0 <= n < t.insts.len() implies stations_usable(#[trigger] t.insts[n].inst_type) by {
            assert(stations_usable(s.insts[n].inst_type));
        }
        assert forall|i: int| 0 <= i < RES_COUNT implies station_consistent(#[trigger] t.stations[i], t.insts) by {
            if i != k {
                assert(station_consistent(s.stations[i], s.insts));
                lemma_station_consistent_shape(s.stations[i], s.insts, t.insts);
            } else {
                assert(t.insts[p] .param == inst.param);
                assert(t.insts[p].inst_type == inst.inst_type);
            }
        }
        assert forall|i: int| 0 <= i < RES_COUNT implies (#[trigger] t.stations[i]).belong == group_of(i) by {
            assert(s.stations[i].belong == group_of(i));
        }
    }
}

// ---------------------------------------------------------------------------
// Check ready
// ---------------------------------------------------------------------------

/// Operand `j` of `st` after listening to the bus: an operand waiting for a
/// station that broadcast in this cycle takes the broadcast value.
pub open spec fn heard(s: PlatformView, st: StationView, j: int) -> (Option<i32>, Option<usize>) {
    match st.tags[j] {
        Some(t) => if s.results.contains_key(t) {
            (Some(s.results[t]), None)
        } else {
            (st.params[j], st.tags[j])
        },
        None => (st.params[j], st.tags[j]),
    }
}

/// `st` after every operand has listened to the bus.
pub open spec fn listened(s: PlatformView, st: StationView) -> StationView {
    StationView {
        params: Seq::new(st.params.len(), |j: int| heard(s, st, j).0),
        tags: Seq::new(st.params.len(), |j: int| heard(s, st, j).1),
        ..st
    }
}

/// The values of the operands of `st`, all of them known.
pub open spec fn operand_values(st: StationView) -> Seq<i32> {
    Seq::new(st.params.len(), |j: int| st.params[j]->Some_0)
}

/// Station `i` was issued and, after listening to the bus, knows every operand.
pub open spec fn becomes_ready(s: PlatformView, i: int) -> bool {
    let st = s.stations[i];
    st.state == StationState::ISSUE && all_tags_resolved(listened(s, st).tags)
}

/// What station `i`'s instruction computes once its operands are known.
pub open spec fn ready_outcome(s: PlatformView, i: int) -> Result<i32, i32> {
    let st = s.stations[i];
    s.insts[st.inst as int].inst_type.func.outcome(operand_values(listened(s, st)))
}

/// Station `i` after the check-ready phase: an issued station listens to the
/// bus; once it knows every operand it computes its result, records the cycle
/// and becomes ready, with its instruction's latency left to run, or a single
/// cycle when the operation failed (its result is then the error value).
pub open spec fn check_one(s: PlatformView, i: int) -> StationView {
    let st = s.stations[i];
    let l = listened(s, st);
    if st.state != StationState::ISSUE {
        st
    } else if !all_tags_resolved(l.tags) {
        l
    } else {
        match ready_outcome(s, i) {
            Ok(v) => StationView {
                state: StationState::READY,
                ready_punch: s.clock as i32,
                result: v,
                time_left: s.insts[st.inst as int].time_left,
                ..l
            },
            Err(e) => StationView {
                state: StationState::READY,
                ready_punch: s.clock as i32,
                result: e,
                time_left: 1,
                ..l
            },
        }
    }
}

/// Some station that becomes ready holds an operation that cannot be carried
/// out on its operands.
pub open spec fn check_ready_traps(s: PlatformView) -> bool {
    exists|i: int|
        0 <= i < RES_COUNT && #[trigger] becomes_ready(s, i) && s.insts[s.stations[i].inst as int].inst_type.func.traps(
            operand_values(listened(s, s.stations[i])),
        )
}

/// The check-ready phase, on every station.
pub open spec fn check_ready_spec(s: PlatformView) -> PlatformView {
    PlatformView { stations: Seq::new(RES_COUNT as nat, |i: int| check_one(s, i)), ..s }
}

/// Every station is idle.
pub open spec fn all_idle(s: PlatformView) -> bool {
    forall|i: int| 0 <= i < RES_COUNT ==> #[trigger] s.stations[i].state == StationState::IDLE
}

/// What becoming ready looks like from outside: the instruction, its operand
/// values and what it computed.
pub struct ReadyEventView {
    pub inst: usize,
    pub params: Seq<i32>,
    pub outcome: Result<i32, i32>,
}

/// The stations among the first `k` that become ready, in order.
pub open spec fn readied_upto(s: PlatformView, k: nat) -> Seq<ReadyEventView>
    decreases k,
{
    if k == 0 {
        Seq::empty()
    } else {
        let i = k - 1;
        readied_upto(s, (k - 1) as nat) + if becomes_ready(s, i) {
            seq![
                ReadyEventView {
                    inst: s.stations[i].inst,
                    params: operand_values(listened(s, s.stations[i])),
                    outcome: ready_outcome(s, i),
                },
            ]
        } else {
            Seq::empty()
        }
    }
}

pub proof fn lemma_check_ready_wf(s: PlatformView)
    requires
        platform_wf(s),
    ensures
        platform_wf(check_ready_spec(s)),
{
    let t = check_ready_spec(s);
    assert forall|i: int| 0 <= i < RES_COUNT implies station_consistent(#[trigger] t.stations[i], t.insts) by {
        let st = s.stations[i];
        assert(station_consistent(st, s.insts));
        if st.state == StationState::ISSUE {
            let l = listened(s, st);
            assert forall|j: int| 0 <= j < l.params.len() implies (#[trigger] l.params[j] is None <==> l.tags[j] is Some) by {
                assert(st.params[j] is None <==> st.tags[j] is Some);
            }
        }
    }
    assert forall|i: int| 0 <= i < RES_COUNT implies (#[trigger] t.stations[i]).belong == group_of(i) by {
        assert(s.stations[i].belong == group_of(i));
    }
}

// ---------------------------------------------------------------------------
// One clock cycle
// ---------------------------------------------------------------------------

/// The platform after the write-back and execute phases of a cycle.
pub open spec fn after_exec(s: PlatformView) -> PlatformView {
    exec_spec(write_back_spec(s))
}

/// The platform after the write-back, execute and issue phases of a cycle.
pub open spec fn after_issue(s: PlatformView) -> PlatformView {
    issue_spec(after_exec(s))
}

/// One clock cycle: write back, execute, issue and check ready, then the bus
/// forgets this cycle's broadcasts and the clock advances.
pub open spec fn step_spec(s: PlatformView) -> PlatformView {
    let t = check_ready_spec(after_issue(s));
    PlatformView { results: Map::empty(), clock: s.clock.wrapping_add(1), ..t }
}

/// Some phase of the cycle would fail.
pub open spec fn step_traps(s: PlatformView) -> bool {
    ||| write_back_traps(s)
    ||| issue_traps(after_exec(s))
    ||| check_ready_traps(after_issue(s))
}

/// What a cycle reports: the instructions written back, those that started
/// executing (in queue order), the one issued and those that became ready.
pub struct StepTraceView {
    pub written_back: Seq<usize>,
    pub executed: Seq<usize>,
    pub issued: Option<usize>,
    pub readied: Seq<ReadyEventView>,
}

/// `order`'s stations, as the instructions they hold in `s`.
pub open spec fn insts_of(s: PlatformView, order: Seq<usize>) -> Seq<usize> {
    order.map_values(|k: usize| s.stations[k as int].inst)
}

/// The instruction issued from `s`, if any.
pub open spec fn issued_inst(s: PlatformView) -> Option<usize> {
    if issue_target(s) is Some {
        Some(s.regs[PC_REG as int] as usize)
    } else {
        None
    }
}

/// `t` is what the cycle from `s` reports.
pub open spec fn step_trace(s: PlatformView, t: StepTraceView) -> bool {
    let s1 = write_back_spec(s);
    &&& t.written_back == written_back_upto(s, RES_COUNT as nat)
    &&& exists|order: Seq<usize>| dispatch_order(s1, order) && t.executed == insts_of(s1, order)
    &&& t.issued == issued_inst(after_exec(s))
    &&& t.readied == readied_upto(after_issue(s), RES_COUNT as nat)
}

/// A write-back phase that does not fail fails at no station.
pub proof fn lemma_no_write_back_trap(s: PlatformView)
    requires
        !write_back_traps(s),
    ensures
        forall|j: int| 0 <= j < RES_COUNT ==> !#[trigger] write_back_traps_at(write_back_upto(s, j as nat), j),
{
    assert forall|j: int| 0 <= j < RES_COUNT implies !#[trigger] write_back_traps_at(write_back_upto(s, j as nat), j) by {
        if write_back_traps_at(write_back_upto(s, j as nat), j) {
            assert(write_back_traps(s));
        }
    }
}

pub proof fn lemma_step_phases_wf(s: PlatformView)
    requires
        platform_wf(s),
        !step_traps(s),
    ensures
        platform_wf(write_back_spec(s)),
        platform_wf(after_exec(s)),
        platform_wf(after_issue(s)),
        platform_wf(step_spec(s)),
{
    lemma_no_write_back_trap(s);
    lemma_write_back_upto_wf(s, RES_COUNT as nat);
    lemma_dispatch_wf(write_back_spec(s));
    lemma_tick_upto_wf(dispatch_spec(write_back_spec(s)), RES_COUNT as nat);
    lemma_issue_wf(after_exec(s));
    lemma_check_ready_wf(after_issue(s));
}

pub proof fn lemma_step_keeps_clock(s: PlatformView)
    requires
        platform_wf(s),
        !step_traps(s),
    ensures
        check_ready_spec(after_issue(s)).clock == s.clock,
{
    lemma_step_phases_wf(s);
    lemma_no_write_back_trap(s);
    lemma_write_back_upto_wf(s, RES_COUNT as nat);
    lemma_tick_upto_wf(dispatch_spec(write_back_spec(s)), RES_COUNT as nat);
}

// ---------------------------------------------------------------------------
// Loading the program
// ---------------------------------------------------------------------------

/// The position, from `k` on, of the first instruction type named `name`.
pub open spec fn type_named_from(types: Seq<InstructionType>, name: Seq<char>, k: int) -> Option<int>
    decreases types.len() - k,
{
    if k < 0 || k >= types.len() {
        None
    } else if types[k].name@ == name {
        Some(k)
    } else {
        type_named_from(types, name, k + 1)
    }
}

/// The position of the instruction type named `name`, if there is one.
pub open spec fn type_named(types: Seq<InstructionType>, name: Seq<char>) -> Option<int> {
    type_named_from(types, name, 0)
}

/// The mnemonic of a program line: the text before its first comma.
pub open spec fn line_mnemonic(line: Seq<char>) -> Seq<char> {
    split_commas(line)[0]
}

/// The operands of a program line: its comma-separated pieces after the first.
pub open spec fn line_operands(line: Seq<char>) -> Seq<Seq<char>> {
    split_commas(line).drop_first()
}

/// Loading `line` would fail: its mnemonic is known, and one of its operands
/// is not a number.
pub open spec fn load_traps(s: PlatformView, line: Seq<char>) -> bool {
    &&& type_named(s.types, line_mnemonic(line)) is Some
    &&& exists|j: int| 0 <= j < line_operands(line).len() && #[trigger] operand_value(line_operands(line)[j]) is None
}

/// The operands of the instruction `line` writes for type `t`: the numbers of
/// its operands, and for a jump the program counter twice more (as the
/// register read and the register written).
pub open spec fn loaded_params(t: InstructionType, line: Seq<char>) -> Seq<i32> {
    let ops = line_operands(line);
    let vals = Seq::new(ops.len(), |j: int| operand_value(ops[j])->Some_0 as i32);
    if t.name@ == seq!['J', 'U', 'M', 'P'] {
        vals + seq![PC_REG as i32, PC_REG as i32]
    } else {
        vals
    }
}

/// Loading `line`: an unknown mnemonic is refused (with the mnemonic), a known
/// one appends the instruction to the program.
pub open spec fn load_spec(s: PlatformView, line: Seq<char>) -> Result<PlatformView, Seq<char>> {
    match type_named(s.types, line_mnemonic(line)) {
        None => Err(line_mnemonic(line)),
        Some(k) => {
            let t = s.types[k];
            Ok(
                PlatformView {
                    insts: s.insts.push(
                        InstructionView {
                            inst_type: t,
                            param: loaded_params(t, line),
                            issue_time: -1i32,
                            exec_time: -1i32,
                            write_back_time: -1i32,
                            time_left: t.cycles,
                        },
                    ),
                    ..s
                },
            )
        },
    }
}

pub proof fn lemma_type_named_from(types: Seq<InstructionType>, name: Seq<char>, k: int)
    requires
        0 <= k,
    ensures
        type_named_from(types, name, k) matches Some(q) ==> k <= q < types.len() && types[q].name@ == name,
        type_named_from(types, name, k) is None ==> forall|q: int| k <= q < types.len() ==> #[trigger] types[q].name@ != name,
    decreases types.len() - k,
{
    if 0 <= k < types.len() && types[k].name@ != name {
        lemma_type_named_from(types, name, k + 1);
    }
}

pub proof fn lemma_load_wf(s: PlatformView, line: Seq<char>)
    requires
        platform_wf(s),
    ensures
        load_spec(s, line) matches Ok(t) ==> platform_wf(t),
{
    lemma_type_named_from(s.types, line_mnemonic(line), 0);
    if let Ok(t) = load_spec(s, line) {
        let k = type_named(s.types, line_mnemonic(line))->Some_0;
        assert(stations_usable(s.types[k]));
        assert forall|n: int| 0 <= n < t.insts.len() implies stations_usable(#[trigger] t.insts[n].inst_type) by {
            if n < s.insts.len() {
                assert(stations_usable(s.insts[n].inst_type));
            }
        }
        assert forall|i: int| 0 <= i < RES_COUNT implies station_consistent(#[trigger] t.stations[i], t.insts) by {
            let st = s.stations[i];
            assert(station_consistent(st, s.insts));
            if st.state != StationState::IDLE {
                assert(t.insts[st.inst as int] == s.insts[st.inst as int]);
            }
        }
    }
}

} // verus!
