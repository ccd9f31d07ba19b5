//! Programs that never write the program counter run to their end: every
//! cycle lowers a measure of the work left until the program has finished.
use vstd::prelude::*;
use vstd::set_lib::lemma_set_empty_equivalency_len;
use crate::instruction::InstructionView;
use crate::laws::{
    admitted_in, dest_known, finished, law_renaming_initially, law_renaming_load, law_renaming_step,
    law_step_keeps_recorded_cycles, law_units_initially, law_units_load, law_units_step,
    lemma_admitted_count, lemma_after_exec_sound, renaming_sound, times_kept, units_accounted,
    units_in_use,
};
use crate::platform::initial_platform;
use crate::queue::lemma_station_set_finite;
use crate::reserve_station::{all_tags_resolved, cleaned, fresh_station, StationState, StationView};
use crate::semantics::{
    admitted, after_exec, after_issue, check_one, current_inst, dest_reg, dispatch_spec,
    first_idle_from, group_of, heard, issue_operand, issue_spec, issue_target, jump_pending,
    lemma_dispatch_wf, lemma_first_idle_from, lemma_load_wf, lemma_no_write_back_trap,
    lemma_step_keeps_clock, lemma_step_phases_wf, lemma_tick_upto_wf, lemma_type_named_from, lemma_write_back_upto_wf,
    line_mnemonic, listened, load_spec, operand_reg, pc_in_program, platform_wf, station_consistent,
    stations_usable, step_spec, step_traps, tick_upto, type_named, waiting_in, write_back_one,
    write_back_spec, write_back_traps_at, write_back_upto, PlatformView, PC_REG, RES_COUNT,
};

verus! {

/// `inst` does not write the program counter.
pub open spec fn keeps_pc(inst: InstructionView) -> bool {
    inst.inst_type.dest < inst.param.len() ==> operand_reg(inst, inst.inst_type.dest as int) != PC_REG
}

/// No instruction of the program writes the program counter (there is no
/// jump in it).
pub open spec fn never_jumps(insts: Seq<InstructionView>) -> bool {
    forall|n: int| 0 <= n < insts.len() ==> keeps_pc(#[trigger] insts[n])
}

/// Station `i` waits for station `x`, which holds an instruction that came
/// before its own.
pub open spec fn waits_on_earlier(s: PlatformView, i: int, x: usize) -> bool {
    &&& x < RES_COUNT
    &&& s.stations[x as int].state != StationState::IDLE
    &&& s.stations[x as int].inst < s.stations[i].inst
}

/// Station `i` holds an instruction already issued, which writes a register
/// other than the program counter; once ready or executing it has between one
/// and forty cycles left; while issued it still waits for an operand, and only
/// for stations holding earlier instructions.
pub open spec fn station_on_track(s: PlatformView, i: int) -> bool {
    let st = s.stations[i];
    &&& st.state != StationState::IDLE ==> (st.inst as int) < (s.regs[PC_REG as int] as int)
    &&& st.state != StationState::IDLE ==> dest_reg(s, st) != PC_REG
    &&& (st.state == StationState::READY || st.state == StationState::EXEC) ==> 1 <= st.time_left <= 40
    &&& st.state == StationState::ISSUE ==> {
        &&& !all_tags_resolved(st.tags)
        &&& forall|j: int|
            0 <= j < st.tags.len() && (#[trigger] st.tags[j]) is Some ==> waits_on_earlier(s, i, st.tags[j]->Some_0)
    }
}

/// A platform running a program without jumps, between two cycles: the
/// invariants of the simulator hold, the bus is silent, the program counter
/// lies between the start and the end of the program, and every station is on
/// track.
pub open spec fn winds_down(s: PlatformView) -> bool {
    &&& platform_wf(s)
    &&& units_accounted(s)
    &&& renaming_sound(s)
    &&& s.results == Map::<usize, i32>::empty()
    &&& never_jumps(s.insts)
    &&& s.insts.len() <= i32::MAX
    &&& 0 <= s.regs[PC_REG as int] <= s.insts.len()
    &&& forall|n: int| 0 <= n < s.insts.len() ==> 1 <= #[trigger] s.insts[n].time_left <= 40
    &&& forall|i: int| 0 <= i < RES_COUNT ==> #[trigger] station_on_track(s, i)
}

/// The work a station still has to do, in phases of at most one cycle each.
pub open spec fn station_weight(st: StationView) -> int {
    match st.state {
        StationState::IDLE => 0,
        StationState::ISSUE => 43,
        StationState::READY => 42,
        StationState::EXEC => st.time_left + 1,
        StationState::WRITE_BACK => 1,
    }
}

/// The work left in the first `n` stations.
pub open spec fn weight_upto(stations: Seq<StationView>, n: nat) -> int
    decreases n,
{
    if n == 0 {
        0
    } else {
        weight_upto(stations, (n - 1) as nat) + station_weight(stations[n - 1])
    }
}

/// The work left: 44 cycles for each instruction not issued yet, and what
/// each station still has to do.
pub open spec fn work_left(s: PlatformView) -> int {
    44 * (s.insts.len() - s.regs[PC_REG as int]) + weight_upto(s.stations, RES_COUNT as nat)
}

/// A station after the write-back phase.
pub open spec fn written_back_station(st: StationView) -> StationView {
    if st.state == StationState::WRITE_BACK {
        cleaned(st)
    } else {
        st
    }
}

/// A station after one cycle of execution.
pub open spec fn ticked_station(st: StationView) -> StationView {
    if st.state != StationState::EXEC {
        st
    } else if st.time_left.wrapping_sub(1) != 0 {
        StationView { time_left: st.time_left.wrapping_sub(1), ..st }
    } else {
        StationView { time_left: 0, state: StationState::WRITE_BACK, ..st }
    }
}

proof fn lemma_write_back_upto_stations(s: PlatformView, k: nat)
    requires
        platform_wf(s),
        k <= RES_COUNT,
        forall|j: int| 0 <= j < k ==> !#[trigger] write_back_traps_at(write_back_upto(s, j as nat), j),
    ensures
        forall|i: int|
            0 <= i < RES_COUNT ==> #[trigger] write_back_upto(s, k).stations[i] == if i < k {
                written_back_station(s.stations[i])
            } else {
                s.stations[i]
            },
        write_back_upto(s, k).stations.len() == RES_COUNT,
    decreases k,
{
    if k > 0 {
        lemma_write_back_upto_stations(s, (k - 1) as nat);
        lemma_write_back_upto_wf(s, (k - 1) as nat);
    }
}

proof fn lemma_tick_upto_stations(d: PlatformView, k: nat)
    requires
        platform_wf(d),
        k <= RES_COUNT,
    ensures
        forall|i: int|
            0 <= i < RES_COUNT ==> #[trigger] tick_upto(d, k).stations[i] == if i < k {
                ticked_station(d.stations[i])
            } else {
                d.stations[i]
            },
    decreases k,
{
    if k > 0 {
        lemma_tick_upto_stations(d, (k - 1) as nat);
        lemma_tick_upto_wf(d, (k - 1) as nat);
    }
}

proof fn lemma_write_back_upto_results(s: PlatformView, k: nat)
    requires
        platform_wf(s),
        k <= RES_COUNT,
        forall|j: int| 0 <= j < k ==> !#[trigger] write_back_traps_at(write_back_upto(s, j as nat), j),
    ensures
        forall|x: int|
            0 <= x < k && (#[trigger] s.stations[x]).state == StationState::WRITE_BACK
                ==> write_back_upto(s, k).results.contains_key(x as usize),
    decreases k,
{
    if k > 0 {
        let p = write_back_upto(s, (k - 1) as nat);
        lemma_write_back_upto_results(s, (k - 1) as nat);
        lemma_write_back_upto_stations(s, (k - 1) as nat);
        assert(p.stations[k - 1] == s.stations[k - 1]);
        assert forall|x: int|
            0 <= x < k && (#[trigger] s.stations[x]).state == StationState::WRITE_BACK
                implies write_back_upto(s, k).results.contains_key(x as usize) by {
            if x < k - 1 {
                assert(p.results.contains_key(x as usize));
            }
        }
    }
}

proof fn lemma_write_back_upto_pc(s: PlatformView, k: nat)
    requires
        platform_wf(s),
        k <= RES_COUNT,
        forall|j: int| 0 <= j < k ==> !#[trigger] write_back_traps_at(write_back_upto(s, j as nat), j),
        forall|i: int|
            0 <= i < RES_COUNT && (#[trigger] s.stations[i]).state != StationState::IDLE ==> dest_reg(s, s.stations[i])
                != PC_REG,
    ensures
        write_back_upto(s, k).regs[PC_REG as int] == s.regs[PC_REG as int],
    decreases k,
{
    if k > 0 {
        let p = write_back_upto(s, (k - 1) as nat);
        lemma_write_back_upto_pc(s, (k - 1) as nat);
        lemma_write_back_upto_stations(s, (k - 1) as nat);
        lemma_write_back_upto_wf(s, (k - 1) as nat);
        let st = s.stations[k - 1];
        assert(p.stations[k - 1] == st);
        if st.state == StationState::WRITE_BACK {
            assert(p.insts[st.inst as int].inst_type == s.insts[st.inst as int].inst_type);
            assert(dest_reg(p, st) == dest_reg(s, st));
            assert(dest_reg(s, s.stations[k - 1]) != PC_REG);
            assert(!write_back_traps_at(write_back_upto(s, (k - 1) as nat), k - 1));
            let q = write_back_one(p, k - 1);
            assert(q.regs[PC_REG as int] == p.regs[PC_REG as int]);
        }
    }
}

/// What a cycle does, phase by phase, to each station, to the bus and to the
/// program counter.
spec fn cycle_facts(s: PlatformView) -> bool {
    let s1 = write_back_spec(s);
    let d = dispatch_spec(s1);
    let s2 = after_exec(s);
    &&& platform_wf(s1)
    &&& platform_wf(d)
    &&& platform_wf(s2)
    &&& platform_wf(after_issue(s))
    &&& platform_wf(step_spec(s))
    &&& renaming_sound(s2)
    &&& renaming_sound(after_issue(s))
    &&& units_accounted(s1)
    &&& forall|i: int| 0 <= i < RES_COUNT ==> #[trigger] s1.stations[i] == written_back_station(s.stations[i])
    &&& forall|i: int| 0 <= i < RES_COUNT ==> #[trigger] s2.stations[i] == ticked_station(d.stations[i])
    &&& forall|x: int|
        0 <= x < RES_COUNT && (#[trigger] s.stations[x]).state == StationState::WRITE_BACK
            ==> s2.results.contains_key(x as usize)
    &&& s2.regs[PC_REG as int] == s.regs[PC_REG as int]
    &&& s2.insts.len() == s.insts.len()
    &&& forall|n: int| 0 <= n < s.insts.len() ==> (#[trigger] s2.insts[n]).inst_type == s.insts[n].inst_type
        && s2.insts[n].param == s.insts[n].param
    &&& times_kept(s.insts, step_spec(s).insts)
}

/// What check ready does to station `i`: it keeps the instruction, whether
/// the station is idle, and the destination operand; only an issued station
/// changes, staying issued with fewer tags or becoming ready.
proof fn lemma_check_one(s: PlatformView, i: int)
    requires
        platform_wf(s),
        0 <= i < RES_COUNT,
        dest_known(s, i),
    ensures
        ({
            let st = s.stations[i];
            let c = check_one(s, i);
            &&& c.inst == st.inst
            &&& (c.state == StationState::IDLE <==> st.state == StationState::IDLE)
            &&& st.state != StationState::ISSUE ==> c == st
            &&& st.state == StationState::ISSUE ==> {
                &&& c.state == StationState::ISSUE || c.state == StationState::READY
                &&& c.state == StationState::ISSUE ==> c == listened(s, st) && !all_tags_resolved(c.tags)
                &&& c.state == StationState::READY ==> c.time_left == 1 || c.time_left
                    == s.insts[st.inst as int].time_left
                &&& c.tags.len() == st.tags.len()
                &&& forall|j: int|
                    0 <= j < c.tags.len() && (#[trigger] c.tags[j]) is Some ==> st.tags[j] == c.tags[j]
                        && !s.results.contains_key(c.tags[j]->Some_0)
            }
            &&& st.state != StationState::IDLE ==> dest_reg(s, c) == dest_reg(s, st)
        }),
{
    let st = s.stations[i];
    assert(station_consistent(st, s.insts));
    if st.state == StationState::ISSUE {
        let l = listened(s, st);
        let dd = s.insts[st.inst as int].inst_type.dest as int;
        assert(st.params[dd] is None <==> st.tags[dd] is Some);
        assert(l.params[dd] == heard(s, st, dd).0);
        assert(l.params[dd] == st.params[dd]);
        let c = check_one(s, i);
        assert forall|j: int|
            0 <= j < c.tags.len() && (#[trigger] c.tags[j]) is Some implies st.tags[j] == c.tags[j]
                && !s.results.contains_key(c.tags[j]->Some_0) by {
            assert(c.tags[j] == l.tags[j]);
            assert(l.tags[j] == heard(s, st, j).1);
        }
    }
}


proof fn lemma_cycle_facts(s: PlatformView)
    requires
        winds_down(s),
        !step_traps(s),
    ensures
        cycle_facts(s),
{
    lemma_step_phases_wf(s);
    lemma_no_write_back_trap(s);
    lemma_after_exec_sound(s);
    let s1 = write_back_spec(s);
    let d = dispatch_spec(s1);
    lemma_write_back_upto_wf(s, RES_COUNT as nat);
    lemma_write_back_upto_stations(s, RES_COUNT as nat);
    lemma_write_back_upto_results(s, RES_COUNT as nat);
    assert forall|i: int|
        0 <= i < RES_COUNT && (#[trigger] s.stations[i]).state != StationState::IDLE implies dest_reg(s, s.stations[i])
            != PC_REG by {
        assert(station_on_track(s, i));
    }
    lemma_write_back_upto_pc(s, RES_COUNT as nat);
    lemma_dispatch_wf(s1);
    lemma_tick_upto_wf(d, RES_COUNT as nat);
    lemma_tick_upto_stations(d, RES_COUNT as nat);
    law_step_keeps_recorded_cycles(s);
    let s2 = after_exec(s);
    assert forall|n: int| 0 <= n < s.insts.len() implies (#[trigger] s2.insts[n]).inst_type == s.insts[n].inst_type
        && s2.insts[n].param == s.insts[n].param by {
        assert(s1.insts[n].inst_type == s.insts[n].inst_type);
        assert(d.insts[n] == s1.insts[n]);
        assert(s2.insts[n].inst_type == d.insts[n].inst_type);
    }
}

/// A station holding an instruction after write back and execute held the
/// same instruction before them, and was not about to write back.
proof fn lemma_slot_back(s: PlatformView, x: int)
    requires
        cycle_facts(s),
        0 <= x < RES_COUNT,
        after_exec(s).stations[x].state != StationState::IDLE,
    ensures
        s.stations[x].state != StationState::IDLE,
        s.stations[x].state != StationState::WRITE_BACK,
        after_exec(s).stations[x].inst == s.stations[x].inst,
{
    let s1 = write_back_spec(s);
    let d = dispatch_spec(s1);
    assert(after_exec(s).stations[x] == ticked_station(d.stations[x]));
    assert(s1.stations[x] == written_back_station(s.stations[x]));
}

/// A station that holds an instruction and is not about to write back still
/// holds it after write back and execute.
proof fn lemma_slot_forward(s: PlatformView, x: int)
    requires
        cycle_facts(s),
        0 <= x < RES_COUNT,
        s.stations[x].state != StationState::IDLE,
        s.stations[x].state != StationState::WRITE_BACK,
    ensures
        after_exec(s).stations[x].state != StationState::IDLE,
        after_exec(s).stations[x].inst == s.stations[x].inst,
{
    let s1 = write_back_spec(s);
    let d = dispatch_spec(s1);
    assert(after_exec(s).stations[x] == ticked_station(d.stations[x]));
    assert(s1.stations[x] == written_back_station(s.stations[x]));
}

/// Issue changes only the station it fills, which was idle, and leaves the
/// bus as it was.
proof fn lemma_issue_slot(e: PlatformView)
    requires
        platform_wf(e),
    ensures
        issue_spec(e).results == e.results,
        issue_spec(e).insts.len() == e.insts.len(),
        forall|x: int|
            0 <= x < RES_COUNT && issue_target(e) != Some(x as usize) ==> #[trigger] issue_spec(e).stations[x]
                == e.stations[x],
        issue_target(e) is None ==> issue_spec(e).regs == e.regs,
        issue_target(e) matches Some(k) ==> {
            &&& k < RES_COUNT
            &&& e.stations[k as int].state == StationState::IDLE
            &&& 0 <= e.regs[PC_REG as int] < e.insts.len()
            &&& issue_spec(e).regs[PC_REG as int] == e.regs[PC_REG as int].wrapping_add(1)
        },
{
    if let Some(k) = issue_target(e) {
        let p = e.regs[PC_REG as int] as int;
        let cands = current_inst(e).inst_type.stations@;
        lemma_first_idle_from(e, cands, 0);
        let m = first_idle_from(e, cands, 0)->Some_0;
        assert(stations_usable(e.insts[p].inst_type));
        assert(cands[m] < RES_COUNT);
    }
}

/// A station that holds an instruction and is not about to write back still
/// holds it at the end of the cycle.
proof fn lemma_slot_through(s: PlatformView, x: int)
    requires
        cycle_facts(s),
        0 <= x < RES_COUNT,
        s.stations[x].state != StationState::IDLE,
        s.stations[x].state != StationState::WRITE_BACK,
    ensures
        step_spec(s).stations[x].state != StationState::IDLE,
        step_spec(s).stations[x].inst == s.stations[x].inst,
{
    let s2 = after_exec(s);
    let s3 = after_issue(s);
    lemma_slot_forward(s, x);
    lemma_issue_slot(s2);
    assert(s3.stations[x] == s2.stations[x]);
    assert(dest_known(s3, x));
    lemma_check_one(s3, x);
    assert(step_spec(s).stations[x] == check_one(s3, x));
}

/// A station that holds an instruction at the end of a cycle: what it held
/// at the start.
proof fn lemma_station_cycle(s: PlatformView, i: int)
    requires
        winds_down(s),
        cycle_facts(s),
        0 <= i < RES_COUNT,
    ensures
        station_on_track(step_spec(s), i),
        issue_target(after_exec(s)) == Some(i as usize) ==> station_weight(step_spec(s).stations[i]) <= 43,
        issue_target(after_exec(s)) != Some(i as usize) ==> {
            &&& station_weight(step_spec(s).stations[i]) <= station_weight(s.stations[i])
            &&& station_advances(s, i) ==> station_weight(step_spec(s).stations[i])
                < station_weight(s.stations[i])
        },
{
    let s1 = write_back_spec(s);
    let d = dispatch_spec(s1);
    let s2 = after_exec(s);
    let s3 = after_issue(s);
    let t = step_spec(s);
    let st = s.stations[i];
    let pc = s.regs[PC_REG as int];
    lemma_issue_slot(s2);
    assert(t.stations[i] == check_one(s3, i));
    assert(dest_known(s3, i));
    lemma_check_one(s3, i);
    assert(station_on_track(s, i));
    assert(s1.stations[i] == written_back_station(st));
    assert(s2.stations[i] == ticked_station(d.stations[i]));
    assert(t.regs == s3.regs && t.insts == s3.insts);
    assert(pc <= t.regs[PC_REG as int]);
    let c = t.stations[i];
    if issue_target(s2) == Some(i as usize) {
        let inst = current_inst(s2);
        let ns = s3.stations[i];
        let dd = inst.inst_type.dest as int;
        assert(t.regs[PC_REG as int] == pc + 1);
        assert(ns.inst == pc as usize);
        assert(s.insts[pc as int].inst_type == inst.inst_type && s.insts[pc as int].param == inst.param);
        assert(keeps_pc(s.insts[pc as int]));
        assert(station_consistent(ns, s3.insts));
        assert(s3.insts[pc as int].inst_type == inst.inst_type);
        assert(ns.params[dd] == issue_operand(s2, inst, dd).0);
        assert(dest_reg(t, c) != PC_REG);
        assert(1 <= s.insts[pc as int].time_left <= 40);
        assert forall|j: int| 0 <= j < c.tags.len() && (#[trigger] c.tags[j]) is Some implies waits_on_earlier(
            t,
            i,
            c.tags[j]->Some_0,
        ) by {
            let x = c.tags[j]->Some_0;
            assert(ns.tags[j] == issue_operand(s2, inst, j).1);
            let r = operand_reg(inst, j);
            assert(s2.busy.contains_key(r) && s2.busy[r] == x);
            assert(x < RES_COUNT && s2.stations[x as int].state != StationState::IDLE);
            lemma_slot_back(s, x as int);
            assert(station_on_track(s, x as int));
            lemma_slot_through(s, x as int);
        }
    } else {
        assert(s3.stations[i] == s2.stations[i]);
        if st.state == StationState::ISSUE {
            assert(s2.stations[i] == st);
            assert forall|j: int| 0 <= j < c.tags.len() && (#[trigger] c.tags[j]) is Some implies waits_on_earlier(
                t,
                i,
                c.tags[j]->Some_0,
            ) by {
                let x = c.tags[j]->Some_0;
                assert(st.tags[j] == c.tags[j]);
                assert(waits_on_earlier(s, i, x));
                assert(!s2.results.contains_key(x));
                lemma_slot_through(s, x as int);
            }
        }
    }
}

proof fn lemma_weight_sum(a: Seq<StationView>, b: Seq<StationView>, n: nat, k: int, j: int)
    requires
        n <= a.len(),
        n <= b.len(),
        forall|i: int| 0 <= i < n && i != k ==> station_weight(#[trigger] b[i]) <= station_weight(a[i]),
        0 <= k < n ==> station_weight(b[k]) <= station_weight(a[k]) + 43,
    ensures
        weight_upto(b, n) <= weight_upto(a, n) + (if 0 <= k < n { 43int } else { 0int }),
        0 <= j < n && j != k && station_weight(b[j]) < station_weight(a[j]) ==> weight_upto(b, n)
            < weight_upto(a, n) + (if 0 <= k < n { 43int } else { 0int }),
    decreases n,
{
    if n > 0 {
        lemma_weight_sum(a, b, (n - 1) as nat, k, j);
        if n - 1 != k {
            assert(station_weight(b[n - 1]) <= station_weight(a[n - 1]));
        }
    }
}

proof fn lemma_weight_bounds(s: PlatformView, n: nat)
    requires
        winds_down(s),
        n <= RES_COUNT,
    ensures
        0 <= weight_upto(s.stations, n) <= 43 * n,
    decreases n,
{
    if n > 0 {
        lemma_weight_bounds(s, (n - 1) as nat);
        assert(station_on_track(s, n - 1));
    }
}

/// When every station holding an instruction is issued, none of them holds
/// an instruction before `n`: each waits for a station with an earlier one.
proof fn lemma_no_issue_below(s: PlatformView, n: nat)
    requires
        winds_down(s),
        forall|i: int| 0 <= i < RES_COUNT ==> #[trigger] s.stations[i].state == StationState::IDLE
            || s.stations[i].state == StationState::ISSUE,
    ensures
        forall|i: int| 0 <= i < RES_COUNT && #[trigger] s.stations[i].state == StationState::ISSUE ==> s.stations[i].inst >= n,
    decreases n,
{
    if n > 0 {
        lemma_no_issue_below(s, (n - 1) as nat);
        assert forall|i: int| 0 <= i < RES_COUNT && #[trigger] s.stations[i].state == StationState::ISSUE implies s.stations[i].inst >= n by {
            let st = s.stations[i];
            assert(station_on_track(s, i));
            if st.inst < n {
                let j = choose|j: int| 0 <= j < st.tags.len() && !(#[trigger] st.tags[j] is None);
                let x = st.tags[j]->Some_0;
                assert(waits_on_earlier(s, i, x));
                assert(s.stations[x as int].state == StationState::ISSUE);
            }
        }
    }
}

/// Between two cycles the work left is never negative.
pub proof fn lemma_work_left_bounds(s: PlatformView)
    requires
        winds_down(s),
    ensures
        0 <= work_left(s) <= 44 * (s.insts.len() - s.regs[PC_REG as int]) + 43 * RES_COUNT,
{
    lemma_weight_bounds(s, RES_COUNT as nat);
}

/// Station `j` moves on in the next cycle whatever else happens: it executes,
/// writes back, or gets a functional unit.
spec fn station_advances(s: PlatformView, j: int) -> bool {
    ||| s.stations[j].state == StationState::EXEC
    ||| s.stations[j].state == StationState::WRITE_BACK
    ||| admitted(write_back_spec(s), j)
}

/// A cycle of a program without jumps that does not fail keeps it winding
/// down, and never adds to the work left.
proof fn lemma_step_winds_down(s: PlatformView)
    requires
        winds_down(s),
        !step_traps(s),
    ensures
        winds_down(step_spec(s)),
        work_left(step_spec(s)) <= work_left(s),
        issue_target(after_exec(s)) is Some ==> work_left(step_spec(s)) < work_left(s),
        (exists|j: int| 0 <= j < RES_COUNT && #[trigger] station_advances(s, j)) ==> work_left(step_spec(s))
            < work_left(s),
{
    lemma_cycle_facts(s);
    law_units_step(s);
    law_renaming_step(s);
    let s2 = after_exec(s);
    let t = step_spec(s);
    lemma_issue_slot(s2);
    let pc = s.regs[PC_REG as int];
    assert forall|i: int| 0 <= i < RES_COUNT implies #[trigger] station_on_track(t, i) by {
        lemma_station_cycle(s, i);
    }
    assert(t.regs == after_issue(s).regs);
    assert forall|n: int| 0 <= n < t.insts.len() implies 1 <= #[trigger] t.insts[n].time_left <= 40 by {
        assert(t.insts[n].time_left == s.insts[n].time_left);
    }
    assert forall|n: int| 0 <= n < t.insts.len() implies keeps_pc(#[trigger] t.insts[n]) by {
        assert(keeps_pc(s.insts[n]));
        assert(t.insts[n].inst_type == s.insts[n].inst_type);
    }
    let k: int = match issue_target(s2) {
        Some(k) => k as int,
        None => -1,
    };
    assert forall|i: int| 0 <= i < RES_COUNT && i != k implies station_weight(#[trigger] t.stations[i])
        <= station_weight(s.stations[i]) by {
        lemma_station_cycle(s, i);
    }
    if 0 <= k {
        lemma_station_cycle(s, k);
    }
    lemma_weight_sum(s.stations, t.stations, RES_COUNT as nat, k, -1);
    if exists|j: int| 0 <= j < RES_COUNT && #[trigger] station_advances(s, j) {
        let j = choose|j: int| 0 <= j < RES_COUNT && #[trigger] station_advances(s, j);
        lemma_station_cycle(s, j);
        if j != k {
            lemma_weight_sum(s.stations, t.stations, RES_COUNT as nat, k, j);
        }
    }
}

/// A cycle of a program without jumps that has not finished and does not
/// fail lowers the work left.
proof fn lemma_step_makes_progress(s: PlatformView)
    requires
        winds_down(s),
        !step_traps(s),
        !finished(s),
    ensures
        work_left(step_spec(s)) < work_left(s),
{
    lemma_cycle_facts(s);
    lemma_step_winds_down(s);
    let s1 = write_back_spec(s);
    let s2 = after_exec(s);
    if issue_target(s2) is None && !exists|j: int| 0 <= j < RES_COUNT && #[trigger] station_advances(s, j) {
        assert forall|i: int| 0 <= i < RES_COUNT implies s1.stations[i] == s.stations[i] by {
            assert(!station_advances(s, i));
            assert(s1.stations[i] == written_back_station(s.stations[i]));
        }
        if exists|j: int| 0 <= j < RES_COUNT && #[trigger] s.stations[j].state == StationState::READY {
            let j = choose|j: int| 0 <= j < RES_COUNT && #[trigger] s.stations[j].state == StationState::READY;
            let g = group_of(j) as int;
            assert(s1.stations[j].belong == group_of(j));
            assert(units_in_use(s1, g) =~= Set::<int>::empty()) by {
                assert forall|i: int| !#[trigger] units_in_use(s1, g).contains(i) by {
                    if 0 <= i < RES_COUNT {
                        assert(!station_advances(s, i));
                    }
                }
            }
            assert(s1.running[g] == 0);
            let w = waiting_in(s1, g);
            assert(w.contains(j));
            lemma_station_set_finite(w);
            lemma_set_empty_equivalency_len(w);
            lemma_admitted_count(s1, g);
            let a = admitted_in(s1, g);
            lemma_set_empty_equivalency_len(a);
            assert(a.len() > 0);
            assert(a != Set::<int>::empty());
            let x = choose|x: int| a.contains(x);
            assert(a.contains(x));
            assert(station_advances(s, x));
            assert(false);
        }
        if exists|j: int| 0 <= j < RES_COUNT && #[trigger] s.stations[j].state == StationState::ISSUE {
            let j = choose|j: int| 0 <= j < RES_COUNT && #[trigger] s.stations[j].state == StationState::ISSUE;
            assert forall|i: int| 0 <= i < RES_COUNT implies #[trigger] s.stations[i].state == StationState::IDLE
                || s.stations[i].state == StationState::ISSUE by {
                assert(!station_advances(s, i));
            }
            lemma_no_issue_below(s, (s.stations[j].inst + 1) as nat);
            assert(false);
        }
        assert forall|i: int| 0 <= i < RES_COUNT implies #[trigger] s.stations[i].state == StationState::IDLE by {
            assert(!station_advances(s, i));
        }
        assert forall|i: int| 0 <= i < RES_COUNT implies #[trigger] s2.stations[i].state == StationState::IDLE by {
            if s2.stations[i].state != StationState::IDLE {
                lemma_slot_back(s, i);
            }
        }
        if jump_pending(s) {
            assert(s.stations[s.busy[PC_REG] as int].state != StationState::IDLE);
        }
        if jump_pending(s2) {
            assert(s2.stations[s2.busy[PC_REG] as int].state != StationState::IDLE);
        }
        assert(pc_in_program(s2));
        let p = s2.regs[PC_REG as int] as int;
        let cands = current_inst(s2).inst_type.stations@;
        assert(stations_usable(s2.insts[p].inst_type));
        assert(cands[0] < RES_COUNT);
        assert(s2.stations[cands[0] as int].state == StationState::IDLE);
        assert(first_idle_from(s2, cands, 0) == Some(0int));
        assert(false);
    }
}

/// A platform as it starts winds down.
pub proof fn law_winds_down_initially(s: PlatformView)
    requires
        initial_platform(s),
    ensures
        winds_down(s),
{
    law_units_initially(s);
    law_renaming_initially(s);
    assert forall|i: int| 0 <= i < RES_COUNT implies station_consistent(#[trigger] s.stations[i], s.insts) by {
        assert(s.stations[i] == fresh_station(group_of(i)));
    }
    assert forall|i: int| 0 <= i < RES_COUNT implies #[trigger] station_on_track(s, i) by {
        assert(s.stations[i] == fresh_station(group_of(i)));
    }
}

/// Loading a line that does not write the program counter keeps a platform
/// winding down, as long as the program counter can still reach the end of
/// the program.
pub proof fn law_winds_down_load(s: PlatformView, line: Seq<char>)
    requires
        winds_down(s),
    ensures
        load_spec(s, line) matches Ok(t) ==> (keeps_pc(t.insts.last()) && t.insts.len() <= i32::MAX
            ==> winds_down(t)),
{
    lemma_load_wf(s, line);
    law_units_load(s, line);
    law_renaming_load(s, line);
    if let Ok(t) = load_spec(s, line) {
        if keeps_pc(t.insts.last()) && t.insts.len() <= i32::MAX {
            lemma_type_named_from(s.types, line_mnemonic(line), 0);
            let k = type_named(s.types, line_mnemonic(line))->Some_0;
            assert(k < 6);
            assert forall|n: int| 0 <= n < t.insts.len() implies 1 <= #[trigger] t.insts[n].time_left <= 40 by {
                if n < s.insts.len() {
                    assert(t.insts[n] == s.insts[n]);
                }
            }
            assert forall|n: int| 0 <= n < t.insts.len() implies keeps_pc(#[trigger] t.insts[n]) by {
                if n < s.insts.len() {
                    assert(t.insts[n] == s.insts[n]);
                }
            }
            assert forall|i: int| 0 <= i < RES_COUNT implies #[trigger] station_on_track(t, i) by {
                assert(station_on_track(s, i));
                let st = s.stations[i];
                if st.state != StationState::IDLE {
                    assert(t.insts[st.inst as int] == s.insts[st.inst as int]);
                }
                if st.state == StationState::ISSUE {
                    assert forall|j: int| 0 <= j < st.tags.len() && (#[trigger] st.tags[j]) is Some
                        implies waits_on_earlier(t, i, st.tags[j]->Some_0) by {
                        assert(waits_on_earlier(s, i, st.tags[j]->Some_0));
                    }
                }
            }
        }
    }
}

/// A cycle that does not fail keeps a program without jumps winding down,
/// and until the program has finished it lowers the work left.
pub proof fn law_winds_down_step(s: PlatformView)
    requires
        winds_down(s),
        !step_traps(s),
    ensures
        winds_down(step_spec(s)),
        work_left(step_spec(s)) <= work_left(s),
        !finished(s) ==> work_left(step_spec(s)) < work_left(s),
{
    lemma_step_winds_down(s);
    if !finished(s) {
        lemma_step_makes_progress(s);
    }
}

/// The platform after `n` cycles.
pub open spec fn run(s: PlatformView, n: nat) -> PlatformView
    decreases n,
{
    if n == 0 {
        s
    } else {
        run(step_spec(s), (n - 1) as nat)
    }
}

/// The run from `s` ends within `n` cycles: after `n` cycles the program has
/// finished with the program counter at its end, or that cycle would fail.
pub open spec fn ends_within(s: PlatformView, n: nat) -> bool {
    let r = run(s, n);
    ||| step_traps(r)
    ||| finished(r) && r.regs[PC_REG as int] == r.insts.len()
}

/// A program without jumps runs to its end: from any platform winding down,
/// within as many cycles as the work left (at most 44 per instruction not yet
/// issued and 43 per station), every instruction has been issued and every
/// station is idle, unless a cycle fails first.
pub proof fn law_runs_to_end(s: PlatformView)
    requires
        winds_down(s),
    ensures
        exists|n: nat| n <= work_left(s) && #[trigger] ends_within(s, n),
        work_left(s) <= 44 * (s.insts.len() - s.regs[PC_REG as int]) + 43 * RES_COUNT,
    decreases work_left(s),
{
    lemma_work_left_bounds(s);
    if step_traps(s) || finished(s) {
        assert(ends_within(s, 0));
    } else {
        law_winds_down_step(s);
        let t = step_spec(s);
        lemma_work_left_bounds(t);
        law_runs_to_end(t);
        let n = choose|n: nat| n <= work_left(t) && #[trigger] ends_within(t, n);
        assert(run(s, n + 1) == run(t, n));
        assert(ends_within(s, n + 1));
    }
}

/// Every instruction before the program counter has its issue cycle
/// recorded.
pub open spec fn issued_before_pc(s: PlatformView) -> bool {
    forall|n: int| 0 <= n < s.regs[PC_REG as int] && n < s.insts.len() ==> #[trigger] s.insts[n].issue_time != -1
}

/// A platform as it starts has issued nothing.
pub proof fn law_issued_initially(s: PlatformView)
    requires
        initial_platform(s),
    ensures
        issued_before_pc(s),
{
}

/// Loading a line issues nothing, and the new instruction is not before the
/// program counter.
pub proof fn law_issued_load(s: PlatformView, line: Seq<char>)
    requires
        winds_down(s),
        issued_before_pc(s),
    ensures
        load_spec(s, line) matches Ok(t) ==> issued_before_pc(t),
{
    if let Ok(t) = load_spec(s, line) {
        assert forall|n: int| 0 <= n < t.regs[PC_REG as int] && n < t.insts.len() implies #[trigger] t.insts[n].issue_time
            != -1 by {
            assert(t.insts[n] == s.insts[n]);
        }
    }
}

/// A cycle records the issue cycle of the instruction it issues, unless the
/// clock no longer fits the recorded cycles.
proof fn lemma_step_issued(s: PlatformView)
    requires
        winds_down(s),
        issued_before_pc(s),
        !step_traps(s),
        s.clock < i32::MAX,
    ensures
        issued_before_pc(step_spec(s)),
{
    lemma_cycle_facts(s);
    lemma_step_winds_down(s);
    let s2 = after_exec(s);
    let s3 = after_issue(s);
    let t = step_spec(s);
    lemma_issue_slot(s2);
    lemma_step_keeps_clock(s);
    assert(t.insts == s3.insts && t.regs == s3.regs);
    assert forall|n: int| 0 <= n < t.regs[PC_REG as int] && n < t.insts.len() implies #[trigger] t.insts[n].issue_time
        != -1 by {
        if n < s.regs[PC_REG as int] {
            assert(s.insts[n].issue_time != -1);
        } else {
            assert(issue_target(s2) is Some);
            assert(n == s.regs[PC_REG as int]);
            assert(s2.clock == s.clock);
        }
    }
}

/// A program without jumps runs to its end with every instruction issued:
/// as in `law_runs_to_end`, and when it finishes every instruction has its
/// issue cycle recorded, as long as the clock stays within the range of the
/// recorded cycles.
pub proof fn law_runs_to_end_issued(s: PlatformView)
    requires
        winds_down(s),
        issued_before_pc(s),
        s.clock + work_left(s) < i32::MAX,
    ensures
        exists|n: nat|
            n <= work_left(s) && #[trigger] ends_within(s, n) && (finished(run(s, n)) ==> forall|m: int|
                0 <= m < run(s, n).insts.len() ==> #[trigger] run(s, n).insts[m].issue_time != -1),
    decreases work_left(s),
{
    lemma_work_left_bounds(s);
    if step_traps(s) || finished(s) {
        assert(ends_within(s, 0));
        assert(run(s, 0) == s);
    } else {
        lemma_step_winds_down(s);
        lemma_step_makes_progress(s);
        lemma_step_issued(s);
        let t = step_spec(s);
        lemma_step_keeps_clock(s);
        assert(t.clock == s.clock + 1);
        lemma_work_left_bounds(t);
        law_runs_to_end_issued(t);
        let n = choose|n: nat|
            n <= work_left(t) && #[trigger] ends_within(t, n) && (finished(run(t, n)) ==> forall|m: int|
                0 <= m < run(t, n).insts.len() ==> #[trigger] run(t, n).insts[m].issue_time != -1);
        assert(run(s, n + 1) == run(t, n));
        assert(ends_within(s, n + 1));
    }
}

/// An executing station, or one that gets a functional unit in this cycle,
/// counts down one cycle per cycle: with more than one cycle left it is still
/// executing afterwards with one fewer, and with one left it moves to write
/// back, holding the same instruction.
pub proof fn law_exec_counts_down(s: PlatformView, i: int)
    requires
        platform_wf(s),
        !step_traps(s),
        0 <= i < RES_COUNT,
        s.stations[i].state == StationState::EXEC || admitted(write_back_spec(s), i),
        1 <= s.stations[i].time_left,
    ensures
        step_spec(s).stations[i].inst == s.stations[i].inst,
        s.stations[i].time_left > 1 ==> step_spec(s).stations[i].state == StationState::EXEC
            && step_spec(s).stations[i].time_left == s.stations[i].time_left - 1,
        s.stations[i].time_left == 1 ==> step_spec(s).stations[i].state == StationState::WRITE_BACK,
{
    lemma_step_phases_wf(s);
    lemma_no_write_back_trap(s);
    lemma_write_back_upto_stations(s, RES_COUNT as nat);
    let s1 = write_back_spec(s);
    let d = dispatch_spec(s1);
    lemma_dispatch_wf(s1);
    lemma_tick_upto_stations(d, RES_COUNT as nat);
    let s2 = after_exec(s);
    let s3 = after_issue(s);
    lemma_issue_slot(s2);
    assert(s1.stations[i] == written_back_station(s.stations[i]));
    assert(s2.stations[i] == ticked_station(d.stations[i]));
    assert(s3.stations[i] == s2.stations[i]);
    assert(step_spec(s).stations[i] == check_one(s3, i));
}

} // verus!
