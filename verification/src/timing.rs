//! The cycles recorded on each instruction: it finishes executing at least a
//! cycle after it was issued, and writes back exactly one cycle after it
//! finished executing.
use vstd::prelude::*;
use crate::instruction::InstructionView;
use crate::platform::initial_platform;
use crate::reserve_station::StationState;
use crate::semantics::{
    after_exec, after_issue, check_ready_spec, current_inst, dispatch_spec, first_idle_from,
    issue_spec, issue_target, lemma_dispatch_wf, lemma_first_idle_from, lemma_no_write_back_trap,
    lemma_step_phases_wf, lemma_tick_upto_wf, lemma_write_back_upto_wf, load_spec, platform_wf,
    station_consistent, stations_usable, step_spec, step_traps, tick_one, tick_upto, write_back_one,
    write_back_spec, write_back_traps_at, write_back_upto, PlatformView, PC_REG, RES_COUNT,
};

verus! {

/// `t` is unrecorded (`-1`) or a cycle before `clock`.
pub open spec fn recorded_before(t: i32, clock: int) -> bool {
    t == -1 || 0 <= t < clock
}

/// The cycles recorded on `inst` agree with each other: a write back is one
/// cycle after the end of execution, and execution ends at least one cycle
/// after the issue.
pub open spec fn cycles_consistent(inst: InstructionView) -> bool {
    &&& inst.write_back_time != -1 ==> inst.exec_time != -1 && inst.write_back_time == inst.exec_time + 1
    &&& inst.exec_time != -1 ==> inst.issue_time != -1 && inst.exec_time >= inst.issue_time + 1
}

/// `inst` finished executing and has not written back yet.
pub open spec fn awaits_write_back(inst: InstructionView) -> bool {
    inst.exec_time != -1 && inst.write_back_time == -1
}

/// Some station from `lo` on holds instruction `n` in `WRITE_BACK`.
pub open spec fn written_back_from(s: PlatformView, n: int, lo: int) -> bool {
    exists|j: int|
        lo <= j < RES_COUNT && (#[trigger] s.stations[j]).state == StationState::WRITE_BACK
            && s.stations[j].inst == n
}

/// The cycles recorded on the program are consistent, lie before the current
/// cycle, and an instruction that finished executing but has not written
/// back finished in the last cycle and waits in a station to write back.
pub open spec fn timing_ok(s: PlatformView) -> bool {
    &&& forall|n: int|
        0 <= n < s.insts.len() ==> {
            let inst = #[trigger] s.insts[n];
            &&& cycles_consistent(inst)
            &&& recorded_before(inst.issue_time, s.clock as int)
            &&& recorded_before(inst.exec_time, s.clock as int)
            &&& recorded_before(inst.write_back_time, s.clock as int)
            &&& awaits_write_back(inst) ==> inst.exec_time == s.clock - 1 && written_back_from(s, n, 0)
        }
    &&& forall|j: int|
        0 <= j < RES_COUNT && (#[trigger] s.stations[j]).state != StationState::IDLE ==> s.insts[s.stations[j].inst as int].issue_time
            != -1
    &&& forall|j: int|
        0 <= j < RES_COUNT && (#[trigger] s.stations[j]).state == StationState::WRITE_BACK ==> s.insts[s.stations[j].inst as int].exec_time
            != -1
}

proof fn lemma_write_back_upto_timing(s: PlatformView, k: nat)
    requires
        platform_wf(s),
        timing_ok(s),
        s.clock < i32::MAX,
        k <= RES_COUNT,
        forall|j: int| 0 <= j < k ==> !#[trigger] write_back_traps_at(write_back_upto(s, j as nat), j),
    ensures
        ({
            let t = write_back_upto(s, k);
            let c = s.clock as int;
            &&& t.insts.len() == s.insts.len()
            &&& forall|n: int|
                0 <= n < s.insts.len() ==> {
                    let a = #[trigger] t.insts[n];
                    &&& a.issue_time == s.insts[n].issue_time
                    &&& a.exec_time == s.insts[n].exec_time
                    &&& recorded_before(a.write_back_time, c + 1)
                    &&& cycles_consistent(a)
                    &&& awaits_write_back(a) ==> a.exec_time == c - 1 && written_back_from(s, n, k as int)
                }
            &&& forall|j: int|
                k <= j < RES_COUNT ==> #[trigger] t.stations[j] == s.stations[j]
            &&& forall|j: int|
                0 <= j < k ==> (#[trigger] t.stations[j]).state != StationState::WRITE_BACK
            &&& forall|j: int|
                0 <= j < RES_COUNT ==> #[trigger] t.stations[j] == s.stations[j] || t.stations[j].state == StationState::IDLE
        }),
    decreases k,
{
    let c = s.clock as int;
    if k == 0 {
        assert forall|n: int| 0 <= n < s.insts.len() implies {
            let a = #[trigger] s.insts[n];
            &&& recorded_before(a.write_back_time, c + 1)
            &&& (awaits_write_back(a) ==> a.exec_time == c - 1 && written_back_from(s, n, 0))
        } by {}
    } else {
        let p = write_back_upto(s, (k - 1) as nat);
        let t = write_back_upto(s, k);
        lemma_write_back_upto_timing(s, (k - 1) as nat);
        lemma_write_back_upto_wf(s, (k - 1) as nat);
        let i = k - 1;
        let st = p.stations[i];
        assert(st == s.stations[i]);
        if st.state == StationState::WRITE_BACK {
            let n0 = st.inst as int;
            assert(station_consistent(st, p.insts));
            assert(s.insts[n0].exec_time != -1);
            assert forall|n: int| 0 <= n < s.insts.len() implies {
                let a = #[trigger] t.insts[n];
                &&& a.issue_time == s.insts[n].issue_time
                &&& a.exec_time == s.insts[n].exec_time
                &&& recorded_before(a.write_back_time, c + 1)
                &&& cycles_consistent(a)
                &&& awaits_write_back(a) ==> a.exec_time == c - 1 && written_back_from(s, n, k as int)
            } by {
                let b = p.insts[n];
                if n == n0 {
                    if b.write_back_time == -1 {
                        assert(awaits_write_back(b));
                    }
                } else {
                    assert(t.insts[n] == b);
                    if awaits_write_back(b) {
                        let w = choose|w: int|
                            k - 1 <= w < RES_COUNT && (#[trigger] s.stations[w]).state == StationState::WRITE_BACK
                                && s.stations[w].inst == n;
                        assert(w != k - 1);
                    }
                }
            }
        } else {
            assert(t == p);
            assert forall|n: int| 0 <= n < s.insts.len() implies {
                let a = #[trigger] t.insts[n];
                awaits_write_back(a) ==> a.exec_time == c - 1 && written_back_from(s, n, k as int)
            } by {
                let b = p.insts[n];
                if awaits_write_back(b) {
                    let w = choose|w: int|
                        k - 1 <= w < RES_COUNT && (#[trigger] s.stations[w]).state == StationState::WRITE_BACK
                            && s.stations[w].inst == n;
                    assert(w != k - 1);
                }
            }
        }
    }
}

/// What the tick part of a cycle starts from: consistent cycles, none
/// awaiting write back, every held instruction issued, no station in
/// `WRITE_BACK`.
spec fn tick_ready(d: PlatformView) -> bool {
    &&& forall|n: int|
        0 <= n < d.insts.len() ==> {
            let a = #[trigger] d.insts[n];
            &&& cycles_consistent(a)
            &&& !awaits_write_back(a)
            &&& recorded_before(a.issue_time, d.clock as int)
            &&& recorded_before(a.exec_time, d.clock as int)
            &&& recorded_before(a.write_back_time, d.clock + 1)
        }
    &&& forall|j: int|
        0 <= j < RES_COUNT && (#[trigger] d.stations[j]).state != StationState::IDLE ==> d.insts[d.stations[j].inst as int].issue_time
            != -1
    &&& forall|j: int| 0 <= j < RES_COUNT ==> (#[trigger] d.stations[j]).state != StationState::WRITE_BACK
}

proof fn lemma_tick_upto_timing(d: PlatformView, k: nat)
    requires
        platform_wf(d),
        tick_ready(d),
        d.clock < i32::MAX,
        k <= RES_COUNT,
    ensures
        ({
            let t = tick_upto(d, k);
            let c = d.clock as int;
            &&& t.insts.len() == d.insts.len()
            &&& t.clock == d.clock
            &&& forall|n: int|
                0 <= n < d.insts.len() ==> {
                    let a = #[trigger] t.insts[n];
                    &&& a.issue_time == d.insts[n].issue_time
                    &&& a.write_back_time == d.insts[n].write_back_time
                    &&& recorded_before(a.exec_time, c + 1)
                    &&& cycles_consistent(a)
                    &&& awaits_write_back(a) ==> a.exec_time == c && written_back_from(t, n, 0)
                }
            &&& forall|j: int|
                0 <= j < RES_COUNT ==> {
                    &&& ((#[trigger] t.stations[j]).state == StationState::IDLE <==> d.stations[j].state
                        == StationState::IDLE)
                    &&& t.stations[j].inst == d.stations[j].inst
                    &&& t.stations[j].state == StationState::WRITE_BACK ==> t.insts[t.stations[j].inst as int].exec_time
                        != -1
                }
            &&& forall|j: int| k <= j < RES_COUNT ==> #[trigger] t.stations[j] == d.stations[j]
        }),
    decreases k,
{
    let c = d.clock as int;
    if k > 0 {
        let p = tick_upto(d, (k - 1) as nat);
        let t = tick_upto(d, k);
        lemma_tick_upto_timing(d, (k - 1) as nat);
        lemma_tick_upto_wf(d, (k - 1) as nat);
        let i = k - 1;
        let st = p.stations[i];
        assert(st == d.stations[i]);
        assert(station_consistent(st, p.insts));
        let n0 = st.inst as int;
        assert forall|n: int| 0 <= n < d.insts.len() implies {
            let a = #[trigger] t.insts[n];
            &&& a.issue_time == d.insts[n].issue_time
            &&& a.write_back_time == d.insts[n].write_back_time
            &&& recorded_before(a.exec_time, c + 1)
            &&& cycles_consistent(a)
            &&& awaits_write_back(a) ==> a.exec_time == c && written_back_from(t, n, 0)
        } by {
            let b = p.insts[n];
            if awaits_write_back(b) {
                let w = choose|w: int|
                    0 <= w < RES_COUNT && (#[trigger] p.stations[w]).state == StationState::WRITE_BACK
                        && p.stations[w].inst == n;
                assert(w != i);
                assert(t.stations[w] == p.stations[w]);
            }
            if st.state == StationState::EXEC && n == n0 {
                assert(d.stations[i].state != StationState::IDLE);
                assert(d.insts[n0].issue_time != -1);
                if st.time_left.wrapping_sub(1) == 0 && b.exec_time == -1 {
                    assert(t.stations[i].state == StationState::WRITE_BACK);
                    assert(d.insts[n0].write_back_time == -1);
                }
            }
        }
        assert forall|j: int| 0 <= j < RES_COUNT implies {
            &&& ((#[trigger] t.stations[j]).state == StationState::IDLE <==> d.stations[j].state == StationState::IDLE)
            &&& t.stations[j].inst == d.stations[j].inst
            &&& t.stations[j].state == StationState::WRITE_BACK ==> t.insts[t.stations[j].inst as int].exec_time
                != -1
        } by {
            if t.stations[j].state == StationState::WRITE_BACK && j != i {
                assert(p.stations[j] == t.stations[j]);
                assert(p.insts[p.stations[j].inst as int].exec_time != -1);
            }
        }
    }
}

/// At the start no cycle is recorded and no station holds an instruction.
pub proof fn law_timing_initially(s: PlatformView)
    requires
        initial_platform(s),
    ensures
        timing_ok(s),
{
}

/// Loading a line adds an instruction with no cycle recorded.
pub proof fn law_timing_load(s: PlatformView, line: Seq<char>)
    requires
        platform_wf(s),
        timing_ok(s),
    ensures
        load_spec(s, line) matches Ok(t) ==> timing_ok(t),
{
    if let Ok(t) = load_spec(s, line) {
        assert forall|n: int| 0 <= n < t.insts.len() implies {
            let inst = #[trigger] t.insts[n];
            &&& cycles_consistent(inst)
            &&& recorded_before(inst.issue_time, t.clock as int)
            &&& recorded_before(inst.exec_time, t.clock as int)
            &&& recorded_before(inst.write_back_time, t.clock as int)
            &&& awaits_write_back(inst) ==> inst.exec_time == t.clock - 1 && written_back_from(t, n, 0)
        } by {
            if n < s.insts.len() {
                assert(t.insts[n] == s.insts[n]);
                if awaits_write_back(s.insts[n]) {
                    let w = choose|w: int|
                        0 <= w < RES_COUNT && (#[trigger] s.stations[w]).state == StationState::WRITE_BACK
                            && s.stations[w].inst == n;
                    assert(t.stations[w] == s.stations[w]);
                }
            }
        }
        assert forall|j: int|
            0 <= j < RES_COUNT && (#[trigger] t.stations[j]).state != StationState::IDLE implies t.insts[t.stations[j].inst as int].issue_time
                != -1 by {
            assert(s.insts[s.stations[j].inst as int].issue_time != -1);
            assert(station_consistent(s.stations[j], s.insts));
            assert(t.insts[t.stations[j].inst as int] == s.insts[s.stations[j].inst as int]);
        }
        assert forall|j: int|
            0 <= j < RES_COUNT && (#[trigger] t.stations[j]).state == StationState::WRITE_BACK implies t.insts[t.stations[j].inst as int].exec_time
                != -1 by {
            assert(s.insts[s.stations[j].inst as int].exec_time != -1);
            assert(station_consistent(s.stations[j], s.insts));
            assert(t.insts[t.stations[j].inst as int] == s.insts[s.stations[j].inst as int]);
        }
    }
}

/// The cycles recorded on `s`, part-way through cycle `c`: consistent, no
/// later than `c`, an instruction awaiting write back finished in cycle `c`
/// and waits in a station, every held instruction was issued and every
/// station in `WRITE_BACK` holds one that finished executing.
spec fn cycle_ok(s: PlatformView, c: int) -> bool {
    &&& forall|n: int|
        0 <= n < s.insts.len() ==> {
            let a = #[trigger] s.insts[n];
            &&& cycles_consistent(a)
            &&& recorded_before(a.issue_time, c + 1)
            &&& recorded_before(a.exec_time, c + 1)
            &&& recorded_before(a.write_back_time, c + 1)
            &&& awaits_write_back(a) ==> a.exec_time == c && written_back_from(s, n, 0)
        }
    &&& forall|j: int|
        0 <= j < RES_COUNT && (#[trigger] s.stations[j]).state != StationState::IDLE ==> s.insts[s.stations[j].inst as int].issue_time
            != -1
    &&& forall|j: int|
        0 <= j < RES_COUNT && (#[trigger] s.stations[j]).state == StationState::WRITE_BACK ==> s.insts[s.stations[j].inst as int].exec_time
            != -1
}

proof fn lemma_exec_timing(s: PlatformView)
    requires
        platform_wf(s),
        timing_ok(s),
        !step_traps(s),
        s.clock < i32::MAX,
    ensures
        cycle_ok(after_exec(s), s.clock as int),
        after_exec(s).clock == s.clock,
        platform_wf(after_exec(s)),
{
    lemma_step_phases_wf(s);
    lemma_no_write_back_trap(s);
    lemma_write_back_upto_timing(s, RES_COUNT as nat);
    lemma_write_back_upto_wf(s, RES_COUNT as nat);
    let s1 = write_back_spec(s);
    let d = dispatch_spec(s1);
    lemma_dispatch_wf(s1);
    assert forall|n: int| 0 <= n < d.insts.len() implies {
        let a = #[trigger] d.insts[n];
        &&& cycles_consistent(a)
        &&& !awaits_write_back(a)
        &&& recorded_before(a.issue_time, d.clock as int)
        &&& recorded_before(a.exec_time, d.clock as int)
        &&& recorded_before(a.write_back_time, d.clock + 1)
    } by {
        assert(d.insts[n] == s1.insts[n]);
        if awaits_write_back(s1.insts[n]) {
            let w = choose|w: int|
                RES_COUNT <= w < RES_COUNT && (#[trigger] s.stations[w]).state == StationState::WRITE_BACK
                    && s.stations[w].inst == n;
        }
    }
    assert forall|j: int|
        0 <= j < RES_COUNT && (#[trigger] d.stations[j]).state != StationState::IDLE implies d.insts[d.stations[j].inst as int].issue_time
            != -1 by {
        assert(s1.stations[j].state != StationState::IDLE);
        assert(s1.stations[j] == s.stations[j]);
    }
    assert forall|j: int| 0 <= j < RES_COUNT implies (#[trigger] d.stations[j]).state != StationState::WRITE_BACK by {
        assert(s1.stations[j].state != StationState::WRITE_BACK);
    }
    assert(tick_ready(d));
    lemma_tick_upto_timing(d, RES_COUNT as nat);
    let e = after_exec(s);
    assert forall|j: int|
        0 <= j < RES_COUNT && (#[trigger] e.stations[j]).state != StationState::IDLE implies e.insts[e.stations[j].inst as int].issue_time
            != -1 by {
        assert(d.stations[j].state != StationState::IDLE);
    }
}

proof fn lemma_issue_timing(e: PlatformView, c: int)
    requires
        platform_wf(e),
        cycle_ok(e, c),
        e.clock == c,
        0 <= c < i32::MAX,
    ensures
        cycle_ok(issue_spec(e), c),
{
    let f = issue_spec(e);
    if let Some(k) = issue_target(e) {
        let p = e.regs[PC_REG as int] as int;
        lemma_first_idle_from(e, current_inst(e).inst_type.stations@, 0);
        assert(stations_usable(e.insts[p].inst_type));
        assert(e.stations[k as int].state == StationState::IDLE);
        assert forall|n: int| 0 <= n < f.insts.len() implies {
            let a = #[trigger] f.insts[n];
            &&& cycles_consistent(a)
            &&& recorded_before(a.issue_time, c + 1)
            &&& recorded_before(a.exec_time, c + 1)
            &&& recorded_before(a.write_back_time, c + 1)
            &&& awaits_write_back(a) ==> a.exec_time == c && written_back_from(f, n, 0)
        } by {
            let b = e.insts[n];
            if awaits_write_back(b) {
                let w = choose|w: int|
                    0 <= w < RES_COUNT && (#[trigger] e.stations[w]).state == StationState::WRITE_BACK
                        && e.stations[w].inst == n;
                assert(w != k);
                assert(f.stations[w] == e.stations[w]);
            }
        }
        assert forall|j: int|
            0 <= j < RES_COUNT && (#[trigger] f.stations[j]).state != StationState::IDLE implies f.insts[f.stations[j].inst as int].issue_time
                != -1 by {
            if j != k {
                assert(f.stations[j] == e.stations[j]);
                assert(station_consistent(e.stations[j], e.insts));
            }
        }
        assert forall|j: int|
            0 <= j < RES_COUNT && (#[trigger] f.stations[j]).state == StationState::WRITE_BACK implies f.insts[f.stations[j].inst as int].exec_time
                != -1 by {
            assert(f.stations[j] == e.stations[j]);
            assert(station_consistent(e.stations[j], e.insts));
        }
    }
}

proof fn lemma_check_ready_timing(f: PlatformView, c: int)
    requires
        cycle_ok(f, c),
    ensures
        cycle_ok(check_ready_spec(f), c),
{
    let g = check_ready_spec(f);
    assert forall|j: int| 0 <= j < RES_COUNT implies {
        &&& ((#[trigger] g.stations[j]).state == StationState::IDLE <==> f.stations[j].state == StationState::IDLE)
        &&& (g.stations[j].state == StationState::WRITE_BACK <==> f.stations[j].state == StationState::WRITE_BACK)
        &&& g.stations[j].inst == f.stations[j].inst
    } by {}
    assert forall|n: int| 0 <= n < g.insts.len() implies {
        let a = #[trigger] g.insts[n];
        awaits_write_back(a) ==> written_back_from(g, n, 0)
    } by {
        if awaits_write_back(f.insts[n]) {
            let w = choose|w: int|
                0 <= w < RES_COUNT && (#[trigger] f.stations[w]).state == StationState::WRITE_BACK
                    && f.stations[w].inst == n;
            assert(g.stations[w].state == StationState::WRITE_BACK);
        }
    }
}

/// Every cycle keeps the recorded cycles consistent (as long as the clock
/// fits the `i32` the cycles are recorded in): each instruction that wrote
/// back did so exactly one cycle after it finished executing, and each that
/// finished executing did so at least one cycle after it was issued.
pub proof fn law_timing_step(s: PlatformView)
    requires
        platform_wf(s),
        timing_ok(s),
        !step_traps(s),
        s.clock < i32::MAX,
    ensures
        timing_ok(step_spec(s)),
{
    let c = s.clock as int;
    lemma_exec_timing(s);
    lemma_issue_timing(after_exec(s), c);
    lemma_check_ready_timing(after_issue(s), c);
    let g = check_ready_spec(after_issue(s));
    let t = step_spec(s);
    assert forall|n: int| 0 <= n < t.insts.len() implies {
        let inst = #[trigger] t.insts[n];
        &&& cycles_consistent(inst)
        &&& recorded_before(inst.issue_time, t.clock as int)
        &&& recorded_before(inst.exec_time, t.clock as int)
        &&& recorded_before(inst.write_back_time, t.clock as int)
        &&& awaits_write_back(inst) ==> inst.exec_time == t.clock - 1 && written_back_from(t, n, 0)
    } by {
        assert(t.insts[n] == g.insts[n]);
        if awaits_write_back(g.insts[n]) {
            let w = choose|w: int|
                0 <= w < RES_COUNT && (#[trigger] g.stations[w]).state == StationState::WRITE_BACK
                    && g.stations[w].inst == n;
            assert(t.stations[w] == g.stations[w]);
        }
    }
    assert forall|j: int|
        0 <= j < RES_COUNT && (#[trigger] t.stations[j]).state != StationState::IDLE implies t.insts[t.stations[j].inst as int].issue_time
            != -1 by {
        assert(t.stations[j] == g.stations[j]);
    }
    assert forall|j: int|
        0 <= j < RES_COUNT && (#[trigger] t.stations[j]).state == StationState::WRITE_BACK implies t.insts[t.stations[j].inst as int].exec_time
            != -1 by {
        assert(t.stations[j] == g.stations[j]);
    }
}

} // verus!
