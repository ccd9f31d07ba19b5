//! Properties of the simulator that hold across operations.
use vstd::prelude::*;
use vstd::relations::injective_on;
use vstd::set_lib::{lemma_int_range, lemma_len_subset, lemma_map_size, lemma_subset_equality, set_int_range};
use crate::queue::{lemma_ahead_of_order, lemma_station_set_finite};
use crate::instruction::{InstFunc, InstructionType, InstructionView};
use crate::reserve_station::{StationState, StationView};
use crate::platform::initial_platform;
use crate::semantics::{
    exec_spec, issue_result, becomes_ready, ready_outcome, line_mnemonic, standard_types, type_named_from,
    lemma_no_write_back_trap,    admitted, after_exec, after_issue, ahead_of, all_idle, bound_of, check_ready_spec,
    current_inst, dest_reg, dispatch_spec, first_idle_from, free_units, group_of, issue_spec,
    issue_target, issue_traps, jump_pending, lemma_check_ready_wf, lemma_dispatch_wf,
    lemma_first_idle_from, lemma_issue_wf, lemma_step_phases_wf, lemma_tick_one_wf,
    lemma_tick_upto_wf, lemma_write_back_one_wf, lemma_write_back_upto_wf, listened, load_spec,
    operand_reg, owns, pc_in_program, platform_wf, queue_ahead, same_program_shape,
    station_consistent, stations_usable, step_spec, step_traps, tick_one, tick_upto, waiting,
    waiting_in, write_back_one, write_back_spec, write_back_traps, write_back_traps_at,
    write_back_upto, COM_COUNT, PC_REG, PlatformView, RES_COUNT,
};

verus! {

/// The number of stations ahead of `i` in its group's queue.
pub open spec fn rank(s: PlatformView, i: int) -> int {
    queue_ahead(s, i).len() as int
}

/// The stations of group `g` admitted to a functional unit.
pub open spec fn admitted_in(s: PlatformView, g: int) -> Set<int> {
    Set::new(|j: int| admitted(s, j) && s.stations[j].belong == g)
}

proof fn lemma_rank_facts(s: PlatformView, g: int)
    requires
        forall|j: int| 0 <= j < RES_COUNT ==> (#[trigger] s.stations[j]).belong == group_of(j),
    ensures
        waiting_in(s, g).finite(),
        forall|x: int| #[trigger] waiting_in(s, g).contains(x) ==> 0 <= rank(s, x) < waiting_in(s, g).len(),
        injective_on(|x: int| rank(s, x), waiting_in(s, g)),
{
    lemma_ahead_of_order(s);
    let w = waiting_in(s, g);
    lemma_station_set_finite(w);
    assert forall|x: int| #[trigger] w.contains(x) implies 0 <= rank(s, x) < w.len() by {
        assert(queue_ahead(s, x).subset_of(w.remove(x)));
        lemma_len_subset(queue_ahead(s, x), w.remove(x));
    }
    assert forall|x: int, y: int| w.contains(x) && w.contains(y) && #[trigger] rank(s, x) == #[trigger] rank(s, y) implies x == y by {
        if x != y {
            if ahead_of(s, y, x) {
                lemma_rank_strictly_below(s, y, x);
            } else {
                assert(ahead_of(s, x, y));
                lemma_rank_strictly_below(s, x, y);
            }
        }
    }
}

/// A station ahead of another in the same group has fewer stations ahead of it.
proof fn lemma_rank_strictly_below(s: PlatformView, y: int, x: int)
    requires
        waiting(s, y),
        waiting(s, x),
        s.stations[y].belong == s.stations[x].belong,
        ahead_of(s, y, x),
    ensures
        rank(s, y) < rank(s, x),
{
    lemma_ahead_of_order(s);
    let qx = queue_ahead(s, x);
    let qy = queue_ahead(s, y);
    assert forall|j: int| 0 <= j < RES_COUNT || !(#[trigger] qx.contains(j)) by {}
    lemma_station_set_finite(qx);
    assert(qy.subset_of(qx.remove(y)));
    lemma_len_subset(qy, qx.remove(y));
}

/// Handing out units admits as many stations of a group as the smaller of its
/// waiting stations and its free units.
pub proof fn lemma_admitted_count(s: PlatformView, g: int)
    requires
        forall|j: int| 0 <= j < RES_COUNT ==> (#[trigger] s.stations[j]).belong == group_of(j),
    ensures
        admitted_in(s, g).finite(),
        admitted_in(s, g).len() == (if waiting_in(s, g).len() < free_units(s, g) {
            waiting_in(s, g).len() as int
        } else {
            free_units(s, g)
        }),
{
    lemma_rank_facts(s, g);
    let w = waiting_in(s, g);
    let n = w.len() as int;
    let f = free_units(s, g);
    let rk = |x: int| rank(s, x);
    let m = if n < f { n } else { f };
    // The ranks of the waiting stations are exactly 0..n.
    lemma_map_size(w, w.map(rk), rk);
    lemma_int_range(0, n);
    assert(w.map(rk).subset_of(set_int_range(0, n))) by {
        assert forall|r: int| #[trigger] w.map(rk).contains(r) implies set_int_range(0, n).contains(r) by {
            let x = choose|x: int| w.contains(x) && rk(x) == r;
        }
    }
    lemma_subset_equality(w.map(rk), set_int_range(0, n));
    // The admitted stations are those ranked below the number of free units.
    let a = admitted_in(s, g);
    assert forall|x: int| #[trigger] a.contains(x) implies w.contains(x) by {}
    assert(a.subset_of(w));
    lemma_len_subset(a, w);
    assert(injective_on(rk, a));
    lemma_map_size(a, a.map(rk), rk);
    lemma_int_range(0, m);
    assert forall|r: int| #[trigger] a.map(rk).contains(r) <==> set_int_range(0, m).contains(r) by {
        if set_int_range(0, m).contains(r) {
            assert(set_int_range(0, n).contains(r));
            assert(w.map(rk).contains(r));
            let x = choose|x: int| w.contains(x) && rk(x) == r;
            assert(a.contains(x));
        }
        if a.map(rk).contains(r) {
            let x = choose|x: int| a.contains(x) && rk(x) == r;
            assert(w.contains(x));
        }
    }
    assert(a.map(rk) =~= set_int_range(0, m));
}

/// The station holds a functional unit: it executes, or finished and waits
/// to write back.
pub open spec fn occupies_unit(st: StationView) -> bool {
    st.state == StationState::EXEC || st.state == StationState::WRITE_BACK
}

/// The stations of group `g` that hold a functional unit.
pub open spec fn units_in_use(s: PlatformView, g: int) -> Set<int> {
    Set::new(|i: int| 0 <= i < RES_COUNT && group_of(i) == g && occupies_unit(s.stations[i]))
}

/// Each group's count of busy units is the number of its stations holding a
/// unit, and never exceeds the group's number of units.
pub open spec fn units_accounted(s: PlatformView) -> bool {
    forall|g: int|
        0 <= g < COM_COUNT ==> {
            &&& #[trigger] s.running[g] == units_in_use(s, g).len()
            &&& units_in_use(s, g).len() <= bound_of(g)
        }
}

proof fn lemma_units_finite(s: PlatformView, g: int)
    ensures
        units_in_use(s, g).finite(),
{
    lemma_station_set_finite(units_in_use(s, g));
}

proof fn lemma_same_occupancy(a: PlatformView, b: PlatformView)
    requires
        forall|i: int| 0 <= i < RES_COUNT ==> occupies_unit(#[trigger] a.stations[i]) == occupies_unit(b.stations[i]),
        a.running == b.running,
        units_accounted(a),
    ensures
        units_accounted(b),
{
    assert forall|g: int| 0 <= g < COM_COUNT implies #[trigger] units_in_use(a, g) == units_in_use(b, g) by {
        assert(units_in_use(a, g) =~= units_in_use(b, g));
    }
}

proof fn lemma_write_back_one_units(s: PlatformView, i: int)
    requires
        platform_wf(s),
        units_accounted(s),
        0 <= i < RES_COUNT,
        !write_back_traps_at(s, i),
    ensures
        units_accounted(write_back_one(s, i)),
{
    let t = write_back_one(s, i);
    let st = s.stations[i];
    if st.state == StationState::WRITE_BACK {
        let b = st.belong as int;
        assert(st.belong == group_of(i));
        assert forall|g: int| 0 <= g < COM_COUNT implies {
            &&& #[trigger] t.running[g] == units_in_use(t, g).len()
            &&& units_in_use(t, g).len() <= bound_of(g)
        } by {
            lemma_units_finite(s, g);
            assert(s.running[g] == units_in_use(s, g).len());
            if g == b {
                assert(units_in_use(t, g) =~= units_in_use(s, g).remove(i));
                assert(units_in_use(s, g).contains(i));
            } else {
                assert(units_in_use(t, g) =~= units_in_use(s, g));
            }
        }
    }
}

proof fn lemma_write_back_upto_units(s: PlatformView, k: nat)
    requires
        platform_wf(s),
        units_accounted(s),
        k <= RES_COUNT,
        forall|j: int| 0 <= j < k ==> !#[trigger] write_back_traps_at(write_back_upto(s, j as nat), j),
    ensures
        units_accounted(write_back_upto(s, k)),
    decreases k,
{
    if k > 0 {
        lemma_write_back_upto_units(s, (k - 1) as nat);
        lemma_write_back_upto_wf(s, (k - 1) as nat);
        assert(!write_back_traps_at(write_back_upto(s, (k - 1) as nat), k - 1));
        lemma_write_back_one_units(write_back_upto(s, (k - 1) as nat), k - 1);
    }
}

proof fn lemma_dispatch_units(s: PlatformView)
    requires
        platform_wf(s),
        units_accounted(s),
    ensures
        units_accounted(dispatch_spec(s)),
{
    let t = dispatch_spec(s);
    assert forall|g: int| 0 <= g < COM_COUNT implies {
        &&& #[trigger] t.running[g] == units_in_use(t, g).len()
        &&& units_in_use(t, g).len() <= bound_of(g)
    } by {
        lemma_units_finite(s, g);
        lemma_admitted_count(s, g);
        let u = units_in_use(s, g);
        let a = admitted_in(s, g);
        assert forall|i: int| #[trigger] units_in_use(t, g).contains(i) <==> u.union(a).contains(i) by {
            if 0 <= i < RES_COUNT {
                assert(s.stations[i].belong == group_of(i));
            }
        }
        assert(units_in_use(t, g) =~= u.union(a));
        assert(u.disjoint(a));
        vstd::set_lib::lemma_set_disjoint_lens(u, a);
    }
}

proof fn lemma_tick_upto_units(s: PlatformView, k: nat)
    requires
        platform_wf(s),
        units_accounted(s),
        k <= RES_COUNT,
    ensures
        units_accounted(tick_upto(s, k)),
    decreases k,
{
    if k > 0 {
        let p = tick_upto(s, (k - 1) as nat);
        lemma_tick_upto_units(s, (k - 1) as nat);
        lemma_tick_upto_wf(s, (k - 1) as nat);
        lemma_same_occupancy(p, tick_one(p, k - 1));
    }
}

/// Every reachable platform accounts for its functional units: at the start
/// no unit is busy, and every cycle and every loaded line keep each group's
/// count of busy units equal to the number of its stations that hold one, and
/// at most the group's number of units.
pub proof fn law_units_initially(s: PlatformView)
    requires
        initial_platform(s),
    ensures
        units_accounted(s),
{
    assert forall|g: int| 0 <= g < COM_COUNT implies #[trigger] units_in_use(s, g) == Set::<int>::empty() by {
        assert(units_in_use(s, g) =~= Set::<int>::empty());
    }
}

/// A cycle keeps the functional units accounted for (see `law_units_initially`).
pub proof fn law_units_step(s: PlatformView)
    requires
        platform_wf(s),
        units_accounted(s),
        !step_traps(s),
    ensures
        units_accounted(step_spec(s)),
{
    lemma_step_phases_wf(s);
    lemma_no_write_back_trap(s);
    lemma_write_back_upto_units(s, RES_COUNT as nat);
    let s1 = write_back_spec(s);
    lemma_dispatch_wf(s1);
    lemma_dispatch_units(s1);
    lemma_tick_upto_units(dispatch_spec(s1), RES_COUNT as nat);
    let s2 = after_exec(s);
    let s3 = after_issue(s);
    lemma_first_idle_from(s2, current_inst(s2).inst_type.stations@, 0);
    lemma_same_occupancy(s2, s3);
    lemma_same_occupancy(s3, check_ready_spec(s3));
    lemma_same_occupancy(check_ready_spec(s3), step_spec(s));
}

/// Loading a line keeps the functional units accounted for.
pub proof fn law_units_load(s: PlatformView, line: Seq<char>)
    requires
        platform_wf(s),
        units_accounted(s),
    ensures
        load_spec(s, line) matches Ok(t) ==> units_accounted(t),
{
    if let Ok(t) = load_spec(s, line) {
        lemma_same_occupancy(s, t);
    }
}

/// Functional units go out in queue order: when a waiting station gets a
/// unit, so does every waiting station of its group that is ahead of it.
pub proof fn law_dispatch_in_queue_order(s: PlatformView, i: int, j: int)
    requires
        platform_wf(s),
        admitted(s, i),
        waiting(s, j),
        s.stations[j].belong == s.stations[i].belong,
        ahead_of(s, j, i),
    ensures
        admitted(s, j),
{
    lemma_rank_strictly_below(s, j, i);
}

/// First come, first served: when a ready station starts executing, so does
/// every ready station of its group that became ready in an earlier cycle, or
/// in the same cycle with an earlier instruction, or with the same
/// instruction in a lower-numbered station.
pub proof fn law_dispatch_first_come_first_served(s: PlatformView, i: int, j: int)
    requires
        platform_wf(s),
        0 <= i < RES_COUNT,
        0 <= j < RES_COUNT,
        group_of(i) == group_of(j),
        s.stations[i].state == StationState::READY,
        s.stations[j].state == StationState::READY,
        dispatch_spec(s).stations[i].state == StationState::EXEC,
        s.stations[j].ready_punch < s.stations[i].ready_punch || (s.stations[j].ready_punch
            == s.stations[i].ready_punch && s.stations[j].inst < s.stations[i].inst) || (s.stations[j].ready_punch
            == s.stations[i].ready_punch && s.stations[j].inst == s.stations[i].inst && j < i),
    ensures
        dispatch_spec(s).stations[j].state == StationState::EXEC,
{
    assert(s.stations[i].belong == group_of(i));
    assert(s.stations[j].belong == group_of(j));
    assert(admitted(s, i));
    law_dispatch_in_queue_order(s, i, j);
}

/// No unit is left idle while a station waits: a waiting station that gets
/// no unit finds every unit of its group busy after the hand-out.
pub proof fn law_dispatch_fills_units(s: PlatformView, i: int)
    requires
        platform_wf(s),
        waiting(s, i),
        !admitted(s, i),
    ensures
        dispatch_spec(s).running[s.stations[i].belong as int] >= bound_of(s.stations[i].belong as int),
{
    let g = s.stations[i].belong as int;
    assert(s.stations[i].belong == group_of(i));
    lemma_rank_facts(s, g);
    assert(waiting_in(s, g).contains(i));
}

/// A station holding an instruction knows the value of its destination
/// operand, the register it will write.
pub open spec fn dest_known(s: PlatformView, i: int) -> bool {
    let st = s.stations[i];
    st.state != StationState::IDLE ==> st.params[s.insts[st.inst as int].inst_type.dest as int] is Some
}

/// The register status table is sound: each register it lists is the
/// destination of the instruction held by the station it names, and that
/// station is not idle.
pub open spec fn renaming_sound(s: PlatformView) -> bool {
    &&& forall|i: int| 0 <= i < RES_COUNT ==> #[trigger] dest_known(s, i)
    &&& forall|r: usize|
        #[trigger] s.busy.contains_key(r) ==> {
            let x = s.busy[r];
            &&& x < RES_COUNT
            &&& s.stations[x as int].state != StationState::IDLE
            &&& dest_reg(s, s.stations[x as int]) == r
        }
}

/// `b` has the same busy table as `a`, and its stations hold the same
/// instructions with the same destination values, idle where `a`'s are.
spec fn same_renaming(a: PlatformView, b: PlatformView) -> bool {
    &&& a.busy == b.busy
    &&& same_program_shape(a.insts, b.insts)
    &&& forall|i: int|
        0 <= i < RES_COUNT ==> {
            &&& (#[trigger] b.stations[i]).state == StationState::IDLE <==> a.stations[i].state
                == StationState::IDLE
            &&& b.stations[i].inst == a.stations[i].inst
            &&& b.stations[i].params.len() == a.stations[i].params.len()
            &&& a.stations[i].state != StationState::IDLE ==> b.stations[i].params[a.insts[a.stations[i].inst as int].inst_type.dest as int]
                == a.stations[i].params[a.insts[a.stations[i].inst as int].inst_type.dest as int]
        }
}

proof fn lemma_same_renaming(a: PlatformView, b: PlatformView)
    requires
        platform_wf(a),
        renaming_sound(a),
        same_renaming(a, b),
    ensures
        renaming_sound(b),
{
    assert forall|i: int| 0 <= i < RES_COUNT implies #[trigger] dest_known(b, i) by {
        assert(dest_known(a, i));
        assert(station_consistent(a.stations[i], a.insts));
        if a.stations[i].state != StationState::IDLE {
            assert(b.insts[a.stations[i].inst as int].inst_type == a.insts[a.stations[i].inst as int].inst_type);
        }
    }
    assert forall|r: usize| #[trigger] b.busy.contains_key(r) implies ({
        let x = b.busy[r];
        &&& x < RES_COUNT
        &&& b.stations[x as int].state != StationState::IDLE
        &&& dest_reg(b, b.stations[x as int]) == r
    }) by {
        let x = a.busy[r];
        assert(a.busy.contains_key(r));
        assert(station_consistent(a.stations[x as int], a.insts));
        assert(b.insts[a.stations[x as int].inst as int].inst_type == a.insts[a.stations[x as int].inst as int].inst_type);
    }
}

proof fn lemma_write_back_one_renaming(s: PlatformView, i: int)
    requires
        platform_wf(s),
        renaming_sound(s),
        0 <= i < RES_COUNT,
        !write_back_traps_at(s, i),
    ensures
        renaming_sound(write_back_one(s, i)),
{
    let t = write_back_one(s, i);
    let st = s.stations[i];
    lemma_write_back_one_wf(s, i);
    if st.state == StationState::WRITE_BACK {
        let d = dest_reg(s, st);
        assert forall|j: int| 0 <= j < RES_COUNT implies #[trigger] dest_known(t, j) by {
            assert(dest_known(s, j));
            if j != i && s.stations[j].state != StationState::IDLE {
                assert(station_consistent(s.stations[j], s.insts));
                assert(t.insts[s.stations[j].inst as int].inst_type == s.insts[s.stations[j].inst as int].inst_type);
            }
        }
        assert forall|r: usize| #[trigger] t.busy.contains_key(r) implies ({
            let x = t.busy[r];
            &&& x < RES_COUNT
            &&& t.stations[x as int].state != StationState::IDLE
            &&& dest_reg(t, t.stations[x as int]) == r
        }) by {
            assert(s.busy.contains_key(r));
            let x = s.busy[r];
            assert(t.busy[r] == x);
            if x == i {
                assert(r == d);
                assert(owns(s, d, i));
            }
            assert(x != i);
            assert(station_consistent(s.stations[x as int], s.insts));
            assert(t.insts[s.stations[x as int].inst as int].inst_type == s.insts[s.stations[x as int].inst as int].inst_type);
        }
    }
}

proof fn lemma_write_back_upto_renaming(s: PlatformView, k: nat)
    requires
        platform_wf(s),
        renaming_sound(s),
        k <= RES_COUNT,
        forall|j: int| 0 <= j < k ==> !#[trigger] write_back_traps_at(write_back_upto(s, j as nat), j),
    ensures
        renaming_sound(write_back_upto(s, k)),
    decreases k,
{
    if k > 0 {
        lemma_write_back_upto_renaming(s, (k - 1) as nat);
        lemma_write_back_upto_wf(s, (k - 1) as nat);
        assert(!write_back_traps_at(write_back_upto(s, (k - 1) as nat), k - 1));
        lemma_write_back_one_renaming(write_back_upto(s, (k - 1) as nat), k - 1);
    }
}

proof fn lemma_tick_upto_renaming(s: PlatformView, k: nat)
    requires
        platform_wf(s),
        renaming_sound(s),
        k <= RES_COUNT,
    ensures
        renaming_sound(tick_upto(s, k)),
    decreases k,
{
    if k > 0 {
        let p = tick_upto(s, (k - 1) as nat);
        lemma_tick_upto_renaming(s, (k - 1) as nat);
        lemma_tick_upto_wf(s, (k - 1) as nat);
        lemma_tick_one_wf(p, k - 1);
        lemma_same_renaming(p, tick_one(p, k - 1));
    }
}

proof fn lemma_issue_renaming(s: PlatformView)
    requires
        platform_wf(s),
        renaming_sound(s),
        !issue_traps(s),
    ensures
        renaming_sound(issue_spec(s)),
{
    let t = issue_spec(s);
    lemma_issue_wf(s);
    if let Some(k) = issue_target(s) {
        let p = s.regs[PC_REG as int] as int;
        let inst = current_inst(s);
        let cands = inst.inst_type.stations@;
        lemma_first_idle_from(s, cands, 0);
        let m = first_idle_from(s, cands, 0)->Some_0;
        assert(stations_usable(s.insts[p].inst_type));
        assert(k < RES_COUNT);
        assert(s.stations[k as int].state == StationState::IDLE);
        assert forall|j: int| 0 <= j < RES_COUNT implies #[trigger] dest_known(t, j) by {
            assert(dest_known(s, j));
            if j != k && s.stations[j].state != StationState::IDLE {
                assert(station_consistent(s.stations[j], s.insts));
                assert(t.insts[s.stations[j].inst as int].inst_type == s.insts[s.stations[j].inst as int].inst_type);
            }
        }
        assert forall|r: usize| #[trigger] t.busy.contains_key(r) implies ({
            let x = t.busy[r];
            &&& x < RES_COUNT
            &&& t.stations[x as int].state != StationState::IDLE
            &&& dest_reg(t, t.stations[x as int]) == r
        }) by {
            if r != operand_reg(inst, inst.inst_type.dest as int) {
                let x = s.busy[r];
                assert(s.busy.contains_key(r));
                assert(x != k);
                assert(station_consistent(s.stations[x as int], s.insts));
                assert(t.insts[s.stations[x as int].inst as int].inst_type == s.insts[s.stations[x as int].inst as int].inst_type);
            }
        }
    }
}

proof fn lemma_check_ready_renaming(s: PlatformView)
    requires
        platform_wf(s),
        renaming_sound(s),
    ensures
        renaming_sound(check_ready_spec(s)),
{
    let t = check_ready_spec(s);
    assert forall|i: int| 0 <= i < RES_COUNT implies {
        &&& (#[trigger] t.stations[i]).state == StationState::IDLE <==> s.stations[i].state == StationState::IDLE
        &&& t.stations[i].inst == s.stations[i].inst
        &&& t.stations[i].params.len() == s.stations[i].params.len()
        &&& s.stations[i].state != StationState::IDLE ==> t.stations[i].params[s.insts[s.stations[i].inst as int].inst_type.dest as int]
            == s.stations[i].params[s.insts[s.stations[i].inst as int].inst_type.dest as int]
    } by {
        let st = s.stations[i];
        assert(station_consistent(st, s.insts));
        assert(dest_known(s, i));
        if st.state != StationState::IDLE {
            let dd = s.insts[st.inst as int].inst_type.dest as int;
            assert(st.params[dd] is None <==> st.tags[dd] is Some);
        }
    }
    lemma_same_renaming(s, t);
}

/// The register status table stays sound: it is empty at the start, and
/// every cycle and every loaded line keep it naming, for each register it
/// lists, a busy station whose instruction writes that register.
pub proof fn law_renaming_initially(s: PlatformView)
    requires
        initial_platform(s),
    ensures
        renaming_sound(s),
{
}

/// A cycle keeps the register status table sound (see `law_renaming_initially`).
pub proof fn law_renaming_step(s: PlatformView)
    requires
        platform_wf(s),
        renaming_sound(s),
        !step_traps(s),
    ensures
        renaming_sound(step_spec(s)),
{
    lemma_step_phases_wf(s);
    lemma_no_write_back_trap(s);
    lemma_write_back_upto_renaming(s, RES_COUNT as nat);
    let s1 = write_back_spec(s);
    lemma_dispatch_wf(s1);
    lemma_same_renaming(s1, dispatch_spec(s1));
    lemma_tick_upto_renaming(dispatch_spec(s1), RES_COUNT as nat);
    lemma_issue_renaming(after_exec(s));
    lemma_check_ready_renaming(after_issue(s));
    lemma_check_ready_wf(after_issue(s));
    lemma_same_renaming(check_ready_spec(after_issue(s)), step_spec(s));
}

/// Write back and execute keep the register status table sound, and write
/// back keeps the functional units accounted for.
pub(crate) proof fn lemma_after_exec_sound(s: PlatformView)
    requires
        platform_wf(s),
        renaming_sound(s),
        units_accounted(s),
        !step_traps(s),
    ensures
        renaming_sound(after_exec(s)),
        renaming_sound(after_issue(s)),
        units_accounted(write_back_spec(s)),
{
    lemma_step_phases_wf(s);
    lemma_no_write_back_trap(s);
    lemma_write_back_upto_renaming(s, RES_COUNT as nat);
    lemma_write_back_upto_units(s, RES_COUNT as nat);
    let s1 = write_back_spec(s);
    lemma_dispatch_wf(s1);
    lemma_same_renaming(s1, dispatch_spec(s1));
    lemma_tick_upto_renaming(dispatch_spec(s1), RES_COUNT as nat);
    lemma_issue_renaming(after_exec(s));
}

/// Loading a line keeps the register status table sound.
pub proof fn law_renaming_load(s: PlatformView, line: Seq<char>)
    requires
        platform_wf(s),
        renaming_sound(s),
    ensures
        load_spec(s, line) matches Ok(t) ==> renaming_sound(t),
{
    if let Ok(t) = load_spec(s, line) {
        assert forall|i: int| 0 <= i < RES_COUNT implies #[trigger] dest_known(t, i) by {
            assert(dest_known(s, i));
            assert(station_consistent(s.stations[i], s.insts));
        }
        assert forall|r: usize| #[trigger] t.busy.contains_key(r) implies ({
            let x = t.busy[r];
            &&& x < RES_COUNT
            &&& t.stations[x as int].state != StationState::IDLE
            &&& dest_reg(t, t.stations[x as int]) == r
        }) by {
            let x = s.busy[r];
            assert(s.busy.contains_key(r));
            assert(station_consistent(s.stations[x as int], s.insts));
        }
    }
}

/// `b` is the program `a` with possibly more cycles recorded: same
/// instructions, and every cycle already recorded in `a` kept.
pub open spec fn times_kept(a: Seq<InstructionView>, b: Seq<InstructionView>) -> bool {
    &&& b.len() == a.len()
    &&& forall|n: int|
        0 <= n < a.len() ==> {
            &&& (#[trigger] b[n]).inst_type == a[n].inst_type
            &&& b[n].param == a[n].param
            &&& b[n].time_left == a[n].time_left
            &&& a[n].issue_time != -1 ==> b[n].issue_time == a[n].issue_time
            &&& a[n].exec_time != -1 ==> b[n].exec_time == a[n].exec_time
            &&& a[n].write_back_time != -1 ==> b[n].write_back_time == a[n].write_back_time
        }
}

proof fn lemma_times_kept_trans(a: Seq<InstructionView>, b: Seq<InstructionView>, c: Seq<InstructionView>)
    requires
        times_kept(a, b),
        times_kept(b, c),
    ensures
        times_kept(a, c),
{
    assert forall|n: int| 0 <= n < a.len() implies {
        &&& (#[trigger] c[n]).inst_type == a[n].inst_type
        &&& c[n].param == a[n].param
        &&& c[n].time_left == a[n].time_left
        &&& a[n].issue_time != -1 ==> c[n].issue_time == a[n].issue_time
        &&& a[n].exec_time != -1 ==> c[n].exec_time == a[n].exec_time
        &&& a[n].write_back_time != -1 ==> c[n].write_back_time == a[n].write_back_time
    } by {
        assert(b[n].inst_type == a[n].inst_type);
        assert(c[n].inst_type == b[n].inst_type);
    }
}

proof fn lemma_write_back_upto_times(s: PlatformView, k: nat)
    requires
        platform_wf(s),
        k <= RES_COUNT,
        forall|j: int| 0 <= j < k ==> !#[trigger] write_back_traps_at(write_back_upto(s, j as nat), j),
    ensures
        times_kept(s.insts, write_back_upto(s, k).insts),
    decreases k,
{
    if k > 0 {
        let p = write_back_upto(s, (k - 1) as nat);
        lemma_write_back_upto_times(s, (k - 1) as nat);
        lemma_write_back_upto_wf(s, (k - 1) as nat);
        assert(times_kept(p.insts, write_back_one(p, k - 1).insts));
        lemma_times_kept_trans(s.insts, p.insts, write_back_one(p, k - 1).insts);
    }
}

proof fn lemma_tick_upto_times(s: PlatformView, k: nat)
    requires
        platform_wf(s),
        k <= RES_COUNT,
    ensures
        times_kept(s.insts, tick_upto(s, k).insts),
    decreases k,
{
    if k > 0 {
        let p = tick_upto(s, (k - 1) as nat);
        lemma_tick_upto_times(s, (k - 1) as nat);
        lemma_tick_upto_wf(s, (k - 1) as nat);
        assert(times_kept(p.insts, tick_one(p, k - 1).insts));
        lemma_times_kept_trans(s.insts, p.insts, tick_one(p, k - 1).insts);
    }
}

/// A cycle never changes the program nor overwrites a recorded cycle: each
/// instruction keeps the cycle it was first issued, first finished executing
/// and first wrote back.
pub proof fn law_step_keeps_recorded_cycles(s: PlatformView)
    requires
        platform_wf(s),
        !step_traps(s),
    ensures
        times_kept(s.insts, step_spec(s).insts),
{
    lemma_step_phases_wf(s);
    lemma_no_write_back_trap(s);
    lemma_write_back_upto_times(s, RES_COUNT as nat);
    let s1 = write_back_spec(s);
    let d = dispatch_spec(s1);
    lemma_dispatch_wf(s1);
    assert(times_kept(s1.insts, d.insts));
    lemma_tick_upto_times(d, RES_COUNT as nat);
    lemma_times_kept_trans(s1.insts, d.insts, after_exec(s).insts);
    lemma_times_kept_trans(s.insts, s1.insts, after_exec(s).insts);
    let s2 = after_exec(s);
    assert(times_kept(s2.insts, after_issue(s).insts));
    lemma_times_kept_trans(s.insts, s2.insts, after_issue(s).insts);
    assert(step_spec(s).insts == after_issue(s).insts);
}

/// The program has run to its end: every station is idle, no jump is in
/// flight and the program counter has left the program.
pub open spec fn finished(s: PlatformView) -> bool {
    &&& all_idle(s)
    &&& !jump_pending(s)
    &&& !pc_in_program(s)
}

proof fn lemma_write_back_upto_idle(s: PlatformView, k: nat)
    requires
        all_idle(s),
        k <= RES_COUNT,
    ensures
        write_back_upto(s, k) == s,
        forall|j: int| 0 <= j < k ==> !#[trigger] write_back_traps_at(write_back_upto(s, j as nat), j),
    decreases k,
{
    if k > 0 {
        lemma_write_back_upto_idle(s, (k - 1) as nat);
        assert(s.stations[k - 1].state == StationState::IDLE);
    }
}

proof fn lemma_tick_upto_idle(s: PlatformView, k: nat)
    requires
        all_idle(s),
        k <= RES_COUNT,
    ensures
        tick_upto(s, k) == s,
    decreases k,
{
    if k > 0 {
        lemma_tick_upto_idle(s, (k - 1) as nat);
        assert(s.stations[k - 1].state == StationState::IDLE);
    }
}

/// Once the program has run to its end, a cycle cannot fail, reports that
/// every station is idle, and changes nothing but the clock (the bus was
/// already silent).
pub proof fn law_finished_is_quiescent(s: PlatformView)
    requires
        platform_wf(s),
        finished(s),
    ensures
        !step_traps(s),
        all_idle(after_issue(s)),
        step_spec(s) == (PlatformView { results: Map::empty(), clock: s.clock.wrapping_add(1), ..s }),
{
    lemma_write_back_upto_idle(s, RES_COUNT as nat);
    let d = dispatch_spec(s);
    assert forall|g: int| 0 <= g < COM_COUNT implies #[trigger] waiting_in(s, g) == Set::<int>::empty() by {
        assert(waiting_in(s, g) =~= Set::<int>::empty());
    }
    assert(d.stations =~= s.stations);
    assert(d.running =~= s.running);
    assert(d == s);
    lemma_tick_upto_idle(s, RES_COUNT as nat);
    assert(after_exec(s) == s);
    assert(after_issue(s) == s);
    assert(check_ready_spec(s).stations =~= s.stations);
    assert(!write_back_traps(s));
}

/// The simulation stops exactly when the program has run to its end: a
/// cycle reports that every station is idle if and only if, after it, every
/// station is idle, no jump is in flight and the program counter has left the
/// program.
pub proof fn law_done_iff_finished(s: PlatformView)
    requires
        platform_wf(s),
        renaming_sound(s),
        !step_traps(s),
    ensures
        all_idle(after_issue(s)) <==> finished(step_spec(s)),
{
    lemma_step_phases_wf(s);
    lemma_no_write_back_trap(s);
    lemma_write_back_upto_renaming(s, RES_COUNT as nat);
    let s1 = write_back_spec(s);
    lemma_dispatch_wf(s1);
    lemma_same_renaming(s1, dispatch_spec(s1));
    lemma_tick_upto_renaming(dispatch_spec(s1), RES_COUNT as nat);
    let s2 = after_exec(s);
    let s3 = after_issue(s);
    let t = step_spec(s);
    assert forall|i: int| 0 <= i < RES_COUNT implies (#[trigger] t.stations[i]).state == StationState::IDLE
        <==> s3.stations[i].state == StationState::IDLE by {}
    assert(t.busy == s3.busy && t.regs == s3.regs && t.insts == s3.insts);
    if all_idle(s3) {
        assert forall|i: int| 0 <= i < RES_COUNT implies #[trigger] t.stations[i].state == StationState::IDLE by {
            assert(s3.stations[i].state == StationState::IDLE);
        }
    }
    if all_idle(t) {
        assert forall|i: int| 0 <= i < RES_COUNT implies #[trigger] s3.stations[i].state == StationState::IDLE by {
            assert(t.stations[i].state == StationState::IDLE);
        }
    }
    if all_idle(s3) {
        match issue_target(s2) {
            Some(k) => {
                let p = s2.regs[PC_REG as int] as int;
                lemma_first_idle_from(s2, current_inst(s2).inst_type.stations@, 0);
                assert(stations_usable(s2.insts[p].inst_type));
                assert(s3.stations[k as int].state == StationState::ISSUE);
                assert(false);
            },
            None => {
                assert(s3 == s2);
                if jump_pending(s2) {
                    let x = s2.busy[PC_REG];
                    assert(s2.stations[x as int].state != StationState::IDLE);
                    assert(false);
                }
                if pc_in_program(s2) {
                    let p = s2.regs[PC_REG as int] as int;
                    let cands = current_inst(s2).inst_type.stations@;
                    lemma_first_idle_from(s2, cands, 0);
                    assert(stations_usable(s2.insts[p].inst_type));
                    assert(s2.stations[cands[0] as int].state != StationState::IDLE);
                    assert(false);
                }
            },
        }
    }
}

/// Every operand an issued station still waits for names a station that
/// holds an instruction (so its value will come over the bus), or one that
/// broadcast in the current cycle.
pub open spec fn waits_are_live(s: PlatformView) -> bool {
    forall|i: int, j: int|
        0 <= i < RES_COUNT && s.stations[i].state == StationState::ISSUE && 0 <= j < s.stations[i].tags.len()
            && (#[trigger] s.stations[i].tags[j]) is Some ==> {
            let t = s.stations[i].tags[j]->Some_0;
            &&& t < RES_COUNT
            &&& (s.stations[t as int].state != StationState::IDLE || s.results.contains_key(t))
        }
}

/// The stations of `b` are those of `a` with possibly more of them holding
/// instructions and more broadcasts on the bus; issued stations keep their tags.
spec fn waits_kept(a: PlatformView, b: PlatformView) -> bool {
    &&& forall|i: int|
        0 <= i < RES_COUNT ==> {
            &&& (a.stations[i].state != StationState::IDLE ==> (#[trigger] b.stations[i]).state
                != StationState::IDLE)
            &&& (b.stations[i].state == StationState::ISSUE ==> a.stations[i].state == StationState::ISSUE
                && b.stations[i].tags == a.stations[i].tags)
        }
    &&& forall|t: usize| a.results.contains_key(t) ==> #[trigger] b.results.contains_key(t)
}

proof fn lemma_waits_kept(a: PlatformView, b: PlatformView)
    requires
        waits_are_live(a),
        waits_kept(a, b),
    ensures
        waits_are_live(b),
{
    assert forall|i: int, j: int|
        0 <= i < RES_COUNT && b.stations[i].state == StationState::ISSUE && 0 <= j < b.stations[i].tags.len()
            && (#[trigger] b.stations[i].tags[j]) is Some implies {
            let t = b.stations[i].tags[j]->Some_0;
            &&& t < RES_COUNT
            &&& (b.stations[t as int].state != StationState::IDLE || b.results.contains_key(t))
        } by {
        assert(a.stations[i].tags[j] is Some);
        let t = a.stations[i].tags[j]->Some_0;
        assert(b.stations[t as int].state != StationState::IDLE || b.results.contains_key(t)) by {
            if a.results.contains_key(t) {
                assert(b.results.contains_key(t));
            }
        }
    }
}

proof fn lemma_write_back_upto_waits(s: PlatformView, k: nat)
    requires
        platform_wf(s),
        waits_are_live(s),
        k <= RES_COUNT,
        forall|j: int| 0 <= j < k ==> !#[trigger] write_back_traps_at(write_back_upto(s, j as nat), j),
    ensures
        waits_are_live(write_back_upto(s, k)),
    decreases k,
{
    if k > 0 {
        let p = write_back_upto(s, (k - 1) as nat);
        lemma_write_back_upto_waits(s, (k - 1) as nat);
        let t = write_back_one(p, k - 1);
        assert forall|i: int, j: int|
            0 <= i < RES_COUNT && t.stations[i].state == StationState::ISSUE && 0 <= j < t.stations[i].tags.len()
                && (#[trigger] t.stations[i].tags[j]) is Some implies {
                let x = t.stations[i].tags[j]->Some_0;
                &&& x < RES_COUNT
                &&& (t.stations[x as int].state != StationState::IDLE || t.results.contains_key(x))
            } by {
            lemma_write_back_upto_wf(s, (k - 1) as nat);
            let w = p.stations[k - 1];
            if w.state == StationState::WRITE_BACK && i == k - 1 {
                assert(t.stations[i].state == StationState::IDLE);
            }
            assert(t.stations[i] == p.stations[i]);
            assert(p.stations[i].tags[j] is Some);
            let x = p.stations[i].tags[j]->Some_0;
            if w.state == StationState::WRITE_BACK && x == k - 1 {
                assert(t.results.contains_key(x));
            } else if w.state == StationState::WRITE_BACK {
                assert(t.stations[x as int] == p.stations[x as int]);
                assert(p.results.contains_key(x) ==> t.results.contains_key(x));
            }
        }
    }
}

proof fn lemma_tick_upto_waits(s: PlatformView, k: nat)
    requires
        platform_wf(s),
        waits_are_live(s),
        k <= RES_COUNT,
    ensures
        waits_are_live(tick_upto(s, k)),
    decreases k,
{
    if k > 0 {
        let p = tick_upto(s, (k - 1) as nat);
        lemma_tick_upto_waits(s, (k - 1) as nat);
        lemma_tick_upto_wf(s, (k - 1) as nat);
        let t = tick_one(p, k - 1);
        assert forall|i: int| 0 <= i < RES_COUNT implies {
            &&& (p.stations[i].state != StationState::IDLE ==> (#[trigger] t.stations[i]).state
                != StationState::IDLE)
            &&& (t.stations[i].state == StationState::ISSUE ==> p.stations[i].state == StationState::ISSUE
                && t.stations[i].tags == p.stations[i].tags)
        } by {
            if i != k - 1 {
                assert(t.stations[i] == p.stations[i]);
            }
        }
        lemma_waits_kept(p, t);
    }
}

/// Every operand an issued station waits for will come: after each cycle it
/// names a station that still holds an instruction.
pub proof fn law_waits_are_live_step(s: PlatformView)
    requires
        platform_wf(s),
        renaming_sound(s),
        waits_are_live(s),
        !step_traps(s),
    ensures
        waits_are_live(step_spec(s)),
        forall|i: int, j: int|
            0 <= i < RES_COUNT && step_spec(s).stations[i].state == StationState::ISSUE && 0 <= j
                < step_spec(s).stations[i].tags.len() && (#[trigger] step_spec(s).stations[i].tags[j]) is Some
                ==> step_spec(s).stations[step_spec(s).stations[i].tags[j]->Some_0 as int].state
                != StationState::IDLE,
{
    lemma_step_phases_wf(s);
    lemma_no_write_back_trap(s);
    lemma_write_back_upto_waits(s, RES_COUNT as nat);
    lemma_write_back_upto_renaming(s, RES_COUNT as nat);
    let s1 = write_back_spec(s);
    lemma_dispatch_wf(s1);
    lemma_same_renaming(s1, dispatch_spec(s1));
    lemma_waits_kept(s1, dispatch_spec(s1));
    lemma_tick_upto_waits(dispatch_spec(s1), RES_COUNT as nat);
    lemma_tick_upto_renaming(dispatch_spec(s1), RES_COUNT as nat);
    let s2 = after_exec(s);
    let s3 = after_issue(s);
    // Issue: the new station waits only for producers named by the register
    // status table, which are busy.
    if let Some(k) = issue_target(s2) {
        let p = s2.regs[PC_REG as int] as int;
        let inst = current_inst(s2);
        lemma_first_idle_from(s2, inst.inst_type.stations@, 0);
        assert(stations_usable(s2.insts[p].inst_type));
        assert forall|i: int, j: int|
            0 <= i < RES_COUNT && s3.stations[i].state == StationState::ISSUE && 0 <= j < s3.stations[i].tags.len()
                && (#[trigger] s3.stations[i].tags[j]) is Some implies {
                let x = s3.stations[i].tags[j]->Some_0;
                &&& x < RES_COUNT
                &&& (s3.stations[x as int].state != StationState::IDLE || s3.results.contains_key(x))
            } by {
            if i == k {
                let r = operand_reg(inst, j);
                assert(s2.busy.contains_key(r));
                assert(s2.stations[s2.busy[r] as int].state != StationState::IDLE);
            } else {
                assert(s2.stations[i].tags[j] is Some);
            }
        }
    } else {
        assert(s3 == s2);
    }
    // Check ready: what was broadcast is taken, so what is left waits for a
    // station that holds an instruction.
    let s4 = check_ready_spec(s3);
    let t = step_spec(s);
    assert forall|i: int, j: int|
        0 <= i < RES_COUNT && t.stations[i].state == StationState::ISSUE && 0 <= j < t.stations[i].tags.len()
            && (#[trigger] t.stations[i].tags[j]) is Some implies t.stations[t.stations[i].tags[j]->Some_0 as int].state
            != StationState::IDLE && t.stations[i].tags[j]->Some_0 < RES_COUNT by {
        let st = s3.stations[i];
        assert(st.state == StationState::ISSUE);
        assert(t.stations[i] == listened(s3, st));
        assert(st.tags[j] is Some);
        let x = st.tags[j]->Some_0;
        assert(!s3.results.contains_key(x));
        assert(s3.stations[x as int].state != StationState::IDLE);
    }
}

/// At the start no station waits for an operand.
pub proof fn law_waits_are_live_initially(s: PlatformView)
    requires
        initial_platform(s),
    ensures
        waits_are_live(s),
{
}

/// Loading a line changes no station, so what the stations wait for stays live.
pub proof fn law_waits_are_live_load(s: PlatformView, line: Seq<char>)
    requires
        waits_are_live(s),
    ensures
        load_spec(s, line) matches Ok(t) ==> waits_are_live(t),
{
}

/// Write back alone keeps the register status table sound: no register is
/// left renamed to a station that write back has just made idle.
pub proof fn law_write_back_keeps_renaming(s: PlatformView)
    requires
        platform_wf(s),
        renaming_sound(s),
        !write_back_traps(s),
    ensures
        renaming_sound(write_back_spec(s)),
{
    lemma_no_write_back_trap(s);
    lemma_write_back_upto_renaming(s, RES_COUNT as nat);
}

/// The stations of group `g` that were waiting in `a` and are no longer
/// waiting in `b`.
pub open spec fn left_ready(a: PlatformView, b: PlatformView, g: int) -> Set<int> {
    Set::new(
        |i: int|
            0 <= i < RES_COUNT && group_of(i) == g && a.stations[i].state == StationState::READY
                && b.stations[i].state != StationState::READY,
    )
}

proof fn lemma_tick_upto_keeps_ready(s: PlatformView, k: nat)
    requires
        platform_wf(s),
        k <= RES_COUNT,
    ensures
        forall|i: int|
            0 <= i < RES_COUNT ==> ((#[trigger] tick_upto(s, k).stations[i]).state == StationState::READY
                <==> s.stations[i].state == StationState::READY),
    decreases k,
{
    if k > 0 {
        lemma_tick_upto_keeps_ready(s, (k - 1) as nat);
        lemma_tick_upto_wf(s, (k - 1) as nat);
        let p = tick_upto(s, (k - 1) as nat);
        assert forall|i: int| 0 <= i < RES_COUNT implies ((#[trigger] tick_upto(s, k).stations[i]).state
            == StationState::READY <==> s.stations[i].state == StationState::READY) by {
            assert(p.stations[i].state == StationState::READY <==> s.stations[i].state == StationState::READY);
        }
    }
}

/// The execute phase never over-commits functional units: a group that had
/// at most its number of units busy still has, and its count of busy units
/// grows by exactly the number of its stations that stopped waiting.
pub proof fn law_exec_units(s: PlatformView)
    requires
        platform_wf(s),
        forall|g: int| 0 <= g < COM_COUNT ==> #[trigger] s.running[g] <= bound_of(g),
    ensures
        forall|g: int|
            0 <= g < COM_COUNT ==> {
                &&& #[trigger] exec_spec(s).running[g] <= bound_of(g)
                &&& exec_spec(s).running[g] - s.running[g] == left_ready(s, exec_spec(s), g).len()
            },
{
    let d = dispatch_spec(s);
    lemma_dispatch_wf(s);
    lemma_tick_upto_wf(d, RES_COUNT as nat);
    lemma_tick_upto_keeps_ready(d, RES_COUNT as nat);
    let e = exec_spec(s);
    assert forall|g: int| 0 <= g < COM_COUNT implies {
        &&& #[trigger] e.running[g] <= bound_of(g)
        &&& e.running[g] - s.running[g] == left_ready(s, e, g).len()
    } by {
        lemma_admitted_count(s, g);
        assert forall|i: int| #[trigger] left_ready(s, e, g).contains(i) <==> admitted_in(s, g).contains(i) by {
            if 0 <= i < RES_COUNT {
                assert(s.stations[i].belong == group_of(i));
                assert(e.stations[i].state == StationState::READY <==> d.stations[i].state == StationState::READY);
            }
        }
        assert(left_ready(s, e, g) =~= admitted_in(s, g));
        assert(s.running[g] <= bound_of(g));
    }
}

/// Every station holding an instruction has one value slot and one tag per
/// operand, a tag exactly where the value is unknown, and no tag left once it
/// is past `ISSUE`; so the values of a station that becomes ready are all
/// known.
pub open spec fn operands_consistent(s: PlatformView) -> bool {
    forall|i: int|
        0 <= i < RES_COUNT && (#[trigger] s.stations[i]).state != StationState::IDLE ==> {
            let st = s.stations[i];
            &&& st.params.len() == st.tags.len()
            &&& forall|j: int| 0 <= j < st.params.len() ==> (#[trigger] st.params[j] is None <==> st.tags[j] is Some)
            &&& st.state != StationState::ISSUE ==> forall|j: int| 0 <= j < st.tags.len() ==> #[trigger] st.tags[j] is None
        }
}

/// Check ready keeps the operands of every station consistent, whatever the
/// stations that become ready compute.
pub proof fn law_check_ready_keeps_operands(s: PlatformView)
    requires
        platform_wf(s),
    ensures
        operands_consistent(s),
        operands_consistent(check_ready_spec(s)),
{
    lemma_check_ready_wf(s);
    let t = check_ready_spec(s);
    assert forall|i: int| 0 <= i < RES_COUNT && (#[trigger] s.stations[i]).state != StationState::IDLE implies {
        let st = s.stations[i];
        &&& st.params.len() == st.tags.len()
        &&& forall|j: int| 0 <= j < st.params.len() ==> (#[trigger] st.params[j] is None <==> st.tags[j] is Some)
        &&& st.state != StationState::ISSUE ==> forall|j: int| 0 <= j < st.tags.len() ==> #[trigger] st.tags[j] is None
    } by {
        assert(station_consistent(s.stations[i], s.insts));
    }
    assert forall|i: int| 0 <= i < RES_COUNT && (#[trigger] t.stations[i]).state != StationState::IDLE implies {
        let st = t.stations[i];
        &&& st.params.len() == st.tags.len()
        &&& forall|j: int| 0 <= j < st.params.len() ==> (#[trigger] st.params[j] is None <==> st.tags[j] is Some)
        &&& st.state != StationState::ISSUE ==> forall|j: int| 0 <= j < st.tags.len() ==> #[trigger] st.tags[j] is None
    } by {
        assert(station_consistent(t.stations[i], t.insts));
    }
}

/// Issue stalls while a jump is in flight and reports that the program goes
/// on; otherwise it reports that the program has ended exactly when the
/// program counter lies outside the program.
pub proof fn law_issue_reports_end(s: PlatformView)
    ensures
        s.busy.contains_key(PC_REG) ==> issue_result(s) && issue_spec(s) == s,
        !s.busy.contains_key(PC_REG) ==> (issue_result(s) <==> 0 <= s.regs[PC_REG as int] < s.insts.len()),
{
}

/// The latencies of the six instruction types: `ADD` and `SUB` take 3
/// cycles, `JUMP` 1, `MUL` 12, `DIV` 40 and `LD` 3.
pub proof fn law_latencies(t: Seq<InstructionType>)
    requires
        standard_types(t),
    ensures
        t[0].name@ == seq!['A', 'D', 'D'] && t[0].cycles == 3,
        t[1].name@ == seq!['S', 'U', 'B'] && t[1].cycles == 3,
        t[2].name@ == seq!['J', 'U', 'M', 'P'] && t[2].cycles == 1,
        t[3].name@ == seq!['M', 'U', 'L'] && t[3].cycles == 12,
        t[4].name@ == seq!['D', 'I', 'V'] && t[4].cycles == 40 && t[4].func == InstFunc::Div,
        t[5].name@ == seq!['L', 'D'] && t[5].cycles == 3,
{
}

/// A loaded `DIV` line becomes an instruction with forty cycles to run.
pub proof fn law_div_loads_with_forty_cycles(s: PlatformView, line: Seq<char>)
    requires
        platform_wf(s),
        line_mnemonic(line) == seq!['D', 'I', 'V'],
    ensures
        load_spec(s, line) matches Ok(t) && t.insts.last().time_left == 40 && t.insts.last().inst_type.func
            == InstFunc::Div && t.insts.len() == s.insts.len() + 1,
{
    let name = line_mnemonic(line);
    let ty = s.types;
    assert(ty[0].name@ != name) by {
        assert(ty[0].name@[0] != name[0]);
    }
    assert(ty[1].name@ != name) by {
        assert(ty[1].name@[0] != name[0]);
    }
    assert(ty[2].name@ != name) by {
        assert(ty[2].name@.len() != name.len());
    }
    assert(ty[3].name@ != name) by {
        assert(ty[3].name@[0] != name[0]);
    }
    assert(ty[4].name@ == name);
    assert(type_named_from(ty, name, 4) == Some(4int));
    assert(type_named_from(ty, name, 3) == Some(4int));
    assert(type_named_from(ty, name, 2) == Some(4int));
    assert(type_named_from(ty, name, 1) == Some(4int));
    assert(type_named_from(ty, name, 0) == Some(4int));
}

/// A station that becomes ready with an operation that succeeds has its
/// instruction's full latency left to run.
pub proof fn law_ready_takes_latency(s: PlatformView, i: int)
    requires
        0 <= i < RES_COUNT,
        becomes_ready(s, i),
        ready_outcome(s, i) is Ok,
    ensures
        check_ready_spec(s).stations[i].state == StationState::READY,
        check_ready_spec(s).stations[i].time_left == s.insts[s.stations[i].inst as int].time_left,
{
}

/// The machine's functional units: stations 0 to 5 share three adders,
/// stations 6 to 8 two multipliers and stations 9 to 11 two load units; a
/// platform that accounts for its units never has more of them busy.
pub proof fn law_unit_limits(s: PlatformView)
    requires
        platform_wf(s),
        units_accounted(s),
    ensures
        forall|i: int| 0 <= i < 6 ==> #[trigger] s.stations[i].belong == 0,
        forall|i: int| 6 <= i < 9 ==> #[trigger] s.stations[i].belong == 1,
        forall|i: int| 9 <= i < 12 ==> #[trigger] s.stations[i].belong == 2,
        0 <= s.running[0] <= 3,
        0 <= s.running[1] <= 2,
        0 <= s.running[2] <= 2,
{
    assert forall|i: int| 0 <= i < 6 implies #[trigger] s.stations[i].belong == 0 by {
        assert(s.stations[i].belong == group_of(i));
    }
    assert forall|i: int| 6 <= i < 9 implies #[trigger] s.stations[i].belong == 1 by {
        assert(s.stations[i].belong == group_of(i));
    }
    assert forall|i: int| 9 <= i < 12 implies #[trigger] s.stations[i].belong == 2 by {
        assert(s.stations[i].belong == group_of(i));
    }
    assert(s.running[0] == units_in_use(s, 0).len());
    assert(s.running[1] == units_in_use(s, 1).len());
    assert(s.running[2] == units_in_use(s, 2).len());
}

} // verus!
