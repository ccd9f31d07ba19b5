use vstd::prelude::*;
use vstd::string::StrSliceExecFns;
use crate::common_data_bus::CommonDataBus;
use crate::instruction::{InstFunc, Instruction, InstructionType, InstructionView, ParamType};
use crate::reserve_station::{cleaned, fresh_station, ReserveStation, StationState, StationView};
use crate::parse::{
    chars_of, lemma_split_commas_nonempty, operand_value, parse_operand, split_commas, split_commas_vec,
};
use crate::semantics::{
    admitted, after_exec, after_issue, ahead_of, all_idle, becomes_ready, bound_of, check_one,
    check_ready_spec, check_ready_traps, current_inst, dest_reg, dispatch_order, dispatch_spec,
    exec_spec, first_idle_from, free_units, group_of, heard, issue_operand, issue_result,
    issue_spec, issue_target, issue_traps, issued_inst, jump_pending, lemma_check_ready_wf,
    lemma_dispatch_wf, lemma_issue_wf, lemma_load_wf, lemma_step_keeps_clock,
    lemma_step_phases_wf, lemma_tick_one_wf, lemma_write_back_upto_wf, line_mnemonic,
    line_operands, listened, load_spec, load_traps, loaded_params, operand_reg, operand_traps,
    operand_values, owns, platform_wf, readied_upto, standard_types, station_consistent,
    stations_usable, step_spec, step_trace, step_traps, tick_one, tick_upto, type_named,
    type_named_from, waiting, waiting_in, write_back_one, write_back_spec, write_back_traps,
    write_back_traps_at, write_back_upto, written_back_upto, COM_COUNT, INS_COUNT, PC_REG,
    PlatformView, REG_COUNT, RES_COUNT, ReadyEventView, StepTraceView,
};
use crate::queue::{
    lemma_ahead_of_order, lemma_prefix_step, lemma_prefix_whole, lemma_queue_ahead_is_prefix,
    lists_waiting, prefix_in_group, sorted_by_queue,
};

verus! {

/// The simulated machine: registers, common data bus, the instruction types
/// it knows, the loaded program, the reservation stations and the number of
/// busy functional units of each group.
pub struct Platform {
    clock: usize,
    regs: Vec<i32>,
    cdb: CommonDataBus,
    inst_type: Vec<InstructionType>,
    inst: Vec<Instruction>,
    stations: Vec<ReserveStation>,
    running_count: Vec<i32>,
}

impl View for Platform {
    type V = PlatformView;

    closed spec fn view(&self) -> PlatformView {
        PlatformView {
            clock: self.clock,
            regs: self.regs@,
            busy: self.cdb@.busy,
            results: self.cdb@.result,
            types: self.inst_type@,
            insts: self.inst@.map_values(|x: Instruction| x@),
            stations: self.stations@.map_values(|x: ReserveStation| x@),
            running: self.running_count@,
        }
    }
}

/// An instruction became ready: which one, its operand values and what it
/// computed.
pub struct ReadyEvent {
    pub inst: usize,
    pub params: Vec<i32>,
    pub outcome: Result<i32, i32>,
}

impl View for ReadyEvent {
    type V = ReadyEventView;

    open spec fn view(&self) -> ReadyEventView {
        ReadyEventView { inst: self.inst, params: self.params@, outcome: self.outcome }
    }
}

/// What happened in one clock cycle: the instructions written back, those
/// that started executing (in queue order), the one issued and those that
/// became ready.
pub struct StepTrace {
    pub written_back: Vec<usize>,
    pub executed: Vec<usize>,
    pub issued: Option<usize>,
    pub readied: Vec<ReadyEvent>,
}

impl View for StepTrace {
    type V = StepTraceView;

    open spec fn view(&self) -> StepTraceView {
        StepTraceView {
            written_back: self.written_back@,
            executed: self.executed@,
            issued: self.issued,
            readied: self.readied@.map_values(|e: ReadyEvent| e@),
        }
    }
}

/// The platform as it starts: clock 0, every register 0, an empty bus, the
/// six standard instruction types, no program, every station idle and no
/// functional unit busy.
pub open spec fn initial_platform(s: PlatformView) -> bool {
    &&& s.clock == 0
    &&& s.regs == Seq::new(REG_COUNT as nat, |i: int| 0i32)
    &&& s.busy == Map::<usize, usize>::empty()
    &&& s.results == Map::<usize, i32>::empty()
    &&& standard_types(s.types)
    &&& s.insts == Seq::<InstructionView>::empty()
    &&& s.stations == Seq::new(RES_COUNT as nat, |i: int| fresh_station(group_of(i)))
    &&& s.running == seq![0i32, 0, 0]
}

impl Platform {
    /// The platform keeps its invariant (`platform_wf`).
    pub open spec fn wf(&self) -> bool {
        platform_wf(self@)
    }

    pub fn new() -> (p: Self)
        ensures
            p.wf(),
            initial_platform(p@),
    {
        let mut inst_type: Vec<InstructionType> = Vec::new();
        inst_type.push(
            InstructionType::new(
                "ADD",
                3,
                &[ParamType::REGISTER, ParamType::REGISTER, ParamType::REGISTER],
                0,
                InstFunc::Add,
                &[0, 1, 2, 3, 4, 5],
            ),
        );
        inst_type.push(
            InstructionType::new(
                "SUB",
                3,
                &[ParamType::REGISTER, ParamType::REGISTER, ParamType::REGISTER],
                0,
                InstFunc::Sub,
                &[0, 1, 2, 3, 4, 5],
            ),
        );
        inst_type.push(
            InstructionType::new(
                "JUMP",
                1,
                &[
                    ParamType::INSTANT,
                    ParamType::REGISTER,
                    ParamType::INSTANT,
                    ParamType::REGISTER,
                    ParamType::REGISTER,
                ],
                4,
                InstFunc::Jump,
                &[0, 1, 2, 3, 4, 5],
            ),
        );
        inst_type.push(
            InstructionType::new(
                "MUL",
                12,
                &[ParamType::REGISTER, ParamType::REGISTER, ParamType::REGISTER],
                0,
                InstFunc::Mul,
                &[6, 7, 8],
            ),
        );
        inst_type.push(
            InstructionType::new(
                "DIV",
                40,
                &[ParamType::REGISTER, ParamType::REGISTER, ParamType::REGISTER],
                0,
                InstFunc::Div,
                &[6, 7, 8],
            ),
        );
        inst_type.push(
            InstructionType::new(
                "LD",
                3,
                &[ParamType::REGISTER, ParamType::INSTANT],
                0,
                InstFunc::Ld,
                &[9, 10, 11],
            ),
        );
        proof {
            reveal_strlit("ADD");
            reveal_strlit("SUB");
            reveal_strlit("JUMP");
            reveal_strlit("MUL");
            reveal_strlit("DIV");
            reveal_strlit("LD");
        }
        assert(standard_types(inst_type@));
        let mut stations: Vec<ReserveStation> = Vec::new();
        let mut i: usize = 0;
        while i < RES_COUNT
            invariant
                i <= RES_COUNT,
                stations@.len() == i,
                forall|k: int| 0 <= k < i ==> #[trigger] stations@[k]@ == fresh_station(group_of(k)),
            decreases RES_COUNT - i,
        {
            let belong: usize = if i < 6 {
                0
            } else if i < 9 {
                1
            } else {
                2
            };
            stations.push(ReserveStation::new(belong));
            i += 1;
        }
        let mut regs: Vec<i32> = Vec::new();
        let mut k: usize = 0;
        while k < REG_COUNT
            invariant
                k <= REG_COUNT,
                regs@ == Seq::new(k as nat, |j: int| 0i32),
            decreases REG_COUNT - k,
        {
            regs.push(0);
            k += 1;
            assert(regs@ =~= Seq::new(k as nat, |j: int| 0i32));
        }
        let mut running_count: Vec<i32> = Vec::new();
        running_count.push(0);
        running_count.push(0);
        running_count.push(0);
        let p = Platform {
            clock: 0,
            regs,
            cdb: CommonDataBus::new(),
            inst_type,
            inst: Vec::new(),
            stations,
            running_count,
        };
        assert(p@.types == inst_type@);
        assert(p@.stations =~= Seq::new(RES_COUNT as nat, |i: int| fresh_station(group_of(i))));
        assert(p@.insts =~= Seq::<InstructionView>::empty());
        assert(p@.running =~= seq![0i32, 0, 0]);
        p
    }

    /// The write-back phase, stopping with `Err` where the register to write
    /// does not exist.
    fn write_back_checked(&mut self) -> (r: Result<Vec<usize>, ()>)
        requires
            platform_wf(old(self)@),
        ensures
            platform_wf(final(self)@),
            r is Err <==> write_back_traps(old(self)@),
            r matches Ok(events) ==> final(self)@ == write_back_spec(old(self)@) && events@
                == written_back_upto(old(self)@, RES_COUNT as nat),
    {
        let ghost s0 = self@;
        let mut events: Vec<usize> = Vec::new();
        let mut i: usize = 0;
        while i < RES_COUNT
            invariant
                i <= RES_COUNT,
                s0 == old(self)@,
                platform_wf(s0),
                platform_wf(self@),
                self@ == write_back_upto(s0, i as nat),
                events@ == written_back_upto(s0, i as nat),
                forall|j: int| 0 <= j < i ==> !#[trigger] write_back_traps_at(write_back_upto(s0, j as nat), j),
            decreases RES_COUNT - i,
        {
            let ghost s = self@;
            proof { lemma_write_back_upto_wf(s0, i as nat); }
            assert(self.stations@[i as int]@ == s.stations[i as int]);
            if self.stations[i].state == StationState::WRITE_BACK {
                let ghost st = s.stations[i as int];
                assert(station_consistent(st, s.insts));
                let inst_idx = self.stations[i].inst;
                assert(self.inst@[inst_idx as int]@ == s.insts[inst_idx as int]);
                let dest = self.inst[inst_idx].inst_type.dest;
                let d: usize = match self.stations[i].params[dest] {
                    Some(v) => #[verifier::truncate] (v as usize),
                    // Not reached: the station is past ISSUE, so its destination value is known.
                    None => 0,
                };
                assert(d == dest_reg(s, st));
                let result = self.stations[i].result;
                let owner = self.cdb.get_busy(d);
                let is_owner = match owner {
                    Some(x) => x == i,
                    None => false,
                };
                assert(is_owner == owns(s, d, i as int));
                if is_owner && d >= REG_COUNT {
                    proof {
                        let k: int = i as int;
                        assert(write_back_traps_at(write_back_upto(s0, k as nat), k));
                    }
                    return Err(());
                }
                events.push(inst_idx);
                self.cdb.set_result(i, result);
                if is_owner {
                    self.regs[d] = result;
                    self.cdb.clean_busy(d);
                }
                if self.inst[inst_idx].write_back_time == -1 {
                    self.inst[inst_idx].write_back_time = #[verifier::truncate] (self.clock as i32);
                }
                let b = self.stations[i].belong;
                self.running_count[b] = self.running_count[b].wrapping_sub(1);
                self.stations[i].clean();
                assert(self@.insts =~= write_back_one(s, i as int).insts);
                assert(self@.stations =~= write_back_one(s, i as int).stations);
                assert(self@ == write_back_one(s, i as int));
            } else {
                assert(s == write_back_one(s, i as int));
            }
            proof {
                assert(!write_back_traps_at(write_back_upto(s0, i as nat), i as int));
            }
            i += 1;
            assert(events@ =~= written_back_upto(s0, i as nat));
        }
        proof {
            lemma_write_back_upto_wf(s0, RES_COUNT as nat);
            assert forall|k: int| 0 <= k < RES_COUNT implies !#[trigger] write_back_traps_at(write_back_upto(s0, k as nat), k) by {}
        }
        Ok(events)
    }

    /// Whether station `j` is ahead of station `i` in the queue for a unit.
    fn ahead(&self, j: usize, i: usize) -> (r: bool)
        requires
            platform_wf(self@),
            j < RES_COUNT,
            i < RES_COUNT,
        ensures
            r == ahead_of(self@, j as int, i as int),
    {
        assert(self.stations@[j as int]@ == self@.stations[j as int]);
        assert(self.stations@[i as int]@ == self@.stations[i as int]);
        let a = &self.stations[j];
        let b = &self.stations[i];
        a.ready_punch < b.ready_punch || (a.ready_punch == b.ready_punch && (a.inst < b.inst || (
        a.inst == b.inst && j < i)))
    }

    /// The waiting stations, sorted into queue order.
    fn waiting_queue(&self) -> (l: Vec<usize>)
        requires
            platform_wf(self@),
        ensures
            sorted_by_queue(self@, l@),
            lists_waiting(self@, l@),
    {
        let ghost s = self@;
        proof { lemma_ahead_of_order(s); }
        let mut l: Vec<usize> = Vec::new();
        let mut i: usize = 0;
        while i < RES_COUNT
            invariant
                s == self@,
                platform_wf(s),
                i <= RES_COUNT,
                sorted_by_queue(s, l@),
                forall|a: int| 0 <= a < l@.len() ==> waiting(s, #[trigger] l@[a] as int) && l@[a] < i,
                forall|j: int| 0 <= j < i && #[trigger] waiting(s, j) ==> l@.contains(j as usize),
            decreases RES_COUNT - i,
        {
            assert(self.stations@[i as int]@ == s.stations[i as int]);
            if self.stations[i].state == StationState::READY {
                let mut p: usize = 0;
                while p < l.len() && self.ahead(l[p], i)
                    invariant
                        s == self@,
                        platform_wf(s),
                        i < RES_COUNT,
                        p <= l@.len(),
                        forall|a: int| 0 <= a < l@.len() ==> waiting(s, #[trigger] l@[a] as int) && l@[a] < i,
                        forall|q: int| 0 <= q < p ==> #[trigger] ahead_of(s, l@[q] as int, i as int),
                    decreases l@.len() - p,
                {
                    p += 1;
                }
                let ghost old_l = l@;
                proof {
                    lemma_ahead_of_order(s);
                    if p < old_l.len() {
                        assert(waiting(s, old_l[p as int] as int));
                        assert(old_l[p as int] != i);
                        assert(ahead_of(s, i as int, old_l[p as int] as int));
                        assert forall|q: int| p <= q < old_l.len() implies #[trigger] ahead_of(s, i as int, old_l[q] as int) by {
                            if q > p {
                                assert(ahead_of(s, old_l[p as int] as int, old_l[q] as int));
                            }
                        }
                    }
                }
                l.insert(p, i);
                proof {
                    assert forall|a: int, b: int| 0 <= a < b < l@.len() implies #[trigger] ahead_of(s, l@[a] as int, l@[b] as int) by {
                        if a < p && b < p {
                            assert(l@[a] == old_l[a] && l@[b] == old_l[b]);
                        } else if a < p && b == p {
                        } else if a < p {
                            assert(l@[b] == old_l[b - 1]);
                            assert(ahead_of(s, old_l[a] as int, i as int));
                        } else if a == p {
                            assert(l@[b] == old_l[b - 1]);
                        } else {
                            assert(l@[a] == old_l[a - 1] && l@[b] == old_l[b - 1]);
                        }
                    }
                    assert forall|j: int| 0 <= j < i + 1 && #[trigger] waiting(s, j) implies l@.contains(j as usize) by {
                        if j == i {
                            assert(l@[p as int] == i);
                        } else {
                            assert(old_l.contains(j as usize));
                            let q = choose|q: int| 0 <= q < old_l.len() && old_l[q] == j as usize;
                            if q < p {
                                assert(l@[q] == j as usize);
                            } else {
                                assert(l@[q + 1] == j as usize);
                            }
                        }
                    }
                    assert forall|a: int| 0 <= a < l@.len() implies waiting(s, #[trigger] l@[a] as int) && l@[a] < i + 1 by {
                        if a < p {
                            assert(l@[a] == old_l[a]);
                        } else if a > p {
                            assert(l@[a] == old_l[a - 1]);
                        }
                    }
                }
            }
            i += 1;
        }
        l
    }

    /// Hands out functional units to the waiting stations in queue order, and
    /// returns the stations that got one, in that order.
    fn dispatch(&mut self) -> (order: Vec<usize>)
        requires
            platform_wf(old(self)@),
        ensures
            platform_wf(final(self)@),
            final(self)@ == dispatch_spec(old(self)@),
            dispatch_order(old(self)@, order@),
    {
        let ghost s0 = self@;
        let l = self.waiting_queue();
        let mut order: Vec<usize> = Vec::new();
        let mut m: usize = 0;
        proof {
            assert forall|g: int| 0 <= g < COM_COUNT implies #[trigger] self@.running[g] == s0.running[g]
                + min_int(prefix_in_group(s0, l@, 0, g).len() as int, free_units(s0, g)) by {
                assert(prefix_in_group(s0, l@, 0, g) =~= Set::empty());
            }
            assert(self@.stations =~= partly_dispatched(s0, l@, 0));
        }
        while m < l.len()
            invariant
                s0 == old(self)@,
                platform_wf(s0),
                sorted_by_queue(s0, l@),
                lists_waiting(s0, l@),
                m <= l@.len(),
                self.stations@.len() == RES_COUNT,
                self.running_count@.len() == COM_COUNT,
                self@.stations == partly_dispatched(s0, l@, m as int),
                self@.running.len() == COM_COUNT,
                forall|g: int| 0 <= g < COM_COUNT ==> #[trigger] self@.running[g] == s0.running[g]
                    + min_int(prefix_in_group(s0, l@, m as int, g).len() as int, free_units(s0, g)),
                self@.clock == s0.clock,
                self@.regs == s0.regs,
                self@.busy == s0.busy,
                self@.results == s0.results,
                self@.types == s0.types,
                self@.insts == s0.insts,
                forall|a: int, b: int| 0 <= a < b < order@.len() ==> #[trigger] ahead_of(s0, order@[a] as int, order@[b] as int),
                forall|a: int| 0 <= a < order@.len() ==> admitted(s0, #[trigger] order@[a] as int) && l@.take(m as int).contains(order@[a]),
                forall|k: int| 0 <= k < RES_COUNT && #[trigger] admitted(s0, k) && l@.take(m as int).contains(k as usize) ==> order@.contains(k as usize),
            decreases l@.len() - m,
        {
            let j = l[m];
            proof {
                lemma_ahead_of_order(s0);
                lemma_queue_ahead_is_prefix(s0, l@, m as int);
                assert forall|g: int| 0 <= g < COM_COUNT implies #[trigger] prefix_in_group(s0, l@, m as int, g).finite() by {
                    lemma_prefix_step(s0, l@, m as int, g);
                }
                assert(waiting(s0, j as int));
                assert(!l@.take(m as int).contains(j)) by {
                    if l@.take(m as int).contains(j) {
                        let q = choose|q: int| 0 <= q < m && l@.take(m as int)[q] == j;
                        assert(l@[q] == l@[m as int]);
                        assert(ahead_of(s0, l@[q] as int, l@[m as int] as int));
                    }
                }
            }
            assert(self.stations@.len() == RES_COUNT);
            assert(self.stations@[j as int]@ == self@.stations[j as int]);
            assert(self@.stations[j as int] == s0.stations[j as int]);
            let b = self.stations[j].belong;
            assert(b == group_of(j as int));
            let ghost c = prefix_in_group(s0, l@, m as int, b as int).len() as int;
            let ghost free = free_units(s0, b as int);
            assert(admitted(s0, j as int) == (c < free));
            let ghost before = self@;
            let ghost old_order = order@;
            if self.running_count[b] < upper_bound(b) {
                assert(c < free);
                self.running_count[b] = self.running_count[b] + 1;
                self.stations[j].state = StationState::EXEC;
                order.push(j);
            } else {
                assert(!(c < free));
            }
            proof {
                let t0 = l@.take(m as int);
                let t1 = l@.take(m as int + 1);
                assert(t1 =~= t0.push(j));
                assert forall|g: int| 0 <= g < COM_COUNT implies #[trigger] self@.running[g] == s0.running[g]
                    + min_int(prefix_in_group(s0, l@, m as int + 1, g).len() as int, free_units(s0, g)) by {
                    lemma_prefix_step(s0, l@, m as int, g);
                }
                assert forall|k: int| 0 <= k < RES_COUNT implies #[trigger] self@.stations[k] == partly_dispatched(s0, l@, m as int + 1)[k] by {
                    if k != j {
                        assert(self@.stations[k] == before.stations[k]);
                        assert(t1.contains(k as usize) == t0.contains(k as usize)) by {
                            if t1.contains(k as usize) {
                                let q = choose|q: int| 0 <= q < t1.len() && t1[q] == k as usize;
                                assert(t0[q] == k as usize);
                            }
                            if t0.contains(k as usize) {
                                let q = choose|q: int| 0 <= q < t0.len() && t0[q] == k as usize;
                                assert(t1[q] == k as usize);
                            }
                        }
                    } else {
                        assert(t1[m as int] == j);
                    }
                }
                assert(self@.stations =~= partly_dispatched(s0, l@, m as int + 1));
                assert forall|a: int| 0 <= a < order@.len() implies admitted(s0, #[trigger] order@[a] as int) && t1.contains(order@[a]) by {
                    if a < before_len(order@, admitted(s0, j as int)) {
                        let q = choose|q: int| 0 <= q < t0.len() && t0[q] == order@[a];
                        assert(t1[q] == order@[a]);
                    } else {
                        assert(t1[m as int] == j);
                    }
                }
                assert forall|x: int, y: int| 0 <= x < y < order@.len() implies #[trigger] ahead_of(s0, order@[x] as int, order@[y] as int) by {
                    if y == order@.len() - 1 && admitted(s0, j as int) {
                        let q = choose|q: int| 0 <= q < t0.len() && t0[q] == order@[x];
                        assert(l@[q] == order@[x]);
                        assert(ahead_of(s0, l@[q] as int, l@[m as int] as int));
                    }
                }
                assert forall|k: int| 0 <= k < RES_COUNT && #[trigger] admitted(s0, k) && t1.contains(k as usize) implies order@.contains(k as usize) by {
                    if k == j {
                        assert(order@[order@.len() - 1] == j);
                    } else {
                        let q = choose|q: int| 0 <= q < t1.len() && t1[q] == k as usize;
                        assert(q != m);
                        assert(t0[q] == k as usize);
                        assert(old_order.contains(k as usize));
                        let r = choose|r: int| 0 <= r < old_order.len() && old_order[r] == k as usize;
                        assert(order@[r] == k as usize);
                    }
                }
            }
            m += 1;
        }
        proof {
            assert(l@.take(l@.len() as int) =~= l@);
            assert forall|g: int| 0 <= g < COM_COUNT implies #[trigger] prefix_in_group(s0, l@, l@.len() as int, g) == waiting_in(s0, g) by {
                lemma_prefix_whole(s0, l@, g);
            }
            assert(self@.stations =~= dispatch_spec(s0).stations);
            assert(self@.running =~= dispatch_spec(s0).running);
            assert(self@ == dispatch_spec(s0));
            lemma_dispatch_wf(s0);
        }
        order
    }

    /// Every executing station counts down one cycle.
    fn tick(&mut self)
        requires
            platform_wf(old(self)@),
        ensures
            platform_wf(final(self)@),
            final(self)@ == tick_upto(old(self)@, RES_COUNT as nat),
    {
        let ghost s0 = self@;
        let mut i: usize = 0;
        while i < RES_COUNT
            invariant
                i <= RES_COUNT,
                s0 == old(self)@,
                platform_wf(s0),
                platform_wf(self@),
                self@ == tick_upto(s0, i as nat),
            decreases RES_COUNT - i,
        {
            let ghost s = self@;
            assert(self.stations@[i as int]@ == s.stations[i as int]);
            if self.stations[i].state == StationState::EXEC {
                let left = self.stations[i].time_left.wrapping_sub(1);
                self.stations[i].time_left = left;
                if left == 0 {
                    let inst_idx = self.stations[i].inst;
                    assert(station_consistent(s.stations[i as int], s.insts));
                    assert(self.inst@[inst_idx as int]@ == s.insts[inst_idx as int]);
                    if self.inst[inst_idx].exec_time == -1 {
                        self.inst[inst_idx].exec_time = #[verifier::truncate] (self.clock as i32);
                    }
                    self.stations[i].state = StationState::WRITE_BACK;
                    assert(self@.insts =~= tick_one(s, i as int).insts);
                }
                assert(self@.stations =~= tick_one(s, i as int).stations);
                assert(self@ == tick_one(s, i as int));
            }
            proof { lemma_tick_one_wf(s, i as int); }
            i += 1;
        }
    }

    /// The execute phase: the waiting stations that get a functional unit
    /// start executing, then every executing station counts down one cycle.
    /// Returns the instructions that started, in queue order.
    pub fn exec(&mut self) -> (executed: Vec<usize>)
        requires
            old(self).wf(),
        ensures
            final(self).wf(),
            final(self)@ == exec_spec(old(self)@),
            exists|order: Seq<usize>|
                dispatch_order(old(self)@, order) && executed@ == order.map_values(
                    |k: usize| old(self)@.stations[k as int].inst,
                ),
    {
        let ghost s0 = self@;
        let order = self.dispatch();
        let mut executed: Vec<usize> = Vec::new();
        let mut a: usize = 0;
        while a < order.len()
            invariant
                a <= order@.len(),
                dispatch_order(s0, order@),
                platform_wf(self@),
                self@ == dispatch_spec(s0),
                executed@ == order@.take(a as int).map_values(|k: usize| s0.stations[k as int].inst),
            decreases order@.len() - a,
        {
            let k = order[a];
            assert(admitted(s0, k as int));
            assert(self.stations@[k as int]@ == self@.stations[k as int]);
            executed.push(self.stations[k].inst);
            a += 1;
            assert(executed@ =~= order@.take(a as int).map_values(|k: usize| s0.stations[k as int].inst));
        }
        assert(order@.take(order@.len() as int) =~= order@);
        self.tick();
        executed
    }

    /// Reads the operands of the instruction at `pc` for the station it goes to,
    /// stopping with `Err` where an operand cannot be read.
    fn read_operands(&self, pc: usize) -> (r: Result<(Vec<Option<i32>>, Vec<Option<usize>>), ()>)
        requires
            platform_wf(self@),
            pc < self@.insts.len(),
        ensures
            ({
                let inst = self@.insts[pc as int];
                let n = inst.param.len();
                &&& r is Err <==> exists|j: int| 0 <= j < n && #[trigger] operand_traps(self@, inst, j)
                &&& r matches Ok((params, tags)) ==> {
                    &&& params@ == Seq::new(n, |j: int| issue_operand(self@, inst, j).0)
                    &&& tags@ == Seq::new(n, |j: int| issue_operand(self@, inst, j).1)
                }
            }),
    {
        let ghost s = self@;
        let ghost inst = s.insts[pc as int];
        assert(self.inst@[pc as int]@ == inst);
        let t = self.inst[pc].inst_type;
        let n = self.inst[pc].param.len();
        let mut params: Vec<Option<i32>> = Vec::new();
        let mut tags: Vec<Option<usize>> = Vec::new();
        let mut j: usize = 0;
        while j < n
            invariant
                s == self@,
                platform_wf(s),
                pc < s.insts.len(),
                inst == s.insts[pc as int],
                t == inst.inst_type,
                n == inst.param.len(),
                j <= n,
                params@ == Seq::new(j as nat, |q: int| issue_operand(s, inst, q).0),
                tags@ == Seq::new(j as nat, |q: int| issue_operand(s, inst, q).1),
                forall|q: int| 0 <= q < j ==> !#[trigger] operand_traps(s, inst, q),
            decreases n - j,
        {
            let v = self.inst[pc].param[j];
            let r: usize = #[verifier::truncate] (v as usize);
            assert(r == operand_reg(inst, j as int));
            if j == t.dest {
                params.push(Some(v));
                tags.push(None);
            } else if j >= t.param_type.len() {
                assert(operand_traps(s, inst, j as int));
                return Err(());
            } else {
                match t.param_type[j] {
                    ParamType::INSTANT => {
                        params.push(Some(v));
                        tags.push(None);
                    },
                    ParamType::REGISTER => {
                        match self.cdb.get_busy(r) {
                            Some(x) => {
                                params.push(None);
                                tags.push(Some(x));
                            },
                            None => {
                                if r >= REG_COUNT {
                                    assert(operand_traps(s, inst, j as int));
                                    return Err(());
                                }
                                params.push(Some(self.regs[r]));
                                tags.push(None);
                            },
                        }
                    },
                }
            }
            j += 1;
            assert(params@ =~= Seq::new(j as nat, |q: int| issue_operand(s, inst, q).0));
            assert(tags@ =~= Seq::new(j as nat, |q: int| issue_operand(s, inst, q).1));
        }
        Ok((params, tags))
    }

    /// The issue phase, stopping with `Err` where the instruction at the
    /// program counter cannot be issued.
    fn issue_checked(&mut self) -> (r: Result<(bool, Option<usize>), ()>)
        requires
            platform_wf(old(self)@),
        ensures
            platform_wf(final(self)@),
            r is Err <==> issue_traps(old(self)@),
            r matches Ok((more, issued)) ==> {
                &&& final(self)@ == issue_spec(old(self)@)
                &&& more == issue_result(old(self)@)
                &&& issued == (if issue_target(old(self)@) is Some {
                    Some(old(self)@.regs[PC_REG as int] as usize)
                } else {
                    None
                })
            },
    {
        let ghost s = self@;
        let pc_val = self.regs[PC_REG];
        if self.cdb.get_busy(PC_REG).is_some() {
            return Ok((true, None));
        }
        if pc_val < 0 || pc_val as usize >= self.inst.len() {
            return Ok((false, None));
        }
        let pc = pc_val as usize;
        assert(self.inst@[pc as int]@ == s.insts[pc as int]);
        let t = self.inst[pc].inst_type;
        let cands = t.stations;
        assert(stations_usable(s.insts[pc as int].inst_type));
        let mut m: usize = 0;
        while m < cands.len()
            invariant
                s == self@,
                s == old(self)@,
                platform_wf(s),
                pc == s.regs[PC_REG as int],
                pc_val == s.regs[PC_REG as int],
                pc < s.insts.len(),
                !jump_pending(s),
                t == s.insts[pc as int].inst_type,
                cands@ == t.stations@,
                stations_usable(t),
                m <= cands@.len(),
                first_idle_from(s, cands@, 0) == first_idle_from(s, cands@, m as int),
            decreases cands@.len() - m,
        {
            let k = cands[m];
            assert(self.stations@[k as int]@ == s.stations[k as int]);
            if self.stations[k].state == StationState::IDLE {
                let ghost inst = s.insts[pc as int];
                assert(issue_target(s) == Some(k));
                let dest = t.dest;
                let n = self.inst[pc].param.len();
                if dest >= n {
                    return Err(());
                }
                let operands = self.read_operands(pc);
                let (params, tags) = match operands {
                    Ok(pt) => pt,
                    Err(_) => {
                        return Err(());
                    },
                };
                let d = self.inst[pc].param[dest];
                let dreg: usize = #[verifier::truncate] (d as usize);
                self.stations[k].state = StationState::ISSUE;
                self.stations[k].inst = pc;
                if self.inst[pc].issue_time == -1 {
                    self.inst[pc].issue_time = #[verifier::truncate] (self.clock as i32);
                }
                self.stations[k].params = params;
                self.stations[k].tags = tags;
                self.cdb.set_busy(dreg, k);
                self.regs[PC_REG] = pc_val.wrapping_add(1);
                proof {
                    let e = issue_spec(s);
                    assert(self@.insts =~= e.insts);
                    assert(self@.stations =~= e.stations);
                    assert(self@.regs =~= e.regs);
                    assert(self@ == e);
                    lemma_issue_wf(s);
                }
                return Ok((true, Some(pc)));
            }
            m += 1;
        }
        assert(issue_target(s) is None);
        Ok((true, None))
    }

    /// Station `i` listens to the bus for the operands it waits for.
    fn listen(&mut self, i: usize)
        requires
            old(self)@.stations.len() == RES_COUNT,
            i < RES_COUNT,
            old(self)@.stations[i as int].params.len() == old(self)@.stations[i as int].tags.len(),
        ensures
            final(self).stations@.len() == RES_COUNT,
            final(self)@ == (PlatformView {
                stations: old(self)@.stations.update(i as int, listened(old(self)@, old(self)@.stations[i as int])),
                ..old(self)@
            }),
    {
        let ghost s = self@;
        let ghost st = s.stations[i as int];
        assert(self.stations@[i as int]@ == st);
        let n = self.stations[i].tags.len();
        let mut j: usize = 0;
        assert(Seq::new(0, |q: int| heard(s, st, q).0) + st.params.skip(0) =~= st.params);
        assert(Seq::new(0, |q: int| heard(s, st, q).1) + st.tags.skip(0) =~= st.tags);
        assert(self@.stations[i as int] == st);
        while j < n
            invariant
                s == old(self)@,
                s.stations.len() == RES_COUNT,
                i < RES_COUNT,
                st == s.stations[i as int],
                n == st.tags.len(),
                n == st.params.len(),
                j <= n,
                self.stations@.len() == RES_COUNT,
                self@ == (PlatformView { stations: self@.stations, ..s }),
                forall|k: int| 0 <= k < RES_COUNT && k != i ==> #[trigger] self@.stations[k] == s.stations[k],
                self@.stations[i as int] == (StationView {
                    params: Seq::new(j as nat, |q: int| heard(s, st, q).0) + st.params.skip(j as int),
                    tags: Seq::new(j as nat, |q: int| heard(s, st, q).1) + st.tags.skip(j as int),
                    ..st
                }),
            decreases n - j,
        {
            let ghost cur = self@.stations[i as int];
            let ghost before = self@;
            assert(self.stations@[i as int]@ == cur);
            assert(cur.tags[j as int] == st.tags[j as int]);
            assert(cur.params[j as int] == st.params[j as int]);
            match self.stations[i].tags[j] {
                Some(t) => {
                    match self.cdb.get_result(t) {
                        Some(v) => {
                            self.stations[i].tags[j] = None;
                            self.stations[i].params[j] = Some(v);
                        },
                        None => {},
                    }
                },
                None => {},
            }
            j += 1;
            assert forall|k: int| 0 <= k < RES_COUNT && k != i implies #[trigger] self@.stations[k] == s.stations[k] by {
                assert(self@.stations[k] == before.stations[k]);
            }
            assert(self@.stations[i as int].params =~= Seq::new(j as nat, |q: int| heard(s, st, q).0) + st.params.skip(j as int));
            assert(self@.stations[i as int].tags =~= Seq::new(j as nat, |q: int| heard(s, st, q).1) + st.tags.skip(j as int));
        }
        assert(self@.stations =~= s.stations.update(i as int, listened(s, st)));
    }

    /// The operand values of station `i`, every one of them known.
    fn operand_values_of(&self, i: usize) -> (vals: Vec<i32>)
        requires
            i < self@.stations.len(),
            forall|j: int| 0 <= j < self@.stations[i as int].params.len() ==> (#[trigger] self@.stations[i as int].params[j]) is Some,
        ensures
            vals@ == operand_values(self@.stations[i as int]),
    {
        let ghost st = self@.stations[i as int];
        assert(self.stations@[i as int]@ == st);
        let n = self.stations[i].params.len();
        let mut vals: Vec<i32> = Vec::new();
        let mut j: usize = 0;
        while j < n
            invariant
                i < self@.stations.len(),
                st == self@.stations[i as int],
                n == st.params.len(),
                forall|q: int| 0 <= q < n ==> (#[trigger] st.params[q]) is Some,
                j <= n,
                vals@ == Seq::new(j as nat, |q: int| st.params[q]->Some_0),
            decreases n - j,
        {
            assert(self.stations@[i as int]@ == st);
            let v = match self.stations[i].params[j] {
                Some(v) => v,
                // Not reached: every operand of a ready station is known.
                None => 0,
            };
            vals.push(v);
            j += 1;
            assert(vals@ =~= Seq::new(j as nat, |q: int| st.params[q]->Some_0));
        }
        vals
    }

    /// The check-ready phase, stopping with `Err` where an instruction that
    /// becomes ready cannot be carried out.
    fn check_ready_checked(&mut self) -> (r: Result<(bool, Vec<ReadyEvent>), ()>)
        requires
            platform_wf(old(self)@),
        ensures
            platform_wf(final(self)@),
            r is Err <==> check_ready_traps(old(self)@),
            r matches Ok((done, events)) ==> {
                &&& final(self)@ == check_ready_spec(old(self)@)
                &&& done == all_idle(old(self)@)
                &&& events@.map_values(|e: ReadyEvent| e@) == readied_upto(old(self)@, RES_COUNT as nat)
            },
    {
        let ghost s0 = self@;
        let mut done = true;
        let mut events: Vec<ReadyEvent> = Vec::new();
        let mut i: usize = 0;
        assert(self@.stations =~= Seq::new(RES_COUNT as nat, |k: int| if k < 0 { check_one(s0, k) } else { s0.stations[k] }));
        while i < RES_COUNT
            invariant
                s0 == old(self)@,
                platform_wf(s0),
                i <= RES_COUNT,
                self.stations@.len() == RES_COUNT,
                self@ == (PlatformView {
                    stations: Seq::new(RES_COUNT as nat, |k: int| if k < i { check_one(s0, k) } else { s0.stations[k] }),
                    ..s0
                }),
                done == (forall|k: int| 0 <= k < i ==> #[trigger] s0.stations[k].state == StationState::IDLE),
                events@.map_values(|e: ReadyEvent| e@) == readied_upto(s0, i as nat),
                forall|k: int| 0 <= k < i ==> !(#[trigger] becomes_ready(s0, k) && s0.insts[s0.stations[k].inst as int].inst_type.func.traps(
                    operand_values(listened(s0, s0.stations[k])))),
            decreases RES_COUNT - i,
        {
            let ghost before = self@;
            let ghost st = s0.stations[i as int];
            assert(before.stations[i as int] == st);
            assert(self.stations@[i as int]@ == st);
            assert(station_consistent(st, s0.insts));
            if self.stations[i].state == StationState::ISSUE {
                self.listen(i);
                let ghost l = listened(s0, st);
                assert(listened(before, st).params =~= l.params);
                assert(listened(before, st).tags =~= l.tags);
                assert(listened(before, st) == l);
                let ghost mid_vec = self.stations@;
                assert forall|k: int| 0 <= k < RES_COUNT && k != i implies #[trigger] mid_vec[k]@ == before.stations[k] by {
                    assert(self@.stations[k] == before.stations[k]);
                }
                assert(self@.stations[i as int] == l);
                assert(self.stations@[i as int]@ == l);
                if self.stations[i].ready() {
                    assert(becomes_ready(s0, i as int));
                    assert forall|j: int| 0 <= j < l.params.len() implies (#[trigger] l.params[j]) is Some by {
                        assert(st.params[j] is None <==> st.tags[j] is Some);
                        assert(l.tags[j] is None);
                    }
                    let vals = self.operand_values_of(i);
                    let inst_idx = self.stations[i].inst;
                    assert(self.inst@[inst_idx as int]@ == s0.insts[inst_idx as int]);
                    let func = self.inst[inst_idx].inst_type.func;
                    if func.traps_on(vals.as_slice()) {
                        proof {
                            let k: int = i as int;
                            assert(becomes_ready(s0, k) && s0.insts[s0.stations[k].inst as int].inst_type.func.traps(
                                operand_values(listened(s0, s0.stations[k]))));
                        }
                        return Err(());
                    }
                    let res = func.call(vals.as_slice());
                    self.stations[i].state = StationState::READY;
                    self.stations[i].ready_punch = #[verifier::truncate] (self.clock as i32);
                    match res {
                        Err(e) => {
                            self.stations[i].result = e;
                            self.stations[i].time_left = 1;
                        },
                        Ok(v) => {
                            self.stations[i].result = v;
                            self.stations[i].time_left = self.inst[inst_idx].time_left;
                        },
                    }
                    events.push(ReadyEvent { inst: inst_idx, params: vals, outcome: res });
                    assert(self@.stations[i as int] == check_one(s0, i as int));
                    assert forall|k: int| 0 <= k < RES_COUNT && k != i implies #[trigger] self@.stations[k] == before.stations[k] by {
                        assert(self.stations@[k] == mid_vec[k]);
                    }
                } else {
                    assert(self@.stations[i as int] == check_one(s0, i as int));
                }
            } else {
                assert(self@.stations[i as int] == check_one(s0, i as int));
            }
            assert forall|k: int| 0 <= k < RES_COUNT && k != i implies #[trigger] self@.stations[k] == before.stations[k] by {}
            if self.stations[i].state != StationState::IDLE {
                done = false;
            }
            proof {
                assert(self@.stations =~= Seq::new(RES_COUNT as nat, |k: int| if k < i + 1 { check_one(s0, k) } else { s0.stations[k] }));
                assert(events@.map_values(|e: ReadyEvent| e@) =~= readied_upto(s0, (i + 1) as nat));
            }
            i += 1;
        }
        proof {
            assert(self@.stations =~= check_ready_spec(s0).stations);
            lemma_check_ready_wf(s0);
        }
        Ok((done, events))
    }

    /// The write-back phase: every station that finished broadcasts its
    /// result, writes its destination register if it is still the register's
    /// latest producer, and becomes idle. Returns the instructions written
    /// back, in station order.
    pub fn write_back(&mut self) -> (written_back: Vec<usize>)
        requires
            old(self).wf(),
            !write_back_traps(old(self)@),
        ensures
            final(self).wf(),
            final(self)@ == write_back_spec(old(self)@),
            written_back@ == written_back_upto(old(self)@, RES_COUNT as nat),
    {
        match self.write_back_checked() {
            Ok(events) => events,
            // Not reached: `requires` rules the failure out.
            Err(_) => Vec::new(),
        }
    }

    /// The issue phase: unless a jump is in flight or the program has ended,
    /// the instruction at the program counter goes to the first idle station
    /// its type may use. Returns `false` once the program has ended, and the
    /// instruction issued, if any.
    pub fn issue(&mut self) -> (r: (bool, Option<usize>))
        requires
            old(self).wf(),
            !issue_traps(old(self)@),
        ensures
            final(self).wf(),
            final(self)@ == issue_spec(old(self)@),
            r.0 == issue_result(old(self)@),
            r.1 == issued_inst(old(self)@),
    {
        match self.issue_checked() {
            Ok(r) => r,
            // Not reached: `requires` rules the failure out.
            Err(_) => (true, None),
        }
    }

    /// The check-ready phase: every issued station takes the values broadcast
    /// in this cycle; those that know all their operands compute their result
    /// and become ready. Returns whether every station is idle, and the
    /// stations that became ready, in station order.
    pub fn check_ready(&mut self) -> (r: (bool, Vec<ReadyEvent>))
        requires
            old(self).wf(),
            !check_ready_traps(old(self)@),
        ensures
            final(self).wf(),
            final(self)@ == check_ready_spec(old(self)@),
            r.0 == all_idle(old(self)@),
            r.1@.map_values(|e: ReadyEvent| e@) == readied_upto(old(self)@, RES_COUNT as nat),
    {
        match self.check_ready_checked() {
            Ok(r) => r,
            // Not reached: `requires` rules the failure out.
            Err(_) => (true, Vec::new()),
        }
    }

    /// One clock cycle, stopping with `None` where one of its phases cannot
    /// be carried out.
    pub fn try_step(&mut self) -> (r: Option<(bool, StepTrace)>)
        requires
            old(self).wf(),
        ensures
            r is None <==> step_traps(old(self)@),
            r matches Some((done, trace)) ==> {
                &&& final(self).wf()
                &&& final(self)@ == step_spec(old(self)@)
                &&& done == all_idle(after_issue(old(self)@))
                &&& step_trace(old(self)@, trace@)
            },
    {
        let ghost s0 = self@;
        let written_back = match self.write_back_checked() {
            Ok(events) => events,
            Err(_) => {
                return None;
            },
        };
        let executed = self.exec();
        let (_more, issued) = match self.issue_checked() {
            Ok(r) => r,
            Err(_) => {
                return None;
            },
        };
        let (done, readied) = match self.check_ready_checked() {
            Ok(r) => r,
            Err(_) => {
                return None;
            },
        };
        let ghost s4 = self@;
        assert(s4 == check_ready_spec(after_issue(s0)));
        proof { lemma_step_keeps_clock(s0); }
        self.cdb.clean_result();
        self.clock = self.clock.wrapping_add(1);
        let trace = StepTrace { written_back, executed, issued, readied };
        proof {
            lemma_step_phases_wf(s0);
            assert(self@.results =~= Map::<usize, i32>::empty());
            assert(self@ == step_spec(s0));
            assert(trace@.readied == readied_upto(after_issue(s0), RES_COUNT as nat));
        }
        Some((done, trace))
    }

    /// One clock cycle: write back, execute, issue and check ready, then the
    /// bus forgets this cycle's broadcasts and the clock advances. Returns
    /// whether every station was idle, and what happened in the cycle.
    pub fn step(&mut self) -> (r: (bool, StepTrace))
        requires
            old(self).wf(),
            !step_traps(old(self)@),
        ensures
            final(self).wf(),
            final(self)@ == step_spec(old(self)@),
            r.0 == all_idle(after_issue(old(self)@)),
            step_trace(old(self)@, r.1@),
    {
        match self.try_step() {
            Some(r) => r,
            // Not reached: `requires` rules the failure out.
            None => (true, StepTrace { written_back: Vec::new(), executed: Vec::new(), issued: None, readied: Vec::new() }),
        }
    }

    /// The position of the instruction type named `name`, if there is one.
    fn find_type(&self, name: &Vec<char>) -> (r: Option<usize>)
        requires
            platform_wf(self@),
        ensures
            r matches Some(k) ==> type_named(self@.types, name@) == Some(k as int) && k < INS_COUNT,
            r is None ==> type_named(self@.types, name@) is None,
    {
        let mut k: usize = 0;
        while k < self.inst_type.len()
            invariant
                platform_wf(self@),
                k <= self@.types.len(),
                type_named(self@.types, name@) == type_named_from(self@.types, name@, k as int),
            decreases self@.types.len() - k,
        {
            if str_matches(self.inst_type[k].name, name) {
                return Some(k);
            }
            k += 1;
        }
        None
    }

    /// Loading one program line, stopping with `None` where an operand of a
    /// known instruction is not a number.
    fn load_checked(&mut self, line: &String) -> (r: Option<Result<(), Vec<char>>>)
        requires
            platform_wf(old(self)@),
        ensures
            platform_wf(final(self)@),
            r is None <==> load_traps(old(self)@, line@),
            r is None ==> final(self)@ == old(self)@,
            r matches Some(res) ==> match load_spec(old(self)@, line@) {
                Ok(t) => res is Ok && final(self)@ == t,
                Err(name) => res matches Err(n) && n@ == name && final(self)@ == old(self)@,
            },
    {
        let ghost s = self@;
        let chars = chars_of(line);
        let mut pieces = split_commas_vec(&chars);
        proof { lemma_split_commas_nonempty(line@); }
        let ghost all = split_commas(line@);
        assert(pieces@[0]@ == all[0]);
        let name = pieces.remove(0);
        assert forall|j: int| 0 <= j < pieces@.len() implies #[trigger] pieces@[j]@ == line_operands(line@)[j] by {
            assert(pieces@[j]@ == all[j + 1]);
        }
        let k = match self.find_type(&name) {
            Some(k) => k,
            None => {
                return Some(Err(name));
            },
        };
        let t = self.inst_type[k];
        let mut param: Vec<i32> = Vec::new();
        let mut j: usize = 0;
        while j < pieces.len()
            invariant
                s == old(self)@,
                self@ == s,
                platform_wf(s),
                type_named(s.types, line_mnemonic(line@)) is Some,
                j <= pieces@.len(),
                pieces@.len() == line_operands(line@).len(),
                forall|q: int| 0 <= q < pieces@.len() ==> #[trigger] pieces@[q]@ == line_operands(line@)[q],
                param@ == Seq::new(j as nat, |q: int| operand_value(line_operands(line@)[q])->Some_0 as i32),
                forall|q: int| 0 <= q < j ==> #[trigger] operand_value(line_operands(line@)[q]) is Some,
            decreases pieces@.len() - j,
        {
            match parse_operand(&pieces[j]) {
                Some(v) => {
                    param.push(#[verifier::truncate] (v as i32));
                },
                None => {
                    assert(operand_value(line_operands(line@)[j as int]) is None);
                    return None;
                },
            }
            j += 1;
            assert(param@ =~= Seq::new(j as nat, |q: int| operand_value(line_operands(line@)[q])->Some_0 as i32));
        }
        proof { reveal_strlit("JUMP"); }
        if str_matches(t.name, &jump_name()) {
            param.push(PC_REG as i32);
            param.push(PC_REG as i32);
        }
        proof {
            if t.name@ == seq!['J', 'U', 'M', 'P'] {
                assert(param@ =~= loaded_params(t, line@));
            } else {
                assert(param@ =~= loaded_params(t, line@));
            }
        }
        self.inst.push(Instruction::new(t, param));
        proof {
            assert(self@.insts =~= load_spec(s, line@)->Ok_0.insts);
            lemma_load_wf(s, line@);
        }
        Some(Ok(()))
    }

    /// Reads one program line, `MNEMONIC,operand,...`, and appends the
    /// instruction it writes to the program. A register operand is written
    /// `F<decimal>`, any other operand in hexadecimal with optional `0x`; a
    /// jump also reads and writes the program counter. A line whose mnemonic
    /// is not one of the platform's instruction types is refused with that
    /// mnemonic.
    pub fn load_inst(&mut self, line: &String) -> (r: Result<(), Vec<char>>)
        requires
            old(self).wf(),
            !load_traps(old(self)@, line@),
        ensures
            final(self).wf(),
            match load_spec(old(self)@, line@) {
                Ok(t) => r is Ok && final(self)@ == t,
                Err(name) => r matches Err(n) && n@ == name && final(self)@ == old(self)@,
            },
    {
        match self.load_checked(line) {
            Some(r) => r,
            // Not reached: `requires` rules the failure out.
            None => Ok(()),
        }
    }

    /// Reads one program line as `load_inst` does, or gives `None` and leaves
    /// the program alone where an operand of a known instruction is not a
    /// number.
    pub fn try_load_inst(&mut self, line: &String) -> (r: Option<Result<(), Vec<char>>>)
        requires
            old(self).wf(),
        ensures
            final(self).wf(),
            r is None <==> load_traps(old(self)@, line@),
            r is None ==> final(self)@ == old(self)@,
            r matches Some(res) ==> match load_spec(old(self)@, line@) {
                Ok(t) => res is Ok && final(self)@ == t,
                Err(name) => res matches Err(n) && n@ == name && final(self)@ == old(self)@,
            },
    {
        self.load_checked(line)
    }

    /// The current cycle.
    pub fn clock(&self) -> (c: usize)
        ensures
            c == self@.clock,
    {
        self.clock
    }

    /// The register file; `F32` is the program counter.
    pub fn regs(&self) -> (r: &Vec<i32>)
        ensures
            r@ == self@.regs,
    {
        &self.regs
    }

    /// The reservation stations.
    pub fn stations(&self) -> (r: &Vec<ReserveStation>)
        ensures
            r@.map_values(|x: ReserveStation| x@) == self@.stations,
    {
        &self.stations
    }

    /// The loaded program.
    pub fn insts(&self) -> (r: &Vec<Instruction>)
        ensures
            r@.map_values(|x: Instruction| x@) == self@.insts,
    {
        &self.inst
    }
}

/// The stations part-way through handing out units: the first `m` listed
/// stations that are admitted execute, and every other station is unchanged.
spec fn partly_dispatched(s0: PlatformView, l: Seq<usize>, m: int) -> Seq<StationView> {
    Seq::new(
        RES_COUNT as nat,
        |k: int|
            if l.take(m).contains(k as usize) && admitted(s0, k) {
                StationView { state: StationState::EXEC, ..s0.stations[k] }
            } else {
                s0.stations[k]
            },
    )
}

/// The length `order` had before the current station was pushed onto it (if
/// it was).
spec fn before_len(order: Seq<usize>, pushed: bool) -> int {
    if pushed {
        order.len() - 1
    } else {
        order.len() as int
    }
}

/// The smaller of `a` and `b`.
pub open spec fn min_int(a: int, b: int) -> int {
    if a < b {
        a
    } else {
        b
    }
}

/// Whether `name` is spelled as `piece`.
fn str_matches(name: &str, piece: &Vec<char>) -> (r: bool)
    ensures
        r == (name@ == piece@),
{
    let n = name.unicode_len();
    if n != piece.len() {
        return false;
    }
    let mut i: usize = 0;
    while i < n
        invariant
            n == name@.len(),
            n == piece@.len(),
            i <= n,
            forall|q: int| 0 <= q < i ==> name@[q] == piece@[q],
        decreases n - i,
    {
        if name.get_char(i) != piece[i] {
            return false;
        }
        i += 1;
    }
    assert(name@ =~= piece@);
    true
}

/// The mnemonic of a jump.
fn jump_name() -> (v: Vec<char>)
    ensures
        v@ == seq!['J', 'U', 'M', 'P'],
{
    let mut v: Vec<char> = Vec::new();
    v.push('J');
    v.push('U');
    v.push('M');
    v.push('P');
    v
}

/// The number of functional units of group `g` (`g < COM_COUNT`).
fn upper_bound(g: usize) -> (b: i32)
    requires
        g < COM_COUNT,
    ensures
        b == bound_of(g as int),
{
    if g == 0 {
        3
    } else {
        2
    }
}

} // verus!
