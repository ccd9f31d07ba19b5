use tomasulo::instruction::Instruction;
use tomasulo::platform::Platform;
use tomasulo::reserve_station::StationState;

fn load(p: &mut Platform, lines: &[&str]) {
    for l in lines {
        let r = p.load_inst(&l.to_string());
        assert!(r.is_ok(), "line {} refused", l);
    }
}

/// Runs the program to its end; returns the number of cycles simulated.
fn run(p: &mut Platform) -> usize {
    let mut cycles = 0;
    loop {
        let (done, _trace) = p.step();
        cycles += 1;
        if done {
            return cycles;
        }
        assert!(cycles < 10_000, "program does not end");
    }
}

fn times(inst: &Instruction) -> (i32, i32, i32) {
    (inst.issue_time, inst.exec_time, inst.write_back_time)
}

#[test]
fn new_platform_is_idle() {
    let p = Platform::new();
    assert_eq!(p.clock(), 0);
    assert_eq!(p.regs().len(), 33);
    assert!(p.regs().iter().all(|r| *r == 0));
    assert_eq!(p.stations().len(), 12);
    assert!(p.stations().iter().all(|s| s.state == StationState::IDLE));
    let belongs: Vec<usize> = p.stations().iter().map(|s| s.belong).collect();
    assert_eq!(belongs, vec![0, 0, 0, 0, 0, 0, 1, 1, 1, 2, 2, 2]);
    assert!(p.insts().is_empty());
}

#[test]
fn single_load_takes_issue_exec_and_write_back_cycles() {
    let mut p = Platform::new();
    load(&mut p, &["LD,F1,0x3"]);
    assert_eq!(p.insts()[0].param, vec![1, 3]);
    let cycles = run(&mut p);
    assert_eq!(cycles, 5);
    assert_eq!(p.clock(), 5);
    assert_eq!(p.regs()[1], 3);
    assert_eq!(p.regs()[32], 1);
    assert_eq!(times(&p.insts()[0]), (0, 3, 4));
}

#[test]
fn add_waits_for_its_operands_on_the_bus() {
    let mut p = Platform::new();
    load(&mut p, &["LD,F1,0x3", "LD,F2,0x5", "ADD,F3,F1,F2"]);
    let cycles = run(&mut p);
    assert_eq!(cycles, 10);
    assert_eq!(p.regs()[3], 8);
    assert_eq!(times(&p.insts()[0]), (0, 3, 4));
    assert_eq!(times(&p.insts()[1]), (1, 4, 5));
    assert_eq!(times(&p.insts()[2]), (2, 8, 9));
}

#[test]
fn step_trace_reports_each_phase() {
    let mut p = Platform::new();
    load(&mut p, &["LD,F1,0x3", "LD,F2,0x5", "ADD,F3,F1,F2"]);
    let (done, t0) = p.step();
    assert!(!done);
    assert_eq!(t0.issued, Some(0));
    assert_eq!(t0.readied.len(), 1);
    assert_eq!(t0.readied[0].inst, 0);
    assert_eq!(t0.readied[0].params, vec![1, 3]);
    assert_eq!(t0.readied[0].outcome, Ok(3));
    let (_, t1) = p.step();
    assert_eq!(t1.executed, vec![0]);
    assert_eq!(t1.issued, Some(1));
    let (_, t2) = p.step();
    assert_eq!(t2.executed, vec![1]);
    assert_eq!(t2.issued, Some(2));
    assert!(t2.readied.is_empty());
    let (_, t3) = p.step();
    assert_eq!(t3.issued, None);
    let (_, t4) = p.step();
    assert_eq!(t4.written_back, vec![0]);
    let (_, t5) = p.step();
    assert_eq!(t5.written_back, vec![1]);
    assert_eq!(t5.readied.len(), 1);
    assert_eq!(t5.readied[0].params, vec![3, 3, 5]);
    assert_eq!(t5.readied[0].outcome, Ok(8));
}

#[test]
fn division_by_zero_writes_the_dividend_after_one_cycle() {
    let mut p = Platform::new();
    load(&mut p, &["LD,F1,0x7", "LD,F2,0x0", "DIV,F3,F1,F2"]);
    run(&mut p);
    assert_eq!(p.regs()[3], 7);
    let (issue, exec, wb) = times(&p.insts()[2]);
    assert_eq!(exec - issue, 4);
    assert_eq!(wb, exec + 1);
}

#[test]
fn division_rounds_toward_zero() {
    let mut p = Platform::new();
    load(&mut p, &["LD,F1,0xFFFFFFF9", "LD,F2,0x2", "DIV,F3,F1,F2", "MUL,F4,F1,F2"]);
    run(&mut p);
    assert_eq!(p.regs()[1], -7);
    assert_eq!(p.regs()[3], -3);
    assert_eq!(p.regs()[4], -14);
}

#[test]
fn jump_loop_counts_down() {
    let mut p = Platform::new();
    load(
        &mut p,
        &[
            "LD,F1,0x3",
            "LD,F2,0x1",
            "LD,F3,0x0",
            "SUB,F1,F1,F2",
            "ADD,F3,F3,F2",
            "JUMP,0x0,F1,0x2",
            "JUMP,0x0,F0,0xFFFFFFFD",
        ],
    );
    assert_eq!(p.insts()[5].param, vec![0, 1, 2, 32, 32]);
    assert_eq!(p.insts()[6].param, vec![0, 0, -3, 32, 32]);
    run(&mut p);
    assert_eq!(p.regs()[1], 0);
    assert_eq!(p.regs()[3], 3);
    assert_eq!(p.regs()[32], 7);
}

#[test]
fn multiplier_units_are_shared_in_queue_order() {
    let mut p = Platform::new();
    load(&mut p, &["MUL,F1,F0,F0", "MUL,F2,F0,F0", "MUL,F3,F0,F0"]);
    loop {
        let (done, _) = p.step();
        let busy = p.stations()[6..9]
            .iter()
            .filter(|s| s.state == StationState::EXEC || s.state == StationState::WRITE_BACK)
            .count();
        assert!(busy <= 2);
        if done {
            break;
        }
    }
    assert_eq!(times(&p.insts()[0]), (0, 12, 13));
    assert_eq!(times(&p.insts()[1]), (1, 13, 14));
    assert_eq!(times(&p.insts()[2]), (2, 24, 25));
}

#[test]
fn finished_platform_only_advances_the_clock() {
    let mut p = Platform::new();
    load(&mut p, &["LD,F1,0x3"]);
    run(&mut p);
    let regs = p.regs().clone();
    let before = times(&p.insts()[0]);
    let clock = p.clock();
    let (done, trace) = p.step();
    assert!(done);
    assert!(trace.written_back.is_empty() && trace.executed.is_empty());
    assert_eq!(trace.issued, None);
    assert!(trace.readied.is_empty());
    assert_eq!(p.clock(), clock + 1);
    assert_eq!(p.regs(), &regs);
    assert_eq!(times(&p.insts()[0]), before);
}

#[test]
fn unsupported_mnemonic_is_refused_with_its_name() {
    let mut p = Platform::new();
    let r = p.load_inst(&"NOP,F1,F2".to_string());
    assert_eq!(r, Err(vec!['N', 'O', 'P']));
    assert!(p.insts().is_empty());
    let r = p.load_inst(&"add,F1,F2,F3".to_string());
    assert_eq!(r, Err(vec!['a', 'd', 'd']));
}

#[test]
fn malformed_operand_cannot_be_loaded() {
    let mut p = Platform::new();
    assert_eq!(p.try_load_inst(&"ADD,F1,F2,zz".to_string()), None);
    assert_eq!(p.try_load_inst(&"LD,F1,".to_string()), None);
    assert!(p.insts().is_empty());
    assert_eq!(p.try_load_inst(&"LD,F1,0x1".to_string()), Some(Ok(())));
    assert_eq!(p.insts().len(), 1);
}

#[test]
fn reading_a_missing_register_stops_the_cycle() {
    let mut p = Platform::new();
    load(&mut p, &["ADD,F1,F40,F2"]);
    assert!(p.try_step().is_none());
}

#[test]
fn writing_a_missing_register_stops_the_cycle() {
    let mut p = Platform::new();
    load(&mut p, &["LD,F40,0x1"]);
    for _ in 0..4 {
        assert!(p.try_step().is_some());
    }
    assert!(p.try_step().is_none());
}

#[test]
fn missing_operand_stops_the_cycle_when_ready() {
    let mut p = Platform::new();
    load(&mut p, &["ADD,F1,F2"]);
    assert!(p.try_step().is_none());
}

#[test]
fn later_writer_keeps_the_register() {
    let mut p = Platform::new();
    load(&mut p, &["MUL,F1,F0,F0", "LD,F2,0x9", "LD,F1,0x5"]);
    run(&mut p);
    // The load issued last renamed F1, so the slower multiply does not overwrite it.
    assert_eq!(p.regs()[1], 5);
    assert_eq!(p.regs()[2], 9);
}

#[test]
fn simulation_stops_exactly_when_the_program_has_ended() {
    let mut p = Platform::new();
    load(
        &mut p,
        &[
            "LD,F1,0x2",
            "LD,F2,0x1",
            "SUB,F1,F1,F2",
            "JUMP,0x0,F1,0x2",
            "JUMP,0x0,F0,0xFFFFFFFE",
        ],
    );
    let len = p.insts().len() as i32;
    let mut cycles = 0;
    loop {
        let (done, _) = p.step();
        let all_idle = p.stations().iter().all(|s| s.state == StationState::IDLE);
        let ended = all_idle && (p.regs()[32] < 0 || p.regs()[32] >= len);
        assert_eq!(done, ended);
        cycles += 1;
        if done {
            break;
        }
        assert!(cycles < 1000);
    }
    assert_eq!(p.regs()[1], 0);
    assert_eq!(p.regs()[32], 5);
}

#[test]
fn waiting_operands_name_busy_stations() {
    let mut p = Platform::new();
    load(
        &mut p,
        &["LD,F1,0x6", "MUL,F2,F1,F1", "DIV,F3,F2,F1", "ADD,F4,F3,F2", "SUB,F5,F4,F1"],
    );
    loop {
        let (done, _) = p.step();
        for st in p.stations().iter() {
            if st.state == StationState::ISSUE {
                for tag in st.tags.iter() {
                    if let Some(t) = tag {
                        assert!(*t < 12);
                        assert!(p.stations()[*t].state != StationState::IDLE);
                    }
                }
            }
        }
        if done {
            break;
        }
    }
    assert_eq!(p.regs()[2], 36);
    assert_eq!(p.regs()[3], 6);
    assert_eq!(p.regs()[4], 42);
    assert_eq!(p.regs()[5], 36);
}

#[test]
fn quotient_that_does_not_fit_stops_the_cycle() {
    let mut p = Platform::new();
    load(&mut p, &["LD,F1,0x80000000", "LD,F2,0xFFFFFFFF", "DIV,F3,F1,F2"]);
    let mut stopped = false;
    for _ in 0..20 {
        if p.try_step().is_none() {
            stopped = true;
            break;
        }
    }
    assert!(stopped);
}

#[test]
fn instruction_without_destination_cannot_issue() {
    let mut p = Platform::new();
    load(&mut p, &["LD"]);
    assert!(p.insts()[0].param.is_empty());
    assert!(p.try_step().is_none());
}

#[test]
fn operand_beyond_the_layout_cannot_issue() {
    let mut p = Platform::new();
    load(&mut p, &["LD,F1,0x1,0x2"]);
    assert!(p.try_step().is_none());
}

#[test]
fn recorded_cycles_are_consistent() {
    let programs: Vec<Vec<&str>> = vec![
        vec!["LD,F1,0x3", "LD,F2,0x5", "ADD,F3,F1,F2"],
        vec!["MUL,F1,F0,F0", "MUL,F2,F0,F0", "MUL,F3,F0,F0", "DIV,F4,F1,F0"],
        vec![
            "LD,F1,0x3",
            "LD,F2,0x1",
            "LD,F3,0x0",
            "SUB,F1,F1,F2",
            "ADD,F3,F3,F2",
            "JUMP,0x0,F1,0x2",
            "JUMP,0x0,F0,0xFFFFFFFD",
        ],
    ];
    for prog in programs {
        let mut p = Platform::new();
        load(&mut p, &prog);
        loop {
            let (done, _) = p.step();
            for inst in p.insts().iter() {
                if inst.write_back_time != -1 {
                    assert_eq!(inst.write_back_time, inst.exec_time + 1);
                }
                if inst.exec_time != -1 {
                    assert!(inst.issue_time != -1 && inst.exec_time >= inst.issue_time + 1);
                }
            }
            if done {
                break;
            }
        }
    }
}

#[test]
fn exec_counts_the_units_it_hands_out() {
    let mut p = Platform::new();
    load(&mut p, &["MUL,F1,F0,F0", "MUL,F2,F0,F0", "MUL,F3,F0,F0"]);
    for _ in 0..3 {
        p.step();
    }
    // All three multiplies wait or run; only two units exist.
    let before: Vec<StationState> = p.stations().iter().map(|s| s.state).collect();
    let executed = p.exec();
    let after: Vec<StationState> = p.stations().iter().map(|s| s.state).collect();
    let left_ready = (6..9)
        .filter(|&i| before[i] == StationState::READY && after[i] != StationState::READY)
        .count();
    assert_eq!(executed.len(), left_ready);
    let busy = (6..9)
        .filter(|&i| after[i] == StationState::EXEC || after[i] == StationState::WRITE_BACK)
        .count();
    assert!(busy <= 2);
}

#[test]
fn program_without_jumps_ends_within_its_work_bound() {
    let mut p = Platform::new();
    let lines = [
        "LD,F1,0x7",
        "LD,F2,0x2",
        "MUL,F3,F1,F2",
        "DIV,F4,F3,F2",
        "SUB,F5,F4,F1",
        "ADD,F6,F5,F5",
        "DIV,F7,F6,F0",
    ];
    load(&mut p, &lines);
    let cycles = run(&mut p);
    assert!(cycles <= 44 * lines.len() + 43 * 12);
    assert_eq!(p.regs()[32], lines.len() as i32);
    assert!(p.stations().iter().all(|s| s.state == StationState::IDLE));
    assert!(p.insts().iter().all(|i| i.issue_time >= 0));
    assert_eq!(p.regs()[3], 14);
    assert_eq!(p.regs()[4], 7);
    assert_eq!(p.regs()[5], 0);
    assert_eq!(p.regs()[6], 0);
    assert_eq!(p.regs()[7], 0);
}
