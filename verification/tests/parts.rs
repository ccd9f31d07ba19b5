use tomasulo::common_data_bus::CommonDataBus;
use tomasulo::instruction::{InstFunc, InstructionType, ParamType};
use tomasulo::parse::{parse_operand, split_commas_vec};
use tomasulo::reserve_station::{ReserveStation, StationState};

fn chars(s: &str) -> Vec<char> {
    s.chars().collect()
}

#[test]
fn bus_reads_back_what_was_written() {
    let mut cdb = CommonDataBus::new();
    assert_eq!(cdb.get_busy(3), None);
    cdb.set_busy(3, 7);
    cdb.set_busy(4, 8);
    assert_eq!(cdb.get_busy(3), Some(7));
    cdb.set_busy(3, 9);
    assert_eq!(cdb.get_busy(3), Some(9));
    cdb.clean_busy(3);
    assert_eq!(cdb.get_busy(3), None);
    assert_eq!(cdb.get_busy(4), Some(8));
    cdb.set_result(2, -5);
    assert_eq!(cdb.get_result(2), Some(-5));
    assert_eq!(cdb.get_result(1), None);
    cdb.clean_result();
    assert_eq!(cdb.get_result(2), None);
    assert_eq!(cdb.get_busy(4), Some(8));
}

#[test]
fn station_is_ready_when_no_tag_is_left() {
    let mut st = ReserveStation::new(2);
    assert!(st.ready());
    st.tags = vec![None, Some(3)];
    st.params = vec![Some(1), None];
    assert!(!st.ready());
    st.tags[1] = None;
    assert!(st.ready());
    st.state = StationState::EXEC;
    st.inst = 4;
    st.result = 9;
    st.ready_punch = 6;
    st.time_left = 2;
    st.clean();
    assert_eq!(st.state, StationState::IDLE);
    assert_eq!((st.inst, st.result, st.ready_punch), (0, 0, 0));
    assert_eq!(st.time_left, 2);
    assert_eq!(st.belong, 2);
}

#[test]
fn operations_compute_with_wrapping() {
    assert_eq!(InstFunc::Add.call(&[0, 2, 3]), Ok(5));
    assert_eq!(InstFunc::Add.call(&[0, i32::MAX, 1]), Ok(i32::MIN));
    assert_eq!(InstFunc::Sub.call(&[0, 2, 3]), Ok(-1));
    assert_eq!(InstFunc::Mul.call(&[0, -4, 3]), Ok(-12));
    assert_eq!(InstFunc::Mul.call(&[0, 65536, 65536]), Ok(0));
    assert_eq!(InstFunc::Div.call(&[0, 7, 2]), Ok(3));
    assert_eq!(InstFunc::Div.call(&[0, -7, 2]), Ok(-3));
    assert_eq!(InstFunc::Div.call(&[0, 7, 0]), Err(7));
    assert_eq!(InstFunc::Ld.call(&[0, 42]), Ok(42));
    assert_eq!(InstFunc::Jump.call(&[5, 5, 3, 10, 32]), Ok(13));
    assert_eq!(InstFunc::Jump.call(&[5, 4, 3, 10, 32]), Ok(11));
    assert!(InstFunc::Div.traps_on(&[0, i32::MIN, -1]));
    assert!(InstFunc::Add.traps_on(&[0, 1]));
    assert!(!InstFunc::Ld.traps_on(&[0, 1]));
}

#[test]
fn instruction_type_keeps_its_fields() {
    let t = InstructionType::new("LD", 3, &[ParamType::REGISTER, ParamType::INSTANT], 0, InstFunc::Ld, &[9, 10, 11]);
    assert_eq!(t.name, "LD");
    assert_eq!(t.cycles, 3);
    assert_eq!(t.param_type, &[ParamType::REGISTER, ParamType::INSTANT]);
    assert_eq!(t.stations, &[9, 10, 11]);
    let i = tomasulo::instruction::Instruction::new(t, vec![1, 2]);
    assert_eq!((i.issue_time, i.exec_time, i.write_back_time, i.time_left), (-1, -1, -1, 3));
}

#[test]
fn operands_are_registers_or_hex_literals() {
    assert_eq!(parse_operand(&chars("F12")), Some(12));
    assert_eq!(parse_operand(&chars("FF3")), Some(3));
    assert_eq!(parse_operand(&chars("F")), None);
    assert_eq!(parse_operand(&chars("Fx")), None);
    assert_eq!(parse_operand(&chars("0x1F")), Some(31));
    assert_eq!(parse_operand(&chars("1f")), Some(31));
    assert_eq!(parse_operand(&chars("0x0x10")), Some(16));
    assert_eq!(parse_operand(&chars("+5")), Some(5));
    assert_eq!(parse_operand(&chars("+")), None);
    assert_eq!(parse_operand(&chars("-5")), None);
    assert_eq!(parse_operand(&chars("")), None);
    assert_eq!(parse_operand(&chars("0xFFFFFFFF")), Some(u32::MAX));
    assert_eq!(parse_operand(&chars("0x100000000")), None);
    assert_eq!(parse_operand(&chars("F4294967296")), None);
}

#[test]
fn lines_split_at_every_comma() {
    let pieces = split_commas_vec(&chars("ADD,F1,,F2,"));
    let expected: Vec<Vec<char>> = vec![chars("ADD"), chars("F1"), chars(""), chars("F2"), chars("")];
    assert_eq!(pieces, expected);
    assert_eq!(split_commas_vec(&chars("")), vec![chars("")]);
}

#[test]
fn bus_history_reads_the_last_write() {
    let mut cdb = CommonDataBus::new();
    cdb.set_busy(1, 4);
    cdb.set_result(4, 10);
    cdb.set_busy(1, 5);
    cdb.clean_result();
    assert_eq!(cdb.get_busy(1), Some(5));
    cdb.clean_busy(1);
    cdb.set_result(5, 11);
    assert_eq!(cdb.get_busy(1), None);
    cdb.set_busy(1, 6);
    assert_eq!(cdb.get_busy(1), Some(6));
    assert_eq!(cdb.get_result(4), None);
    assert_eq!(cdb.get_result(5), Some(11));
}
