use vstd::prelude::*;

verus! {

/// How an operand of an instruction is read when the instruction is issued.
#[allow(non_camel_case_types)]
#[derive(PartialEq, Eq, Structural, Clone, Copy, Debug)]
pub enum ParamType {
    /// The operand is the literal value written in the program.
    INSTANT,
    /// The operand names a register whose value (or producer) is looked up.
    REGISTER,
}

/// The operation an instruction type performs once all its operands are known.
///
/// Every operation reads its operands as a slice `p`: `p[dest]` is the
/// destination operand and the others are values.
#[derive(PartialEq, Eq, Structural, Clone, Copy, Debug)]
pub enum InstFunc {
    /// `p[1] + p[2]`
    Add,
    /// `p[1] - p[2]`
    Sub,
    /// `p[3] + p[2]` when `p[1] == p[0]`, `p[3] + 1` otherwise
    Jump,
    /// `p[1] * p[2]`
    Mul,
    /// `p[1] / p[2]`, or the error `p[1]` when `p[2] == 0`
    Div,
    /// `p[1]`
    Ld,
}

/// The quotient of `a` by `b` rounded toward zero (`b != 0`).
pub open spec fn truncated_quotient(a: int, b: int) -> int {
    let q = (if a >= 0 { a } else { -a }) / (if b >= 0 { b } else { -b });
    if (a >= 0) == (b >= 0) { q } else { -q }
}

impl InstFunc {
    /// How many operands the operation reads.
    pub open spec fn arity(self) -> nat {
        match self {
            InstFunc::Jump => 4,
            InstFunc::Ld => 2,
            _ => 3,
        }
    }

    /// The operation cannot be carried out on `p`: an operand is missing, or
    /// the quotient `i32::MIN / -1` does not fit.
    pub open spec fn traps(self, p: Seq<i32>) -> bool {
        ||| p.len() < self.arity()
        ||| (self == InstFunc::Div && p[2] == -1 && p[1] == i32::MIN)
    }

    /// What the operation yields on `p` (arithmetic wraps on overflow).
    pub open spec fn outcome(self, p: Seq<i32>) -> Result<i32, i32> {
        match self {
            InstFunc::Add => Ok(p[1].wrapping_add(p[2])),
            InstFunc::Sub => Ok(p[1].wrapping_sub(p[2])),
            InstFunc::Jump => Ok(
                if p[1] == p[0] {
                    p[3].wrapping_add(p[2])
                } else {
                    p[3].wrapping_add(1)
                },
            ),
            InstFunc::Mul => Ok(p[1].wrapping_mul(p[2])),
            InstFunc::Div => if p[2] != 0 {
                Ok(truncated_quotient(p[1] as int, p[2] as int) as i32)
            } else {
                Err(p[1])
            },
            InstFunc::Ld => Ok(p[1]),
        }
    }

    /// Whether the operation cannot be carried out on `p`.
    pub fn traps_on(&self, p: &[i32]) -> (r: bool)
        ensures
            r == self.traps(p@),
    {
        let arity: usize = match self {
            InstFunc::Jump => 4,
            InstFunc::Ld => 2,
            _ => 3,
        };
        if p.len() < arity {
            return true;
        }
        match self {
            InstFunc::Div => p[2] == -1 && p[1] == i32::MIN,
            _ => false,
        }
    }

    /// Carries out the operation on the operands `p`.
    pub fn call(&self, p: &[i32]) -> (r: Result<i32, i32>)
        requires
            !self.traps(p@),
        ensures
            r == self.outcome(p@),
    {
        match self {
            InstFunc::Add => Ok(p[1].wrapping_add(p[2])),
            InstFunc::Sub => Ok(p[1].wrapping_sub(p[2])),
            InstFunc::Jump => Ok(
                if p[1] == p[0] {
                    p[3].wrapping_add(p[2])
                } else {
                    p[3].wrapping_add(1)
                },
            ),
            InstFunc::Mul => Ok(p[1].wrapping_mul(p[2])),
            InstFunc::Div => {
                if p[2] != 0 {
                    let a = p[1];
                    let b = p[2];
                    match a.checked_div(b) {
                        Some(q) => Ok(q),
                        // Not reached: `requires` excludes `i32::MIN / -1`, the
                        // only quotient that does not fit.
                        None => {
                            proof {
                                let x = a as int;
                                let d = b as int;
                                assert(x < 0 && d < 0 ==> 0 <= (-x) / (-d) <= -x) by (nonlinear_arith);
                                assert(x < 0 && d <= -2 ==> 2 * ((-x) / (-d)) <= -x) by (nonlinear_arith);
                                assert(x < 0 && d > 0 ==> 0 <= (-x) / d <= -x) by (nonlinear_arith);
                                assert(x > 0 && d < 0 ==> 0 <= x / (-d) <= x) by (nonlinear_arith);
                                assert(x > 0 && d > 0 ==> 0 <= x / d <= x) by (nonlinear_arith);
                                assert((-x) / 1 == -x);
                            }
                            Err(a)
                        },
                    }
                } else {
                    Err(p[1])
                }
            },
            InstFunc::Ld => Ok(p[1]),
        }
    }
}

/// A kind of instruction: its mnemonic, latency, operand layout, destination
/// operand, operation and the reservation stations that may hold it.
#[derive(Clone, Copy)]
pub struct InstructionType {
    pub name: &'static str,
    pub cycles: i32,
    pub param_type: &'static [ParamType],
    pub dest: usize,
    pub func: InstFunc,
    pub stations: &'static [usize],
}

impl InstructionType {
    pub fn new(
        name: &'static str,
        cycles: i32,
        param_type: &'static [ParamType],
        dest: usize,
        func: InstFunc,
        stations: &'static [usize],
    ) -> (t: Self)
        ensures
            t.name == name,
            t.cycles == cycles,
            t.param_type == param_type,
            t.dest == dest,
            t.func == func,
            t.stations == stations,
    {
        InstructionType { name, cycles, param_type, dest, func, stations }
    }
}

/// One instruction of the program, with the cycles at which it was first
/// issued, finished executing and wrote back (`-1` until then).
pub struct Instruction {
    pub inst_type: InstructionType,
    pub param: Vec<i32>,
    pub issue_time: i32,
    pub exec_time: i32,
    pub write_back_time: i32,
    pub time_left: i32,
}

/// The mathematical value of an [`Instruction`].
pub struct InstructionView {
    pub inst_type: InstructionType,
    pub param: Seq<i32>,
    pub issue_time: i32,
    pub exec_time: i32,
    pub write_back_time: i32,
    pub time_left: i32,
}

impl View for Instruction {
    type V = InstructionView;

    open spec fn view(&self) -> InstructionView {
        InstructionView {
            inst_type: self.inst_type,
            param: self.param@,
            issue_time: self.issue_time,
            exec_time: self.exec_time,
            write_back_time: self.write_back_time,
            time_left: self.time_left,
        }
    }
}

impl Instruction {
    pub fn new(inst_type: InstructionType, param: Vec<i32>) -> (inst: Self)
        ensures
            inst@ == (InstructionView {
                inst_type,
                param: param@,
                issue_time: -1i32,
                exec_time: -1i32,
                write_back_time: -1i32,
                time_left: inst_type.cycles,
            }),
    {
        Instruction {
            inst_type: inst_type,
            param: param,
            issue_time: -1,
            exec_time: -1i32,
            write_back_time: -1i32,
            time_left: inst_type.cycles,
        }
    }
}

/// Division rounds toward zero: on a nonzero divisor whose quotient fits,
/// `DIV` yields the `q` that leaves a remainder `p[1] - q * p[2]` smaller in
/// size than the divisor and of the sign of the dividend (or zero); on a zero
/// divisor it fails with the dividend.
pub proof fn law_div_rounds_toward_zero(p: Seq<i32>)
    requires
        p.len() >= 3,
        !(p[1] == i32::MIN && p[2] == -1),
    ensures
        p[2] == 0 ==> InstFunc::Div.outcome(p) == Err::<i32, i32>(p[1]),
        p[2] != 0 ==> ({
            let b = p[2] as int;
            let size = if b >= 0 { b } else { -b };
            &&& InstFunc::Div.outcome(p) is Ok
            &&& p[1] >= 0 ==> 0 <= p[1] - (InstFunc::Div.outcome(p)->Ok_0 as int) * b < size
            &&& p[1] < 0 ==> -size < p[1] - (InstFunc::Div.outcome(p)->Ok_0 as int) * b <= 0
        }),
{
    if p[2] != 0 {
        let a = p[1] as int;
        let b = p[2] as int;
        let aa = if a >= 0 { a } else { -a };
        let bb = if b >= 0 { b } else { -b };
        let q0 = aa / bb;
        let r0 = aa % bb;
        vstd::arithmetic::div_mod::lemma_fundamental_div_mod(aa, bb);
        vstd::arithmetic::div_mod::lemma_mod_bound(aa, bb);
        assert(aa == bb * q0 + r0);
        assert(0 <= q0) by {
            vstd::arithmetic::div_mod::lemma_div_pos_is_pos(aa, bb);
        }
        assert(q0 <= bb * q0) by (nonlinear_arith)
            requires
                bb >= 1,
                q0 >= 0,
        ;
        assert(q0 == 0x8000_0000 ==> bb == 1) by (nonlinear_arith)
            requires
                aa == bb * q0 + r0,
                r0 >= 0,
                aa <= 0x8000_0000,
                bb >= 1,
        ;
        let q = truncated_quotient(a, b);
        assert(i32::MIN <= q <= i32::MAX);
        assert(InstFunc::Div.outcome(p) == Ok::<i32, i32>(q as i32));
        if a >= 0 && b > 0 {
            assert(q * b == bb * q0) by (nonlinear_arith)
                requires
                    q == q0,
                    b == bb,
            ;
        } else if a >= 0 {
            assert(q * b == bb * q0) by (nonlinear_arith)
                requires
                    q == -q0,
                    b == -bb,
            ;
        } else if b > 0 {
            assert(q * b == -(bb * q0)) by (nonlinear_arith)
                requires
                    q == -q0,
                    b == bb,
            ;
        } else {
            assert(q * b == -(bb * q0)) by (nonlinear_arith)
                requires
                    q == q0,
                    b == -bb,
            ;
        }
    }
}

/// The operations in plain arithmetic: wherever the exact result fits in an
/// `i32`, `ADD`, `SUB` and `MUL` give the sum, difference and product of
/// `p[1]` and `p[2]`, `LD` gives `p[1]`, and `JUMP` gives `p[3] + p[2]` when
/// `p[1] == p[0]` and `p[3] + 1` otherwise.
pub proof fn law_operations(p: Seq<i32>)
    requires
        p.len() >= 4,
    ensures
        i32::MIN <= p[1] + p[2] <= i32::MAX ==> InstFunc::Add.outcome(p) == Ok::<i32, i32>((p[1] + p[2]) as i32),
        i32::MIN <= p[1] - p[2] <= i32::MAX ==> InstFunc::Sub.outcome(p) == Ok::<i32, i32>((p[1] - p[2]) as i32),
        i32::MIN <= p[1] * p[2] <= i32::MAX ==> InstFunc::Mul.outcome(p) == Ok::<i32, i32>((p[1] * p[2]) as i32),
        InstFunc::Ld.outcome(p) == Ok::<i32, i32>(p[1]),
        p[1] == p[0] && p[3] + p[2] <= i32::MAX && p[3] + p[2] >= i32::MIN ==> InstFunc::Jump.outcome(p)
            == Ok::<i32, i32>((p[3] + p[2]) as i32),
        p[1] != p[0] && p[3] < i32::MAX ==> InstFunc::Jump.outcome(p) == Ok::<i32, i32>((p[3] + 1) as i32),
{
}

} // verus!
