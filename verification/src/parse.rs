use vstd::prelude::*;
use vstd::string::StrSliceExecFns;

verus! {

/// The pieces of `s` between commas, as `str::split(',')` gives them: a
/// string without commas is one piece, and every comma starts a new piece.
pub open spec fn split_commas(s: Seq<char>) -> Seq<Seq<char>>
    decreases s.len(),
{
    if s.len() == 0 {
        seq![Seq::empty()]
    } else {
        let init = split_commas(s.drop_last());
        if s.last() == ',' {
            init.push(Seq::empty())
        } else {
            init.update(init.len() - 1, init.last().push(s.last()))
        }
    }
}

pub proof fn lemma_split_commas_nonempty(s: Seq<char>)
    ensures
        split_commas(s).len() >= 1,
    decreases s.len(),
{
    if s.len() > 0 {
        lemma_split_commas_nonempty(s.drop_last());
    }
}

/// `s` without its leading run of `'F'` (`str::trim_start_matches("F")`).
pub open spec fn trim_leading_f(s: Seq<char>) -> Seq<char>
    decreases s.len(),
{
    if s.len() > 0 && s[0] == 'F' {
        trim_leading_f(s.drop_first())
    } else {
        s
    }
}

/// `s` without its leading repetitions of `"0x"` (`str::trim_start_matches("0x")`).
pub open spec fn trim_leading_0x(s: Seq<char>) -> Seq<char>
    decreases s.len(),
{
    if s.len() >= 2 && s[0] == '0' && s[1] == 'x' {
        trim_leading_0x(s.subrange(2, s.len() as int))
    } else {
        s
    }
}

/// The value of `c` as a digit in base `radix` (`char::to_digit`).
pub open spec fn digit_value(c: char, radix: u32) -> Option<nat> {
    let n = c as u32;
    let v: int = if '0' as u32 <= n <= '9' as u32 {
        n - '0' as u32
    } else if 'a' as u32 <= n <= 'z' as u32 {
        n - 'a' as u32 + 10
    } else if 'A' as u32 <= n <= 'Z' as u32 {
        n - 'A' as u32 + 10
    } else {
        radix as int
    };
    if v < radix {
        Some(v as nat)
    } else {
        None
    }
}

/// Every character of `d` is a digit in base `radix`.
pub open spec fn all_digits(d: Seq<char>, radix: u32) -> bool {
    forall|i: int| 0 <= i < d.len() ==> #[trigger] digit_value(d[i], radix) is Some
}

/// The number the digits `d` denote in base `radix`.
pub open spec fn digits_value(d: Seq<char>, radix: u32) -> nat
    decreases d.len(),
{
    if d.len() == 0 {
        0
    } else {
        digits_value(d.drop_last(), radix) * radix as nat + digit_value(d.last(), radix)->Some_0
    }
}

/// What `u32::from_str_radix(s, radix)` gives: the number written by `s`,
/// with an optional leading `'+'`, or `None` when `s` holds no digit, holds a
/// character that is not a digit, or writes a number above `u32::MAX`.
pub open spec fn parse_u32(s: Seq<char>, radix: u32) -> Option<u32> {
    let d = if s.len() > 0 && s[0] == '+' { s.drop_first() } else { s };
    if d.len() == 0 || !all_digits(d, radix) || digits_value(d, radix) > u32::MAX {
        None
    } else {
        Some(digits_value(d, radix) as u32)
    }
}

/// The value of an operand: `F<decimal>` names a register, anything else is
/// a hexadecimal literal with optional `0x` prefixes.
pub open spec fn operand_value(p: Seq<char>) -> Option<u32> {
    if p.len() > 0 && p[0] == 'F' {
        parse_u32(trim_leading_f(p), 10)
    } else {
        parse_u32(trim_leading_0x(p), 16)
    }
}

proof fn lemma_digits_value_monotone(d: Seq<char>, k: int, radix: u32)
    requires
        0 <= k <= d.len(),
        all_digits(d, radix),
        radix >= 1,
    ensures
        digits_value(d.take(k), radix) <= digits_value(d, radix),
    decreases d.len(),
{
    if k < d.len() {
        let init = d.drop_last();
        assert(init.take(k) =~= d.take(k));
        assert forall|i: int| 0 <= i < init.len() implies #[trigger] digit_value(init[i], radix) is Some by {
            assert(init[i] == d[i]);
        }
        lemma_digits_value_monotone(init, k, radix);
        let a = digits_value(init, radix);
        assert(a * radix as nat >= a) by (nonlinear_arith) requires radix >= 1;
    } else {
        assert(d.take(k) =~= d);
    }
}

/// The numeric value of digit `c` in base `radix`, if it is one.
fn digit(c: char, radix: u32) -> (r: Option<u32>)
    requires
        radix <= 36,
    ensures
        r matches Some(v) ==> digit_value(c, radix) == Some(v as nat),
        r is None ==> digit_value(c, radix) is None,
{
    let n = c as u32;
    let v: u32 = if '0' as u32 <= n && n <= '9' as u32 {
        n - '0' as u32
    } else if 'a' as u32 <= n && n <= 'z' as u32 {
        n - 'a' as u32 + 10
    } else if 'A' as u32 <= n && n <= 'Z' as u32 {
        n - 'A' as u32 + 10
    } else {
        radix
    };
    if v < radix {
        Some(v)
    } else {
        None
    }
}

/// Reads `s[start..]` as a number in base `radix`, as `u32::from_str_radix` does.
fn parse_u32_from(s: &Vec<char>, start: usize, radix: u32) -> (r: Option<u32>)
    requires
        start <= s@.len(),
        2 <= radix <= 36,
    ensures
        r == parse_u32(s@.subrange(start as int, s@.len() as int), radix),
{
    let ghost t = s@.subrange(start as int, s@.len() as int);
    let mut i = start;
    if i < s.len() && s[i] == '+' {
        i += 1;
    }
    let ghost d = s@.subrange(i as int, s@.len() as int);
    assert(d =~= (if t.len() > 0 && t[0] == '+' { t.drop_first() } else { t }));
    if i == s.len() {
        return None;
    }
    let mut acc: u64 = 0;
    let mut j = i;
    while j < s.len()
        invariant
            i <= j <= s@.len(),
            d == s@.subrange(i as int, s@.len() as int),
            t == s@.subrange(start as int, s@.len() as int),
            d == (if t.len() > 0 && t[0] == '+' { t.drop_first() } else { t }),
            d.len() > 0,
            2 <= radix <= 36,
            acc as int == digits_value(d.take(j - i), radix),
            acc <= u32::MAX,
            all_digits(d.take(j - i), radix),
        decreases s@.len() - j,
    {
        let ghost pre = d.take(j - i);
        let c = s[j];
        match digit(c, radix) {
            None => {
                assert(d[j - i] == c);
                assert(!all_digits(d, radix));
                return None;
            },
            Some(v) => {
                let ghost next = d.take(j - i + 1);
                assert(next.drop_last() =~= pre);
                assert(next.last() == c);
                assert(acc * (radix as u64) <= u32::MAX * 36) by (nonlinear_arith)
                    requires acc <= u32::MAX, radix <= 36;
                acc = acc * (radix as u64) + v as u64;
                assert forall|k: int| 0 <= k < next.len() implies #[trigger] digit_value(next[k], radix) is Some by {
                    if k < pre.len() {
                        assert(next[k] == pre[k]);
                    }
                }
                j += 1;
                if acc > u32::MAX as u64 {
                    proof {
                        if all_digits(d, radix) {
                            lemma_digits_value_monotone(d, j - i, radix);
                        }
                    }
                    return None;
                }
            },
        }
    }
    assert(d.take(j - i) =~= d);
    Some(acc as u32)
}

proof fn lemma_trim_f_skip(s: Seq<char>, k: int)
    requires
        0 <= k < s.len(),
        s[k] == 'F',
        trim_leading_f(s) == trim_leading_f(s.subrange(k, s.len() as int)),
    ensures
        trim_leading_f(s) == trim_leading_f(s.subrange(k + 1, s.len() as int)),
{
    assert(s.subrange(k, s.len() as int).drop_first() =~= s.subrange(k + 1, s.len() as int));
}

proof fn lemma_trim_0x_skip(s: Seq<char>, k: int)
    requires
        0 <= k,
        k + 2 <= s.len(),
        s[k] == '0',
        s[k + 1] == 'x',
        trim_leading_0x(s) == trim_leading_0x(s.subrange(k, s.len() as int)),
    ensures
        trim_leading_0x(s) == trim_leading_0x(s.subrange(k + 2, s.len() as int)),
{
    let t = s.subrange(k, s.len() as int);
    assert(t.subrange(2, t.len() as int) =~= s.subrange(k + 2, s.len() as int));
}

/// The value of one operand, read as `load_inst` reads it.
pub fn parse_operand(p: &Vec<char>) -> (r: Option<u32>)
    ensures
        r == operand_value(p@),
{
    let len = p.len();
    assert(p@.subrange(0, len as int) =~= p@);
    if len > 0 && p[0] == 'F' {
        let mut k: usize = 0;
        while k < len && p[k] == 'F'
            invariant
                k <= len == p@.len(),
                trim_leading_f(p@) == trim_leading_f(p@.subrange(k as int, len as int)),
            decreases len - k,
        {
            proof { lemma_trim_f_skip(p@, k as int); }
            k += 1;
        }
        parse_u32_from(p, k, 10)
    } else {
        let mut k: usize = 0;
        while len - k >= 2 && p[k] == '0' && p[k + 1] == 'x'
            invariant
                k <= len == p@.len(),
                trim_leading_0x(p@) == trim_leading_0x(p@.subrange(k as int, len as int)),
            decreases len - k,
        {
            proof { lemma_trim_0x_skip(p@, k as int); }
            k += 2;
        }
        parse_u32_from(p, k, 16)
    }
}

/// The characters of `line`, one by one.
pub fn chars_of(line: &String) -> (v: Vec<char>)
    ensures
        v@ == line@,
{
    let s = line.as_str();
    let n = s.unicode_len();
    let mut v: Vec<char> = Vec::new();
    let mut i: usize = 0;
    while i < n
        invariant
            i <= n == s@.len(),
            s@ == line@,
            v@ == s@.take(i as int),
        decreases n - i,
    {
        let c = s.get_char(i);
        v.push(c);
        i += 1;
        assert(v@ =~= s@.take(i as int));
    }
    assert(s@.take(n as int) =~= s@);
    v
}

/// Cuts `s` into its comma-separated pieces.
pub fn split_commas_vec(s: &Vec<char>) -> (pieces: Vec<Vec<char>>)
    ensures
        pieces@.len() == split_commas(s@).len(),
        forall|k: int| 0 <= k < pieces@.len() ==> #[trigger] pieces@[k]@ == split_commas(s@)[k],
{
    let mut pieces: Vec<Vec<char>> = Vec::new();
    let mut cur: Vec<char> = Vec::new();
    let mut i: usize = 0;
    assert(s@.take(0) =~= Seq::<char>::empty());
    while i < s.len()
        invariant
            i <= s@.len(),
            pieces@.len() + 1 == split_commas(s@.take(i as int)).len(),
            forall|k: int| 0 <= k < pieces@.len() ==> #[trigger] pieces@[k]@ == split_commas(s@.take(i as int))[k],
            cur@ == split_commas(s@.take(i as int)).last(),
        decreases s@.len() - i,
    {
        let ghost before = s@.take(i as int);
        let c = s[i];
        assert(s@.take(i + 1).drop_last() =~= before);
        assert(s@.take(i + 1).last() == c);
        proof { lemma_split_commas_nonempty(before); }
        if c == ',' {
            pieces.push(cur);
            cur = Vec::new();
        } else {
            cur.push(c);
        }
        i += 1;
    }
    assert(s@.take(s@.len() as int) =~= s@);
    pieces.push(cur);
    pieces
}

/// `c` is one of `0`-`9`, `a`-`f` or `A`-`F`.
pub open spec fn is_hex_digit(c: char) -> bool {
    ||| ('0' as u32) <= (c as u32) <= ('9' as u32)
    ||| ('a' as u32) <= (c as u32) <= ('f' as u32)
    ||| ('A' as u32) <= (c as u32) <= ('F' as u32)
}

/// Digits have their conventional values: in base 16, `0`-`9` are worth 0 to
/// 9 and `a`-`f` and `A`-`F` are worth 10 to 15, and nothing else is a digit;
/// in base 10, only `0`-`9` are digits.
pub proof fn law_digit_values(c: char)
    ensures
        ('0' as u32) <= (c as u32) <= ('9' as u32) ==> digit_value(c, 16) == Some(((c as u32) - ('0' as u32)) as nat)
            && digit_value(c, 10) == Some(((c as u32) - ('0' as u32)) as nat),
        ('a' as u32) <= (c as u32) <= ('f' as u32) ==> digit_value(c, 16) == Some(((c as u32) - ('a' as u32) + 10) as nat),
        ('A' as u32) <= (c as u32) <= ('F' as u32) ==> digit_value(c, 16) == Some(((c as u32) - ('A' as u32) + 10) as nat),
        !is_hex_digit(c) ==> digit_value(c, 16) is None,
        !(('0' as u32) <= (c as u32) <= ('9' as u32)) ==> digit_value(c, 10) is None,
{
}

/// A literal `0x` followed by hexadecimal digits is the number those digits
/// write, as long as it fits in `u32`.
pub proof fn law_hex_literal(d: Seq<char>)
    requires
        d.len() > 0,
        forall|i: int| 0 <= i < d.len() ==> is_hex_digit(#[trigger] d[i]),
        digits_value(d, 16) <= u32::MAX,
    ensures
        operand_value(seq!['0', 'x'] + d) == Some(digits_value(d, 16) as u32),
{
    let p = seq!['0', 'x'] + d;
    assert(p[0] == '0' && p[1] == 'x');
    assert(p.subrange(2, p.len() as int) =~= d);
    assert(is_hex_digit(d[0]));
    if d.len() >= 2 {
        assert(is_hex_digit(d[1]));
    }
    assert(trim_leading_0x(d) == d);
    assert(trim_leading_0x(p) == d);
    assert forall|i: int| 0 <= i < d.len() implies #[trigger] digit_value(d[i], 16) is Some by {
        assert(is_hex_digit(d[i]));
        law_digit_values(d[i]);
    }
}

} // verus!
