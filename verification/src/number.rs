//! The literal-preserving representation of a JSON number: a signed whole
//! part, an optional sequence of fraction digits, and an optional signed
//! exponent, together with the rendering that reconstructs the literal's
//! lexical form.

use vstd::prelude::*;

verus! {

/// A decimal digit character.
pub open spec fn is_digit_char(c: char) -> bool {
    48 <= c as u32 && c as u32 <= 57
}

/// The numeric value of a decimal digit character.
pub open spec fn digit_val(c: char) -> int {
    c as u32 - 48
}

/// The character for a decimal digit value.
pub open spec fn digit_char(d: int) -> char {
    if d == 0 {
        '0'
    } else if d == 1 {
        '1'
    } else if d == 2 {
        '2'
    } else if d == 3 {
        '3'
    } else if d == 4 {
        '4'
    } else if d == 5 {
        '5'
    } else if d == 6 {
        '6'
    } else if d == 7 {
        '7'
    } else if d == 8 {
        '8'
    } else {
        '9'
    }
}

/// The decimal digit characters of `n`, most significant first, with no
/// leading zero except for `n == 0` itself.
pub open spec fn dec_digits(n: nat) -> Seq<char>
    decreases n,
{
    if n < 10 {
        seq![digit_char(n as int)]
    } else {
        dec_digits(n / 10).push(digit_char((n % 10) as int))
    }
}

/// The value of a sequence of decimal digit characters, most significant
/// first; the empty sequence has value 0.
pub open spec fn seq_digits_val(d: Seq<char>) -> int
    decreases d.len(),
{
    if d.len() == 0 {
        0
    } else {
        seq_digits_val(d.drop_last()) * 10 + digit_val(d.last())
    }
}

/// `d` with its trailing `'0'` characters removed.
pub open spec fn strip_zeros(d: Seq<char>) -> Seq<char>
    decreases d.len(),
{
    if d.len() > 0 && d.last() == '0' {
        strip_zeros(d.drop_last())
    } else {
        d
    }
}

/// Ten to the power `k`.
pub open spec fn pow10(k: nat) -> int
    decreases k,
{
    if k == 0 {
        1
    } else {
        10 * pow10((k - 1) as nat)
    }
}

/// A nonempty sequence of decimal digit characters.
pub open spec fn wf_digits(d: Seq<char>) -> bool {
    d.len() >= 1 && forall|i: int| 0 <= i < d.len() ==> is_digit_char(d[i])
}

/// The mathematical model of a `Number`: the whole part as an integer, the
/// fraction as the digits after the decimal point, the exponent as an
/// integer.
pub struct SpecNumber {
    pub integer: int,
    pub frac: Option<Seq<char>>,
    pub exponent: Option<int>,
}

/// A well-formed number model: components within machine range and the
/// fraction, when present, a nonempty digit sequence.
pub open spec fn wf_spec_number(n: SpecNumber) -> bool {
    &&& i32::MIN <= n.integer <= i32::MAX
    &&& match n.frac {
        Some(d) => wf_digits(d),
        None => true,
    }
    &&& match n.exponent {
        Some(e) => i32::MIN <= e <= i32::MAX,
        None => true,
    }
}


/// The number of fraction digits, 0 when the fraction is absent.
pub open spec fn frac_len(n: SpecNumber) -> nat {
    match n.frac {
        Some(d) => d.len(),
        None => 0,
    }
}

/// The fraction digits read as an integer, 0 when the fraction is absent.
pub open spec fn frac_val(n: SpecNumber) -> int {
    match n.frac {
        Some(d) => seq_digits_val(d),
        None => 0,
    }
}

/// The exponent, 0 when absent.
pub open spec fn exp_val(n: SpecNumber) -> int {
    match n.exponent {
        Some(e) => e,
        None => 0,
    }
}

/// The whole part and fraction combined into one integer over the fraction
/// digits: the fraction magnitude is subtracted when the whole part is
/// negative, added otherwise.
pub open spec fn mantissa(n: SpecNumber) -> int {
    if n.integer >= 0 {
        n.integer * pow10(frac_len(n)) + frac_val(n)
    } else {
        n.integer * pow10(frac_len(n)) - frac_val(n)
    }
}

/// Two decomposed numbers denote the same numeric value: each denotes
/// `mantissa * 10^(exponent - fraction length)`, and the equation is stated
/// with the scale difference cross-multiplied.
pub open spec fn same_value(a: SpecNumber, b: SpecNumber) -> bool {
    let sa = exp_val(a) - frac_len(a);
    let sb = exp_val(b) - frac_len(b);
    if sa >= sb {
        mantissa(a) * pow10((sa - sb) as nat) == mantissa(b)
    } else {
        mantissa(a) == mantissa(b) * pow10((sb - sa) as nat)
    }
}

/// The decimal text of an integer: a `'-'` for a negative value, then the
/// digits of its magnitude.
pub open spec fn render_int(i: int) -> Seq<char> {
    if i < 0 {
        seq!['-'] + dec_digits((-i) as nat)
    } else {
        dec_digits(i as nat)
    }
}

/// The decimal text of an integer with an explicit sign, as an exponent is
/// written.
pub open spec fn render_signed(e: int) -> Seq<char> {
    if e < 0 {
        seq!['-'] + dec_digits((-e) as nat)
    } else {
        seq!['+'] + dec_digits(e as nat)
    }
}

/// The rendered lexical form of a number: the whole part; then, when the
/// fraction has a nonzero digit, a `'.'` and the fraction digits with
/// trailing zeros removed; then, when an exponent is present, `'E'` and the
/// exponent with an explicit sign.
pub open spec fn render_number(n: SpecNumber) -> Seq<char> {
    let ip = render_int(n.integer);
    let base = match n.frac {
        Some(d) => {
            let sd = strip_zeros(d);
            if sd.len() > 0 {
                ip + seq!['.'] + sd
            } else {
                ip
            }
        },
        None => ip,
    };
    match n.exponent {
        Some(e) => base + seq!['E'] + render_signed(e),
        None => base,
    }
}

/// The view of an optional digit vector.
pub open spec fn view_frac(f: Option<Vec<char>>) -> Option<Seq<char>> {
    match f {
        Some(v) => Some(v@),
        None => None,
    }
}

/// The view of an optional exponent.
pub open spec fn view_exp(e: Option<i32>) -> Option<int> {
    match e {
        Some(x) => Some(x as int),
        None => None,
    }
}

/// The decomposed form of a JSON numeric literal: whole part, fraction
/// digits, exponent.
#[derive(Debug, Clone, PartialEq)]
pub struct Number {
    integer: i32,
    frac: Option<Vec<char>>,
    exponent: Option<i32>,
}

impl View for Number {
    type V = SpecNumber;

    closed spec fn view(&self) -> SpecNumber {
        SpecNumber {
            integer: self.integer as int,
            frac: view_frac(self.frac),
            exponent: view_exp(self.exponent),
        }
    }
}

/// Relies on `alloc::string::String::push`: appends the given character to
/// the end of the string.
pub assume_specification[ std::string::String::push ](s: &mut std::string::String, ch: char)
    ensures
        final(s)@ == old(s)@.push(ch),
;

/// The character for a decimal digit value.
fn digit_to_char(d: u32) -> (c: char)
    requires
        d < 10,
    ensures
        c == digit_char(d as int),
{
    match d {
        0 => '0',
        1 => '1',
        2 => '2',
        3 => '3',
        4 => '4',
        5 => '5',
        6 => '6',
        7 => '7',
        8 => '8',
        _ => '9',
    }
}

/// Appends the decimal digits of `n` to `s`.
fn push_dec(s: &mut String, n: u32)
    ensures
        final(s)@ == old(s)@ + dec_digits(n as nat),
    decreases n,
{
    if n < 10 {
        s.push(digit_to_char(n));
        assert(s@ =~= old(s)@ + dec_digits(n as nat));
    } else {
        push_dec(s, n / 10);
        s.push(digit_to_char(n % 10));
        assert(s@ =~= old(s)@ + dec_digits(n as nat));
    }
}

impl Number {
    /// Builds a number from its three components.
    pub fn new(integer: i32, frac: Option<Vec<char>>, exponent: Option<i32>) -> (n: Self)
        ensures
            n@ == (SpecNumber {
                integer: integer as int,
                frac: view_frac(frac),
                exponent: view_exp(exponent),
            }),
    {
        Self { integer, frac, exponent }
    }

    /// Reconstructs the literal's lexical form from the three components.
    pub fn to_text(&self) -> (s: String)
        ensures
            s@ == render_number(self@),
    {
        let mut s = String::new();
        if self.integer < 0 {
            s.push('-');
            let mag: u32 = (-(self.integer as i64)) as u32;
            push_dec(&mut s, mag);
        } else {
            push_dec(&mut s, self.integer as u32);
        }
        assert(s@ =~= render_int(self@.integer));
        match &self.frac {
            Some(d) => {
                let ghost dv = d@;
                proof {
                    assert(dv.subrange(0, dv.len() as int) =~= dv);
                }
                let mut k: usize = d.len();
                while k > 0 && d[k - 1] == '0'
                    invariant
                        k <= dv.len(),
                        dv == d@,
                        strip_zeros(dv) == strip_zeros(dv.subrange(0, k as int)),
                    decreases k,
                {
                    proof {
                        assert(dv.subrange(0, k as int).drop_last() =~= dv.subrange(
                            0,
                            k as int - 1,
                        ));
                    }
                    k = k - 1;
                }
                proof {
                    assert(strip_zeros(dv.subrange(0, k as int)) == dv.subrange(0, k as int));
                    assert(strip_zeros(dv) == dv.subrange(0, k as int));
                }
                if k > 0 {
                    s.push('.');
                    let mut i: usize = 0;
                    let ghost base = s@;
                    while i < k
                        invariant
                            i <= k <= dv.len(),
                            dv == d@,
                            s@ == base + dv.subrange(0, i as int),
                        decreases k - i,
                    {
                        s.push(d[i]);
                        proof {
                            assert(base + dv.subrange(0, i as int + 1) =~= (base + dv.subrange(
                                0,
                                i as int,
                            )).push(dv[i as int]));
                        }
                        i = i + 1;
                    }
                }
            },
            None => {},
        }
        assert(s@ =~= (match self@.frac {
            Some(d) => {
                let sd = strip_zeros(d);
                if sd.len() > 0 {
                    render_int(self@.integer) + seq!['.'] + sd
                } else {
                    render_int(self@.integer)
                }
            },
            None => render_int(self@.integer),
        }));
        match self.exponent {
            Some(e) => {
                s.push('E');
                if e < 0 {
                    s.push('-');
                    push_dec(&mut s, (-(e as i64)) as u32);
                } else {
                    s.push('+');
                    push_dec(&mut s, e as u32);
                }
                assert(s@ =~= render_number(self@));
            },
            None => {},
        }
        s
    }
}

} // verus!
