//! Laws relating the number rendering to the scanner: scanning the rendered
//! text of any well-formed number yields a single number token, over the
//! whole text, that denotes the same numeric value.

use vstd::prelude::*;
use vstd::arithmetic::mul::{
    lemma_mul_is_associative, lemma_mul_is_distributive_add_other_way,
    lemma_mul_is_distributive_sub_other_way,
};

use crate::number::{
    dec_digits, digit_char, digit_val, exp_val, frac_len, frac_val, is_digit_char, mantissa,
    pow10, render_int, render_number, render_signed, same_value, seq_digits_val, strip_zeros,
    wf_digits, wf_spec_number, SpecNumber,
};
use crate::tokenizer::{
    is_ws_char, lemma_digits_end_is, scan_exp, scan_frac, scan_int, scan_number,
    token_at, ws_end, ExpScan, IntScan, NumScan, SpecToken, TokenStep,
};

verus! {

/// The digits of `n` are decimal digit characters, at least one, and read
/// back as `n`.
proof fn lemma_dec_digits(n: nat)
    ensures
        dec_digits(n).len() >= 1,
        wf_digits(dec_digits(n)),
        seq_digits_val(dec_digits(n)) == n,
    decreases n,
{
    if n < 10 {
        let d = dec_digits(n);
        assert(d.drop_last() =~= Seq::<char>::empty());
        assert(seq_digits_val(Seq::<char>::empty()) == 0);
        assert(d.last() == digit_char(n as int));
        assert(digit_val(digit_char(n as int)) == n);
    } else {
        lemma_dec_digits(n / 10);
        let t = dec_digits(n / 10);
        let c = digit_char((n % 10) as int);
        let d = t.push(c);
        assert(d.drop_last() =~= t);
        assert(digit_val(c) == n % 10);
        assert(forall|i: int| 0 <= i < d.len() ==> is_digit_char(#[trigger] d[i])) by {
            assert(forall|i: int| 0 <= i < t.len() ==> is_digit_char(#[trigger] t[i]));
        }
    }
}

/// Stripping trailing zeros keeps a prefix of the digits, drops only zeros,
/// and divides the value by the corresponding power of ten.
proof fn lemma_strip_zeros(d: Seq<char>)
    requires
        forall|i: int| 0 <= i < d.len() ==> is_digit_char(#[trigger] d[i]),
    ensures
        strip_zeros(d).len() <= d.len(),
        strip_zeros(d) == d.subrange(0, strip_zeros(d).len() as int),
        strip_zeros(d).len() > 0 ==> strip_zeros(d).last() != '0',
        seq_digits_val(d) == seq_digits_val(strip_zeros(d)) * pow10(
            (d.len() - strip_zeros(d).len()) as nat,
        ),
    decreases d.len(),
{
    let sd = strip_zeros(d);
    if d.len() > 0 && d.last() == '0' {
        let dl = d.drop_last();
        assert(forall|i: int| 0 <= i < dl.len() ==> is_digit_char(#[trigger] dl[i])) by {
            assert(forall|i: int| 0 <= i < dl.len() ==> dl[i] == d[i]);
        }
        lemma_strip_zeros(dl);
        let j = (dl.len() - sd.len()) as nat;
        assert(sd == dl.subrange(0, sd.len() as int));
        assert(dl.subrange(0, sd.len() as int) =~= d.subrange(0, sd.len() as int));
        assert(digit_val(d.last()) == 0);
        assert(seq_digits_val(d) == seq_digits_val(dl) * 10);
        lemma_mul_is_associative(seq_digits_val(sd), pow10(j), 10);
        assert(pow10((j + 1) as nat) == 10 * pow10(j));
        assert(seq_digits_val(d) == seq_digits_val(sd) * pow10((j + 1) as nat)) by {
            assert(seq_digits_val(dl) * 10 == (seq_digits_val(sd) * pow10(j)) * 10);
            assert((seq_digits_val(sd) * pow10(j)) * 10 == seq_digits_val(sd) * (pow10(j) * 10));
            assert(pow10(j) * 10 == pow10((j + 1) as nat));
        }
    } else {
        assert(d.subrange(0, d.len() as int) =~= d);
        assert(pow10(0) == 1);
    }
}

/// Powers of ten multiply as their exponents add.
proof fn lemma_pow10_adds(a: nat, b: nat)
    ensures
        pow10((a + b) as nat) == pow10(a) * pow10(b),
    decreases a,
{
    if a == 0 {
    } else {
        lemma_pow10_adds((a - 1) as nat, b);
        lemma_mul_is_associative(10, pow10((a - 1) as nat), pow10(b));
    }
}

/// Round-trip law: tokenizing the rendered text of any well-formed number
/// yields exactly one number token, covering the whole text, whose
/// decomposition denotes the same numeric value.
#[verifier::rlimit(100)]
pub proof fn lemma_number_round_trip(n: SpecNumber)
    requires
        wf_spec_number(n),
    ensures
        ({
            let s = render_number(n);
            token_at(s, 0) matches TokenStep::Tok(SpecToken::Number(m), q) && q == s.len()
                && same_value(m, n)
        }),
{
    let s = render_number(n);
    let neg = n.integer < 0;
    let mag = if neg {
        (-n.integer) as nat
    } else {
        n.integer as nat
    };
    lemma_dec_digits(mag);
    let idig = dec_digits(mag);
    let ip = render_int(n.integer);
    let i0: int = if neg {
        1int
    } else {
        0int
    };
    let i1 = i0 + idig.len();
    assert(ip.len() == i1);
    assert(forall|i: int| i0 <= i < i1 ==> ip[i] == idig[i - i0]);
    // the fraction segment
    let sd = match n.frac {
        Some(d) => strip_zeros(d),
        None => Seq::<char>::empty(),
    };
    match n.frac {
        Some(d) => {
            lemma_strip_zeros(d);
            assert(forall|i: int| 0 <= i < sd.len() ==> is_digit_char(#[trigger] sd[i])) by {
                assert(forall|i: int| 0 <= i < sd.len() ==> sd[i] == d[i]);
            }
        },
        None => {},
    }
    let has_fr = n.frac is Some && sd.len() > 0;
    let base = if has_fr {
        ip + seq!['.'] + sd
    } else {
        ip
    };
    let b1 = base.len() as int;
    let ex = match n.exponent {
        Some(e) => seq!['E'] + render_signed(e),
        None => Seq::<char>::empty(),
    };
    assert(s =~= base + ex);
    // characters by region
    assert(forall|i: int| i0 <= i < i1 ==> s[i] == idig[i - i0]);
    if neg {
        assert(s[0] == '-');
    }
    if has_fr {
        assert(s[i1] == '.');
        assert(forall|i: int| i1 + 1 <= i < b1 ==> s[i] == sd[i - (i1 + 1)]);
    }
    let emag = if exp_val(n) < 0 {
        (-exp_val(n)) as nat
    } else {
        exp_val(n) as nat
    };
    lemma_dec_digits(emag);
    let edig = dec_digits(emag);
    let e0 = b1 + 2;
    match n.exponent {
        Some(e) => {
            assert(render_signed(e).len() == 1 + edig.len());
            assert(s[b1] == 'E');
            assert(s[b1 + 1] == if e < 0 {
                '-'
            } else {
                '+'
            });
            assert(forall|i: int| e0 <= i < s.len() ==> s[i] == edig[i - e0]);
            assert(s.len() == e0 + edig.len());
        },
        None => {
            assert(s.len() == b1);
        },
    }
    // the scanner's whitespace skip leaves the cursor at 0
    assert(s.len() > 0);
    assert(!is_ws_char(s[0]));
    assert(ws_end(s, 0) == 0);
    // the integer phase reads back exactly the whole part
    assert(is_digit_char(s[0]) || s[0] == '-');
    lemma_digits_end_is(s, i0, i1);
    assert(s.subrange(i0, i1) =~= idig);
    let step1 = scan_int(s, 0);
    assert(step1 == (IntScan::Value { value: n.integer as int, end: i1 })) by {
        if i1 < s.len() {
            assert(s[i1] == '.' || s[i1] == 'E');
        }
        if neg {
            assert(mag <= 0x8000_0000);
        } else {
            assert(mag < 0x8000_0000);
        }
    }
    // the fraction phase reads back the stripped digits
    let step2 = scan_frac(s, i1);
    if has_fr {
        lemma_digits_end_is(s, i1 + 1, b1);
        assert(s.subrange(i1 + 1, b1) =~= sd);
        assert(step2 == (Some(sd), b1));
    } else {
        if i1 < s.len() {
            assert(s[i1] == 'E');
        }
        assert(step2 == (None::<Seq<char>>, i1));
        assert(b1 == i1);
    }
    // the exponent phase reads back exactly the exponent
    let step3 = scan_exp(s, b1);
    match n.exponent {
        Some(e) => {
            lemma_digits_end_is(s, e0, s.len() as int);
            assert(s.subrange(e0, s.len() as int) =~= edig);
            assert(step3 == (ExpScan::Value { value: Some(e as int), end: s.len() as int })) by {
                if e < 0 {
                    assert(emag <= 0x8000_0000);
                } else {
                    assert(emag < 0x8000_0000);
                }
            }
        },
        None => {
            assert(step3 == (ExpScan::Value { value: None::<int>, end: b1 }));
        },
    }
    let m = SpecNumber {
        integer: n.integer,
        frac: if has_fr {
            Some(sd)
        } else {
            None
        },
        exponent: n.exponent,
    };
    assert(scan_number(s, 0) == NumScan::Value(m, s.len() as int));
    assert(token_at(s, 0) == TokenStep::Tok(SpecToken::Number(m), s.len() as int));
    // the two decompositions denote the same value
    let k = frac_len(n);
    let kp = frac_len(m);
    let z = (k - kp) as nat;
    assert(kp <= k);
    assert(frac_val(n) == frac_val(m) * pow10(z)) by {
        match n.frac {
            Some(d) => {
                if has_fr {
                } else {
                    assert(seq_digits_val(sd) == 0);
                    assert(frac_val(m) == 0);
                }
            },
            None => {
                assert(pow10(0) == 1);
            },
        }
    }
    lemma_pow10_adds(kp, z);
    lemma_mul_is_associative(n.integer as int, pow10(kp), pow10(z));
    assert(mantissa(m) * pow10(z) == mantissa(n)) by {
        if n.integer >= 0 {
            lemma_mul_is_distributive_add_other_way(
                pow10(z),
                n.integer * pow10(kp),
                frac_val(m),
            );
        } else {
            lemma_mul_is_distributive_sub_other_way(
                pow10(z),
                n.integer * pow10(kp),
                frac_val(m),
            );
        }
    }
    assert(exp_val(m) == exp_val(n));
    assert(same_value(m, n)) by {
        let sa = exp_val(m) - frac_len(m);
        let sb = exp_val(n) - frac_len(n);
        assert(sa - sb == z);
        if sa >= sb {
            assert(pow10((sa - sb) as nat) == pow10(z));
        }
    }
}

} // verus!
