//! The solver's report as ASCII text: the answer line and one line per variable.
use vstd::prelude::*;
use vstd::arithmetic::power::pow;

verus! {

/// The decimal digits of `n`, most significant first, as ASCII codes.
pub open spec fn decimal(n: nat) -> Seq<u8>
    decreases n,
{
    if n < 10 {
        seq![(48 + n) as u8]
    } else {
        decimal(n / 10).push((48 + n % 10) as u8)
    }
}

/// The number that the ASCII decimal digits `s` stand for, most significant
/// first: each byte is worth its code minus 48, times ten to the number of
/// bytes after it.
pub open spec fn ascii_digits_value(s: Seq<u8>) -> int
    decreases s.len(),
{
    if s.len() == 0 {
        0
    } else {
        ascii_digits_value(s.drop_last()) * 10 + (s.last() - 48)
    }
}

/// `decimal(n)` is the base-10 representation of `n`: bytes `'0'` to `'9'`
/// only, worth `n`, with no leading `'0'` unless `n` is 0, and exactly as many
/// as `n` has decimal digits (`10^(len - 1) <= n < 10^len`, or `n == 0` with
/// one byte).
pub proof fn lemma_decimal_is_base_ten(n: nat)
    ensures
        forall|i: int| 0 <= i < decimal(n).len() ==> 48 <= #[trigger] decimal(n)[i] <= 57,
        ascii_digits_value(decimal(n)) == n,
        decimal(n).len() >= 1,
        decimal(n)[0] == 48 ==> n == 0,
        n < pow(10, decimal(n).len()),
        n == 0 ==> decimal(n).len() == 1,
        n > 0 ==> pow(10, (decimal(n).len() - 1) as nat) <= n,
    decreases n,
{
    reveal(pow);
    let d = decimal(n);
    if n < 10 {
        assert(d.drop_last() =~= Seq::<u8>::empty());
        assert(ascii_digits_value(Seq::<u8>::empty()) == 0);
        assert(d.last() == 48 + n);
        assert(ascii_digits_value(d) == ascii_digits_value(d.drop_last()) * 10 + (d.last() - 48));
        assert(pow(10, 0) == 1);
        assert(pow(10, 1) == 10 * pow(10, 0));
    } else {
        let q = n / 10;
        let r = n % 10;
        lemma_decimal_is_base_ten(q);
        let e = decimal(q);
        assert(d == e.push((48 + r) as u8));
        assert(d.drop_last() =~= e);
        assert(d[0] == e[0]);
        assert forall|i: int| 0 <= i < d.len() implies 48 <= #[trigger] d[i] <= 57 by {
            if i < e.len() {
                assert(d[i] == e[i]);
            }
        }
        assert(n == q * 10 + r);
        assert(d.last() == 48 + r);
        assert(ascii_digits_value(d) == ascii_digits_value(e) * 10 + (d.last() - 48));
        let l = e.len();
        assert(pow(10, (l + 1) as nat) == 10 * pow(10, l));
        assert(pow(10, (d.len() - 1) as nat) == pow(10, l));
        if l > 1 {
            assert(pow(10, (l - 1) as nat) <= q);
            assert(pow(10, l) == 10 * pow(10, (l - 1) as nat));
        } else {
            assert(pow(10, 1) == 10 * pow(10, 0));
            assert(pow(10, 0) == 1);
        }
    }
}

/// The text `SAT` and a line break.
pub open spec fn sat_text() -> Seq<u8> {
    seq![83u8, 65u8, 84u8, 10u8]
}

/// The text `UNSAT` and a line break.
pub open spec fn unsat_text() -> Seq<u8> {
    seq![85u8, 78u8, 83u8, 65u8, 84u8, 10u8]
}

/// The text `UNKNOWN` and a line break.
pub open spec fn unknown_text() -> Seq<u8> {
    seq![85u8, 78u8, 75u8, 78u8, 79u8, 87u8, 78u8, 10u8]
}

/// The line that reports variable `v` with value `val`: `V`, the number, `=`,
/// then `1` for true, `0` for false or `unset`, and a line break.
pub open spec fn assignment_line(v: nat, val: Option<bool>) -> Seq<u8> {
    let value = match val {
        Some(true) => seq![49u8],
        Some(false) => seq![48u8],
        None => seq![117u8, 110u8, 115u8, 101u8, 116u8],
    };
    seq![86u8] + decimal(v) + seq![61u8] + value + seq![10u8]
}

/// Appends the decimal digits of `n` to `out`.
pub fn push_decimal(out: &mut Vec<u8>, n: usize)
    ensures
        final(out)@ == old(out)@ + decimal(n as nat),
    decreases n,
{
    if n >= 10 {
        push_decimal(out, n / 10);
    }
    let digit = (n % 10) as u8;
    out.push(48u8 + digit);
    proof {
        if n >= 10 {
            assert(old(out)@ + decimal(n as nat) =~= old(out)@ + decimal((n / 10) as nat) + seq![(48 + n % 10) as u8]);
        } else {
            assert(old(out)@ + decimal(n as nat) =~= old(out)@.push((48 + n) as u8));
        }
    }
}

/// Appends the bytes of `bytes` to `out`.
pub fn push_all(out: &mut Vec<u8>, bytes: &[u8])
    ensures
        final(out)@ == old(out)@ + bytes@,
{
    let n = bytes.len();
    for i in 0..n
        invariant
            n == bytes@.len(),
            out@ == old(out)@ + bytes@.subrange(0, i as int),
    {
        out.push(bytes[i]);
        proof {
            assert(bytes@.subrange(0, i + 1) =~= bytes@.subrange(0, i as int).push(bytes@[i as int]));
        }
    }
    proof {
        assert(bytes@.subrange(0, n as int) =~= bytes@);
    }
}

/// Appends the line that reports variable `v` with value `val`.
pub fn push_assignment_line(out: &mut Vec<u8>, v: usize, val: Option<bool>)
    ensures
        final(out)@ == old(out)@ + assignment_line(v as nat, val),
{
    out.push(86u8);
    let ghost after_v = out@;
    push_decimal(out, v);
    out.push(61u8);
    let ghost before_value = out@;
    match val {
        Some(true) => {
            out.push(49u8);
        },
        Some(false) => {
            out.push(48u8);
        },
        None => {
            push_all(out, &[117u8, 110u8, 115u8, 101u8, 116u8]);
        },
    }
    let ghost after_value = out@;
    out.push(10u8);
    proof {
        let value = match val {
            Some(true) => seq![49u8],
            Some(false) => seq![48u8],
            None => seq![117u8, 110u8, 115u8, 101u8, 116u8],
        };
        assert(after_value =~= before_value + value);
        assert(old(out)@ + assignment_line(v as nat, val) =~= old(out)@ + seq![86u8] + decimal(v as nat) + seq![61u8] + value + seq![10u8]);
        assert(out@ =~= old(out)@ + seq![86u8] + decimal(v as nat) + seq![61u8] + value + seq![10u8]);
    }
}

} // verus!
