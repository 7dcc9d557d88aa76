//! Numbers and flags written out as text, for status dumps.

use vstd::prelude::*;
use vstd::string::*;

verus! {

/// The digit for `d`, for `d` below sixteen.
pub open spec fn digit_char(d: nat) -> char {
    seq!['0', '1', '2', '3', '4', '5', '6', '7', '8', '9', 'a', 'b', 'c', 'd', 'e', 'f'][d as int]
}

pub proof fn lemma_quotient_smaller(n: nat, radix: nat)
    requires
        2 <= radix <= n,
    ensures
        n / radix < n,
{
    assert(n / radix < n) by (nonlinear_arith)
        requires
            2 <= radix <= n,
    ;
}

/// `n` in base `radix`, most significant digit first, with no leading zero.
pub open spec fn digits_in(n: nat, radix: nat) -> Seq<char>
    decreases n,
{
    if radix < 2 || radix > 16 {
        Seq::empty()
    } else if n < radix {
        seq![digit_char(n)]
    } else {
        proof {
            lemma_quotient_smaller(n, radix);
        }
        digits_in(n / radix, radix) + seq![digit_char(n % radix)]
    }
}

fn digit_text(d: u64) -> (r: &'static str)
    requires
        d < 16,
    ensures
        r@ == seq![digit_char(d as nat)],
{
    let all = "0123456789abcdef";
    proof {
        reveal_strlit("0123456789abcdef");
        assert(all@ =~= seq![
            '0', '1', '2', '3', '4', '5', '6', '7', '8', '9', 'a', 'b', 'c', 'd', 'e', 'f'
        ]);
    }
    let r = all.substring_char(d as usize, (d + 1) as usize);
    assert(r@ =~= seq![digit_char(d as nat)]);
    r
}

/// Appends `n` in base `radix` to `out`.
pub fn push_digits(out: &mut String, n: u64, radix: u64)
    requires
        2 <= radix <= 16,
    ensures
        final(out)@ == old(out)@ + digits_in(n as nat, radix as nat),
    decreases n,
{
    if n < radix {
        out.append(digit_text(n));
    } else {
        proof {
            lemma_quotient_smaller(n as nat, radix as nat);
        }
        push_digits(out, n / radix, radix);
        out.append(digit_text(n % radix));
        assert(out@ =~= old(out)@ + digits_in(n as nat, radix as nat));
    }
}

/// Appends `text` to `out`.
pub fn push_text(out: &mut String, text: &str)
    ensures
        final(out)@ == old(out)@ + text@,
{
    out.append(text);
}

/// `true` or `false`, as text.
pub open spec fn flag_text(b: bool) -> Seq<char> {
    if b {
        seq!['t', 'r', 'u', 'e']
    } else {
        seq!['f', 'a', 'l', 's', 'e']
    }
}

/// Appends `true` or `false` to `out`.
pub fn push_flag(out: &mut String, b: bool)
    ensures
        final(out)@ == old(out)@ + flag_text(b),
{
    if b {
        proof {
            reveal_strlit("true");
        }
        out.append("true");
        assert(out@ =~= old(out)@ + flag_text(b));
    } else {
        proof {
            reveal_strlit("false");
        }
        out.append("false");
        assert(out@ =~= old(out)@ + flag_text(b));
    }
}

} // verus!
