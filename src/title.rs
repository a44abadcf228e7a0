use vstd::prelude::*;

verus! {

/// The decimal digits of `n`, most significant first, in ASCII.
pub open spec fn decimal(n: nat) -> Seq<u8>
    decreases n,
{
    if n < 10 {
        seq![(48 + n) as u8]
    } else {
        decimal(n / 10).push((48 + n % 10) as u8)
    }
}

/// The title of the `n`-th bookmark: `Page_` followed by `n` in decimal.
pub open spec fn title_text(n: nat) -> Seq<u8> {
    seq![80u8, 97u8, 103u8, 101u8, 95u8] + decimal(n)
}

/// Appends the decimal digits of `n` to `out`.
pub fn push_decimal(out: &mut Vec<u8>, n: u64)
    ensures
        final(out)@ == old(out)@ + decimal(n as nat),
    decreases n,
{
    if n < 10 {
        out.push(48u8 + n as u8);
        assert(final(out)@ =~= old(out)@ + decimal(n as nat));
    } else {
        push_decimal(out, n / 10);
        out.push(48u8 + (n % 10) as u8);
        assert(final(out)@ =~= old(out)@ + decimal(n as nat));
    }
}

/// The title of the `n`-th bookmark.
pub fn page_title(n: u64) -> (r: Vec<u8>)
    ensures
        r@ == title_text(n as nat),
{
    let mut out: Vec<u8> = Vec::new();
    out.push(80u8);
    out.push(97u8);
    out.push(103u8);
    out.push(101u8);
    out.push(95u8);
    push_decimal(&mut out, n);
    assert(out@ =~= title_text(n as nat));
    out
}

} // verus!
