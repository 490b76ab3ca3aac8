use vstd::prelude::*;
use crate::extract::{extract, extracted, Octets};

verus! {

/// Decimal digits of `n`, without leading zeros.
pub open spec fn decimal(n: nat) -> Seq<u8>
    decreases n,
{
    if n < 10 {
        seq![(48 + n) as u8]
    } else {
        decimal(n / 10).push((48 + n % 10) as u8)
    }
}

/// One output record: `O1.O2.O3.O4` and a line terminator.
pub open spec fn record(q: Octets) -> Seq<u8> {
    decimal(q.0 as nat) + seq![46u8] + decimal(q.1 as nat) + seq![46u8] + decimal(q.2 as nat)
        + seq![46u8] + decimal(q.3 as nat) + seq![10u8]
}

fn push_decimal(out: &mut Vec<u8>, n: u8)
    ensures
        final(out)@ == old(out)@ + decimal(n as nat),
{
    proof {
        reveal_with_fuel(decimal, 3);
    }
    if n >= 100 {
        out.push(48 + n / 100);
        out.push(48 + (n / 10) % 10);
        out.push(48 + n % 10);
        assert(decimal(n as nat) =~= seq![(48 + n / 100) as u8, (48 + (n / 10) % 10) as u8, (48 + n % 10) as u8]);
    } else if n >= 10 {
        out.push(48 + n / 10);
        out.push(48 + n % 10);
        assert(decimal(n as nat) =~= seq![(48 + n / 10) as u8, (48 + n % 10) as u8]);
    } else {
        out.push(48 + n);
    }
    assert(final(out)@ =~= old(out)@ + decimal(n as nat));
}

/// The record for one extracted address, as the bytes of a single line.
pub fn format_record(q: Octets) -> (r: Vec<u8>)
    ensures
        r@ == record(q),
{
    let mut out: Vec<u8> = Vec::new();
    push_decimal(&mut out, q.0);
    out.push(46);
    push_decimal(&mut out, q.1);
    out.push(46);
    push_decimal(&mut out, q.2);
    out.push(46);
    push_decimal(&mut out, q.3);
    out.push(10);
    assert(out@ =~= record(q));
    out
}

/// The records of one body chunk: one per extracted address, in the order
/// the addresses occur in the chunk.
pub fn chunk_records(chunk: &[u8]) -> (r: Vec<Vec<u8>>)
    ensures
        r@.len() == extracted(chunk@).len(),
        forall|i: int| 0 <= i < r@.len() ==> #[trigger] r@[i]@ == record(extracted(chunk@)[i]),
{
    let found = extract(chunk);
    let mut out: Vec<Vec<u8>> = Vec::new();
    let mut i: usize = 0;
    while i < found.len()
        invariant
            i <= found.len(),
            found@ == extracted(chunk@),
            out@.len() == i,
            forall|k: int| 0 <= k < i ==> #[trigger] out@[k]@ == record(found@[k]),
        decreases found.len() - i,
    {
        let line = format_record(found[i]);
        out.push(line);
        i = i + 1;
    }
    out
}

proof fn lemma_decimal_digits(n: nat)
    ensures
        decimal(n).len() >= 1,
        forall|i: int| 0 <= i < decimal(n).len() ==> 48 <= #[trigger] decimal(n)[i] <= 57,
    decreases n,
{
    if n >= 10 {
        lemma_decimal_digits(n / 10);
    }
}

/// A record is one whole line: it ends with the line terminator and holds no
/// other, so writing it in one piece cannot mix two records on a line.
pub proof fn law_record_is_one_line(q: Octets)
    ensures
        record(q).len() >= 8,
        record(q).last() == 10,
        forall|i: int| 0 <= i < record(q).len() - 1 ==> #[trigger] record(q)[i] != 10,
{
    lemma_decimal_digits(q.0 as nat);
    lemma_decimal_digits(q.1 as nat);
    lemma_decimal_digits(q.2 as nat);
    lemma_decimal_digits(q.3 as nat);
    let d0 = decimal(q.0 as nat);
    let d1 = decimal(q.1 as nat);
    let d2 = decimal(q.2 as nat);
    let d3 = decimal(q.3 as nat);
    let body = d0 + seq![46u8] + d1 + seq![46u8] + d2 + seq![46u8] + d3;
    assert forall|i: int| 0 <= i < body.len() implies #[trigger] body[i] != 10 by {
        let n0 = d0.len() as int;
        let n1 = d1.len() as int;
        let n2 = d2.len() as int;
        if i < n0 {
            assert(body[i] == d0[i]);
        } else if i == n0 {
        } else if i < n0 + 1 + n1 {
            assert(body[i] == d1[i - n0 - 1]);
        } else if i == n0 + 1 + n1 {
        } else if i < n0 + n1 + 2 + n2 {
            assert(body[i] == d2[i - n0 - n1 - 2]);
        } else if i == n0 + n1 + 2 + n2 {
        } else {
            assert(body[i] == d3[i - n0 - n1 - n2 - 3]);
        }
    }
    assert(record(q) =~= body + seq![10u8]);
}

} // verus!
