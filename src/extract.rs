use vstd::prelude::*;

verus! {

/// Four octets decoded from one dotted-quad token.
pub type Octets = (u8, u8, u8, u8);

pub open spec fn is_digit(b: u8) -> bool {
    48 <= b <= 57
}

/// A word character in the sense of a word boundary: ASCII letter, digit or `_`.
pub open spec fn is_word(b: u8) -> bool {
    is_digit(b) || (65 <= b <= 90) || (97 <= b <= 122) || b == 95
}

/// A byte that can never belong to a token, nor join two tokens: neither a
/// word character nor a dot.
pub open spec fn is_separator(b: u8) -> bool {
    !is_word(b) && b != 46
}

pub open spec fn digit_at(s: Seq<u8>, i: int) -> bool {
    0 <= i < s.len() && is_digit(s[i])
}

pub open spec fn dot_at(s: Seq<u8>, i: int) -> bool {
    0 <= i < s.len() && s[i] == 46
}

/// Length of the digit run starting at `i`, counted up to four (four meaning
/// "too long for an octet").
pub open spec fn group_len(s: Seq<u8>, i: int) -> int {
    if !digit_at(s, i) {
        0
    } else if !digit_at(s, i + 1) {
        1
    } else if !digit_at(s, i + 2) {
        2
    } else if !digit_at(s, i + 3) {
        3
    } else {
        4
    }
}

pub open spec fn digit_value(s: Seq<u8>, i: int) -> int {
    s[i] - 48
}

/// Decimal value of the digit run starting at `i` (leading zeros allowed).
pub open spec fn group_value(s: Seq<u8>, i: int) -> int {
    let n = group_len(s, i);
    if n == 1 {
        digit_value(s, i)
    } else if n == 2 {
        10 * digit_value(s, i) + digit_value(s, i + 1)
    } else {
        100 * digit_value(s, i) + 10 * digit_value(s, i + 1) + digit_value(s, i + 2)
    }
}

/// The digit run at `i` is one octet: one to three digits, at most 255.
pub open spec fn group_ok(s: Seq<u8>, i: int) -> bool {
    1 <= group_len(s, i) <= 3 && group_value(s, i) <= 255
}

pub open spec fn group_end(s: Seq<u8>, i: int) -> int {
    i + group_len(s, i)
}

pub open spec fn second_start(s: Seq<u8>, p: int) -> int {
    group_end(s, p) + 1
}

pub open spec fn third_start(s: Seq<u8>, p: int) -> int {
    group_end(s, second_start(s, p)) + 1
}

pub open spec fn fourth_start(s: Seq<u8>, p: int) -> int {
    group_end(s, third_start(s, p)) + 1
}

pub open spec fn token_end(s: Seq<u8>, p: int) -> int {
    group_end(s, fourth_start(s, p))
}

/// A dotted-quad token starts at `p`: a word boundary before it, four octets
/// separated by dots, and a word boundary after it.
pub open spec fn token_at(s: Seq<u8>, p: int) -> bool {
    &&& 0 <= p < s.len()
    &&& (p == 0 || !is_word(s[p - 1]))
    &&& group_ok(s, p)
    &&& dot_at(s, group_end(s, p))
    &&& group_ok(s, second_start(s, p))
    &&& dot_at(s, group_end(s, second_start(s, p)))
    &&& group_ok(s, third_start(s, p))
    &&& dot_at(s, group_end(s, third_start(s, p)))
    &&& group_ok(s, fourth_start(s, p))
    &&& (token_end(s, p) == s.len() || !is_word(s[token_end(s, p)]))
}

pub open spec fn token_octets(s: Seq<u8>, p: int) -> Octets {
    (
        group_value(s, p) as u8,
        group_value(s, second_start(s, p)) as u8,
        group_value(s, third_start(s, p)) as u8,
        group_value(s, fourth_start(s, p)) as u8,
    )
}

/// Leftmost, non-overlapping scan from position `p`: a token found at `p` is
/// taken whole and the scan resumes after it.
pub open spec fn scan(s: Seq<u8>, p: int) -> Seq<Octets>
    decreases s.len() - p,
{
    if p < 0 || p >= s.len() {
        Seq::empty()
    } else if token_at(s, p) {
        seq![token_octets(s, p)] + scan(s, token_end(s, p))
    } else {
        scan(s, p + 1)
    }
}

/// Every dotted-quad token of `s`, in order, decoded.
pub open spec fn extracted(s: Seq<u8>) -> Seq<Octets> {
    scan(s, 0)
}

proof fn lemma_scan_without_tokens(s: Seq<u8>, p: int)
    requires
        forall|i: int| !token_at(s, i),
    ensures
        scan(s, p) == Seq::<Octets>::empty(),
    decreases s.len() - p,
{
    if 0 <= p < s.len() {
        lemma_scan_without_tokens(s, p + 1);
    }
}

/// A buffer that holds no well-formed dotted-quad token yields nothing.
pub proof fn law_no_token_no_output(s: Seq<u8>)
    requires
        forall|i: int| !token_at(s, i),
    ensures
        extracted(s) == Seq::<Octets>::empty(),
{
    lemma_scan_without_tokens(s, 0);
}

/// The seam between `a` and `b` splits no token: one side of it is empty or
/// has a separator byte next to the seam.
pub open spec fn clean_seam(a: Seq<u8>, b: Seq<u8>) -> bool {
    a.len() == 0 || b.len() == 0 || is_separator(a.last()) || is_separator(b[0])
}

proof fn lemma_group_shift(a: Seq<u8>, b: Seq<u8>, j: int)
    requires
        0 <= j,
    ensures
        group_len(a + b, a.len() + j) == group_len(b, j),
        group_ok(a + b, a.len() + j) == group_ok(b, j),
        group_ok(b, j) ==> group_value(a + b, a.len() + j) == group_value(b, j),
        group_end(a + b, a.len() + j) == a.len() + group_end(b, j),
        dot_at(a + b, a.len() + j) == dot_at(b, j),
{
    let s = a + b;
    let n = a.len() as int;
    if j < b.len() {
        assert(s[n + j] == b[j]);
    }
    if j + 1 < b.len() {
        assert(s[n + j + 1] == b[j + 1]);
    }
    if j + 2 < b.len() {
        assert(s[n + j + 2] == b[j + 2]);
    }
    if j + 3 < b.len() {
        assert(s[n + j + 3] == b[j + 3]);
    }
}

/// Past the seam, tokens of `a + b` are those of `b`, shifted.
proof fn lemma_token_shift(a: Seq<u8>, b: Seq<u8>, j: int)
    requires
        0 <= j,
        j > 0 || a.len() == 0 || !is_word(a.last()) || !is_digit(b[0]) || b.len() == 0,
    ensures
        token_at(a + b, a.len() + j) == token_at(b, j),
        token_at(b, j) ==> token_end(a + b, a.len() + j) == a.len() + token_end(b, j)
            && token_octets(a + b, a.len() + j) == token_octets(b, j),
{
    let s = a + b;
    let n = a.len() as int;
    lemma_group_shift(a, b, j);
    let e1 = group_end(b, j);
    if group_ok(b, j) && dot_at(b, e1) {
        let j2 = second_start(b, j);
        lemma_group_shift(a, b, j2);
        let e2 = group_end(b, j2);
        if group_ok(b, j2) && dot_at(b, e2) {
            let j3 = third_start(b, j);
            lemma_group_shift(a, b, j3);
            let e3 = group_end(b, j3);
            if group_ok(b, j3) && dot_at(b, e3) {
                let j4 = fourth_start(b, j);
                lemma_group_shift(a, b, j4);
                let e4 = group_end(b, j4);
                if e4 < b.len() {
                    assert(s[n + e4] == b[e4]);
                }
            }
        }
    }
    if j > 0 && j <= b.len() {
        assert(s[n + j - 1] == b[j - 1]);
    }
    if j == 0 && n > 0 {
        assert(s[n - 1] == a.last());
    }
}

pub open spec fn boundary_after(s: Seq<u8>, e: int) -> bool {
    e == s.len() || !is_word(s[e])
}

proof fn lemma_group_prefix(a: Seq<u8>, b: Seq<u8>, i: int)
    requires
        a.len() > 0,
        b.len() > 0,
        is_separator(a.last()) || is_separator(b[0]),
        0 <= i <= a.len(),
        i < a.len() || is_separator(b[0]),
    ensures
        group_len(a + b, i) == group_len(a, i),
        group_ok(a + b, i) == group_ok(a, i),
        group_ok(a, i) ==> group_value(a + b, i) == group_value(a, i),
        group_end(a, i) <= a.len(),
        is_separator(a.last()) && i < a.len() ==> group_end(a, i) < a.len(),
        dot_at(a + b, group_end(a, i)) == dot_at(a, group_end(a, i)),
        dot_at(a, group_end(a, i)) ==> group_end(a, i) + 1 < a.len() || is_separator(b[0]),
        boundary_after(a + b, group_end(a, i)) == boundary_after(a, group_end(a, i)),
{
    let s = a + b;
    let n = a.len() as int;
    assert(s[n] == b[0]);
    assert(s[n - 1] == a[n - 1]);
    if i < n {
        assert(s[i] == a[i]);
    }
    if i + 1 < n {
        assert(s[i + 1] == a[i + 1]);
    }
    if i + 2 < n {
        assert(s[i + 2] == a[i + 2]);
    }
    if i + 3 < n {
        assert(s[i + 3] == a[i + 3]);
    }
}

/// Before the seam, tokens of `a + b` are those of `a`, and they end at the
/// seam at the latest.
proof fn lemma_token_prefix(a: Seq<u8>, b: Seq<u8>, p: int)
    requires
        a.len() > 0,
        b.len() > 0,
        is_separator(a.last()) || is_separator(b[0]),
        0 <= p < a.len(),
    ensures
        token_at(a + b, p) == token_at(a, p),
        token_at(a, p) ==> token_end(a + b, p) == token_end(a, p)
            && token_octets(a + b, p) == token_octets(a, p) && token_end(a, p) <= a.len(),
{
    let s = a + b;
    if p > 0 {
        assert(s[p - 1] == a[p - 1]);
    }
    lemma_group_prefix(a, b, p);
    if dot_at(a, group_end(a, p)) {
        let j2 = second_start(a, p);
        lemma_group_prefix(a, b, j2);
        if dot_at(a, group_end(a, j2)) {
            let j3 = third_start(a, p);
            lemma_group_prefix(a, b, j3);
            if dot_at(a, group_end(a, j3)) {
                let j4 = fourth_start(a, p);
                lemma_group_prefix(a, b, j4);
            }
        }
    }
}

proof fn lemma_scan_prefix(a: Seq<u8>, b: Seq<u8>, p: int)
    requires
        a.len() > 0,
        b.len() > 0,
        is_separator(a.last()) || is_separator(b[0]),
        0 <= p <= a.len(),
    ensures
        scan(a + b, p) == scan(a, p) + scan(a + b, a.len() as int),
    decreases a.len() - p,
{
    let s = a + b;
    let n = a.len() as int;
    if p == n {
        assert(scan(a, p) + scan(s, n) =~= scan(s, n));
    } else {
        lemma_token_prefix(a, b, p);
        if token_at(a, p) {
            let e = token_end(a, p);
            lemma_scan_prefix(a, b, e);
            assert(seq![token_octets(a, p)] + (scan(a, e) + scan(s, n)) =~= (seq![
                token_octets(a, p),
            ] + scan(a, e)) + scan(s, n));
        } else {
            lemma_scan_prefix(a, b, p + 1);
        }
    }
}

proof fn lemma_scan_shift(a: Seq<u8>, b: Seq<u8>, j: int)
    requires
        0 <= j,
        j > 0 || a.len() == 0 || !is_word(a.last()) || b.len() == 0 || !is_digit(b[0]),
    ensures
        scan(a + b, a.len() + j) == scan(b, j),
    decreases b.len() - j,
{
    if j < b.len() {
        lemma_token_shift(a, b, j);
        if token_at(b, j) {
            lemma_scan_shift(a, b, token_end(b, j));
        } else {
            lemma_scan_shift(a, b, j + 1);
        }
    }
}

/// Extracting from two buffers joined at a seam that splits no token gives
/// the two extractions, one after the other.
pub proof fn law_concat(a: Seq<u8>, b: Seq<u8>)
    requires
        clean_seam(a, b),
    ensures
        extracted(a + b) == extracted(a) + extracted(b),
{
    if a.len() == 0 {
        assert(a + b =~= b);
        assert(extracted(a) + extracted(b) =~= extracted(b));
    } else if b.len() == 0 {
        assert(a + b =~= a);
        assert(extracted(a) + extracted(b) =~= extracted(a));
    } else {
        lemma_scan_prefix(a, b, 0);
        lemma_scan_shift(a, b, 0);
    }
}

fn byte_is_digit(b: u8) -> (r: bool)
    ensures
        r == is_digit(b),
{
    48 <= b && b <= 57
}

fn byte_is_word(b: u8) -> (r: bool)
    ensures
        r == is_word(b),
{
    byte_is_digit(b) || (65 <= b && b <= 90) || (97 <= b && b <= 122) || b == 95
}

fn has_digit(buf: &[u8], i: usize) -> (r: bool)
    ensures
        r == digit_at(buf@, i as int),
{
    i < buf.len() && byte_is_digit(buf[i])
}

/// The octet whose digits start at `i`, with the index just past them.
fn group_at(buf: &[u8], i: usize) -> (r: Option<(u8, usize)>)
    requires
        i <= buf.len(),
    ensures
        match r {
            Some((v, e)) => group_ok(buf@, i as int) && v == group_value(buf@, i as int)
                && e == group_end(buf@, i as int),
            None => !group_ok(buf@, i as int),
        },
{
    if !has_digit(buf, i) {
        return None;
    }
    let d0 = (buf[i] - 48) as u32;
    if !has_digit(buf, i + 1) {
        return Some((d0 as u8, i + 1));
    }
    let d1 = (buf[i + 1] - 48) as u32;
    if !has_digit(buf, i + 2) {
        return Some(((10 * d0 + d1) as u8, i + 2));
    }
    let d2 = (buf[i + 2] - 48) as u32;
    if has_digit(buf, i + 3) {
        return None;
    }
    let v = 100 * d0 + 10 * d1 + d2;
    if v > 255 {
        None
    } else {
        Some((v as u8, i + 3))
    }
}

fn has_dot(buf: &[u8], i: usize) -> (r: bool)
    ensures
        r == dot_at(buf@, i as int),
{
    i < buf.len() && buf[i] == 46
}

/// The token starting at `p`, decoded, with the index just past it.
fn token_at_index(buf: &[u8], p: usize) -> (r: Option<(Octets, usize)>)
    requires
        p < buf.len(),
    ensures
        match r {
            Some((q, e)) => token_at(buf@, p as int) && q == token_octets(buf@, p as int)
                && e == token_end(buf@, p as int),
            None => !token_at(buf@, p as int),
        },
{
    if p > 0 && byte_is_word(buf[p - 1]) {
        return None;
    }
    let (a, e1) = match group_at(buf, p) {
        Some(g) => g,
        None => return None,
    };
    if !has_dot(buf, e1) {
        return None;
    }
    let (b, e2) = match group_at(buf, e1 + 1) {
        Some(g) => g,
        None => return None,
    };
    if !has_dot(buf, e2) {
        return None;
    }
    let (c, e3) = match group_at(buf, e2 + 1) {
        Some(g) => g,
        None => return None,
    };
    if !has_dot(buf, e3) {
        return None;
    }
    let (d, e4) = match group_at(buf, e3 + 1) {
        Some(g) => g,
        None => return None,
    };
    if e4 < buf.len() && byte_is_word(buf[e4]) {
        return None;
    }
    Some(((a, b, c, d), e4))
}

/// Every dotted-quad token of `buf`, leftmost first and non-overlapping, each
/// decoded into four octets.
pub fn extract(buf: &[u8]) -> (r: Vec<Octets>)
    ensures
        r@ == extracted(buf@),
{
    let mut out: Vec<Octets> = Vec::new();
    let mut p: usize = 0;
    while p < buf.len()
        invariant
            p <= buf.len(),
            out@ + scan(buf@, p as int) == extracted(buf@),
        decreases buf.len() - p,
    {
        match token_at_index(buf, p) {
            Some((q, e)) => {
                assert(out@.push(q) + scan(buf@, e as int) =~= out@ + scan(buf@, p as int));
                out.push(q);
                p = e;
            },
            None => {
                p = p + 1;
            },
        }
    }
    assert(out@ + scan(buf@, p as int) =~= out@);
    out
}

} // verus!
