//! The per-level counter state machine and the dotted numbering token.
//!
//! Counters are modelled as a sequence indexed by heading level; a level
//! beyond the end of the sequence counts as the reset value `r`, which is
//! `starting_num - 1` (so `-1` or `0`).  A heading at level `L` bumps the
//! counter at `L` and resets every deeper counter, which the model expresses
//! by truncating the sequence to length `L + 1`.

use vstd::prelude::*;

use crate::line::{head_len, is_heading};

verus! {

/// Decimal digits of `n`, most significant first, as ASCII bytes.
pub open spec fn dec_nat(n: nat) -> Seq<u8>
    decreases n,
{
    if n < 10 {
        seq![(48 + n) as u8]
    } else {
        dec_nat(n / 10) + seq![(48 + n % 10) as u8]
    }
}

/// Decimal rendering of a possibly negative value: a `-` sign followed by
/// the digits of the magnitude.
pub open spec fn dec_int(v: int) -> Seq<u8> {
    if v < 0 {
        seq![45u8] + dec_nat((-v) as nat)
    } else {
        dec_nat(v as nat)
    }
}

/// Every byte of `dec_nat` is an ASCII digit, and there is at least one.
pub proof fn lemma_dec_nat_digits(n: nat)
    ensures
        dec_nat(n).len() >= 1,
        forall|i: int| 0 <= i < dec_nat(n).len() ==> 48 <= #[trigger] dec_nat(n)[i] <= 57,
    decreases n,
{
    if n >= 10 {
        lemma_dec_nat_digits(n / 10);
    }
}

/// Every byte of `dec_int` is a digit or the `-` sign, and there is at
/// least one.
pub proof fn lemma_dec_int_bytes(v: int)
    ensures
        dec_int(v).len() >= 1,
        forall|i: int| 0 <= i < dec_int(v).len()
            ==> (48 <= #[trigger] dec_int(v)[i] <= 57 || dec_int(v)[i] == 45),
{
    if v < 0 {
        lemma_dec_nat_digits((-v) as nat);
    } else {
        lemma_dec_nat_digits(v as nat);
    }
}

/// The decimal digits of `n` as a fresh byte vector.
pub fn format_usize(n: usize) -> (r: Vec<u8>)
    ensures
        r@ == dec_nat(n as nat),
    decreases n,
{
    if n < 10 {
        let mut out: Vec<u8> = Vec::new();
        out.push(48 + (n as u8));
        proof {
            assert(out@ =~= dec_nat(n as nat));
        }
        out
    } else {
        let mut out = format_usize(n / 10);
        out.push(48 + ((n % 10) as u8));
        proof {
            assert(out@ =~= dec_nat(n as nat));
        }
        out
    }
}

/// The counter at level `j`: the stored value, or the reset value `r` for a
/// level the sequence does not reach.
pub open spec fn ctr(c: Seq<int>, j: int, r: int) -> int {
    if 0 <= j < c.len() {
        c[j]
    } else {
        r
    }
}

/// The counters after a heading at level `lev`: the counter at `lev` is
/// incremented, shallower counters are kept, and every deeper counter is
/// reset (by cutting the sequence off at `lev`).
pub open spec fn bump(c: Seq<int>, lev: int, r: int) -> Seq<int> {
    Seq::new((lev + 1) as nat, |j: int| if j == lev { ctr(c, j, r) + 1 } else { ctr(c, j, r) })
}

/// The dotted token over levels `limit ..= lev`: each counter's decimal
/// rendering followed by one dot.
pub open spec fn token_range(c: Seq<int>, limit: int, lev: int, r: int) -> Seq<u8>
    decreases lev - limit + 1,
{
    if lev < limit {
        Seq::empty()
    } else {
        token_range(c, limit, lev - 1, r) + dec_int(ctr(c, lev, r)) + seq![46u8]
    }
}

/// A token over at least one level is nonempty and holds neither a space
/// nor a newline: it forms exactly one space-delimited field of one line.
pub proof fn lemma_token_no_space(c: Seq<int>, limit: int, lev: int, r: int)
    requires
        0 <= limit <= lev,
    ensures
        token_range(c, limit, lev, r).len() >= 1,
        forall|i: int| 0 <= i < token_range(c, limit, lev, r).len()
            ==> #[trigger] token_range(c, limit, lev, r)[i] != 32u8,
        forall|i: int| 0 <= i < token_range(c, limit, lev, r).len()
            ==> #[trigger] token_range(c, limit, lev, r)[i] != 10u8,
    decreases lev - limit,
{
    let t = token_range(c, limit, lev, r);
    let t1 = token_range(c, limit, lev - 1, r);
    let d = dec_int(ctr(c, lev, r));
    lemma_dec_int_bytes(ctr(c, lev, r));
    if limit < lev {
        lemma_token_no_space(c, limit, lev - 1, r);
    }
    assert forall|i: int| 0 <= i < t.len() implies t[i] != 32u8 && t[i] != 10u8 by {
        if i < t1.len() {
            assert(t[i] == t1[i]);
        } else if i < t1.len() + d.len() {
            assert(t[i] == d[i - t1.len()]);
        } else {
            assert(t[i] == 46u8);
        }
    }
}

/// A line the numbering pass acts on: a heading at level `limit` or deeper.
pub open spec fn eligible(l: Seq<u8>, limit: int) -> bool {
    is_heading(l) && head_len(l) >= limit
}

/// One step of the counter scan: an eligible heading bumps the counters,
/// every other line leaves them alone.
pub open spec fn step_counters(c: Seq<int>, l: Seq<u8>, limit: int, r: int) -> Seq<int> {
    if eligible(l, limit) {
        bump(c, head_len(l), r)
    } else {
        c
    }
}

/// The counters after scanning the first `n` lines of `d`, starting from the
/// all-reset state (the empty sequence).
pub open spec fn counters_after(d: Seq<Seq<u8>>, limit: int, r: int, n: int) -> Seq<int>
    decreases n,
{
    if n <= 0 {
        Seq::empty()
    } else {
        step_counters(counters_after(d, limit, r, n - 1), d[n - 1], limit, r)
    }
}

/// Line `i` of `d` after the numbering pass: an eligible heading gets the
/// token built from the counters as bumped at that line; anything else is
/// untouched.
pub open spec fn apply_line_at(d: Seq<Seq<u8>>, limit: int, r: int, i: int) -> Seq<u8> {
    let l = d[i];
    if eligible(l, limit) {
        let c = step_counters(counters_after(d, limit, r, i), l, limit, r);
        crate::line::with_token(l, token_range(c, limit, head_len(l), r))
    } else {
        l
    }
}

/// The whole document after the numbering pass with minimum level `limit`
/// and reset value `r` (`starting_num - 1`).
pub open spec fn apply_doc(d: Seq<Seq<u8>>, limit: int, r: int) -> Seq<Seq<u8>> {
    Seq::new(d.len(), |i: int| apply_line_at(d, limit, r, i))
}

/// The counters `c` that a count vector `counts` stands for: each stored
/// count shifted by `starting_num - 1`, so that a count of zero means the
/// reset value.
pub open spec fn counters_of(counts: Seq<usize>, s: int) -> Seq<int> {
    counts.map_values(|k: usize| k + s - 1)
}

/// The count vector after an eligible heading at level `lev`: counts up to
/// `lev` are kept (absent ones as zero), the count at `lev` is incremented,
/// and deeper counts are dropped.  Mirrors `bump` on the counters the counts
/// stand for.
pub fn bump_counts(counts: &Vec<usize>, lev: usize, bound: usize) -> (r: Vec<usize>)
    requires
        forall|j: int| 0 <= j < counts@.len() ==> #[trigger] counts@[j] <= bound,
        bound < usize::MAX,
    ensures
        r@.len() == lev + 1,
        forall|j: int| 0 <= j < r@.len() ==> #[trigger] r@[j] <= bound + 1,
        forall|s: int| counters_of(r@, s) == bump(counters_of(counts@, s), lev as int, s - 1),
{
    let mut out: Vec<usize> = Vec::new();
    let mut j: usize = 0;
    while j < lev
        invariant
            j <= lev,
            out@.len() == j,
            forall|k: int| 0 <= k < counts@.len() ==> #[trigger] counts@[k] <= bound,
            bound < usize::MAX,
            forall|k: int| 0 <= k < j
                ==> #[trigger] out@[k] == (if k < counts@.len() { counts@[k] } else { 0usize }),
        decreases lev - j,
    {
        if j < counts.len() {
            out.push(counts[j]);
        } else {
            out.push(0);
        }
        j = j + 1;
    }
    let prev: usize = if lev < counts.len() { counts[lev] } else { 0 };
    out.push(prev + 1);
    proof {
        assert forall|s: int| counters_of(out@, s) =~= bump(
            counters_of(counts@, s),
            lev as int,
            s - 1,
        ) by {
            let a = counters_of(out@, s);
            let b = bump(counters_of(counts@, s), lev as int, s - 1);
            assert forall|k: int| 0 <= k < a.len() implies a[k] == b[k] by {
                assert(out@[k] as int == (if k < counts@.len() && k < lev {
                    counts@[k] as int
                } else if k == lev {
                    prev + 1
                } else {
                    0
                }));
            }
        }
    }
    out
}

/// The dotted token for a heading at level `lev`, built from the counts in
/// effect at that heading.  The rendered value at level `j` is
/// `counts[j] + starting_num - 1`; a count of zero with `starting_num == 0`
/// renders as `-1`, exactly as the counter model says.
pub fn build_token(counts: &Vec<usize>, limit: usize, lev: usize, s: usize) -> (r: Vec<u8>)
    requires
        1 <= limit <= lev,
        lev < counts@.len(),
        s <= 1,
    ensures
        r@ == token_range(counters_of(counts@, s as int), limit as int, lev as int, s as int - 1),
{
    let ghost c = counters_of(counts@, s as int);
    let ghost r_reset = s as int - 1;
    let n = counts.len();
    let mut out: Vec<u8> = Vec::new();
    let mut j: usize = limit;
    proof {
        assert(out@ =~= token_range(c, limit as int, limit - 1, r_reset));
    }
    while j <= lev
        invariant
            limit <= j <= lev + 1,
            lev < n,
            n == counts@.len(),
            s <= 1,
            c == counters_of(counts@, s as int),
            r_reset == s as int - 1,
            out@ == token_range(c, limit as int, j - 1, r_reset),
        decreases lev + 1 - j,
    {
        let k = counts[j];
        if k == 0 && s == 0 {
            out.push(45);
            out.push(49);
        } else {
            let v: usize = if s == 1 { k } else { k - 1 };
            let digits = format_usize(v);
            push_all(&mut out, &digits);
        }
        out.push(46);
        proof {
            assert(ctr(c, j as int, r_reset) == k + s - 1);
            if k == 0 && s == 0 {
                assert(dec_nat(1) =~= seq![49u8]);
                assert(dec_int(-1) =~= seq![45u8, 49u8]);
            }
            assert(out@ =~= token_range(c, limit as int, j as int, r_reset));
        }
        j = j + 1;
    }
    out
}

/// Appends all of `src` to `dst`.
pub fn push_all(dst: &mut Vec<u8>, src: &Vec<u8>)
    ensures
        final(dst)@ == old(dst)@ + src@,
{
    crate::line::push_range(dst, src, 0, src.len());
    proof {
        assert(src@.subrange(0, src@.len() as int) =~= src@);
    }
}

} // verus!
