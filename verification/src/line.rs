//! Single-line primitives: locating the space-delimited fields of a byte
//! line, recognising heading lines, inserting a token as the second field,
//! and removing the second field.

use vstd::prelude::*;

verus! {

/// Byte value of the space character, the only field separator.
pub const SPACE: u8 = 32;

/// Byte value of `#`, the heading marker.
pub const HASH: u8 = 35;

/// Index of the first space at or after position `i`, or `l.len()` if there
/// is none.
pub open spec fn first_space_from(l: Seq<u8>, i: int) -> int
    decreases l.len() - i when 0 <= i <= l.len()
{
    if i >= l.len() {
        l.len() as int
    } else if l[i] == SPACE {
        i
    } else {
        first_space_from(l, i + 1)
    }
}

/// Length of the first space-delimited token of `l` (the whole line when it
/// holds no space).
pub open spec fn head_len(l: Seq<u8>) -> int {
    first_space_from(l, 0)
}

/// The position returned by `first_space_from` is the first space at or
/// after `i`: everything before it is not a space, and it is in bounds and a
/// space unless the line is exhausted.
pub proof fn lemma_first_space_from(l: Seq<u8>, i: int)
    requires
        0 <= i <= l.len(),
    ensures
        i <= first_space_from(l, i) <= l.len(),
        forall|j: int| i <= j < first_space_from(l, i) ==> l[j] != SPACE,
        first_space_from(l, i) < l.len() ==> l[first_space_from(l, i)] == SPACE,
    decreases l.len() - i,
{
    if i < l.len() && l[i] != SPACE {
        lemma_first_space_from(l, i + 1);
    }
}

/// A heading line: its first space-delimited token is one or more `#`
/// characters and nothing else.
pub open spec fn is_heading(l: Seq<u8>) -> bool {
    &&& head_len(l) >= 1
    &&& forall|j: int| 0 <= j < head_len(l) ==> l[j] == HASH
}

/// The line with `tok` spliced in as a new second field: first token, one
/// space, the token, then the rest of the line (which still carries its own
/// leading space, if any).
pub open spec fn with_token(l: Seq<u8>, tok: Seq<u8>) -> Seq<u8> {
    l.take(head_len(l)) + seq![SPACE] + tok + l.skip(head_len(l))
}

/// The line with its second space-delimited field removed: the first token,
/// then whatever follows the second field.  A line without a second field is
/// unchanged.
pub open spec fn without_second_field(l: Seq<u8>) -> Seq<u8> {
    let p = head_len(l);
    if p >= l.len() {
        l
    } else {
        let rest = l.skip(p + 1);
        let q = first_space_from(rest, 0);
        if q >= rest.len() {
            l.take(p)
        } else {
            l.take(p) + seq![SPACE] + rest.skip(q + 1)
        }
    }
}

/// What the stripping pass makes of one line: a heading loses its second
/// field, anything else is untouched.
pub open spec fn strip_line(l: Seq<u8>) -> Seq<u8> {
    if is_heading(l) {
        without_second_field(l)
    } else {
        l
    }
}

/// Index of the first space of `l` at or after `from`, or `l.len()` if there
/// is none.
pub fn scan_space(l: &Vec<u8>, from: usize) -> (p: usize)
    requires
        from <= l@.len(),
    ensures
        p == first_space_from(l@, from as int),
{
    let mut i: usize = from;
    while i < l.len()
        invariant
            from <= i <= l@.len(),
            first_space_from(l@, from as int) == first_space_from(l@, i as int),
        decreases l@.len() - i,
    {
        if l[i] == SPACE {
            return i;
        }
        i = i + 1;
    }
    i
}

/// The heading level of `l`: `Some(k)` when the first token of `l` is `k`
/// `#` characters (`k >= 1`), `None` when `l` is not a heading line.
pub fn heading_level(l: &Vec<u8>) -> (r: Option<usize>)
    ensures
        match r {
            Some(k) => is_heading(l@) && k == head_len(l@),
            None => !is_heading(l@),
        },
{
    let p = scan_space(l, 0);
    proof {
        lemma_first_space_from(l@, 0);
    }
    if p == 0 {
        return None;
    }
    let mut j: usize = 0;
    while j < p
        invariant
            0 <= j <= p,
            p == head_len(l@),
            p <= l@.len(),
            forall|k: int| 0 <= k < j ==> l@[k] == HASH,
        decreases p - j,
    {
        proof {
            lemma_first_space_from(l@, 0);
        }
        if l[j] != HASH {
            return None;
        }
        j = j + 1;
    }
    Some(p)
}

/// Appends `src[from..to]` to `dst`.
pub fn push_range(dst: &mut Vec<u8>, src: &Vec<u8>, from: usize, to: usize)
    requires
        from <= to <= src@.len(),
    ensures
        final(dst)@ == old(dst)@ + src@.subrange(from as int, to as int),
{
    let mut i: usize = from;
    while i < to
        invariant
            from <= i <= to <= src@.len(),
            dst@ == old(dst)@ + src@.subrange(from as int, i as int),
        decreases to - i,
    {
        dst.push(src[i]);
        proof {
            assert(dst@ =~= old(dst)@ + src@.subrange(from as int, i + 1));
        }
        i = i + 1;
    }
}

/// `l` rebuilt with `tok` inserted as a new second field, right after the
/// leading `#` run of a heading line.
pub fn line_with_token(l: &Vec<u8>, p: usize, tok: &Vec<u8>) -> (r: Vec<u8>)
    requires
        p == head_len(l@),
    ensures
        r@ == with_token(l@, tok@),
{
    proof {
        lemma_first_space_from(l@, 0);
    }
    let mut out: Vec<u8> = Vec::new();
    push_range(&mut out, l, 0, p);
    out.push(SPACE);
    push_range(&mut out, tok, 0, tok.len());
    push_range(&mut out, l, p, l.len());
    proof {
        assert(tok@.subrange(0, tok@.len() as int) =~= tok@);
        assert(out@ =~= with_token(l@, tok@));
    }
    out
}

/// `l` rebuilt with its second space-delimited field removed; unchanged when
/// the line has no second field.
pub fn line_without_second(l: &Vec<u8>, p: usize) -> (r: Vec<u8>)
    requires
        p == head_len(l@),
    ensures
        r@ == without_second_field(l@),
{
    proof {
        lemma_first_space_from(l@, 0);
    }
    if p >= l.len() {
        return copy_bytes(l);
    }
    let q = scan_space(l, p + 1);
    let mut out: Vec<u8> = Vec::new();
    push_range(&mut out, l, 0, p);
    proof {
        lemma_first_space_from(l@.skip(p + 1), 0);
        assert(l@.skip(p + 1) =~= l@.subrange(p + 1, l@.len() as int));
        lemma_scan_shift(l@, p + 1);
    }
    if q < l.len() {
        out.push(SPACE);
        push_range(&mut out, l, q + 1, l.len());
        proof {
            let rest = l@.skip(p + 1);
            assert(rest.skip(q - p) =~= l@.subrange(q + 1, l@.len() as int));
            assert(out@ =~= without_second_field(l@));
        }
    } else {
        proof {
            assert(out@ =~= without_second_field(l@));
        }
    }
    out
}

/// Scanning for a space from position `i` of `l` finds the same place as
/// scanning the suffix `l.skip(i)` from its start, shifted by `i`.
pub proof fn lemma_scan_shift(l: Seq<u8>, i: int)
    requires
        0 <= i <= l.len(),
    ensures
        first_space_from(l, i) == i + first_space_from(l.skip(i), 0),
{
    lemma_scan_shift_aux(l, i, i);
}

proof fn lemma_scan_shift_aux(l: Seq<u8>, base: int, i: int)
    requires
        0 <= base <= i <= l.len(),
    ensures
        first_space_from(l, i) == base + first_space_from(l.skip(base), i - base),
    decreases l.len() - i,
{
    if i < l.len() && l[i] != SPACE {
        lemma_scan_shift_aux(l, base, i + 1);
    }
}

/// A fresh vector holding the same bytes as `l`.
pub fn copy_bytes(l: &Vec<u8>) -> (r: Vec<u8>)
    ensures
        r@ == l@,
{
    let mut out: Vec<u8> = Vec::new();
    push_range(&mut out, l, 0, l.len());
    proof {
        assert(l@.subrange(0, l@.len() as int) =~= l@);
        assert(out@ =~= l@);
    }
    out
}

} // verus!
