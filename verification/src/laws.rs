//! The laws the transform obeys: stripping undoes numbering, a second run of
//! the toggle undoes the first — both on documents and on whole file
//! content — headings shallower than the limit are never touched, the
//! sentinel line itself is inert, and the first heading at the limit level
//! is numbered `1.`.

use vstd::prelude::*;

use crate::document::strip_doc;
use crate::line::{
    first_space_from, head_len, is_heading, lemma_first_space_from, strip_line, with_token,
    without_second_field, HASH, SPACE,
};
use crate::numbering::{
    apply_doc, apply_line_at, bump, counters_after, ctr, dec_nat, eligible, lemma_token_no_space,
    step_counters, token_range,
};
use crate::pipeline::{
    content_is_empty, content_lines, doc_has_no_nl, first_nl_from, is_marked, join_nl,
    lemma_first_nl_from, lemma_join_front, lemma_join_split, lemma_split_join, lemma_split_lines,
    lemma_trim_ends, lemma_trim_identity, line_has_no_nl, processed_content, sentinel, split_from,
    toggled, trim, ws,
};

verus! {

/// If everything before `k` is not a space, and `k` is a space or the end of
/// the line, then `k` is where the scan from `i` stops.
proof fn lemma_first_space_is(l: Seq<u8>, i: int, k: int)
    requires
        0 <= i <= k <= l.len(),
        forall|j: int| i <= j < k ==> l[j] != SPACE,
        k < l.len() ==> l[k] == SPACE,
    ensures
        first_space_from(l, i) == k,
    decreases k - i,
{
    if i < k {
        lemma_first_space_is(l, i + 1, k);
    }
}

/// Stripping the second field of a heading line that has just received a
/// token as its second field gives the original line back, for any token
/// that is nonempty and holds no space.
proof fn lemma_strip_with_token(l: Seq<u8>, tok: Seq<u8>)
    requires
        is_heading(l),
        tok.len() >= 1,
        forall|i: int| 0 <= i < tok.len() ==> tok[i] != SPACE,
    ensures
        strip_line(with_token(l, tok)) == l,
{
    let p = head_len(l);
    lemma_first_space_from(l, 0);
    let w = with_token(l, tok);
    assert(w =~= l.take(p) + seq![SPACE] + tok + l.skip(p));
    assert forall|j: int| 0 <= j < p implies w[j] != SPACE by {
        assert(w[j] == l[j] && l[j] == HASH);
    }
    lemma_first_space_is(w, 0, p);
    assert(is_heading(w));
    let rest = w.skip(p + 1);
    assert(rest =~= tok + l.skip(p));
    if p == l.len() {
        lemma_first_space_is(rest, 0, tok.len() as int);
        assert(without_second_field(w) =~= l);
    } else {
        assert(l[p] == SPACE);
        assert(rest[tok.len() as int] == SPACE);
        lemma_first_space_is(rest, 0, tok.len() as int);
        assert(rest.skip(tok.len() as int + 1) =~= l.skip(p + 1));
        assert(without_second_field(w) =~= l.take(p) + seq![SPACE] + l.skip(p + 1));
        assert(l.take(p) + seq![SPACE] + l.skip(p + 1) =~= l);
    }
}

/// Round trip: stripping a numbered document restores it exactly, for any
/// document whose headings all lie at or below `limit` (shallower headings
/// would receive no token yet lose their second field to the strip).
pub proof fn lemma_round_trip(d: Seq<Seq<u8>>, limit: int, r: int)
    requires
        1 <= limit,
        forall|i: int| 0 <= i < d.len() && is_heading(#[trigger] d[i]) ==> head_len(d[i]) >= limit,
    ensures
        strip_doc(apply_doc(d, limit, r)) == d,
{
    let a = apply_doc(d, limit, r);
    assert forall|i: int| 0 <= i < d.len() implies strip_line(a[i]) == d[i] by {
        let l = d[i];
        if eligible(l, limit) {
            let c = step_counters(counters_after(d, limit, r, i), l, limit, r);
            let tok = token_range(c, limit, head_len(l), r);
            lemma_token_no_space(c, limit, head_len(l), r);
            lemma_strip_with_token(l, tok);
        }
    }
    assert(strip_doc(a) =~= d);
}

/// Idempotent toggle: a document the toggle has just numbered and marked is
/// recognised as marked, so a second run of the toggle — with any settings —
/// acts as the strip of the first run's numbering.
pub proof fn lemma_apply_twice_strips(
    d: Seq<Seq<u8>>,
    limit: int,
    r: int,
    limit2: int,
    r2: int,
)
    requires
        !is_marked(d),
    ensures
        toggled(toggled(d, limit, r), limit2, r2) == strip_doc(apply_doc(d, limit, r)),
{
    let t1 = toggled(d, limit, r);
    assert(t1 == apply_doc(d, limit, r) + seq![sentinel()]);
    assert(t1.last() == sentinel());
    assert(is_marked(t1));
    assert(t1.drop_last() =~= apply_doc(d, limit, r));
}

/// Two runs of the toggle on an unmarked document whose headings all lie at
/// or below `limit` give the document back unchanged, whatever settings the
/// second run uses.
pub proof fn lemma_toggle_round_trip(
    d: Seq<Seq<u8>>,
    limit: int,
    r: int,
    limit2: int,
    r2: int,
)
    requires
        !is_marked(d),
        1 <= limit,
        forall|i: int| 0 <= i < d.len() && is_heading(#[trigger] d[i]) ==> head_len(d[i]) >= limit,
    ensures
        toggled(toggled(d, limit, r), limit2, r2) == d,
{
    lemma_apply_twice_strips(d, limit, r, limit2, r2);
    lemma_round_trip(d, limit, r);
}

/// A heading shallower than `limit` is untouched by the numbering pass: the
/// line in the numbered document is byte-identical to the original.
pub proof fn lemma_sub_limit_untouched(d: Seq<Seq<u8>>, limit: int, r: int, i: int)
    requires
        0 <= i < d.len(),
        is_heading(d[i]),
        head_len(d[i]) < limit,
    ensures
        apply_doc(d, limit, r)[i] == d[i],
{
}

/// The sentinel marker's content never passes through the token logic: the
/// line is not a heading, so the numbering pass and the stripping pass both
/// leave it byte-identical.
pub proof fn lemma_sentinel_inert(limit: int)
    ensures
        !is_heading(sentinel()),
        !eligible(sentinel(), limit),
        strip_line(sentinel()) == sentinel(),
{
    assert(sentinel()[0] == 60);
    if is_heading(sentinel()) {
        assert(sentinel()[0] == HASH);
    }
}

/// Inserting a token into a line keeps it free of newlines, provided line
/// and token are.
proof fn lemma_with_token_no_nl(l: Seq<u8>, tok: Seq<u8>)
    requires
        line_has_no_nl(l),
        forall|i: int| 0 <= i < tok.len() ==> tok[i] != 10u8,
        0 <= head_len(l) <= l.len(),
    ensures
        line_has_no_nl(with_token(l, tok)),
{
    let p = head_len(l);
    let w = with_token(l, tok);
    assert forall|j: int| 0 <= j < w.len() implies w[j] != 10u8 by {
        if j < p {
            assert(w[j] == l[j]);
        } else if j == p {
            assert(w[j] == SPACE);
        } else if j < p + 1 + tok.len() {
            assert(w[j] == tok[j - p - 1]);
        } else {
            assert(w[j] == l.skip(p)[j - p - 1 - tok.len()]);
        }
    }
}

/// No line of a freshly numbered and marked document holds a newline, as
/// long as no line of the document held one.
proof fn lemma_toggled_no_nl(d: Seq<Seq<u8>>, limit: int, r: int)
    requires
        1 <= limit,
        doc_has_no_nl(d),
        !is_marked(d),
    ensures
        doc_has_no_nl(toggled(d, limit, r)),
{
    let a = apply_doc(d, limit, r);
    let t = toggled(d, limit, r);
    assert(line_has_no_nl(sentinel()));
    assert forall|k: int| 0 <= k < t.len() implies line_has_no_nl(t[k]) by {
        if k < a.len() {
            let l = d[k];
            assert(t[k] == apply_line_at(d, limit, r, k));
            if eligible(l, limit) {
                let c = step_counters(counters_after(d, limit, r, k), l, limit, r);
                let tok = token_range(c, limit, head_len(l), r);
                lemma_token_no_space(c, limit, head_len(l), r);
                lemma_first_space_from(l, 0);
                lemma_with_token_no_nl(l, tok);
            }
        } else {
            assert(t[k] == sentinel());
        }
    }
}

/// While no eligible heading has been seen, every counter still holds the
/// reset value: the counter sequence is still empty.
proof fn lemma_counters_quiet(d: Seq<Seq<u8>>, limit: int, r: int, n: int)
    requires
        forall|j: int| 0 <= j < n ==> !eligible(#[trigger] d[j], limit),
    ensures
        counters_after(d, limit, r, n) == Seq::<int>::empty(),
    decreases n,
{
    if n > 0 {
        lemma_counters_quiet(d, limit, r, n - 1);
    }
}

/// Round trip at the level of file content: processing an unmarked,
/// non-empty file whose headings all lie at or below `limit`, and then
/// processing the result again — with any settings — gives back the original
/// content, trimmed of surrounding whitespace.
pub proof fn lemma_processed_round_trip(c: Seq<u8>, limit: int, r: int, limit2: int, r2: int)
    requires
        1 <= limit,
        !content_is_empty(c),
        !is_marked(content_lines(c)),
        forall|i: int| 0 <= i < content_lines(c).len()
            && is_heading(#[trigger] content_lines(c)[i])
            ==> head_len(content_lines(c)[i]) >= limit,
    ensures
        processed_content(processed_content(c, limit, r), limit2, r2) == trim(c),
{
    let t = trim(c);
    let d = content_lines(c);
    lemma_split_lines(t, 0);
    lemma_trim_ends(c);
    // The trimmed content is nonempty, else the file would count as empty.
    if t.len() == 0 {
        assert(d == seq![t.subrange(0, 0)]);
        assert(content_is_empty(c));
    }
    // Its first line starts with its first byte, which is not whitespace.
    lemma_first_nl_from(t, 0);
    let p0 = first_nl_from(t, 0);
    assert(p0 >= 1) by {
        if p0 == 0 {
            assert(t[0] == 10 && ws(t[0]));
        }
    }
    assert(d[0].len() >= 1 && d[0][0] == t[0]);

    let a = toggled(d, limit, r);
    let out1 = join_nl(a);
    assert(a == apply_doc(d, limit, r) + seq![sentinel()]);
    assert(a.len() == d.len() + 1 >= 2);
    lemma_toggled_no_nl(d, limit, r);

    // The first line of the numbered document keeps its first byte.
    assert(a[0].len() >= 1 && a[0][0] == d[0][0]) by {
        let l = d[0];
        assert(a[0] == apply_line_at(d, limit, r, 0));
        if eligible(l, limit) {
            lemma_first_space_from(l, 0);
            let w = a[0];
            assert(w[0] == l.take(head_len(l))[0]);
        }
    }

    // The written content neither starts nor ends with whitespace, so the
    // second run trims nothing.
    lemma_join_front(a);
    assert(out1[0] == a[0][0]);
    assert(out1.last() == a.last().last() && !ws(out1.last())) by {
        assert(join_nl(a) == join_nl(a.drop_last()) + seq![10u8] + a.last());
        assert(a.last() == sentinel());
        assert(sentinel().last() == 62);
    }
    lemma_trim_identity(out1);

    // Splitting the written content recovers the numbered, marked document.
    lemma_split_join(a);
    assert(content_lines(out1) == a);
    assert(is_marked(a));

    // The second run strips, which undoes the numbering.
    lemma_apply_twice_strips(d, limit, r, limit2, r2);
    lemma_round_trip(d, limit, r);
    assert(toggled(a, limit2, r2) == d);

    // Joining the recovered lines gives the trimmed original back.
    lemma_join_split(t, 0);
    assert(t.skip(0) =~= t);
}

/// With `starting_num == 1` (reset value zero), the first eligible heading
/// of a document, standing at exactly the limit level, receives the token
/// `1.`.
pub proof fn lemma_first_heading_token(d: Seq<Seq<u8>>, limit: int, i: int)
    requires
        1 <= limit,
        0 <= i < d.len(),
        eligible(d[i], limit),
        head_len(d[i]) == limit,
        forall|j: int| 0 <= j < i ==> !eligible(#[trigger] d[j], limit),
    ensures
        apply_doc(d, limit, 0)[i] == with_token(d[i], seq![49u8, 46u8]),
{
    let l = d[i];
    lemma_counters_quiet(d, limit, 0, i);
    let c = step_counters(counters_after(d, limit, 0, i), l, limit, 0);
    assert(c == bump(Seq::<int>::empty(), limit, 0));
    assert(ctr(c, limit, 0) == 1);
    let tok = token_range(c, limit, limit, 0);
    assert(token_range(c, limit, limit - 1, 0) =~= Seq::<u8>::empty());
    assert(dec_nat(1) =~= seq![49u8]);
    assert(tok =~= seq![49u8, 46u8]);
    assert(apply_line_at(d, limit, 0, i) == with_token(l, tok));
}

} // verus!
