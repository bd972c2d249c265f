//! The file-level pipeline: trimming raw content, splitting it into lines,
//! the sentinel toggle that decides between numbering and stripping, and
//! joining the lines back into file content.

use vstd::prelude::*;

use crate::document::{strip_doc, Document};
use crate::line::push_range;
use crate::numbering::apply_doc;

verus! {

/// ASCII whitespace, as trimmed from the ends of the raw file content.
pub open spec fn ws(b: u8) -> bool {
    b == 32 || (9 <= b <= 13)
}

/// `s` with leading whitespace removed.
pub open spec fn trim_front(s: Seq<u8>) -> Seq<u8>
    decreases s.len(),
{
    if s.len() > 0 && ws(s[0]) {
        trim_front(s.drop_first())
    } else {
        s
    }
}

/// `s` with trailing whitespace removed.
pub open spec fn trim_back(s: Seq<u8>) -> Seq<u8>
    decreases s.len(),
{
    if s.len() > 0 && ws(s.last()) {
        trim_back(s.drop_last())
    } else {
        s
    }
}

/// `s` with whitespace removed from both ends.
pub open spec fn trim(s: Seq<u8>) -> Seq<u8> {
    trim_back(trim_front(s))
}

/// `trim_front` drops exactly the longest whitespace prefix.
pub proof fn lemma_trim_front(s: Seq<u8>, k: int)
    requires
        0 <= k <= s.len(),
        forall|j: int| 0 <= j < k ==> ws(s[j]),
        k < s.len() ==> !ws(s[k]),
    ensures
        trim_front(s) == s.skip(k),
    decreases k,
{
    if k == 0 {
        if s.len() > 0 && ws(s[0]) {
            assert(false);
        }
        assert(trim_front(s) =~= s.skip(0));
    } else {
        let t = s.drop_first();
        assert(forall|j: int| 0 <= j < k - 1 ==> ws(t[j]));
        lemma_trim_front(t, k - 1);
        assert(t.skip(k - 1) =~= s.skip(k));
    }
}

/// `trim_back` drops exactly the longest whitespace suffix.
pub proof fn lemma_trim_back(s: Seq<u8>, k: int)
    requires
        0 <= k <= s.len(),
        forall|j: int| k <= j < s.len() ==> ws(s[j]),
        k > 0 ==> !ws(s[k - 1]),
    ensures
        trim_back(s) == s.take(k),
    decreases s.len() - k,
{
    if k == s.len() {
        if s.len() > 0 && ws(s.last()) {
            let t = s.drop_last();
            lemma_trim_back(t, k - 1);
            assert(t.take(k - 1) =~= s.take(k - 1));
        } else {
            assert(trim_back(s) =~= s.take(k));
        }
    } else {
        let t = s.drop_last();
        assert(ws(s.last()));
        lemma_trim_back(t, k);
        assert(t.take(k) =~= s.take(k));
    }
}

/// Whether `b` is ASCII whitespace.
pub fn is_ws(b: u8) -> (r: bool)
    ensures
        r == ws(b),
{
    b == 32 || (9 <= b && b <= 13)
}

/// `s` with whitespace removed from both ends, as a fresh vector.
pub fn trim_bytes(s: &Vec<u8>) -> (r: Vec<u8>)
    ensures
        r@ == trim(s@),
{
    let n = s.len();
    let mut a: usize = 0;
    while a < n && is_ws(s[a])
        invariant
            a <= n,
            n == s@.len(),
            forall|j: int| 0 <= j < a ==> ws(s@[j]),
        decreases n - a,
    {
        a = a + 1;
    }
    let mut b: usize = n;
    while b > a && is_ws(s[b - 1])
        invariant
            a <= b <= n,
            n == s@.len(),
            forall|j: int| b <= j < n ==> ws(s@[j]),
        decreases b,
    {
        b = b - 1;
    }
    let mut out: Vec<u8> = Vec::new();
    push_range(&mut out, s, a, b);
    proof {
        lemma_trim_front(s@, a as int);
        let t = s@.skip(a as int);
        assert(forall|j: int| b - a <= j < t.len() ==> ws(t[j]));
        lemma_trim_back(t, b - a);
        assert(out@ =~= t.take(b - a));
    }
    out
}

/// Index of the first newline of `s` at or after `i`, or `s.len()` if there
/// is none.
pub open spec fn first_nl_from(s: Seq<u8>, i: int) -> int
    decreases s.len() - i when 0 <= i <= s.len()
{
    if i >= s.len() {
        s.len() as int
    } else if s[i] == 10 {
        i
    } else {
        first_nl_from(s, i + 1)
    }
}

/// The position returned by `first_nl_from` is the first newline at or after
/// `i`.
pub proof fn lemma_first_nl_from(s: Seq<u8>, i: int)
    requires
        0 <= i <= s.len(),
    ensures
        i <= first_nl_from(s, i) <= s.len(),
        forall|j: int| i <= j < first_nl_from(s, i) ==> s[j] != 10,
        first_nl_from(s, i) < s.len() ==> s[first_nl_from(s, i)] == 10,
    decreases s.len() - i,
{
    if i < s.len() && s[i] != 10 {
        lemma_first_nl_from(s, i + 1);
    }
}

/// The lines of `s` from position `i` on, split on newlines.  Splitting
/// always yields at least one line; an empty tail yields one empty line.
pub open spec fn split_from(s: Seq<u8>, i: int) -> Seq<Seq<u8>>
    decreases s.len() - i when 0 <= i <= s.len() via split_from_decreases
{
    let p = first_nl_from(s, i);
    if p >= s.len() {
        seq![s.subrange(i, s.len() as int)]
    } else {
        seq![s.subrange(i, p)] + split_from(s, p + 1)
    }
}

#[via_fn]
proof fn split_from_decreases(s: Seq<u8>, i: int) {
    lemma_first_nl_from(s, i);
}

/// The lines of a document joined with single newlines.
pub open spec fn join_nl(d: Seq<Seq<u8>>) -> Seq<u8>
    decreases d.len(),
{
    if d.len() == 0 {
        Seq::empty()
    } else if d.len() == 1 {
        d[0]
    } else {
        join_nl(d.drop_last()) + seq![10u8] + d.last()
    }
}

/// A line, as a byte sequence, that holds no newline.
pub open spec fn line_has_no_nl(l: Seq<u8>) -> bool {
    forall|j: int| 0 <= j < l.len() ==> l[j] != 10
}

/// A document none of whose lines holds a newline, so that joining and
/// splitting are inverses on it.
pub open spec fn doc_has_no_nl(d: Seq<Seq<u8>>) -> bool {
    forall|k: int| 0 <= k < d.len() ==> line_has_no_nl(#[trigger] d[k])
}

/// If everything before `k` is not a newline, and `k` is a newline or the
/// end, then `k` is where the newline scan from `i` stops.
proof fn lemma_first_nl_is(s: Seq<u8>, i: int, k: int)
    requires
        0 <= i <= k <= s.len(),
        forall|j: int| i <= j < k ==> s[j] != 10,
        k < s.len() ==> s[k] == 10,
    ensures
        first_nl_from(s, i) == k,
    decreases k - i,
{
    if i < k {
        lemma_first_nl_is(s, i + 1, k);
    }
}

/// Splitting yields at least one line, and no line holds a newline.
pub proof fn lemma_split_lines(s: Seq<u8>, i: int)
    requires
        0 <= i <= s.len(),
    ensures
        split_from(s, i).len() >= 1,
        doc_has_no_nl(split_from(s, i)),
    decreases s.len() - i,
{
    lemma_first_nl_from(s, i);
    let p = first_nl_from(s, i);
    if p < s.len() {
        lemma_split_lines(s, p + 1);
        let d = split_from(s, i);
        assert forall|k: int| 0 <= k < d.len() implies line_has_no_nl(d[k]) by {
            if k > 0 {
                assert(d[k] == split_from(s, p + 1)[k - 1]);
            }
        }
    }
}

/// Joining a document of two or more lines can also be read off from the
/// front: the first line, a newline, then the join of the rest.
pub proof fn lemma_join_front(d: Seq<Seq<u8>>)
    requires
        d.len() >= 2,
    ensures
        join_nl(d) == d[0] + seq![10u8] + join_nl(d.drop_first()),
    decreases d.len(),
{
    if d.len() == 2 {
        assert(d.drop_last() =~= seq![d[0]]);
        assert(d.drop_first() =~= seq![d[1]]);
        assert(join_nl(seq![d[0]]) == seq![d[0]][0]);
        assert(join_nl(seq![d[1]]) == seq![d[1]][0]);
        assert(join_nl(d) == join_nl(d.drop_last()) + seq![10u8] + d.last());
        assert(join_nl(d) =~= d[0] + seq![10u8] + join_nl(d.drop_first()));
    } else {
        let e = d.drop_last();
        let f = d.drop_first();
        lemma_join_front(e);
        assert(e.drop_first() =~= f.drop_last());
        assert(f.last() == d.last());
        assert(e[0] == d[0]);
        assert(join_nl(d) == join_nl(e) + seq![10u8] + d.last());
        assert(join_nl(f) == join_nl(f.drop_last()) + seq![10u8] + f.last());
        assert(join_nl(d) =~= d[0] + seq![10u8] + join_nl(f));
    }
}

/// Joining the lines split off from position `i` restores the suffix of the
/// content from `i` on.
pub proof fn lemma_join_split(s: Seq<u8>, i: int)
    requires
        0 <= i <= s.len(),
    ensures
        join_nl(split_from(s, i)) == s.skip(i),
    decreases s.len() - i,
{
    lemma_first_nl_from(s, i);
    let p = first_nl_from(s, i);
    let d = split_from(s, i);
    if p >= s.len() {
        assert(join_nl(d) =~= s.skip(i));
    } else {
        lemma_join_split(s, p + 1);
        lemma_split_lines(s, p + 1);
        assert(d.drop_first() =~= split_from(s, p + 1));
        lemma_join_front(d);
        assert(join_nl(d) =~= s.skip(i));
    }
}

/// Splitting from `i` is splitting the suffix from `i` from its start.
proof fn lemma_split_shift(s: Seq<u8>, i: int)
    requires
        0 <= i <= s.len(),
    ensures
        split_from(s, i) == split_from(s.skip(i), 0),
    decreases s.len() - i,
{
    lemma_first_nl_from(s, i);
    let p = first_nl_from(s, i);
    let t = s.skip(i);
    lemma_first_nl_is(t, 0, p - i);
    if p >= s.len() {
        assert(s.subrange(i, s.len() as int) =~= t.subrange(0, t.len() as int));
        assert(split_from(s, i) =~= split_from(t, 0));
    } else {
        lemma_split_shift(s, p + 1);
        lemma_split_shift(t, p - i + 1);
        assert(t.skip(p - i + 1) =~= s.skip(p + 1));
        assert(s.subrange(i, p) =~= t.subrange(0, p - i));
        assert(split_from(s, i) =~= split_from(t, 0));
    }
}

/// Splitting the join of a document restores the document, as long as no
/// line of it holds a newline.
pub proof fn lemma_split_join(d: Seq<Seq<u8>>)
    requires
        d.len() >= 1,
        doc_has_no_nl(d),
    ensures
        split_from(join_nl(d), 0) == d,
    decreases d.len(),
{
    let s = join_nl(d);
    if d.len() == 1 {
        lemma_first_nl_is(s, 0, s.len() as int);
        assert(s.subrange(0, s.len() as int) =~= d[0]);
        assert(split_from(s, 0) =~= d);
    } else {
        lemma_join_front(d);
        let p = d[0].len() as int;
        assert(s[p] == 10);
        assert forall|j: int| 0 <= j < p implies s[j] != 10 by {
            assert(s[j] == d[0][j]);
        }
        lemma_first_nl_is(s, 0, p);
        lemma_split_shift(s, p + 1);
        assert(s.skip(p + 1) =~= join_nl(d.drop_first()));
        assert(doc_has_no_nl(d.drop_first())) by {
            assert(forall|k: int| 0 <= k < d.drop_first().len()
                ==> #[trigger] d.drop_first()[k] == d[k + 1]);
        }
        lemma_split_join(d.drop_first());
        assert(s.subrange(0, p) =~= d[0]);
        assert(split_from(s, 0) =~= d);
    }
}

/// Content that neither starts nor ends with whitespace is its own trim.
pub proof fn lemma_trim_identity(s: Seq<u8>)
    requires
        s.len() == 0 || (!ws(s[0]) && !ws(s.last())),
    ensures
        trim(s) == s,
{
    lemma_trim_front(s, 0);
    assert(s.skip(0) =~= s);
    lemma_trim_back(s, s.len() as int);
    assert(s.take(s.len() as int) =~= s);
}

/// Trimmed content, when nonempty, neither starts nor ends with whitespace.
pub proof fn lemma_trim_ends(s: Seq<u8>)
    ensures
        trim(s).len() > 0 ==> !ws(trim(s)[0]) && !ws(trim(s).last()),
{
    lemma_trim_front_end(s);
    lemma_trim_back_end(trim_front(s));
    let t = trim_front(s);
    if trim(s).len() > 0 {
        lemma_trim_back_prefix(t);
    }
}

/// A nonempty `trim_front` does not start with whitespace.
proof fn lemma_trim_front_end(s: Seq<u8>)
    ensures
        trim_front(s).len() > 0 ==> !ws(trim_front(s)[0]),
    decreases s.len(),
{
    if s.len() > 0 && ws(s[0]) {
        lemma_trim_front_end(s.drop_first());
    }
}

/// A nonempty `trim_back` does not end with whitespace.
proof fn lemma_trim_back_end(s: Seq<u8>)
    ensures
        trim_back(s).len() > 0 ==> !ws(trim_back(s).last()),
    decreases s.len(),
{
    if s.len() > 0 && ws(s.last()) {
        lemma_trim_back_end(s.drop_last());
    }
}

/// `trim_back` keeps a prefix of its input unchanged.
proof fn lemma_trim_back_prefix(s: Seq<u8>)
    ensures
        trim_back(s).len() <= s.len(),
        forall|j: int| 0 <= j < trim_back(s).len() ==> #[trigger] trim_back(s)[j] == s[j],
    decreases s.len(),
{
    if s.len() > 0 && ws(s.last()) {
        lemma_trim_back_prefix(s.drop_last());
    }
}

/// Index of the first newline of `s` at or after `from`, or `s.len()`.
pub fn scan_nl(s: &Vec<u8>, from: usize) -> (p: usize)
    requires
        from <= s@.len(),
    ensures
        p == first_nl_from(s@, from as int),
{
    let mut i: usize = from;
    while i < s.len()
        invariant
            from <= i <= s@.len(),
            first_nl_from(s@, from as int) == first_nl_from(s@, i as int),
        decreases s@.len() - i,
    {
        if s[i] == 10 {
            return i;
        }
        i = i + 1;
    }
    i
}

/// Splits `s` on newlines into a document.  There is always at least one
/// line; empty input gives one empty line, as splitting a string does.
pub fn split_lines(s: &Vec<u8>) -> (d: Document)
    ensures
        d@ == split_from(s@, 0),
{
    let mut doc = Document::new();
    let mut i: usize = 0;
    let mut done = false;
    while !done
        invariant
            i <= s@.len(),
            !done ==> doc@ + split_from(s@, i as int) == split_from(s@, 0),
            done ==> doc@ == split_from(s@, 0),
        decreases (if done { 0int } else { 2 * (s@.len() - i) + 1 }),
    {
        let p = scan_nl(s, i);
        proof {
            lemma_first_nl_from(s@, i as int);
        }
        let mut seg: Vec<u8> = Vec::new();
        push_range(&mut seg, s, i, p);
        doc.push_line(seg);
        if p == s.len() {
            done = true;
            proof {
                assert(doc@ =~= split_from(s@, 0));
            }
        } else {
            i = p + 1;
            proof {
                assert(doc@ + split_from(s@, i as int) =~= split_from(s@, 0));
            }
        }
    }
    doc
}

/// Joins the lines of `d` with single newlines into file content.
pub fn join_lines(d: &Document) -> (r: Vec<u8>)
    ensures
        r@ == join_nl(d@),
{
    let n = d.len();
    let mut out: Vec<u8> = Vec::new();
    let mut i: usize = 0;
    while i < n
        invariant
            i <= n,
            n == d@.len(),
            out@ == join_nl(d@.take(i as int)),
        decreases n - i,
    {
        if i > 0 {
            out.push(10);
        }
        let line = &d.lines[i];
        push_range(&mut out, line, 0, line.len());
        proof {
            assert(line@.subrange(0, line@.len() as int) =~= line@);
            assert(d@.take(i + 1).drop_last() =~= d@.take(i as int));
            assert(d@.take(i + 1).last() == d@[i as int]);
            if i == 0 {
                assert(out@ =~= join_nl(d@.take(i + 1)));
            } else {
                assert(out@ =~= join_nl(d@.take(i + 1)));
            }
        }
        i = i + 1;
    }
    proof {
        assert(d@.take(n as int) =~= d@);
    }
    out
}

/// The sentinel marker: the exact bytes of the comment line whose presence
/// as the last line of a file records that its headings are numbered.
pub const SENTINEL: [u8; 51] = [
    60, 33, 45, 45, 119, 111, 114, 107, 101, 100, 32, 98, 121, 32, 109, 100, 95, 110, 117, 109, 98,
    101, 114, 101, 114, 46, 32, 68, 79, 32, 78, 79, 84, 32, 69, 68, 73, 84, 32, 116, 104, 105, 115,
    32, 108, 105, 110, 101, 45, 45, 62,
];

/// The sentinel marker line as a byte sequence.
pub open spec fn sentinel() -> Seq<u8> {
    SENTINEL@
}

/// The sentinel marker line as a fresh vector.
pub fn sentinel_line() -> (v: Vec<u8>)
    ensures
        v@ == sentinel(),
{
    let mut out: Vec<u8> = Vec::new();
    let mut i: usize = 0;
    while i < 51
        invariant
            i <= 51,
            out@ == sentinel().take(i as int),
        decreases 51 - i,
    {
        out.push(SENTINEL[i]);
        proof {
            assert(out@ =~= sentinel().take(i + 1));
        }
        i = i + 1;
    }
    proof {
        assert(sentinel().take(51) =~= sentinel());
    }
    out
}

/// Whether `l` is exactly the sentinel marker line.
pub fn is_sentinel(l: &Vec<u8>) -> (b: bool)
    ensures
        b == (l@ == sentinel()),
{
    if l.len() != 51 {
        proof {
            assert(l@ != sentinel());
        }
        return false;
    }
    let mut i: usize = 0;
    while i < 51
        invariant
            i <= 51,
            l@.len() == 51,
            forall|j: int| 0 <= j < i ==> l@[j] == sentinel()[j],
        decreases 51 - i,
    {
        if l[i] != SENTINEL[i] {
            proof {
                assert(l@ != sentinel());
            }
            return false;
        }
        i = i + 1;
    }
    proof {
        assert(l@ =~= sentinel());
    }
    true
}

/// The errors the transform itself can raise.  Failures of the surrounding
/// file system are reported by the caller that touches the file system.
#[derive(Clone, Copy, Debug, PartialEq, Eq, Structural)]
pub enum MdError {
    /// The path does not end in `.md`.
    NotMarkdown,
    /// The file's trimmed content is a single empty line.
    EmptyFile,
}

impl MdError {
    /// A human-readable description of the error.
    pub fn message(&self) -> (m: &'static str)
        ensures
            *self is NotMarkdown ==> m@ == "the target file does not have a markdown extension"@,
            *self is EmptyFile ==> m@ == "the target file is empty"@,
    {
        match self {
            MdError::NotMarkdown => "the target file does not have a markdown extension",
            MdError::EmptyFile => "the target file is empty",
        }
    }
}

/// Whether a path (as bytes) ends in the three bytes `.md`.
pub open spec fn is_md_path(p: Seq<u8>) -> bool {
    p.len() >= 3 && p.subrange(p.len() - 3, p.len() as int) == seq![46u8, 109u8, 100u8]
}

/// Whether the path ends in `.md`.  Shorter paths cannot, and are rejected.
pub fn is_markdown_path(p: &Vec<u8>) -> (b: bool)
    ensures
        b == is_md_path(p@),
{
    let n = p.len();
    if n < 3 {
        return false;
    }
    let r = p[n - 3] == 46 && p[n - 2] == 109 && p[n - 1] == 100;
    proof {
        if r {
            assert(p@.subrange(n - 3, n as int) =~= seq![46u8, 109u8, 100u8]);
        } else {
            assert(p@.subrange(n - 3, n as int) != seq![46u8, 109u8, 100u8]) by {
                let t = p@.subrange(n - 3, n as int);
                assert(t[0] == p@[n - 3] && t[1] == p@[n - 2] && t[2] == p@[n - 1]);
            }
        }
    }
    r
}

/// A marked document: nonempty, with the sentinel as its last line.
pub open spec fn is_marked(d: Seq<Seq<u8>>) -> bool {
    d.len() > 0 && d.last() == sentinel()
}

/// What one run of the toggle makes of a document: a marked document has the
/// sentinel removed and every heading's second field stripped; an unmarked
/// one has its eligible headings numbered and the sentinel appended.
pub open spec fn toggled(d: Seq<Seq<u8>>, limit: int, r: int) -> Seq<Seq<u8>> {
    if is_marked(d) {
        strip_doc(d.drop_last())
    } else {
        apply_doc(d, limit, r) + seq![sentinel()]
    }
}

/// Applies the toggle to `doc`: strips a marked document, numbers and marks
/// an unmarked one.  `limit` is the shallowest heading level that receives a
/// number; `starting_num` is the value the first heading at a level shows.
pub fn toggle_numbering(doc: &mut Document, limit: usize, starting_num: usize)
    requires
        1 <= limit <= 6,
        starting_num <= 1,
    ensures
        final(doc)@ == toggled(old(doc)@, limit as int, starting_num as int - 1),
{
    let n = doc.lines.len();
    let marked = if n > 0 {
        is_sentinel(&doc.lines[n - 1])
    } else {
        false
    };
    proof {
        assert(n > 0 ==> doc@[n - 1] == doc.lines@[n - 1]@);
        assert(marked == is_marked(doc@));
    }
    if marked {
        doc.lines.pop();
        proof {
            assert(doc@ =~= old(doc)@.drop_last());
        }
        doc.delete_prefix_number();
    } else {
        doc.add_prefix_number(limit, starting_num);
        let mark = sentinel_line();
        doc.push_line(mark);
    }
}

/// The lines a raw file's content is processed as: the content with
/// whitespace trimmed from both ends, split on newlines.
pub open spec fn content_lines(c: Seq<u8>) -> Seq<Seq<u8>> {
    split_from(trim(c), 0)
}

/// An empty file: its trimmed content splits into a single empty line.
pub open spec fn content_is_empty(c: Seq<u8>) -> bool {
    content_lines(c).len() == 1 && content_lines(c)[0].len() == 0
}

/// The content written back for a file read as `c`: its lines after one run
/// of the toggle, rejoined with newlines.
pub open spec fn processed_content(c: Seq<u8>, limit: int, r: int) -> Seq<u8> {
    join_nl(toggled(content_lines(c), limit, r))
}

/// One run of the transform on one file, short of the file system: given the
/// file's path and raw content, either the exact content to write back, or
/// the error that rules the file out.  A path not ending in `.md` is
/// rejected first; an empty file next; anything else is toggled.
pub fn apply_number(path: &Vec<u8>, content: &Vec<u8>, limit: usize, starting_num: usize) -> (r:
    Result<Vec<u8>, MdError>)
    requires
        1 <= limit <= 6,
        starting_num <= 1,
    ensures
        !is_md_path(path@) <==> r == Err::<Vec<u8>, MdError>(MdError::NotMarkdown),
        (is_md_path(path@) && content_is_empty(content@)) <==> r == Err::<Vec<u8>, MdError>(
            MdError::EmptyFile,
        ),
        (is_md_path(path@) && !content_is_empty(content@)) <==> r is Ok,
        r is Ok ==> r->Ok_0@ == processed_content(
            content@,
            limit as int,
            starting_num as int - 1,
        ),
{
    if !is_markdown_path(path) {
        return Err(MdError::NotMarkdown);
    }
    let trimmed = trim_bytes(content);
    let mut doc = split_lines(&trimmed);
    if doc.lines.len() == 1 && doc.lines[0].len() == 0 {
        proof {
            assert(doc@[0] == doc.lines@[0]@);
        }
        return Err(MdError::EmptyFile);
    }
    proof {
        assert(doc@.len() == 1 ==> doc@[0] == doc.lines@[0]@);
    }
    toggle_numbering(&mut doc, limit, starting_num);
    Ok(join_lines(&doc))
}

} // verus!
