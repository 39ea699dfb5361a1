//! Grouping keys: which directory string a file's size is counted under.
//!
//! Paths are read as Unix paths. A path is absolute when it starts with `/`;
//! a relative path may start with a `.` component; its other components are
//! the text between separators, with empty and `.` pieces left out.
//!
//! A file is grouped under the first-level child directory of its root that
//! holds it: `/r/a/b/c.txt` under root `/r` goes to `/r/a`, and a file that
//! sits directly in the root goes to the root itself.
use vstd::prelude::*;
use vstd::string::StrSliceExecFns;
use vstd::string::StringExecFns;

verus! {

/// The piece list of one segment: nothing for an empty or `.` segment, else the segment.
pub open spec fn piece(seg: Seq<char>) -> Seq<Seq<char>> {
    if seg.len() == 0 || seg == seq!['.'] {
        seq![]
    } else {
        seq![seg]
    }
}

/// Components of `t` from position `i` on, where the current segment began at `start`.
pub open spec fn split_from(t: Seq<char>, i: int, start: int) -> Seq<Seq<char>>
    decreases t.len() - i,
{
    if i >= t.len() {
        piece(t.subrange(start, t.len() as int))
    } else if t[i] == '/' {
        piece(t.subrange(start, i)) + split_from(t, i + 1, i + 1)
    } else {
        split_from(t, i + 1, start)
    }
}

/// The normal components of a path.
pub open spec fn components(t: Seq<char>) -> Seq<Seq<char>> {
    split_from(t, 0, 0)
}

/// The path starts at the root directory.
pub open spec fn is_absolute(t: Seq<char>) -> bool {
    t.len() > 0 && t[0] == '/'
}

/// The path is relative and starts with a `.` component.
pub open spec fn leads_with_dot(t: Seq<char>) -> bool {
    t.len() > 0 && t[0] == '.' && (t.len() == 1 || t[1] == '/')
}

/// `base`'s components are a prefix of `path`'s, read component by component.
pub open spec fn is_rooted(path: Seq<char>, base: Seq<char>) -> bool {
    &&& is_absolute(path) == is_absolute(base)
    &&& leads_with_dot(path) == leads_with_dot(base)
    &&& components(base).len() <= components(path).len()
    &&& components(path).subrange(0, components(base).len() as int) == components(base)
}

/// `base` with `name` joined on, a separator between them unless `base` is empty
/// or already ends in one.
pub open spec fn join(base: Seq<char>, name: Seq<char>) -> Seq<char> {
    if base.len() == 0 || base.last() == '/' {
        base + name
    } else {
        base + seq!['/'] + name
    }
}

/// The grouping key of a file at `path` found under root `base`: `None` when the
/// path is not under the root; the root itself for a file directly in it; else
/// the root joined with the first component below it.
pub open spec fn key_of(path: Seq<char>, base: Seq<char>) -> Option<Seq<char>> {
    if !is_rooted(path, base) {
        None
    } else {
        let rest = components(path).subrange(
            components(base).len() as int,
            components(path).len() as int,
        );
        if rest.len() <= 1 {
            Some(base)
        } else {
            Some(join(base, rest[0]))
        }
    }
}

/// The view of an optional string.
pub open spec fn opt_view(r: Option<String>) -> Option<Seq<char>> {
    match r {
        Some(s) => Some(s@),
        None => None,
    }
}

/// The characters of a string slice.
pub fn chars_of(s: &str) -> (r: Vec<char>)
    ensures
        r@ == s@,
{
    let n = s.unicode_len();
    let mut out: Vec<char> = Vec::new();
    let mut i: usize = 0;
    while i < n
        invariant
            n == s@.len(),
            i <= n,
            out@ == s@.subrange(0, i as int),
        decreases n - i,
    {
        out.push(s.get_char(i));
        i = i + 1;
    }
    out
}

/// The texts of `t` that a list of spans marks out.
pub open spec fn span_texts(t: Seq<char>, spans: Seq<(usize, usize)>) -> Seq<Seq<char>> {
    spans.map_values(|p: (usize, usize)| t.subrange(p.0 as int, p.1 as int))
}

/// Every span lies within `t`.
pub open spec fn spans_within(t: Seq<char>, spans: Seq<(usize, usize)>) -> bool {
    forall|k: int| 0 <= k < spans.len() ==> #[trigger] spans[k].0 <= spans[k].1 <= t.len()
}

/// Appends the span `[start, end)` of `t` when it is a component.
fn push_piece(t: &Vec<char>, start: usize, end: usize, out: &mut Vec<(usize, usize)>)
    requires
        start <= end <= t@.len(),
        spans_within(t@, old(out)@),
    ensures
        span_texts(t@, final(out)@) == span_texts(t@, old(out)@) + piece(
            t@.subrange(start as int, end as int),
        ),
        spans_within(t@, final(out)@),
{
    let ghost seg = t@.subrange(start as int, end as int);
    if end == start || (end - start == 1 && t[start] == '.') {
        assert(seg.len() == 0 || seg =~= seq!['.']);
        assert(span_texts(t@, out@) + piece(seg) =~= span_texts(t@, out@));
    } else {
        assert(seg != seq!['.']) by {
            assert(seq!['.'].len() == 1 && seq!['.'][0] == '.');
            if seg == seq!['.'] {
                assert(seg[0] == t@[start as int]);
            }
        }
        out.push((start, end));
        assert(span_texts(t@, out@) =~= span_texts(t@, old(out)@) + piece(seg));
    }
}

/// The spans of the components of `t`, in order.
fn component_spans(t: &Vec<char>) -> (r: Vec<(usize, usize)>)
    ensures
        span_texts(t@, r@) == components(t@),
        spans_within(t@, r@),
{
    let n = t.len();
    let mut out: Vec<(usize, usize)> = Vec::new();
    let mut start: usize = 0;
    let mut i: usize = 0;
    assert(span_texts(t@, out@) =~= seq![]);
    while i < n
        invariant
            n == t@.len(),
            start <= i <= n,
            spans_within(t@, out@),
            span_texts(t@, out@) + split_from(t@, i as int, start as int) == components(t@),
        decreases n - i,
    {
        if t[i] == '/' {
            let ghost before = span_texts(t@, out@);
            push_piece(t, start, i, &mut out);
            assert(split_from(t@, i as int, start as int) == piece(
                t@.subrange(start as int, i as int),
            ) + split_from(t@, i + 1, i + 1));
            assert(span_texts(t@, out@) + split_from(t@, i + 1, i + 1) =~= before + split_from(
                t@,
                i as int,
                start as int,
            ));
            start = i + 1;
        }
        i = i + 1;
    }
    let ghost before = span_texts(t@, out@);
    push_piece(t, start, n, &mut out);
    assert(span_texts(t@, out@) =~= before + split_from(t@, n as int, start as int));
    out
}

/// Whether span `a` of `s` holds the same text as span `b` of `t`.
fn same_text(s: &Vec<char>, a: (usize, usize), t: &Vec<char>, b: (usize, usize)) -> (r: bool)
    requires
        a.0 <= a.1 <= s@.len(),
        b.0 <= b.1 <= t@.len(),
    ensures
        r == (s@.subrange(a.0 as int, a.1 as int) == t@.subrange(b.0 as int, b.1 as int)),
{
    let ghost x = s@.subrange(a.0 as int, a.1 as int);
    let ghost y = t@.subrange(b.0 as int, b.1 as int);
    if a.1 - a.0 != b.1 - b.0 {
        assert(x.len() != y.len());
        return false;
    }
    let len = a.1 - a.0;
    let mut j: usize = 0;
    while j < len
        invariant
            len == a.1 - a.0 == b.1 - b.0,
            a.0 <= a.1 <= s@.len(),
            b.0 <= b.1 <= t@.len(),
            j <= len,
            x == s@.subrange(a.0 as int, a.1 as int),
            y == t@.subrange(b.0 as int, b.1 as int),
            forall|k: int| 0 <= k < j ==> x[k] == y[k],
        decreases len - j,
    {
        if s[a.0 + j] != t[b.0 + j] {
            assert(x[j as int] != y[j as int]);
            return false;
        }
        j = j + 1;
    }
    assert(x =~= y);
    true
}

/// Whether the characters start with a root separator.
fn absolute(t: &Vec<char>) -> (r: bool)
    ensures
        r == is_absolute(t@),
{
    t.len() > 0 && t[0] == '/'
}

/// Whether the characters start with a `.` component.
fn dot_led(t: &Vec<char>) -> (r: bool)
    ensures
        r == leads_with_dot(t@),
{
    t.len() > 0 && t[0] == '.' && (t.len() == 1 || t[1] == '/')
}

/// The grouping key of a file at `path` found under the root `base`, or `None`
/// when `path` does not lie under `base`.
pub fn key(path: &str, base: &str) -> (r: Option<String>)
    ensures
        opt_view(r) == key_of(path@, base@),
{
    let p = chars_of(path);
    let b = chars_of(base);
    let ps = component_spans(&p);
    let bs = component_spans(&b);
    let ghost pc = components(path@);
    let ghost bc = components(base@);
    if absolute(&p) != absolute(&b) || dot_led(&p) != dot_led(&b) || bs.len() > ps.len() {
        return None;
    }
    let mut k: usize = 0;
    while k < bs.len()
        invariant
            p@ == path@,
            b@ == base@,
            pc == components(path@),
            bc == components(base@),
            bs.len() <= ps.len(),
            k <= bs.len(),
            span_texts(p@, ps@) == pc,
            span_texts(b@, bs@) == bc,
            spans_within(p@, ps@),
            spans_within(b@, bs@),
            forall|j: int| 0 <= j < k ==> pc[j] == bc[j],
        decreases bs.len() - k,
    {
        assert(pc[k as int] == p@.subrange(ps[k as int].0 as int, ps[k as int].1 as int));
        assert(bc[k as int] == b@.subrange(bs[k as int].0 as int, bs[k as int].1 as int));
        if !same_text(&p, ps[k], &b, bs[k]) {
            assert(pc.subrange(0, bc.len() as int)[k as int] != bc[k as int]);
            return None;
        }
        k = k + 1;
    }
    assert(pc.subrange(0, bc.len() as int) =~= bc);
    if ps.len() - bs.len() <= 1 {
        return Some(String::from_str(base));
    }
    let span = ps[bs.len()];
    assert(pc[bc.len() as int] == p@.subrange(span.0 as int, span.1 as int));
    let name = path.substring_char(span.0, span.1);
    let mut out = String::from_str(base);
    if b.len() > 0 && b[b.len() - 1] != '/' {
        let sep = "/";
        proof {
            reveal_strlit("/");
        }
        out.append(sep);
        assert(sep@ =~= seq!['/']);
    }
    out.append(name);
    Some(out)
}

/// Resolving the same path under the same root twice gives the same key: any
/// two results that `key` may return for one pair are equal.
pub proof fn lemma_key_repeatable(path: Seq<char>, base: Seq<char>, r1: Option<String>, r2: Option<String>)
    requires
        opt_view(r1) == key_of(path, base),
        opt_view(r2) == key_of(path, base),
    ensures
        opt_view(r1) == opt_view(r2),
        r1 is Some == r2 is Some,
{
}

} // verus!
