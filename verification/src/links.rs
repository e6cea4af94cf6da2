//! Link extraction: locate the URI spans of bracket link constructs in a
//! buffer and resolve each to a note identity.
//!
//! A link construct opens with `[[` and its URI runs up to the next `]`.
//! The grammar crate in use exposes no structural link node, so the spans
//! are recognized in the buffer directly; unresolvable link text is dropped
//! silently.

use crate::identity::{first_index_of_byte, spec_from_link, NoteID, NoteKind};
use vstd::prelude::*;
use vstd::slice::{slice_index_get, slice_subrange, slice_to_vec};

verus! {

/// The URI spans of the link constructs of `t` from index `i` on: for each
/// `[[` the half-open byte range up to the next `]`. Scanning resumes after
/// that `]`; an unclosed construct yields nothing.
pub open spec fn link_spans_from(t: Seq<u8>, i: int) -> Seq<(int, int)>
    decreases t.len() + 1 - i,
{
    if i < 0 || i + 2 > t.len() {
        seq![]
    } else if t[i] == '[' as u8 && t[i + 1] == '[' as u8 {
        let j = first_index_of_byte(t, i + 2, ']' as u8);
        if j < 0 {
            seq![]
        } else {
            // a found index always lies in [i + 2, t.len()); the clamps
            // only keep the recursion structurally decreasing
            let j2 = if j < i + 2 {
                i + 2
            } else if j > t.len() - 1 {
                t.len() - 1
            } else {
                j
            };
            seq![(i + 2, j2)] + link_spans_from(t, j2 + 1)
        }
    } else {
        link_spans_from(t, i + 1)
    }
}

/// The URI spans of all link constructs of `t`.
pub open spec fn link_spans(t: Seq<u8>) -> Seq<(int, int)> {
    link_spans_from(t, 0)
}

/// The identity the `k`-th link construct of `t` resolves to, if any.
pub open spec fn span_link(t: Seq<u8>, k: int) -> Option<(Seq<u8>, NoteKind)> {
    spec_from_link(t.subrange(link_spans(t)[k].0, link_spans(t)[k].1))
}

/// The set of identities the link constructs of `t` resolve to.
pub open spec fn links_of(t: Seq<u8>) -> Set<(Seq<u8>, NoteKind)> {
    Set::new(
        |v: (Seq<u8>, NoteKind)|
            exists|k: int| 0 <= k < link_spans(t).len() && span_link(t, k) == Some(v),
    )
}

proof fn lemma_first_index_found(t: Seq<u8>, from: int, b: u8)
    requires
        first_index_of_byte(t, from, b) >= 0,
    ensures
        from <= first_index_of_byte(t, from, b) < t.len(),
    decreases t.len() - from,
{
    if !(from < 0 || from >= t.len()) && t[from] != b {
        lemma_first_index_found(t, from + 1, b);
    }
}

/// Every link span lies within the buffer, start before end.
pub proof fn lemma_link_spans_bounds(t: Seq<u8>, i: int)
    ensures
        forall|k: int|
            0 <= k < link_spans_from(t, i).len() ==> 0 <= (
            #[trigger] link_spans_from(t, i)[k]).0 && link_spans_from(t, i)[k].0
                <= link_spans_from(t, i)[k].1 && link_spans_from(t, i)[k].1 <= t.len(),
    decreases t.len() - i,
{
    if i < 0 || i + 2 > t.len() {
    } else if t[i] == '[' as u8 && t[i + 1] == '[' as u8 {
        let j = first_index_of_byte(t, i + 2, ']' as u8);
        if j >= 0 {
            lemma_first_index_found(t, i + 2, ']' as u8);
            let j2 = if j < i + 2 {
                i + 2
            } else if j > t.len() - 1 {
                t.len() - 1
            } else {
                j
            };
            assert(j2 == j);
            lemma_link_spans_bounds(t, j2 + 1);
            let rest = link_spans_from(t, j2 + 1);
            assert forall|k: int|
                0 <= k < link_spans_from(t, i).len() implies 0 <= (#[trigger] link_spans_from(
                t,
                i,
            )[k]).0 && link_spans_from(t, i)[k].0 <= link_spans_from(t, i)[k].1
                && link_spans_from(t, i)[k].1 <= t.len() by {
                if k == 0 {
                    assert(link_spans_from(t, i)[k] == (i + 2, j2));
                } else {
                    assert(link_spans_from(t, i)[k] == rest[k - 1]);
                }
            }
        }
    } else {
        lemma_link_spans_bounds(t, i + 1);
        assert(forall|k: int|
            0 <= k < link_spans_from(t, i).len() ==> #[trigger] link_spans_from(t, i)[k]
                == link_spans_from(t, i + 1)[k]);
    }
}

/// The index of the first occurrence of `b` in `t` at or after `from`.
fn find_byte_from(t: &Vec<u8>, from: usize, b: u8) -> (r: Option<usize>)
    ensures
        match r {
            Some(v) => from <= v && v < t@.len() && t@[v as int] == b && first_index_of_byte(
                t@,
                from as int,
                b,
            ) == v,
            None => first_index_of_byte(t@, from as int, b) == -1,
        },
{
    let mut i: usize = from;
    while i < t.len()
        invariant
            from <= i,
            first_index_of_byte(t@, from as int, b) == first_index_of_byte(t@, i as int, b),
        decreases t@.len() - i,
    {
        if t[i] == b {
            return Some(i);
        }
        i += 1;
    }
    None
}

/// The URI spans of all link constructs of `t`, in order.
pub fn find_link_spans(t: &Vec<u8>) -> (r: Vec<(usize, usize)>)
    ensures
        r@.len() == link_spans(t@).len(),
        forall|k: int|
            0 <= k < r@.len() ==> (#[trigger] r@[k]).0 as int == link_spans(t@)[k].0
                && r@[k].1 as int == link_spans(t@)[k].1,
{
    let n = t.len();
    let mut out: Vec<(usize, usize)> = Vec::new();
    let mut i: usize = 0;
    while n - i >= 2
        invariant
            i <= n,
            n == t@.len(),
            out@.len() + link_spans_from(t@, i as int).len() == link_spans(t@).len(),
            forall|k: int|
                0 <= k < out@.len() ==> (#[trigger] out@[k]).0 as int == link_spans(t@)[k].0
                    && out@[k].1 as int == link_spans(t@)[k].1,
            forall|k: int|
                0 <= k < link_spans_from(t@, i as int).len() ==> #[trigger] link_spans_from(
                    t@,
                    i as int,
                )[k] == link_spans(t@)[out@.len() + k],
        decreases n - i,
    {
        if t[i] == '[' as u8 && t[i + 1] == '[' as u8 {
            match find_byte_from(t, i + 2, ']' as u8) {
                Some(j) => {
                    let ghost i0 = i as int;
                    let ghost rest = link_spans_from(t@, j + 1);
                    proof {
                        assert(link_spans_from(t@, i0) == seq![(i0 + 2, j as int)] + rest);
                        assert(link_spans_from(t@, i0)[0] == (i0 + 2, j as int));
                        assert(forall|k: int|
                            0 <= k < rest.len() ==> #[trigger] rest[k] == link_spans_from(
                                t@,
                                i0,
                            )[k + 1]);
                    }
                    out.push((i + 2, j));
                    i = j + 1;
                },
                None => {
                    return out;
                },
            }
        } else {
            i += 1;
        }
    }
    out
}

/// Whether `v` already holds an identity equal to `id`.
fn contains_id(v: &Vec<NoteID>, id: &NoteID) -> (r: bool)
    ensures
        r == exists|m: int| 0 <= m < v@.len() && (#[trigger] v@[m])@ == id@,
{
    let mut m: usize = 0;
    while m < v.len()
        invariant
            m <= v.len(),
            forall|q: int| 0 <= q < m ==> (#[trigger] v@[q])@ != id@,
        decreases v.len() - m,
    {
        let e = slice_index_get(v.as_slice(), m);
        if crate::identity::bytes_eq(e.name.as_slice(), id.name.as_slice()) && e.kind == id.kind {
            return true;
        }
        m += 1;
    }
    false
}

/// Resolve every link construct of `t`, dropping unresolvable link text,
/// and collect the identities, each one once. The result holds exactly the
/// identities of `links_of`.
pub fn extract_links(t: &Vec<u8>) -> (r: Vec<NoteID>)
    ensures
        forall|m: int| 0 <= m < r@.len() ==> links_of(t@).contains((#[trigger] r@[m])@),
        forall|v: (Seq<u8>, NoteKind)|
            #[trigger] links_of(t@).contains(v) ==> exists|m: int|
                0 <= m < r@.len() && (#[trigger] r@[m])@ == v,
        forall|m1: int, m2: int|
            0 <= m1 < m2 < r@.len() ==> (#[trigger] r@[m1])@ != (#[trigger] r@[m2])@,
{
    let spans = find_link_spans(t);
    proof {
        lemma_link_spans_bounds(t@, 0);
    }
    let mut out: Vec<NoteID> = Vec::new();
    let mut k: usize = 0;
    while k < spans.len()
        invariant
            k <= spans.len(),
            spans@.len() == link_spans(t@).len(),
            forall|q: int|
                0 <= q < spans@.len() ==> (#[trigger] spans@[q]).0 as int == link_spans(t@)[q].0
                    && spans@[q].1 as int == link_spans(t@)[q].1,
            forall|q: int|
                0 <= q < link_spans(t@).len() ==> 0 <= (#[trigger] link_spans(t@)[q]).0
                    && link_spans(t@)[q].0 <= link_spans(t@)[q].1 && link_spans(t@)[q].1
                    <= t@.len(),
            forall|m: int|
                0 <= m < out@.len() ==> exists|j: int|
                    0 <= j < k && span_link(t@, j) == Some((#[trigger] out@[m])@),
            forall|j: int|
                0 <= j < k && (#[trigger] span_link(t@, j)) is Some ==> exists|m: int|
                    0 <= m < out@.len() && (#[trigger] out@[m])@ == span_link(t@, j)->0,
            forall|m1: int, m2: int|
                0 <= m1 < m2 < out@.len() ==> (#[trigger] out@[m1])@ != (#[trigger] out@[m2])@,
        decreases spans.len() - k,
    {
        let p = *slice_index_get(spans.as_slice(), k);
        let sl = slice_subrange(t.as_slice(), p.0, p.1);
        proof {
            assert(sl@ == t@.subrange(link_spans(t@)[k as int].0, link_spans(t@)[k as int].1));
        }
        match NoteID::from_link(sl) {
            Some(id) => {
                proof {
                    assert(span_link(t@, k as int) == Some(id@));
                }
                if !contains_id(&out, &id) {
                    let ghost before = out@;
                    out.push(id);
                    proof {
                        assert(out@[before.len() as int]@ == span_link(t@, k as int)->0);
                        assert(forall|m: int| 0 <= m < before.len() ==> out@[m] == before[m]);
                    }
                }
            },
            None => {
                proof {
                    assert(span_link(t@, k as int) is None);
                }
            },
        }
        k += 1;
    }
    out
}

/// The first span of `spans` containing offset `off`, if any.
pub open spec fn span_at(spans: Seq<(int, int)>, off: int) -> Option<(int, int)>
    decreases spans.len(),
{
    if spans.len() == 0 {
        None
    } else if spans[0].0 <= off && off < spans[0].1 {
        Some(spans[0])
    } else {
        span_at(spans.drop_first(), off)
    }
}

/// The URI text under byte offset `off` of `t`: the slice of the first
/// link URI span containing the offset, or none when the offset lies in no
/// link construct.
pub open spec fn spec_hover_at(t: Seq<u8>, off: int) -> Option<Seq<u8>> {
    match span_at(link_spans(t), off) {
        Some(sp) => Some(t.subrange(sp.0, sp.1)),
        None => None,
    }
}

/// The identity of the link under byte offset `off`, when the URI text
/// under it resolves.
pub open spec fn spec_target_at(t: Seq<u8>, off: int) -> Option<(Seq<u8>, NoteKind)> {
    match spec_hover_at(t, off) {
        Some(u) => spec_from_link(u),
        None => None,
    }
}

/// The URI text of the link under byte offset `off` in `t`, if any.
pub fn hover_at(t: &Vec<u8>, off: usize) -> (r: Option<Vec<u8>>)
    ensures
        match r {
            Some(u) => spec_hover_at(t@, off as int) == Some(u@),
            None => spec_hover_at(t@, off as int) is None,
        },
{
    let spans = find_link_spans(t);
    proof {
        lemma_link_spans_bounds(t@, 0);
        assert(link_spans(t@).skip(0) =~= link_spans(t@));
    }
    let mut k: usize = 0;
    while k < spans.len()
        invariant
            k <= spans.len(),
            spans@.len() == link_spans(t@).len(),
            forall|q: int|
                0 <= q < spans@.len() ==> (#[trigger] spans@[q]).0 as int == link_spans(t@)[q].0
                    && spans@[q].1 as int == link_spans(t@)[q].1,
            forall|q: int|
                0 <= q < link_spans(t@).len() ==> 0 <= (#[trigger] link_spans(t@)[q]).0
                    && link_spans(t@)[q].0 <= link_spans(t@)[q].1 && link_spans(t@)[q].1
                    <= t@.len(),
            span_at(link_spans(t@), off as int) == span_at(
                link_spans(t@).skip(k as int),
                off as int,
            ),
        decreases spans.len() - k,
    {
        let p = *slice_index_get(spans.as_slice(), k);
        proof {
            assert(link_spans(t@).skip(k as int)[0] == link_spans(t@)[k as int]);
            assert(link_spans(t@).skip(k as int).drop_first() =~= link_spans(t@).skip(
                k as int + 1,
            ));
        }
        if p.0 <= off && off < p.1 {
            return Some(slice_to_vec(slice_subrange(t.as_slice(), p.0, p.1)));
        }
        k += 1;
    }
    proof {
        assert(link_spans(t@).skip(k as int) =~= Seq::<(int, int)>::empty());
    }
    None
}

} // verus!
