//! Document synchronization: live UTF-8 text buffers and ordered edits.
//!
//! An edit replaces either the whole buffer or a half-open range given by
//! (line, UTF-16 column) positions, as an editor protocol delivers them.
//! Offsets are computed against the buffer as mutated by the edits earlier
//! in the same batch.

use vstd::prelude::*;
use vstd::slice::{slice_index_get, slice_subrange};

verus! {

/// A position in a buffer: zero-based line, and zero-based column counted
/// in UTF-16 code units within the line.
pub struct Position {
    pub line: u32,
    pub character: u32,
}

/// A half-open position range `[start, end)`.
pub struct EditRange {
    pub start: Position,
    pub end: Position,
}

/// One edit: replace the text in `range` with `text`, or the whole buffer
/// when no range is given.
pub struct Edit {
    pub range: Option<EditRange>,
    pub text: Vec<u8>,
}

/// A UTF-8 continuation byte; it contributes no UTF-16 units.
pub open spec fn is_cont_byte(b: u8) -> bool {
    0x80 <= b && b < 0xC0
}

/// The UTF-16 units of the codepoint whose leading byte is `b`: two for a
/// four-byte sequence (a surrogate pair), one otherwise.
pub open spec fn unit_width(b: u8) -> nat {
    if b >= 0xF0 {
        2
    } else {
        1
    }
}

/// The byte offset reached from byte `i` with `line` lines and `chr` UTF-16
/// units still to skip. A column past the end of its line clamps to the end
/// of the line; a position past the end of the buffer clamps to its length.
/// A column inside a surrogate pair rounds down to the start of its
/// codepoint.
pub open spec fn offset_at_from(t: Seq<u8>, i: int, line: nat, chr: nat) -> int
    decreases t.len() - i,
{
    if i < 0 || i >= t.len() {
        t.len() as int
    } else if line > 0 {
        if t[i] == 10 {
            offset_at_from(t, i + 1, (line - 1) as nat, chr)
        } else {
            offset_at_from(t, i + 1, line, chr)
        }
    } else if is_cont_byte(t[i]) {
        offset_at_from(t, i + 1, 0, chr)
    } else if t[i] == 10 || chr < unit_width(t[i]) {
        i
    } else {
        offset_at_from(t, i + 1, 0, (chr - unit_width(t[i])) as nat)
    }
}

/// The byte offset of a (line, character) position in `t`.
pub open spec fn spec_offset_at(t: Seq<u8>, line: nat, chr: nat) -> int {
    offset_at_from(t, 0, line, chr)
}

pub proof fn lemma_offset_at_bounds(t: Seq<u8>, i: int, line: nat, chr: nat)
    requires
        0 <= i <= t.len(),
    ensures
        i <= offset_at_from(t, i, line, chr) <= t.len(),
    decreases t.len() - i,
{
    if i < t.len() {
        if line > 0 {
            if t[i] == 10 {
                lemma_offset_at_bounds(t, i + 1, (line - 1) as nat, chr);
            } else {
                lemma_offset_at_bounds(t, i + 1, line, chr);
            }
        } else if is_cont_byte(t[i]) {
            lemma_offset_at_bounds(t, i + 1, 0, chr);
        } else if t[i] == 10 || chr < unit_width(t[i]) {
        } else {
            lemma_offset_at_bounds(t, i + 1, 0, (chr - unit_width(t[i])) as nat);
        }
    }
}

/// The buffer after one edit.
pub open spec fn spec_apply_edit(buf: Seq<u8>, e: Edit) -> Seq<u8> {
    match e.range {
        None => e.text@,
        Some(r) => {
            let s = spec_offset_at(buf, r.start.line as nat, r.start.character as nat);
            let t = spec_offset_at(buf, r.end.line as nat, r.end.character as nat);
            let t2 = if t < s {
                s
            } else {
                t
            };
            buf.subrange(0, s) + e.text@ + buf.subrange(t2, buf.len() as int)
        },
    }
}

/// The buffer after a batch of edits, applied in order.
pub open spec fn spec_apply_edits(buf: Seq<u8>, es: Seq<Edit>) -> Seq<u8>
    decreases es.len(),
{
    if es.len() == 0 {
        buf
    } else {
        spec_apply_edits(spec_apply_edit(buf, es[0]), es.drop_first())
    }
}

/// The byte offset of the position (`line`, `character`) in `text`.
pub fn offset_at(text: &Vec<u8>, line: u32, character: u32) -> (r: usize)
    ensures
        r == spec_offset_at(text@, line as nat, character as nat),
        r <= text@.len(),
{
    proof {
        lemma_offset_at_bounds(text@, 0, line as nat, character as nat);
    }
    let n = text.len();
    let mut i: usize = 0;
    let mut ln: u32 = line;
    let mut chr: u32 = character;
    while i < n
        invariant
            i <= n,
            n == text@.len(),
            offset_at_from(text@, 0, line as nat, character as nat) == offset_at_from(
                text@,
                i as int,
                ln as nat,
                chr as nat,
            ),
        decreases n - i,
    {
        let b = text[i];
        if ln > 0 {
            if b == 10 {
                ln = ln - 1;
            }
            i += 1;
        } else if 0x80 <= b && b < 0xC0 {
            i += 1;
        } else if b == 10 {
            proof {
                lemma_offset_at_bounds(text@, 0, line as nat, character as nat);
            }
            return i;
        } else {
            let w: u32 = if b >= 0xF0 {
                2
            } else {
                1
            };
            if chr < w {
                proof {
                    lemma_offset_at_bounds(text@, 0, line as nat, character as nat);
                }
                return i;
            }
            chr = chr - w;
            i += 1;
        }
    }
    n
}

/// The buffer after one edit.
pub fn apply_edit(buf: &Vec<u8>, e: &Edit) -> (r: Vec<u8>)
    ensures
        r@ == spec_apply_edit(buf@, *e),
{
    match &e.range {
        None => {
            let mut out: Vec<u8> = Vec::new();
            out.extend_from_slice(e.text.as_slice());
            proof {
                assert(out@ =~= e.text@);
            }
            out
        },
        Some(rg) => {
            let s = offset_at(buf, rg.start.line, rg.start.character);
            let t = offset_at(buf, rg.end.line, rg.end.character);
            let t2 = if t < s {
                s
            } else {
                t
            };
            let mut out: Vec<u8> = Vec::new();
            out.extend_from_slice(slice_subrange(buf.as_slice(), 0, s));
            out.extend_from_slice(e.text.as_slice());
            out.extend_from_slice(slice_subrange(buf.as_slice(), t2, buf.len()));
            proof {
                assert(out@ =~= spec_apply_edit(buf@, *e));
            }
            out
        },
    }
}

/// The buffer after a batch of edits, applied in order; each edit's
/// positions are read against the buffer as mutated by the edits before it.
pub fn apply_edits(buf: &Vec<u8>, edits: &Vec<Edit>) -> (r: Vec<u8>)
    ensures
        r@ == spec_apply_edits(buf@, edits@),
{
    let mut cur: Vec<u8> = Vec::new();
    cur.extend_from_slice(buf.as_slice());
    proof {
        assert(cur@ =~= buf@);
        assert(edits@.skip(0) =~= edits@);
    }
    let mut k: usize = 0;
    while k < edits.len()
        invariant
            k <= edits.len(),
            spec_apply_edits(buf@, edits@) == spec_apply_edits(cur@, edits@.skip(k as int)),
        decreases edits.len() - k,
    {
        let e = slice_index_get(edits.as_slice(), k);
        let next = apply_edit(&cur, e);
        proof {
            assert(edits@.skip(k as int)[0] == edits@[k as int]);
            assert(edits@.skip(k as int).drop_first() =~= edits@.skip(k as int + 1));
        }
        cur = next;
        k += 1;
    }
    proof {
        assert(edits@.skip(edits@.len() as int) =~= Seq::<Edit>::empty());
    }
    cur
}

/// Batching law: edits applied in two ordered batches leave the same buffer
/// as the concatenated batch applied in one call.
pub proof fn lemma_apply_edits_concat(buf: Seq<u8>, a: Seq<Edit>, b: Seq<Edit>)
    ensures
        spec_apply_edits(buf, a + b) == spec_apply_edits(spec_apply_edits(buf, a), b),
    decreases a.len(),
{
    if a.len() == 0 {
        assert(a + b =~= b);
    } else {
        assert((a + b)[0] == a[0]);
        assert((a + b).drop_first() =~= a.drop_first() + b);
        lemma_apply_edits_concat(spec_apply_edit(buf, a[0]), a.drop_first(), b);
    }
}

} // verus!
