//! Note identity resolution: the canonical (name, kind) key of a note,
//! derived from a file path, a file-scheme URI, or in-text link syntax.
//!
//! All text is handled as UTF-8 bytes, so the resolution grammar is stated
//! over `Seq<u8>`.

use vstd::prelude::*;
use vstd::slice::{slice_subrange, slice_to_vec};

verus! {

/// The closed set of note kinds, one per recognized file extension and
/// link-suffix keyword.
#[derive(Debug, Clone, Copy, PartialEq, Eq, Structural)]
pub enum NoteKind {
    Note,
    Article,
    List,
    Index,
    Dump,
}

/// The link-suffix keyword of a kind, as it appears inside parentheses in
/// link text: `note`, `article`, `list`, `index`, `dump`.
pub open spec fn keyword_bytes(k: NoteKind) -> Seq<u8> {
    match k {
        NoteKind::Note => seq!['n' as u8, 'o' as u8, 't' as u8, 'e' as u8],
        NoteKind::Article => seq![
            'a' as u8,
            'r' as u8,
            't' as u8,
            'i' as u8,
            'c' as u8,
            'l' as u8,
            'e' as u8,
        ],
        NoteKind::List => seq!['l' as u8, 'i' as u8, 's' as u8, 't' as u8],
        NoteKind::Index => seq!['i' as u8, 'n' as u8, 'd' as u8, 'e' as u8, 'x' as u8],
        NoteKind::Dump => seq!['d' as u8, 'u' as u8, 'm' as u8, 'p' as u8],
    }
}

/// The file extension of a kind: `note`, `art`, `list`, `index`, `dump`.
/// The article kind abbreviates its extension to `art`; every other kind
/// uses its keyword unchanged.
pub open spec fn ext_bytes(k: NoteKind) -> Seq<u8> {
    match k {
        NoteKind::Article => seq!['a' as u8, 'r' as u8, 't' as u8],
        _ => keyword_bytes(k),
    }
}

/// The kind whose link-suffix keyword is `s`, if any.
pub open spec fn kind_of_keyword(s: Seq<u8>) -> Option<NoteKind> {
    if s == keyword_bytes(NoteKind::Note) {
        Some(NoteKind::Note)
    } else if s == keyword_bytes(NoteKind::Article) {
        Some(NoteKind::Article)
    } else if s == keyword_bytes(NoteKind::List) {
        Some(NoteKind::List)
    } else if s == keyword_bytes(NoteKind::Index) {
        Some(NoteKind::Index)
    } else if s == keyword_bytes(NoteKind::Dump) {
        Some(NoteKind::Dump)
    } else {
        None
    }
}

/// The kind whose file extension is `s`, if any.
pub open spec fn kind_of_ext(s: Seq<u8>) -> Option<NoteKind> {
    if s == ext_bytes(NoteKind::Note) {
        Some(NoteKind::Note)
    } else if s == ext_bytes(NoteKind::Article) {
        Some(NoteKind::Article)
    } else if s == ext_bytes(NoteKind::List) {
        Some(NoteKind::List)
    } else if s == ext_bytes(NoteKind::Index) {
        Some(NoteKind::Index)
    } else if s == ext_bytes(NoteKind::Dump) {
        Some(NoteKind::Dump)
    } else {
        None
    }
}

/// Byte-wise equality of two slices.
pub fn bytes_eq(a: &[u8], b: &[u8]) -> (r: bool)
    ensures
        r == (a@ == b@),
{
    if a.len() != b.len() {
        assert(a@.len() != b@.len());
        return false;
    }
    let mut i: usize = 0;
    while i < a.len()
        invariant
            i <= a.len(),
            a.len() == b.len(),
            forall|j: int| 0 <= j < i ==> a@[j] == b@[j],
        decreases a.len() - i,
    {
        if a[i] != b[i] {
            return false;
        }
        i += 1;
    }
    proof {
        assert(a@ =~= b@);
    }
    true
}

impl NoteKind {
    /// Resolve a link-suffix keyword (`note`, `article`, `list`, `index`,
    /// `dump`) to its kind.
    pub fn from_str(s: &[u8]) -> (r: Option<NoteKind>)
        ensures
            r == kind_of_keyword(s@),
    {
        if bytes_eq(s, NoteKind::Note.to_str().as_slice()) {
            Some(NoteKind::Note)
        } else if bytes_eq(s, NoteKind::Article.to_str().as_slice()) {
            Some(NoteKind::Article)
        } else if bytes_eq(s, NoteKind::List.to_str().as_slice()) {
            Some(NoteKind::List)
        } else if bytes_eq(s, NoteKind::Index.to_str().as_slice()) {
            Some(NoteKind::Index)
        } else if bytes_eq(s, NoteKind::Dump.to_str().as_slice()) {
            Some(NoteKind::Dump)
        } else {
            None
        }
    }

    /// Resolve a file extension (`note`, `art`, `list`, `index`, `dump`) to
    /// its kind.
    pub fn from_ext(s: &[u8]) -> (r: Option<NoteKind>)
        ensures
            r == kind_of_ext(s@),
    {
        if bytes_eq(s, NoteKind::Note.ext().as_slice()) {
            Some(NoteKind::Note)
        } else if bytes_eq(s, NoteKind::Article.ext().as_slice()) {
            Some(NoteKind::Article)
        } else if bytes_eq(s, NoteKind::List.ext().as_slice()) {
            Some(NoteKind::List)
        } else if bytes_eq(s, NoteKind::Index.ext().as_slice()) {
            Some(NoteKind::Index)
        } else if bytes_eq(s, NoteKind::Dump.ext().as_slice()) {
            Some(NoteKind::Dump)
        } else {
            None
        }
    }

    /// The link-suffix keyword of this kind, as bytes.
    pub fn to_str(&self) -> (r: Vec<u8>)
        ensures
            r@ == keyword_bytes(*self),
    {
        match self {
            NoteKind::Note => vec!['n' as u8, 'o' as u8, 't' as u8, 'e' as u8],
            NoteKind::Article => vec![
                'a' as u8,
                'r' as u8,
                't' as u8,
                'i' as u8,
                'c' as u8,
                'l' as u8,
                'e' as u8,
            ],
            NoteKind::List => vec!['l' as u8, 'i' as u8, 's' as u8, 't' as u8],
            NoteKind::Index => vec!['i' as u8, 'n' as u8, 'd' as u8, 'e' as u8, 'x' as u8],
            NoteKind::Dump => vec!['d' as u8, 'u' as u8, 'm' as u8, 'p' as u8],
        }
    }

    /// The file extension of this kind, as bytes.
    pub fn ext(&self) -> (r: Vec<u8>)
        ensures
            r@ == ext_bytes(*self),
    {
        match self {
            NoteKind::Article => vec!['a' as u8, 'r' as u8, 't' as u8],
            _ => self.to_str(),
        }
    }
}

/// A path separator: `/` or `\`.
pub open spec fn is_sep(b: u8) -> bool {
    b == '/' as u8 || b == '\\' as u8
}

/// Horizontal whitespace around a link name: space or tab.
pub open spec fn is_blank(b: u8) -> bool {
    b == ' ' as u8 || b == '\t' as u8
}

/// A byte that may appear in a note name inside link text: ASCII letters
/// and digits, `_ - / \ ? :`, the space, and any non-ASCII byte. The last
/// is a deliberate widening: names are letters and digits, and letters
/// outside ASCII cannot be told from other non-ASCII codepoints without
/// Unicode tables, so every non-ASCII byte is admitted as name material.
/// This only admits extra names; no ASCII byte changes class.
pub open spec fn is_name_byte(b: u8) -> bool {
    ('a' as u8 <= b && b <= 'z' as u8) || ('A' as u8 <= b && b <= 'Z' as u8) || ('0' as u8 <= b
        && b <= '9' as u8) || b == '_' as u8 || b == '-' as u8 || b == '/' as u8 || b
        == '\\' as u8 || b == ' ' as u8 || b == '?' as u8 || b == ':' as u8 || b >= 0x80
}

pub open spec fn all_name_bytes(s: Seq<u8>) -> bool {
    forall|i: int| 0 <= i < s.len() ==> is_name_byte(s[i])
}

/// The index of the last occurrence of `b` in `s`, or -1 if none.
pub open spec fn last_index_of_byte(s: Seq<u8>, b: u8) -> int
    decreases s.len(),
{
    if s.len() == 0 {
        -1
    } else if s[s.len() - 1] == b {
        s.len() - 1
    } else {
        last_index_of_byte(s.drop_last(), b)
    }
}

/// The index of the last path separator in `s`, or -1 if none.
pub open spec fn last_sep_index(s: Seq<u8>) -> int
    decreases s.len(),
{
    if s.len() == 0 {
        -1
    } else if is_sep(s[s.len() - 1]) {
        s.len() - 1
    } else {
        last_sep_index(s.drop_last())
    }
}

/// The index of the first occurrence of `b` in `s` at or after `from`, or -1
/// if none.
pub open spec fn first_index_of_byte(s: Seq<u8>, from: int, b: u8) -> int
    decreases s.len() - from,
{
    if from < 0 || from >= s.len() {
        -1
    } else if s[from] == b {
        from
    } else {
        first_index_of_byte(s, from + 1, b)
    }
}

pub open spec fn trim_start(s: Seq<u8>) -> Seq<u8>
    decreases s.len(),
{
    if s.len() > 0 && is_blank(s[0]) {
        trim_start(s.drop_first())
    } else {
        s
    }
}

pub open spec fn trim_end(s: Seq<u8>) -> Seq<u8>
    decreases s.len(),
{
    if s.len() > 0 && is_blank(s[s.len() - 1]) {
        trim_end(s.drop_last())
    } else {
        s
    }
}

/// `s` without leading and trailing blanks.
pub open spec fn trim_blanks(s: Seq<u8>) -> Seq<u8> {
    trim_end(trim_start(s))
}

/// The canonical identity of a note: its name and kind.
#[derive(Debug)]
pub struct NoteID {
    pub name: Vec<u8>,
    pub kind: NoteKind,
}

impl View for NoteID {
    type V = (Seq<u8>, NoteKind);

    open spec fn view(&self) -> (Seq<u8>, NoteKind) {
        (self.name@, self.kind)
    }
}

/// The view of an optional identity, for relating executable results to the
/// resolution grammar.
pub open spec fn opt_id_view(r: Option<NoteID>) -> Option<(Seq<u8>, NoteKind)> {
    match r {
        Some(id) => Some(id@),
        None => None,
    }
}

/// The file name of an identity: `name.ext`.
pub open spec fn spec_filename(name: Seq<u8>, k: NoteKind) -> Seq<u8> {
    name + seq!['.' as u8] + ext_bytes(k)
}

/// The final path component of `p`.
pub open spec fn spec_basename(p: Seq<u8>) -> Seq<u8> {
    p.subrange(last_sep_index(p) + 1, p.len() as int)
}

/// The identity a path resolves to: the stem of its final component before
/// the last dot, and the kind of the extension after it. None when there is
/// no dot, the stem is empty, or the extension is unrecognized.
pub open spec fn spec_from_path(p: Seq<u8>) -> Option<(Seq<u8>, NoteKind)> {
    let f = spec_basename(p);
    let d = last_index_of_byte(f, '.' as u8);
    if d <= 0 {
        None
    } else {
        let stem = f.subrange(0, d);
        let ext = f.subrange(d + 1, f.len() as int);
        match kind_of_ext(ext) {
            Some(k) => Some((stem, k)),
            None => None,
        }
    }
}

/// A hexadecimal digit.
pub open spec fn is_hex_digit(b: u8) -> bool {
    ('0' as u8 <= b && b <= '9' as u8) || ('a' as u8 <= b && b <= 'f' as u8) || ('A' as u8 <= b
        && b <= 'F' as u8)
}

/// The value of a hexadecimal digit.
pub open spec fn hex_digit_val(b: u8) -> u8 {
    if '0' as u8 <= b && b <= '9' as u8 {
        (b - '0' as u8) as u8
    } else if 'a' as u8 <= b && b <= 'f' as u8 {
        (b - 'a' as u8 + 10) as u8
    } else if 'A' as u8 <= b && b <= 'F' as u8 {
        (b - 'A' as u8 + 10) as u8
    } else {
        0
    }
}

/// The percent-decoding of `s`: every `%` followed by two hexadecimal
/// digits becomes the byte they name; any other byte, a malformed escape
/// included, is kept as it stands.
pub open spec fn percent_decode(s: Seq<u8>) -> Seq<u8>
    decreases s.len(),
{
    if s.len() == 0 {
        seq![]
    } else if s[0] == '%' as u8 && s.len() >= 3 && is_hex_digit(s[1]) && is_hex_digit(s[2]) {
        seq![(hex_digit_val(s[1]) * 16 + hex_digit_val(s[2])) as u8] + percent_decode(s.skip(3))
    } else {
        seq![s[0]] + percent_decode(s.skip(1))
    }
}

/// The bytes of the `file://` scheme prefix.
pub open spec fn file_scheme() -> Seq<u8> {
    seq!['f' as u8, 'i' as u8, 'l' as u8, 'e' as u8, ':' as u8, '/' as u8, '/' as u8]
}

/// The identity a file-scheme URI resolves to: the local path after
/// `file://`, percent-decoded and resolved as a path. The authority must
/// be empty (the path begins directly with `/`); a URI naming a remote
/// host, or of any other scheme, yields none.
pub open spec fn spec_from_uri(uri: Seq<u8>) -> Option<(Seq<u8>, NoteKind)> {
    if uri.len() >= 8 && uri.subrange(0, 7) == file_scheme() && uri[7] == '/' as u8 {
        spec_from_path(percent_decode(uri.skip(7)))
    } else {
        None
    }
}

/// The identity link text resolves to. The grammar is `<name>` or
/// `<name> (<kind>)`: a name of one or more name bytes, then optionally a
/// parenthesized suffix. A recognized keyword in the suffix selects the
/// kind; any other suffix text falls back to `Note` (the permissive
/// default). The name is taken with surrounding blanks trimmed.
pub open spec fn spec_from_link(t: Seq<u8>) -> Option<(Seq<u8>, NoteKind)> {
    let p = first_index_of_byte(t, 0, '(' as u8);
    if p >= 0 {
        if t.len() > 0 && t[t.len() - 1] == ')' as u8 && p + 2 <= t.len() {
            let inner = t.subrange(p + 1, t.len() - 1);
            let nm = trim_blanks(t.subrange(0, p));
            if all_name_bytes(nm) && nm.len() > 0 && (forall|i: int|
                0 <= i < inner.len() ==> inner[i] != '(' as u8 && inner[i] != ')' as u8) {
                match kind_of_keyword(inner) {
                    Some(k) => Some((nm, k)),
                    None => Some((nm, NoteKind::Note)),
                }
            } else {
                None
            }
        } else {
            None
        }
    } else {
        let nm = trim_blanks(t);
        if all_name_bytes(nm) && nm.len() > 0 {
            Some((nm, NoteKind::Note))
        } else {
            None
        }
    }
}

/// The index of the last occurrence of `b` in `s`, if any.
fn find_last_byte(s: &[u8], b: u8) -> (r: Option<usize>)
    ensures
        match r {
            Some(v) => v < s@.len() && last_index_of_byte(s@, b) == v,
            None => last_index_of_byte(s@, b) == -1,
        },
{
    let mut cur: Option<usize> = None;
    let mut i: usize = 0;
    while i < s.len()
        invariant
            i <= s.len(),
            match cur {
                Some(v) => v < i && last_index_of_byte(s@.take(i as int), b) == v,
                None => last_index_of_byte(s@.take(i as int), b) == -1,
            },
        decreases s.len() - i,
    {
        proof {
            assert(s@.take(i + 1).drop_last() =~= s@.take(i as int));
        }
        if s[i] == b {
            cur = Some(i);
        }
        i += 1;
    }
    proof {
        assert(s@.take(s@.len() as int) =~= s@);
    }
    cur
}

/// The index of the last path separator in `s`, if any.
fn find_last_sep(s: &[u8]) -> (r: Option<usize>)
    ensures
        match r {
            Some(v) => v < s@.len() && last_sep_index(s@) == v,
            None => last_sep_index(s@) == -1,
        },
{
    let mut cur: Option<usize> = None;
    let mut i: usize = 0;
    while i < s.len()
        invariant
            i <= s.len(),
            match cur {
                Some(v) => v < i && last_sep_index(s@.take(i as int)) == v,
                None => last_sep_index(s@.take(i as int)) == -1,
            },
        decreases s.len() - i,
    {
        proof {
            assert(s@.take(i + 1).drop_last() =~= s@.take(i as int));
        }
        if s[i] == '/' as u8 || s[i] == '\\' as u8 {
            cur = Some(i);
        }
        i += 1;
    }
    proof {
        assert(s@.take(s@.len() as int) =~= s@);
    }
    cur
}

/// The index of the first occurrence of `b` in `s`, if any.
fn find_first_byte(s: &[u8], b: u8) -> (r: Option<usize>)
    ensures
        match r {
            Some(v) => v < s@.len() && s@[v as int] == b && first_index_of_byte(s@, 0, b) == v,
            None => first_index_of_byte(s@, 0, b) == -1,
        },
{
    let mut i: usize = 0;
    while i < s.len()
        invariant
            i <= s.len(),
            first_index_of_byte(s@, 0, b) == first_index_of_byte(s@, i as int, b),
        decreases s.len() - i,
    {
        if s[i] == b {
            return Some(i);
        }
        i += 1;
    }
    None
}

/// The value of a hexadecimal digit, if `b` is one.
fn hex_val(b: u8) -> (r: Option<u8>)
    ensures
        match r {
            Some(v) => is_hex_digit(b) && v == hex_digit_val(b) && v < 16,
            None => !is_hex_digit(b),
        },
{
    if '0' as u8 <= b && b <= '9' as u8 {
        Some(b - '0' as u8)
    } else if 'a' as u8 <= b && b <= 'f' as u8 {
        Some(b - 'a' as u8 + 10)
    } else if 'A' as u8 <= b && b <= 'F' as u8 {
        Some(b - 'A' as u8 + 10)
    } else {
        None
    }
}

/// The percent-decoding of `s`.
fn percent_decode_bytes(s: &[u8]) -> (r: Vec<u8>)
    ensures
        r@ == percent_decode(s@),
{
    let mut out: Vec<u8> = Vec::new();
    let mut i: usize = 0;
    proof {
        assert(s@.skip(0) =~= s@);
        assert(out@ + percent_decode(s@.skip(0)) =~= percent_decode(s@));
    }
    while i < s.len()
        invariant
            i <= s@.len(),
            out@ + percent_decode(s@.skip(i as int)) == percent_decode(s@),
        decreases s@.len() - i,
    {
        let b = s[i];
        if b == '%' as u8 && s.len() - i > 2 {
            match (hex_val(s[i + 1]), hex_val(s[i + 2])) {
                (Some(hv), Some(lv)) => {
                    proof {
                        let suf = s@.skip(i as int);
                        assert(suf[0] == s@[i as int] && suf[1] == s@[i + 1] && suf[2] == s@[i
                            + 2]);
                        assert(suf.skip(3) =~= s@.skip(i + 3));
                        assert(out@.push((hv * 16 + lv) as u8) + percent_decode(s@.skip(i + 3))
                            =~= out@ + percent_decode(suf));
                    }
                    out.push(hv * 16 + lv);
                    i += 3;
                },
                _ => {
                    proof {
                        let suf = s@.skip(i as int);
                        assert(suf[0] == s@[i as int] && suf[1] == s@[i + 1] && suf[2] == s@[i
                            + 2]);
                        assert(suf.skip(1) =~= s@.skip(i + 1));
                        assert(out@.push(b) + percent_decode(s@.skip(i + 1)) =~= out@
                            + percent_decode(suf));
                    }
                    out.push(b);
                    i += 1;
                },
            }
        } else {
            proof {
                let suf = s@.skip(i as int);
                assert(suf[0] == s@[i as int]);
                assert(suf.skip(1) =~= s@.skip(i + 1));
                assert(out@.push(b) + percent_decode(s@.skip(i + 1)) =~= out@ + percent_decode(
                    suf,
                ));
            }
            out.push(b);
            i += 1;
        }
    }
    proof {
        assert(s@.skip(s@.len() as int) =~= Seq::<u8>::empty());
        assert(percent_decode(Seq::<u8>::empty()) =~= Seq::<u8>::empty());
        assert(out@ + percent_decode(s@.skip(s@.len() as int)) =~= out@);
    }
    out
}

/// `s` without leading and trailing blanks.
fn trim_slice(s: &[u8]) -> (r: &[u8])
    ensures
        r@ == trim_blanks(s@),
{
    proof {
        assert(s@.subrange(0, s@.len() as int) =~= s@);
    }
    let mut lo: usize = 0;
    while lo < s.len() && (s[lo] == ' ' as u8 || s[lo] == '\t' as u8)
        invariant
            lo <= s.len(),
            trim_start(s@) == trim_start(s@.subrange(lo as int, s@.len() as int)),
        decreases s.len() - lo,
    {
        proof {
            assert(s@.subrange(lo as int, s@.len() as int).drop_first() =~= s@.subrange(
                lo + 1,
                s@.len() as int,
            ));
        }
        lo += 1;
    }
    proof {
        assert(trim_start(s@) =~= s@.subrange(lo as int, s@.len() as int));
    }
    let mut hi: usize = s.len();
    while hi > lo && (s[hi - 1] == ' ' as u8 || s[hi - 1] == '\t' as u8)
        invariant
            lo <= hi <= s.len(),
            trim_start(s@) == s@.subrange(lo as int, s@.len() as int),
            trim_end(s@.subrange(lo as int, s@.len() as int)) == trim_end(
                s@.subrange(lo as int, hi as int),
            ),
        decreases hi,
    {
        proof {
            assert(s@.subrange(lo as int, hi as int).drop_last() =~= s@.subrange(
                lo as int,
                hi - 1,
            ));
        }
        hi -= 1;
    }
    proof {
        assert(trim_end(s@.subrange(lo as int, hi as int)) =~= s@.subrange(lo as int, hi as int));
    }
    slice_subrange(s, lo, hi)
}

/// Whether every byte of `s` may appear in a link name.
fn check_name_bytes(s: &[u8]) -> (r: bool)
    ensures
        r == all_name_bytes(s@),
{
    let mut i: usize = 0;
    while i < s.len()
        invariant
            i <= s.len(),
            forall|j: int| 0 <= j < i ==> is_name_byte(s@[j]),
        decreases s.len() - i,
    {
        let b = s[i];
        let ok = ('a' as u8 <= b && b <= 'z' as u8) || ('A' as u8 <= b && b <= 'Z' as u8) || ('0'
            as u8 <= b && b <= '9' as u8) || b == '_' as u8 || b == '-' as u8 || b == '/' as u8
            || b == '\\' as u8 || b == ' ' as u8 || b == '?' as u8 || b == ':' as u8 || b >= 0x80;
        if !ok {
            return false;
        }
        i += 1;
    }
    true
}

impl NoteKind {
    /// The kind a path's extension resolves to, if recognized.
    pub fn from_path(path: &[u8]) -> (r: Option<NoteKind>)
        ensures
            r == (match spec_from_path(path@) {
                Some(idv) => Some(idv.1),
                None => None::<NoteKind>,
            }),
    {
        match NoteID::from_path(path) {
            Some(id) => Some(id.kind),
            None => None,
        }
    }
}

impl NoteID {
    /// A copy of this identity.
    pub fn duplicate(&self) -> (r: NoteID)
        ensures
            r@ == self@,
    {
        let mut name: Vec<u8> = Vec::new();
        name.extend_from_slice(self.name.as_slice());
        proof {
            assert(name@ =~= self.name@);
        }
        NoteID { name, kind: self.kind }
    }

    /// Resolve a file path to an identity: the stem of its final component
    /// and the kind of its extension.
    pub fn from_path(path: &[u8]) -> (r: Option<NoteID>)
        ensures
            opt_id_view(r) == spec_from_path(path@),
    {
        let plen = path.len();
        let start: usize = match find_last_sep(path) {
            Some(v) => v + 1,
            None => 0,
        };
        let f = slice_subrange(path, start, plen);
        proof {
            assert(f@ =~= spec_basename(path@));
        }
        let d = match find_last_byte(f, '.' as u8) {
            Some(v) => v,
            None => {
                return None;
            },
        };
        if d == 0 {
            return None;
        }
        let stem = slice_subrange(f, 0, d);
        let ext = slice_subrange(f, d + 1, f.len());
        match NoteKind::from_ext(ext) {
            Some(k) => Some(NoteID { name: slice_to_vec(stem), kind: k }),
            None => None,
        }
    }

    /// Resolve a file-scheme URI with an empty authority to an identity:
    /// the path part is percent-decoded, then resolved as a path. A remote
    /// authority or any other scheme yields none.
    pub fn from_uri(uri: &[u8]) -> (r: Option<NoteID>)
        ensures
            opt_id_view(r) == spec_from_uri(uri@),
    {
        if uri.len() < 8 {
            return None;
        }
        let scheme: Vec<u8> = vec![
            'f' as u8,
            'i' as u8,
            'l' as u8,
            'e' as u8,
            ':' as u8,
            '/' as u8,
            '/' as u8,
        ];
        if !bytes_eq(slice_subrange(uri, 0, 7), scheme.as_slice()) {
            return None;
        }
        if uri[7] != '/' as u8 {
            return None;
        }
        proof {
            assert(uri@.subrange(0, 7) == file_scheme());
            assert(uri@.subrange(7, uri@.len() as int) =~= uri@.skip(7));
        }
        let decoded = percent_decode_bytes(slice_subrange(uri, 7, uri.len()));
        NoteID::from_path(decoded.as_slice())
    }

    /// Resolve link text to an identity, per the link grammar.
    pub fn from_link(link: &[u8]) -> (r: Option<NoteID>)
        ensures
            opt_id_view(r) == spec_from_link(link@),
    {
        match find_first_byte(link, '(' as u8) {
            Some(p) => {
                if p >= link.len() - 1 || link[link.len() - 1] != ')' as u8 {
                    return None;
                }
                let inner = slice_subrange(link, p + 1, link.len() - 1);
                let mut i: usize = 0;
                while i < inner.len()
                    invariant
                        i <= inner.len(),
                        first_index_of_byte(link@, 0, '(' as u8) == p,
                        p + 2 <= link@.len(),
                        link@[link@.len() - 1] == ')' as u8,
                        inner@ == link@.subrange(p as int + 1, link@.len() - 1),
                        forall|j: int|
                            0 <= j < i ==> inner@[j] != '(' as u8 && inner@[j] != ')' as u8,
                    decreases inner.len() - i,
                {
                    if inner[i] == '(' as u8 || inner[i] == ')' as u8 {
                        proof {
                            assert(link@.subrange(p as int + 1, link@.len() - 1)[i as int]
                                == inner@[i as int]);
                        }
                        return None;
                    }
                    i += 1;
                }
                let nm = trim_slice(slice_subrange(link, 0, p as usize));
                if nm.len() == 0 || !check_name_bytes(nm) {
                    return None;
                }
                let kind = match NoteKind::from_str(inner) {
                    Some(k) => k,
                    None => NoteKind::Note,
                };
                Some(NoteID { name: slice_to_vec(nm), kind })
            },
            None => {
                let nm = trim_slice(link);
                if nm.len() == 0 || !check_name_bytes(nm) {
                    return None;
                }
                Some(NoteID { name: slice_to_vec(nm), kind: NoteKind::Note })
            },
        }
    }

    /// The file name this identity maps back to: `name.ext`.
    pub fn to_filename(&self) -> (r: Vec<u8>)
        ensures
            r@ == spec_filename(self.name@, self.kind),
    {
        let mut r: Vec<u8> = Vec::new();
        r.extend_from_slice(self.name.as_slice());
        r.push('.' as u8);
        let e = self.kind.ext();
        r.extend_from_slice(e.as_slice());
        proof {
            assert(r@ =~= spec_filename(self.name@, self.kind));
        }
        r
    }
}

proof fn lemma_last_sep_none(s: Seq<u8>)
    requires
        forall|i: int| 0 <= i < s.len() ==> !is_sep(s[i]),
    ensures
        last_sep_index(s) == -1,
    decreases s.len(),
{
    if s.len() > 0 {
        assert(forall|i: int| 0 <= i < s.drop_last().len() ==> s.drop_last()[i] == s[i]);
        lemma_last_sep_none(s.drop_last());
    }
}

proof fn lemma_last_index_at(s: Seq<u8>, b: u8, k: int)
    requires
        0 <= k < s.len(),
        s[k] == b,
        forall|j: int| k < j < s.len() ==> s[j] != b,
    ensures
        last_index_of_byte(s, b) == k,
    decreases s.len(),
{
    if k < s.len() - 1 {
        assert(forall|i: int| 0 <= i < s.drop_last().len() ==> s.drop_last()[i] == s[i]);
        lemma_last_index_at(s.drop_last(), b, k);
    }
}

/// Every keyword and extension byte is a lowercase ASCII letter.
proof fn lemma_kind_bytes_lowercase(k: NoteKind)
    ensures
        forall|i: int|
            0 <= i < ext_bytes(k).len() ==> 'a' as u8 <= #[trigger] ext_bytes(k)[i]
                && ext_bytes(k)[i] <= 'z' as u8,
{
    let e = ext_bytes(k);
    match k {
        NoteKind::Note => {
            assert(e[0] == 'n' as u8 && e[1] == 'o' as u8 && e[2] == 't' as u8 && e[3] == 'e'
                as u8);
        },
        NoteKind::Article => {
            assert(e[0] == 'a' as u8 && e[1] == 'r' as u8 && e[2] == 't' as u8);
        },
        NoteKind::List => {
            assert(e[0] == 'l' as u8 && e[1] == 'i' as u8 && e[2] == 's' as u8 && e[3] == 't'
                as u8);
        },
        NoteKind::Index => {
            assert(e[0] == 'i' as u8 && e[1] == 'n' as u8 && e[2] == 'd' as u8 && e[3] == 'e'
                as u8 && e[4] == 'x' as u8);
        },
        NoteKind::Dump => {
            assert(e[0] == 'd' as u8 && e[1] == 'u' as u8 && e[2] == 'm' as u8 && e[3] == 'p'
                as u8);
        },
    }
}

/// Each kind is recovered from its own extension.
proof fn lemma_kind_of_ext_self(k: NoteKind)
    ensures
        kind_of_ext(ext_bytes(k)) == Some(k),
{
    let en = ext_bytes(NoteKind::Note);
    let ea = ext_bytes(NoteKind::Article);
    let el = ext_bytes(NoteKind::List);
    let ei = ext_bytes(NoteKind::Index);
    let ed = ext_bytes(NoteKind::Dump);
    assert(en.len() == 4 && ea.len() == 3 && el.len() == 4 && ei.len() == 5 && ed.len() == 4);
    assert(en[0] == 'n' as u8 && el[0] == 'l' as u8 && ed[0] == 'd' as u8);
    match k {
        NoteKind::Note => {
        },
        NoteKind::Article => {
        },
        NoteKind::List => {
        },
        NoteKind::Index => {
        },
        NoteKind::Dump => {
        },
    }
}

/// Filename reconstruction round-trips: for any name without path
/// separators, the file name written for an identity resolves back to that
/// same identity.
pub proof fn lemma_filename_roundtrip(name: Seq<u8>, k: NoteKind)
    requires
        name.len() > 0,
        forall|i: int| 0 <= i < name.len() ==> !is_sep(name[i]),
    ensures
        spec_from_path(spec_filename(name, k)) == Some((name, k)),
{
    let f = spec_filename(name, k);
    lemma_kind_bytes_lowercase(k);
    assert forall|i: int| 0 <= i < f.len() implies !is_sep(#[trigger] f[i]) by {
        if i < name.len() {
            assert(f[i] == name[i]);
        } else if i == name.len() {
            assert(f[i] == '.' as u8);
        } else {
            assert(f[i] == ext_bytes(k)[i - name.len() - 1]);
        }
    }
    lemma_last_sep_none(f);
    assert(spec_basename(f) =~= f);
    assert(f[name.len() as int] == '.' as u8);
    assert forall|j: int| name.len() < j < f.len() implies f[j] != '.' as u8 by {
        assert(f[j] == ext_bytes(k)[j - name.len() - 1]);
    }
    lemma_last_index_at(f, '.' as u8, name.len() as int);
    assert(last_index_of_byte(spec_basename(f), '.' as u8) == name.len());
    assert(spec_basename(f).subrange(0, name.len() as int) =~= name);
    assert(spec_basename(f).subrange(name.len() as int + 1, spec_basename(f).len() as int)
        =~= ext_bytes(k));
    lemma_kind_of_ext_self(k);
}

} // verus!
