//! Character-level text helpers shared by the extractors: splitting paths,
//! cutting one-line signatures, taking the simple name of a qualified path.

use vstd::prelude::*;
use vstd::string::*;
use vstd::slice::slice_to_vec;

verus! {

broadcast use {vstd::string::axiom_spec_iter, vstd::string::next_postcondition};

/// The characters of `s`, in order.
pub fn chars_of(s: &str) -> (r: Vec<char>)
    ensures
        r@ == s@,
{
    let mut out: Vec<char> = Vec::new();
    for c in it: s.chars()
        invariant
            out@ == it.seq().take(it.index() as int),
            it.seq() == s@,
    {
        out.push(c);
    }
    assert(out@ =~= s@);
    out
}

/// A `String` holding exactly the characters `cs`.
#[verifier::external_body]
pub(crate) fn string_from_chars(cs: &[char]) -> (r: String)
    ensures
        r@ == cs@,
{
    String::from_iter(cs)
}

/// Copy `cs[from..to]`.
pub fn slice_chars(cs: &Vec<char>, from: usize, to: usize) -> (r: Vec<char>)
    requires
        from <= to <= cs.len(),
    ensures
        r@ == cs@.subrange(from as int, to as int),
{
    let mut out: Vec<char> = Vec::new();
    let mut i = from;
    while i < to
        invariant
            from <= i <= to <= cs.len(),
            out@ == cs@.subrange(from as int, i as int),
        decreases to - i,
    {
        out.push(cs[i]);
        i = i + 1;
    }
    out
}

/// Whether `cs` spells exactly `lit`.
pub fn chars_eq(cs: &Vec<char>, lit: &str) -> (r: bool)
    ensures
        r == (cs@ == lit@),
{
    let l = chars_of(lit);
    if cs.len() != l.len() {
        return false;
    }
    let mut i: usize = 0;
    while i < cs.len()
        invariant
            cs.len() == l.len(),
            l@ == lit@,
            i <= cs.len(),
            forall|k: int| 0 <= k < i ==> cs@[k] == l@[k],
        decreases cs.len() - i,
    {
        if cs[i] != l[i] {
            return false;
        }
        i = i + 1;
    }
    assert(cs@ =~= l@);
    true
}

/// Whether two strings hold the same characters.
pub fn str_eq(a: &str, b: &str) -> (r: bool)
    ensures
        r == (a@ == b@),
{
    let ca = chars_of(a);
    chars_eq(&ca, b)
}

/// Index of the last occurrence of `c` in `s`, or `-1`.
pub open spec fn last_index_spec(s: Seq<char>, c: char) -> int
    decreases s.len(),
{
    if s.len() == 0 {
        -1
    } else if s.last() == c {
        s.len() - 1
    } else {
        last_index_spec(s.drop_last(), c)
    }
}

pub proof fn lemma_last_index_bounds(s: Seq<char>, c: char)
    ensures
        -1 <= last_index_spec(s, c) < s.len(),
        last_index_spec(s, c) >= 0 ==> s[last_index_spec(s, c)] == c,
        forall|k: int| last_index_spec(s, c) < k < s.len() ==> s[k] != c,
    decreases s.len(),
{
    if s.len() > 0 && s.last() != c {
        lemma_last_index_bounds(s.drop_last(), c);
        assert forall|k: int| last_index_spec(s, c) < k < s.len() implies s[k] != c by {
            if k < s.len() - 1 {
                assert(s.drop_last()[k] == s[k]);
            }
        }
    }
}

/// The last `c` of `a + b`, when `b` has no `c`, is the last `c` of `a`.
pub proof fn lemma_last_index_concat(a: Seq<char>, b: Seq<char>, c: char)
    requires
        forall|i: int| 0 <= i < b.len() ==> b[i] != c,
    ensures
        last_index_spec(a + b, c) == last_index_spec(a, c),
    decreases b.len(),
{
    if b.len() > 0 {
        assert((a + b).drop_last() =~= a + b.drop_last());
        assert((a + b).last() == b.last());
        lemma_last_index_concat(a, b.drop_last(), c);
    } else {
        assert(a + b =~= a);
    }
}

/// Index of the last `c` in `cs`, or `None` when there is none.
pub fn last_index_of(cs: &Vec<char>, c: char) -> (r: Option<usize>)
    ensures
        r is None <==> last_index_spec(cs@, c) == -1,
        r matches Some(k) ==> k == last_index_spec(cs@, c),
{
    let mut i = cs.len();
    assert(cs@.take(i as int) =~= cs@);
    while i > 0
        invariant
            i <= cs.len(),
            last_index_spec(cs@, c) == last_index_spec(cs@.take(i as int), c),
        decreases i,
    {
        assert(cs@.take(i as int).drop_last() =~= cs@.take(i - 1));
        if cs[i - 1] == c {
            return Some(i - 1);
        }
        i = i - 1;
    }
    assert(cs@.take(0) =~= Seq::<char>::empty());
    None
}

/// `s` starts with `p`.
pub open spec fn has_prefix(s: Seq<char>, p: Seq<char>) -> bool {
    p.len() <= s.len() && s.take(p.len() as int) == p
}

/// `s` ends with `p`.
pub open spec fn has_suffix(s: Seq<char>, p: Seq<char>) -> bool {
    p.len() <= s.len() && s.skip(s.len() - p.len()) == p
}

/// `s` without a leading `p`, or `s` itself when it does not start with `p`.
pub open spec fn strip_prefix_or_self(s: Seq<char>, p: Seq<char>) -> Seq<char> {
    if has_prefix(s, p) {
        s.skip(p.len() as int)
    } else {
        s
    }
}

/// `s` without a trailing `p`, or `s` itself when it does not end with `p`.
pub open spec fn strip_suffix_or_self(s: Seq<char>, p: Seq<char>) -> Seq<char> {
    if has_suffix(s, p) {
        s.take(s.len() - p.len())
    } else {
        s
    }
}

/// Whether `cs[at..]` starts with `p`.
pub fn matches_at(cs: &Vec<char>, at: usize, p: &Vec<char>) -> (r: bool)
    requires
        at <= cs.len(),
    ensures
        r == has_prefix(cs@.skip(at as int), p@),
{
    if p.len() > cs.len() - at {
        return false;
    }
    let mut i: usize = 0;
    while i < p.len()
        invariant
            p.len() <= cs.len() - at,
            at <= cs.len(),
            i <= p.len(),
            forall|k: int| 0 <= k < i ==> cs@[at + k] == p@[k],
        decreases p.len() - i,
    {
        if cs[at + i] != p[i] {
            assert(cs@.skip(at as int).take(p.len() as int)[i as int] != p@[i as int]);
            return false;
        }
        i = i + 1;
    }
    assert(cs@.skip(at as int).take(p.len() as int) =~= p@);
    true
}

/// `cs` with a leading `p` removed when present.
pub fn strip_prefix_chars(cs: &Vec<char>, p: &str) -> (r: Vec<char>)
    ensures
        r@ == strip_prefix_or_self(cs@, p@),
{
    let pc = chars_of(p);
    if matches_at(cs, 0, &pc) {
        assert(cs@.skip(0) =~= cs@);
        slice_chars(cs, pc.len(), cs.len())
    } else {
        assert(cs@.skip(0) =~= cs@);
        slice_chars(cs, 0, cs.len())
    }
}

/// `cs` with a trailing `p` removed when present.
pub fn strip_suffix_chars(cs: &Vec<char>, p: &str) -> (r: Vec<char>)
    ensures
        r@ == strip_suffix_or_self(cs@, p@),
{
    let pc = chars_of(p);
    if pc.len() <= cs.len() && matches_at(cs, cs.len() - pc.len(), &pc) {
        assert(cs@.skip(cs.len() - pc.len()).take(pc.len() as int) =~= cs@.skip(
            cs.len() - pc.len(),
        ));
        slice_chars(cs, 0, cs.len() - pc.len())
    } else {
        proof {
            if pc@.len() <= cs@.len() {
                assert(cs@.skip(cs.len() - pc.len()).take(pc.len() as int) =~= cs@.skip(
                    cs.len() - pc.len(),
                ));
            }
        }
        slice_chars(cs, 0, cs.len())
    }
}

/// The views of the elements of `v`.
pub open spec fn views<T: View>(v: Seq<T>) -> Seq<T::V> {
    Seq::new(v.len(), |i: int| v[i]@)
}

pub proof fn lemma_views_push<T: View>(v: Seq<T>, x: T)
    ensures
        views(v.push(x)) =~= views(v).push(x@),
{
}

/// Left-to-right split state: the completed non-empty segments and the
/// segment being read.
pub open spec fn split_state(s: Seq<char>, sep: char) -> (Seq<Seq<char>>, Seq<char>)
    decreases s.len(),
{
    if s.len() == 0 {
        (Seq::empty(), Seq::empty())
    } else {
        let (done, cur) = split_state(s.drop_last(), sep);
        if s.last() == sep {
            if cur.len() > 0 {
                (done.push(cur), Seq::empty())
            } else {
                (done, Seq::empty())
            }
        } else {
            (done, cur.push(s.last()))
        }
    }
}

/// The non-empty pieces of `s` between occurrences of `sep`, in order.
pub open spec fn segments(s: Seq<char>, sep: char) -> Seq<Seq<char>> {
    let (done, cur) = split_state(s, sep);
    if cur.len() > 0 {
        done.push(cur)
    } else {
        done
    }
}

/// Splitting `c + b`, where `c` ends with `sep`, continues from the
/// segments of `c` with what splitting `b` alone gives.
proof fn lemma_split_state_after_sep(c: Seq<char>, b: Seq<char>, sep: char)
    requires
        c.len() > 0,
        c.last() == sep,
    ensures
        split_state(c + b, sep) == (segments(c, sep) + split_state(b, sep).0, split_state(b, sep).1),
    decreases b.len(),
{
    if b.len() == 0 {
        assert(c + b =~= c);
        assert(split_state(c, sep).0 + Seq::<Seq<char>>::empty() =~= split_state(c, sep).0);
    } else {
        assert((c + b).drop_last() =~= c + b.drop_last());
        assert((c + b).last() == b.last());
        lemma_split_state_after_sep(c, b.drop_last(), sep);
        let d = segments(c, sep);
        let (db, cb) = split_state(b.drop_last(), sep);
        if b.last() == sep && cb.len() > 0 {
            assert((d + db).push(cb) =~= d + db.push(cb));
        }
    }
}

/// The segments of `a`, a separator, then `b` are those of `a` followed by
/// those of `b`.
pub proof fn lemma_segments_concat(a: Seq<char>, b: Seq<char>, sep: char)
    ensures
        segments(a + seq![sep] + b, sep) == segments(a, sep) + segments(b, sep),
{
    let c = a + seq![sep];
    assert(c.drop_last() =~= a);
    assert(c.last() == sep);
    lemma_split_state_after_sep(c, b, sep);
    assert(a + seq![sep] + b == c + b);
    let (db, cb) = split_state(b, sep);
    if cb.len() > 0 {
        assert((segments(c, sep) + db).push(cb) =~= segments(c, sep) + db.push(cb));
    }
    assert(segments(c, sep) == segments(a, sep));
}

/// A non-empty text without `sep` is a single segment.
pub proof fn lemma_segments_single(w: Seq<char>, sep: char)
    requires
        w.len() > 0,
        forall|i: int| 0 <= i < w.len() ==> w[i] != sep,
    ensures
        segments(w, sep) == seq![w],
{
    lemma_split_state_no_sep(w, sep);
}

proof fn lemma_split_state_no_sep(w: Seq<char>, sep: char)
    requires
        forall|i: int| 0 <= i < w.len() ==> w[i] != sep,
    ensures
        split_state(w, sep) == (Seq::<Seq<char>>::empty(), w),
    decreases w.len(),
{
    if w.len() == 0 {
        assert(w =~= Seq::<char>::empty());
    } else {
        lemma_split_state_no_sep(w.drop_last(), sep);
        assert(w.drop_last().push(w.last()) =~= w);
    }
}

/// `p` followed by `e` loses exactly `e` when `e` is stripped from its end.
pub proof fn lemma_strip_own_suffix(p: Seq<char>, e: Seq<char>)
    ensures
        strip_suffix_or_self(p + e, e) == p,
{
    let f = p + e;
    assert(f.skip(f.len() - e.len()) =~= e);
    assert(f.take(f.len() - e.len()) =~= p);
}

/// `p` followed by `ext` keeps its end when `e` is stripped from it, where
/// neither of `ext` and `e` ends with the other.
pub proof fn lemma_strip_other_suffix(p: Seq<char>, ext: Seq<char>, e: Seq<char>)
    requires
        !has_suffix(ext, e),
        !has_suffix(e, ext),
    ensures
        strip_suffix_or_self(p + ext, e) == p + ext,
{
    let f = p + ext;
    if has_suffix(f, e) {
        if e.len() <= ext.len() {
            assert(ext.skip(ext.len() - e.len()) =~= f.skip(f.len() - e.len()));
        } else {
            assert(f.skip(f.len() - ext.len()) =~= ext);
            assert(e.skip(e.len() - ext.len()) =~= f.skip(f.len() - ext.len()));
        }
    }
}

/// Texts that differ at the `k`-th character from their ends do not end
/// with one another.
pub proof fn lemma_not_suffix_at(a: Seq<char>, b: Seq<char>, k: int)
    requires
        1 <= k <= a.len(),
        k <= b.len(),
        a[a.len() - k] != b[b.len() - k],
    ensures
        !has_suffix(a, b),
        !has_suffix(b, a),
{
    if has_suffix(a, b) {
        assert(a.skip(a.len() - b.len())[b.len() - k] == a[a.len() - k]);
    }
    if has_suffix(b, a) {
        assert(b.skip(b.len() - a.len())[a.len() - k] == b[b.len() - k]);
    }
}

/// `r` followed by `s` loses exactly `r` when `r` is stripped from its start.
pub proof fn lemma_strip_own_prefix(r: Seq<char>, s: Seq<char>)
    ensures
        strip_prefix_or_self(r + s, r) == s,
{
    let f = r + s;
    assert(f.take(r.len() as int) =~= r);
    assert(f.skip(r.len() as int) =~= s);
}

/// The non-empty `sep`-separated pieces of `cs`.
pub fn split_nonempty(cs: &Vec<char>, sep: char) -> (r: Vec<Vec<char>>)
    ensures
        views(r@) == segments(cs@, sep),
{
    let mut done: Vec<Vec<char>> = Vec::new();
    let mut cur: Vec<char> = Vec::new();
    let mut i: usize = 0;
    while i < cs.len()
        invariant
            i <= cs.len(),
            (views(done@), cur@) == split_state(cs@.take(i as int), sep),
        decreases cs.len() - i,
    {
        assert(cs@.take(i + 1).drop_last() =~= cs@.take(i as int));
        let c = cs[i];
        if c == sep {
            if cur.len() > 0 {
                let ghost d = done@;
                proof { lemma_views_push(d, cur); }
                done.push(cur);
                cur = Vec::new();
            } else {
                cur = Vec::new();
            }
            assert(cur@ =~= Seq::<char>::empty());
        } else {
            cur.push(c);
        }
        i = i + 1;
    }
    assert(cs@.take(cs.len() as int) =~= cs@);
    if cur.len() > 0 {
        let ghost d = done@;
        proof { lemma_views_push(d, cur); }
        done.push(cur);
    }
    done
}

/// Strings holding each of `parts`.
pub fn strings_of(parts: &Vec<Vec<char>>) -> (r: Vec<String>)
    ensures
        views(r@) == views(parts@),
{
    let mut out: Vec<String> = Vec::new();
    let mut i: usize = 0;
    while i < parts.len()
        invariant
            i <= parts.len(),
            views(out@) =~= views(parts@).take(i as int),
        decreases parts.len() - i,
    {
        let s = string_from_chars(parts[i].as_slice());
        proof { lemma_views_push(out@, s); }
        out.push(s);
        assert(views(parts@).take(i + 1) =~= views(parts@).take(i as int).push(parts@[i as int]@));
        i = i + 1;
    }
    assert(views(parts@).take(parts.len() as int) =~= views(parts@));
    out
}

/// Unicode `White_Space`, the property `char::is_whitespace` reports and
/// `str::trim` and `str::split_whitespace` go by.
pub open spec fn is_ws(c: char) -> bool {
    ||| '\t' <= c <= '\r'
    ||| c == ' '
    ||| c == '\u{85}'
    ||| c == '\u{a0}'
    ||| c == '\u{1680}'
    ||| '\u{2000}' <= c <= '\u{200a}'
    ||| c == '\u{2028}'
    ||| c == '\u{2029}'
    ||| c == '\u{202f}'
    ||| c == '\u{205f}'
    ||| c == '\u{3000}'
}

/// Index of the first character at or after `i` that is a newline or one of
/// `stops`, or `s.len()` when there is none.
pub open spec fn scan_to_stop(s: Seq<char>, stops: Seq<char>, i: int) -> int
    decreases s.len() - i,
{
    if i < 0 || i >= s.len() {
        s.len() as int
    } else if s[i] == '\n' || stops.contains(s[i]) {
        i
    } else {
        scan_to_stop(s, stops, i + 1)
    }
}

/// Index of the first non-whitespace character at or after `i`, or
/// `s.len()`.
pub open spec fn skip_ws_from(s: Seq<char>, i: int) -> int
    decreases s.len() - i,
{
    if i < 0 || i >= s.len() {
        s.len() as int
    } else if is_ws(s[i]) {
        skip_ws_from(s, i + 1)
    } else {
        i
    }
}

/// One past the last non-whitespace character before `j` (at least `lo`).
pub open spec fn trim_back_to(s: Seq<char>, lo: int, j: int) -> int
    decreases j - lo,
{
    if j <= lo || j > s.len() {
        if j > s.len() { s.len() as int } else { lo }
    } else if is_ws(s[j - 1]) {
        trim_back_to(s, lo, j - 1)
    } else {
        j
    }
}

/// `s` without leading and trailing whitespace.
pub open spec fn trim(s: Seq<char>) -> Seq<char> {
    let a = skip_ws_from(s, 0);
    let b = trim_back_to(s, a, s.len() as int);
    s.subrange(a, b)
}

/// The head of a definition: its text up to the first newline or stop
/// character, trimmed.
pub open spec fn signature_of(text: Seq<char>, stops: Seq<char>) -> Seq<char> {
    trim(text.take(scan_to_stop(text, stops, 0)))
}

/// The scan from `i` stops at `k` when `k` is the first newline or stop
/// character at or after `i`.
proof fn lemma_scan_to_stop_at(s: Seq<char>, stops: Seq<char>, i: int, k: int)
    requires
        0 <= i <= k < s.len(),
        s[k] == '\n' || stops.contains(s[k]),
        forall|x: int| i <= x < k ==> !(s[x] == '\n' || stops.contains(s[x])),
    ensures
        scan_to_stop(s, stops, i) == k,
    decreases k - i,
{
    if i < k {
        lemma_scan_to_stop_at(s, stops, i + 1, k);
    }
}

/// The scan from `i` runs to the end when no newline or stop character
/// follows.
proof fn lemma_scan_to_stop_none(s: Seq<char>, stops: Seq<char>, i: int)
    requires
        0 <= i <= s.len(),
        forall|x: int| i <= x < s.len() ==> !(s[x] == '\n' || stops.contains(s[x])),
    ensures
        scan_to_stop(s, stops, i) == s.len(),
    decreases s.len() - i,
{
    if i < s.len() {
        lemma_scan_to_stop_none(s, stops, i + 1);
    }
}

/// Whitespace skipping from `i` stops at `k` when `[i, k)` is whitespace and
/// `s[k]` is not.
proof fn lemma_skip_ws_at(s: Seq<char>, i: int, k: int)
    requires
        0 <= i <= k < s.len(),
        !is_ws(s[k]),
        forall|x: int| i <= x < k ==> is_ws(s[x]),
    ensures
        skip_ws_from(s, i) == k,
    decreases k - i,
{
    if i < k {
        lemma_skip_ws_at(s, i + 1, k);
    }
}

/// Trimming back from `j` stops at `k` when `[k, j)` is whitespace and
/// `s[k - 1]` is not.
proof fn lemma_trim_back_at(s: Seq<char>, lo: int, j: int, k: int)
    requires
        lo < k <= j <= s.len(),
        !is_ws(s[k - 1]),
        forall|x: int| k <= x < j ==> is_ws(s[x]),
    ensures
        trim_back_to(s, lo, j) == k,
    decreases j - k,
{
    if k < j {
        lemma_trim_back_at(s, lo, j - 1, k);
    }
}

/// Law: trimming drops exactly the whitespace around a text that neither
/// starts nor ends with whitespace.
pub proof fn law_trim_drops_surrounding_whitespace(a: Seq<char>, core: Seq<char>, b: Seq<char>)
    requires
        forall|x: int| 0 <= x < a.len() ==> is_ws(a[x]),
        forall|x: int| 0 <= x < b.len() ==> is_ws(b[x]),
        core.len() > 0,
        !is_ws(core[0]),
        !is_ws(core.last()),
    ensures
        trim(a + core + b) == core,
{
    let s = a + core + b;
    assert(s[a.len() as int] == core[0]);
    lemma_skip_ws_at(s, 0, a.len() as int);
    assert(s[a.len() + core.len() - 1] == core.last());
    assert forall|x: int| a.len() + core.len() <= x < s.len() implies is_ws(s[x]) by {
        assert(s[x] == b[x - a.len() - core.len()]);
    }
    lemma_trim_back_at(s, a.len() as int, s.len() as int, (a.len() + core.len()) as int);
    assert(s.subrange(a.len() as int, (a.len() + core.len()) as int) =~= core);
}

/// Law: the signature of a definition is its text up to the first newline
/// or stop character, without the whitespace around it; text after that
/// character does not change it.
pub proof fn law_signature_is_head_trimmed(
    a: Seq<char>,
    core: Seq<char>,
    b: Seq<char>,
    c: char,
    rest: Seq<char>,
    stops: Seq<char>,
)
    requires
        forall|x: int| 0 <= x < a.len() ==> is_ws(a[x]),
        forall|x: int| 0 <= x < b.len() ==> is_ws(b[x]),
        core.len() > 0,
        !is_ws(core[0]),
        !is_ws(core.last()),
        forall|x: int|
            0 <= x < (a + core + b).len() ==> !((a + core + b)[x] == '\n' || stops.contains((a + core + b)[x])),
        c == '\n' || stops.contains(c),
    ensures
        signature_of(a + core + b, stops) == core,
        signature_of(a + core + b + seq![c] + rest, stops) == core,
{
    let h = a + core + b;
    let s = h + seq![c] + rest;
    law_trim_drops_surrounding_whitespace(a, core, b);
    lemma_scan_to_stop_none(h, stops, 0);
    assert(h.take(h.len() as int) =~= h);
    assert(s[h.len() as int] == c);
    assert forall|x: int| 0 <= x < h.len() implies !(s[x] == '\n' || stops.contains(s[x])) by {
        assert(s[x] == h[x]);
    }
    lemma_scan_to_stop_at(s, stops, 0, h.len() as int);
    assert(s.take(h.len() as int) =~= h);
}

pub proof fn lemma_scan_bounds(s: Seq<char>, stops: Seq<char>, i: int)
    requires
        0 <= i <= s.len(),
    ensures
        i <= scan_to_stop(s, stops, i) <= s.len(),
    decreases s.len() - i,
{
    if i < s.len() && !(s[i] == '\n' || stops.contains(s[i])) {
        lemma_scan_bounds(s, stops, i + 1);
    }
}

pub proof fn lemma_skip_ws_bounds(s: Seq<char>, i: int)
    requires
        0 <= i <= s.len(),
    ensures
        i <= skip_ws_from(s, i) <= s.len(),
    decreases s.len() - i,
{
    if i < s.len() && is_ws(s[i]) {
        lemma_skip_ws_bounds(s, i + 1);
    }
}

pub proof fn lemma_trim_back_bounds(s: Seq<char>, lo: int, j: int)
    requires
        0 <= lo <= j <= s.len(),
    ensures
        lo <= trim_back_to(s, lo, j) <= j,
    decreases j - lo,
{
    if j > lo && is_ws(s[j - 1]) {
        lemma_trim_back_bounds(s, lo, j - 1);
    }
}

/// First index at or after `i` holding a newline or one of `stops`.
pub fn scan_to_stop_exec(cs: &Vec<char>, stops: &Vec<char>, i: usize) -> (r: usize)
    requires
        i <= cs.len(),
    ensures
        r == scan_to_stop(cs@, stops@, i as int),
        i <= r <= cs.len(),
{
    proof {
        lemma_scan_bounds(cs@, stops@, i as int);
    }
    let mut k = i;
    while k < cs.len()
        invariant
            i <= k <= cs.len(),
            scan_to_stop(cs@, stops@, i as int) == scan_to_stop(cs@, stops@, k as int),
        decreases cs.len() - k,
    {
        let c = cs[k];
        if c == '\n' || contains_char(stops, c) {
            return k;
        }
        k = k + 1;
    }
    k
}

/// Whether `c` is one of `cs`.
pub fn contains_char(cs: &Vec<char>, c: char) -> (r: bool)
    ensures
        r == cs@.contains(c),
{
    let mut i: usize = 0;
    while i < cs.len()
        invariant
            i <= cs.len(),
            forall|k: int| 0 <= k < i ==> cs@[k] != c,
        decreases cs.len() - i,
    {
        if cs[i] == c {
            assert(cs@[i as int] == c);
            return true;
        }
        i = i + 1;
    }
    false
}

pub fn is_ws_exec(c: char) -> (r: bool)
    ensures
        r == is_ws(c),
{
    ('\t' <= c && c <= '\r') || c == ' ' || c == '\u{85}' || c == '\u{a0}' || c == '\u{1680}'
        || ('\u{2000}' <= c && c <= '\u{200a}') || c == '\u{2028}' || c == '\u{2029}'
        || c == '\u{202f}' || c == '\u{205f}' || c == '\u{3000}'
}

/// `cs` without leading and trailing whitespace.
pub fn trim_chars(cs: &Vec<char>) -> (r: Vec<char>)
    ensures
        r@ == trim(cs@),
{
    proof {
        lemma_skip_ws_bounds(cs@, 0);
    }
    let mut a: usize = 0;
    while a < cs.len() && is_ws_exec(cs[a])
        invariant
            a <= cs.len(),
            skip_ws_from(cs@, 0) == skip_ws_from(cs@, a as int),
        decreases cs.len() - a,
    {
        a = a + 1;
    }
    proof {
        lemma_trim_back_bounds(cs@, a as int, cs.len() as int);
    }
    let mut b = cs.len();
    while b > a && is_ws_exec(cs[b - 1])
        invariant
            a <= b <= cs.len(),
            trim_back_to(cs@, a as int, cs.len() as int) == trim_back_to(cs@, a as int, b as int),
        decreases b - a,
    {
        b = b - 1;
    }
    slice_chars(cs, a, b)
}

/// The head of a definition's text: up to the first newline or any of
/// `stops`, trimmed.
pub fn one_line_signature(text: &str, stops: &[char]) -> (r: String)
    ensures
        r@ == signature_of(text@, stops@),
{
    let cs = chars_of(text);
    let st = slice_to_vec(stops);
    let k = scan_to_stop_exec(&cs, &st, 0);
    let head = slice_chars(&cs, 0, k);
    assert(head@ =~= cs@.take(k as int));
    let t = trim_chars(&head);
    string_from_chars(t.as_slice())
}

/// `p` occurs in `s` at index `k`.
pub open spec fn occurs_at(s: Seq<char>, p: Seq<char>, k: int) -> bool {
    0 <= k && k + p.len() <= s.len() && s.subrange(k, k + p.len() as int) == p
}

/// The last index `<= k` at which `p` occurs in `s`, or `-1`.
pub open spec fn last_occurrence_from(s: Seq<char>, p: Seq<char>, k: int) -> int
    decreases k + 1,
{
    if k < 0 {
        -1
    } else if occurs_at(s, p, k) {
        k
    } else {
        last_occurrence_from(s, p, k - 1)
    }
}

/// The last index at which `p` occurs in `s`, or `-1`.
pub open spec fn last_occurrence(s: Seq<char>, p: Seq<char>) -> int {
    last_occurrence_from(s, p, s.len() - p.len())
}

pub proof fn lemma_last_occurrence_bounds(s: Seq<char>, p: Seq<char>, k: int)
    requires
        -1 <= k <= s.len() - p.len(),
    ensures
        -1 <= last_occurrence_from(s, p, k) <= k,
        last_occurrence_from(s, p, k) >= 0 ==> occurs_at(s, p, last_occurrence_from(s, p, k)),
    decreases k + 1,
{
    if k >= 0 && !occurs_at(s, p, k) {
        lemma_last_occurrence_bounds(s, p, k - 1);
    }
}

/// Index of the first `c` in `s` at or after `i`, or `-1`.
pub open spec fn first_index_spec(s: Seq<char>, c: char, i: int) -> int
    decreases s.len() - i,
{
    if i < 0 || i >= s.len() {
        -1
    } else if s[i] == c {
        i
    } else {
        first_index_spec(s, c, i + 1)
    }
}

pub proof fn lemma_first_index_bounds(s: Seq<char>, c: char, i: int)
    requires
        0 <= i,
    ensures
        first_index_spec(s, c, i) == -1 || (i <= first_index_spec(s, c, i) < s.len()),
    decreases s.len() - i,
{
    if i < s.len() && s[i] != c {
        lemma_first_index_bounds(s, c, i + 1);
    }
}

pub fn first_index_of(cs: &Vec<char>, c: char) -> (r: Option<usize>)
    ensures
        r is None <==> first_index_spec(cs@, c, 0) == -1,
        r matches Some(k) ==> k == first_index_spec(cs@, c, 0) && k < cs.len(),
{
    proof {
        lemma_first_index_bounds(cs@, c, 0);
    }
    let mut i: usize = 0;
    while i < cs.len()
        invariant
            i <= cs.len(),
            first_index_spec(cs@, c, 0) == first_index_spec(cs@, c, i as int),
        decreases cs.len() - i,
    {
        if cs[i] == c {
            return Some(i);
        }
        i = i + 1;
    }
    None
}

/// The simple name of a qualified, possibly generic type or path: the text
/// before the first `<`, after the last `sep`, trimmed.
pub open spec fn simple_name_of(text: Seq<char>, sep: Seq<char>) -> Seq<char> {
    let lt = first_index_spec(text, '<', 0);
    let head = if lt >= 0 { text.take(lt) } else { text };
    let k = last_occurrence(head, sep);
    let tail = if k >= 0 && sep.len() > 0 {
        head.skip(k + sep.len())
    } else {
        head
    };
    trim(tail)
}

/// The last occurrence of `p` at or before `j` is `k` when `p` occurs at `k`
/// and at no index in `(k, j]`.
proof fn lemma_last_occurrence_from_at(s: Seq<char>, p: Seq<char>, j: int, k: int)
    requires
        0 <= k <= j,
        occurs_at(s, p, k),
        forall|x: int| k < x <= j ==> !occurs_at(s, p, x),
    ensures
        last_occurrence_from(s, p, j) == k,
    decreases j - k,
{
    if j > k {
        lemma_last_occurrence_from_at(s, p, j - 1, k);
    }
}

/// The first `c` at or after `i` is at `k` when `s[k]` is `c` and no index in
/// `[i, k)` holds `c`.
proof fn lemma_first_index_at(s: Seq<char>, c: char, i: int, k: int)
    requires
        0 <= i <= k < s.len(),
        s[k] == c,
        forall|x: int| i <= x < k ==> s[x] != c,
    ensures
        first_index_spec(s, c, i) == k,
    decreases k - i,
{
    if i < k {
        lemma_first_index_at(s, c, i + 1, k);
    }
}

/// A text without `c` has no first `c`.
proof fn lemma_first_index_none(s: Seq<char>, c: char, i: int)
    requires
        0 <= i,
        forall|x: int| 0 <= x < s.len() ==> s[x] != c,
    ensures
        first_index_spec(s, c, i) == -1,
    decreases s.len() - i,
{
    if i < s.len() {
        lemma_first_index_none(s, c, i + 1);
    }
}

/// The simple name of a text without `<` whose last `sep` is followed by
/// `n` is `n`, when `n` neither starts nor ends with whitespace.
proof fn lemma_simple_name_plain(q: Seq<char>, sep: Seq<char>, n: Seq<char>)
    requires
        sep.len() > 0,
        n.len() > 0,
        !is_ws(n[0]),
        !is_ws(n.last()),
        forall|x: int| 0 <= x < (q + sep + n).len() ==> (q + sep + n)[x] != '<',
        forall|x: int| q.len() < x <= q.len() + n.len() ==> !occurs_at(q + sep + n, sep, x),
    ensures
        simple_name_of(q + sep + n, sep) == n,
{
    let s = q + sep + n;
    lemma_first_index_none(s, '<', 0);
    assert(s.subrange(q.len() as int, (q.len() + sep.len()) as int) =~= sep);
    lemma_last_occurrence_from_at(s, sep, s.len() - sep.len(), q.len() as int);
    assert(s.skip((q.len() + sep.len()) as int) =~= n);
    assert(skip_ws_from(n, 0) == 0);
    assert(trim_back_to(n, 0, n.len() as int) == n.len());
    assert(n.subrange(0, n.len() as int) =~= n);
}

/// Law: the simple name of `q`, `sep`, then `n`, is `n`, when none of them
/// holds a `<`, `sep` occurs at no later index, and `n` neither starts nor
/// ends with whitespace; and whatever follows a first `<` does not change
/// it.
pub proof fn law_simple_name_of(q: Seq<char>, sep: Seq<char>, n: Seq<char>, rest: Seq<char>)
    requires
        sep.len() > 0,
        n.len() > 0,
        !is_ws(n[0]),
        !is_ws(n.last()),
        forall|x: int| 0 <= x < q.len() ==> q[x] != '<',
        forall|x: int| 0 <= x < sep.len() ==> sep[x] != '<',
        forall|x: int| 0 <= x < n.len() ==> n[x] != '<',
        forall|x: int| q.len() < x <= q.len() + n.len() ==> !occurs_at(q + sep + n, sep, x),
    ensures
        simple_name_of(q + sep + n, sep) == n,
        simple_name_of(q + sep + n + seq!['<'] + rest, sep) == n,
{
    let s = q + sep + n;
    assert forall|x: int| 0 <= x < s.len() implies s[x] != '<' by {
        if x >= q.len() + sep.len() {
            assert(s[x] == n[x - q.len() - sep.len()]);
        } else if x >= q.len() {
            assert(s[x] == sep[x - q.len()]);
        } else {
            assert(s[x] == q[x]);
        }
    }
    lemma_simple_name_plain(q, sep, n);
    let s2 = s + seq!['<'] + rest;
    assert(s2[s.len() as int] == '<');
    assert forall|x: int| 0 <= x < s.len() implies s2[x] != '<' by {
        assert(s2[x] == s[x]);
    }
    lemma_first_index_at(s2, '<', 0, s.len() as int);
    assert(s2.take(s.len() as int) =~= s);
    lemma_first_index_none(s, '<', 0);
    assert(s.subrange(q.len() as int, (q.len() + sep.len()) as int) =~= sep);
    lemma_last_occurrence_from_at(s, sep, s.len() - sep.len(), q.len() as int);
}

/// The last index at which `p` occurs in `cs`.
pub fn last_occurrence_exec(cs: &Vec<char>, p: &Vec<char>) -> (r: Option<usize>)
    ensures
        r is None <==> last_occurrence(cs@, p@) < 0,
        r matches Some(k) ==> k == last_occurrence(cs@, p@) && k + p.len() <= cs.len(),
{
    if p.len() > cs.len() {
        return None;
    }
    let ghost s = cs@;
    let ghost pp = p@;
    let mut k: usize = cs.len() - p.len();
    proof {
        lemma_last_occurrence_bounds(s, pp, s.len() - pp.len());
    }
    loop
        invariant
            k <= cs.len() - p.len(),
            p.len() <= cs.len(),
            last_occurrence(s, pp) == last_occurrence_from(s, pp, k as int),
            s == cs@,
            pp == p@,
        decreases k,
    {
        assert(s.skip(k as int).take(pp.len() as int) =~= s.subrange(k as int, k + pp.len()));
        if matches_at(cs, k, p) {
            return Some(k);
        }
        if k == 0 {
            assert(last_occurrence_from(s, pp, -1) == -1);
            return None;
        }
        k = k - 1;
    }
}

/// The simple name of a qualified, possibly generic type or path.
pub fn simple_type_name(text: &str, sep: &str) -> (r: String)
    ensures
        r@ == simple_name_of(text@, sep@),
{
    let cs = chars_of(text);
    let e = match first_index_of(&cs, '<') {
        Some(k) => k,
        None => cs.len(),
    };
    let head = slice_chars(&cs, 0, e);
    assert(head@ =~= cs@.take(e as int));
    assert(cs@.take(cs.len() as int) =~= cs@);
    let sp = chars_of(sep);
    let tail = match last_occurrence_exec(&head, &sp) {
        Some(k) => {
            if sp.len() > 0 {
                slice_chars(&head, k + sp.len(), head.len())
            } else {
                slice_chars(&head, 0, head.len())
            }
        },
        None => slice_chars(&head, 0, head.len()),
    };
    assert(head@.skip(0) =~= head@);
    assert(head@.subrange(0, head@.len() as int) =~= head@);
    let t = trim_chars(&tail);
    string_from_chars(t.as_slice())
}

/// Index of the first character at or after `i` that is not `c`.
pub open spec fn skip_char_from(s: Seq<char>, c: char, i: int) -> int
    decreases s.len() - i,
{
    if i < 0 || i >= s.len() {
        s.len() as int
    } else if s[i] == c {
        skip_char_from(s, c, i + 1)
    } else {
        i
    }
}

/// One past the last character before `j` (at least `lo`) that is not `c`.
pub open spec fn back_char_to(s: Seq<char>, c: char, lo: int, j: int) -> int
    decreases j - lo,
{
    if j <= lo || j > s.len() {
        if j > s.len() { s.len() as int } else { lo }
    } else if s[j - 1] == c {
        back_char_to(s, c, lo, j - 1)
    } else {
        j
    }
}

/// `s` without leading and trailing `c`s (`str::trim_matches(c)`).
pub open spec fn trim_char_spec(s: Seq<char>, c: char) -> Seq<char> {
    let a = skip_char_from(s, c, 0);
    let b = back_char_to(s, c, a, s.len() as int);
    s.subrange(a, b)
}

pub proof fn lemma_skip_char_bounds(s: Seq<char>, c: char, i: int)
    requires
        0 <= i <= s.len(),
    ensures
        i <= skip_char_from(s, c, i) <= s.len(),
    decreases s.len() - i,
{
    if i < s.len() && s[i] == c {
        lemma_skip_char_bounds(s, c, i + 1);
    }
}

pub proof fn lemma_back_char_bounds(s: Seq<char>, c: char, lo: int, j: int)
    requires
        0 <= lo <= j <= s.len(),
    ensures
        lo <= back_char_to(s, c, lo, j) <= j,
    decreases j - lo,
{
    if j > lo && s[j - 1] == c {
        lemma_back_char_bounds(s, c, lo, j - 1);
    }
}

/// `cs` without leading and trailing `c`s.
pub fn trim_char(cs: &Vec<char>, c: char) -> (r: Vec<char>)
    ensures
        r@ == trim_char_spec(cs@, c),
{
    proof {
        lemma_skip_char_bounds(cs@, c, 0);
    }
    let mut a: usize = 0;
    while a < cs.len() && cs[a] == c
        invariant
            a <= cs.len(),
            skip_char_from(cs@, c, 0) == skip_char_from(cs@, c, a as int),
        decreases cs.len() - a,
    {
        a = a + 1;
    }
    proof {
        lemma_back_char_bounds(cs@, c, a as int, cs.len() as int);
    }
    let mut b = cs.len();
    while b > a && cs[b - 1] == c
        invariant
            a <= b <= cs.len(),
            back_char_to(cs@, c, a as int, cs.len() as int) == back_char_to(cs@, c, a as int, b as int),
        decreases b - a,
    {
        b = b - 1;
    }
    slice_chars(cs, a, b)
}

/// The value of an ASCII decimal digit.
pub open spec fn digit_value(c: char) -> int {
    (c as int) - ('0' as int)
}

pub open spec fn is_digit(c: char) -> bool {
    '0' <= c && c <= '9'
}

/// The number a string of decimal digits spells.
pub open spec fn decimal_value(s: Seq<char>) -> int
    decreases s.len(),
{
    if s.len() == 0 {
        0
    } else {
        decimal_value(s.drop_last()) * 10 + digit_value(s.last())
    }
}

pub open spec fn all_digits(s: Seq<char>) -> bool {
    forall|i: int| 0 <= i < s.len() ==> is_digit(#[trigger] s[i])
}

/// What `str::parse` yields for an unsigned integer type whose largest value
/// is `max`: an optional `+`, then at least one decimal digit, the value not
/// above `max`.
pub open spec fn parse_unsigned(s: Seq<char>, max: int) -> Option<int> {
    let d = if s.len() > 0 && s[0] == '+' {
        s.skip(1)
    } else {
        s
    };
    if d.len() > 0 && all_digits(d) && decimal_value(d) <= max {
        Some(decimal_value(d))
    } else {
        None
    }
}

pub proof fn lemma_decimal_nonneg_monotone(s: Seq<char>, j: int)
    requires
        all_digits(s),
        0 <= j <= s.len(),
    ensures
        0 <= decimal_value(s.take(j)) <= decimal_value(s),
    decreases s.len(),
{
    if s.len() > 0 {
        assert(all_digits(s.drop_last()));
        if j == s.len() {
            assert(s.take(j) =~= s);
            lemma_decimal_nonneg_monotone(s.drop_last(), s.len() - 1);
            assert(s.drop_last().take(s.len() - 1) =~= s.drop_last());
        } else {
            lemma_decimal_nonneg_monotone(s.drop_last(), j);
            assert(s.drop_last().take(j) =~= s.take(j));
            lemma_decimal_nonneg_monotone(s.drop_last(), s.len() - 1);
            assert(s.drop_last().take(s.len() - 1) =~= s.drop_last());
            assert(is_digit(s.last()));
        }
    } else {
        assert(s.take(j) =~= s);
    }
}

/// `str::parse::<u64>`-style parsing with an upper bound `max`.
pub fn parse_unsigned_chars(cs: &Vec<char>, max: u64) -> (r: Option<u64>)
    ensures
        r matches Some(v) ==> parse_unsigned(cs@, max as int) == Some(v as int),
        r is None ==> parse_unsigned(cs@, max as int) is None,
{
    let start: usize = if cs.len() > 0 && cs[0] == '+' {
        1
    } else {
        0
    };
    let ghost d = if cs@.len() > 0 && cs@[0] == '+' {
        cs@.skip(1)
    } else {
        cs@
    };
    assert(d =~= cs@.skip(start as int));
    assert(parse_unsigned(cs@, max as int) == (if d.len() > 0 && all_digits(d) && decimal_value(d) <= max {
        Some(decimal_value(d))
    } else {
        None
    }));
    if start >= cs.len() {
        return None;
    }
    let mut acc: u64 = 0;
    let mut i: usize = start;
    while i < cs.len()
        invariant
            start <= i <= cs.len(),
            d == cs@.skip(start as int),
            parse_unsigned(cs@, max as int) == (if d.len() > 0 && all_digits(d) && decimal_value(d)
                <= max {
                Some(decimal_value(d))
            } else {
                None
            }),
            all_digits(d.take(i - start)),
            acc as int == decimal_value(d.take(i - start)),
            acc <= max,
        decreases cs.len() - i,
    {
        let c = cs[i];
        assert(d.take(i + 1 - start).drop_last() =~= d.take(i - start));
        if !('0' <= c && c <= '9') {
            assert(d[i - start] == cs@[i as int]);
            assert(!is_digit(d[i - start]));
            assert(!all_digits(d));
            return None;
        }
        let dv = (c as u64) - ('0' as u64);
        if dv > max || acc > (max - dv) / 10 {
            proof {
                if dv <= max {
                    assert(acc * 10 + dv > max) by (nonlinear_arith)
                        requires
                            acc > (max - dv) / 10,
                            dv <= max,
                    ;
                }
                assert(d[i - start] == cs@[i as int]);
                let x = d.take(i + 1 - start);
                assert(x.last() == d[i - start]);
                assert(decimal_value(x) == decimal_value(d.take(i - start)) * 10 + digit_value(c));
                assert(decimal_value(x) > max);
                assert(all_digits(d.take(i + 1 - start)));
                if all_digits(d) {
                    lemma_decimal_nonneg_monotone(d, i + 1 - start);
                }
            }
            return None;
        }
        proof {
            assert(acc * 10 + dv <= max) by (nonlinear_arith)
                requires
                    acc <= (max - dv) / 10,
            ;
        }
        acc = acc * 10 + dv;
        i = i + 1;
    }
    assert(d.take(cs.len() - start) =~= d);
    Some(acc)
}

/// Whether `c` has Unicode's `Uppercase` property (as `char::is_uppercase`
/// reports it).
pub uninterp spec fn char_is_uppercase(c: char) -> bool;

/// `char::is_uppercase`.
#[verifier::external_body]
pub(crate) fn is_uppercase(c: char) -> (r: bool)
    ensures
        r == char_is_uppercase(c),
{
    c.is_uppercase()
}

/// Whether `c` has Unicode's `Numeric` property (as `char::is_numeric`
/// reports it).
pub uninterp spec fn char_is_numeric(c: char) -> bool;

/// `char::is_numeric`.
#[verifier::external_body]
pub(crate) fn is_numeric(c: char) -> (r: bool)
    ensures
        r == char_is_numeric(c),
{
    c.is_numeric()
}

/// Whether some whitespace-separated token of `text` is `word`.
pub fn has_word(text: &String, word: &str) -> (r: bool)
    ensures
        r == ws_tokens(text@).contains(word@),
{
    let cs = chars_of(text.as_str());
    let toks = split_ws(&cs);
    let mut k: usize = 0;
    while k < toks.len()
        invariant
            k <= toks.len(),
            views(toks@) == ws_tokens(text@),
            cs@ == text@,
            forall|j: int| 0 <= j < k ==> views(toks@)[j] != word@,
        decreases toks.len() - k,
    {
        if chars_eq(&toks[k], word) {
            assert(views(toks@)[k as int] == word@);
            return true;
        }
        k = k + 1;
    }
    false
}

/// How many whitespace characters `s` starts with.
pub open spec fn leading_ws(s: Seq<char>) -> int
    decreases s.len(),
{
    if s.len() > 0 && is_ws(s[0]) {
        1 + leading_ws(s.skip(1))
    } else {
        0
    }
}

/// Whether `s`, after its leading whitespace, starts with `word`.
pub open spec fn starts_with_word_spec(s: Seq<char>, word: Seq<char>) -> bool {
    has_prefix(s.skip(leading_ws(s)), word)
}

/// Whether `text`, after leading whitespace, starts with `word`.
pub fn starts_with_word(text: &String, word: &str) -> (r: bool)
    ensures
        r == starts_with_word_spec(text@, word@),
{
    let cs = chars_of(text.as_str());
    let mut i: usize = 0;
    assert(cs@.skip(0) =~= cs@);
    while i < cs.len() && is_ws_exec(cs[i])
        invariant
            i <= cs.len(),
            cs@ == text@,
            leading_ws(text@) == i + leading_ws(cs@.skip(i as int)),
        decreases cs.len() - i,
    {
        assert(cs@.skip(i as int).skip(1) =~= cs@.skip(i + 1));
        i = i + 1;
    }
    assert(leading_ws(cs@.skip(i as int)) == 0);
    let w = chars_of(word);
    matches_at(&cs, i, &w)
}

/// Left-to-right whitespace split state: the completed tokens and the token
/// being read.
pub open spec fn ws_split_state(s: Seq<char>) -> (Seq<Seq<char>>, Seq<char>)
    decreases s.len(),
{
    if s.len() == 0 {
        (Seq::empty(), Seq::empty())
    } else {
        let (done, cur) = ws_split_state(s.drop_last());
        if is_ws(s.last()) {
            if cur.len() > 0 {
                (done.push(cur), Seq::empty())
            } else {
                (done, Seq::empty())
            }
        } else {
            (done, cur.push(s.last()))
        }
    }
}

/// The maximal runs of non-whitespace in `s`, as `str::split_whitespace`
/// yields them.
pub open spec fn ws_tokens(s: Seq<char>) -> Seq<Seq<char>> {
    let (done, cur) = ws_split_state(s);
    if cur.len() > 0 {
        done.push(cur)
    } else {
        done
    }
}

/// The whitespace-separated tokens of `cs`.
pub fn split_ws(cs: &Vec<char>) -> (r: Vec<Vec<char>>)
    ensures
        views(r@) == ws_tokens(cs@),
{
    let mut done: Vec<Vec<char>> = Vec::new();
    let mut cur: Vec<char> = Vec::new();
    let mut i: usize = 0;
    while i < cs.len()
        invariant
            i <= cs.len(),
            (views(done@), cur@) == ws_split_state(cs@.take(i as int)),
        decreases cs.len() - i,
    {
        assert(cs@.take(i + 1).drop_last() =~= cs@.take(i as int));
        let c = cs[i];
        if is_ws_exec(c) {
            if cur.len() > 0 {
                let ghost d = done@;
                proof { lemma_views_push(d, cur); }
                done.push(cur);
            }
            cur = Vec::new();
            assert(cur@ =~= Seq::<char>::empty());
        } else {
            cur.push(c);
        }
        i = i + 1;
    }
    assert(cs@.take(cs.len() as int) =~= cs@);
    if cur.len() > 0 {
        let ghost d = done@;
        proof { lemma_views_push(d, cur); }
        done.push(cur);
    }
    done
}

/// `s` without one trailing carriage return.
pub open spec fn strip_cr(s: Seq<char>) -> Seq<char> {
    if s.len() > 0 && s.last() == '\r' {
        s.drop_last()
    } else {
        s
    }
}

/// Left-to-right line split state: the completed lines (their `\n`, and a
/// `\r` before it, removed) and the line being read.
pub open spec fn lines_state(s: Seq<char>) -> (Seq<Seq<char>>, Seq<char>)
    decreases s.len(),
{
    if s.len() == 0 {
        (Seq::empty(), Seq::empty())
    } else {
        let (done, cur) = lines_state(s.drop_last());
        if s.last() == '\n' {
            (done.push(strip_cr(cur)), Seq::empty())
        } else {
            (done, cur.push(s.last()))
        }
    }
}

/// The lines of `s` as `str::lines` yields them: split after each `\n`, the
/// line ending (`\n` or `\r\n`) removed, and no empty last line after a
/// final line ending.
pub open spec fn lines_of(s: Seq<char>) -> Seq<Seq<char>> {
    let (done, cur) = lines_state(s);
    if cur.len() > 0 {
        done.push(cur)
    } else {
        done
    }
}

/// The lines of `cs`.
pub fn split_lines(cs: &Vec<char>) -> (r: Vec<Vec<char>>)
    ensures
        views(r@) == lines_of(cs@),
{
    let mut done: Vec<Vec<char>> = Vec::new();
    let mut cur: Vec<char> = Vec::new();
    let mut i: usize = 0;
    while i < cs.len()
        invariant
            i <= cs.len(),
            (views(done@), cur@) == lines_state(cs@.take(i as int)),
        decreases cs.len() - i,
    {
        assert(cs@.take(i + 1).drop_last() =~= cs@.take(i as int));
        let c = cs[i];
        if c == '\n' {
            let n = cur.len();
            if n > 0 && cur[n - 1] == '\r' {
                cur.pop();
            }
            let ghost d = done@;
            proof { lemma_views_push(d, cur); }
            done.push(cur);
            cur = Vec::new();
            assert(cur@ =~= Seq::<char>::empty());
        } else {
            cur.push(c);
        }
        i = i + 1;
    }
    assert(cs@.take(cs.len() as int) =~= cs@);
    if cur.len() > 0 {
        let ghost d = done@;
        proof { lemma_views_push(d, cur); }
        done.push(cur);
    }
    done
}

/// The ASCII digit of `d < 10`.
pub open spec fn digit_char(d: int) -> char {
    (('0' as int) + d) as char
}

/// The decimal spelling of `n`, as `{}` formats an unsigned integer.
pub open spec fn decimal_text(n: nat) -> Seq<char>
    decreases n,
{
    if n < 10 {
        seq![digit_char(n as int)]
    } else {
        decimal_text(n / 10) + seq![digit_char((n % 10) as int)]
    }
}

/// Append the decimal spelling of `n` to `out`.
pub fn push_decimal(out: &mut Vec<char>, n: usize)
    ensures
        final(out)@ == old(out)@ + decimal_text(n as nat),
    decreases n,
{
    if n >= 10 {
        push_decimal(out, n / 10);
    }
    let d = (n % 10) as u32;
    let c = char_of_digit(d);
    out.push(c);
    proof {
        if n < 10 {
            assert(n % 10 == n);
        }
    }
}

fn char_of_digit(d: u32) -> (c: char)
    requires
        d < 10,
    ensures
        c == digit_char(d as int),
{
    match d {
        0 => '0',
        1 => '1',
        2 => '2',
        3 => '3',
        4 => '4',
        5 => '5',
        6 => '6',
        7 => '7',
        8 => '8',
        _ => '9',
    }
}

/// Append the characters of `s` to `out`.
pub fn push_str_chars(out: &mut Vec<char>, s: &str)
    ensures
        final(out)@ == old(out)@ + s@,
{
    let cs = chars_of(s);
    let mut i: usize = 0;
    while i < cs.len()
        invariant
            i <= cs.len(),
            cs@ == s@,
            out@ == old(out)@ + cs@.take(i as int),
        decreases cs.len() - i,
    {
        out.push(cs[i]);
        assert(cs@.take(i + 1) =~= cs@.take(i as int).push(cs@[i as int]));
        i = i + 1;
    }
    assert(cs@.take(cs.len() as int) =~= cs@);
}

/// `a` sorts strictly before `b` in `String`'s order (code point by code
/// point, a proper prefix first).
pub open spec fn lex_lt(a: Seq<char>, b: Seq<char>) -> bool
    decreases a.len(),
{
    if a.len() == 0 {
        b.len() > 0
    } else if b.len() == 0 {
        false
    } else if a[0] != b[0] {
        a[0] < b[0]
    } else {
        lex_lt(a.skip(1), b.skip(1))
    }
}

pub proof fn lemma_lex_irreflexive(a: Seq<char>)
    ensures
        !lex_lt(a, a),
    decreases a.len(),
{
    if a.len() > 0 {
        lemma_lex_irreflexive(a.skip(1));
    }
}

pub proof fn lemma_lex_total(a: Seq<char>, b: Seq<char>)
    ensures
        a == b || lex_lt(a, b) || lex_lt(b, a),
    decreases a.len(),
{
    if a.len() == 0 && b.len() == 0 {
        assert(a =~= b);
    } else if a.len() > 0 && b.len() > 0 && a[0] == b[0] {
        lemma_lex_total(a.skip(1), b.skip(1));
        if a.skip(1) == b.skip(1) {
            assert(a =~= seq![a[0]] + a.skip(1));
            assert(b =~= seq![b[0]] + b.skip(1));
        }
    }
}

pub proof fn lemma_lex_transitive(a: Seq<char>, b: Seq<char>, c: Seq<char>)
    requires
        lex_lt(a, b),
        lex_lt(b, c),
    ensures
        lex_lt(a, c),
    decreases a.len(),
{
    if a.len() > 0 && b.len() > 0 && c.len() > 0 && a[0] == b[0] && b[0] == c[0] {
        lemma_lex_transitive(a.skip(1), b.skip(1), c.skip(1));
    }
}

/// Component lists `a` sorts strictly before `b`: compared component by
/// component in `String` order, a proper prefix first.
pub open spec fn segs_lt(a: Seq<Seq<char>>, b: Seq<Seq<char>>) -> bool
    decreases a.len(),
{
    if a.len() == 0 {
        b.len() > 0
    } else if b.len() == 0 {
        false
    } else if a[0] != b[0] {
        lex_lt(a[0], b[0])
    } else {
        segs_lt(a.skip(1), b.skip(1))
    }
}

/// Path `a` sorts strictly before path `b` the way `Path` orders relative
/// paths of plain components: by their `/`-separated components in turn.
pub open spec fn path_before(a: Seq<char>, b: Seq<char>) -> bool {
    segs_lt(segments(a, '/'), segments(b, '/'))
}

pub proof fn lemma_segs_irreflexive(a: Seq<Seq<char>>)
    ensures
        !segs_lt(a, a),
    decreases a.len(),
{
    if a.len() > 0 {
        lemma_segs_irreflexive(a.skip(1));
    }
}

pub proof fn lemma_segs_transitive(a: Seq<Seq<char>>, b: Seq<Seq<char>>, c: Seq<Seq<char>>)
    requires
        segs_lt(a, b),
        segs_lt(b, c),
    ensures
        segs_lt(a, c),
    decreases a.len(),
{
    if a.len() > 0 && b.len() > 0 && c.len() > 0 {
        if a[0] == b[0] && b[0] == c[0] {
            lemma_segs_transitive(a.skip(1), b.skip(1), c.skip(1));
        } else if a[0] == b[0] {
        } else if b[0] == c[0] {
        } else {
            lemma_lex_transitive(a[0], b[0], c[0]);
            if a[0] == c[0] {
                lemma_lex_transitive(a[0], b[0], a[0]);
                lemma_lex_irreflexive(a[0]);
            }
        }
    }
}

/// Whether component list `a` sorts strictly before `b`.
pub fn segs_lt_exec(a: &Vec<Vec<char>>, b: &Vec<Vec<char>>) -> (r: bool)
    ensures
        r == segs_lt(views(a@), views(b@)),
{
    let ghost va = views(a@);
    let ghost vb = views(b@);
    let mut i: usize = 0;
    assert(va.skip(0) =~= va && vb.skip(0) =~= vb);
    while i < a.len() && i < b.len()
        invariant
            i <= a.len(),
            i <= b.len(),
            va == views(a@),
            vb == views(b@),
            segs_lt(va, vb) == segs_lt(va.skip(i as int), vb.skip(i as int)),
        decreases a.len() - i,
    {
        assert(va.skip(i as int)[0] == a@[i as int]@);
        assert(vb.skip(i as int)[0] == b@[i as int]@);
        if chars_lt(&a[i], &b[i]) {
            proof {
                lemma_lex_irreflexive(a@[i as int]@);
            }
            return true;
        }
        if chars_lt(&b[i], &a[i]) {
            proof {
                lemma_lex_irreflexive(a@[i as int]@);
            }
            return false;
        }
        proof {
            lemma_lex_total(a@[i as int]@, b@[i as int]@);
        }
        assert(va.skip(i as int).skip(1) =~= va.skip(i + 1));
        assert(vb.skip(i as int).skip(1) =~= vb.skip(i + 1));
        i = i + 1;
    }
    i == a.len() && i < b.len()
}

/// Whether path `a` sorts strictly before path `b`, component by component.
pub fn path_lt(a: &str, b: &str) -> (r: bool)
    ensures
        r == path_before(a@, b@),
{
    let sa = split_nonempty(&chars_of(a), '/');
    let sb = split_nonempty(&chars_of(b), '/');
    segs_lt_exec(&sa, &sb)
}

/// Whether `a` sorts strictly before `b`.
pub fn chars_lt(a: &Vec<char>, b: &Vec<char>) -> (r: bool)
    ensures
        r == lex_lt(a@, b@),
{
    let mut i: usize = 0;
    assert(a@.skip(0) =~= a@ && b@.skip(0) =~= b@);
    while i < a.len() && i < b.len() && a[i] == b[i]
        invariant
            i <= a.len(),
            i <= b.len(),
            lex_lt(a@, b@) == lex_lt(a@.skip(i as int), b@.skip(i as int)),
        decreases a.len() - i,
    {
        assert(a@.skip(i as int).skip(1) =~= a@.skip(i + 1));
        assert(b@.skip(i as int).skip(1) =~= b@.skip(i + 1));
        i = i + 1;
    }
    if i == a.len() {
        i < b.len()
    } else if i == b.len() {
        false
    } else {
        a[i] < b[i]
    }
}

} // verus!
