//! Golden evaluation cases.
//!
//! A case is a set of source files (stored under their case-relative,
//! `/`-separated paths) plus, at the case root, an `expected.edges` manifest of
//! ground-truth ref→def edges and optionally an `oracle.edges` file of
//! role-agnostic location pairs. Each manifest line is
//! `<ref_file>:<ref_line> <ROLE> <def_file>:<def_line>` (oracle lines omit the
//! role); `#` starts a comment and blank lines are ignored.
//!
//! Walking the corpus directory is left to the caller, who hands each case's
//! files over as a [`CaseSource`]; what is read here is parsed and checked.

use vstd::prelude::*;
use crate::graph::RefRole;
use crate::eval::score::{ExpectedEdge, LocKey};
use crate::text::{first_index_spec, first_index_of, lemma_first_index_bounds};
use crate::text::{is_ws, strip_cr, all_digits, is_digit, digit_value, digit_char, decimal_value, ws_split_state, lines_state, skip_ws_from, trim_back_to, chars_of, chars_eq, slice_chars, string_from_chars, trim, trim_chars, ws_tokens, split_ws, lines_of, split_lines, views, last_index_spec, last_index_of, parse_unsigned, parse_unsigned_chars, decimal_text, push_decimal, push_str_chars, lex_lt, chars_lt, path_before, path_lt, segments, lemma_segs_transitive, lemma_segs_irreflexive, str_eq, lemma_lex_irreflexive, lemma_lex_transitive};

verus! {

/// One evaluation case: its source files and the ground truth they should
/// resolve to.
#[derive(Debug, Clone)]
pub struct Case {
    /// Language directory the case lives under.
    pub lang: String,
    /// Case directory name.
    pub name: String,
    /// `(case_relative_path, source)` for every source file of the case.
    pub files: Vec<(String, String)>,
    /// Ground-truth located, role-typed ref→def edges.
    pub expected: Vec<ExpectedEdge>,
    /// Oracle location pairs `(ref_file, ref_line, def_file, def_line)`;
    /// empty when the case has no `oracle.edges`.
    pub oracle: Vec<(String, u32, String, u32)>,
}

/// The files of one case directory as read from disk: its source files in
/// path order, and the texts of its root control files where present.
pub struct CaseSource {
    pub lang: String,
    pub name: String,
    pub files: Vec<(String, String)>,
    pub expected_text: Option<String>,
    pub oracle_text: Option<String>,
}

/// What a file of a case directory is, by its case-relative path.
#[derive(Debug, Clone, Copy, PartialEq, Eq, Structural)]
pub enum CaseEntry {
    /// A source file of the case.
    Source,
    /// The root `expected.edges` manifest.
    Expected,
    /// The root `oracle.edges` file.
    Oracle,
    /// A root control file that is not read (`index.scip`).
    Ignored,
}

pub open spec fn is_control(rel: Seq<char>, name: Seq<char>) -> bool {
    !rel.contains('/') && rel == name
}

/// How a case-relative path is treated; control files are recognised only at
/// the case root.
pub open spec fn entry_kind(rel: Seq<char>) -> CaseEntry {
    if is_control(rel, seq!['i', 'n', 'd', 'e', 'x', '.', 's', 'c', 'i', 'p']) {
        CaseEntry::Ignored
    } else if is_control(rel, seq!['o', 'r', 'a', 'c', 'l', 'e', '.', 'e', 'd', 'g', 'e', 's']) {
        CaseEntry::Oracle
    } else if is_control(rel, seq!['e', 'x', 'p', 'e', 'c', 't', 'e', 'd', '.', 'e', 'd', 'g', 'e', 's']) {
        CaseEntry::Expected
    } else {
        CaseEntry::Source
    }
}

/// Classify a file of a case directory by its case-relative path.
pub fn classify_entry(rel: &str) -> (r: CaseEntry)
    ensures
        r == entry_kind(rel@),
{
    let cs = chars_of(rel);
    let nested = crate::text::contains_char(&cs, '/');
    proof {
        reveal_strlit("index.scip");
        reveal_strlit("oracle.edges");
        reveal_strlit("expected.edges");
        assert("index.scip"@ =~= seq!['i', 'n', 'd', 'e', 'x', '.', 's', 'c', 'i', 'p']);
        assert("oracle.edges"@ =~= seq!['o', 'r', 'a', 'c', 'l', 'e', '.', 'e', 'd', 'g', 'e', 's']);
        assert("expected.edges"@ =~= seq!['e', 'x', 'p', 'e', 'c', 't', 'e', 'd', '.', 'e', 'd', 'g', 'e', 's']);
    }
    if !nested && chars_eq(&cs, "index.scip") {
        CaseEntry::Ignored
    } else if !nested && chars_eq(&cs, "oracle.edges") {
        CaseEntry::Oracle
    } else if !nested && chars_eq(&cs, "expected.edges") {
        CaseEntry::Expected
    } else {
        CaseEntry::Source
    }
}

/// `s` up to its first `#`.
pub open spec fn before_hash(s: Seq<char>) -> Seq<char> {
    let k = first_index_spec(s, '#', 0);
    if k < 0 {
        s
    } else {
        s.take(k)
    }
}

/// The content of a manifest line: comment cut, whitespace trimmed.
pub open spec fn content_of(raw: Seq<char>) -> Seq<char> {
    trim(before_hash(raw))
}

/// A `file:line` location: split at the last `:`, the file non-empty, the
/// line a `u32`.
pub open spec fn loc_spec(s: Seq<char>) -> Option<(Seq<char>, u32)> {
    let k = last_index_spec(s, ':');
    if k <= 0 {
        None
    } else {
        match parse_unsigned(s.skip(k + 1), u32::MAX as int) {
            Some(v) => Some((s.take(k), v as u32)),
            None => None,
        }
    }
}

/// The role a manifest names by its variant name.
pub open spec fn role_spec(s: Seq<char>) -> Option<RefRole> {
    if s == seq!['C', 'a', 'l', 'l'] {
        Some(RefRole::Call)
    } else if s == seq!['I', 's', 'I', 'm', 'p', 'l', 'e', 'm', 'e', 'n', 't', 'a', 't', 'i', 'o', 'n'] {
        Some(RefRole::IsImplementation)
    } else if s == seq!['I', 'm', 'p', 'o', 'r', 't'] {
        Some(RefRole::Import)
    } else if s == seq!['T', 'y', 'p', 'e', 'R', 'e', 'f'] {
        Some(RefRole::TypeRef)
    } else if s == seq!['R', 'e', 'a', 'd'] {
        Some(RefRole::Read)
    } else if s == seq!['W', 'r', 'i', 't', 'e'] {
        Some(RefRole::Write)
    } else {
        None
    }
}

/// A manifest line: exactly a location, a role and a location. An oracle
/// line (`oracle`) is exactly two locations and carries no role.
pub open spec fn line_key(line: Seq<char>, oracle: bool) -> Option<LocKey> {
    let t = ws_tokens(line);
    if oracle {
        if t.len() != 2 {
            None
        } else {
            match (loc_spec(t[0]), loc_spec(t[1])) {
                (Some((rf, rl)), Some((df, dl))) => Some(
                    LocKey { ref_file: rf, ref_line: rl, role: None, def_file: df, def_line: dl },
                ),
                _ => None,
            }
        }
    } else {
        if t.len() != 3 {
            None
        } else {
            match (loc_spec(t[0]), role_spec(t[1]), loc_spec(t[2])) {
                (Some((rf, rl)), Some(role), Some((df, dl))) => Some(
                    LocKey { ref_file: rf, ref_line: rl, role: Some(role), def_file: df, def_line: dl },
                ),
                _ => None,
            }
        }
    }
}

/// `line <n>: bad edge `<raw>`` (or `bad oracle edge` for an oracle line).
pub open spec fn bad_line(n: nat, raw: Seq<char>, oracle: bool) -> Seq<char> {
    seq!['l', 'i', 'n', 'e', ' '] + decimal_text(n) + seq![':', ' ', 'b', 'a', 'd', ' ']
        + (if oracle { seq!['o', 'r', 'a', 'c', 'l', 'e', ' '] } else { Seq::empty() })
        + seq!['e', 'd', 'g', 'e', ' ', '`'] + raw + seq!['`']
}

/// The edges of the first `n` lines, or the message for the first line among
/// them that is neither blank nor an edge.
pub open spec fn scan_lines(lines: Seq<Seq<char>>, n: int, oracle: bool) -> Result<Seq<LocKey>, Seq<char>>
    decreases n,
{
    if n <= 0 {
        Ok(Seq::empty())
    } else {
        match scan_lines(lines, n - 1, oracle) {
            Err(m) => Err(m),
            Ok(v) => {
                let line = content_of(lines[n - 1]);
                if line.len() == 0 {
                    Ok(v)
                } else {
                    match line_key(line, oracle) {
                        Some(k) => Ok(v.push(k)),
                        None => Err(bad_line(n as nat, lines[n - 1], oracle)),
                    }
                }
            },
        }
    }
}

/// What a manifest text parses to.
pub open spec fn parse_spec(text: Seq<char>, oracle: bool) -> Result<Seq<LocKey>, Seq<char>> {
    scan_lines(lines_of(text), lines_of(text).len() as int, oracle)
}

/// An oracle pair as a located key.
pub open spec fn pair_key(p: (String, u32, String, u32)) -> LocKey {
    LocKey { ref_file: p.0@, ref_line: p.1, role: None, def_file: p.2@, def_line: p.3 }
}

pub open spec fn edge_keys(v: Seq<ExpectedEdge>) -> Seq<LocKey> {
    Seq::new(v.len(), |i: int| v[i].key())
}

pub open spec fn pair_keys(v: Seq<(String, u32, String, u32)>) -> Seq<LocKey> {
    Seq::new(v.len(), |i: int| pair_key(v[i]))
}

fn before_hash_chars(cs: &Vec<char>) -> (r: Vec<char>)
    ensures
        r@ == before_hash(cs@),
{
    proof {
        lemma_first_index_bounds(cs@, '#', 0);
    }
    match first_index_of(cs, '#') {
        Some(k) => {
            let r = slice_chars(cs, 0, k);
            assert(r@ =~= cs@.take(k as int));
            r
        },
        None => slice_chars(cs, 0, cs.len()),
    }
}

/// Split a `file:line` location at its last `:`.
fn parse_loc(s: &Vec<char>) -> (r: Option<(String, u32)>)
    ensures
        match (r, loc_spec(s@)) {
            (Some((f, l)), Some((f2, l2))) => f@ == f2 && l == l2,
            (None, None) => true,
            _ => false,
        },
{
    proof {
        crate::text::lemma_last_index_bounds(s@, ':');
    }
    let k = match last_index_of(s, ':') {
        Some(k) => k,
        None => {
            return None;
        },
    };
    assert(k < s.len());
    if k == 0 {
        return None;
    }
    let digits = slice_chars(s, k + 1, s.len());
    assert(digits@ =~= s@.skip(k + 1));
    match parse_unsigned_chars(&digits, u32::MAX as u64) {
        Some(v) => {
            let file = slice_chars(s, 0, k);
            assert(file@ =~= s@.take(k as int));
            Some((string_from_chars(file.as_slice()), v as u32))
        },
        None => None,
    }
}

/// The role named by `s`.
fn parse_role(s: &Vec<char>) -> (r: Option<RefRole>)
    ensures
        r == role_spec(s@),
{
    proof {
        reveal_strlit("Call");
        reveal_strlit("IsImplementation");
        reveal_strlit("Import");
        reveal_strlit("TypeRef");
        reveal_strlit("Read");
        reveal_strlit("Write");
        assert("Call"@ =~= seq!['C', 'a', 'l', 'l']);
        assert("IsImplementation"@ =~= seq!['I', 's', 'I', 'm', 'p', 'l', 'e', 'm', 'e', 'n', 't', 'a', 't', 'i', 'o', 'n']);
        assert("Import"@ =~= seq!['I', 'm', 'p', 'o', 'r', 't']);
        assert("TypeRef"@ =~= seq!['T', 'y', 'p', 'e', 'R', 'e', 'f']);
        assert("Read"@ =~= seq!['R', 'e', 'a', 'd']);
        assert("Write"@ =~= seq!['W', 'r', 'i', 't', 'e']);
    }
    if chars_eq(s, "Call") {
        Some(RefRole::Call)
    } else if chars_eq(s, "IsImplementation") {
        Some(RefRole::IsImplementation)
    } else if chars_eq(s, "Import") {
        Some(RefRole::Import)
    } else if chars_eq(s, "TypeRef") {
        Some(RefRole::TypeRef)
    } else if chars_eq(s, "Read") {
        Some(RefRole::Read)
    } else if chars_eq(s, "Write") {
        Some(RefRole::Write)
    } else {
        None
    }
}

/// One `expected.edges` line: location, role, location.
fn parse_edge_line(line: &Vec<char>) -> (r: Option<ExpectedEdge>)
    ensures
        match (r, line_key(line@, false)) {
            (Some(e), Some(k)) => e.key() == k,
            (None, None) => true,
            _ => false,
        },
{
    let t = split_ws(line);
    assert(t@.len() == ws_tokens(line@).len());
    if t.len() != 3 {
        return None;
    }
    assert(t@[0]@ == ws_tokens(line@)[0] && t@[1]@ == ws_tokens(line@)[1] && t@[2]@ == ws_tokens(line@)[2]);
    let a = parse_loc(&t[0]);
    let role = parse_role(&t[1]);
    let b = parse_loc(&t[2]);
    match (a, role, b) {
        (Some((ref_file, ref_line)), Some(role), Some((def_file, def_line))) => Some(
            ExpectedEdge { ref_file, ref_line, role, def_file, def_line },
        ),
        _ => None,
    }
}

/// One `oracle.edges` line: two locations.
fn parse_oracle_line(line: &Vec<char>) -> (r: Option<(String, u32, String, u32)>)
    ensures
        match (r, line_key(line@, true)) {
            (Some(p), Some(k)) => pair_key(p) == k,
            (None, None) => true,
            _ => false,
        },
{
    let t = split_ws(line);
    assert(t@.len() == ws_tokens(line@).len());
    if t.len() != 2 {
        return None;
    }
    assert(t@[0]@ == ws_tokens(line@)[0] && t@[1]@ == ws_tokens(line@)[1]);
    let a = parse_loc(&t[0]);
    let b = parse_loc(&t[1]);
    match (a, b) {
        (Some((rf, rl)), Some((df, dl))) => Some((rf, rl, df, dl)),
        _ => None,
    }
}

/// The message for a bad line `n` whose text is `raw`.
fn bad_line_message(n: usize, raw: &Vec<char>, oracle: bool) -> (r: String)
    ensures
        r@ == bad_line(n as nat, raw@, oracle),
{
    let mut out: Vec<char> = Vec::new();
    push_str_chars(&mut out, "line ");
    push_decimal(&mut out, n);
    if oracle {
        push_str_chars(&mut out, ": bad oracle edge `");
    } else {
        push_str_chars(&mut out, ": bad edge `");
    }
    let mut i: usize = 0;
    let ghost start = out@;
    while i < raw.len()
        invariant
            i <= raw.len(),
            out@ == start + raw@.take(i as int),
        decreases raw.len() - i,
    {
        out.push(raw[i]);
        assert(raw@.take(i + 1) =~= raw@.take(i as int).push(raw@[i as int]));
        i = i + 1;
    }
    assert(raw@.take(raw.len() as int) =~= raw@);
    out.push('`');
    proof {
        reveal_strlit("line ");
        reveal_strlit(": bad oracle edge `");
        reveal_strlit(": bad edge `");
        assert(out@ =~= bad_line(n as nat, raw@, oracle));
    }
    string_from_chars(out.as_slice())
}

/// Parse an `expected.edges` manifest: one located, role-typed edge per
/// non-blank line; the first bad line is an error naming its 1-based number
/// and text.
pub fn parse_expected(text: &str) -> (r: core::result::Result<Vec<ExpectedEdge>, String>)
    ensures
        match (r, parse_spec(text@, false)) {
            (Ok(v), Ok(ks)) => edge_keys(v@) == ks,
            (Err(m), Err(m2)) => m@ == m2,
            _ => false,
        },
{
    let cs = chars_of(text);
    let lines = split_lines(&cs);
    let ghost ls = lines_of(text@);
    let mut out: Vec<ExpectedEdge> = Vec::new();
    let mut i: usize = 0;
    assert(edge_keys(out@) =~= Seq::<LocKey>::empty());
    while i < lines.len()
        invariant
            i <= lines.len(),
            views(lines@) == ls,
            ls == lines_of(text@),
            scan_lines(ls, i as int, false) == Ok::<Seq<LocKey>, Seq<char>>(edge_keys(out@)),
        decreases lines.len() - i,
    {
        assert(lines@[i as int]@ == ls[i as int]);
        let b = before_hash_chars(&lines[i]);
        let line = trim_chars(&b);
        let ghost before = edge_keys(out@);
        assert(line@ == content_of(ls[i as int]));
        if line.len() > 0 {
            match parse_edge_line(&line) {
                Some(e) => {
                    out.push(e);
                    assert(edge_keys(out@) =~= before.push(e.key()));
                    assert(scan_lines(ls, i + 1, false) == Ok::<Seq<LocKey>, Seq<char>>(before.push(e.key())));
                },
                None => {
                    if i == usize::MAX {
                        return Err(String::new());
                    }
                    let m = bad_line_message(i + 1, &lines[i], false);
                    proof {
                        lemma_scan_err_persists(ls, i + 1, ls.len() as int, false);
                    }
                    return Err(m);
                },
            }
        }
        i = i + 1;
    }
    assert(ls.len() == lines.len());
    Ok(out)
}

/// Once a prefix of the lines is an error, every longer prefix is that same
/// error.
proof fn lemma_scan_err_persists(lines: Seq<Seq<char>>, n: int, m: int, oracle: bool)
    requires
        n <= m,
        scan_lines(lines, n, oracle) is Err,
    ensures
        scan_lines(lines, m, oracle) == scan_lines(lines, n, oracle),
    decreases m - n,
{
    if n < m {
        lemma_scan_err_persists(lines, n, m - 1, oracle);
    }
}

/// Parse an `oracle.edges` file: one location pair per non-blank line; the
/// first bad line is an error naming its 1-based number and text.
pub fn parse_oracle(text: &str) -> (r: core::result::Result<Vec<(String, u32, String, u32)>, String>)
    ensures
        match (r, parse_spec(text@, true)) {
            (Ok(v), Ok(ks)) => pair_keys(v@) == ks,
            (Err(m), Err(m2)) => m@ == m2,
            _ => false,
        },
{
    let cs = chars_of(text);
    let lines = split_lines(&cs);
    let ghost ls = lines_of(text@);
    let mut out: Vec<(String, u32, String, u32)> = Vec::new();
    let mut i: usize = 0;
    assert(pair_keys(out@) =~= Seq::<LocKey>::empty());
    while i < lines.len()
        invariant
            i <= lines.len(),
            views(lines@) == ls,
            ls == lines_of(text@),
            scan_lines(ls, i as int, true) == Ok::<Seq<LocKey>, Seq<char>>(pair_keys(out@)),
        decreases lines.len() - i,
    {
        assert(lines@[i as int]@ == ls[i as int]);
        let b = before_hash_chars(&lines[i]);
        let line = trim_chars(&b);
        let ghost before = pair_keys(out@);
        assert(line@ == content_of(ls[i as int]));
        if line.len() > 0 {
            match parse_oracle_line(&line) {
                Some(p) => {
                    let ghost k = pair_key(p);
                    out.push(p);
                    assert(pair_keys(out@) =~= before.push(k));
                    assert(scan_lines(ls, i + 1, true) == Ok::<Seq<LocKey>, Seq<char>>(before.push(k)));
                },
                None => {
                    if i == usize::MAX {
                        return Err(String::new());
                    }
                    let m = bad_line_message(i + 1, &lines[i], true);
                    proof {
                        lemma_scan_err_persists(ls, i + 1, ls.len() as int, true);
                    }
                    return Err(m);
                },
            }
        }
        i = i + 1;
    }
    assert(ls.len() == lines.len());
    Ok(out)
}

/// `<lang>/<name>/<file>: <msg>`, the message for a bad control file.
pub open spec fn case_error(lang: Seq<char>, name: Seq<char>, file: Seq<char>, msg: Seq<char>) -> Seq<char> {
    lang + seq!['/'] + name + seq!['/'] + file + seq![':', ' '] + msg
}

fn case_error_message(lang: &String, name: &String, file: &str, msg: &String) -> (r: String)
    ensures
        r@ == case_error(lang@, name@, file@, msg@),
{
    let mut out: Vec<char> = Vec::new();
    push_str_chars(&mut out, lang.as_str());
    out.push('/');
    push_str_chars(&mut out, name.as_str());
    out.push('/');
    push_str_chars(&mut out, file);
    push_str_chars(&mut out, ": ");
    push_str_chars(&mut out, msg.as_str());
    proof {
        reveal_strlit(": ");
        assert(out@ =~= case_error(lang@, name@, file@, msg@));
    }
    string_from_chars(out.as_slice())
}

/// What an optional control file contributes: nothing when absent.
pub open spec fn control_spec(text: Option<String>, oracle: bool) -> Result<Seq<LocKey>, Seq<char>> {
    match text {
        Some(t) => parse_spec(t@, oracle),
        None => Ok(Seq::empty()),
    }
}

/// The message `load_case` fails with on `src`, if it fails: a bad
/// `expected.edges` first, then a bad `oracle.edges`, each prefixed with
/// `<lang>/<name>/<file>: `.
pub open spec fn load_failure(src: CaseSource) -> Option<Seq<char>> {
    match control_spec(src.expected_text, false) {
        Err(e) => Some(case_error(src.lang@, src.name@, "expected.edges"@, e)),
        Ok(_) => match control_spec(src.oracle_text, true) {
            Err(e) => Some(case_error(src.lang@, src.name@, "oracle.edges"@, e)),
            Ok(_) => None,
        },
    }
}

/// Build a case from its files: the manifests are parsed, the sources put
/// in path order. A bad `expected.edges` is reported before a bad
/// `oracle.edges`, each prefixed with `<lang>/<name>/<file>: `.
pub fn load_case(src: CaseSource) -> (r: core::result::Result<Case, String>)
    ensures
        case_loaded(src, r),
{
    let expected = match &src.expected_text {
        Some(t) => match parse_expected(t.as_str()) {
            Ok(v) => v,
            Err(msg) => {
                return Err(case_error_message(&src.lang, &src.name, "expected.edges", &msg));
            },
        },
        None => {
            let v: Vec<ExpectedEdge> = Vec::new();
            assert(edge_keys(v@) =~= Seq::<LocKey>::empty());
            v
        },
    };
    let oracle = match &src.oracle_text {
        Some(t) => match parse_oracle(t.as_str()) {
            Ok(v) => v,
            Err(msg) => {
                return Err(case_error_message(&src.lang, &src.name, "oracle.edges", &msg));
            },
        },
        None => {
            let v: Vec<(String, u32, String, u32)> = Vec::new();
            assert(pair_keys(v@) =~= Seq::<LocKey>::empty());
            v
        },
    };
    let files = sort_files(src.files);
    Ok(Case { lang: src.lang, name: src.name, files, expected, oracle })
}

/// What `load_case` makes of `src`: a case exactly when both manifests
/// parse, with the language and name of `src`, its files in path order, and
/// the manifests' edges; else the message `load_failure` gives.
pub open spec fn case_loaded(src: CaseSource, r: core::result::Result<Case, String>) -> bool {
    &&& (r is Ok <==> load_failure(src) is None)
    &&& (r matches Err(m) ==> load_failure(src) == Some(m@))
    &&& (r matches Ok(c) ==> {
        &&& c.lang@ == src.lang@
        &&& c.name@ == src.name@
        &&& files_sorted(c.files@)
        &&& c.files@.to_multiset() == src.files@.to_multiset()
        &&& control_spec(src.expected_text, false) == Ok::<Seq<LocKey>, Seq<char>>(edge_keys(c.expected@))
        &&& control_spec(src.oracle_text, true) == Ok::<Seq<LocKey>, Seq<char>>(pair_keys(c.oracle@))
    })
}

/// What loading the case sources `order`, in that order, gives: every case
/// when none fails, else the message of the first that fails.
pub open spec fn corpus_loaded(order: Seq<CaseSource>, r: core::result::Result<Vec<Case>, String>) -> bool {
    &&& (r is Ok <==> forall|i: int| 0 <= i < order.len() ==> load_failure(#[trigger] order[i]) is None)
    &&& (r matches Ok(cases) ==> cases.len() == order.len() && forall|i: int|
        0 <= i < order.len() ==> case_loaded(#[trigger] order[i], Ok(cases@[i])))
    &&& (r matches Err(m) ==> exists|k: int|
        0 <= k < order.len() && (forall|i: int| 0 <= i < k ==> load_failure(#[trigger] order[i]) is None)
            && #[trigger] load_failure(order[k]) == Some(m@))
}

/// Build every case, sorted by language, then case name; the first case (in
/// that order) that fails to load is the error.
pub fn load_corpus(sources: Vec<CaseSource>) -> (r: core::result::Result<Vec<Case>, String>)
    ensures
        exists|order: Seq<CaseSource>|
            #![trigger corpus_loaded(order, r)]
            sources_sorted(order) && order.to_multiset() == sources@.to_multiset() && corpus_loaded(order, r),
{
    let ghost given = sources@;
    let sorted = sort_sources(sources);
    let ghost order = sorted@;
    let mut cases: Vec<Case> = Vec::new();
    let mut rest = sorted;
    let ghost all = rest@;
    let mut k: usize = 0;
    assert(all.len() == rest.len());
    assert(rest@ =~= all.subrange(0, all.len() as int));
    while rest.len() > 0
        invariant
            k + rest.len() == all.len(),
            all.len() <= usize::MAX,
            all == order,
            given == sources@,
            sources_sorted(order),
            order.to_multiset() == given.to_multiset(),
            cases.len() == k,
            rest@ =~= all.subrange(k as int, all.len() as int),
            forall|i: int| 0 <= i < k ==> case_loaded(#[trigger] all[i], Ok(cases@[i])),
            forall|i: int| 0 <= i < k ==> load_failure(#[trigger] all[i]) is None,
        decreases rest.len(),
    {
        let src = rest.remove(0);
        assert(src == all[k as int]);
        match load_case(src) {
            Ok(c) => {
                cases.push(c);
            },
            Err(m) => {
                let r: core::result::Result<Vec<Case>, String> = Err(m);
                assert(corpus_loaded(order, r)) by {
                    assert(load_failure(order[k as int]) == Some(m@));
                    assert(!(forall|i: int| 0 <= i < order.len() ==> load_failure(#[trigger] order[i]) is None));
                }
                return r;
            },
        }
        k = k + 1;
        assert(rest@ =~= all.subrange(k as int, all.len() as int));
    }
    let r: core::result::Result<Vec<Case>, String> = Ok(cases);
    assert(corpus_loaded(order, r));
    r
}

/// `s` is in path order: no file's path sorts before an earlier one's.
pub open spec fn files_sorted(s: Seq<(String, String)>) -> bool {
    forall|i: int, j: int| 0 <= i < j < s.len() ==> !path_before((#[trigger] s[j]).0@, (#[trigger] s[i]).0@)
}

/// Whether name `a` sorts strictly before name `b`, character by character.
fn name_lt(a: &String, b: &String) -> (r: bool)
    ensures
        r == lex_lt(a@, b@),
{
    let ca = chars_of(a.as_str());
    let cb = chars_of(b.as_str());
    chars_lt(&ca, &cb)
}

/// `files` in path order (equal paths keep their order).
fn sort_files(files: Vec<(String, String)>) -> (r: Vec<(String, String)>)
    ensures
        files_sorted(r@),
        r@.to_multiset() == files@.to_multiset(),
{
    let ghost all = files@;
    let mut rest = files;
    assert(all.len() == rest.len());
    let mut out: Vec<(String, String)> = Vec::new();
    let mut k: usize = 0;
    assert(all.take(0) =~= Seq::<(String, String)>::empty());
    while rest.len() > 0
        invariant
            k + rest.len() == all.len(),
            all.len() <= usize::MAX,
            rest@ == all.skip(k as int),
            files_sorted(out@),
            out@.to_multiset() == all.take(k as int).to_multiset(),
        decreases rest.len(),
    {
        let x = rest.remove(0);
        assert(x == all[k as int]);
        assert(rest@ =~= all.skip(k + 1));
        let mut i: usize = 0;
        while i < out.len() && !path_lt(x.0.as_str(), out[i].0.as_str())
            invariant
                i <= out.len(),
                forall|j: int| 0 <= j < i ==> !path_before(x.0@, (#[trigger] out@[j]).0@),
            decreases out.len() - i,
        {
            i = i + 1;
        }
        let ghost before = out@;
        out.insert(i, x);
        proof {
            let nv = out@;
            assert(nv =~= before.insert(i as int, x));
            assert forall|a: int, b: int| 0 <= a < b < nv.len() implies !path_before((#[trigger] nv[b]).0@, (#[trigger] nv[a]).0@) by {
                if b < i {
                    assert(nv[a] == before[a] && nv[b] == before[b]);
                } else if b == i {
                    assert(nv[a] == before[a]);
                } else if a < i {
                    assert(nv[a] == before[a] && nv[b] == before[b - 1]);
                } else if a == i {
                    assert(nv[b] == before[b - 1]);
                    assert(path_before(x.0@, before[i as int].0@));
                    if path_before(before[b - 1].0@, x.0@) {
                        lemma_segs_transitive(
                            segments(before[b - 1].0@, '/'),
                            segments(x.0@, '/'),
                            segments(before[i as int].0@, '/'),
                        );
                        if b - 1 == i {
                            lemma_segs_irreflexive(segments(before[i as int].0@, '/'));
                        }
                    }
                } else {
                    assert(nv[a] == before[a - 1] && nv[b] == before[b - 1]);
                }
            }
            assert(all.take(k + 1) =~= all.take(k as int).push(x));
            vstd::seq_lib::to_multiset_insert(before, i as int, x);
            vstd::seq_lib::to_multiset_build(all.take(k as int), x);
        }
        k = k + 1;
    }
    assert(all.take(k as int) =~= all);
    out
}

/// `s` is in name order: no name sorts before an earlier one.
pub open spec fn names_sorted(s: Seq<String>) -> bool {
    forall|i: int, j: int| 0 <= i < j < s.len() ==> !lex_lt((#[trigger] s[j])@, (#[trigger] s[i])@)
}

/// `items` in name order, character by character (equal names keep their
/// order): the order in which language and case directories are read.
pub fn sort_names(items: Vec<String>) -> (r: Vec<String>)
    ensures
        names_sorted(r@),
        r@.to_multiset() == items@.to_multiset(),
{
    let ghost all = items@;
    let mut rest = items;
    assert(all.len() == rest.len());
    let mut out: Vec<String> = Vec::new();
    let mut k: usize = 0;
    assert(all.take(0) =~= Seq::<String>::empty());
    while rest.len() > 0
        invariant
            k + rest.len() == all.len(),
            all.len() <= usize::MAX,
            rest@ == all.skip(k as int),
            names_sorted(out@),
            out@.to_multiset() == all.take(k as int).to_multiset(),
        decreases rest.len(),
    {
        let x = rest.remove(0);
        assert(x == all[k as int]);
        assert(rest@ =~= all.skip(k + 1));
        let mut i: usize = 0;
        while i < out.len() && !name_lt(&x, &out[i])
            invariant
                i <= out.len(),
                forall|j: int| 0 <= j < i ==> !lex_lt(x@, (#[trigger] out@[j])@),
            decreases out.len() - i,
        {
            i = i + 1;
        }
        let ghost before = out@;
        out.insert(i, x);
        proof {
            let nv = out@;
            assert(nv =~= before.insert(i as int, x));
            assert forall|a: int, b: int| 0 <= a < b < nv.len() implies !lex_lt((#[trigger] nv[b])@, (#[trigger] nv[a])@) by {
                if b < i {
                    assert(nv[a] == before[a] && nv[b] == before[b]);
                } else if b == i {
                    assert(nv[a] == before[a]);
                } else if a < i {
                    assert(nv[a] == before[a] && nv[b] == before[b - 1]);
                } else if a == i {
                    assert(nv[b] == before[b - 1]);
                    assert(lex_lt(x@, before[i as int]@));
                    if lex_lt(before[b - 1]@, x@) {
                        lemma_lex_transitive(before[b - 1]@, x@, before[i as int]@);
                        if b - 1 == i {
                            lemma_lex_irreflexive(before[i as int]@);
                        }
                    }
                } else {
                    assert(nv[a] == before[a - 1] && nv[b] == before[b - 1]);
                }
            }
            assert(all.take(k + 1) =~= all.take(k as int).push(x));
            vstd::seq_lib::to_multiset_insert(before, i as int, x);
            vstd::seq_lib::to_multiset_build(all.take(k as int), x);
        }
        k = k + 1;
    }
    assert(all.take(k as int) =~= all);
    out
}

/// `s` is in path order: no path sorts before an earlier one.
pub open spec fn paths_sorted(s: Seq<String>) -> bool {
    forall|i: int, j: int| 0 <= i < j < s.len() ==> !path_before((#[trigger] s[j])@, (#[trigger] s[i])@)
}

/// `items` in path order, component by component (equal paths keep their
/// order): the order in which a case's files are read.
pub fn sort_paths(items: Vec<String>) -> (r: Vec<String>)
    ensures
        paths_sorted(r@),
        r@.to_multiset() == items@.to_multiset(),
{
    let ghost all = items@;
    let mut rest = items;
    assert(all.len() == rest.len());
    let mut out: Vec<String> = Vec::new();
    let mut k: usize = 0;
    assert(all.take(0) =~= Seq::<String>::empty());
    while rest.len() > 0
        invariant
            k + rest.len() == all.len(),
            all.len() <= usize::MAX,
            rest@ == all.skip(k as int),
            paths_sorted(out@),
            out@.to_multiset() == all.take(k as int).to_multiset(),
        decreases rest.len(),
    {
        let x = rest.remove(0);
        assert(x == all[k as int]);
        assert(rest@ =~= all.skip(k + 1));
        let mut i: usize = 0;
        while i < out.len() && !path_lt(x.as_str(), out[i].as_str())
            invariant
                i <= out.len(),
                forall|j: int| 0 <= j < i ==> !path_before(x@, (#[trigger] out@[j])@),
            decreases out.len() - i,
        {
            i = i + 1;
        }
        let ghost before = out@;
        out.insert(i, x);
        proof {
            let nv = out@;
            assert(nv =~= before.insert(i as int, x));
            assert forall|a: int, b: int| 0 <= a < b < nv.len() implies !path_before((#[trigger] nv[b])@, (#[trigger] nv[a])@) by {
                if b < i {
                    assert(nv[a] == before[a] && nv[b] == before[b]);
                } else if b == i {
                    assert(nv[a] == before[a]);
                } else if a < i {
                    assert(nv[a] == before[a] && nv[b] == before[b - 1]);
                } else if a == i {
                    assert(nv[b] == before[b - 1]);
                    assert(path_before(x@, before[i as int]@));
                    if path_before(before[b - 1]@, x@) {
                        lemma_segs_transitive(segments(before[b - 1]@, '/'), segments(x@, '/'), segments(before[i as int]@, '/'));
                        if b - 1 == i {
                            lemma_segs_irreflexive(segments(before[i as int]@, '/'));
                        }
                    }
                } else {
                    assert(nv[a] == before[a - 1] && nv[b] == before[b - 1]);
                }
            }
            assert(all.take(k + 1) =~= all.take(k as int).push(x));
            vstd::seq_lib::to_multiset_insert(before, i as int, x);
            vstd::seq_lib::to_multiset_build(all.take(k as int), x);
        }
        k = k + 1;
    }
    assert(all.take(k as int) =~= all);
    out
}

/// Corpus order: by language, then case name, character by character.
pub open spec fn source_before(a: (Seq<char>, Seq<char>), b: (Seq<char>, Seq<char>)) -> bool {
    lex_lt(a.0, b.0) || (a.0 == b.0 && lex_lt(a.1, b.1))
}

/// The language and name of a case source.
pub open spec fn source_key(c: CaseSource) -> (Seq<char>, Seq<char>) {
    (c.lang@, c.name@)
}

/// `s` is in corpus order.
pub open spec fn sources_sorted(s: Seq<CaseSource>) -> bool {
    forall|i: int, j: int| 0 <= i < j < s.len() ==> !source_before(source_key(#[trigger] s[j]), source_key(#[trigger] s[i]))
}

proof fn lemma_source_before_transitive(a: (Seq<char>, Seq<char>), b: (Seq<char>, Seq<char>), c: (Seq<char>, Seq<char>))
    requires
        source_before(a, b),
        source_before(b, c),
    ensures
        source_before(a, c),
{
    if lex_lt(a.0, b.0) && lex_lt(b.0, c.0) {
        lemma_lex_transitive(a.0, b.0, c.0);
    }
    if lex_lt(a.1, b.1) && lex_lt(b.1, c.1) {
        lemma_lex_transitive(a.1, b.1, c.1);
    }
}

proof fn lemma_source_before_irreflexive(a: (Seq<char>, Seq<char>))
    ensures
        !source_before(a, a),
{
    lemma_lex_irreflexive(a.0);
    lemma_lex_irreflexive(a.1);
}

/// Whether source `a` sorts strictly before source `b`.
fn source_lt(a: &CaseSource, b: &CaseSource) -> (r: bool)
    ensures
        r == source_before(source_key(*a), source_key(*b)),
{
    if name_lt(&a.lang, &b.lang) {
        return true;
    }
    if !str_eq(a.lang.as_str(), b.lang.as_str()) {
        return false;
    }
    name_lt(&a.name, &b.name)
}

/// `sources` in corpus order (equal keys keep their order).
fn sort_sources(sources: Vec<CaseSource>) -> (r: Vec<CaseSource>)
    ensures
        sources_sorted(r@),
        r@.to_multiset() == sources@.to_multiset(),
{
    let ghost all = sources@;
    let mut rest = sources;
    assert(all.len() == rest.len());
    let mut out: Vec<CaseSource> = Vec::new();
    let mut k: usize = 0;
    assert(all.take(0) =~= Seq::<CaseSource>::empty());
    while rest.len() > 0
        invariant
            k + rest.len() == all.len(),
            all.len() <= usize::MAX,
            rest@ == all.skip(k as int),
            sources_sorted(out@),
            out@.to_multiset() == all.take(k as int).to_multiset(),
        decreases rest.len(),
    {
        let x = rest.remove(0);
        assert(x == all[k as int]);
        assert(rest@ =~= all.skip(k + 1));
        let mut i: usize = 0;
        while i < out.len() && !source_lt(&x, &out[i])
            invariant
                i <= out.len(),
                forall|j: int| 0 <= j < i ==> !source_before(source_key(x), source_key(#[trigger] out@[j])),
            decreases out.len() - i,
        {
            i = i + 1;
        }
        let ghost before = out@;
        out.insert(i, x);
        proof {
            let nv = out@;
            assert(nv =~= before.insert(i as int, x));
            assert forall|a: int, b: int| 0 <= a < b < nv.len() implies !source_before(
                source_key(#[trigger] nv[b]),
                source_key(#[trigger] nv[a]),
            ) by {
                if b < i {
                    assert(nv[a] == before[a] && nv[b] == before[b]);
                } else if b == i {
                    assert(nv[a] == before[a]);
                } else if a < i {
                    assert(nv[a] == before[a] && nv[b] == before[b - 1]);
                } else if a == i {
                    assert(nv[b] == before[b - 1]);
                    assert(source_before(source_key(x), source_key(before[i as int])));
                    if source_before(source_key(before[b - 1]), source_key(x)) {
                        lemma_source_before_transitive(source_key(before[b - 1]), source_key(x), source_key(before[i as int]));
                        if b - 1 == i {
                            lemma_source_before_irreflexive(source_key(before[i as int]));
                        }
                    }
                } else {
                    assert(nv[a] == before[a - 1] && nv[b] == before[b - 1]);
                }
            }
            assert(all.take(k + 1) =~= all.take(k as int).push(x));
            vstd::seq_lib::to_multiset_insert(before, i as int, x);
            vstd::seq_lib::to_multiset_build(all.take(k as int), x);
        }
        k = k + 1;
    }
    assert(all.take(k as int) =~= all);
    out
}

/// The name a manifest gives a role.
pub open spec fn role_name(r: RefRole) -> Seq<char> {
    match r {
        RefRole::Call => seq!['C', 'a', 'l', 'l'],
        RefRole::IsImplementation => seq!['I', 's', 'I', 'm', 'p', 'l', 'e', 'm', 'e', 'n', 't', 'a', 't', 'i', 'o', 'n'],
        RefRole::Import => seq!['I', 'm', 'p', 'o', 'r', 't'],
        RefRole::TypeRef => seq!['T', 'y', 'p', 'e', 'R', 'e', 'f'],
        RefRole::Read => seq!['R', 'e', 'a', 'd'],
        RefRole::Write => seq!['W', 'r', 'i', 't', 'e'],
        RefRole::Inherit => seq!['I', 'n', 'h', 'e', 'r', 'i', 't'],
    }
}

/// The location `file:line` as a manifest writes it.
pub open spec fn loc_text(file: Seq<char>, line: u32) -> Seq<char> {
    file + seq![':'] + decimal_text(line as nat)
}

/// The manifest line spelling edge `k` (whose role is set):
/// `<ref_file>:<ref_line> <Role> <def_file>:<def_line>`.
pub open spec fn edge_line_text(k: LocKey) -> Seq<char> {
    loc_text(k.ref_file, k.ref_line) + seq![' '] + role_name(k.role.unwrap()) + seq![' '] + loc_text(
        k.def_file,
        k.def_line,
    )
}

/// A file name a manifest line can carry: non-empty, without whitespace
/// or `#`.
pub open spec fn plain_file(f: Seq<char>) -> bool {
    f.len() > 0 && forall|i: int| 0 <= i < f.len() ==> !is_ws(#[trigger] f[i]) && f[i] != '#'
}

/// No character of `s` is whitespace or `#`.
pub open spec fn plain_text(s: Seq<char>) -> bool {
    forall|i: int| 0 <= i < s.len() ==> !is_ws(#[trigger] s[i]) && s[i] != '#'
}

proof fn lemma_decimal_text_digits(n: nat)
    ensures
        decimal_text(n).len() > 0,
        all_digits(decimal_text(n)),
        decimal_value(decimal_text(n)) == n,
    decreases n,
{
    if n >= 10 {
        lemma_decimal_text_digits(n / 10);
        let s = decimal_text(n / 10);
        let d = digit_char((n % 10) as int);
        assert(decimal_text(n) == s + seq![d]);
        assert((s + seq![d]).drop_last() =~= s);
        assert(digit_value(d) == n % 10);
        assert((s + seq![d]).last() == d);
        assert(decimal_value(s + seq![d]) == decimal_value(s) * 10 + digit_value(d));
        assert((n / 10) * 10 + n % 10 == n);
        assert forall|i: int| 0 <= i < decimal_text(n).len() implies is_digit(#[trigger] decimal_text(n)[i]) by {
            if i < s.len() {
                assert(decimal_text(n)[i] == s[i]);
            }
        }
    } else {
        let d = digit_char(n as int);
        assert(digit_value(d) == n);
        assert(seq![d].drop_last() =~= Seq::<char>::empty());
        assert(seq![d].last() == d);
        assert(decimal_value(seq![d]) == decimal_value(Seq::<char>::empty()) * 10 + digit_value(d));
    }
}

proof fn lemma_plain_digits(n: nat)
    ensures
        plain_text(decimal_text(n)),
        !decimal_text(n).contains(':'),
        decimal_text(n)[0] != '+',
{
    lemma_decimal_text_digits(n);
    let s = decimal_text(n);
    assert forall|i: int| 0 <= i < s.len() implies !is_ws(#[trigger] s[i]) && s[i] != '#' by {
        assert(is_digit(s[i]));
    }
    assert(is_digit(s[0]));
    if s.contains(':') {
        let i = choose|i: int| 0 <= i < s.len() && s[i] == ':';
        assert(is_digit(s[i]));
    }
}

proof fn lemma_parse_decimal(n: nat)
    requires
        n <= u32::MAX,
    ensures
        parse_unsigned(decimal_text(n), u32::MAX as int) == Some(n as int),
{
    lemma_decimal_text_digits(n);
    lemma_plain_digits(n);
}

/// The last `c` in `x + [c] + y` is the one after `x` when `y` has none.
proof fn lemma_last_index_after(x: Seq<char>, c: char, y: Seq<char>)
    requires
        !y.contains(c),
    ensures
        last_index_spec(x + seq![c] + y, c) == x.len(),
    decreases y.len(),
{
    let s = x + seq![c] + y;
    if y.len() == 0 {
        assert(s.last() == c);
    } else {
        assert(s.drop_last() =~= x + seq![c] + y.drop_last());
        assert(s.last() == y.last());
        assert(!y.drop_last().contains(c)) by {
            if y.drop_last().contains(c) {
                let i = choose|i: int| 0 <= i < y.drop_last().len() && y.drop_last()[i] == c;
                assert(y[i] == c);
            }
        }
        lemma_last_index_after(x, c, y.drop_last());
    }
}

proof fn lemma_loc_text(file: Seq<char>, line: u32)
    requires
        file.len() > 0,
    ensures
        loc_spec(loc_text(file, line)) == Some((file, line)),
{
    let d = decimal_text(line as nat);
    lemma_plain_digits(line as nat);
    lemma_last_index_after(file, ':', d);
    let s = loc_text(file, line);
    assert(s.take(file.len() as int) =~= file);
    assert(s.skip(file.len() as int + 1) =~= d);
    lemma_parse_decimal(line as nat);
}

proof fn lemma_role_name(r: RefRole)
    requires
        r != RefRole::Inherit,
    ensures
        role_spec(role_name(r)) == Some(r),
        role_name(r).len() > 0,
        plain_text(role_name(r)),
{
    let n = role_name(r);
    assert(plain_text(n)) by {
        assert forall|i: int| 0 <= i < n.len() implies !is_ws(#[trigger] n[i]) && n[i] != '#' by {
            assert('A' <= n[i] <= 'z');
        }
    }
    let l1 = seq!['C', 'a', 'l', 'l'];
    let l2 = seq!['I', 's', 'I', 'm', 'p', 'l', 'e', 'm', 'e', 'n', 't', 'a', 't', 'i', 'o', 'n'];
    let l3 = seq!['I', 'm', 'p', 'o', 'r', 't'];
    let l4 = seq!['T', 'y', 'p', 'e', 'R', 'e', 'f'];
    let l5 = seq!['R', 'e', 'a', 'd'];
    assert(n.len() != l1.len() || n[0] != l1[0] || n == l1);
    assert(n.len() != l2.len() || n == l2);
    assert(n.len() != l3.len() || n == l3);
    assert(n.len() != l4.len() || n == l4);
    assert(n.len() != l5.len() || n[0] != l5[0] || n == l5);
}

/// Splitting `p + q` at whitespace, where `q` has none, extends the token
/// being read by `q`.
proof fn lemma_ws_state_word(p: Seq<char>, q: Seq<char>)
    requires
        forall|i: int| 0 <= i < q.len() ==> !is_ws(#[trigger] q[i]),
    ensures
        ws_split_state(p + q) == (ws_split_state(p).0, ws_split_state(p).1 + q),
    decreases q.len(),
{
    if q.len() == 0 {
        assert(p + q =~= p);
        assert(ws_split_state(p).1 + q =~= ws_split_state(p).1);
    } else {
        assert((p + q).drop_last() =~= p + q.drop_last());
        assert((p + q).last() == q.last());
        lemma_ws_state_word(p, q.drop_last());
        assert(ws_split_state(p).1 + q.drop_last() + seq![q.last()] =~= ws_split_state(p).1 + q);
    }
}

/// A single space closes the token being read.
proof fn lemma_ws_state_space(p: Seq<char>)
    requires
        ws_split_state(p).1.len() > 0,
    ensures
        ws_split_state(p + seq![' ']) == (ws_split_state(p).0.push(ws_split_state(p).1), Seq::<char>::empty()),
{
    assert((p + seq![' ']).drop_last() =~= p);
    assert((p + seq![' ']).last() == ' ');
}

/// A line without a newline is the one line `str::lines` yields.
proof fn lemma_single_line(s: Seq<char>)
    requires
        s.len() > 0,
        !s.contains('\n'),
    ensures
        lines_of(s) == seq![s],
{
    lemma_lines_state_no_newline(s);
}

proof fn lemma_lines_state_no_newline(s: Seq<char>)
    requires
        !s.contains('\n'),
    ensures
        lines_state(s) == (Seq::<Seq<char>>::empty(), s),
    decreases s.len(),
{
    if s.len() > 0 {
        assert(!s.drop_last().contains('\n')) by {
            if s.drop_last().contains('\n') {
                let i = choose|i: int| 0 <= i < s.drop_last().len() && s.drop_last()[i] == '\n';
                assert(s[i] == '\n');
            }
        }
        lemma_lines_state_no_newline(s.drop_last());
        assert(s.last() != '\n') by {
            assert(s[s.len() - 1] == s.last());
        }
        assert(s.drop_last().push(s.last()) =~= s);
    }
}

proof fn lemma_no_hash(s: Seq<char>, i: int)
    requires
        0 <= i,
        !s.contains('#'),
    ensures
        first_index_spec(s, '#', i) == -1,
    decreases s.len() - i,
{
    if i < s.len() {
        assert(s[i] != '#');
        lemma_no_hash(s, i + 1);
    }
}

/// What the reader makes of the line spelling `k`: one line, its content the
/// whole line, and that content the edge `k`.
#[verifier::rlimit(40)]
proof fn lemma_edge_line_facts(k: LocKey)
    requires
        k.role is Some,
        k.role != Some(RefRole::Inherit),
        plain_file(k.ref_file),
        plain_file(k.def_file),
    ensures
        edge_line_text(k).len() > 0,
        !edge_line_text(k).contains('\n'),
        edge_line_text(k).last() != '\r',
        content_of(edge_line_text(k)) == edge_line_text(k),
        line_key(edge_line_text(k), false) == Some(k),
{
    let role = k.role.unwrap();
    let a = loc_text(k.ref_file, k.ref_line);
    let b = role_name(role);
    let c = loc_text(k.def_file, k.def_line);
    let s = edge_line_text(k);
    lemma_role_name(role);
    lemma_plain_digits(k.ref_line as nat);
    lemma_plain_digits(k.def_line as nat);
    let da = decimal_text(k.ref_line as nat);
    let dc = decimal_text(k.def_line as nat);
    assert(plain_text(a)) by {
        assert forall|i: int| 0 <= i < a.len() implies !is_ws(#[trigger] a[i]) && a[i] != '#' by {
            if i < k.ref_file.len() {
                assert(a[i] == k.ref_file[i]);
            } else if i > k.ref_file.len() {
                assert(a[i] == da[i - k.ref_file.len() - 1]);
            }
        }
    }
    assert(plain_text(c)) by {
        assert forall|i: int| 0 <= i < c.len() implies !is_ws(#[trigger] c[i]) && c[i] != '#' by {
            if i < k.def_file.len() {
                assert(c[i] == k.def_file[i]);
            } else if i > k.def_file.len() {
                assert(c[i] == dc[i - k.def_file.len() - 1]);
            }
        }
    }
    assert(s =~= a + seq![' '] + b + seq![' '] + c);
    // one line, no comment, nothing to trim
    assert(!s.contains('\n') && !s.contains('#')) by {
        if s.contains('\n') || s.contains('#') {
            let i = choose|i: int| 0 <= i < s.len() && (s[i] == '\n' || s[i] == '#');
            if i < a.len() {
                assert(s[i] == a[i]);
            } else if i == a.len() {
            } else if i < a.len() + 1 + b.len() {
                assert(s[i] == b[i - a.len() - 1]);
            } else if i == a.len() + 1 + b.len() {
            } else {
                assert(s[i] == c[i - a.len() - 2 - b.len()]);
            }
        }
    }
    lemma_single_line(s);
    lemma_no_hash(s, 0);
    assert(before_hash(s) == s);
    assert(!is_ws(s[0])) by {
        assert(s[0] == a[0]);
    }
    assert(!is_ws(s[s.len() - 1])) by {
        assert(s[s.len() - 1] == c[c.len() - 1]);
    }
    assert(skip_ws_from(s, 0) == 0);
    assert(trim_back_to(s, 0, s.len() as int) == s.len());
    assert(trim(s) =~= s);
    // three tokens
    let e = Seq::<char>::empty();
    assert(ws_split_state(e) == (Seq::<Seq<char>>::empty(), e));
    assert(forall|i: int| 0 <= i < a.len() ==> !is_ws(#[trigger] a[i]));
    assert(forall|i: int| 0 <= i < b.len() ==> !is_ws(#[trigger] b[i]));
    assert(forall|i: int| 0 <= i < c.len() ==> !is_ws(#[trigger] c[i]));
    lemma_ws_state_word(e, a);
    assert(e + a =~= a);
    lemma_ws_state_space(a);
    lemma_ws_state_word(a + seq![' '], b);
    assert(e + a =~= a);
    lemma_ws_state_space(a + seq![' '] + b);
    lemma_ws_state_word(a + seq![' '] + b + seq![' '], c);
    assert(ws_tokens(s) =~= seq![a, b, c]);
    lemma_loc_text(k.ref_file, k.ref_line);
    lemma_loc_text(k.def_file, k.def_line);
    assert(line_key(s, false) == Some(k));
    assert(content_of(s) == s);
    assert(is_ws('\r'));
}

/// The text of a manifest holding the edges `ks`, one line each.
pub open spec fn manifest_text(ks: Seq<LocKey>) -> Seq<char>
    decreases ks.len(),
{
    if ks.len() == 0 {
        Seq::empty()
    } else {
        manifest_text(ks.drop_last()) + edge_line_text(ks.last()) + seq!['\n']
    }
}

/// Edges a manifest line can spell: role set to one a manifest names, file
/// names plain.
pub open spec fn writable(k: LocKey) -> bool {
    k.role is Some && k.role != Some(RefRole::Inherit) && plain_file(k.ref_file) && plain_file(k.def_file)
}

#[verifier::rlimit(50)]
#[verifier::spinoff_prover]
proof fn lemma_manifest_lines(ks: Seq<LocKey>)
    requires
        forall|i: int| 0 <= i < ks.len() ==> writable(#[trigger] ks[i]),
    ensures
        lines_state(manifest_text(ks)) == (Seq::new(ks.len(), |i: int| edge_line_text(ks[i])), Seq::<char>::empty()),
    decreases ks.len(),
{
    if ks.len() > 0 {
        let prev = ks.drop_last();
        let k = ks.last();
        let line = edge_line_text(k);
        assert(!line.contains('\n') && strip_cr(line) == line) by {
            assert(writable(ks[ks.len() - 1]));
            lemma_edge_line_facts(k);
        }
        assert forall|i: int| 0 <= i < prev.len() implies writable(#[trigger] prev[i]) by {
            assert(prev[i] == ks[i]);
        }
        lemma_manifest_lines(prev);
        let base = manifest_text(prev);
        lemma_lines_state_word(base, line);
        let t = base + line + seq!['\n'];
        assert(manifest_text(ks) == t);
        assert(t.drop_last() =~= base + line);
        assert(t.last() == '\n');
        assert(Seq::<char>::empty() + line =~= line);
        assert(Seq::new(prev.len(), |i: int| edge_line_text(prev[i])).push(line) =~= Seq::new(
            ks.len(),
            |i: int| edge_line_text(ks[i]),
        ));
    } else {
        assert(Seq::new(ks.len(), |i: int| edge_line_text(ks[i])) =~= Seq::<Seq<char>>::empty());
    }
}

/// Reading on past `p` through `q`, a text without newlines, extends the
/// line being read by `q`.
proof fn lemma_lines_state_word(p: Seq<char>, q: Seq<char>)
    requires
        !q.contains('\n'),
    ensures
        lines_state(p + q) == (lines_state(p).0, lines_state(p).1 + q),
    decreases q.len(),
{
    if q.len() == 0 {
        assert(p + q =~= p);
        assert(lines_state(p).1 + q =~= lines_state(p).1);
    } else {
        assert((p + q).drop_last() =~= p + q.drop_last());
        assert((p + q).last() == q.last());
        assert(!q.drop_last().contains('\n')) by {
            if q.drop_last().contains('\n') {
                let i = choose|i: int| 0 <= i < q.drop_last().len() && q.drop_last()[i] == '\n';
                assert(q[i] == '\n');
            }
        }
        assert(q.last() != '\n') by {
            assert(q[q.len() - 1] == q.last());
        }
        lemma_lines_state_word(p, q.drop_last());
        assert(lines_state(p).1 + q.drop_last() + seq![q.last()] =~= lines_state(p).1 + q);
    }
}

/// A manifest of well-formed lines, one per edge, reads back as exactly
/// those edges, in order: the reader gives back what the lines write.
pub proof fn law_manifest_round_trip(ks: Seq<LocKey>)
    requires
        forall|i: int| 0 <= i < ks.len() ==> writable(#[trigger] ks[i]),
    ensures
        parse_spec(manifest_text(ks), false) == Ok::<Seq<LocKey>, Seq<char>>(ks),
{
    lemma_manifest_lines(ks);
    let lines = Seq::new(ks.len(), |i: int| edge_line_text(ks[i]));
    assert(lines_of(manifest_text(ks)) == lines);
    lemma_scan_written(ks, ks.len() as int);
    assert(ks.take(ks.len() as int) =~= ks);
}

proof fn lemma_scan_written(ks: Seq<LocKey>, n: int)
    requires
        0 <= n <= ks.len(),
        forall|i: int| 0 <= i < ks.len() ==> writable(#[trigger] ks[i]),
    ensures
        scan_lines(Seq::new(ks.len(), |i: int| edge_line_text(ks[i])), n, false) == Ok::<Seq<LocKey>, Seq<char>>(ks.take(n)),
    decreases n,
{
    if n > 0 {
        lemma_scan_written(ks, n - 1);
        assert(writable(ks[n - 1]));
        lemma_edge_line_facts(ks[n - 1]);
        assert(ks.take(n - 1).push(ks[n - 1]) =~= ks.take(n));
    } else {
        assert(ks.take(0) =~= Seq::<LocKey>::empty());
    }
}

/// The first line of an oracle manifest as this crate writes it: a comment.
pub open spec fn oracle_header() -> Seq<char> {
    "# oracle: SCIP index \u{2014} location pairs (ref -> def), role-agnostic"@
}

/// The oracle manifest line spelling pair `k`:
/// `<ref_file>:<ref_line> <def_file>:<def_line>`.
pub open spec fn oracle_line_text(k: LocKey) -> Seq<char> {
    loc_text(k.ref_file, k.ref_line) + seq![' '] + loc_text(k.def_file, k.def_line)
}

/// The text of an oracle manifest holding the pairs `ks`: the header line,
/// then one line per pair.
pub open spec fn oracle_manifest_text(ks: Seq<LocKey>) -> Seq<char>
    decreases ks.len(),
{
    if ks.len() == 0 {
        oracle_header() + seq!['\n']
    } else {
        oracle_manifest_text(ks.drop_last()) + oracle_line_text(ks.last()) + seq!['\n']
    }
}

/// Pairs an oracle line can spell: no role, file names plain.
pub open spec fn oracle_writable(k: LocKey) -> bool {
    k.role is None && plain_file(k.ref_file) && plain_file(k.def_file)
}

/// What the reader makes of the header: one line, a comment, so empty.
proof fn lemma_oracle_header()
    ensures
        lines_state(oracle_header() + seq!['\n']) == (seq![oracle_header()], Seq::<char>::empty()),
        content_of(oracle_header()).len() == 0,
{
    reveal_strlit("# oracle: SCIP index \u{2014} location pairs (ref -> def), role-agnostic");
    let h = oracle_header();
    assert(h.len() == 65);
    assert forall|i: int| 0 <= i < h.len() implies h[i] != '\n' && h[i] != '\r' by {}
    assert(!h.contains('\n'));
    lemma_lines_state_no_newline(h);
    assert((h + seq!['\n']).drop_last() =~= h);
    assert((h + seq!['\n']).last() == '\n');
    assert(strip_cr(h) == h) by {
        assert(h.last() == h[h.len() - 1]);
    }
    assert(h[0] == '#');
    assert(first_index_spec(h, '#', 0) == 0);
    assert(before_hash(h) =~= Seq::<char>::empty());
    assert(trim(Seq::<char>::empty()) =~= Seq::<char>::empty());
}

/// What the reader makes of the line spelling pair `k`: one line, its
/// content the whole line, and that content the pair `k`.
#[verifier::rlimit(100)]
#[verifier::spinoff_prover]
proof fn lemma_oracle_line_facts(k: LocKey)
    requires
        oracle_writable(k),
    ensures
        oracle_line_text(k).len() > 0,
        !oracle_line_text(k).contains('\n'),
        oracle_line_text(k).last() != '\r',
        content_of(oracle_line_text(k)) == oracle_line_text(k),
        line_key(oracle_line_text(k), true) == Some(k),
{
    let a = loc_text(k.ref_file, k.ref_line);
    let c = loc_text(k.def_file, k.def_line);
    let s = oracle_line_text(k);
    lemma_plain_digits(k.ref_line as nat);
    lemma_plain_digits(k.def_line as nat);
    let da = decimal_text(k.ref_line as nat);
    let dc = decimal_text(k.def_line as nat);
    assert(plain_text(a)) by {
        assert forall|i: int| 0 <= i < a.len() implies !is_ws(#[trigger] a[i]) && a[i] != '#' by {
            if i < k.ref_file.len() {
                assert(a[i] == k.ref_file[i]);
            } else if i > k.ref_file.len() {
                assert(a[i] == da[i - k.ref_file.len() - 1]);
            }
        }
    }
    assert(plain_text(c)) by {
        assert forall|i: int| 0 <= i < c.len() implies !is_ws(#[trigger] c[i]) && c[i] != '#' by {
            if i < k.def_file.len() {
                assert(c[i] == k.def_file[i]);
            } else if i > k.def_file.len() {
                assert(c[i] == dc[i - k.def_file.len() - 1]);
            }
        }
    }
    assert(s =~= a + seq![' '] + c);
    assert(!s.contains('\n') && !s.contains('#')) by {
        if s.contains('\n') || s.contains('#') {
            let i = choose|i: int| 0 <= i < s.len() && (s[i] == '\n' || s[i] == '#');
            if i < a.len() {
                assert(s[i] == a[i]);
            } else if i == a.len() {
            } else {
                assert(s[i] == c[i - a.len() - 1]);
            }
        }
    }
    lemma_single_line(s);
    lemma_no_hash(s, 0);
    assert(before_hash(s) == s);
    assert(!is_ws(s[0])) by {
        assert(s[0] == a[0]);
    }
    assert(!is_ws(s[s.len() - 1])) by {
        assert(s[s.len() - 1] == c[c.len() - 1]);
    }
    assert(skip_ws_from(s, 0) == 0);
    assert(trim_back_to(s, 0, s.len() as int) == s.len());
    assert(trim(s) =~= s);
    let e = Seq::<char>::empty();
    assert(ws_split_state(e) == (Seq::<Seq<char>>::empty(), e));
    assert(forall|i: int| 0 <= i < a.len() ==> !is_ws(#[trigger] a[i]));
    assert(forall|i: int| 0 <= i < c.len() ==> !is_ws(#[trigger] c[i]));
    lemma_ws_state_word(e, a);
    assert(e + a =~= a);
    lemma_ws_state_space(a);
    lemma_ws_state_word(a + seq![' '], c);
    assert(ws_tokens(s) =~= seq![a, c]);
    lemma_loc_text(k.ref_file, k.ref_line);
    lemma_loc_text(k.def_file, k.def_line);
    assert(line_key(s, true) == Some(k));
    assert(content_of(s) == s);
    assert(is_ws('\r'));
}

/// The lines of an oracle manifest: the header, then one per pair.
proof fn lemma_oracle_manifest_lines(ks: Seq<LocKey>)
    requires
        forall|i: int| 0 <= i < ks.len() ==> oracle_writable(#[trigger] ks[i]),
    ensures
        lines_state(oracle_manifest_text(ks)) == (
            seq![oracle_header()] + Seq::new(ks.len(), |i: int| oracle_line_text(ks[i])),
            Seq::<char>::empty(),
        ),
    decreases ks.len(),
{
    if ks.len() > 0 {
        let prev = ks.drop_last();
        let k = ks.last();
        let line = oracle_line_text(k);
        assert(!line.contains('\n') && strip_cr(line) == line) by {
            assert(oracle_writable(ks[ks.len() - 1]));
            lemma_oracle_line_facts(k);
        }
        assert forall|i: int| 0 <= i < prev.len() implies oracle_writable(#[trigger] prev[i]) by {
            assert(prev[i] == ks[i]);
        }
        lemma_oracle_manifest_lines(prev);
        let base = oracle_manifest_text(prev);
        lemma_lines_state_word(base, line);
        let t = base + line + seq!['\n'];
        assert(oracle_manifest_text(ks) == t);
        assert(t.drop_last() =~= base + line);
        assert(t.last() == '\n');
        assert(Seq::<char>::empty() + line =~= line);
        assert((seq![oracle_header()] + Seq::new(prev.len(), |i: int| oracle_line_text(prev[i]))).push(line) =~= seq![
            oracle_header(),
        ] + Seq::new(ks.len(), |i: int| oracle_line_text(ks[i])));
    } else {
        lemma_oracle_header();
        assert(seq![oracle_header()] + Seq::new(ks.len(), |i: int| oracle_line_text(ks[i])) =~= seq![oracle_header()]);
    }
}

proof fn lemma_scan_oracle_written(ks: Seq<LocKey>, n: int)
    requires
        0 <= n <= ks.len(),
        forall|i: int| 0 <= i < ks.len() ==> oracle_writable(#[trigger] ks[i]),
    ensures
        scan_lines(seq![oracle_header()] + Seq::new(ks.len(), |i: int| oracle_line_text(ks[i])), n + 1, true)
            == Ok::<Seq<LocKey>, Seq<char>>(ks.take(n)),
    decreases n,
{
    let lines = seq![oracle_header()] + Seq::new(ks.len(), |i: int| oracle_line_text(ks[i]));
    if n > 0 {
        lemma_scan_oracle_written(ks, n - 1);
        assert(oracle_writable(ks[n - 1]));
        lemma_oracle_line_facts(ks[n - 1]);
        assert(lines[n] == oracle_line_text(ks[n - 1]));
        assert(scan_lines(lines, n, true) == Ok::<Seq<LocKey>, Seq<char>>(ks.take(n - 1)));
        assert(content_of(lines[n]) == oracle_line_text(ks[n - 1]));
        assert(ks.take(n - 1).push(ks[n - 1]) =~= ks.take(n));
        assert(scan_lines(lines, n + 1, true) == Ok::<Seq<LocKey>, Seq<char>>(ks.take(n - 1).push(ks[n - 1])));
    } else {
        lemma_oracle_header();
        assert(lines[0] == oracle_header());
        assert(scan_lines(lines, 0, true) == Ok::<Seq<LocKey>, Seq<char>>(Seq::empty()));
        assert(ks.take(0) =~= Seq::<LocKey>::empty());
        assert(scan_lines(lines, 1, true) == Ok::<Seq<LocKey>, Seq<char>>(Seq::empty()));
    }
}

/// An oracle manifest as this crate writes it, of pairs whose file names are
/// plain, reads back as exactly those pairs, in order: the header is a
/// comment and each line gives back the pair it writes.
pub proof fn law_oracle_manifest_round_trip(ks: Seq<LocKey>)
    requires
        forall|i: int| 0 <= i < ks.len() ==> oracle_writable(#[trigger] ks[i]),
    ensures
        parse_spec(oracle_manifest_text(ks), true) == Ok::<Seq<LocKey>, Seq<char>>(ks),
{
    lemma_oracle_manifest_lines(ks);
    let lines = seq![oracle_header()] + Seq::new(ks.len(), |i: int| oracle_line_text(ks[i]));
    assert(lines_of(oracle_manifest_text(ks)) == lines);
    lemma_scan_oracle_written(ks, ks.len() as int);
    assert(ks.take(ks.len() as int) =~= ks);
}

} // verus!
