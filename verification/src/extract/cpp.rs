//! C++: namespaces, classes / structs / unions with their visible members,
//! free functions and variables (non-`static`), enums, type aliases
//! (`typedef`, `using T = X`) and `#define` macros, qualified by the file's
//! path extended by `namespace` blocks and class scopes; call and base-class
//! references. No module symbol, scopes or bindings are recorded.

use vstd::prelude::*;
use vstd::utf8::*;
use crate::error::Result;
use crate::graph::{FileFacts, RefRole, Reference, Symbol, SymbolKind};
use crate::lang::Language;
use crate::symbol::{Descriptor, descriptor_text};
use crate::text::{
    chars_of, matches_at, segments, simple_type_name, simple_name_of, split_nonempty, strings_of, strip_prefix_chars,
    strip_prefix_or_self, strip_suffix_chars, views, last_occurrence_exec, last_occurrence, slice_chars, string_from_chars,
    has_prefix,
};
use super::Extractor;
use super::tree::SyntaxTree;
use super::ts::Grammar;
use super::scope::attach_reference_scopes;
use super::shell::strip_first_suffix;
use super::c::{c_is_static, is_static};
use super::support::{
    facts_wf, field_text, refs_ok, symbols_ok, symbols_match, namespaces_text, method_text, type_text, term_text, macro_text,
    types_text, Def, defs_grow, lemma_defs_grow_none, lemma_defs_grow_trans, strings_push, strings_append, push_path_def,
    push_ns_def, RefItem, refs_items, refs_grow, lemma_refs_grow_none, lemma_refs_grow_trans, push_ref_item,
    lemma_refs_items_attached,
};

verus! {

/// Extracts C++ symbols and references.
pub struct CppExtractor;

/// The source and header extensions a C++ path may end with, in the order
/// they are tried.
pub open spec fn cpp_extensions() -> Seq<Seq<char>> {
    seq![".cc"@, ".cpp"@, ".cxx"@, ".hh"@, ".hpp"@, ".hxx"@, ".c"@, ".h"@]
}

/// The namespaces of a C++ file: the path without its first matching
/// extension and a leading `src/`, split on `/`.
pub open spec fn cpp_namespaces_spec(file: Seq<char>) -> Seq<Seq<char>> {
    segments(strip_prefix_or_self(strip_first_suffix(file, cpp_extensions()), "src/"@), '/')
}

/// Stripping the first matching C++ extension from `p` followed by one of
/// them gives `p`.
proof fn lemma_cpp_strip_extension(p: Seq<char>, ext: Seq<char>)
    requires
        cpp_extensions().contains(ext),
    ensures
        strip_first_suffix(p + ext, cpp_extensions()) == p,
{
    reveal_strlit(".cc");
    reveal_strlit(".cpp");
    reveal_strlit(".cxx");
    reveal_strlit(".hh");
    reveal_strlit(".hpp");
    reveal_strlit(".hxx");
    reveal_strlit(".c");
    reveal_strlit(".h");
    let es = cpp_extensions();
    assert(".cc"@ =~= seq!['.', 'c', 'c'] && ".cpp"@ =~= seq!['.', 'c', 'p', 'p'] && ".cxx"@ =~= seq!['.', 'c', 'x', 'x'] && ".hh"@ =~= seq!['.', 'h', 'h'] && ".hpp"@ =~= seq!['.', 'h', 'p', 'p'] && ".hxx"@ =~= seq!['.', 'h', 'x', 'x'] && ".c"@ =~= seq!['.', 'c'] && ".h"@ =~= seq!['.', 'h']);
    if ext == seq!['.', 'c', 'c'] {

    }
    if ext == seq!['.', 'c', 'p', 'p'] {
        crate::text::lemma_not_suffix_at(seq!['.', 'c', 'p', 'p'], seq!['.', 'c', 'c'], 1);
        crate::text::lemma_strip_other_suffix(p, ext, seq!['.', 'c', 'c']);
    }
    if ext == seq!['.', 'c', 'x', 'x'] {
        crate::text::lemma_not_suffix_at(seq!['.', 'c', 'x', 'x'], seq!['.', 'c', 'c'], 1);
        crate::text::lemma_strip_other_suffix(p, ext, seq!['.', 'c', 'c']);
        crate::text::lemma_not_suffix_at(seq!['.', 'c', 'x', 'x'], seq!['.', 'c', 'p', 'p'], 1);
        crate::text::lemma_strip_other_suffix(p, ext, seq!['.', 'c', 'p', 'p']);
    }
    if ext == seq!['.', 'h', 'h'] {
        crate::text::lemma_not_suffix_at(seq!['.', 'h', 'h'], seq!['.', 'c', 'c'], 1);
        crate::text::lemma_strip_other_suffix(p, ext, seq!['.', 'c', 'c']);
        crate::text::lemma_not_suffix_at(seq!['.', 'h', 'h'], seq!['.', 'c', 'p', 'p'], 1);
        crate::text::lemma_strip_other_suffix(p, ext, seq!['.', 'c', 'p', 'p']);
        crate::text::lemma_not_suffix_at(seq!['.', 'h', 'h'], seq!['.', 'c', 'x', 'x'], 1);
        crate::text::lemma_strip_other_suffix(p, ext, seq!['.', 'c', 'x', 'x']);
    }
    if ext == seq!['.', 'h', 'p', 'p'] {
        crate::text::lemma_not_suffix_at(seq!['.', 'h', 'p', 'p'], seq!['.', 'c', 'c'], 1);
        crate::text::lemma_strip_other_suffix(p, ext, seq!['.', 'c', 'c']);
        crate::text::lemma_not_suffix_at(seq!['.', 'h', 'p', 'p'], seq!['.', 'c', 'p', 'p'], 3);
        crate::text::lemma_strip_other_suffix(p, ext, seq!['.', 'c', 'p', 'p']);
        crate::text::lemma_not_suffix_at(seq!['.', 'h', 'p', 'p'], seq!['.', 'c', 'x', 'x'], 1);
        crate::text::lemma_strip_other_suffix(p, ext, seq!['.', 'c', 'x', 'x']);
        crate::text::lemma_not_suffix_at(seq!['.', 'h', 'p', 'p'], seq!['.', 'h', 'h'], 1);
        crate::text::lemma_strip_other_suffix(p, ext, seq!['.', 'h', 'h']);
    }
    if ext == seq!['.', 'h', 'x', 'x'] {
        crate::text::lemma_not_suffix_at(seq!['.', 'h', 'x', 'x'], seq!['.', 'c', 'c'], 1);
        crate::text::lemma_strip_other_suffix(p, ext, seq!['.', 'c', 'c']);
        crate::text::lemma_not_suffix_at(seq!['.', 'h', 'x', 'x'], seq!['.', 'c', 'p', 'p'], 1);
        crate::text::lemma_strip_other_suffix(p, ext, seq!['.', 'c', 'p', 'p']);
        crate::text::lemma_not_suffix_at(seq!['.', 'h', 'x', 'x'], seq!['.', 'c', 'x', 'x'], 3);
        crate::text::lemma_strip_other_suffix(p, ext, seq!['.', 'c', 'x', 'x']);
        crate::text::lemma_not_suffix_at(seq!['.', 'h', 'x', 'x'], seq!['.', 'h', 'h'], 1);
        crate::text::lemma_strip_other_suffix(p, ext, seq!['.', 'h', 'h']);
        crate::text::lemma_not_suffix_at(seq!['.', 'h', 'x', 'x'], seq!['.', 'h', 'p', 'p'], 1);
        crate::text::lemma_strip_other_suffix(p, ext, seq!['.', 'h', 'p', 'p']);
    }
    if ext == seq!['.', 'c'] {
        crate::text::lemma_not_suffix_at(seq!['.', 'c'], seq!['.', 'c', 'c'], 2);
        crate::text::lemma_strip_other_suffix(p, ext, seq!['.', 'c', 'c']);
        crate::text::lemma_not_suffix_at(seq!['.', 'c'], seq!['.', 'c', 'p', 'p'], 1);
        crate::text::lemma_strip_other_suffix(p, ext, seq!['.', 'c', 'p', 'p']);
        crate::text::lemma_not_suffix_at(seq!['.', 'c'], seq!['.', 'c', 'x', 'x'], 1);
        crate::text::lemma_strip_other_suffix(p, ext, seq!['.', 'c', 'x', 'x']);
        crate::text::lemma_not_suffix_at(seq!['.', 'c'], seq!['.', 'h', 'h'], 1);
        crate::text::lemma_strip_other_suffix(p, ext, seq!['.', 'h', 'h']);
        crate::text::lemma_not_suffix_at(seq!['.', 'c'], seq!['.', 'h', 'p', 'p'], 1);
        crate::text::lemma_strip_other_suffix(p, ext, seq!['.', 'h', 'p', 'p']);
        crate::text::lemma_not_suffix_at(seq!['.', 'c'], seq!['.', 'h', 'x', 'x'], 1);
        crate::text::lemma_strip_other_suffix(p, ext, seq!['.', 'h', 'x', 'x']);
    }
    if ext == seq!['.', 'h'] {
        crate::text::lemma_not_suffix_at(seq!['.', 'h'], seq!['.', 'c', 'c'], 1);
        crate::text::lemma_strip_other_suffix(p, ext, seq!['.', 'c', 'c']);
        crate::text::lemma_not_suffix_at(seq!['.', 'h'], seq!['.', 'c', 'p', 'p'], 1);
        crate::text::lemma_strip_other_suffix(p, ext, seq!['.', 'c', 'p', 'p']);
        crate::text::lemma_not_suffix_at(seq!['.', 'h'], seq!['.', 'c', 'x', 'x'], 1);
        crate::text::lemma_strip_other_suffix(p, ext, seq!['.', 'c', 'x', 'x']);
        crate::text::lemma_not_suffix_at(seq!['.', 'h'], seq!['.', 'h', 'h'], 2);
        crate::text::lemma_strip_other_suffix(p, ext, seq!['.', 'h', 'h']);
        crate::text::lemma_not_suffix_at(seq!['.', 'h'], seq!['.', 'h', 'p', 'p'], 1);
        crate::text::lemma_strip_other_suffix(p, ext, seq!['.', 'h', 'p', 'p']);
        crate::text::lemma_not_suffix_at(seq!['.', 'h'], seq!['.', 'h', 'x', 'x'], 1);
        crate::text::lemma_strip_other_suffix(p, ext, seq!['.', 'h', 'x', 'x']);
        crate::text::lemma_not_suffix_at(seq!['.', 'h'], seq!['.', 'c'], 1);
        crate::text::lemma_strip_other_suffix(p, ext, seq!['.', 'c']);
    }
    reveal_with_fuel(strip_first_suffix, 9);
    crate::text::lemma_strip_own_suffix(p, ext);
}

/// Law: the namespaces of `src/<stem><ext>`, and of `<stem><ext>` when
/// `stem` does not start with `src/`, for `ext` any of `.cc`, `.cpp`,
/// `.cxx`, `.hh`, `.hpp`, `.hxx`, `.c`, `.h`, are the `/`-separated
/// segments of `stem`.
pub proof fn law_cpp_namespaces(stem: Seq<char>, ext: Seq<char>)
    requires
        ext == ".cc"@ || ext == ".cpp"@ || ext == ".cxx"@ || ext == ".hh"@ || ext == ".hpp"@ || ext == ".hxx"@
            || ext == ".c"@ || ext == ".h"@,
    ensures
        cpp_namespaces_spec("src/"@ + stem + ext) == segments(stem, '/'),
        !crate::text::has_prefix(stem, "src/"@) ==> cpp_namespaces_spec(stem + ext) == segments(stem, '/'),
{
    let es = cpp_extensions();
    assert(es[0] == ".cc"@ && es[1] == ".cpp"@ && es[2] == ".cxx"@ && es[3] == ".hh"@ && es[4] == ".hpp"@
        && es[5] == ".hxx"@ && es[6] == ".c"@ && es[7] == ".h"@);
    assert(es.contains(ext));
    lemma_cpp_strip_extension("src/"@ + stem, ext);
    lemma_cpp_strip_extension(stem, ext);
    crate::text::lemma_strip_own_prefix("src/"@, stem);
}

/// The namespaces of a C++ file.
pub fn cpp_namespaces(file: &str) -> (r: Vec<String>)
    ensures
        views(r@) == cpp_namespaces_spec(file@),
{
    let cs = chars_of(file);
    let exts: [&str; 8] = [".cc", ".cpp", ".cxx", ".hh", ".hpp", ".hxx", ".c", ".h"];
    let mut p = chars_of(file);
    let mut k: usize = 0;
    let ghost es = cpp_extensions();
    proof {
        reveal_strlit(".cc");
        reveal_strlit(".cpp");
        reveal_strlit(".cxx");
        reveal_strlit(".hh");
        reveal_strlit(".hpp");
        reveal_strlit(".hxx");
        reveal_strlit(".c");
        reveal_strlit(".h");
        assert(es.skip(0) =~= es);
        assert(forall|j: int| 0 <= j < 8 ==> (#[trigger] es[j]).len() > 0);
    }
    while k < 8
        invariant
            k <= 8,
            exts@.len() == 8,
            es == cpp_extensions(),
            forall|j: int| 0 <= j < 8 ==> (#[trigger] exts@[j])@ == es[j],
            forall|j: int| 0 <= j < 8 ==> (#[trigger] es[j]).len() > 0,
            strip_first_suffix(cs@, es) == strip_first_suffix(p@, es.skip(k as int)),
            p@ == cs@,
            cs@ == file@,
        decreases 8 - k,
    {
        let a = strip_suffix_chars(&cs, exts[k]);
        assert(es.skip(k as int)[0] == es[k as int]);
        assert(es.skip(k as int).skip(1) =~= es.skip(k + 1));
        assert(es.skip(k as int).len() > 0);
        assert(exts@[k as int]@ == es[k as int]);
        if a.len() != cs.len() {
            assert(strip_first_suffix(cs@, es) == a@);
            let b = strip_prefix_chars(&a, "src/");
            let parts = split_nonempty(&b, '/');
            return strings_of(&parts);
        }
        k = k + 1;
    }
    assert(es.skip(8).len() == 0);
    let b = strip_prefix_chars(&p, "src/");
    let parts = split_nonempty(&b, '/');
    strings_of(&parts)
}

/// The text after the last `::` of `s` (all of it when there is none).
pub open spec fn last_segment(s: Seq<char>) -> Seq<char> {
    let k = last_occurrence(s, seq![':', ':']);
    if k >= 0 {
        s.skip(k + 2)
    } else {
        s
    }
}

/// The text after the last `::` of `text` (all of it when there is none).
fn last_path_segment(text: &String) -> (r: String)
    ensures
        r@ == last_segment(text@),
{
    let cs = chars_of(text.as_str());
    proof {
        reveal_strlit("::");
    }
    let sep = chars_of("::");
    assert(sep@ =~= seq![':', ':']);
    match last_occurrence_exec(&cs, &sep) {
        Some(k) => {
            let tail = slice_chars(&cs, k + sep.len(), cs.len());
            assert(tail@ =~= cs@.skip(k + 2));
            string_from_chars(tail.as_slice())
        },
        None => text.clone(),
    }
}

/// The non-empty `::`-separated segments of `s` from `i` on, the segment
/// being read so far being `cur`.
pub open spec fn colon_split(s: Seq<char>, i: int, cur: Seq<char>) -> Seq<Seq<char>>
    decreases s.len() - i,
{
    if i >= s.len() {
        if cur.len() > 0 {
            seq![cur]
        } else {
            Seq::empty()
        }
    } else if s[i] == ':' && i + 1 < s.len() && s[i + 1] == ':' {
        (if cur.len() > 0 {
            seq![cur]
        } else {
            Seq::empty()
        }) + colon_split(s, i + 2, Seq::empty())
    } else {
        colon_split(s, i + 1, cur.push(s[i]))
    }
}

/// The non-empty `::`-separated segments of `cs`.
fn colon_segments(cs: &Vec<char>) -> (r: Vec<String>)
    ensures
        views(r@) == colon_split(cs@, 0, Seq::empty()),
{
    let mut out: Vec<String> = Vec::new();
    let mut cur: Vec<char> = Vec::new();
    let mut i: usize = 0;
    while i < cs.len()
        invariant
            i <= cs.len(),
            colon_split(cs@, 0, Seq::empty()) == views(out@) + colon_split(cs@, i as int, cur@),
        decreases cs.len() - i,
    {
        if cs[i] == ':' && i + 1 < cs.len() && cs[i + 1] == ':' {
            let ghost before = out@;
            if cur.len() > 0 {
                out.push(string_from_chars(cur.as_slice()));
                proof {
                    assert(views(out@) =~= views(before) + seq![cur@]);
                }
            } else {
                assert(views(out@) =~= views(before) + Seq::<Seq<char>>::empty());
            }
            proof {
                let piece = if cur@.len() > 0 {
                    seq![cur@]
                } else {
                    Seq::<Seq<char>>::empty()
                };
                assert(views(before) + (piece + colon_split(cs@, i + 2, Seq::empty())) =~= views(out@) + colon_split(
                    cs@,
                    i + 2,
                    Seq::empty(),
                ));
            }
            cur = Vec::new();
            assert(cur@ =~= Seq::<char>::empty());
            i = i + 2;
        } else {
            cur.push(cs[i]);
            i = i + 1;
        }
    }
    let ghost before = out@;
    if cur.len() > 0 {
        out.push(string_from_chars(cur.as_slice()));
        assert(views(out@) =~= views(before) + seq![cur@]);
    } else {
        assert(views(out@) =~= views(before) + Seq::<Seq<char>>::empty());
    }
    out
}

/// The name a declarator chain declares, and whether a function declarator
/// lies on the way: an identifier (or destructor or operator name) names
/// itself, a qualified identifier its last `::` segment; a function
/// declarator looks through its `declarator`; another node through its
/// `declarator` field, or else the first of its children that yields a name.
pub open spec fn cpp_decl_name(t: SyntaxTree, n: int) -> Option<(Seq<char>, bool)>
    decreases t.size() - n, t.children_of(n).len() + 1,
{
    let k = t.kind_of(n);
    if k == "identifier"@ || k == "type_identifier"@ || k == "field_identifier"@ || k == "destructor_name"@ || k
        == "operator_name"@ {
        Some((t.text_of(n), false))
    } else if k == "qualified_identifier"@ {
        Some((last_segment(t.text_of(n)), false))
    } else if k == "function_declarator"@ {
        match t.field_child_of(n, "declarator"@) {
            Some(inner) => if n < inner < t.size() {
                match cpp_decl_name(t, inner as int) {
                    Some(p) => Some((p.0, true)),
                    None => None,
                }
            } else {
                None
            },
            None => None,
        }
    } else {
        match t.field_child_of(n, "declarator"@) {
            Some(d) => if n < d < t.size() {
                cpp_decl_name(t, d as int)
            } else {
                None
            },
            None => cpp_decl_name_first(t, n, t.children_of(n)),
        }
    }
}

/// The name the first of `cs` (children of `n`) that yields one declares.
pub open spec fn cpp_decl_name_first(t: SyntaxTree, n: int, cs: Seq<usize>) -> Option<(Seq<char>, bool)>
    decreases t.size() - n, cs.len(),
{
    if cs.len() == 0 {
        None
    } else if n < cs[0] < t.size() && cpp_decl_name(t, cs[0] as int) is Some {
        cpp_decl_name(t, cs[0] as int)
    } else {
        cpp_decl_name_first(t, n, cs.skip(1))
    }
}

/// The name a declarator chain declares, and whether a function declarator
/// lies on the way.
fn declarator_name(t: &SyntaxTree, n: usize) -> (r: Option<(String, bool)>)
    requires
        t.wf(),
        n < t.size(),
    ensures
        r is Some == cpp_decl_name(*t, n as int) is Some,
        r matches Some(p) ==> p.0@ == cpp_decl_name(*t, n as int).unwrap().0 && p.1 == cpp_decl_name(*t, n as int).unwrap().1,
    decreases t.size() - n,
{
    if t.is_kind(n, "identifier") || t.is_kind(n, "type_identifier") || t.is_kind(n, "field_identifier")
        || t.is_kind(n, "destructor_name") || t.is_kind(n, "operator_name") {
        return Some((t.text(n), false));
    }
    if t.is_kind(n, "qualified_identifier") {
        let text = t.text(n);
        return Some((last_path_segment(&text), false));
    }
    if t.is_kind(n, "function_declarator") {
        return match t.field_child(n, "declarator") {
            Some(inner) => match declarator_name(t, inner) {
                Some((name, _)) => Some((name, true)),
                None => None,
            },
            None => None,
        };
    }
    match t.field_child(n, "declarator") {
        Some(d) => {
            return declarator_name(t, d);
        },
        None => {},
    }
    let ch = t.children(n);
    let mut k: usize = 0;
    assert(ch@.skip(0) =~= ch@);
    while k < ch.len()
        invariant
            t.wf(),
            n < t.size(),
            k <= ch.len(),
            ch@ == t.children_of(n as int),
            forall|j: int| 0 <= j < ch.len() ==> n < #[trigger] ch@[j] < t.size(),
            cpp_decl_name_first(*t, n as int, ch@.skip(k as int)) == cpp_decl_name(*t, n as int),
        decreases ch.len() - k,
    {
        assert(ch@.skip(k as int)[0] == ch@[k as int]);
        match declarator_name(t, ch[k]) {
            Some(r) => {
                return Some(r);
            },
            None => {},
        }
        assert(ch@.skip(k as int).skip(1) =~= ch@.skip(k + 1));
        k = k + 1;
    }
    None
}

/// The type name a class / struct / union name node gives: a type
/// identifier, the name of a template type, or the last `::` segment of a
/// qualified name.
pub open spec fn cpp_type_leaf(t: SyntaxTree, n: int) -> Option<Seq<char>>
    decreases t.size() - n,
{
    let k = t.kind_of(n);
    if k == "type_identifier"@ {
        Some(t.text_of(n))
    } else if k == "template_type"@ {
        match t.field_child_of(n, "name"@) {
            Some(nm) => if n < nm < t.size() {
                cpp_type_leaf(t, nm as int)
            } else {
                None
            },
            None => None,
        }
    } else if k == "qualified_identifier"@ {
        Some(last_segment(t.text_of(n)))
    } else {
        None
    }
}

/// The type name name node `n` gives.
fn type_leaf_name(t: &SyntaxTree, n: usize) -> (r: Option<String>)
    requires
        t.wf(),
        n < t.size(),
    ensures
        r is Some == cpp_type_leaf(*t, n as int) is Some,
        r matches Some(s) ==> s@ == cpp_type_leaf(*t, n as int)->0,
    decreases t.size() - n,
{
    if t.is_kind(n, "type_identifier") {
        Some(t.text(n))
    } else if t.is_kind(n, "template_type") {
        match t.field_child(n, "name") {
            Some(nm) => type_leaf_name(t, nm),
            None => None,
        }
    } else if t.is_kind(n, "qualified_identifier") {
        let text = t.text(n);
        Some(last_path_segment(&text))
    } else {
        None
    }
}

/// Where a C++ signature stops.
pub open spec fn cpp_stops() -> Seq<char> {
    seq!['{', ';']
}

/// The kind, default member visibility and enum-ness of an aggregate
/// specifier of kind `k`.
pub open spec fn cpp_aggregate_info(k: Seq<char>) -> Option<(SymbolKind, bool, bool)> {
    if k == "class_specifier"@ {
        Some((SymbolKind::Class, false, false))
    } else if k == "struct_specifier"@ || k == "union_specifier"@ {
        Some((SymbolKind::Struct, true, false))
    } else if k == "enum_specifier"@ {
        Some((SymbolKind::Enum, true, true))
    } else {
        None
    }
}

/// What an aggregate specifier `spec` with a body and a name defines in the
/// namespaces `ns`: its type, then (unless an enum) its visible members.
pub open spec fn cpp_aggregate(t: SyntaxTree, spec: int, ns: Seq<Seq<char>>) -> Seq<Def>
    decreases t.size() - spec, 0nat, 1nat,
{
    match cpp_aggregate_info(t.kind_of(spec)) {
        None => Seq::empty(),
        Some(info) => match t.field_child_of(spec, "body"@) {
            None => Seq::empty(),
            Some(body) => match t.field_child_of(spec, "name"@) {
                None => Seq::empty(),
                Some(nm) => match cpp_type_leaf(t, nm as int) {
                    None => Seq::empty(),
                    Some(name) => seq![(spec, name, info.0, namespaces_text(ns) + type_text(name))] + if info.2 {
                        Seq::empty()
                    } else if spec < body < t.size() {
                        cpp_members_from(t, body as int, t.children_of(body as int), ns, name, info.1)
                    } else {
                        Seq::empty()
                    },
                },
            },
        },
    }
}

/// What the members `ms` of body `body` of type `name` (in namespaces `ns`)
/// define, visibility starting as `public` and following the access
/// specifiers met in order.
pub open spec fn cpp_members_from(t: SyntaxTree, body: int, ms: Seq<usize>, ns: Seq<Seq<char>>, name: Seq<char>, public: bool) -> Seq<Def>
    decreases t.size() - body, ms.len(), 0nat,
{
    if ms.len() == 0 {
        Seq::empty()
    } else {
        let m = ms[0];
        if t.kind_of(m as int) == "access_specifier"@ {
            cpp_members_from(t, body, ms.skip(1), ns, name, has_prefix(t.text_of(m as int), "public"@))
        } else {
            (if public {
                cpp_member(t, body, m, ns, name)
            } else {
                Seq::empty()
            }) + cpp_members_from(t, body, ms.skip(1), ns, name, public)
        }
    }
}

/// What visible member `m` of body `body` of type `name` defines: a method
/// (a function definition, or a field whose declarator is a function), a
/// field, or a nested aggregate (under the type's path as namespaces).
pub open spec fn cpp_member(t: SyntaxTree, body: int, m: usize, ns: Seq<Seq<char>>, name: Seq<char>) -> Seq<Def>
    decreases t.size() - body, 0nat, 0nat,
{
    let k = t.kind_of(m as int);
    let here = namespaces_text(ns) + types_text(seq![name]);
    if k == "function_definition"@ || k == "field_declaration"@ {
        match t.field_child_of(m as int, "declarator"@) {
            Some(d) => match cpp_decl_name(t, d as int) {
                Some(p) => if k == "function_definition"@ || p.1 {
                    seq![(m as int, p.0, SymbolKind::Method, here + method_text(p.0))]
                } else {
                    seq![(m as int, p.0, SymbolKind::Static, here + term_text(p.0))]
                },
                None => Seq::empty(),
            },
            None => Seq::empty(),
        }
    } else if k == "class_specifier"@ || k == "struct_specifier"@ || k == "union_specifier"@ || k == "enum_specifier"@ {
        if body < m < t.size() {
            cpp_aggregate(t, m as int, ns.push(name))
        } else {
            Seq::empty()
        }
    } else {
        Seq::empty()
    }
}

/// What the declarators among `ds` (children of declaration `n`) declare.
pub open spec fn cpp_declarators(t: SyntaxTree, n: int, ds: Seq<usize>, nst: Seq<char>) -> Seq<Def>
    decreases ds.len(),
{
    if ds.len() == 0 {
        Seq::empty()
    } else {
        let d = ds.last();
        cpp_declarators(t, n, ds.drop_last(), nst) + if t.field_of(d as int) == Some("declarator"@) {
            match cpp_decl_name(t, d as int) {
                Some(p) => if p.1 {
                    seq![(n, p.0, SymbolKind::Function, nst + method_text(p.0))]
                } else {
                    seq![(n, p.0, SymbolKind::Static, nst + term_text(p.0))]
                },
                None => Seq::empty(),
            }
        } else {
            Seq::empty()
        }
    }
}

/// The aggregate the `type` field of `n` defines, in namespaces `ns`.
pub open spec fn cpp_type_field(t: SyntaxTree, n: int, ns: Seq<Seq<char>>) -> Seq<Def> {
    match t.field_child_of(n, "type"@) {
        Some(sp) => cpp_aggregate(t, sp as int, ns),
        None => Seq::empty(),
    }
}

/// The namespaces inside namespace block `n` of namespaces `ns`: those,
/// then the `::` segments of its name.
pub open spec fn cpp_nested_ns(t: SyntaxTree, n: int, ns: Seq<Seq<char>>) -> Seq<Seq<char>> {
    ns + match t.field_child_of(n, "name"@) {
        Some(nm) => colon_split(t.text_of(nm as int), 0, Seq::empty()),
        None => Seq::empty(),
    }
}

/// What declaration-level node `n` defines in namespaces `ns`: a namespace
/// block's contents; a non-static function; a non-static declaration's
/// aggregate and declarators; an aggregate; a typedef's aggregate and alias;
/// a `using` alias; what a template declares; a macro.
pub open spec fn cpp_node(t: SyntaxTree, n: int, ns: Seq<Seq<char>>) -> Seq<Def>
    decreases t.size() - n, t.children_of(n).len() + 1,
{
    let k = t.kind_of(n);
    let nst = namespaces_text(ns);
    if k == "namespace_definition"@ {
        match t.field_child_of(n, "body"@) {
            Some(b) => if n < b < t.size() {
                cpp_defs_in(t, b as int, t.children_of(b as int), cpp_nested_ns(t, n, ns))
            } else {
                Seq::empty()
            },
            None => Seq::empty(),
        }
    } else if k == "function_definition"@ {
        if !c_is_static(t, n) {
            match t.field_child_of(n, "declarator"@) {
                Some(d) => match cpp_decl_name(t, d as int) {
                    Some(p) => seq![(n, p.0, SymbolKind::Function, nst + method_text(p.0))],
                    None => Seq::empty(),
                },
                None => Seq::empty(),
            }
        } else {
            Seq::empty()
        }
    } else if k == "declaration"@ {
        if !c_is_static(t, n) {
            cpp_type_field(t, n, ns) + cpp_declarators(t, n, t.children_of(n), nst)
        } else {
            Seq::empty()
        }
    } else if k == "class_specifier"@ || k == "struct_specifier"@ || k == "union_specifier"@ || k == "enum_specifier"@ {
        cpp_aggregate(t, n, ns)
    } else if k == "type_definition"@ {
        cpp_type_field(t, n, ns) + match t.field_child_of(n, "declarator"@) {
            Some(d) => match cpp_decl_name(t, d as int) {
                Some(p) => seq![(n, p.0, SymbolKind::TypeAlias, nst + type_text(p.0))],
                None => Seq::empty(),
            },
            None => Seq::empty(),
        }
    } else if k == "alias_declaration"@ {
        match t.field_child_of(n, "name"@) {
            Some(nm) => seq![(n, t.text_of(nm as int), SymbolKind::TypeAlias, nst + type_text(t.text_of(nm as int)))],
            None => Seq::empty(),
        }
    } else if k == "template_declaration"@ {
        cpp_template_in(t, n, t.children_of(n), ns)
    } else if k == "preproc_def"@ || k == "preproc_function_def"@ {
        match t.field_child_of(n, "name"@) {
            Some(nm) => seq![
                (
                    n,
                    t.text_of(nm as int),
                    if k == "preproc_def"@ {
                        SymbolKind::Const
                    } else {
                        SymbolKind::Function
                    },
                    nst + macro_text(t.text_of(nm as int)),
                ),
            ],
            None => Seq::empty(),
        }
    } else {
        Seq::empty()
    }
}

/// Whether a child of kind `k` of a template declaration is what it
/// declares.
pub open spec fn cpp_templated(k: Seq<char>) -> bool {
    k == "function_definition"@ || k == "declaration"@ || k == "alias_declaration"@ || k == "class_specifier"@ || k
        == "struct_specifier"@ || k == "union_specifier"@
}

/// What the children `cs` of template declaration `n` that it declares
/// define.
pub open spec fn cpp_template_in(t: SyntaxTree, n: int, cs: Seq<usize>, ns: Seq<Seq<char>>) -> Seq<Def>
    decreases t.size() - n, cs.len(),
{
    if cs.len() == 0 {
        Seq::empty()
    } else {
        let c = cs.last();
        cpp_template_in(t, n, cs.drop_last(), ns) + if cpp_templated(t.kind_of(c as int)) && n < c < t.size() {
            cpp_node(t, c as int, ns)
        } else {
            Seq::empty()
        }
    }
}

/// What the children `cs` of `node` define, in namespaces `ns`.
pub open spec fn cpp_defs_in(t: SyntaxTree, node: int, cs: Seq<usize>, ns: Seq<Seq<char>>) -> Seq<Def>
    decreases t.size() - node, cs.len(),
{
    if cs.len() == 0 {
        Seq::empty()
    } else {
        let c = cs.last();
        cpp_defs_in(t, node, cs.drop_last(), ns) + if node < c < t.size() {
            cpp_node(t, c as int, ns)
        } else {
            Seq::empty()
        }
    }
}

/// The definitions among the children of `container`, in namespaces `ns`.
fn collect_defs(t: &SyntaxTree, container: usize, ns: &Vec<String>, file: &str, out: &mut Vec<Symbol>)
    requires
        t.wf(),
        container < t.size(),
    ensures
        defs_grow(
            *t,
            file@,
            Language::Cpp,
            cpp_stops(),
            old(out)@,
            final(out)@,
            cpp_defs_in(*t, container as int, t.children_of(container as int), views(ns@)),
        ),
    decreases t.size() - container, 0nat,
{
    let ghost nsv = views(ns@);
    let ch = t.children(container);
    let mut k: usize = 0;
    assert(ch@.take(0) =~= Seq::<usize>::empty());
    proof {
        lemma_defs_grow_none(*t, file@, Language::Cpp, cpp_stops(), out@);
    }
    while k < ch.len()
        invariant
            t.wf(),
            container < t.size(),
            k <= ch.len(),
            ch@ == t.children_of(container as int),
            nsv == views(ns@),
            forall|j: int| 0 <= j < ch.len() ==> container < #[trigger] ch@[j] < t.size(),
            defs_grow(*t, file@, Language::Cpp, cpp_stops(), old(out)@, out@, cpp_defs_in(*t, container as int, ch@.take(k as int), nsv)),
        decreases ch.len() - k,
    {
        let c = ch[k];
        let ghost mid = out@;
        proof {
            assert(ch@.take(k + 1).drop_last() =~= ch@.take(k as int));
            assert(ch@.take(k + 1).last() == c);
        }
        process_node(t, c, ns, file, out);
        proof {
            lemma_defs_grow_trans(
                *t,
                file@,
                Language::Cpp,
                cpp_stops(),
                old(out)@,
                mid,
                out@,
                cpp_defs_in(*t, container as int, ch@.take(k as int), nsv),
                cpp_node(*t, c as int, nsv),
            );
        }
        k = k + 1;
    }
    assert(ch@.take(ch.len() as int) =~= ch@);
}

/// What the declarators of declaration `n` declare.
fn push_declarators(t: &SyntaxTree, n: usize, ns: &Vec<String>, file: &str, out: &mut Vec<Symbol>)
    requires
        t.wf(),
        n < t.size(),
    ensures
        defs_grow(
            *t,
            file@,
            Language::Cpp,
            cpp_stops(),
            old(out)@,
            final(out)@,
            cpp_declarators(*t, n as int, t.children_of(n as int), namespaces_text(views(ns@))),
        ),
{
    let ghost nst = namespaces_text(views(ns@));
    let stops = vec!['{', ';'];
    assert(stops@ =~= cpp_stops());
    let ds = t.children(n);
    let mut j: usize = 0;
    assert(ds@.take(0) =~= Seq::<usize>::empty());
    proof {
        lemma_defs_grow_none(*t, file@, Language::Cpp, cpp_stops(), out@);
    }
    while j < ds.len()
        invariant
            t.wf(),
            n < t.size(),
            j <= ds.len(),
            ds@ == t.children_of(n as int),
            stops@ == cpp_stops(),
            nst == namespaces_text(views(ns@)),
            forall|x: int| 0 <= x < ds.len() ==> #[trigger] ds@[x] < t.size(),
            defs_grow(*t, file@, Language::Cpp, cpp_stops(), old(out)@, out@, cpp_declarators(*t, n as int, ds@.take(j as int), nst)),
        decreases ds.len() - j,
    {
        let d = ds[j];
        let ghost mid = out@;
        proof {
            assert(ds@.take(j + 1).drop_last() =~= ds@.take(j as int));
            assert(ds@.take(j + 1).last() == d);
            lemma_defs_grow_none(*t, file@, Language::Cpp, cpp_stops(), mid);
        }
        if t.has_field(d, "declarator") {
            match declarator_name(t, d) {
                Some((name, true)) => {
                    let leaf = Descriptor::Method { name: name.clone(), disambiguator: String::new() };
                    assert(descriptor_text(leaf) =~= method_text(name@));
                    push_ns_def(out, t, n, Language::Cpp, ns, leaf, name, SymbolKind::Function, file, &stops);
                },
                Some((name, false)) => {
                    let leaf = Descriptor::Term(name.clone());
                    assert(descriptor_text(leaf) =~= term_text(name@));
                    push_ns_def(out, t, n, Language::Cpp, ns, leaf, name, SymbolKind::Static, file, &stops);
                },
                None => {},
            }
        }
        proof {
            let prev = cpp_declarators(*t, n as int, ds@.take(j as int), nst);
            let step = cpp_declarators(*t, n as int, ds@.take(j + 1), nst).skip(prev.len() as int);
            assert(cpp_declarators(*t, n as int, ds@.take(j + 1), nst) =~= prev + step);
            lemma_defs_grow_trans(*t, file@, Language::Cpp, cpp_stops(), old(out)@, mid, out@, prev, step);
        }
        j = j + 1;
    }
    assert(ds@.take(ds.len() as int) =~= ds@);
}

/// The aggregate the `type` field of `n` defines.
fn push_type_field(t: &SyntaxTree, n: usize, ns: &Vec<String>, file: &str, out: &mut Vec<Symbol>)
    requires
        t.wf(),
        n < t.size(),
    ensures
        defs_grow(*t, file@, Language::Cpp, cpp_stops(), old(out)@, final(out)@, cpp_type_field(*t, n as int, views(ns@))),
{
    proof {
        lemma_defs_grow_none(*t, file@, Language::Cpp, cpp_stops(), out@);
    }
    match t.field_child(n, "type") {
        Some(spec) => emit_aggregate(t, spec, ns, file, out),
        None => {},
    }
}

/// One declaration-level node in namespaces `ns`: namespace blocks (their
/// names extending `ns`), function definitions, declarations (and the
/// aggregates they define), aggregates, typedefs, `using` aliases, templated
/// declarations and macros.
fn process_node(t: &SyntaxTree, n: usize, ns: &Vec<String>, file: &str, out: &mut Vec<Symbol>)
    requires
        t.wf(),
        n < t.size(),
    ensures
        defs_grow(*t, file@, Language::Cpp, cpp_stops(), old(out)@, final(out)@, cpp_node(*t, n as int, views(ns@))),
    decreases t.size() - n, 1nat,
{
    let ghost nsv = views(ns@);
    let ghost nst = namespaces_text(nsv);
    let stops = vec!['{', ';'];
    assert(stops@ =~= cpp_stops());
    proof {
        lemma_defs_grow_none(*t, file@, Language::Cpp, cpp_stops(), out@);
    }
    if t.is_kind(n, "namespace_definition") {
        let segs = match t.field_child(n, "name") {
            Some(nm) => {
                let text = t.text(nm);
                let cs = chars_of(text.as_str());
                colon_segments(&cs)
            },
            None => {
                let v: Vec<String> = Vec::new();
                assert(views(v@) =~= Seq::<Seq<char>>::empty());
                v
            },
        };
        let nested = strings_append(ns, &segs);
        assert(views(nested@) == cpp_nested_ns(*t, n as int, nsv));
        match t.field_child(n, "body") {
            Some(body) => collect_defs(t, body, &nested, file, out),
            None => {},
        }
    } else if t.is_kind(n, "function_definition") {
        if !is_static(t, n) {
            match t.field_child(n, "declarator") {
                Some(d) => match declarator_name(t, d) {
                    Some((name, _)) => {
                        let leaf = Descriptor::Method { name: name.clone(), disambiguator: String::new() };
                        assert(descriptor_text(leaf) =~= method_text(name@));
                        push_ns_def(out, t, n, Language::Cpp, ns, leaf, name, SymbolKind::Function, file, &stops);
                    },
                    None => {},
                },
                None => {},
            }
        }
    } else if t.is_kind(n, "declaration") {
        if !is_static(t, n) {
            push_type_field(t, n, ns, file, out);
            let ghost agg = out@;
            push_declarators(t, n, ns, file, out);
            proof {
                lemma_defs_grow_trans(
                    *t,
                    file@,
                    Language::Cpp,
                    cpp_stops(),
                    old(out)@,
                    agg,
                    out@,
                    cpp_type_field(*t, n as int, nsv),
                    cpp_declarators(*t, n as int, t.children_of(n as int), nst),
                );
            }
        }
    } else if t.is_kind(n, "class_specifier") || t.is_kind(n, "struct_specifier") || t.is_kind(n, "union_specifier")
        || t.is_kind(n, "enum_specifier") {
        emit_aggregate(t, n, ns, file, out);
    } else if t.is_kind(n, "type_definition") {
        push_type_field(t, n, ns, file, out);
        let ghost agg = out@;
        proof {
            lemma_defs_grow_none(*t, file@, Language::Cpp, cpp_stops(), agg);
        }
        match t.field_child(n, "declarator") {
            Some(d) => match declarator_name(t, d) {
                Some((name, _)) => {
                    let leaf = Descriptor::Type(name.clone());
                    assert(descriptor_text(leaf) =~= type_text(name@));
                    push_ns_def(out, t, n, Language::Cpp, ns, leaf, name, SymbolKind::TypeAlias, file, &stops);
                },
                None => {},
            },
            None => {},
        }
        proof {
            let tail = cpp_node(*t, n as int, nsv).skip(cpp_type_field(*t, n as int, nsv).len() as int);
            assert(cpp_node(*t, n as int, nsv) =~= cpp_type_field(*t, n as int, nsv) + tail);
            lemma_defs_grow_trans(*t, file@, Language::Cpp, cpp_stops(), old(out)@, agg, out@, cpp_type_field(*t, n as int, nsv), tail);
        }
    } else if t.is_kind(n, "alias_declaration") {
        match field_text(t, n, "name") {
            Some(name) => {
                let leaf = Descriptor::Type(name.clone());
                assert(descriptor_text(leaf) =~= type_text(name@));
                push_ns_def(out, t, n, Language::Cpp, ns, leaf, name, SymbolKind::TypeAlias, file, &stops);
            },
            None => {},
        }
    } else if t.is_kind(n, "template_declaration") {
        let ch = t.children(n);
        let mut j: usize = 0;
        assert(ch@.take(0) =~= Seq::<usize>::empty());
        while j < ch.len()
            invariant
                t.wf(),
                n < t.size(),
                j <= ch.len(),
                ch@ == t.children_of(n as int),
                nsv == views(ns@),
                forall|x: int| 0 <= x < ch.len() ==> n < #[trigger] ch@[x] < t.size(),
                defs_grow(*t, file@, Language::Cpp, cpp_stops(), old(out)@, out@, cpp_template_in(*t, n as int, ch@.take(j as int), nsv)),
            decreases ch.len() - j,
        {
            let c = ch[j];
            let ghost mid = out@;
            proof {
                assert(ch@.take(j + 1).drop_last() =~= ch@.take(j as int));
                assert(ch@.take(j + 1).last() == c);
                lemma_defs_grow_none(*t, file@, Language::Cpp, cpp_stops(), mid);
            }
            if t.is_kind(c, "function_definition") || t.is_kind(c, "declaration") || t.is_kind(c, "alias_declaration")
                || t.is_kind(c, "class_specifier") || t.is_kind(c, "struct_specifier") || t.is_kind(c, "union_specifier") {
                process_node(t, c, ns, file, out);
            }
            proof {
                let prev = cpp_template_in(*t, n as int, ch@.take(j as int), nsv);
                let step = cpp_template_in(*t, n as int, ch@.take(j + 1), nsv).skip(prev.len() as int);
                assert(cpp_template_in(*t, n as int, ch@.take(j + 1), nsv) =~= prev + step);
                lemma_defs_grow_trans(*t, file@, Language::Cpp, cpp_stops(), old(out)@, mid, out@, prev, step);
            }
            j = j + 1;
        }
        assert(ch@.take(ch.len() as int) =~= ch@);
    } else if t.is_kind(n, "preproc_def") || t.is_kind(n, "preproc_function_def") {
        let kind = if t.is_kind(n, "preproc_def") {
            SymbolKind::Const
        } else {
            SymbolKind::Function
        };
        match field_text(t, n, "name") {
            Some(name) => {
                let leaf = Descriptor::Macro(name.clone());
                assert(descriptor_text(leaf) =~= macro_text(name@));
                push_ns_def(out, t, n, Language::Cpp, ns, leaf, name, kind, file, &stops);
            },
            None => {},
        }
    }
}

/// A class / struct / union / enum specifier with a body and a name defines
/// a type in namespaces `ns`; the visible members of a class, struct or
/// union follow under it.
fn emit_aggregate(t: &SyntaxTree, spec: usize, ns: &Vec<String>, file: &str, out: &mut Vec<Symbol>)
    requires
        t.wf(),
        spec < t.size(),
    ensures
        defs_grow(*t, file@, Language::Cpp, cpp_stops(), old(out)@, final(out)@, cpp_aggregate(*t, spec as int, views(ns@))),
    decreases t.size() - spec, 0nat, 1nat,
{
    let ghost nsv = views(ns@);
    let stops = vec!['{', ';'];
    assert(stops@ =~= cpp_stops());
    proof {
        lemma_defs_grow_none(*t, file@, Language::Cpp, cpp_stops(), out@);
    }
    let (kind, default_public, is_enum) = if t.is_kind(spec, "class_specifier") {
        (SymbolKind::Class, false, false)
    } else if t.is_kind(spec, "struct_specifier") || t.is_kind(spec, "union_specifier") {
        (SymbolKind::Struct, true, false)
    } else if t.is_kind(spec, "enum_specifier") {
        (SymbolKind::Enum, true, true)
    } else {
        return;
    };
    assert(cpp_aggregate_info(t.kind_of(spec as int)) == Some((kind, default_public, is_enum)));
    let body = match t.field_child(spec, "body") {
        Some(b) => b,
        None => {
            return;
        },
    };
    let name = match t.field_child(spec, "name") {
        Some(nm) => match type_leaf_name(t, nm) {
            Some(name) => name,
            None => {
                return;
            },
        },
        None => {
            return;
        },
    };
    let ghost nm = name@;
    let leaf = Descriptor::Type(name.clone());
    assert(descriptor_text(leaf) =~= type_text(name@));
    let keep = name.clone();
    push_ns_def(out, t, spec, Language::Cpp, ns, leaf, name, kind, file, &stops);
    let ghost one = out@;
    if is_enum {
        proof {
            assert(cpp_aggregate(*t, spec as int, nsv) =~= seq![(spec as int, nm, kind, namespaces_text(nsv) + type_text(nm))]);
        }
        return;
    }
    collect_members(t, body, ns, &keep, default_public, file, out);
    proof {
        lemma_defs_grow_trans(
            *t,
            file@,
            Language::Cpp,
            cpp_stops(),
            old(out)@,
            one,
            out@,
            seq![(spec as int, nm, kind, namespaces_text(nsv) + type_text(nm))],
            cpp_members_from(*t, body as int, t.children_of(body as int), nsv, nm, default_public),
        );
    }
}

/// The visible members of a member list of type `name` (in namespaces
/// `ns`), visibility following the access specifiers met in order: methods,
/// fields (by their first declarator) and nested aggregates (under the
/// outer type's path as namespaces).
fn collect_members(t: &SyntaxTree, body: usize, ns: &Vec<String>, name: &String, default_public: bool, file: &str, out: &mut Vec<Symbol>)
    requires
        t.wf(),
        body < t.size(),
    ensures
        defs_grow(
            *t,
            file@,
            Language::Cpp,
            cpp_stops(),
            old(out)@,
            final(out)@,
            cpp_members_from(*t, body as int, t.children_of(body as int), views(ns@), name@, default_public),
        ),
    decreases t.size() - body, t.children_of(body as int).len() + 1, 0nat,
{
    let ghost nsv = views(ns@);
    let stops = vec!['{', ';'];
    assert(stops@ =~= cpp_stops());
    let no_types: Vec<String> = Vec::new();
    let types = strings_push(&no_types, name);
    assert(views(types@) =~= seq![name@]);
    let nested_ns = strings_push(ns, name);
    let mut public = default_public;
    let ms = t.children(body);
    let mut k: usize = 0;
    assert(ms@.skip(0) =~= ms@);
    proof {
        lemma_defs_grow_none(*t, file@, Language::Cpp, cpp_stops(), out@);
        reveal_strlit("public");
    }
    let ghost total = cpp_members_from(*t, body as int, ms@, nsv, name@, default_public);
    while k < ms.len()
        invariant
            t.wf(),
            body < t.size(),
            k <= ms.len(),
            ms@ == t.children_of(body as int),
            stops@ == cpp_stops(),
            nsv == views(ns@),
            views(types@) == seq![name@],
            views(nested_ns@) == nsv.push(name@),
            total == cpp_members_from(*t, body as int, ms@, nsv, name@, default_public),
            forall|j: int| 0 <= j < ms.len() ==> body < #[trigger] ms@[j] < t.size(),
            exists|d: Seq<Def>|
                #![trigger defs_grow(*t, file@, Language::Cpp, cpp_stops(), old(out)@, out@, d)]
                defs_grow(*t, file@, Language::Cpp, cpp_stops(), old(out)@, out@, d) && d + cpp_members_from(
                    *t,
                    body as int,
                    ms@.skip(k as int),
                    nsv,
                    name@,
                    public,
                ) == total,
        decreases ms.len() - k,
    {
        let m = ms[k];
        let ghost mid = out@;
        let ghost d = choose|d: Seq<Def>|
            #![trigger defs_grow(*t, file@, Language::Cpp, cpp_stops(), old(out)@, out@, d)]
            defs_grow(*t, file@, Language::Cpp, cpp_stops(), old(out)@, out@, d) && d + cpp_members_from(
                *t,
                body as int,
                ms@.skip(k as int),
                nsv,
                name@,
                public,
            ) == total;
        proof {
            assert(ms@.skip(k as int)[0] == m);
            assert(ms@.skip(k as int).skip(1) =~= ms@.skip(k + 1));
            lemma_defs_grow_none(*t, file@, Language::Cpp, cpp_stops(), mid);
        }
        if t.is_kind(m, "access_specifier") {
            let text = t.text(m);
            let cs = chars_of(text.as_str());
            let p = chars_of("public");
            assert(cs@.skip(0) =~= cs@);
            public = matches_at(&cs, 0, &p);
            proof {
                assert(d + cpp_members_from(*t, body as int, ms@.skip(k + 1), nsv, name@, public) == total);
            }
        } else {
            let ghost was_public = public;
            if public {
                push_member(t, body, m, ns, &types, &nested_ns, name, file, out);
            }
            proof {
                let step = if was_public {
                    cpp_member(*t, body as int, m, nsv, name@)
                } else {
                    Seq::<Def>::empty()
                };
                lemma_defs_grow_trans(*t, file@, Language::Cpp, cpp_stops(), old(out)@, mid, out@, d, step);
                assert((d + step) + cpp_members_from(*t, body as int, ms@.skip(k + 1), nsv, name@, public) =~= d + (step
                    + cpp_members_from(*t, body as int, ms@.skip(k + 1), nsv, name@, public)));
                assert(defs_grow(*t, file@, Language::Cpp, cpp_stops(), old(out)@, out@, d + step));
            }
        }
        k = k + 1;
    }
    proof {
        let d = choose|d: Seq<Def>|
            #![trigger defs_grow(*t, file@, Language::Cpp, cpp_stops(), old(out)@, out@, d)]
            defs_grow(*t, file@, Language::Cpp, cpp_stops(), old(out)@, out@, d) && d + cpp_members_from(
                *t,
                body as int,
                ms@.skip(k as int),
                nsv,
                name@,
                public,
            ) == total;
        assert(ms@.skip(k as int).len() == 0);
        assert(d + Seq::<Def>::empty() =~= d);
    }
}

/// What visible member `m` of body `body` of type `name` defines.
fn push_member(
    t: &SyntaxTree,
    body: usize,
    m: usize,
    ns: &Vec<String>,
    types: &Vec<String>,
    nested_ns: &Vec<String>,
    name: &String,
    file: &str,
    out: &mut Vec<Symbol>,
)
    requires
        t.wf(),
        body < m < t.size(),
        views(types@) == seq![name@],
        views(nested_ns@) == views(ns@).push(name@),
    ensures
        defs_grow(*t, file@, Language::Cpp, cpp_stops(), old(out)@, final(out)@, cpp_member(*t, body as int, m, views(ns@), name@)),
    decreases t.size() - body, 0nat, 0nat,
{
    let stops = vec!['{', ';'];
    assert(stops@ =~= cpp_stops());
    proof {
        lemma_defs_grow_none(*t, file@, Language::Cpp, cpp_stops(), out@);
    }
    if t.is_kind(m, "function_definition") || t.is_kind(m, "field_declaration") {
        let is_def = t.is_kind(m, "function_definition");
        match t.field_child(m, "declarator") {
            Some(d) => match declarator_name(t, d) {
                Some((mname, is_fn)) => {
                    if is_def || is_fn {
                        let leaf = Descriptor::Method { name: mname.clone(), disambiguator: String::new() };
                        assert(descriptor_text(leaf) =~= method_text(mname@));
                        push_path_def(out, t, m, Language::Cpp, ns, types, leaf, mname, SymbolKind::Method, file, &stops);
                    } else {
                        let leaf = Descriptor::Term(mname.clone());
                        assert(descriptor_text(leaf) =~= term_text(mname@));
                        push_path_def(out, t, m, Language::Cpp, ns, types, leaf, mname, SymbolKind::Static, file, &stops);
                    }
                },
                None => {},
            },
            None => {},
        }
    } else if t.is_kind(m, "class_specifier") || t.is_kind(m, "struct_specifier") || t.is_kind(m, "union_specifier")
        || t.is_kind(m, "enum_specifier") {
        emit_aggregate(t, m, nested_ns, file, out);
    }
}

/// The callee of node `i`: for a call, a bare identifier, the field of a
/// field expression, or the name of a qualified identifier.
pub open spec fn cpp_callee(t: SyntaxTree, i: int) -> Option<usize> {
    if t.kind_of(i) == "call_expression"@ {
        match t.field_child_of(i, "function"@) {
            Some(f) => if t.kind_of(f as int) == "identifier"@ {
                Some(f)
            } else if t.kind_of(f as int) == "field_expression"@ {
                match t.field_child_of(f as int, "field"@) {
                    Some(x) => if t.kind_of(x as int) == "field_identifier"@ {
                        Some(x)
                    } else {
                        None
                    },
                    None => None,
                }
            } else if t.kind_of(f as int) == "qualified_identifier"@ {
                match t.field_child_of(f as int, "name"@) {
                    Some(x) => if t.kind_of(x as int) == "identifier"@ {
                        Some(x)
                    } else {
                        None
                    },
                    None => None,
                }
            } else {
                None
            },
            None => None,
        }
    } else {
        None
    }
}

/// The callees of nodes `0..n`, in pre-order.
pub open spec fn cpp_calls_upto(t: SyntaxTree, n: int) -> Seq<RefItem>
    decreases n,
{
    if n <= 0 {
        Seq::empty()
    } else {
        cpp_calls_upto(t, n - 1) + match cpp_callee(t, n - 1) {
            Some(c) => seq![(c as int, t.text_of(c as int), RefRole::Call)],
            None => Seq::empty(),
        }
    }
}

/// Call references: the callee of every call — a bare identifier, the field
/// of a field expression, or the name of a qualified identifier.
fn collect_calls(t: &SyntaxTree, file: &str, out: &mut Vec<Reference>)
    requires
        t.wf(),
    ensures
        refs_grow(*t, file@, old(out)@, final(out)@, cpp_calls_upto(*t, t.size())),
{
    let mut i: usize = 0;
    proof {
        lemma_refs_grow_none(*t, file@, out@);
    }
    while i < t.nodes.len()
        invariant
            t.wf(),
            i <= t.nodes.len(),
            refs_grow(*t, file@, old(out)@, out@, cpp_calls_upto(*t, i as int)),
        decreases t.nodes.len() - i,
    {
        let ghost before = out@;
        proof {
            lemma_refs_grow_none(*t, file@, before);
        }
        let mut callee: Option<usize> = None;
        if t.is_kind(i, "call_expression") {
            match t.field_child(i, "function") {
                Some(f) => {
                    callee = if t.is_kind(f, "identifier") {
                        Some(f)
                    } else if t.is_kind(f, "field_expression") {
                        match t.field_child(f, "field") {
                            Some(x) => if t.is_kind(x, "field_identifier") {
                                Some(x)
                            } else {
                                None
                            },
                            None => None,
                        }
                    } else if t.is_kind(f, "qualified_identifier") {
                        match t.field_child(f, "name") {
                            Some(x) => if t.is_kind(x, "identifier") {
                                Some(x)
                            } else {
                                None
                            },
                            None => None,
                        }
                    } else {
                        None
                    };
                },
                None => {},
            }
        }
        assert(callee == cpp_callee(*t, i as int));
        match callee {
            Some(c) => push_ref_item(out, t.text(c), t, c, file, RefRole::Call),
            None => {},
        }
        proof {
            let step = match cpp_callee(*t, i as int) {
                Some(c) => seq![(c as int, t.text_of(c as int), RefRole::Call)],
                None => Seq::<RefItem>::empty(),
            };
            assert(cpp_calls_upto(*t, i + 1) == cpp_calls_upto(*t, i as int) + step);
            lemma_refs_grow_trans(*t, file@, old(out)@, before, out@, cpp_calls_upto(*t, i as int), step);
        }
        i = i + 1;
    }
}

/// The bases the children `bs` of a base-class clause name: type
/// identifiers, qualified identifiers and template types, by simple name
/// (template arguments and `::` qualification dropped), unless empty.
pub open spec fn cpp_bases(t: SyntaxTree, bs: Seq<usize>) -> Seq<RefItem>
    decreases bs.len(),
{
    if bs.len() == 0 {
        Seq::empty()
    } else {
        let b = bs.last();
        let k = t.kind_of(b as int);
        let name = simple_name_of(t.text_of(b as int), "::"@);
        cpp_bases(t, bs.drop_last()) + if (k == "type_identifier"@ || k == "qualified_identifier"@ || k == "template_type"@)
            && name.len() > 0 {
            seq![(b as int, name, RefRole::Inherit)]
        } else {
            Seq::empty()
        }
    }
}

/// The bases class or struct specifier `i` names.
pub open spec fn cpp_inherit_at(t: SyntaxTree, i: int) -> Seq<RefItem> {
    if t.kind_of(i) == "class_specifier"@ || t.kind_of(i) == "struct_specifier"@ {
        match t.kind_child_of(i, "base_class_clause"@) {
            Some(clause) => cpp_bases(t, t.children_of(clause as int)),
            None => Seq::empty(),
        }
    } else {
        Seq::empty()
    }
}

/// The bases nodes `0..n` name, in pre-order.
pub open spec fn cpp_inherits_upto(t: SyntaxTree, n: int) -> Seq<RefItem>
    decreases n,
{
    if n <= 0 {
        Seq::empty()
    } else {
        cpp_inherits_upto(t, n - 1) + cpp_inherit_at(t, n - 1)
    }
}

/// The bases the children of clause `clause` name.
fn push_bases(t: &SyntaxTree, clause: usize, file: &str, out: &mut Vec<Reference>)
    requires
        t.wf(),
        clause < t.size(),
    ensures
        refs_grow(*t, file@, old(out)@, final(out)@, cpp_bases(*t, t.children_of(clause as int))),
{
    let bs = t.children(clause);
    let mut k: usize = 0;
    assert(bs@.take(0) =~= Seq::<usize>::empty());
    proof {
        lemma_refs_grow_none(*t, file@, out@);
    }
    while k < bs.len()
        invariant
            t.wf(),
            k <= bs.len(),
            bs@ == t.children_of(clause as int),
            forall|j: int| 0 <= j < bs.len() ==> #[trigger] bs@[j] < t.size(),
            refs_grow(*t, file@, old(out)@, out@, cpp_bases(*t, bs@.take(k as int))),
        decreases bs.len() - k,
    {
        let b = bs[k];
        let ghost mid = out@;
        proof {
            assert(bs@.take(k + 1).drop_last() =~= bs@.take(k as int));
            assert(bs@.take(k + 1).last() == b);
            lemma_refs_grow_none(*t, file@, mid);
        }
        if t.is_kind(b, "type_identifier") || t.is_kind(b, "qualified_identifier") || t.is_kind(b, "template_type") {
            let text = t.text(b);
            let name = simple_type_name(text.as_str(), "::");
            let nc = chars_of(name.as_str());
            if nc.len() > 0 {
                push_ref_item(out, name, t, b, file, RefRole::Inherit);
            }
        }
        proof {
            let prev = cpp_bases(*t, bs@.take(k as int));
            let step = cpp_bases(*t, bs@.take(k + 1)).skip(prev.len() as int);
            assert(cpp_bases(*t, bs@.take(k + 1)) =~= prev + step);
            lemma_refs_grow_trans(*t, file@, old(out)@, mid, out@, prev, step);
        }
        k = k + 1;
    }
    assert(bs@.take(bs.len() as int) =~= bs@);
}

/// `Inherit` references: the bases in the base-class clause of
/// every class and struct, by simple name (template arguments and `::`
/// qualification dropped); an empty name is skipped.
fn collect_inheritance(t: &SyntaxTree, file: &str, out: &mut Vec<Reference>)
    requires
        t.wf(),
    ensures
        refs_grow(*t, file@, old(out)@, final(out)@, cpp_inherits_upto(*t, t.size())),
{
    let mut i: usize = 0;
    proof {
        lemma_refs_grow_none(*t, file@, out@);
    }
    while i < t.nodes.len()
        invariant
            t.wf(),
            i <= t.nodes.len(),
            refs_grow(*t, file@, old(out)@, out@, cpp_inherits_upto(*t, i as int)),
        decreases t.nodes.len() - i,
    {
        let ghost before = out@;
        proof {
            lemma_refs_grow_none(*t, file@, before);
        }
        if t.is_kind(i, "class_specifier") || t.is_kind(i, "struct_specifier") {
            match t.child_of_kind(i, "base_class_clause") {
                Some(clause) => push_bases(t, clause, file, out),
                None => {},
            }
        }
        proof {
            assert(cpp_inherits_upto(*t, i + 1) == cpp_inherits_upto(*t, i as int) + cpp_inherit_at(*t, i as int));
            lemma_refs_grow_trans(*t, file@, old(out)@, before, out@, cpp_inherits_upto(*t, i as int), cpp_inherit_at(*t, i as int));
        }
        i = i + 1;
    }
}

/// The references of a C++ file, in order: calls, then bases.
pub open spec fn cpp_refs(t: SyntaxTree) -> Seq<RefItem> {
    cpp_calls_upto(t, t.size()) + cpp_inherits_upto(t, t.size())
}

/// What `cpp_facts` states of the facts `r` it builds from tree `t` of
/// `source`, the text of `file`.
pub open spec fn cpp_facts_of(t: SyntaxTree, source: Seq<char>, file: Seq<char>, r: FileFacts) -> bool {
    &&& r.scopes@.len() == 0
    &&& r.bindings@.len() == 0
    &&& r.ffi_exports@.len() == 0
    &&& symbols_match(t, file, Language::Cpp, cpp_stops(), cpp_defs_in(t, 0, t.children_of(0), cpp_namespaces_spec(file)), r.symbols@)
    &&& refs_items(t, file, cpp_refs(t), r.references@)
}

/// The facts of a C++ file from its syntax tree: the definitions of its
/// top-level nodes, in order; calls and bases, each in pre-order.
pub fn cpp_facts(t: &SyntaxTree, source: &str, file: &str) -> (r: FileFacts)
    requires
        t.wf(),
        t.bytes@ == encode_utf8(source@),
    ensures
        facts_wf(r, file@, source@, Language::Cpp),
        cpp_facts_of(*t, source@, file@, r),
{
    let ns = cpp_namespaces(file);
    let mut symbols: Vec<Symbol> = Vec::new();
    collect_defs(t, 0, &ns, file, &mut symbols);
    proof {
        assert(symbols@.skip(0) =~= symbols@);
        assert(symbols_ok(Seq::<Symbol>::empty(), file@, t.bytes.len() as int));
    }
    let mut refs: Vec<Reference> = Vec::new();
    let ghost r0 = refs@;
    collect_calls(t, file, &mut refs);
    let ghost r1 = refs@;
    collect_inheritance(t, file, &mut refs);
    proof {
        lemma_refs_grow_trans(*t, file@, r0, r1, refs@, cpp_calls_upto(*t, t.size()), cpp_inherits_upto(*t, t.size()));
        assert(refs@.skip(0) =~= refs@);
        assert(refs_ok(Seq::<Reference>::empty(), file@, t.bytes.len() as int));
    }
    let scopes: Vec<crate::graph::Scope> = Vec::new();
    let ghost before = refs@;
    let refs = attach_reference_scopes(refs, &scopes);
    proof {
        lemma_refs_items_attached(*t, file@, cpp_refs(*t), before, refs@, scopes@);
    }
    FileFacts {
        file: file.to_owned(),
        lang: Language::Cpp.as_str().to_owned(),
        symbols,
        references: refs,
        scopes,
        bindings: Vec::new(),
        ffi_exports: Vec::new(),
    }
}

impl Extractor for CppExtractor {
    open spec fn spec_lang(&self) -> Language {
        Language::Cpp
    }

    fn lang(&self) -> (r: Language) {
        Language::Cpp
    }

    fn extract(&self, source: &str, file: &str) -> (r: Result<FileFacts>)
        ensures
            r is Ok <==> super::parses(Grammar::Cpp, source@),
            r matches Ok(f) ==> super::extracted(Language::Cpp, source@, file@, f),
    {
        let t = super::parse_tree(Grammar::Cpp, source, file)?;
        let res: Result<FileFacts> = Ok(cpp_facts(&t, source, file));
        assert(super::parsed_by(t, Grammar::Cpp, source@) && cpp_facts_of(t, source@, file@, res->Ok_0));
        res
    }
}

/// A callee of a node before `n` is among the calls of nodes `0..n`.
proof fn lemma_cpp_calls_upto_has(t: SyntaxTree, i: int, n: int, m: usize)
    requires
        0 <= i < n,
        cpp_callee(t, i) == Some(m),
    ensures
        exists|k: int|
            0 <= k < cpp_calls_upto(t, n).len() && cpp_calls_upto(t, n)[k] == (m as int, t.text_of(m as int), RefRole::Call),
    decreases n,
{
    let prev = cpp_calls_upto(t, n - 1);
    if i < n - 1 {
        lemma_cpp_calls_upto_has(t, i, n - 1, m);
        let k = choose|k: int| 0 <= k < prev.len() && prev[k] == (m as int, t.text_of(m as int), RefRole::Call);
        assert(cpp_calls_upto(t, n)[k] == prev[k]);
    } else {
        assert(cpp_calls_upto(t, n)[prev.len() as int] == (m as int, t.text_of(m as int), RefRole::Call));
    }
}

/// Law: every call whose function is an identifier, the field identifier of a field expression, or the identifier named by a qualified identifier is a `Call` reference of the file, named by that node's
/// text and occurring where it starts.
pub proof fn law_cpp_calls_are_referenced(
    t: SyntaxTree,
    source: Seq<char>,
    file: Seq<char>,
    r: FileFacts,
    i: int,
    f: usize,
    m: usize,
)
    requires
        cpp_facts_of(t, source, file, r),
        0 <= i < t.size(),
        t.kind_of(i) == "call_expression"@,
        (t.field_child_of(i, "function"@) == Some(m) && t.kind_of(m as int) == "identifier"@) || (t.field_child_of(i, "function"@) == Some(f) && t.kind_of(f as int) == "field_expression"@ && t.field_child_of(f as int, "field"@) == Some(m) && t.kind_of(m as int) == "field_identifier"@) || (t.field_child_of(i, "function"@) == Some(f) && t.kind_of(f as int) == "qualified_identifier"@ && t.field_child_of(f as int, "name"@) == Some(m) && t.kind_of(m as int) == "identifier"@),
    ensures
        exists|j: int|
            0 <= j < r.references.len() && (#[trigger] r.references@[j]).role == RefRole::Call
                && r.references@[j].name@ == t.text_of(m as int) && r.references@[j].occ.byte
                == t.nodes@[m as int].start,
{
    reveal_strlit("identifier");
    assert("identifier"@ =~= seq!['i', 'd', 'e', 'n', 't', 'i', 'f', 'i', 'e', 'r']);
    reveal_strlit("field_expression");
    assert("field_expression"@ =~= seq!['f', 'i', 'e', 'l', 'd', '_', 'e', 'x', 'p', 'r', 'e', 's', 's', 'i', 'o', 'n']);
    reveal_strlit("qualified_identifier");
    assert("qualified_identifier"@ =~= seq!['q', 'u', 'a', 'l', 'i', 'f', 'i', 'e', 'd', '_', 'i', 'd', 'e', 'n', 't', 'i', 'f', 'i', 'e', 'r']);
    reveal_strlit("field_identifier");
    assert("field_identifier"@ =~= seq!['f', 'i', 'e', 'l', 'd', '_', 'i', 'd', 'e', 'n', 't', 'i', 'f', 'i', 'e', 'r']);
    assert(cpp_callee(t, i) == Some(m));
    lemma_cpp_calls_upto_has(t, i, t.size(), m);
    let calls = cpp_calls_upto(t, t.size());
    let k = choose|k: int| 0 <= k < calls.len() && calls[k] == (m as int, t.text_of(m as int), RefRole::Call);
    let refs = cpp_refs(t);
    assert(refs[k] == calls[k]);
    assert(super::support::ref_at(t, refs[k].0, file, refs[k].1, refs[k].2, r.references@[k]));
}

} // verus!
