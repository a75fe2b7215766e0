//! C: top-level non-`static` declarations — functions (definitions and
//! prototypes), variables, struct / union / enum definitions, typedefs and
//! `#define` macros — qualified by the file's path (a `.c` file and its `.h`
//! share one namespace); call references; a JNI export for every function
//! named `Java_*`. No scopes or bindings are recorded.

use vstd::prelude::*;
use vstd::utf8::*;
use crate::error::Result;
use crate::graph::{FfiAbi, FfiExport, FileFacts, RefRole, Reference, Symbol, SymbolKind};
use crate::lang::Language;
use crate::symbol::{Descriptor, descriptor_text};
use crate::text::{chars_of, chars_eq, has_prefix, matches_at, segments, split_nonempty, strings_of, strip_prefix_chars, strip_prefix_or_self, strip_suffix_chars, strip_suffix_or_self, views};
use super::Extractor;
use super::tree::SyntaxTree;
use super::ts::Grammar;
use super::scope::attach_reference_scopes;
use super::support::{
    facts_wf, field_text, make_symbol_at, module_symbol, push_ref, refs_ok, symbols_ok, ref_at, refs_match,
    namespaces_text, method_text, lemma_path_text, lemma_one_descriptor_text, lemma_refs_match_attached, descriptors_with, Def,
    symbols_match, module_symbol_spec, grows_by, lemma_grows_none,
    lemma_grows_one, lemma_grows_trans, type_text, term_text, macro_text,
};

verus! {

/// Extracts C symbols and references.
pub struct CExtractor;

/// The namespaces of a C file: the path without `.c` (or else `.h`) and a
/// leading `src/`, split on `/`.
pub open spec fn c_namespaces_spec(file: Seq<char>) -> Seq<Seq<char>> {
    let a = strip_suffix_or_self(file, ".c"@);
    let b = if a != file {
        a
    } else {
        strip_suffix_or_self(file, ".h"@)
    };
    segments(strip_prefix_or_self(b, "src/"@), '/')
}

/// Law: the namespaces of `src/<stem><ext>`, and of `<stem><ext>` when
/// `stem` does not start with `src/`, for `ext` `.c` or `.h`, are the
/// `/`-separated segments of `stem`.
pub proof fn law_c_namespaces(stem: Seq<char>, ext: Seq<char>)
    requires
        ext == ".c"@ || ext == ".h"@,
    ensures
        c_namespaces_spec("src/"@ + stem + ext) == segments(stem, '/'),
        !crate::text::has_prefix(stem, "src/"@) ==> c_namespaces_spec(stem + ext) == segments(stem, '/'),
{
    reveal_strlit(".c");
    reveal_strlit(".h");
    crate::text::lemma_strip_own_suffix("src/"@ + stem, ext);
    crate::text::lemma_strip_own_suffix(stem, ext);
    crate::text::lemma_strip_own_prefix("src/"@, stem);
    if ext == ".h"@ {
        assert(!crate::text::has_suffix(".h"@, ".c"@)) by {
            assert(".h"@.skip(0)[1] != ".c"@[1]);
        }
        assert(!crate::text::has_suffix(".c"@, ".h"@)) by {
            assert(".c"@.skip(0)[1] != ".h"@[1]);
        }
        crate::text::lemma_strip_other_suffix("src/"@ + stem, ext, ".c"@);
        crate::text::lemma_strip_other_suffix(stem, ext, ".c"@);
    }
}

/// The namespaces of a C file.
pub fn c_namespaces(file: &str) -> (r: Vec<String>)
    ensures
        views(r@) == c_namespaces_spec(file@),
{
    let cs = chars_of(file);
    let a = strip_suffix_chars(&cs, ".c");
    let b = if a.len() != cs.len() {
        a
    } else {
        strip_suffix_chars(&cs, ".h")
    };
    proof {
        reveal_strlit(".c");
        assert(".c"@.len() == 2);
    }
    let p = strip_prefix_chars(&b, "src/");
    let parts = split_nonempty(&p, '/');
    strings_of(&parts)
}

/// Whether node `n` has a `storage_class_specifier` child spelling `static`.
pub open spec fn c_is_static(t: SyntaxTree, n: int) -> bool {
    exists|k: int|
        0 <= k < t.children_of(n).len() && t.kind_of(#[trigger] t.children_of(n)[k] as int)
            == "storage_class_specifier"@ && t.text_of(t.children_of(n)[k] as int) == "static"@
}

/// Whether `n` carries a `static` storage class.
pub fn is_static(t: &SyntaxTree, n: usize) -> (r: bool)
    requires
        t.wf(),
        n < t.size(),
    ensures
        r == c_is_static(*t, n as int),
{
    let ch = t.children(n);
    let mut k: usize = 0;
    proof {
        reveal_strlit("static");
    }
    while k < ch.len()
        invariant
            t.wf(),
            n < t.size(),
            k <= ch.len(),
            ch@ == t.children_of(n as int),
            forall|j: int| 0 <= j < ch.len() ==> #[trigger] ch@[j] < t.size(),
            forall|j: int|
                0 <= j < k ==> !(t.kind_of(#[trigger] ch@[j] as int) == "storage_class_specifier"@ && t.text_of(
                    ch@[j] as int,
                ) == "static"@),
        decreases ch.len() - k,
    {
        let c = ch[k];
        if t.is_kind(c, "storage_class_specifier") {
            let text = t.text(c);
            let cs = chars_of(text.as_str());
            if chars_eq(&cs, "static") {
                assert(t.kind_of(t.children_of(n as int)[k as int] as int) == "storage_class_specifier"@);
                return true;
            }
        }
        k = k + 1;
    }
    false
}

/// The name a declarator chain declares, and whether a function declarator
/// lies on the way to it: an identifier names itself; a function declarator
/// looks through its `declarator`; another node through its `declarator`
/// field, or else the first of its children that yields a name.
pub open spec fn c_decl_name(t: SyntaxTree, n: int) -> Option<(Seq<char>, bool)>
    decreases t.size() - n, t.children_of(n).len() + 1,
{
    let k = t.kind_of(n);
    if k == "identifier"@ || k == "type_identifier"@ || k == "field_identifier"@ {
        Some((t.text_of(n), false))
    } else if k == "function_declarator"@ {
        match t.field_child_of(n, "declarator"@) {
            Some(inner) => if n < inner < t.size() {
                match c_decl_name(t, inner as int) {
                    Some(p) => Some((p.0, true)),
                    None => None,
                }
            } else {
                None
            },
            None => None,
        }
    } else {
        match t.field_child_of(n, "declarator"@) {
            Some(d) => if n < d < t.size() {
                c_decl_name(t, d as int)
            } else {
                None
            },
            None => c_decl_name_first(t, n, t.children_of(n)),
        }
    }
}

/// The name the first of `cs` (children of `n`) that yields one declares.
pub open spec fn c_decl_name_first(t: SyntaxTree, n: int, cs: Seq<usize>) -> Option<(Seq<char>, bool)>
    decreases t.size() - n, cs.len(),
{
    if cs.len() == 0 {
        None
    } else if n < cs[0] < t.size() && c_decl_name(t, cs[0] as int) is Some {
        c_decl_name(t, cs[0] as int)
    } else {
        c_decl_name_first(t, n, cs.skip(1))
    }
}

/// The name a declarator chain declares, and whether a function declarator
/// lies on the way to it.
fn declarator_name(t: &SyntaxTree, n: usize) -> (r: Option<(String, bool)>)
    requires
        t.wf(),
        n < t.size(),
    ensures
        r is Some == c_decl_name(*t, n as int) is Some,
        r matches Some(p) ==> p.0@ == c_decl_name(*t, n as int).unwrap().0 && p.1 == c_decl_name(*t, n as int).unwrap().1,
    decreases t.size() - n,
{
    if t.is_kind(n, "identifier") || t.is_kind(n, "type_identifier") || t.is_kind(n, "field_identifier") {
        return Some((t.text(n), false));
    }
    if t.is_kind(n, "function_declarator") {
        return match t.field_child(n, "declarator") {
            Some(inner) => match declarator_name(t, inner) {
                Some((name, _)) => Some((name, true)),
                None => None,
            },
            None => None,
        };
    }
    match t.field_child(n, "declarator") {
        Some(d) => {
            return declarator_name(t, d);
        },
        None => {},
    }
    let ch = t.children(n);
    let mut k: usize = 0;
    assert(ch@.skip(0) =~= ch@);
    while k < ch.len()
        invariant
            t.wf(),
            n < t.size(),
            k <= ch.len(),
            ch@ == t.children_of(n as int),
            forall|j: int| 0 <= j < ch.len() ==> n < #[trigger] ch@[j] < t.size(),
            c_decl_name_first(*t, n as int, ch@.skip(k as int)) == c_decl_name(*t, n as int),
        decreases ch.len() - k,
    {
        assert(ch@.skip(k as int)[0] == ch@[k as int]);
        match declarator_name(t, ch[k]) {
            Some(r) => {
                return Some(r);
            },
            None => {},
        }
        assert(ch@.skip(k as int).skip(1) =~= ch@.skip(k + 1));
        k = k + 1;
    }
    None
}

/// The type a struct, union or enum specifier defines: only when it names
/// itself and has a body.
pub open spec fn c_aggregate(t: SyntaxTree, n: int) -> Option<(SymbolKind, Seq<char>)> {
    let k = t.kind_of(n);
    if (k == "struct_specifier"@ || k == "union_specifier"@ || k == "enum_specifier"@) && t.field_child_of(
        n,
        "body"@,
    ) is Some && t.field_child_of(n, "name"@) is Some {
        Some(
            (
                if k == "enum_specifier"@ {
                    SymbolKind::Enum
                } else {
                    SymbolKind::Struct
                },
                t.text_of(t.field_child_of(n, "name"@)->0 as int),
            ),
        )
    } else {
        None
    }
}

/// The type a struct, union or enum specifier defines — only when it names
/// itself and has a body.
fn aggregate_type(t: &SyntaxTree, spec: usize) -> (r: Option<(SymbolKind, String)>)
    requires
        t.wf(),
        spec < t.size(),
    ensures
        r is Some == c_aggregate(*t, spec as int) is Some,
        r matches Some(p) ==> p.0 == c_aggregate(*t, spec as int).unwrap().0 && p.1@ == c_aggregate(*t, spec as int).unwrap().1,
{
    if !(t.is_kind(spec, "struct_specifier") || t.is_kind(spec, "union_specifier") || t.is_kind(spec, "enum_specifier")) {
        return None;
    }
    let kind = if t.is_kind(spec, "enum_specifier") {
        SymbolKind::Enum
    } else {
        SymbolKind::Struct
    };
    if t.field_child(spec, "body").is_none() {
        return None;
    }
    match field_text(t, spec, "name") {
        Some(name) => Some((kind, name)),
        None => None,
    }
}

/// The aggregate type the `type` field of `n` defines, if any.
pub open spec fn c_agg_def(t: SyntaxTree, n: int, nst: Seq<char>) -> Seq<Def> {
    match t.field_child_of(n, "type"@) {
        Some(sp) => match c_aggregate(t, sp as int) {
            Some(p) => seq![(sp as int, p.1, p.0, nst + type_text(p.1))],
            None => Seq::empty(),
        },
        None => Seq::empty(),
    }
}

/// What the declarators among `ds` (children of declaration `c`) declare: a
/// function when a function declarator lies on the way to the name, else a
/// variable.
pub open spec fn c_declarators(t: SyntaxTree, c: int, ds: Seq<usize>, nst: Seq<char>) -> Seq<Def>
    decreases ds.len(),
{
    if ds.len() == 0 {
        Seq::empty()
    } else {
        let d = ds.last();
        c_declarators(t, c, ds.drop_last(), nst) + if t.field_of(d as int) == Some("declarator"@) {
            match c_decl_name(t, d as int) {
                Some(p) => if p.1 {
                    seq![(c, p.0, SymbolKind::Function, nst + method_text(p.0))]
                } else {
                    seq![(c, p.0, SymbolKind::Static, nst + term_text(p.0))]
                },
                None => Seq::empty(),
            }
        } else {
            Seq::empty()
        }
    }
}

/// The definitions top-level node `c` makes, in a file whose namespaces
/// spell `nst`: a non-static function definition; a non-static
/// declaration's aggregate type and declarators; a typedef's aggregate type
/// and alias; a macro; a named aggregate with a body.
pub open spec fn c_defs_at(t: SyntaxTree, c: int, nst: Seq<char>) -> Seq<Def> {
    let k = t.kind_of(c);
    if k == "function_definition"@ {
        if !c_is_static(t, c) {
            match t.field_child_of(c, "declarator"@) {
                Some(d) => match c_decl_name(t, d as int) {
                    Some(p) => seq![(c, p.0, SymbolKind::Function, nst + method_text(p.0))],
                    None => Seq::empty(),
                },
                None => Seq::empty(),
            }
        } else {
            Seq::empty()
        }
    } else if k == "declaration"@ {
        if !c_is_static(t, c) {
            c_agg_def(t, c, nst) + c_declarators(t, c, t.children_of(c), nst)
        } else {
            Seq::empty()
        }
    } else if k == "type_definition"@ {
        c_agg_def(t, c, nst) + match t.field_child_of(c, "declarator"@) {
            Some(d) => match c_decl_name(t, d as int) {
                Some(p) => seq![(c, p.0, SymbolKind::TypeAlias, nst + type_text(p.0))],
                None => Seq::empty(),
            },
            None => Seq::empty(),
        }
    } else if k == "preproc_def"@ || k == "preproc_function_def"@ {
        match t.field_child_of(c, "name"@) {
            Some(nm) => seq![
                (
                    c,
                    t.text_of(nm as int),
                    if k == "preproc_def"@ {
                        SymbolKind::Const
                    } else {
                        SymbolKind::Function
                    },
                    nst + macro_text(t.text_of(nm as int)),
                ),
            ],
            None => Seq::empty(),
        }
    } else if k == "struct_specifier"@ || k == "union_specifier"@ || k == "enum_specifier"@ {
        match c_aggregate(t, c) {
            Some(p) => seq![(c, p.1, p.0, nst + type_text(p.1))],
            None => Seq::empty(),
        }
    } else {
        Seq::empty()
    }
}

/// The definitions the top-level nodes `cs` make, in order.
pub open spec fn c_defs_in(t: SyntaxTree, cs: Seq<usize>, nst: Seq<char>) -> Seq<Def>
    decreases cs.len(),
{
    if cs.len() == 0 {
        Seq::empty()
    } else {
        c_defs_in(t, cs.drop_last(), nst) + c_defs_at(t, cs.last() as int, nst)
    }
}

/// Where a C signature stops.
pub open spec fn c_stops() -> Seq<char> {
    seq!['{', ';']
}

/// What a C definition's symbols satisfy: they lie in `file`, over byte
/// ranges of the source.
pub open spec fn c_grows(t: SyntaxTree, file: Seq<char>, old: Seq<Symbol>, new: Seq<Symbol>, defs: Seq<Def>) -> bool {
    &&& grows_by(t, file, Language::C, c_stops(), old, new, defs)
    &&& (symbols_ok(old, file, t.bytes.len() as int) ==> symbols_ok(new, file, t.bytes.len() as int))
}

proof fn lemma_c_grows_trans(t: SyntaxTree, file: Seq<char>, a: Seq<Symbol>, b: Seq<Symbol>, c: Seq<Symbol>, d1: Seq<Def>, d2: Seq<Def>)
    requires
        c_grows(t, file, a, b, d1),
        c_grows(t, file, b, c, d2),
    ensures
        c_grows(t, file, a, c, d1 + d2),
{
    lemma_grows_trans(t, file, Language::C, c_stops(), a, b, c, d1, d2);
}

proof fn lemma_c_grows_none(t: SyntaxTree, file: Seq<char>, s: Seq<Symbol>)
    ensures
        c_grows(t, file, s, s, Seq::empty()),
{
    lemma_grows_none(t, file, Language::C, c_stops(), s);
}

/// Push the symbol of definition node `n`: the namespaces `ns`, then `leaf`.
fn push_def(out: &mut Vec<Symbol>, t: &SyntaxTree, n: usize, ns: &Vec<String>, leaf: Descriptor, name: String, kind: SymbolKind, file: &str)
    requires
        t.wf(),
        n < t.size(),
    ensures
        c_grows(*t, file@, old(out)@, final(out)@, seq![(n as int, name@, kind, namespaces_text(views(ns@)) + descriptor_text(leaf))]),
{
    let ghost nm = name@;
    let leaves = vec![leaf];
    assert(leaves@ =~= seq![leaf]);
    let descs = descriptors_with(ns, leaves);
    let stops = vec!['{', ';'];
    assert(stops@ =~= c_stops());
    proof {
        lemma_path_text(ns@, seq![leaf]);
        lemma_one_descriptor_text(leaf);
    }
    let s = make_symbol_at(t, n, Language::C, descs, name, kind, file, stops.as_slice());
    out.push(s);
    proof {
        assert(out@.drop_last() =~= old(out)@);
        lemma_grows_one(
            *t,
            file@,
            Language::C,
            c_stops(),
            old(out)@,
            out@,
            (n as int, nm, kind, namespaces_text(views(ns@)) + descriptor_text(leaf)),
        );
    }
}

/// The aggregate type defined by the `type` field of `n`, if any.
fn push_aggregate(out: &mut Vec<Symbol>, t: &SyntaxTree, n: usize, ns: &Vec<String>, file: &str)
    requires
        t.wf(),
        n < t.size(),
    ensures
        c_grows(*t, file@, old(out)@, final(out)@, c_agg_def(*t, n as int, namespaces_text(views(ns@)))),
{
    proof {
        lemma_c_grows_none(*t, file@, out@);
    }
    match t.field_child(n, "type") {
        Some(spec) => match aggregate_type(t, spec) {
            Some((kind, name)) => {
                let leaf = Descriptor::Type(name.clone());
                assert(descriptor_text(leaf) =~= type_text(name@));
                push_def(out, t, spec, ns, leaf, name, kind, file);
            },
            None => {},
        },
        None => {},
    }
}

/// A function definition: a `Function` unless it is `static`.
fn push_function_def(out: &mut Vec<Symbol>, t: &SyntaxTree, c: usize, ns: &Vec<String>, file: &str)
    requires
        t.wf(),
        c < t.size(),
        t.kind_of(c as int) == "function_definition"@,
    ensures
        c_grows(*t, file@, old(out)@, final(out)@, c_defs_at(*t, c as int, namespaces_text(views(ns@)))),
{
    proof {
        lemma_c_grows_none(*t, file@, out@);
    }
    if !is_static(t, c) {
        match t.field_child(c, "declarator") {
            Some(d) => match declarator_name(t, d) {
                Some((name, _)) => {
                    let leaf = Descriptor::Method { name: name.clone(), disambiguator: String::new() };
                    assert(descriptor_text(leaf) =~= method_text(name@));
                    push_def(out, t, c, ns, leaf, name, SymbolKind::Function, file);
                },
                None => {},
            },
            None => {},
        }
    }
}

/// A non-static declaration: its aggregate type, then what each of its
/// declarators declares.
fn push_declaration(out: &mut Vec<Symbol>, t: &SyntaxTree, c: usize, ns: &Vec<String>, file: &str)
    requires
        t.wf(),
        c < t.size(),
        t.kind_of(c as int) == "declaration"@,
        t.kind_of(c as int) != "function_definition"@,
    ensures
        c_grows(*t, file@, old(out)@, final(out)@, c_defs_at(*t, c as int, namespaces_text(views(ns@)))),
{
    let ghost nst = namespaces_text(views(ns@));
    proof {
        lemma_c_grows_none(*t, file@, out@);
    }
    if is_static(t, c) {
        return;
    }
    push_aggregate(out, t, c, ns, file);
    let ghost agg = out@;
    let ds = t.children(c);
    let mut j: usize = 0;
    assert(ds@.take(0) =~= Seq::<usize>::empty());
    proof {
        lemma_c_grows_none(*t, file@, agg);
    }
    while j < ds.len()
        invariant
            t.wf(),
            c < t.size(),
            j <= ds.len(),
            ds@ == t.children_of(c as int),
            nst == namespaces_text(views(ns@)),
            forall|x: int| 0 <= x < ds.len() ==> #[trigger] ds@[x] < t.size(),
            c_grows(*t, file@, old(out)@, agg, c_agg_def(*t, c as int, nst)),
            c_grows(*t, file@, agg, out@, c_declarators(*t, c as int, ds@.take(j as int), nst)),
        decreases ds.len() - j,
    {
        let d = ds[j];
        let ghost inner = out@;
        proof {
            assert(ds@.take(j + 1).drop_last() =~= ds@.take(j as int));
            assert(ds@.take(j + 1).last() == d);
            lemma_c_grows_none(*t, file@, inner);
        }
        if t.has_field(d, "declarator") {
            match declarator_name(t, d) {
                Some((name, true)) => {
                    let leaf = Descriptor::Method { name: name.clone(), disambiguator: String::new() };
                    assert(descriptor_text(leaf) =~= method_text(name@));
                    push_def(out, t, c, ns, leaf, name, SymbolKind::Function, file);
                },
                Some((name, false)) => {
                    let leaf = Descriptor::Term(name.clone());
                    assert(descriptor_text(leaf) =~= term_text(name@));
                    push_def(out, t, c, ns, leaf, name, SymbolKind::Static, file);
                },
                None => {},
            }
        }
        proof {
            let prev = c_declarators(*t, c as int, ds@.take(j as int), nst);
            let step = c_declarators(*t, c as int, ds@.take(j + 1), nst).skip(prev.len() as int);
            assert(c_declarators(*t, c as int, ds@.take(j + 1), nst) =~= prev + step);
            assert(c_grows(*t, file@, inner, out@, step));
            lemma_c_grows_trans(*t, file@, agg, inner, out@, prev, step);
        }
        j = j + 1;
    }
    proof {
        assert(ds@.take(ds.len() as int) =~= ds@);
        lemma_c_grows_trans(*t, file@, old(out)@, agg, out@, c_agg_def(*t, c as int, nst), c_declarators(*t, c as int, ds@, nst));
    }
}

/// A typedef: its aggregate type, then the alias.
fn push_type_definition(out: &mut Vec<Symbol>, t: &SyntaxTree, c: usize, ns: &Vec<String>, file: &str)
    requires
        t.wf(),
        c < t.size(),
        t.kind_of(c as int) == "type_definition"@,
        t.kind_of(c as int) != "function_definition"@,
        t.kind_of(c as int) != "declaration"@,
    ensures
        c_grows(*t, file@, old(out)@, final(out)@, c_defs_at(*t, c as int, namespaces_text(views(ns@)))),
{
    let ghost nst = namespaces_text(views(ns@));
    push_aggregate(out, t, c, ns, file);
    let ghost agg = out@;
    proof {
        lemma_c_grows_none(*t, file@, agg);
    }
    match t.field_child(c, "declarator") {
        Some(d) => match declarator_name(t, d) {
            Some((name, _)) => {
                let leaf = Descriptor::Type(name.clone());
                assert(descriptor_text(leaf) =~= type_text(name@));
                push_def(out, t, c, ns, leaf, name, SymbolKind::TypeAlias, file);
            },
            None => {},
        },
        None => {},
    }
    proof {
        let tail = c_defs_at(*t, c as int, nst).skip(c_agg_def(*t, c as int, nst).len() as int);
        assert(c_defs_at(*t, c as int, nst) =~= c_agg_def(*t, c as int, nst) + tail);
        assert(c_grows(*t, file@, agg, out@, tail));
        lemma_c_grows_trans(*t, file@, old(out)@, agg, out@, c_agg_def(*t, c as int, nst), tail);
    }
}

/// A macro definition: a `Const` for an object-like macro, a `Function`
/// for a function-like one.
fn push_macro(out: &mut Vec<Symbol>, t: &SyntaxTree, c: usize, ns: &Vec<String>, file: &str)
    requires
        t.wf(),
        c < t.size(),
        t.kind_of(c as int) == "preproc_def"@ || t.kind_of(c as int) == "preproc_function_def"@,
        t.kind_of(c as int) != "function_definition"@,
        t.kind_of(c as int) != "declaration"@,
        t.kind_of(c as int) != "type_definition"@,
    ensures
        c_grows(*t, file@, old(out)@, final(out)@, c_defs_at(*t, c as int, namespaces_text(views(ns@)))),
{
    proof {
        lemma_c_grows_none(*t, file@, out@);
    }
    let kind = if t.is_kind(c, "preproc_def") {
        SymbolKind::Const
    } else {
        SymbolKind::Function
    };
    match field_text(t, c, "name") {
        Some(name) => {
            let leaf = Descriptor::Macro(name.clone());
            assert(descriptor_text(leaf) =~= macro_text(name@));
            push_def(out, t, c, ns, leaf, name, kind, file);
        },
        None => {},
    }
}

/// A named struct, union or enum with a body.
fn push_specifier(out: &mut Vec<Symbol>, t: &SyntaxTree, c: usize, ns: &Vec<String>, file: &str)
    requires
        t.wf(),
        c < t.size(),
        t.kind_of(c as int) == "struct_specifier"@ || t.kind_of(c as int) == "union_specifier"@ || t.kind_of(c as int)
            == "enum_specifier"@,
        t.kind_of(c as int) != "function_definition"@,
        t.kind_of(c as int) != "declaration"@,
        t.kind_of(c as int) != "type_definition"@,
        t.kind_of(c as int) != "preproc_def"@,
        t.kind_of(c as int) != "preproc_function_def"@,
    ensures
        c_grows(*t, file@, old(out)@, final(out)@, c_defs_at(*t, c as int, namespaces_text(views(ns@)))),
{
    proof {
        lemma_c_grows_none(*t, file@, out@);
    }
    match aggregate_type(t, c) {
        Some((kind, name)) => {
            let leaf = Descriptor::Type(name.clone());
            assert(descriptor_text(leaf) =~= type_text(name@));
            push_def(out, t, c, ns, leaf, name, kind, file);
        },
        None => {},
    }
}

/// The top-level non-static definitions of a C file.
fn collect_symbols(t: &SyntaxTree, file: &str, ns: &Vec<String>) -> (r: Vec<Symbol>)
    requires
        t.wf(),
    ensures
        symbols_ok(r@, file@, t.bytes.len() as int),
        symbols_match(*t, file@, Language::C, c_stops(), c_defs_in(*t, t.children_of(0), namespaces_text(views(ns@))), r@),
{
    let ghost nst = namespaces_text(views(ns@));
    let mut out: Vec<Symbol> = Vec::new();
    let ch = t.children(0);
    let mut k: usize = 0;
    assert(ch@.take(0) =~= Seq::<usize>::empty());
    proof {
        lemma_c_grows_none(*t, file@, out@);
    }
    while k < ch.len()
        invariant
            t.wf(),
            k <= ch.len(),
            ch@ == t.children_of(0),
            nst == namespaces_text(views(ns@)),
            forall|j: int| 0 <= j < ch.len() ==> 0 < #[trigger] ch@[j] < t.size(),
            c_grows(*t, file@, Seq::empty(), out@, c_defs_in(*t, ch@.take(k as int), nst)),
        decreases ch.len() - k,
    {
        let c = ch[k];
        let ghost mid = out@;
        proof {
            assert(ch@.take(k + 1).drop_last() =~= ch@.take(k as int));
            assert(ch@.take(k + 1).last() == c);
            lemma_c_grows_none(*t, file@, mid);
        }
        if t.is_kind(c, "function_definition") {
            push_function_def(&mut out, t, c, ns, file);
        } else if t.is_kind(c, "declaration") {
            push_declaration(&mut out, t, c, ns, file);
        } else if t.is_kind(c, "type_definition") {
            push_type_definition(&mut out, t, c, ns, file);
        } else if t.is_kind(c, "preproc_def") || t.is_kind(c, "preproc_function_def") {
            push_macro(&mut out, t, c, ns, file);
        } else if t.is_kind(c, "struct_specifier") || t.is_kind(c, "union_specifier") || t.is_kind(c, "enum_specifier") {
            push_specifier(&mut out, t, c, ns, file);
        } else {
            assert(c_defs_at(*t, c as int, nst) =~= Seq::<Def>::empty());
        }
        proof {
            lemma_c_grows_trans(*t, file@, Seq::empty(), mid, out@, c_defs_in(*t, ch@.take(k as int), nst), c_defs_at(*t, c as int, nst));
        }
        k = k + 1;
    }
    assert(ch@.take(ch.len() as int) =~= ch@);
    assert(out@.skip(0) =~= out@);
    out
}

/// A symbol the JNI bridge exports: a function named `Java_...`.
pub open spec fn is_jni_function(s: Symbol) -> bool {
    s.kind == SymbolKind::Function && has_prefix(s.name@, seq!['J', 'a', 'v', 'a', '_'])
}

/// A JNI export for every `Java_*` function among `symbols`, in order,
/// exported under the function's own name.
pub fn jni_exports(symbols: &Vec<Symbol>) -> (r: Vec<FfiExport>)
    ensures
        r@.len() == symbols@.filter(|s: Symbol| is_jni_function(s)).len(),
        forall|i: int| 0 <= i < r@.len() ==> {
            let s = symbols@.filter(|s: Symbol| is_jni_function(s))[i];
            &&& (#[trigger] r@[i]).abi == FfiAbi::Jni
            &&& r@[i].export_name == s.name
            &&& r@[i].symbol.lang == s.id.lang
            &&& r@[i].symbol.descriptors@ == s.id.descriptors@
        },
{
    let mut out: Vec<FfiExport> = Vec::new();
    proof {
        reveal_strlit("Java_");
        assert("Java_"@ =~= seq!['J', 'a', 'v', 'a', '_']);
    }
    let pre = chars_of("Java_");
    let mut i: usize = 0;
    while i < symbols.len()
        invariant
            i <= symbols.len(),
            pre@ == seq!['J', 'a', 'v', 'a', '_'],
            out@.len() == symbols@.take(i as int).filter(|s: Symbol| is_jni_function(s)).len(),
            forall|k: int| 0 <= k < out@.len() ==> {
                let s = symbols@.take(i as int).filter(|s: Symbol| is_jni_function(s))[k];
                &&& (#[trigger] out@[k]).abi == FfiAbi::Jni
                &&& out@[k].export_name == s.name
                &&& out@[k].symbol.lang == s.id.lang
                &&& out@[k].symbol.descriptors@ == s.id.descriptors@
            },
        decreases symbols.len() - i,
    {
        let s = &symbols[i];
        let ghost prev = symbols@.take(i as int);
        assert(symbols@.take(i + 1) =~= prev.push(symbols@[i as int]));
        proof {
            reveal(Seq::filter);
            assert(symbols@.take(i + 1).drop_last() =~= prev);
        }
        let name = chars_of(s.name.as_str());
        assert(name@.skip(0) =~= name@);
        if s.kind == SymbolKind::Function && matches_at(&name, 0, &pre) {
            out.push(FfiExport { export_name: s.name.clone(), abi: FfiAbi::Jni, symbol: s.id.duplicate() });
            assert(symbols@.take(i + 1).filter(|s: Symbol| is_jni_function(s)) =~= prev.filter(|s: Symbol| is_jni_function(s)).push(symbols@[i as int]));
        } else {
            assert(symbols@.take(i + 1).filter(|s: Symbol| is_jni_function(s)) =~= prev.filter(|s: Symbol| is_jni_function(s)));
        }
        i = i + 1;
    }
    assert(symbols@.take(symbols.len() as int) =~= symbols@);
    out
}

/// The callee of node `i`: the `function` of a `call_expression`, when an
/// identifier.
pub open spec fn c_call_at(t: SyntaxTree, i: int) -> Seq<usize> {
    if t.kind_of(i) == "call_expression"@ {
        match t.field_child_of(i, "function"@) {
            Some(f) => if t.kind_of(f as int) == "identifier"@ {
                seq![f]
            } else {
                Seq::empty()
            },
            None => Seq::empty(),
        }
    } else {
        Seq::empty()
    }
}

/// The callees of nodes `0..n`, in pre-order.
pub open spec fn c_calls_upto(t: SyntaxTree, n: int) -> Seq<usize>
    decreases n,
{
    if n <= 0 {
        Seq::empty()
    } else {
        c_calls_upto(t, n - 1) + c_call_at(t, n - 1)
    }
}

/// Call references: the identifier callee of every call.
fn collect_calls(t: &SyntaxTree, file: &str) -> (r: Vec<Reference>)
    requires
        t.wf(),
    ensures
        refs_ok(r@, file@, t.bytes.len() as int),
        refs_match(*t, file@, c_calls_upto(*t, t.size()), RefRole::Call, r@),
{
    let mut out: Vec<Reference> = Vec::new();
    let mut i: usize = 0;
    while i < t.nodes.len()
        invariant
            t.wf(),
            i <= t.nodes.len(),
            refs_ok(out@, file@, t.bytes.len() as int),
            refs_match(*t, file@, c_calls_upto(*t, i as int), RefRole::Call, out@),
        decreases t.nodes.len() - i,
    {
        let ghost upto = c_calls_upto(*t, i as int);
        let ghost old_out = out@;
        if t.is_kind(i, "call_expression") {
            match t.field_child(i, "function") {
                Some(f) => {
                    if t.is_kind(f, "identifier") {
                        push_ref(&mut out, t.text(f), t, f, file, RefRole::Call);
                        proof {
                            assert(c_call_at(*t, i as int) == seq![f]);
                            let now = upto + seq![f];
                            assert forall|j: int| 0 <= j < out.len() implies ref_at(
                                *t,
                                now[j] as int,
                                file@,
                                t.text_of(now[j] as int),
                                RefRole::Call,
                                #[trigger] out@[j],
                            ) by {
                                if j < old_out.len() {
                                    assert(out@[j] == old_out[j]);
                                }
                            }
                        }
                    } else {
                        assert(c_call_at(*t, i as int) =~= Seq::<usize>::empty());
                    }
                },
                None => {
                    assert(c_call_at(*t, i as int) =~= Seq::<usize>::empty());
                },
            }
        } else {
            assert(c_call_at(*t, i as int) =~= Seq::<usize>::empty());
        }
        assert(c_calls_upto(*t, i + 1) == upto + c_call_at(*t, i as int));
        assert(upto + Seq::<usize>::empty() =~= upto);
        i = i + 1;
    }
    out
}

/// What `c_facts` states of the facts `r` it builds from tree `t` of
/// `source`, the text of `file`.
pub open spec fn c_facts_of(t: SyntaxTree, source: Seq<char>, file: Seq<char>, r: FileFacts) -> bool {
    &&& r.scopes@.len() == 0
    &&& r.bindings@.len() == 0
    &&& r.symbols@.len() >= 1
    &&& symbols_match(
        t,
        file,
        Language::C,
        c_stops(),
        c_defs_in(t, t.children_of(0), namespaces_text(c_namespaces_spec(file))),
        r.symbols@.drop_last(),
    )
    &&& module_symbol_spec(r.symbols@.last(), Language::C, c_namespaces_spec(file), file, encode_utf8(source).len() as int)
    &&& refs_match(t, file, c_calls_upto(t, t.size()), RefRole::Call, r.references@)
    &&& r.ffi_exports@.len() == r.symbols@.drop_last().filter(|s: Symbol| is_jni_function(s)).len()
    &&& forall|i: int| 0 <= i < r.ffi_exports@.len() ==> {
        let s = r.symbols@.drop_last().filter(|s: Symbol| is_jni_function(s))[i];
        &&& (#[trigger] r.ffi_exports@[i]).abi == FfiAbi::Jni
        &&& r.ffi_exports@[i].export_name == s.name
        &&& r.ffi_exports@[i].symbol.lang == s.id.lang
        &&& r.ffi_exports@[i].symbol.descriptors@ == s.id.descriptors@
    }
}

/// The facts of a C file from its syntax tree: the definitions of its
/// top-level nodes, in order, then the file's module symbol; the identifier
/// callees of every call, in pre-order; a JNI export for each `Java_*`
/// function.
pub fn c_facts(t: &SyntaxTree, source: &str, file: &str) -> (r: FileFacts)
    requires
        t.wf(),
        t.bytes@ == encode_utf8(source@),
    ensures
        facts_wf(r, file@, source@, Language::C),
        c_facts_of(*t, source@, file@, r),
{
    let len = source.len();
    let ns = c_namespaces(file);
    let mut symbols = collect_symbols(t, file, &ns);
    let exports = jni_exports(&symbols);
    let ghost defs = symbols@;
    symbols.push(module_symbol(Language::C, &ns, file, len));
    assert(symbols@.drop_last() =~= defs);
    let refs = collect_calls(t, file);
    let scopes: Vec<crate::graph::Scope> = Vec::new();
    let ghost before = refs@;
    let refs = attach_reference_scopes(refs, &scopes);
    proof {
        lemma_refs_match_attached(*t, file@, c_calls_upto(*t, t.size()), RefRole::Call, before, refs@, scopes@);
    }
    FileFacts {
        file: file.to_owned(),
        lang: Language::C.as_str().to_owned(),
        symbols,
        references: refs,
        scopes,
        bindings: Vec::new(),
        ffi_exports: exports,
    }
}

impl Extractor for CExtractor {
    open spec fn spec_lang(&self) -> Language {
        Language::C
    }

    fn lang(&self) -> (r: Language) {
        Language::C
    }

    fn extract(&self, source: &str, file: &str) -> (r: Result<FileFacts>)
        ensures
            r is Ok <==> super::parses(Grammar::C, source@),
            r matches Ok(f) ==> super::extracted(Language::C, source@, file@, f),
    {
        let t = super::parse_tree(Grammar::C, source, file)?;
        let res: Result<FileFacts> = Ok(c_facts(&t, source, file));
        assert(super::parsed_by(t, Grammar::C, source@) && c_facts_of(t, source@, file@, res->Ok_0));
        res
    }
}

/// A callee of a node before `n` is among the callees of nodes `0..n`.
proof fn lemma_c_calls_upto_has(t: SyntaxTree, i: int, n: int, m: usize)
    requires
        0 <= i < n,
        c_call_at(t, i) == seq![m],
    ensures
        c_calls_upto(t, n).contains(m),
    decreases n,
{
    let prev = c_calls_upto(t, n - 1);
    if i < n - 1 {
        lemma_c_calls_upto_has(t, i, n - 1, m);
        let k = choose|k: int| 0 <= k < prev.len() && prev[k] == m;
        assert(c_calls_upto(t, n)[k] == m);
    } else {
        assert(c_calls_upto(t, n)[prev.len() as int] == m);
    }
}

/// Law: every call whose function is an identifier is a `Call` reference of
/// the file, named by the identifier and occurring where it starts.
pub proof fn law_c_calls_are_referenced(t: SyntaxTree, source: Seq<char>, file: Seq<char>, r: FileFacts, i: int, m: usize)
    requires
        c_facts_of(t, source, file, r),
        0 <= i < t.size(),
        t.kind_of(i) == "call_expression"@,
        t.field_child_of(i, "function"@) == Some(m),
        t.kind_of(m as int) == "identifier"@,
    ensures
        exists|j: int|
            0 <= j < r.references.len() && (#[trigger] r.references@[j]).role == RefRole::Call
                && r.references@[j].name@ == t.text_of(m as int) && r.references@[j].occ.byte
                == t.nodes@[m as int].start,
{
    assert(c_call_at(t, i) == seq![m]);
    lemma_c_calls_upto_has(t, i, t.size(), m);
    let calls = c_calls_upto(t, t.size());
    let k = choose|k: int| 0 <= k < calls.len() && calls[k] == m;
    assert(ref_at(t, calls[k] as int, file, t.text_of(calls[k] as int), RefRole::Call, r.references@[k]));
}

} // verus!
