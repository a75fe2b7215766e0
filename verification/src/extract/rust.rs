//! Rust: fully public (`pub`) top-level items (`fn`, `struct`, `enum`,
//! `trait`, `type`, `const`, `static`, `mod`) and every `impl` block,
//! qualified by the module path of the file; call, trait-implementation and
//! supertrait, and `use` import references; function, module, type and block
//! scopes with parameter and `let` bindings.

use vstd::prelude::*;
use vstd::utf8::*;
use crate::error::Result;
use crate::graph::{Binding, BindingKind, ByteSpan, FileFacts, RefRole, Reference, Scope, ScopeId, ScopeKind, Symbol, SymbolKind};
use crate::lang::Language;
use crate::symbol::{Descriptor, descriptor_text, descriptor_name, escaped_name, scip_text};
use crate::text::{chars_of, chars_eq, segments, trim, trim_chars, simple_type_name, simple_name_of, views};
use super::Extractor;
use super::tree::SyntaxTree;
use super::ts::Grammar;
use super::scope::{
    attach_reference_scopes, lemma_scopes_extend_refl, lemma_scopes_extend_trans, lemma_scopes_extend_wf, push_scope,
    root_scopes, root_scope, scope_tree_wf, scopes_extend, span_within, scopes_nest, LocalItem, locals_match, locals_grow, lemma_locals_grow_none,
    lemma_locals_grow_trans, push_local_item,
};
use super::go::scope_of;
use super::python::py_first_ident_in;
use super::support::{
    bindings_ok, facts_wf, module_symbol, node_span, path_namespaces, path_namespaces_spec, refs_ok, symbols_ok,
    symbols_match, module_symbol_spec, namespaces_text, method_text, type_text, term_text, Def, defs_grow,
    lemma_defs_grow_none, lemma_defs_grow_trans, push_ns_def, RefItem, refs_items, refs_grow, lemma_refs_grow_none,
    lemma_refs_grow_trans, push_ref_item, lemma_refs_items_attached, ImportItem, import_ref_at, imports_grow,
    lemma_imports_grow_none, lemma_imports_grow_trans, push_import_item,
};

verus! {

/// Extracts Rust symbols and references.
pub struct RustExtractor;

/// A trailing `mod`, `lib` or `main` segment names the module it sits in.
pub open spec fn is_module_file(s: Seq<char>) -> bool {
    s == seq!['m', 'o', 'd'] || s == seq!['l', 'i', 'b'] || s == seq!['m', 'a', 'i', 'n']
}

/// The module path of a Rust file: the path-derived segments, without a
/// final `mod`, `lib` or `main`.
pub open spec fn rust_namespaces_spec(file: Seq<char>) -> Seq<Seq<char>> {
    let segs = path_namespaces_spec(file, ".rs"@);
    if segs.len() > 0 && is_module_file(segs.last()) {
        segs.drop_last()
    } else {
        segs
    }
}

/// Law: the module path of `src/<dir>/mod.rs` is the `/`-separated
/// segments of `dir`.
#[verifier::spinoff_prover]
pub proof fn law_rust_mod_file_is_its_directory(dir: Seq<char>)
    ensures
        rust_namespaces_spec("src/"@ + dir + "/mod.rs"@) == segments(dir, '/'),
{
    reveal_strlit(".rs");
    reveal_strlit("/mod.rs");
    let m = seq!['m', 'o', 'd'];
    let f1 = "src/"@ + dir + "/mod.rs"@;
    assert(f1 =~= ("src/"@ + (dir + seq!['/'] + m)) + ".rs"@);
    crate::text::lemma_strip_own_suffix("src/"@ + (dir + seq!['/'] + m), ".rs"@);
    crate::text::lemma_strip_own_prefix("src/"@, dir + seq!['/'] + m);
    crate::text::lemma_segments_concat(dir, m, '/');
    crate::text::lemma_segments_single(m, '/');
    assert((segments(dir, '/') + seq![m]).drop_last() =~= segments(dir, '/'));
}

/// Law: the module path of `src/<dir>/<name>.rs` is the `/`-separated
/// segments of `dir` followed by `name`, for a plain file stem `name`
/// (non-empty, no `/`, none of `mod`, `lib`, `main`).
#[verifier::spinoff_prover]
pub proof fn law_rust_file_module_path(dir: Seq<char>, name: Seq<char>)
    requires
        name.len() > 0,
        forall|i: int| 0 <= i < name.len() ==> name[i] != '/',
        !is_module_file(name),
    ensures
        rust_namespaces_spec("src/"@ + dir + seq!['/'] + name + ".rs"@) == segments(dir, '/').push(name),
{
    reveal_strlit(".rs");
    let f2 = "src/"@ + dir + seq!['/'] + name + ".rs"@;
    assert(f2 =~= ("src/"@ + (dir + seq!['/'] + name)) + ".rs"@);
    crate::text::lemma_strip_own_suffix("src/"@ + (dir + seq!['/'] + name), ".rs"@);
    crate::text::lemma_strip_own_prefix("src/"@, dir + seq!['/'] + name);
    crate::text::lemma_segments_concat(dir, name, '/');
    crate::text::lemma_segments_single(name, '/');
    assert(segments(dir, '/') + seq![name] =~= segments(dir, '/').push(name));
}

/// Law: `src/lib.rs` and `src/main.rs` are the crate root: their module
/// path is empty.
#[verifier::spinoff_prover]
pub proof fn law_rust_crate_roots()
    ensures
        rust_namespaces_spec("src/lib.rs"@) == Seq::<Seq<char>>::empty(),
        rust_namespaces_spec("src/main.rs"@) == Seq::<Seq<char>>::empty(),
{
    reveal_strlit(".rs");
    reveal_strlit("src/");
    reveal_strlit("src/lib.rs");
    reveal_strlit("src/main.rs");
    let l = seq!['l', 'i', 'b'];
    let mn = seq!['m', 'a', 'i', 'n'];
    assert("src/lib.rs"@ =~= ("src/"@ + l) + ".rs"@);
    assert("src/main.rs"@ =~= ("src/"@ + mn) + ".rs"@);
    crate::text::lemma_strip_own_suffix("src/"@ + l, ".rs"@);
    crate::text::lemma_strip_own_suffix("src/"@ + mn, ".rs"@);
    crate::text::lemma_strip_own_prefix("src/"@, l);
    crate::text::lemma_strip_own_prefix("src/"@, mn);
    crate::text::lemma_segments_single(l, '/');
    crate::text::lemma_segments_single(mn, '/');
    assert(seq![l].drop_last() =~= Seq::<Seq<char>>::empty());
    assert(seq![mn].drop_last() =~= Seq::<Seq<char>>::empty());
}

/// The module path (namespace descriptors) of a Rust file.
pub fn rust_namespaces(file: &str) -> (r: Vec<String>)
    ensures
        views(r@) == rust_namespaces_spec(file@),
{
    let mut segs = path_namespaces(file, ".rs");
    let n = segs.len();
    if n > 0 {
        let last = chars_of(segs[n - 1].as_str());
        proof {
            reveal_strlit("mod");
            reveal_strlit("lib");
            reveal_strlit("main");
            assert("mod"@ =~= seq!['m', 'o', 'd']);
            assert("lib"@ =~= seq!['l', 'i', 'b']);
            assert("main"@ =~= seq!['m', 'a', 'i', 'n']);
        }
        if chars_eq(&last, "mod") || chars_eq(&last, "lib") || chars_eq(&last, "main") {
            let ghost before = segs@;
            segs.pop();
            assert(views(segs@) =~= views(before).drop_last());
        }
    }
    segs
}

/// Whether node `n`'s first `visibility_modifier` reads exactly `pub`.
pub open spec fn rust_fully_pub(t: SyntaxTree, n: int) -> bool {
    match t.kind_child_of(n, "visibility_modifier"@) {
        Some(v) => trim(t.text_of(v as int)) == "pub"@,
        None => false,
    }
}

/// Whether `n`'s first `visibility_modifier` is exactly `pub`.
fn is_fully_pub(t: &SyntaxTree, n: usize) -> (r: bool)
    requires
        t.wf(),
        n < t.size(),
    ensures
        r == rust_fully_pub(*t, n as int),
{
    match t.child_of_kind(n, "visibility_modifier") {
        Some(v) => {
            let text = t.text(v);
            let cs = chars_of(text.as_str());
            let trimmed = trim_chars(&cs);
            chars_eq(&trimmed, "pub")
        },
        None => false,
    }
}

/// The text of the first child of `n` of kind `k`.
pub open spec fn rust_child_text(t: SyntaxTree, n: int, k: Seq<char>) -> Option<Seq<char>> {
    match t.kind_child_of(n, k) {
        Some(c) => Some(t.text_of(c as int)),
        None => None,
    }
}

/// The text of the first child of `n` of kind `kind`.
fn child_text(t: &SyntaxTree, n: usize, kind: &str) -> (r: Option<String>)
    requires
        t.wf(),
        n < t.size(),
    ensures
        r is Some == rust_child_text(*t, n as int, kind@) is Some,
        r matches Some(s) ==> s@ == rust_child_text(*t, n as int, kind@)->0,
{
    match t.child_of_kind(n, kind) {
        Some(c) => Some(t.text(c)),
        None => None,
    }
}

/// Whether a node of kind `k` names a type.
pub open spec fn rust_type_kind(k: Seq<char>) -> bool {
    k == "type_identifier"@ || k == "generic_type"@ || k == "scoped_type_identifier"@
}

/// Whether node `n` names a type (`type_identifier`, `generic_type` or
/// `scoped_type_identifier`).
fn is_type_node(t: &SyntaxTree, n: usize) -> (r: bool)
    requires
        n < t.size(),
    ensures
        r == rust_type_kind(t.kind_of(n as int)),
{
    t.is_kind(n, "type_identifier") || t.is_kind(n, "generic_type") || t.is_kind(n, "scoped_type_identifier")
}

/// The last type among `cs` before the first `declaration_list`, `last`
/// being the last one met so far.
pub open spec fn rust_impl_last(t: SyntaxTree, cs: Seq<usize>, last: Option<usize>) -> Option<usize>
    decreases cs.len(),
{
    if cs.len() == 0 || t.kind_of(cs[0] as int) == "declaration_list"@ {
        last
    } else {
        rust_impl_last(
            t,
            cs.skip(1),
            if rust_type_kind(t.kind_of(cs[0] as int)) {
                Some(cs[0])
            } else {
                last
            },
        )
    }
}

/// The display name of `impl` block `n`: the last type named before its
/// body, or `impl`.
pub open spec fn rust_impl_name(t: SyntaxTree, n: int) -> Seq<char> {
    match rust_impl_last(t, t.children_of(n), None) {
        Some(l) => t.text_of(l as int),
        None => "impl"@,
    }
}

/// The display name of an `impl` block.
fn impl_type_name(t: &SyntaxTree, n: usize) -> (r: String)
    requires
        t.wf(),
        n < t.size(),
    ensures
        r@ == rust_impl_name(*t, n as int),
{
    let ch = t.children(n);
    let mut last: Option<usize> = None;
    let mut k: usize = 0;
    assert(ch@.skip(0) =~= ch@);
    while k < ch.len()
        invariant
            t.wf(),
            k <= ch.len(),
            ch@ == t.children_of(n as int),
            forall|j: int| 0 <= j < ch.len() ==> #[trigger] ch@[j] < t.size(),
            last matches Some(l) ==> l < t.size(),
            rust_impl_last(*t, ch@.skip(k as int), last) == rust_impl_last(*t, ch@, None),
        ensures
            last matches Some(l) ==> l < t.size(),
            last == rust_impl_last(*t, ch@, None),
        decreases ch.len() - k,
    {
        let c = ch[k];
        assert(ch@.skip(k as int)[0] == c);
        if t.is_kind(c, "declaration_list") {
            break;
        }
        assert(ch@.skip(k as int).skip(1) =~= ch@.skip(k + 1));
        if is_type_node(t, c) {
            last = Some(c);
        }
        k = k + 1;
    }
    proof {
        reveal_strlit("impl");
    }
    match last {
        Some(l) => t.text(l),
        None => "impl".to_owned(),
    }
}

/// What top-level item `c` defines, if it is a fully public item or an
/// `impl` block: its kind, name and the SCIP text of its leaf.
pub open spec fn rust_item_def(t: SyntaxTree, c: int) -> Option<(SymbolKind, Seq<char>, Seq<char>)> {
    let k = t.kind_of(c);
    if k == "impl_item"@ {
        Some((SymbolKind::Impl, rust_impl_name(t, c), type_text(rust_impl_name(t, c))))
    } else if !rust_fully_pub(t, c) {
        None
    } else if k == "function_item"@ {
        match rust_child_text(t, c, "identifier"@) {
            Some(n) => Some((SymbolKind::Function, n, method_text(n))),
            None => None,
        }
    } else if k == "struct_item"@ || k == "enum_item"@ || k == "trait_item"@ || k == "type_item"@ {
        let kind = if k == "struct_item"@ {
            SymbolKind::Struct
        } else if k == "enum_item"@ {
            SymbolKind::Enum
        } else if k == "trait_item"@ {
            SymbolKind::Trait
        } else {
            SymbolKind::TypeAlias
        };
        match rust_child_text(t, c, "type_identifier"@) {
            Some(n) => Some((kind, n, type_text(n))),
            None => None,
        }
    } else if k == "const_item"@ || k == "static_item"@ {
        let kind = if k == "const_item"@ {
            SymbolKind::Const
        } else {
            SymbolKind::Static
        };
        match rust_child_text(t, c, "identifier"@) {
            Some(n) => Some((kind, n, term_text(n))),
            None => None,
        }
    } else if k == "mod_item"@ {
        match rust_child_text(t, c, "identifier"@) {
            Some(n) => Some((SymbolKind::Module, n, escaped_name(n) + seq!['/'])),
            None => None,
        }
    } else {
        None
    }
}

/// The kind and leaf descriptor a top-level item defines.
fn item_def(t: &SyntaxTree, c: usize) -> (r: Option<(SymbolKind, Descriptor)>)
    requires
        t.wf(),
        c < t.size(),
    ensures
        r is Some == rust_item_def(*t, c as int) is Some,
        r matches Some(p) ==> {
            let e = rust_item_def(*t, c as int).unwrap();
            &&& p.0 == e.0
            &&& descriptor_name(p.1) == e.1
            &&& descriptor_text(p.1) == e.2
        },
{
    if t.is_kind(c, "impl_item") {
        let name = impl_type_name(t, c);
        let leaf = Descriptor::Type(name);
        assert(descriptor_text(leaf) =~= type_text(rust_impl_name(*t, c as int)));
        return Some((SymbolKind::Impl, leaf));
    }
    if !is_fully_pub(t, c) {
        return None;
    }
    if t.is_kind(c, "function_item") {
        match child_text(t, c, "identifier") {
            Some(name) => {
                let leaf = Descriptor::Method { name, disambiguator: String::new() };
                assert(descriptor_text(leaf) =~= method_text(descriptor_name(leaf)));
                Some((SymbolKind::Function, leaf))
            },
            None => None,
        }
    } else if t.is_kind(c, "struct_item") || t.is_kind(c, "enum_item") || t.is_kind(c, "trait_item") || t.is_kind(c, "type_item") {
        let kind = if t.is_kind(c, "struct_item") {
            SymbolKind::Struct
        } else if t.is_kind(c, "enum_item") {
            SymbolKind::Enum
        } else if t.is_kind(c, "trait_item") {
            SymbolKind::Trait
        } else {
            SymbolKind::TypeAlias
        };
        match child_text(t, c, "type_identifier") {
            Some(name) => {
                let leaf = Descriptor::Type(name);
                assert(descriptor_text(leaf) =~= type_text(descriptor_name(leaf)));
                Some((kind, leaf))
            },
            None => None,
        }
    } else if t.is_kind(c, "const_item") || t.is_kind(c, "static_item") {
        let kind = if t.is_kind(c, "const_item") {
            SymbolKind::Const
        } else {
            SymbolKind::Static
        };
        match child_text(t, c, "identifier") {
            Some(name) => {
                let leaf = Descriptor::Term(name);
                assert(descriptor_text(leaf) =~= term_text(descriptor_name(leaf)));
                Some((kind, leaf))
            },
            None => None,
        }
    } else if t.is_kind(c, "mod_item") {
        match child_text(t, c, "identifier") {
            Some(name) => Some((SymbolKind::Module, Descriptor::Namespace(name))),
            None => None,
        }
    } else {
        None
    }
}

/// Where a Rust signature stops.
pub open spec fn rust_stops() -> Seq<char> {
    seq!['{']
}

/// The definitions the top-level nodes `cs` make, in a file whose namespaces
/// spell `nst`.
pub open spec fn rust_defs_in(t: SyntaxTree, cs: Seq<usize>, nst: Seq<char>) -> Seq<Def>
    decreases cs.len(),
{
    if cs.len() == 0 {
        Seq::empty()
    } else {
        let c = cs.last();
        rust_defs_in(t, cs.drop_last(), nst) + match rust_item_def(t, c as int) {
            Some(d) => seq![(c as int, d.1, d.0, nst + d.2)],
            None => Seq::empty(),
        }
    }
}

/// The fully public top-level items and `impl` blocks of a Rust file.
fn collect_symbols(t: &SyntaxTree, file: &str, ns: &Vec<String>) -> (r: Vec<Symbol>)
    requires
        t.wf(),
    ensures
        symbols_ok(r@, file@, t.bytes.len() as int),
        symbols_match(*t, file@, Language::Rust, rust_stops(), rust_defs_in(*t, t.children_of(0), namespaces_text(views(ns@))), r@),
{
    let ghost nst = namespaces_text(views(ns@));
    let stops = vec!['{'];
    assert(stops@ =~= rust_stops());
    let mut out: Vec<Symbol> = Vec::new();
    let ch = t.children(0);
    let mut k: usize = 0;
    assert(ch@.take(0) =~= Seq::<usize>::empty());
    proof {
        lemma_defs_grow_none(*t, file@, Language::Rust, rust_stops(), out@);
    }
    while k < ch.len()
        invariant
            t.wf(),
            k <= ch.len(),
            ch@ == t.children_of(0),
            stops@ == rust_stops(),
            nst == namespaces_text(views(ns@)),
            forall|j: int| 0 <= j < ch.len() ==> 0 < #[trigger] ch@[j] < t.size(),
            defs_grow(*t, file@, Language::Rust, rust_stops(), Seq::empty(), out@, rust_defs_in(*t, ch@.take(k as int), nst)),
        decreases ch.len() - k,
    {
        let c = ch[k];
        let ghost mid = out@;
        proof {
            assert(ch@.take(k + 1).drop_last() =~= ch@.take(k as int));
            assert(ch@.take(k + 1).last() == c);
            lemma_defs_grow_none(*t, file@, Language::Rust, rust_stops(), mid);
        }
        match item_def(t, c) {
            Some((kind, leaf)) => {
                let name = leaf.name().to_owned();
                push_ns_def(&mut out, t, c, Language::Rust, ns, leaf, name, kind, file, &stops);
            },
            None => {},
        }
        proof {
            let step = match rust_item_def(*t, c as int) {
                Some(d) => seq![(c as int, d.1, d.0, nst + d.2)],
                None => Seq::<Def>::empty(),
            };
            assert(rust_defs_in(*t, ch@.take(k + 1), nst) == rust_defs_in(*t, ch@.take(k as int), nst) + step);
            lemma_defs_grow_trans(*t, file@, Language::Rust, rust_stops(), Seq::empty(), mid, out@, rust_defs_in(*t, ch@.take(k as int), nst), step);
        }
        k = k + 1;
    }
    assert(ch@.take(ch.len() as int) =~= ch@);
    assert(out@.skip(0) =~= out@);
    assert(out@.take(0) =~= Seq::<Symbol>::empty());
    out
}

/// The callee of node `i`: for a call, a bare identifier, the field of a
/// field expression, or the name of a scoped path.
pub open spec fn rust_callee(t: SyntaxTree, i: int) -> Option<usize> {
    if t.kind_of(i) == "call_expression"@ {
        match t.field_child_of(i, "function"@) {
            Some(f) => if t.kind_of(f as int) == "identifier"@ {
                Some(f)
            } else if t.kind_of(f as int) == "field_expression"@ {
                match t.field_child_of(f as int, "field"@) {
                    Some(x) => if t.kind_of(x as int) == "field_identifier"@ {
                        Some(x)
                    } else {
                        None
                    },
                    None => None,
                }
            } else if t.kind_of(f as int) == "scoped_identifier"@ {
                match t.field_child_of(f as int, "name"@) {
                    Some(x) => if t.kind_of(x as int) == "identifier"@ {
                        Some(x)
                    } else {
                        None
                    },
                    None => None,
                }
            } else {
                None
            },
            None => None,
        }
    } else {
        None
    }
}

/// The calls nodes `0..n` make, in pre-order.
pub open spec fn rust_calls_upto(t: SyntaxTree, n: int) -> Seq<RefItem>
    decreases n,
{
    if n <= 0 {
        Seq::empty()
    } else {
        rust_calls_upto(t, n - 1) + match rust_callee(t, n - 1) {
            Some(c) => seq![(c as int, t.text_of(c as int), RefRole::Call)],
            None => Seq::empty(),
        }
    }
}

/// Call references: the callee of every `call_expression` — a bare
/// identifier, the field of a field expression, or the name of a scoped path.
fn collect_calls(t: &SyntaxTree, file: &str, out: &mut Vec<Reference>)
    requires
        t.wf(),
    ensures
        refs_grow(*t, file@, old(out)@, final(out)@, rust_calls_upto(*t, t.size())),
{
    let mut i: usize = 0;
    proof {
        lemma_refs_grow_none(*t, file@, out@);
    }
    while i < t.nodes.len()
        invariant
            t.wf(),
            i <= t.nodes.len(),
            refs_grow(*t, file@, old(out)@, out@, rust_calls_upto(*t, i as int)),
        decreases t.nodes.len() - i,
    {
        let ghost before = out@;
        proof {
            lemma_refs_grow_none(*t, file@, before);
        }
        let mut callee: Option<usize> = None;
        if t.is_kind(i, "call_expression") {
            match t.field_child(i, "function") {
                Some(f) => {
                    if t.is_kind(f, "identifier") {
                        callee = Some(f);
                    } else if t.is_kind(f, "field_expression") {
                        match t.field_child(f, "field") {
                            Some(x) => {
                                if t.is_kind(x, "field_identifier") {
                                    callee = Some(x);
                                }
                            },
                            None => {},
                        }
                    } else if t.is_kind(f, "scoped_identifier") {
                        match t.field_child(f, "name") {
                            Some(x) => {
                                if t.is_kind(x, "identifier") {
                                    callee = Some(x);
                                }
                            },
                            None => {},
                        }
                    }
                },
                None => {},
            }
        }
        assert(callee == rust_callee(*t, i as int));
        match callee {
            Some(c) => push_ref_item(out, t.text(c), t, c, file, RefRole::Call),
            None => {},
        }
        proof {
            let step = match rust_callee(*t, i as int) {
                Some(c) => seq![(c as int, t.text_of(c as int), RefRole::Call)],
                None => Seq::<RefItem>::empty(),
            };
            assert(rust_calls_upto(*t, i + 1) == rust_calls_upto(*t, i as int) + step);
            lemma_refs_grow_trans(*t, file@, old(out)@, before, out@, rust_calls_upto(*t, i as int), step);
        }
        i = i + 1;
    }
}

/// The supertraits among the children `cs` of a bounds list: each type, by
/// simple name.
pub open spec fn rust_bounds(t: SyntaxTree, cs: Seq<usize>) -> Seq<RefItem>
    decreases cs.len(),
{
    if cs.len() == 0 {
        Seq::empty()
    } else {
        let c = cs.last();
        rust_bounds(t, cs.drop_last()) + if rust_type_kind(t.kind_of(c as int)) {
            seq![(c as int, simple_name_of(t.text_of(c as int), "::"@), RefRole::IsImplementation)]
        } else {
            Seq::empty()
        }
    }
}

/// The traits node `i` implements or extends: the trait of a trait `impl`,
/// the bounds of a `trait`.
pub open spec fn rust_inherit_at(t: SyntaxTree, i: int) -> Seq<RefItem> {
    if t.kind_of(i) == "impl_item"@ {
        match t.field_child_of(i, "trait"@) {
            Some(tr) => seq![(tr as int, simple_name_of(t.text_of(tr as int), "::"@), RefRole::IsImplementation)],
            None => Seq::empty(),
        }
    } else if t.kind_of(i) == "trait_item"@ {
        match t.field_child_of(i, "bounds"@) {
            Some(b) => rust_bounds(t, t.children_of(b as int)),
            None => Seq::empty(),
        }
    } else {
        Seq::empty()
    }
}

/// The traits nodes `0..n` implement or extend, in pre-order.
pub open spec fn rust_inherits_upto(t: SyntaxTree, n: int) -> Seq<RefItem>
    decreases n,
{
    if n <= 0 {
        Seq::empty()
    } else {
        rust_inherits_upto(t, n - 1) + rust_inherit_at(t, n - 1)
    }
}

/// The supertraits among the children of bounds list `b`.
fn push_bounds(t: &SyntaxTree, b: usize, file: &str, out: &mut Vec<Reference>)
    requires
        t.wf(),
        b < t.size(),
    ensures
        refs_grow(*t, file@, old(out)@, final(out)@, rust_bounds(*t, t.children_of(b as int))),
{
    let ch = t.children(b);
    let mut k: usize = 0;
    assert(ch@.take(0) =~= Seq::<usize>::empty());
    proof {
        lemma_refs_grow_none(*t, file@, out@);
    }
    while k < ch.len()
        invariant
            t.wf(),
            k <= ch.len(),
            ch@ == t.children_of(b as int),
            forall|j: int| 0 <= j < ch.len() ==> #[trigger] ch@[j] < t.size(),
            refs_grow(*t, file@, old(out)@, out@, rust_bounds(*t, ch@.take(k as int))),
        decreases ch.len() - k,
    {
        let c = ch[k];
        let ghost mid = out@;
        proof {
            assert(ch@.take(k + 1).drop_last() =~= ch@.take(k as int));
            assert(ch@.take(k + 1).last() == c);
            lemma_refs_grow_none(*t, file@, mid);
        }
        if is_type_node(t, c) {
            let text = t.text(c);
            push_ref_item(out, simple_type_name(text.as_str(), "::"), t, c, file, RefRole::IsImplementation);
        }
        proof {
            let prev = rust_bounds(*t, ch@.take(k as int));
            let step = rust_bounds(*t, ch@.take(k + 1)).skip(prev.len() as int);
            assert(rust_bounds(*t, ch@.take(k + 1)) =~= prev + step);
            lemma_refs_grow_trans(*t, file@, old(out)@, mid, out@, prev, step);
        }
        k = k + 1;
    }
    assert(ch@.take(ch.len() as int) =~= ch@);
}

/// `IsImplementation` references: the trait of every trait `impl`, and each
/// supertrait bound of every `trait`, by simple name.
fn collect_inheritance(t: &SyntaxTree, file: &str, out: &mut Vec<Reference>)
    requires
        t.wf(),
    ensures
        refs_grow(*t, file@, old(out)@, final(out)@, rust_inherits_upto(*t, t.size())),
{
    let mut i: usize = 0;
    proof {
        lemma_refs_grow_none(*t, file@, out@);
    }
    while i < t.nodes.len()
        invariant
            t.wf(),
            i <= t.nodes.len(),
            refs_grow(*t, file@, old(out)@, out@, rust_inherits_upto(*t, i as int)),
        decreases t.nodes.len() - i,
    {
        let ghost before = out@;
        proof {
            lemma_refs_grow_none(*t, file@, before);
        }
        if t.is_kind(i, "impl_item") {
            match t.field_child(i, "trait") {
                Some(tr) => {
                    let text = t.text(tr);
                    push_ref_item(out, simple_type_name(text.as_str(), "::"), t, tr, file, RefRole::IsImplementation);
                },
                None => {},
            }
        } else if t.is_kind(i, "trait_item") {
            match t.field_child(i, "bounds") {
                Some(b) => push_bounds(t, b, file, out),
                None => {},
            }
        }
        proof {
            assert(rust_inherits_upto(*t, i + 1) == rust_inherits_upto(*t, i as int) + rust_inherit_at(*t, i as int));
            lemma_refs_grow_trans(*t, file@, old(out)@, before, out@, rust_inherits_upto(*t, i as int), rust_inherit_at(*t, i as int));
        }
        i = i + 1;
    }
}

/// The text of the `path` field of `n`, or empty.
pub open spec fn rust_path_text(t: SyntaxTree, n: int) -> Seq<char> {
    match t.field_child_of(n, "path"@) {
        Some(p) => t.text_of(p as int),
        None => Seq::empty(),
    }
}

/// The import leaves of use-tree node `n`, imported from `prefix` where the
/// leaf carries no path of its own: a bare identifier, the name of a scoped
/// path (from its path), the path of an `as` clause (the alias ignored),
/// and the leaves of (scoped) use lists (a scoped list's path being their
/// prefix). Wildcards, `self`, `super` and `crate` import nothing.
pub open spec fn rust_use_leaves(t: SyntaxTree, n: int, prefix: Seq<char>) -> Seq<ImportItem>
    decreases t.size() - n, t.children_of(n).len() + 1,
{
    let k = t.kind_of(n);
    if k == "identifier"@ {
        seq![(n, t.text_of(n), prefix)]
    } else if k == "scoped_identifier"@ {
        match t.field_child_of(n, "name"@) {
            Some(nm) => seq![(nm as int, t.text_of(nm as int), rust_path_text(t, n))],
            None => Seq::empty(),
        }
    } else if k == "use_as_clause"@ {
        match t.field_child_of(n, "path"@) {
            Some(p) => if n < p < t.size() {
                rust_use_leaves(t, p as int, prefix)
            } else {
                Seq::empty()
            },
            None => Seq::empty(),
        }
    } else if k == "scoped_use_list"@ {
        match t.field_child_of(n, "list"@) {
            Some(l) => if n < l < t.size() {
                rust_use_leaves(t, l as int, rust_path_text(t, n))
            } else {
                Seq::empty()
            },
            None => Seq::empty(),
        }
    } else if k == "use_list"@ {
        rust_use_list(t, n, t.children_of(n), prefix)
    } else {
        Seq::empty()
    }
}

/// The import leaves of the named use trees among `cs`, children of use list
/// `n`.
pub open spec fn rust_use_list(t: SyntaxTree, n: int, cs: Seq<usize>, prefix: Seq<char>) -> Seq<ImportItem>
    decreases t.size() - n, cs.len(),
{
    if cs.len() == 0 {
        Seq::empty()
    } else {
        let c = cs.last();
        rust_use_list(t, n, cs.drop_last(), prefix) + if t.nodes@[c as int].named && n < c < t.size() {
            rust_use_leaves(t, c as int, prefix)
        } else {
            Seq::empty()
        }
    }
}

/// The text of the `path` field of `n`, or empty.
fn path_text(t: &SyntaxTree, n: usize) -> (r: String)
    requires
        t.wf(),
        n < t.size(),
    ensures
        r@ == rust_path_text(*t, n as int),
{
    match t.field_child(n, "path") {
        Some(p) => t.text(p),
        None => String::new(),
    }
}

/// The import leaves of use-tree node `n`, imported from `prefix`.
fn use_leaves(t: &SyntaxTree, n: usize, file: &str, module_id: &str, prefix: &String, out: &mut Vec<Reference>)
    requires
        t.wf(),
        n < t.size(),
    ensures
        imports_grow(*t, file@, module_id@, old(out)@, final(out)@, rust_use_leaves(*t, n as int, prefix@)),
    decreases t.size() - n,
{
    proof {
        lemma_imports_grow_none(*t, file@, module_id@, out@);
    }
    if t.is_kind(n, "identifier") {
        push_import_item(out, t.text(n), t, n, file, module_id, prefix.clone());
    } else if t.is_kind(n, "scoped_identifier") {
        let from = path_text(t, n);
        match t.field_child(n, "name") {
            Some(nm) => push_import_item(out, t.text(nm), t, nm, file, module_id, from),
            None => {},
        }
    } else if t.is_kind(n, "use_as_clause") {
        match t.field_child(n, "path") {
            Some(p) => use_leaves(t, p, file, module_id, prefix, out),
            None => {},
        }
    } else if t.is_kind(n, "scoped_use_list") {
        let new_prefix = path_text(t, n);
        match t.field_child(n, "list") {
            Some(l) => use_leaves(t, l, file, module_id, &new_prefix, out),
            None => {},
        }
    } else if t.is_kind(n, "use_list") {
        let ch = t.children(n);
        let mut k: usize = 0;
        assert(ch@.take(0) =~= Seq::<usize>::empty());
        while k < ch.len()
            invariant
                t.wf(),
                n < t.size(),
                k <= ch.len(),
                ch@ == t.children_of(n as int),
                forall|j: int| 0 <= j < ch.len() ==> n < #[trigger] ch@[j] < t.size(),
                imports_grow(*t, file@, module_id@, old(out)@, out@, rust_use_list(*t, n as int, ch@.take(k as int), prefix@)),
            decreases ch.len() - k,
        {
            let c = ch[k];
            let ghost mid = out@;
            proof {
                assert(ch@.take(k + 1).drop_last() =~= ch@.take(k as int));
                assert(ch@.take(k + 1).last() == c);
                lemma_imports_grow_none(*t, file@, module_id@, mid);
            }
            if t.nodes[c].named {
                use_leaves(t, c, file, module_id, prefix, out);
            }
            proof {
                let prev = rust_use_list(*t, n as int, ch@.take(k as int), prefix@);
                let step = rust_use_list(*t, n as int, ch@.take(k + 1), prefix@).skip(prev.len() as int);
                assert(rust_use_list(*t, n as int, ch@.take(k + 1), prefix@) =~= prev + step);
                lemma_imports_grow_trans(*t, file@, module_id@, old(out)@, mid, out@, prev, step);
            }
            k = k + 1;
        }
        assert(ch@.take(ch.len() as int) =~= ch@);
    }
}

/// The imports node `i` makes: the leaves of a `use` declaration's tree.
pub open spec fn rust_import_at(t: SyntaxTree, i: int) -> Seq<ImportItem> {
    if t.kind_of(i) == "use_declaration"@ {
        match t.field_child_of(i, "argument"@) {
            Some(a) => rust_use_leaves(t, a as int, Seq::empty()),
            None => Seq::empty(),
        }
    } else {
        Seq::empty()
    }
}

/// The imports nodes `0..n` make, in pre-order.
pub open spec fn rust_imports_upto(t: SyntaxTree, n: int) -> Seq<ImportItem>
    decreases n,
{
    if n <= 0 {
        Seq::empty()
    } else {
        rust_imports_upto(t, n - 1) + rust_import_at(t, n - 1)
    }
}

/// `Import` references for every `use` declaration, nested ones too.
fn collect_imports(t: &SyntaxTree, file: &str, module_id: &str, out: &mut Vec<Reference>)
    requires
        t.wf(),
    ensures
        imports_grow(*t, file@, module_id@, old(out)@, final(out)@, rust_imports_upto(*t, t.size())),
{
    let mut i: usize = 0;
    proof {
        lemma_imports_grow_none(*t, file@, module_id@, out@);
    }
    while i < t.nodes.len()
        invariant
            t.wf(),
            i <= t.nodes.len(),
            imports_grow(*t, file@, module_id@, old(out)@, out@, rust_imports_upto(*t, i as int)),
        decreases t.nodes.len() - i,
    {
        let ghost before = out@;
        proof {
            lemma_imports_grow_none(*t, file@, module_id@, before);
        }
        if t.is_kind(i, "use_declaration") {
            match t.field_child(i, "argument") {
                Some(a) => {
                    let empty = String::new();
                    assert(empty@ =~= Seq::<char>::empty());
                    use_leaves(t, a, file, module_id, &empty, out);
                },
                None => {},
            }
        }
        proof {
            assert(rust_imports_upto(*t, i + 1) == rust_imports_upto(*t, i as int) + rust_import_at(*t, i as int));
            lemma_imports_grow_trans(*t, file@, module_id@, old(out)@, before, out@, rust_imports_upto(*t, i as int), rust_import_at(*t, i as int));
        }
        i = i + 1;
    }
}

/// The scopes `ss` grows to as the tree below node `n` is walked, the
/// enclosing scope being `parent`: a `Function` scope per function and
/// closure (its body's statements go straight into it); a `Module` (for
/// `mod`) or `Type` scope over the body of a module, impl, trait, struct or
/// enum; a `Block` scope per other block. Macro definitions and invocations
/// are not entered.
pub open spec fn rust_scope_dfs(t: SyntaxTree, n: int, parent: int, ss: Seq<Scope>) -> Seq<Scope>
    decreases t.size() - n, 1nat, 0nat,
{
    let k = t.kind_of(n);
    if k == "function_item"@ || k == "closure_expression"@ {
        let inner = match t.field_child_of(n, "body"@) {
            Some(b) => b as int,
            None => n,
        };
        rust_children_dfs(t, n, t.children_of(inner), ss.len() as int, ss.push(scope_of(t, n, parent, ScopeKind::Function)))
    } else if k == "mod_item"@ || k == "impl_item"@ || k == "trait_item"@ || k == "struct_item"@ || k == "enum_item"@ {
        match t.field_child_of(n, "body"@) {
            Some(b) => rust_children_dfs(
                t,
                n,
                t.children_of(b as int),
                ss.len() as int,
                ss.push(
                    scope_of(
                        t,
                        b as int,
                        parent,
                        if k == "mod_item"@ {
                            ScopeKind::Module
                        } else {
                            ScopeKind::Type
                        },
                    ),
                ),
            ),
            None => rust_children_dfs(t, n, t.children_of(n), parent, ss),
        }
    } else if k == "block"@ {
        rust_children_dfs(t, n, t.children_of(n), ss.len() as int, ss.push(scope_of(t, n, parent, ScopeKind::Block)))
    } else if k == "macro_definition"@ || k == "macro_invocation"@ {
        ss
    } else {
        rust_children_dfs(t, n, t.children_of(n), parent, ss)
    }
}

/// The scopes `ss` grows to as the trees below `cs` (nodes after `n`) are
/// walked in turn.
pub open spec fn rust_children_dfs(t: SyntaxTree, n: int, cs: Seq<usize>, parent: int, ss: Seq<Scope>) -> Seq<Scope>
    decreases t.size() - n, 0nat, cs.len(),
{
    if cs.len() == 0 {
        ss
    } else {
        rust_children_dfs(
            t,
            n,
            cs.skip(1),
            parent,
            if n < cs[0] < t.size() {
                rust_scope_dfs(t, cs[0] as int, parent, ss)
            } else {
                ss
            },
        )
    }
}

/// One step of the scope walk at node `n`: the nodes walked next, the scope
/// they are walked in and the scopes by then (the walk stops at a macro).
pub open spec fn rust_dfs_step(t: SyntaxTree, n: int, parent: int, ss: Seq<Scope>) -> (Seq<usize>, int, Seq<Scope>) {
    let k = t.kind_of(n);
    if k == "function_item"@ || k == "closure_expression"@ {
        let inner = match t.field_child_of(n, "body"@) {
            Some(b) => b as int,
            None => n,
        };
        (t.children_of(inner), ss.len() as int, ss.push(scope_of(t, n, parent, ScopeKind::Function)))
    } else if k == "mod_item"@ || k == "impl_item"@ || k == "trait_item"@ || k == "struct_item"@ || k == "enum_item"@ {
        match t.field_child_of(n, "body"@) {
            Some(b) => (
                t.children_of(b as int),
                ss.len() as int,
                ss.push(scope_of(t, b as int, parent, if k == "mod_item"@ { ScopeKind::Module } else { ScopeKind::Type })),
            ),
            None => (t.children_of(n), parent, ss),
        }
    } else if k == "block"@ {
        (t.children_of(n), ss.len() as int, ss.push(scope_of(t, n, parent, ScopeKind::Block)))
    } else if k == "macro_definition"@ || k == "macro_invocation"@ {
        (Seq::empty(), parent, ss)
    } else {
        (t.children_of(n), parent, ss)
    }
}

/// The walk at node `n` is its step followed by the walk of the nodes it
/// names next.
proof fn lemma_rust_dfs_unfold(t: SyntaxTree, n: int, parent: int, ss: Seq<Scope>)
    ensures
        rust_scope_dfs(t, n, parent, ss) == rust_children_dfs(
            t,
            n,
            rust_dfs_step(t, n, parent, ss).0,
            rust_dfs_step(t, n, parent, ss).1,
            rust_dfs_step(t, n, parent, ss).2,
        ),
{
    let k = t.kind_of(n);
    if k == "macro_definition"@ || k == "macro_invocation"@ {
        if !(k == "function_item"@ || k == "closure_expression"@ || k == "mod_item"@ || k == "impl_item"@
            || k == "trait_item"@ || k == "struct_item"@ || k == "enum_item"@ || k == "block"@) {
            assert(rust_children_dfs(t, n, Seq::empty(), parent, ss) == ss);
        }
    }
}

/// The scope tree of a Rust file of `len` bytes.
pub open spec fn rust_scope_tree(t: SyntaxTree, len: usize) -> Seq<Scope> {
    rust_children_dfs(t, 0, t.children_of(0), 0, seq![root_scope(len)])
}

/// Open scopes below node `n` whose enclosing scope is `parent`.
fn scope_dfs(t: &SyntaxTree, n: usize, parent: ScopeId, scopes: &mut Vec<Scope>)
    requires
        t.wf(),
        n < t.size(),
        parent < old(scopes).len(),
    ensures
        scopes_extend(old(scopes)@, final(scopes)@),
        final(scopes)@ == rust_scope_dfs(*t, n as int, parent as int, old(scopes)@),
    decreases t.size() - n, 1nat,
{
    proof {
        lemma_scopes_extend_refl(scopes@);
    }
    let ghost s0 = scopes@;
    if t.is_kind(n, "function_item") || t.is_kind(n, "closure_expression") {
        let id = push_scope(scopes, Some(parent), node_span(t, n), ScopeKind::Function);
        let ghost s1 = scopes@;
        assert(s1 =~= s0.push(scope_of(*t, n as int, parent as int, ScopeKind::Function)));
        assert(scopes_extend(s0, s1)) by {
            assert(s1.take(s0.len() as int) =~= s0);
        }
        let inner = match t.field_child(n, "body") {
            Some(body) => body,
            None => n,
        };
        let ch = t.children(inner);
        proof {
            t.lemma_children_bounds(inner as int);
        }
        children_dfs(t, &ch, n, id, scopes);
        proof { lemma_scopes_extend_trans(s0, s1, scopes@); }
    } else if t.is_kind(n, "mod_item") || t.is_kind(n, "impl_item") || t.is_kind(n, "trait_item")
        || t.is_kind(n, "struct_item") || t.is_kind(n, "enum_item") {
        match t.field_child(n, "body") {
            Some(body) => {
                let kind = if t.is_kind(n, "mod_item") {
                    ScopeKind::Module
                } else {
                    ScopeKind::Type
                };
                let id = push_scope(scopes, Some(parent), node_span(t, body), kind);
                let ghost s1 = scopes@;
                assert(s1 =~= s0.push(scope_of(*t, body as int, parent as int, kind)));
                assert(scopes_extend(s0, s1)) by {
                    assert(s1.take(s0.len() as int) =~= s0);
                }
                let ch = t.children(body);
                proof {
                    t.lemma_children_bounds(body as int);
                }
                children_dfs(t, &ch, n, id, scopes);
                proof { lemma_scopes_extend_trans(s0, s1, scopes@); }
            },
            None => {
                let ch = t.children(n);
                children_dfs(t, &ch, n, parent, scopes);
            },
        }
    } else if t.is_kind(n, "block") {
        let id = push_scope(scopes, Some(parent), node_span(t, n), ScopeKind::Block);
        let ghost s1 = scopes@;
        assert(s1 =~= s0.push(scope_of(*t, n as int, parent as int, ScopeKind::Block)));
        assert(scopes_extend(s0, s1)) by {
            assert(s1.take(s0.len() as int) =~= s0);
        }
        let ch = t.children(n);
        children_dfs(t, &ch, n, id, scopes);
        proof { lemma_scopes_extend_trans(s0, s1, scopes@); }
    } else if t.is_kind(n, "macro_definition") || t.is_kind(n, "macro_invocation") {
    } else {
        let ch = t.children(n);
        children_dfs(t, &ch, n, parent, scopes);
    }
}

/// `scope_dfs` over each of `ch`, all of them below node `n`.
fn children_dfs(t: &SyntaxTree, ch: &Vec<usize>, n: usize, parent: ScopeId, scopes: &mut Vec<Scope>)
    requires
        t.wf(),
        n < t.size(),
        forall|j: int| 0 <= j < ch.len() ==> n < #[trigger] ch@[j] < t.size(),
        parent < old(scopes).len(),
    ensures
        scopes_extend(old(scopes)@, final(scopes)@),
        final(scopes)@ == rust_children_dfs(*t, n as int, ch@, parent as int, old(scopes)@),
    decreases t.size() - n, 0nat,
{
    proof {
        lemma_scopes_extend_refl(scopes@);
    }
    let mut k: usize = 0;
    assert(ch@.skip(0) =~= ch@);
    while k < ch.len()
        invariant
            t.wf(),
            n < t.size(),
            k <= ch.len(),
            forall|j: int| 0 <= j < ch.len() ==> n < #[trigger] ch@[j] < t.size(),
            parent < scopes.len(),
            scopes_extend(old(scopes)@, scopes@),
            rust_children_dfs(*t, n as int, ch@, parent as int, old(scopes)@) == rust_children_dfs(
                *t,
                n as int,
                ch@.skip(k as int),
                parent as int,
                scopes@,
            ),
        decreases ch.len() - k,
    {
        let ghost before = scopes@;
        assert(ch@.skip(k as int)[0] == ch@[k as int]);
        assert(ch@.skip(k as int).skip(1) =~= ch@.skip(k + 1));
        scope_dfs(t, ch[k], parent, scopes);
        proof { lemma_scopes_extend_trans(old(scopes)@, before, scopes@); }
        k = k + 1;
    }
}

/// The scope tree of a Rust file.
pub fn collect_scopes(t: &SyntaxTree, source_len: usize) -> (r: Vec<Scope>)
    requires
        t.wf(),
    ensures
        scope_tree_wf(r@, source_len as int),
        r@ == rust_scope_tree(*t, source_len),
{
    let mut scopes = root_scopes(source_len);
    let ghost s0 = scopes@;
    let ch = t.children(0);
    children_dfs(t, &ch, 0, 0, &mut scopes);
    proof { lemma_scopes_extend_wf(s0, scopes@, source_len as int); }
    scopes
}

/// The byte range of node `n`, as a span.
pub open spec fn node_range(t: SyntaxTree, n: int) -> ByteSpan {
    ByteSpan { start: t.nodes@[n].start, end: t.nodes@[n].end }
}

/// Walking node `n` only appends scopes.
proof fn lemma_rust_dfs_grows(t: SyntaxTree, n: int, parent: int, ss: Seq<Scope>)
    ensures
        rust_scope_dfs(t, n, parent, ss).len() >= ss.len(),
        rust_scope_dfs(t, n, parent, ss).take(ss.len() as int) == ss,
    decreases t.size() - n, 1nat, 0nat,
{
    lemma_rust_dfs_unfold(t, n, parent, ss);
    let (cs, p, ss1) = rust_dfs_step(t, n, parent, ss);
    lemma_rust_children_grows(t, n, cs, p, ss1);
    assert(ss1.take(ss.len() as int) =~= ss);
    let r = rust_scope_dfs(t, n, parent, ss);
    assert(r.take(ss.len() as int) =~= r.take(ss1.len() as int).take(ss.len() as int));
}

/// Walking the nodes `cs` in turn only appends scopes.
proof fn lemma_rust_children_grows(t: SyntaxTree, n: int, cs: Seq<usize>, parent: int, ss: Seq<Scope>)
    ensures
        rust_children_dfs(t, n, cs, parent, ss).len() >= ss.len(),
        rust_children_dfs(t, n, cs, parent, ss).take(ss.len() as int) == ss,
    decreases t.size() - n, 0nat, cs.len(),
{
    if cs.len() == 0 {
        assert(ss.take(ss.len() as int) =~= ss);
    } else {
        let ss1 = if n < cs[0] < t.size() {
            lemma_rust_dfs_grows(t, cs[0] as int, parent, ss);
            rust_scope_dfs(t, cs[0] as int, parent, ss)
        } else {
            assert(ss.take(ss.len() as int) =~= ss);
            ss
        };
        lemma_rust_children_grows(t, n, cs.skip(1), parent, ss1);
        let r = rust_children_dfs(t, n, cs, parent, ss);
        assert(r.take(ss.len() as int) =~= r.take(ss1.len() as int).take(ss.len() as int));
    }
}

/// A scope pushed under an existing one and inside it keeps the scopes
/// nested.
proof fn lemma_push_nest(ss: Seq<Scope>, sc: Scope, parent: int)
    requires
        scopes_nest(ss),
        0 <= parent < ss.len(),
        ss.len() <= usize::MAX,
        sc.parent == Some(parent as usize),
        span_within(sc.span, ss[parent].span),
    ensures
        scopes_nest(ss.push(sc)),
{
    let ss1 = ss.push(sc);
    assert forall|i: int| 0 < i < ss1.len() implies ((#[trigger] ss1[i]).parent matches Some(p) && p < i
        && span_within(ss1[i].span, ss1[p as int].span)) by {
        if i < ss.len() {
            assert(ss1[i] == ss[i]);
            let p = ss[i].parent->0 as int;
            assert(ss1[p] == ss[p]);
        } else {
            assert(ss1[i] == sc);
            assert(ss1[parent] == ss[parent]);
        }
    }
}

/// Walking node `n` (inside scope `parent`) keeps the scopes nested and the
/// earlier ones untouched.
#[verifier::spinoff_prover]
#[verifier::rlimit(100)]
proof fn lemma_rust_dfs_nest(t: SyntaxTree, n: int, parent: int, ss: Seq<Scope>)
    requires
        t.wf(),
        t.nested(),
        0 <= n < t.size(),
        0 <= parent < ss.len(),
        scopes_nest(ss),
        span_within(node_range(t, n), ss[parent].span),
        rust_scope_dfs(t, n, parent, ss).len() <= usize::MAX,
    ensures
        scopes_nest(rust_scope_dfs(t, n, parent, ss)),
    decreases t.size() - n, 1nat, 0nat,
{
    lemma_rust_dfs_grows(t, n, parent, ss);
    lemma_rust_dfs_unfold(t, n, parent, ss);
    let (cs, p, ss1) = rust_dfs_step(t, n, parent, ss);
    lemma_rust_children_grows(t, n, cs, p, ss1);
    t.lemma_children_inside(n);
    t.lemma_children_bounds(n);
    let k = t.kind_of(n);
    if k == "macro_definition"@ || k == "macro_invocation"@ {
        if !(k == "function_item"@ || k == "closure_expression"@ || k == "mod_item"@ || k == "impl_item"@
            || k == "trait_item"@ || k == "struct_item"@ || k == "enum_item"@ || k == "block"@) {
            assert(cs.len() == 0);
        }
    }
    // The node whose children are walked next, and the span they must lie in.
    let inner: int = if k == "function_item"@ || k == "closure_expression"@ {
        match t.field_child_of(n, "body"@) {
            Some(b) => b as int,
            None => n,
        }
    } else if k == "mod_item"@ || k == "impl_item"@ || k == "trait_item"@ || k == "struct_item"@ || k == "enum_item"@ {
        match t.field_child_of(n, "body"@) {
            Some(b) => b as int,
            None => n,
        }
    } else {
        n
    };
    if inner != n {
        t.lemma_first_with_field_in(t.children_of(n), "body"@);
        let j = choose|j: int| 0 <= j < t.children_of(n).len() && t.children_of(n)[j] == inner as usize;
        assert(t.children_of(n)[j] as int == inner);
        assert(n < inner < t.size());
    }
    assert(span_within(node_range(t, inner), ss[parent].span));
    t.lemma_children_inside(inner);
    if ss1 != ss {
        assert(ss1 == ss.push(ss1.last()));
        assert(p == ss.len());
        lemma_push_nest(ss, ss1.last(), parent);
    }
    assert forall|j: int| 0 <= j < cs.len() implies span_within(node_range(t, #[trigger] cs[j] as int), ss1[p].span) by {
        if ss1 != ss {
            assert(ss1[p] == ss1.last());
        }
    }
    lemma_rust_children_nest(t, n, cs, p, ss1);
}

/// Walking the nodes `cs` in turn (each inside scope `parent`) keeps the
/// scopes nested and the earlier ones untouched.
#[verifier::spinoff_prover]
#[verifier::rlimit(100)]
proof fn lemma_rust_children_nest(t: SyntaxTree, n: int, cs: Seq<usize>, parent: int, ss: Seq<Scope>)
    requires
        t.wf(),
        t.nested(),
        0 <= n < t.size(),
        0 <= parent < ss.len(),
        scopes_nest(ss),
        forall|j: int| 0 <= j < cs.len() ==> span_within(node_range(t, #[trigger] cs[j] as int), ss[parent].span),
        rust_children_dfs(t, n, cs, parent, ss).len() <= usize::MAX,
    ensures
        scopes_nest(rust_children_dfs(t, n, cs, parent, ss)),
    decreases t.size() - n, 0nat, cs.len(),
{
    if cs.len() > 0 {
        let c = cs[0] as int;
        let ss1 = if n < c < t.size() {
            rust_scope_dfs(t, c, parent, ss)
        } else {
            ss
        };
        let rest = cs.skip(1);
        assert(rust_children_dfs(t, n, cs, parent, ss) == rust_children_dfs(t, n, rest, parent, ss1));
        lemma_rust_children_grows(t, n, rest, parent, ss1);
        if n < c < t.size() {
            lemma_rust_dfs_grows(t, c, parent, ss);
            assert(span_within(node_range(t, c), ss[parent].span));
            lemma_rust_dfs_nest(t, c, parent, ss);
        }
        assert(ss1[parent] == ss1.take(ss.len() as int)[parent]);
        assert forall|j: int| 0 <= j < rest.len() implies span_within(
            node_range(t, #[trigger] rest[j] as int),
            ss1[parent].span,
        ) by {
            assert(rest[j] == cs[j + 1]);
        }
        lemma_rust_children_nest(t, n, rest, parent, ss1);
    }
}

/// Law: the scope tree of a Rust file is the file's `Module` root followed by
/// scopes that each hang from an earlier scope and lie inside its span; a
/// file whose root has no children (an empty source) has the root alone.
pub proof fn law_rust_scopes_nest(t: SyntaxTree, len: usize)
    requires
        t.wf(),
        t.nested(),
        len == t.bytes.len(),
        rust_scope_tree(t, len).len() <= usize::MAX,
    ensures
        rust_scope_tree(t, len)[0] == root_scope(len),
        scopes_nest(rust_scope_tree(t, len)),
        t.children_of(0).len() == 0 ==> rust_scope_tree(t, len) == seq![root_scope(len)],
{
    let ss = seq![root_scope(len)];
    assert(scopes_nest(ss));
    t.lemma_children_bounds(0);
    assert forall|j: int| 0 <= j < t.children_of(0).len() implies span_within(
        node_range(t, #[trigger] t.children_of(0)[j] as int),
        ss[0].span,
    ) by {
        let c = t.children_of(0)[j] as int;
        assert(0 < c < t.size());
        assert(t.nodes@[c].start <= t.nodes@[c].end);
        assert(t.nodes@[c].end <= t.bytes.len());
    }
    lemma_rust_children_nest(t, 0, t.children_of(0), 0, ss);
    lemma_rust_children_grows(t, 0, t.children_of(0), 0, ss);
    let r = rust_scope_tree(t, len);
    assert(r[0] == r.take(1)[0]);
}

/// The identifier a pattern binds: the pattern itself when it is an
/// identifier, the first named identifier inside a `mut`/`ref` pattern; none
/// for destructuring patterns.
pub open spec fn rust_pattern_ident(t: SyntaxTree, p: int) -> Option<usize> {
    if t.kind_of(p) == "identifier"@ {
        Some(p as usize)
    } else if t.kind_of(p) == "mut_pattern"@ || t.kind_of(p) == "ref_pattern"@ {
        py_first_ident_in(t, t.children_of(p))
    } else {
        None
    }
}

/// The identifier pattern `p` binds.
fn pattern_ident(t: &SyntaxTree, p: usize) -> (r: Option<usize>)
    requires
        t.wf(),
        p < t.size(),
    ensures
        r == rust_pattern_ident(*t, p as int),
        r matches Some(i) ==> i < t.size(),
{
    if t.is_kind(p, "identifier") {
        Some(p)
    } else if t.is_kind(p, "mut_pattern") || t.is_kind(p, "ref_pattern") {
        let ch = t.children(p);
        let mut k: usize = 0;
        assert(ch@.skip(0) =~= ch@);
        while k < ch.len()
            invariant
                t.wf(),
                k <= ch.len(),
                ch@ == t.children_of(p as int),
                forall|j: int| 0 <= j < ch.len() ==> #[trigger] ch@[j] < t.size(),
                py_first_ident_in(*t, ch@.skip(k as int)) == py_first_ident_in(*t, t.children_of(p as int)),
                rust_pattern_ident(*t, p as int) == py_first_ident_in(*t, t.children_of(p as int)),
            decreases ch.len() - k,
        {
            let c = ch[k];
            assert(ch@.skip(k as int)[0] == c);
            if t.nodes[c].named && t.is_kind(c, "identifier") {
                return Some(c);
            }
            assert(ch@.skip(k as int).skip(1) =~= ch@.skip(k + 1));
            k = k + 1;
        }
        None
    } else {
        None
    }
}

/// The first of `cs` that is a named `self`.
pub open spec fn rust_first_self_in(t: SyntaxTree, cs: Seq<usize>) -> Option<usize>
    decreases cs.len(),
{
    if cs.len() == 0 {
        None
    } else if t.nodes@[cs[0] as int].named && t.kind_of(cs[0] as int) == "self"@ {
        Some(cs[0])
    } else {
        rust_first_self_in(t, cs.skip(1))
    }
}

/// The parameter binding child `c` of a parameter list makes: a typed
/// parameter's `self` or simple pattern, a `self` parameter's `self`, a bare
/// closure identifier.
pub open spec fn rust_param(t: SyntaxTree, c: int) -> Seq<LocalItem> {
    if t.kind_of(c) == "parameter"@ {
        match t.field_child_of(c, "pattern"@) {
            Some(p) => if t.kind_of(p as int) == "self"@ {
                seq![(t.nodes@[p as int].start as int, "self"@, BindingKind::Param)]
            } else {
                match rust_pattern_ident(t, p as int) {
                    Some(id) => seq![(t.nodes@[id as int].start as int, t.text_of(id as int), BindingKind::Param)],
                    None => Seq::empty(),
                }
            },
            None => Seq::empty(),
        }
    } else if t.kind_of(c) == "self_parameter"@ {
        match rust_first_self_in(t, t.children_of(c)) {
            Some(g) => seq![(t.nodes@[g as int].start as int, "self"@, BindingKind::Param)],
            None => Seq::empty(),
        }
    } else if t.kind_of(c) == "identifier"@ {
        seq![(t.nodes@[c].start as int, t.text_of(c), BindingKind::Param)]
    } else {
        Seq::empty()
    }
}

/// The parameter bindings the named children among `cs` make.
pub open spec fn rust_params_in(t: SyntaxTree, cs: Seq<usize>) -> Seq<LocalItem>
    decreases cs.len(),
{
    if cs.len() == 0 {
        Seq::empty()
    } else {
        let c = cs.last();
        rust_params_in(t, cs.drop_last()) + if t.nodes@[c as int].named {
            rust_param(t, c as int)
        } else {
            Seq::empty()
        }
    }
}

/// The bindings node `i` makes: the parameters of a function or closure;
/// the identifier a `let` pattern binds.
pub open spec fn rust_bindings_at(t: SyntaxTree, i: int) -> Seq<LocalItem> {
    if t.kind_of(i) == "function_item"@ || t.kind_of(i) == "closure_expression"@ {
        match t.field_child_of(i, "parameters"@) {
            Some(p) => rust_params_in(t, t.children_of(p as int)),
            None => Seq::empty(),
        }
    } else if t.kind_of(i) == "let_declaration"@ {
        match t.field_child_of(i, "pattern"@) {
            Some(p) => match rust_pattern_ident(t, p as int) {
                Some(id) => seq![(t.nodes@[id as int].start as int, t.text_of(id as int), BindingKind::Local)],
                None => Seq::empty(),
            },
            None => Seq::empty(),
        }
    } else {
        Seq::empty()
    }
}

/// The bindings nodes `0..n` make, in pre-order.
pub open spec fn rust_bindings_upto(t: SyntaxTree, n: int) -> Seq<LocalItem>
    decreases n,
{
    if n <= 0 {
        Seq::empty()
    } else {
        rust_bindings_upto(t, n - 1) + rust_bindings_at(t, n - 1)
    }
}

/// The first named `self` child of `c`.
fn first_self(t: &SyntaxTree, c: usize) -> (r: Option<usize>)
    requires
        t.wf(),
        c < t.size(),
    ensures
        r == rust_first_self_in(*t, t.children_of(c as int)),
        r matches Some(g) ==> g < t.size(),
{
    let gs = t.children(c);
    let mut m: usize = 0;
    assert(gs@.skip(0) =~= gs@);
    while m < gs.len()
        invariant
            t.wf(),
            m <= gs.len(),
            gs@ == t.children_of(c as int),
            forall|j: int| 0 <= j < gs.len() ==> #[trigger] gs@[j] < t.size(),
            rust_first_self_in(*t, gs@.skip(m as int)) == rust_first_self_in(*t, t.children_of(c as int)),
        decreases gs.len() - m,
    {
        let g = gs[m];
        assert(gs@.skip(m as int)[0] == g);
        if t.nodes[g].named && t.is_kind(g, "self") {
            return Some(g);
        }
        assert(gs@.skip(m as int).skip(1) =~= gs@.skip(m + 1));
        m = m + 1;
    }
    None
}

/// The parameter binding parameter-list child `c` makes.
fn push_param(t: &SyntaxTree, c: usize, scopes: &Vec<Scope>, out: &mut Vec<Binding>)
    requires
        t.wf(),
        c < t.size(),
        scopes.len() >= 1,
    ensures
        locals_grow(scopes@, old(out)@, final(out)@, rust_param(*t, c as int)),
{
    proof {
        lemma_locals_grow_none(scopes@, out@);
        reveal_strlit("self");
    }
    if t.is_kind(c, "parameter") {
        match t.field_child(c, "pattern") {
            Some(p) => {
                if t.is_kind(p, "self") {
                    push_local_item(out, "self".to_owned(), t.nodes[p].start, BindingKind::Param, scopes);
                } else {
                    match pattern_ident(t, p) {
                        Some(id) => push_local_item(out, t.text(id), t.nodes[id].start, BindingKind::Param, scopes),
                        None => {},
                    }
                }
            },
            None => {},
        }
    } else if t.is_kind(c, "self_parameter") {
        match first_self(t, c) {
            Some(g) => push_local_item(out, "self".to_owned(), t.nodes[g].start, BindingKind::Param, scopes),
            None => {},
        }
    } else if t.is_kind(c, "identifier") {
        push_local_item(out, t.text(c), t.nodes[c].start, BindingKind::Param, scopes);
    }
}

/// `Param` bindings for a `parameters` or `closure_parameters` node: typed
/// parameters (with a simple or `self` pattern), `self` parameters and bare
/// closure identifiers.
fn collect_params(t: &SyntaxTree, params: usize, scopes: &Vec<Scope>, out: &mut Vec<Binding>)
    requires
        t.wf(),
        params < t.size(),
        scopes.len() >= 1,
    ensures
        locals_grow(scopes@, old(out)@, final(out)@, rust_params_in(*t, t.children_of(params as int))),
{
    let ch = t.children(params);
    let mut k: usize = 0;
    assert(ch@.take(0) =~= Seq::<usize>::empty());
    proof {
        lemma_locals_grow_none(scopes@, out@);
    }
    while k < ch.len()
        invariant
            t.wf(),
            scopes.len() >= 1,
            k <= ch.len(),
            ch@ == t.children_of(params as int),
            forall|j: int| 0 <= j < ch.len() ==> #[trigger] ch@[j] < t.size(),
            locals_grow(scopes@, old(out)@, out@, rust_params_in(*t, ch@.take(k as int))),
        decreases ch.len() - k,
    {
        let c = ch[k];
        let ghost mid = out@;
        proof {
            assert(ch@.take(k + 1).drop_last() =~= ch@.take(k as int));
            assert(ch@.take(k + 1).last() == c);
            lemma_locals_grow_none(scopes@, mid);
        }
        if t.nodes[c].named {
            push_param(t, c, scopes, out);
        }
        proof {
            let prev = rust_params_in(*t, ch@.take(k as int));
            let step = rust_params_in(*t, ch@.take(k + 1)).skip(prev.len() as int);
            assert(rust_params_in(*t, ch@.take(k + 1)) =~= prev + step);
            lemma_locals_grow_trans(scopes@, old(out)@, mid, out@, prev, step);
        }
        k = k + 1;
    }
    assert(ch@.take(ch.len() as int) =~= ch@);
}

/// Parameter bindings of functions and closures, and `Local` bindings of
/// `let` patterns that bind a single identifier.
fn collect_bindings(t: &SyntaxTree, scopes: &Vec<Scope>) -> (r: Vec<Binding>)
    requires
        t.wf(),
        scopes.len() >= 1,
    ensures
        bindings_ok(r@, scopes.len() as int),
        locals_match(scopes@, rust_bindings_upto(*t, t.size()), r@),
{
    let mut out: Vec<Binding> = Vec::new();
    let mut i: usize = 0;
    proof {
        lemma_locals_grow_none(scopes@, out@);
    }
    while i < t.nodes.len()
        invariant
            t.wf(),
            scopes.len() >= 1,
            i <= t.nodes.len(),
            locals_grow(scopes@, Seq::empty(), out@, rust_bindings_upto(*t, i as int)),
        decreases t.nodes.len() - i,
    {
        let ghost before = out@;
        proof {
            lemma_locals_grow_none(scopes@, before);
        }
        if t.is_kind(i, "function_item") || t.is_kind(i, "closure_expression") {
            match t.field_child(i, "parameters") {
                Some(p) => collect_params(t, p, scopes, &mut out),
                None => {},
            }
        } else if t.is_kind(i, "let_declaration") {
            match t.field_child(i, "pattern") {
                Some(p) => match pattern_ident(t, p) {
                    Some(id) => push_local_item(&mut out, t.text(id), t.nodes[id].start, BindingKind::Local, scopes),
                    None => {},
                },
                None => {},
            }
        }
        proof {
            assert(rust_bindings_upto(*t, i + 1) == rust_bindings_upto(*t, i as int) + rust_bindings_at(*t, i as int));
            lemma_locals_grow_trans(scopes@, Seq::empty(), before, out@, rust_bindings_upto(*t, i as int), rust_bindings_at(*t, i as int));
        }
        i = i + 1;
    }
    assert(out@.skip(0) =~= out@);
    assert(out@.take(0) =~= Seq::<Binding>::empty());
    out
}

/// The plain references of a Rust file, in order: calls, then implemented
/// and extended traits.
pub open spec fn rust_refs(t: SyntaxTree) -> Seq<RefItem> {
    rust_calls_upto(t, t.size()) + rust_inherits_upto(t, t.size())
}

/// What `rust_facts` states of the facts `r` it builds from tree `t` of
/// `source`, the text of `file`.
pub open spec fn rust_facts_of(t: SyntaxTree, source: Seq<char>, file: Seq<char>, r: FileFacts) -> bool {
    &&& scope_tree_wf(r.scopes@, encode_utf8(source).len() as int)
    &&& r.symbols@.len() >= 1
    &&& r.symbols@.last().kind == SymbolKind::Module
    &&& r.ffi_exports@.len() == 0
    &&& symbols_match(
        t,
        file,
        Language::Rust,
        rust_stops(),
        rust_defs_in(t, t.children_of(0), namespaces_text(rust_namespaces_spec(file))),
        r.symbols@.drop_last(),
    )
    &&& module_symbol_spec(r.symbols@.last(), Language::Rust, rust_namespaces_spec(file), file, encode_utf8(source).len() as int)
    &&& ({
        let plain = rust_refs(t);
        let imports = rust_imports_upto(t, t.size());
        &&& r.references@.len() == plain.len() + imports.len()
        &&& refs_items(t, file, plain, r.references@.take(plain.len() as int))
        &&& forall|j: int|
            0 <= j < imports.len() ==> import_ref_at(
                t,
                file,
                scip_text(r.symbols@.last().id),
                imports[j],
                #[trigger] r.references@.skip(plain.len() as int)[j],
            )
    })
    &&& r.scopes@ == rust_scope_tree(t, (encode_utf8(source).len() as usize))
    &&& locals_match(r.scopes@, rust_bindings_upto(t, t.size()), r.bindings@)
}

/// The facts of a Rust file from its syntax tree: the fully public items and
/// `impl` blocks, in order, then the file's module symbol; calls and traits,
/// then imports (from the module), each in pre-order; the scope tree;
/// parameter and `let` bindings.
pub fn rust_facts(t: &SyntaxTree, source: &str, file: &str) -> (r: FileFacts)
    requires
        t.wf(),
        t.bytes@ == encode_utf8(source@),
    ensures
        facts_wf(r, file@, source@, Language::Rust),
        rust_facts_of(*t, source@, file@, r),
{
    let len = source.len();
    let ns = rust_namespaces(file);
    let mut symbols = collect_symbols(t, file, &ns);
    let ghost defs_seq = symbols@;
    let module = module_symbol(Language::Rust, &ns, file, len);
    let module_id = module.id.to_scip_string();
    symbols.push(module);
    assert(symbols@.drop_last() =~= defs_seq);
    let mut refs: Vec<Reference> = Vec::new();
    let ghost r0 = refs@;
    collect_calls(t, file, &mut refs);
    let ghost r1 = refs@;
    collect_inheritance(t, file, &mut refs);
    let ghost r2 = refs@;
    collect_imports(t, file, module_id.as_str(), &mut refs);
    proof {
        lemma_refs_grow_trans(*t, file@, r0, r1, r2, rust_calls_upto(*t, t.size()), rust_inherits_upto(*t, t.size()));
        assert(r2.skip(0) =~= r2);
        assert(refs@.take(r2.len() as int) == r2);
        assert(refs_ok(Seq::<Reference>::empty(), file@, t.bytes.len() as int));
    }
    let scopes = collect_scopes(t, len);
    let ghost before = refs@;
    let refs = attach_reference_scopes(refs, &scopes);
    proof {
        let plain = rust_refs(*t);
        let n = plain.len() as int;
        assert(refs_items(*t, file@, plain, before.take(n))) by {
            assert(before.take(n) =~= r2);
        }
        assert(super::scope::scopes_attached(before.take(n), refs@.take(n), scopes@));
        lemma_refs_items_attached(*t, file@, plain, before.take(n), refs@.take(n), scopes@);
        let imports = rust_imports_upto(*t, t.size());
        assert forall|j: int| 0 <= j < imports.len() implies import_ref_at(
            *t,
            file@,
            scip_text(symbols@.last().id),
            imports[j],
            #[trigger] refs@.skip(n)[j],
        ) by {
            assert(import_ref_at(*t, file@, module_id@, imports[j], before.skip(n)[j]));
            assert(refs@.skip(n)[j] == refs@[n + j]);
            assert(before.skip(n)[j] == before[n + j]);
        }
    }
    let bindings = collect_bindings(t, &scopes);
    FileFacts {
        file: file.to_owned(),
        lang: Language::Rust.as_str().to_owned(),
        symbols,
        references: refs,
        scopes,
        bindings,
        ffi_exports: Vec::new(),
    }
}

impl Extractor for RustExtractor {
    open spec fn spec_lang(&self) -> Language {
        Language::Rust
    }

    fn lang(&self) -> (r: Language) {
        Language::Rust
    }

    fn extract(&self, source: &str, file: &str) -> (r: Result<FileFacts>)
        ensures
            r is Ok <==> super::parses(Grammar::Rust, source@),
            r matches Ok(f) ==> super::extracted(Language::Rust, source@, file@, f),
    {
        let t = super::parse_tree(Grammar::Rust, source, file)?;
        let res: Result<FileFacts> = Ok(rust_facts(&t, source, file));
        assert(super::parsed_by(t, Grammar::Rust, source@) && rust_facts_of(t, source@, file@, res->Ok_0));
        res
    }
}

/// A callee of a node before `n` is among the calls of nodes `0..n`.
proof fn lemma_rust_calls_upto_has(t: SyntaxTree, i: int, n: int, m: usize)
    requires
        0 <= i < n,
        rust_callee(t, i) == Some(m),
    ensures
        exists|k: int|
            0 <= k < rust_calls_upto(t, n).len() && rust_calls_upto(t, n)[k] == (m as int, t.text_of(m as int), RefRole::Call),
    decreases n,
{
    let prev = rust_calls_upto(t, n - 1);
    if i < n - 1 {
        lemma_rust_calls_upto_has(t, i, n - 1, m);
        let k = choose|k: int| 0 <= k < prev.len() && prev[k] == (m as int, t.text_of(m as int), RefRole::Call);
        assert(rust_calls_upto(t, n)[k] == prev[k]);
    } else {
        assert(rust_calls_upto(t, n)[prev.len() as int] == (m as int, t.text_of(m as int), RefRole::Call));
    }
}

/// Law: every call whose function is an identifier, the field identifier of a field expression, or the identifier named by a scoped path is a `Call` reference of the file, named by that node's
/// text and occurring where it starts.
pub proof fn law_rust_calls_are_referenced(
    t: SyntaxTree,
    source: Seq<char>,
    file: Seq<char>,
    r: FileFacts,
    i: int,
    f: usize,
    m: usize,
)
    requires
        rust_facts_of(t, source, file, r),
        0 <= i < t.size(),
        t.kind_of(i) == "call_expression"@,
        (t.field_child_of(i, "function"@) == Some(m) && t.kind_of(m as int) == "identifier"@) || (t.field_child_of(i, "function"@) == Some(f) && t.kind_of(f as int) == "field_expression"@ && t.field_child_of(f as int, "field"@) == Some(m) && t.kind_of(m as int) == "field_identifier"@) || (t.field_child_of(i, "function"@) == Some(f) && t.kind_of(f as int) == "scoped_identifier"@ && t.field_child_of(f as int, "name"@) == Some(m) && t.kind_of(m as int) == "identifier"@),
    ensures
        exists|j: int|
            0 <= j < r.references.len() && (#[trigger] r.references@[j]).role == RefRole::Call
                && r.references@[j].name@ == t.text_of(m as int) && r.references@[j].occ.byte
                == t.nodes@[m as int].start,
{
    reveal_strlit("identifier");
    assert("identifier"@ =~= seq!['i', 'd', 'e', 'n', 't', 'i', 'f', 'i', 'e', 'r']);
    reveal_strlit("field_expression");
    assert("field_expression"@ =~= seq!['f', 'i', 'e', 'l', 'd', '_', 'e', 'x', 'p', 'r', 'e', 's', 's', 'i', 'o', 'n']);
    reveal_strlit("scoped_identifier");
    assert("scoped_identifier"@ =~= seq!['s', 'c', 'o', 'p', 'e', 'd', '_', 'i', 'd', 'e', 'n', 't', 'i', 'f', 'i', 'e', 'r']);
    reveal_strlit("field_identifier");
    assert("field_identifier"@ =~= seq!['f', 'i', 'e', 'l', 'd', '_', 'i', 'd', 'e', 'n', 't', 'i', 'f', 'i', 'e', 'r']);
    assert(rust_callee(t, i) == Some(m));
    lemma_rust_calls_upto_has(t, i, t.size(), m);
    let calls = rust_calls_upto(t, t.size());
    let k = choose|k: int| 0 <= k < calls.len() && calls[k] == (m as int, t.text_of(m as int), RefRole::Call);
    let refs = rust_refs(t);
    assert(refs[k] == calls[k]);
    let got = r.references@.take(refs.len() as int);
    assert(super::support::ref_at(t, refs[k].0, file, refs[k].1, refs[k].2, got[k]));
    assert(got[k] == r.references@[k]);
}

} // verus!
