//! Java: public top-level types (`class`, `interface`, `enum`, `record`,
//! `@interface`) and their public members (interface and annotation members
//! are implicitly public), qualified by the `package` declaration or, without
//! one, by the file's path; call, inheritance, import and JNI-bridge
//! references; type, method, lambda and block scopes with parameter and local
//! bindings.

use vstd::prelude::*;
use vstd::utf8::*;
use crate::error::Result;
use crate::graph::{Binding, BindingKind, FileFacts, RefRole, Reference, Scope, ScopeId, ScopeKind, Symbol, SymbolKind};
use crate::lang::Language;
use crate::symbol::{Descriptor, descriptor_text, scip_text};
use crate::text::{chars_of, segments, simple_type_name, simple_name_of, split_nonempty, str_eq, strings_of, views, push_str_chars, string_from_chars};
use super::Extractor;
use super::tree::SyntaxTree;
use super::ts::Grammar;
use super::scope::{
    attach_reference_scopes, definition_bindings, import_bindings, imports_of, innermost_scope, is_innermost,
    lemma_innermost_unique, lemma_binding_scope_bound, lemma_scopes_extend_refl, lemma_scopes_extend_trans,
    lemma_scopes_extend_wf, push_scope, root_scopes, root_scope, scope_tree_wf, scopes_extend, LocalItem, locals_match,
    locals_grow, lemma_locals_grow_none, lemma_locals_grow_trans, push_local_item, def_bindings_of, import_bindings_of,
};
use super::go::scope_of;
use super::support::{
    append_bindings, facts_wf, field_text, module_symbol, node_span, path_namespaces, path_namespaces_spec, refs_ok,
    symbols_ok, module_symbol_spec, namespaces_text, method_text, type_text, term_text, types_text, Def, symbols_match,
    defs_grow, lemma_defs_grow_none, lemma_defs_grow_trans, push_path_def, push_ns_def, RefItem, refs_items, refs_grow,
    lemma_refs_grow_none, lemma_refs_grow_trans, push_ref_item, lemma_refs_items_attached, ImportItem, import_ref_at,
    imports_grow, lemma_imports_grow_none, lemma_imports_grow_trans, push_import_item,
};

verus! {

/// Extracts Java symbols and references.
pub struct JavaExtractor;

/// Whether a node of kind `k` can name a package: a scoped or a bare
/// identifier.
pub open spec fn java_pkg_name_kind(k: Seq<char>) -> bool {
    k == "scoped_identifier"@ || k == "identifier"@
}

/// The first of `cs` that can name a package.
pub open spec fn java_pkg_name_in(t: SyntaxTree, cs: Seq<usize>) -> Option<usize>
    decreases cs.len(),
{
    if cs.len() == 0 {
        None
    } else if java_pkg_name_kind(t.kind_of(cs[0] as int)) {
        Some(cs[0])
    } else {
        java_pkg_name_in(t, cs.skip(1))
    }
}

/// The package name of the first `package_declaration` among `cs` that
/// holds one.
pub open spec fn java_package_in(t: SyntaxTree, cs: Seq<usize>) -> Option<usize>
    decreases cs.len(),
{
    if cs.len() == 0 {
        None
    } else if t.kind_of(cs[0] as int) == "package_declaration"@ && java_pkg_name_in(t, t.children_of(cs[0] as int)) is Some {
        java_pkg_name_in(t, t.children_of(cs[0] as int))
    } else {
        java_package_in(t, cs.skip(1))
    }
}

/// The namespaces of a Java file: the non-empty dot-separated segments of
/// its package name, or the path-derived ones when it declares no package.
pub open spec fn java_namespaces_spec(t: SyntaxTree, file: Seq<char>) -> Seq<Seq<char>> {
    match java_package_in(t, t.children_of(0)) {
        Some(p) => segments(t.text_of(p as int), '.'),
        None => path_namespaces_spec(file, ".java"@),
    }
}

/// The first of `cs` that can name a package is the one at `m` when none
/// before it can.
proof fn lemma_java_pkg_name_at(t: SyntaxTree, cs: Seq<usize>, m: int)
    requires
        0 <= m < cs.len(),
        java_pkg_name_kind(t.kind_of(cs[m] as int)),
        forall|l: int| 0 <= l < m ==> !java_pkg_name_kind(t.kind_of(#[trigger] cs[l] as int)),
    ensures
        java_pkg_name_in(t, cs) == Some(cs[m]),
    decreases m,
{
    if m > 0 {
        assert(!java_pkg_name_kind(t.kind_of(cs[0] as int)));
        assert forall|l: int| 0 <= l < m - 1 implies !java_pkg_name_kind(t.kind_of(#[trigger] cs.skip(1)[l] as int)) by {
            assert(cs.skip(1)[l] == cs[l + 1]);
        }
        lemma_java_pkg_name_at(t, cs.skip(1), m - 1);
    }
}

/// The package of `cs` is that of its first package declaration, at `k`,
/// when that declaration holds a package name.
proof fn lemma_java_package_at(t: SyntaxTree, cs: Seq<usize>, k: int, p: usize)
    requires
        0 <= k < cs.len(),
        t.kind_of(cs[k] as int) == "package_declaration"@,
        java_pkg_name_in(t, t.children_of(cs[k] as int)) == Some(p),
        forall|l: int| 0 <= l < k ==> t.kind_of(#[trigger] cs[l] as int) != "package_declaration"@,
    ensures
        java_package_in(t, cs) == Some(p),
    decreases k,
{
    if k > 0 {
        assert(t.kind_of(cs[0] as int) != "package_declaration"@);
        assert forall|l: int| 0 <= l < k - 1 implies t.kind_of(#[trigger] cs.skip(1)[l] as int) != "package_declaration"@ by {
            assert(cs.skip(1)[l] == cs[l + 1]);
        }
        lemma_java_package_at(t, cs.skip(1), k - 1, p);
    }
}

/// Without a package declaration among `cs` there is no package.
proof fn lemma_java_package_none(t: SyntaxTree, cs: Seq<usize>)
    requires
        forall|l: int| 0 <= l < cs.len() ==> t.kind_of(#[trigger] cs[l] as int) != "package_declaration"@,
    ensures
        java_package_in(t, cs) is None,
    decreases cs.len(),
{
    if cs.len() > 0 {
        assert forall|l: int| 0 <= l < cs.len() - 1 implies t.kind_of(#[trigger] cs.skip(1)[l] as int)
            != "package_declaration"@ by {
            assert(cs.skip(1)[l] == cs[l + 1]);
        }
        lemma_java_package_none(t, cs.skip(1));
    }
}

/// Law: a Java file's namespaces are the dot-separated segments of the name
/// in its first top-level `package` declaration (the first child of that
/// declaration that is a scoped or a bare identifier); a file with no
/// top-level `package` declaration takes the namespaces of its path, without
/// a leading `src/` and the `.java` extension.
pub proof fn law_java_package_names_the_namespaces(t: SyntaxTree, file: Seq<char>, k: int, m: int)
    ensures
        ({
            let cs = t.children_of(0);
            (0 <= k < cs.len() && t.kind_of(cs[k] as int) == "package_declaration"@ && (forall|l: int|
                0 <= l < k ==> t.kind_of(#[trigger] cs[l] as int) != "package_declaration"@) && 0 <= m < t.children_of(
                cs[k] as int,
            ).len() && java_pkg_name_kind(t.kind_of(t.children_of(cs[k] as int)[m] as int)) && (forall|l: int|
                0 <= l < m ==> !java_pkg_name_kind(t.kind_of(#[trigger] t.children_of(cs[k] as int)[l] as int))))
                ==> java_namespaces_spec(t, file) == segments(t.text_of(t.children_of(cs[k] as int)[m] as int), '.')
        }),
        (forall|l: int|
            0 <= l < t.children_of(0).len() ==> t.kind_of(#[trigger] t.children_of(0)[l] as int)
                != "package_declaration"@) ==> java_namespaces_spec(t, file) == path_namespaces_spec(file, ".java"@),
{
    let cs = t.children_of(0);
    if 0 <= k < cs.len() && t.kind_of(cs[k] as int) == "package_declaration"@ && (forall|l: int|
        0 <= l < k ==> t.kind_of(#[trigger] cs[l] as int) != "package_declaration"@) && 0 <= m < t.children_of(
        cs[k] as int,
    ).len() && java_pkg_name_kind(t.kind_of(t.children_of(cs[k] as int)[m] as int)) && (forall|l: int|
        0 <= l < m ==> !java_pkg_name_kind(t.kind_of(#[trigger] t.children_of(cs[k] as int)[l] as int))) {
        let pcs = t.children_of(cs[k] as int);
        lemma_java_pkg_name_at(t, pcs, m);
        lemma_java_package_at(t, cs, k, pcs[m]);
    }
    if forall|l: int| 0 <= l < cs.len() ==> t.kind_of(#[trigger] cs[l] as int) != "package_declaration"@ {
        lemma_java_package_none(t, cs);
    }
}

/// The first child of `c` that can name a package.
fn package_name(t: &SyntaxTree, c: usize) -> (r: Option<usize>)
    requires
        t.wf(),
        c < t.size(),
    ensures
        r == java_pkg_name_in(*t, t.children_of(c as int)),
        r matches Some(p) ==> p < t.size(),
{
    let pc = t.children(c);
    let mut m: usize = 0;
    assert(pc@.skip(0) =~= pc@);
    while m < pc.len()
        invariant
            t.wf(),
            m <= pc.len(),
            pc@ == t.children_of(c as int),
            forall|j: int| 0 <= j < pc.len() ==> #[trigger] pc@[j] < t.size(),
            java_pkg_name_in(*t, pc@.skip(m as int)) == java_pkg_name_in(*t, t.children_of(c as int)),
        decreases pc.len() - m,
    {
        let p = pc[m];
        assert(pc@.skip(m as int)[0] == p);
        if t.is_kind(p, "scoped_identifier") || t.is_kind(p, "identifier") {
            return Some(p);
        }
        assert(pc@.skip(m as int).skip(1) =~= pc@.skip(m + 1));
        m = m + 1;
    }
    None
}

/// The namespaces of a Java file: the segments of its `package` name, or the
/// path-derived ones when it has no `package` declaration.
pub fn java_namespaces(t: &SyntaxTree, file: &str) -> (r: Vec<String>)
    requires
        t.wf(),
    ensures
        views(r@) == java_namespaces_spec(*t, file@),
{
    let ch = t.children(0);
    let mut k: usize = 0;
    assert(ch@.skip(0) =~= ch@);
    while k < ch.len()
        invariant
            t.wf(),
            k <= ch.len(),
            ch@ == t.children_of(0),
            forall|j: int| 0 <= j < ch.len() ==> 0 < #[trigger] ch@[j] < t.size(),
            java_package_in(*t, ch@.skip(k as int)) == java_package_in(*t, t.children_of(0)),
        decreases ch.len() - k,
    {
        let c = ch[k];
        assert(ch@.skip(k as int)[0] == c);
        if t.is_kind(c, "package_declaration") {
            match package_name(t, c) {
                Some(p) => {
                    let text = t.text(p);
                    let cs = chars_of(text.as_str());
                    let parts = split_nonempty(&cs, '.');
                    return strings_of(&parts);
                },
                None => {},
            }
        }
        assert(ch@.skip(k as int).skip(1) =~= ch@.skip(k + 1));
        k = k + 1;
    }
    path_namespaces(file, ".java")
}

/// Whether node `n` has a `modifiers` child one of whose children reads
/// `keyword`.
pub open spec fn java_has_modifier(t: SyntaxTree, n: int, keyword: Seq<char>) -> bool {
    match t.kind_child_of(n, "modifiers"@) {
        Some(m) => java_any_text_is(t, t.children_of(m as int), keyword),
        None => false,
    }
}

/// Whether one of `cs` reads `keyword`.
pub open spec fn java_any_text_is(t: SyntaxTree, cs: Seq<usize>, keyword: Seq<char>) -> bool {
    exists|j: int| 0 <= j < cs.len() && #[trigger] t.text_of(cs[j] as int) == keyword
}

/// Whether `n` has a `modifiers` child holding the modifier `keyword`.
fn has_modifier(t: &SyntaxTree, n: usize, keyword: &str) -> (r: bool)
    requires
        t.wf(),
        n < t.size(),
    ensures
        r == java_has_modifier(*t, n as int, keyword@),
{
    match t.child_of_kind(n, "modifiers") {
        Some(mods) => {
            let ms = t.children(mods);
            let mut k: usize = 0;
            while k < ms.len()
                invariant
                    t.wf(),
                    k <= ms.len(),
                    ms@ == t.children_of(mods as int),
                    t.kind_child_of(n as int, "modifiers"@) == Some(mods),
                    forall|j: int| 0 <= j < ms.len() ==> #[trigger] ms@[j] < t.size(),
                    forall|j: int| 0 <= j < k ==> #[trigger] t.text_of(ms@[j] as int) != keyword@,
                decreases ms.len() - k,
            {
                let m = ms[k];
                let text = t.text(m);
                if str_eq(text.as_str(), keyword) {
                    assert(t.text_of(t.children_of(mods as int)[k as int] as int) == keyword@);
                    return true;
                }
                k = k + 1;
            }
            false
        },
        None => false,
    }
}

/// Whether `n` carries the `public` modifier.
fn is_public(t: &SyntaxTree, n: usize) -> (r: bool)
    requires
        t.wf(),
        n < t.size(),
    ensures
        r == java_has_modifier(*t, n as int, "public"@),
{
    has_modifier(t, n, "public")
}

/// Where a Java signature stops.
pub open spec fn java_stops() -> Seq<char> {
    seq!['{', ';']
}

/// The definitions among `cs`, children of node `n`, inside a type whose
/// path spells `pre`; `imp` makes every member public.
pub open spec fn java_member_defs(t: SyntaxTree, n: int, cs: Seq<usize>, pre: Seq<char>, imp: bool) -> Seq<Def>
    decreases t.size() - n, cs.len(),
{
    if cs.len() == 0 {
        Seq::empty()
    } else {
        java_member_defs(t, n, cs.drop_last(), pre, imp) + java_member_at(t, n, cs.last(), pre, imp)
    }
}

/// The definitions member `m` (a child of `n`) makes: those of an
/// `enum_body_declarations` it wraps; a public (or implicitly public)
/// method or constructor; each declarator of a public field.
pub open spec fn java_member_at(t: SyntaxTree, n: int, m: usize, pre: Seq<char>, imp: bool) -> Seq<Def>
    decreases t.size() - n, 0nat,
{
    let k = t.kind_of(m as int);
    if k == "enum_body_declarations"@ {
        if n < m < t.size() {
            java_member_defs(t, m as int, t.children_of(m as int), pre, imp)
        } else {
            Seq::empty()
        }
    } else if k == "method_declaration"@ || k == "constructor_declaration"@ {
        if imp || java_has_modifier(t, m as int, "public"@) {
            match t.field_child_of(m as int, "name"@) {
                Some(nm) => seq![(m as int, t.text_of(nm as int), SymbolKind::Method, pre + method_text(t.text_of(nm as int)))],
                None => Seq::empty(),
            }
        } else {
            Seq::empty()
        }
    } else if k == "field_declaration"@ {
        if imp || java_has_modifier(t, m as int, "public"@) {
            java_field_defs(t, m as int, t.children_of(m as int), pre)
        } else {
            Seq::empty()
        }
    } else {
        Seq::empty()
    }
}

/// The definitions the declarators among `ds` (children of field
/// declaration `m`) make, each spanning the whole declaration.
pub open spec fn java_field_defs(t: SyntaxTree, m: int, ds: Seq<usize>, pre: Seq<char>) -> Seq<Def>
    decreases ds.len(),
{
    if ds.len() == 0 {
        Seq::empty()
    } else {
        let d = ds.last();
        java_field_defs(t, m, ds.drop_last(), pre) + if t.field_of(d as int) == Some("declarator"@) {
            match t.field_child_of(d as int, "name"@) {
                Some(nm) => seq![(m, t.text_of(nm as int), SymbolKind::Static, pre + term_text(t.text_of(nm as int)))],
                None => Seq::empty(),
            }
        } else {
            Seq::empty()
        }
    }
}

/// Whether a node of kind `k` declares a Java type.
pub open spec fn java_type_kind(k: Seq<char>) -> bool {
    k == "class_declaration"@ || k == "interface_declaration"@ || k == "enum_declaration"@ || k == "record_declaration"@
        || k == "annotation_type_declaration"@
}

/// The symbol kind of a type declared by a node of kind `k`.
pub open spec fn java_type_symbol_kind(k: Seq<char>) -> SymbolKind {
    if k == "interface_declaration"@ || k == "annotation_type_declaration"@ {
        SymbolKind::Interface
    } else if k == "enum_declaration"@ {
        SymbolKind::Enum
    } else {
        SymbolKind::Class
    }
}

/// The definitions top-level node `c` makes in a file whose namespaces
/// spell `nst`: a public named type, then its members.
pub open spec fn java_type_defs_at(t: SyntaxTree, c: usize, nst: Seq<char>) -> Seq<Def> {
    let k = t.kind_of(c as int);
    if java_type_kind(k) && java_has_modifier(t, c as int, "public"@) {
        match t.field_child_of(c as int, "name"@) {
            Some(nm) => {
                let owner = t.text_of(nm as int);
                seq![(c as int, owner, java_type_symbol_kind(k), nst + type_text(owner))] + match t.field_child_of(
                    c as int,
                    "body"@,
                ) {
                    Some(b) => java_member_defs(
                        t,
                        b as int,
                        t.children_of(b as int),
                        nst + types_text(seq![owner]),
                        k == "interface_declaration"@ || k == "annotation_type_declaration"@,
                    ),
                    None => Seq::empty(),
                }
            },
            None => Seq::empty(),
        }
    } else {
        Seq::empty()
    }
}

/// The definitions the top-level nodes `cs` make.
pub open spec fn java_defs_in(t: SyntaxTree, cs: Seq<usize>, nst: Seq<char>) -> Seq<Def>
    decreases cs.len(),
{
    if cs.len() == 0 {
        Seq::empty()
    } else {
        java_defs_in(t, cs.drop_last(), nst) + java_type_defs_at(t, cs.last(), nst)
    }
}

/// The members among the children of `body`: methods and constructors, and
/// each declarator of a field, public or in an implicitly public type;
/// `enum_body_declarations` are descended into.
fn collect_members(
    t: &SyntaxTree,
    body: usize,
    ns: &Vec<String>,
    types: &Vec<String>,
    imp: bool,
    file: &str,
    stops: &Vec<char>,
    out: &mut Vec<Symbol>,
)
    requires
        t.wf(),
        body < t.size(),
        stops@ == java_stops(),
    ensures
        defs_grow(
            *t,
            file@,
            Language::Java,
            java_stops(),
            old(out)@,
            final(out)@,
            java_member_defs(*t, body as int, t.children_of(body as int), namespaces_text(views(ns@)) + types_text(views(types@)), imp),
        ),
    decreases t.size() - body, 2nat,
{
    let ghost pre = namespaces_text(views(ns@)) + types_text(views(types@));
    let ch = t.children(body);
    let mut k: usize = 0;
    assert(ch@.take(0) =~= Seq::<usize>::empty());
    proof {
        lemma_defs_grow_none(*t, file@, Language::Java, java_stops(), out@);
    }
    while k < ch.len()
        invariant
            t.wf(),
            body < t.size(),
            k <= ch.len(),
            stops@ == java_stops(),
            ch@ == t.children_of(body as int),
            pre == namespaces_text(views(ns@)) + types_text(views(types@)),
            forall|j: int| 0 <= j < ch.len() ==> body < #[trigger] ch@[j] < t.size(),
            defs_grow(*t, file@, Language::Java, java_stops(), old(out)@, out@, java_member_defs(*t, body as int, ch@.take(k as int), pre, imp)),
        decreases ch.len() - k,
    {
        let m = ch[k];
        let ghost mid = out@;
        proof {
            assert(ch@.take(k + 1).drop_last() =~= ch@.take(k as int));
            assert(ch@.take(k + 1).last() == m);
        }
        push_member(t, body, m, ns, types, imp, file, stops, out);
        proof {
            lemma_defs_grow_trans(
                *t,
                file@,
                Language::Java,
                java_stops(),
                old(out)@,
                mid,
                out@,
                java_member_defs(*t, body as int, ch@.take(k as int), pre, imp),
                java_member_at(*t, body as int, m, pre, imp),
            );
        }
        k = k + 1;
    }
    assert(ch@.take(ch.len() as int) =~= ch@);
}

/// The definitions member `m`, a child of `body`, makes.
fn push_member(
    t: &SyntaxTree,
    body: usize,
    m: usize,
    ns: &Vec<String>,
    types: &Vec<String>,
    imp: bool,
    file: &str,
    stops: &Vec<char>,
    out: &mut Vec<Symbol>,
)
    requires
        t.wf(),
        body < m < t.size(),
        stops@ == java_stops(),
    ensures
        defs_grow(
            *t,
            file@,
            Language::Java,
            java_stops(),
            old(out)@,
            final(out)@,
            java_member_at(*t, body as int, m, namespaces_text(views(ns@)) + types_text(views(types@)), imp),
        ),
    decreases t.size() - body, 1nat,
{
    proof {
        lemma_defs_grow_none(*t, file@, Language::Java, java_stops(), out@);
    }
    if t.is_kind(m, "enum_body_declarations") {
        collect_members(t, m, ns, types, imp, file, stops, out);
    } else if t.is_kind(m, "method_declaration") || t.is_kind(m, "constructor_declaration") {
        if imp || is_public(t, m) {
            match field_text(t, m, "name") {
                Some(name) => {
                    let leaf = Descriptor::Method { name: name.clone(), disambiguator: String::new() };
                    assert(descriptor_text(leaf) =~= method_text(name@));
                    push_path_def(out, t, m, Language::Java, ns, types, leaf, name, SymbolKind::Method, file, stops);
                },
                None => {},
            }
        }
    } else if t.is_kind(m, "field_declaration") {
        if imp || is_public(t, m) {
            push_field_defs(t, m, ns, types, file, stops, out);
        }
    }
}

/// The definitions the declarators of field declaration `m` make.
fn push_field_defs(t: &SyntaxTree, m: usize, ns: &Vec<String>, types: &Vec<String>, file: &str, stops: &Vec<char>, out: &mut Vec<Symbol>)
    requires
        t.wf(),
        m < t.size(),
        stops@ == java_stops(),
    ensures
        defs_grow(
            *t,
            file@,
            Language::Java,
            java_stops(),
            old(out)@,
            final(out)@,
            java_field_defs(*t, m as int, t.children_of(m as int), namespaces_text(views(ns@)) + types_text(views(types@))),
        ),
{
    let ghost pre = namespaces_text(views(ns@)) + types_text(views(types@));
    let ds = t.children(m);
    let mut j: usize = 0;
    assert(ds@.take(0) =~= Seq::<usize>::empty());
    proof {
        lemma_defs_grow_none(*t, file@, Language::Java, java_stops(), out@);
    }
    while j < ds.len()
        invariant
            t.wf(),
            m < t.size(),
            j <= ds.len(),
            stops@ == java_stops(),
            ds@ == t.children_of(m as int),
            pre == namespaces_text(views(ns@)) + types_text(views(types@)),
            forall|x: int| 0 <= x < ds.len() ==> #[trigger] ds@[x] < t.size(),
            defs_grow(*t, file@, Language::Java, java_stops(), old(out)@, out@, java_field_defs(*t, m as int, ds@.take(j as int), pre)),
        decreases ds.len() - j,
    {
        let d = ds[j];
        let ghost mid = out@;
        proof {
            assert(ds@.take(j + 1).drop_last() =~= ds@.take(j as int));
            assert(ds@.take(j + 1).last() == d);
            lemma_defs_grow_none(*t, file@, Language::Java, java_stops(), mid);
        }
        if t.has_field(d, "declarator") {
            match field_text(t, d, "name") {
                Some(var_name) => {
                    let leaf = Descriptor::Term(var_name.clone());
                    assert(descriptor_text(leaf) =~= term_text(var_name@));
                    push_path_def(out, t, m, Language::Java, ns, types, leaf, var_name, SymbolKind::Static, file, stops);
                },
                None => {},
            }
        }
        proof {
            let prev = java_field_defs(*t, m as int, ds@.take(j as int), pre);
            let step = java_field_defs(*t, m as int, ds@.take(j + 1), pre).skip(prev.len() as int);
            assert(java_field_defs(*t, m as int, ds@.take(j + 1), pre) =~= prev + step);
            lemma_defs_grow_trans(*t, file@, Language::Java, java_stops(), old(out)@, mid, out@, prev, step);
        }
        j = j + 1;
    }
    assert(ds@.take(ds.len() as int) =~= ds@);
}

/// Whether node `n` declares a Java type.
fn is_type_decl(t: &SyntaxTree, n: usize) -> (r: bool)
    requires
        n < t.size(),
    ensures
        r == java_type_kind(t.kind_of(n as int)),
{
    t.is_kind(n, "class_declaration") || t.is_kind(n, "interface_declaration") || t.is_kind(n, "enum_declaration")
        || t.is_kind(n, "record_declaration") || t.is_kind(n, "annotation_type_declaration")
}

/// The definitions top-level node `c` makes: a public named type, then its
/// members.
fn push_type_defs(t: &SyntaxTree, c: usize, ns: &Vec<String>, file: &str, stops: &Vec<char>, out: &mut Vec<Symbol>)
    requires
        t.wf(),
        c < t.size(),
        stops@ == java_stops(),
    ensures
        defs_grow(*t, file@, Language::Java, java_stops(), old(out)@, final(out)@, java_type_defs_at(*t, c, namespaces_text(views(ns@)))),
{
    let ghost nst = namespaces_text(views(ns@));
    proof {
        lemma_defs_grow_none(*t, file@, Language::Java, java_stops(), out@);
    }
    if is_type_decl(t, c) && is_public(t, c) {
        match field_text(t, c, "name") {
            Some(owner) => {
                let ghost ow = owner@;
                let kind = if t.is_kind(c, "interface_declaration") || t.is_kind(c, "annotation_type_declaration") {
                    SymbolKind::Interface
                } else if t.is_kind(c, "enum_declaration") {
                    SymbolKind::Enum
                } else {
                    SymbolKind::Class
                };
                let leaf = Descriptor::Type(owner.clone());
                assert(descriptor_text(leaf) =~= type_text(owner@));
                push_ns_def(out, t, c, Language::Java, ns, leaf, owner.clone(), kind, file, stops);
                let ghost one = out@;
                let ghost d = seq![(c as int, ow, kind, nst + type_text(ow))];
                let imp = t.is_kind(c, "interface_declaration") || t.is_kind(c, "annotation_type_declaration");
                let types = vec![owner];
                assert(views(types@) =~= seq![ow]);
                match t.field_child(c, "body") {
                    Some(body) => {
                        collect_members(t, body, ns, &types, imp, file, stops, out);
                        proof {
                            lemma_defs_grow_trans(
                                *t,
                                file@,
                                Language::Java,
                                java_stops(),
                                old(out)@,
                                one,
                                out@,
                                d,
                                java_member_defs(*t, body as int, t.children_of(body as int), nst + types_text(seq![ow]), imp),
                            );
                        }
                    },
                    None => {
                        assert(d + Seq::<Def>::empty() =~= d);
                    },
                }
            },
            None => {},
        }
    }
}

/// The public top-level types of a Java file and their public members.
fn collect_symbols(t: &SyntaxTree, file: &str, ns: &Vec<String>) -> (r: Vec<Symbol>)
    requires
        t.wf(),
    ensures
        symbols_ok(r@, file@, t.bytes.len() as int),
        symbols_match(*t, file@, Language::Java, java_stops(), java_defs_in(*t, t.children_of(0), namespaces_text(views(ns@))), r@),
{
    let ghost nst = namespaces_text(views(ns@));
    let stops = vec!['{', ';'];
    assert(stops@ =~= java_stops());
    let mut out: Vec<Symbol> = Vec::new();
    let ch = t.children(0);
    let mut k: usize = 0;
    assert(ch@.take(0) =~= Seq::<usize>::empty());
    proof {
        lemma_defs_grow_none(*t, file@, Language::Java, java_stops(), out@);
    }
    while k < ch.len()
        invariant
            t.wf(),
            k <= ch.len(),
            stops@ == java_stops(),
            ch@ == t.children_of(0),
            nst == namespaces_text(views(ns@)),
            forall|j: int| 0 <= j < ch.len() ==> 0 < #[trigger] ch@[j] < t.size(),
            defs_grow(*t, file@, Language::Java, java_stops(), Seq::empty(), out@, java_defs_in(*t, ch@.take(k as int), nst)),
        decreases ch.len() - k,
    {
        let c = ch[k];
        let ghost mid = out@;
        proof {
            assert(ch@.take(k + 1).drop_last() =~= ch@.take(k as int));
            assert(ch@.take(k + 1).last() == c);
        }
        push_type_defs(t, c, ns, file, &stops, &mut out);
        proof {
            lemma_defs_grow_trans(
                *t,
                file@,
                Language::Java,
                java_stops(),
                Seq::empty(),
                mid,
                out@,
                java_defs_in(*t, ch@.take(k as int), nst),
                java_type_defs_at(*t, c, nst),
            );
        }
        k = k + 1;
    }
    assert(ch@.take(ch.len() as int) =~= ch@);
    assert(out@.skip(0) =~= out@);
    assert(symbols_ok(Seq::<Symbol>::empty(), file@, t.bytes.len() as int));
    out
}

/// The callee node `i` names: the `name` identifier of a
/// `method_invocation`, or the `type` of an `object_creation_expression`
/// that is a plain type identifier.
pub open spec fn java_callee(t: SyntaxTree, i: int) -> Option<usize> {
    if t.kind_of(i) == "method_invocation"@ {
        match t.field_child_of(i, "name"@) {
            Some(f) => if t.kind_of(f as int) == "identifier"@ {
                Some(f)
            } else {
                None
            },
            None => None,
        }
    } else if t.kind_of(i) == "object_creation_expression"@ {
        match t.field_child_of(i, "type"@) {
            Some(f) => if t.kind_of(f as int) == "type_identifier"@ {
                Some(f)
            } else {
                None
            },
            None => None,
        }
    } else {
        None
    }
}

/// The calls nodes `0..n` make, in pre-order.
pub open spec fn java_calls_upto(t: SyntaxTree, n: int) -> Seq<RefItem>
    decreases n,
{
    if n <= 0 {
        Seq::empty()
    } else {
        java_calls_upto(t, n - 1) + match java_callee(t, n - 1) {
            Some(c) => seq![(c as int, t.text_of(c as int), RefRole::Call)],
            None => Seq::empty(),
        }
    }
}

/// Call references: the `name` identifier of each `method_invocation` and
/// the `type` of each `object_creation_expression` that is a plain type
/// identifier.
fn collect_calls(t: &SyntaxTree, file: &str, out: &mut Vec<Reference>)
    requires
        t.wf(),
    ensures
        refs_grow(*t, file@, old(out)@, final(out)@, java_calls_upto(*t, t.size())),
{
    let mut i: usize = 0;
    proof {
        lemma_refs_grow_none(*t, file@, out@);
    }
    while i < t.nodes.len()
        invariant
            t.wf(),
            i <= t.nodes.len(),
            refs_grow(*t, file@, old(out)@, out@, java_calls_upto(*t, i as int)),
        decreases t.nodes.len() - i,
    {
        let ghost before = out@;
        proof {
            lemma_refs_grow_none(*t, file@, before);
        }
        let mut callee: Option<usize> = None;
        if t.is_kind(i, "method_invocation") {
            match t.field_child(i, "name") {
                Some(f) => {
                    if t.is_kind(f, "identifier") {
                        callee = Some(f);
                    }
                },
                None => {},
            }
        } else if t.is_kind(i, "object_creation_expression") {
            match t.field_child(i, "type") {
                Some(f) => {
                    if t.is_kind(f, "type_identifier") {
                        callee = Some(f);
                    }
                },
                None => {},
            }
        }
        assert(callee == java_callee(*t, i as int));
        match callee {
            Some(c) => push_ref_item(out, t.text(c), t, c, file, RefRole::Call),
            None => {},
        }
        proof {
            let step = match java_callee(*t, i as int) {
                Some(c) => seq![(c as int, t.text_of(c as int), RefRole::Call)],
                None => Seq::<RefItem>::empty(),
            };
            assert(java_calls_upto(*t, i + 1) == java_calls_upto(*t, i as int) + step);
            lemma_refs_grow_trans(*t, file@, old(out)@, before, out@, java_calls_upto(*t, i as int), step);
        }
        i = i + 1;
    }
}

/// The first named node among `cs`.
pub open spec fn java_first_named(t: SyntaxTree, cs: Seq<usize>) -> Option<usize>
    decreases cs.len(),
{
    if cs.len() == 0 {
        None
    } else if t.nodes@[cs[0] as int].named {
        Some(cs[0])
    } else {
        java_first_named(t, cs.skip(1))
    }
}

/// An `IsImplementation` reference to type node `ty`, by its simple name.
pub open spec fn java_type_ref(t: SyntaxTree, ty: usize) -> RefItem {
    (ty as int, simple_name_of(t.text_of(ty as int), "."@), RefRole::IsImplementation)
}

/// The references the named types among `cs` make.
pub open spec fn java_named_types(t: SyntaxTree, cs: Seq<usize>) -> Seq<RefItem>
    decreases cs.len(),
{
    if cs.len() == 0 {
        Seq::empty()
    } else {
        java_named_types(t, cs.drop_last()) + if t.nodes@[cs.last() as int].named {
            seq![java_type_ref(t, cs.last())]
        } else {
            Seq::empty()
        }
    }
}

/// The references the `type_list` child of `container` makes.
pub open spec fn java_type_list_refs(t: SyntaxTree, container: int) -> Seq<RefItem> {
    match t.kind_child_of(container, "type_list"@) {
        Some(tl) => java_named_types(t, t.children_of(tl as int)),
        None => Seq::empty(),
    }
}

/// The inheritance references node `i` makes: a class's superclass (the
/// first named node of its `superclass`) and implemented interfaces; an
/// interface's extended interfaces.
pub open spec fn java_inherit_at(t: SyntaxTree, i: int) -> Seq<RefItem> {
    if t.kind_of(i) == "class_declaration"@ {
        (match t.field_child_of(i, "superclass"@) {
            Some(sc) => match java_first_named(t, t.children_of(sc as int)) {
                Some(ty) => seq![java_type_ref(t, ty)],
                None => Seq::empty(),
            },
            None => Seq::empty(),
        }) + match t.field_child_of(i, "interfaces"@) {
            Some(f) => java_type_list_refs(t, f as int),
            None => Seq::empty(),
        }
    } else if t.kind_of(i) == "interface_declaration"@ {
        match t.kind_child_of(i, "extends_interfaces"@) {
            Some(e) => java_type_list_refs(t, e as int),
            None => Seq::empty(),
        }
    } else {
        Seq::empty()
    }
}

/// The inheritance references nodes `0..n` make, in pre-order.
pub open spec fn java_inherits_upto(t: SyntaxTree, n: int) -> Seq<RefItem>
    decreases n,
{
    if n <= 0 {
        Seq::empty()
    } else {
        java_inherits_upto(t, n - 1) + java_inherit_at(t, n - 1)
    }
}

/// The first named child of `n`.
fn first_named_child(t: &SyntaxTree, n: usize) -> (r: Option<usize>)
    requires
        t.wf(),
        n < t.size(),
    ensures
        r == java_first_named(*t, t.children_of(n as int)),
        r matches Some(c) ==> c < t.size(),
{
    let ch = t.children(n);
    let mut k: usize = 0;
    assert(ch@.skip(0) =~= ch@);
    while k < ch.len()
        invariant
            t.wf(),
            k <= ch.len(),
            ch@ == t.children_of(n as int),
            forall|j: int| 0 <= j < ch.len() ==> #[trigger] ch@[j] < t.size(),
            java_first_named(*t, ch@.skip(k as int)) == java_first_named(*t, t.children_of(n as int)),
        decreases ch.len() - k,
    {
        let c = ch[k];
        assert(ch@.skip(k as int)[0] == c);
        if t.nodes[c].named {
            return Some(c);
        }
        assert(ch@.skip(k as int).skip(1) =~= ch@.skip(k + 1));
        k = k + 1;
    }
    None
}

/// Push the `IsImplementation` reference to type node `ty`.
fn push_type_ref(t: &SyntaxTree, ty: usize, file: &str, out: &mut Vec<Reference>)
    requires
        t.wf(),
        ty < t.size(),
    ensures
        refs_grow(*t, file@, old(out)@, final(out)@, seq![java_type_ref(*t, ty)]),
{
    let text = t.text(ty);
    push_ref_item(out, simple_type_name(text.as_str(), "."), t, ty, file, RefRole::IsImplementation);
}

/// One `IsImplementation` reference per named type of the `type_list` child
/// of `container`, by the type's simple name.
fn push_type_list_refs(t: &SyntaxTree, container: usize, file: &str, out: &mut Vec<Reference>)
    requires
        t.wf(),
        container < t.size(),
    ensures
        refs_grow(*t, file@, old(out)@, final(out)@, java_type_list_refs(*t, container as int)),
{
    proof {
        lemma_refs_grow_none(*t, file@, out@);
    }
    match t.child_of_kind(container, "type_list") {
        Some(tl) => {
            let ts = t.children(tl);
            let mut k: usize = 0;
            assert(ts@.take(0) =~= Seq::<usize>::empty());
            while k < ts.len()
                invariant
                    t.wf(),
                    k <= ts.len(),
                    ts@ == t.children_of(tl as int),
                    forall|j: int| 0 <= j < ts.len() ==> #[trigger] ts@[j] < t.size(),
                    refs_grow(*t, file@, old(out)@, out@, java_named_types(*t, ts@.take(k as int))),
                decreases ts.len() - k,
            {
                let ty = ts[k];
                let ghost mid = out@;
                proof {
                    assert(ts@.take(k + 1).drop_last() =~= ts@.take(k as int));
                    assert(ts@.take(k + 1).last() == ty);
                    lemma_refs_grow_none(*t, file@, mid);
                }
                if t.nodes[ty].named {
                    push_type_ref(t, ty, file, out);
                }
                proof {
                    let prev = java_named_types(*t, ts@.take(k as int));
                    let step = java_named_types(*t, ts@.take(k + 1)).skip(prev.len() as int);
                    assert(java_named_types(*t, ts@.take(k + 1)) =~= prev + step);
                    lemma_refs_grow_trans(*t, file@, old(out)@, mid, out@, prev, step);
                }
                k = k + 1;
            }
            assert(ts@.take(ts.len() as int) =~= ts@);
        },
        None => {},
    }
}

/// Inheritance references of every class (its superclass and implemented
/// interfaces) and interface (its extended interfaces), nested ones too.
fn collect_inheritance(t: &SyntaxTree, file: &str, out: &mut Vec<Reference>)
    requires
        t.wf(),
    ensures
        refs_grow(*t, file@, old(out)@, final(out)@, java_inherits_upto(*t, t.size())),
{
    let mut i: usize = 0;
    proof {
        lemma_refs_grow_none(*t, file@, out@);
    }
    while i < t.nodes.len()
        invariant
            t.wf(),
            i <= t.nodes.len(),
            refs_grow(*t, file@, old(out)@, out@, java_inherits_upto(*t, i as int)),
        decreases t.nodes.len() - i,
    {
        let ghost before = out@;
        proof {
            lemma_refs_grow_none(*t, file@, before);
        }
        if t.is_kind(i, "class_declaration") {
            let ghost s0 = out@;
            match t.field_child(i, "superclass") {
                Some(sc) => match first_named_child(t, sc) {
                    Some(ty) => push_type_ref(t, ty, file, out),
                    None => {},
                },
                None => {},
            }
            let ghost s1 = out@;
            let ghost sup = match t.field_child_of(i as int, "superclass"@) {
                Some(sc) => match java_first_named(*t, t.children_of(sc as int)) {
                    Some(ty) => seq![java_type_ref(*t, ty)],
                    None => Seq::<RefItem>::empty(),
                },
                None => Seq::<RefItem>::empty(),
            };
            proof {
                if sup.len() == 0 {
                    lemma_refs_grow_none(*t, file@, s0);
                }
            }
            assert(refs_grow(*t, file@, s0, s1, sup));
            match t.field_child(i, "interfaces") {
                Some(ifs) => push_type_list_refs(t, ifs, file, out),
                None => {
                    proof {
                        lemma_refs_grow_none(*t, file@, s1);
                    }
                },
            }
            proof {
                let ifr = match t.field_child_of(i as int, "interfaces"@) {
                    Some(f) => java_type_list_refs(*t, f as int),
                    None => Seq::<RefItem>::empty(),
                };
                lemma_refs_grow_trans(*t, file@, s0, s1, out@, sup, ifr);
            }
        } else if t.is_kind(i, "interface_declaration") {
            match t.child_of_kind(i, "extends_interfaces") {
                Some(ext) => push_type_list_refs(t, ext, file, out),
                None => {},
            }
        }
        proof {
            assert(java_inherits_upto(*t, i + 1) == java_inherits_upto(*t, i as int) + java_inherit_at(*t, i as int));
            lemma_refs_grow_trans(*t, file@, old(out)@, before, out@, java_inherits_upto(*t, i as int), java_inherit_at(*t, i as int));
        }
        i = i + 1;
    }
}

/// The import node `i` makes, unless it is a wildcard: the `name` leaf of
/// its first scoped name, from that name's `scope`, or else its first bare
/// identifier, from nowhere.
pub open spec fn java_import_at(t: SyntaxTree, i: int) -> Seq<ImportItem> {
    if t.kind_of(i) == "import_declaration"@ && t.kind_child_of(i, "asterisk"@) is None {
        match t.kind_child_of(i, "scoped_identifier"@) {
            Some(s) => match t.field_child_of(s as int, "name"@) {
                Some(nm) => seq![
                    (
                        nm as int,
                        t.text_of(nm as int),
                        match t.field_child_of(s as int, "scope"@) {
                            Some(sc) => t.text_of(sc as int),
                            None => Seq::empty(),
                        },
                    ),
                ],
                None => Seq::empty(),
            },
            None => match t.kind_child_of(i, "identifier"@) {
                Some(b) => seq![(b as int, t.text_of(b as int), Seq::empty())],
                None => Seq::empty(),
            },
        }
    } else {
        Seq::empty()
    }
}

/// The imports nodes `0..n` make, in pre-order.
pub open spec fn java_imports_upto(t: SyntaxTree, n: int) -> Seq<ImportItem>
    decreases n,
{
    if n <= 0 {
        Seq::empty()
    } else {
        java_imports_upto(t, n - 1) + java_import_at(t, n - 1)
    }
}

/// One `Import` reference per non-wildcard `import_declaration`: the leaf of
/// its first scoped name (imported from the scope before it), or a bare
/// identifier; each carries the importing module's id.
fn collect_imports(t: &SyntaxTree, file: &str, module_id: &str, out: &mut Vec<Reference>)
    requires
        t.wf(),
    ensures
        imports_grow(*t, file@, module_id@, old(out)@, final(out)@, java_imports_upto(*t, t.size())),
{
    let mut i: usize = 0;
    proof {
        lemma_imports_grow_none(*t, file@, module_id@, out@);
    }
    while i < t.nodes.len()
        invariant
            t.wf(),
            i <= t.nodes.len(),
            imports_grow(*t, file@, module_id@, old(out)@, out@, java_imports_upto(*t, i as int)),
        decreases t.nodes.len() - i,
    {
        let ghost before = out@;
        proof {
            lemma_imports_grow_none(*t, file@, module_id@, before);
        }
        if t.is_kind(i, "import_declaration") && t.child_of_kind(i, "asterisk").is_none() {
            match t.child_of_kind(i, "scoped_identifier") {
                Some(s) => match t.field_child(s, "name") {
                    Some(nm) => {
                        let from = match t.field_child(s, "scope") {
                            Some(sc) => t.text(sc),
                            None => String::new(),
                        };
                        push_import_item(out, t.text(nm), t, nm, file, module_id, from);
                    },
                    None => {},
                },
                None => match t.child_of_kind(i, "identifier") {
                    Some(b) => push_import_item(out, t.text(b), t, b, file, module_id, String::new()),
                    None => {},
                },
            }
        }
        proof {
            assert(java_imports_upto(*t, i + 1) == java_imports_upto(*t, i as int) + java_import_at(*t, i as int));
            lemma_imports_grow_trans(
                *t,
                file@,
                module_id@,
                old(out)@,
                before,
                out@,
                java_imports_upto(*t, i as int),
                java_import_at(*t, i as int),
            );
        }
        i = i + 1;
    }
}

/// The JNI short name of a native method: `Java_<pkg>_<Class>_<method>`, the
/// package segments joined by `_` and left out for the default package.
pub open spec fn jni_name(ns: Seq<Seq<char>>, class: Seq<char>, method: Seq<char>) -> Seq<char> {
    seq!['J', 'a', 'v', 'a', '_'] + ns.fold_left(Seq::<char>::empty(), |acc: Seq<char>, s: Seq<char>| acc + s + seq!['_'])
        + class + seq!['_'] + method
}

/// The JNI short name of native method `method` of class `class` in
/// package `ns`.
pub fn jni_mangle(ns: &Vec<String>, class: &String, method: &String) -> (r: String)
    ensures
        r@ == jni_name(views(ns@), class@, method@),
{
    let mut out: Vec<char> = Vec::new();
    push_str_chars(&mut out, "Java_");
    proof {
        reveal_strlit("Java_");
    }
    let ghost start = out@;
    let mut i: usize = 0;
    while i < ns.len()
        invariant
            i <= ns.len(),
            start == seq!['J', 'a', 'v', 'a', '_'],
            out@ == start + views(ns@).take(i as int).fold_left(Seq::<char>::empty(), |acc: Seq<char>, s: Seq<char>| acc + s + seq!['_']),
        decreases ns.len() - i,
    {
        let ghost before = out@;
        push_str_chars(&mut out, ns[i].as_str());
        out.push('_');
        proof {
            let v = views(ns@);
            let f = |acc: Seq<char>, s: Seq<char>| acc + s + seq!['_'];
            assert(v.take(i + 1).drop_last() =~= v.take(i as int));
            assert(out@ =~= start + v.take(i + 1).fold_left(Seq::<char>::empty(), f));
        }
        i = i + 1;
    }
    assert(views(ns@).take(ns.len() as int) =~= views(ns@));
    push_str_chars(&mut out, class.as_str());
    out.push('_');
    push_str_chars(&mut out, method.as_str());
    assert(out@ =~= jni_name(views(ns@), class@, method@));
    string_from_chars(out.as_slice())
}

/// The JNI calls the `native` methods among `cs` (members of class `class`
/// in package `ns`) make, at their names.
pub open spec fn java_natives_in(t: SyntaxTree, cs: Seq<usize>, ns: Seq<Seq<char>>, class: Seq<char>) -> Seq<RefItem>
    decreases cs.len(),
{
    if cs.len() == 0 {
        Seq::empty()
    } else {
        let m = cs.last();
        java_natives_in(t, cs.drop_last(), ns, class) + if t.kind_of(m as int) == "method_declaration"@ && java_has_modifier(
            t,
            m as int,
            "native"@,
        ) {
            match t.field_child_of(m as int, "name"@) {
                Some(nm) => seq![(nm as int, jni_name(ns, class, t.text_of(nm as int)), RefRole::Call)],
                None => Seq::empty(),
            }
        } else {
            Seq::empty()
        }
    }
}

/// Whether a node of kind `k` declares a type whose native methods are
/// bridged: a class, interface, enum or record.
pub open spec fn java_jni_kind(k: Seq<char>) -> bool {
    k == "class_declaration"@ || k == "interface_declaration"@ || k == "enum_declaration"@ || k == "record_declaration"@
}

/// The JNI calls top-level node `ty` makes.
pub open spec fn java_jni_at(t: SyntaxTree, ty: usize, ns: Seq<Seq<char>>) -> Seq<RefItem> {
    if java_jni_kind(t.kind_of(ty as int)) {
        match (t.field_child_of(ty as int, "name"@), t.field_child_of(ty as int, "body"@)) {
            (Some(nm), Some(b)) => java_natives_in(t, t.children_of(b as int), ns, t.text_of(nm as int)),
            _ => Seq::empty(),
        }
    } else {
        Seq::empty()
    }
}

/// The JNI calls the top-level nodes `cs` make.
pub open spec fn java_jni_in(t: SyntaxTree, cs: Seq<usize>, ns: Seq<Seq<char>>) -> Seq<RefItem>
    decreases cs.len(),
{
    if cs.len() == 0 {
        Seq::empty()
    } else {
        java_jni_in(t, cs.drop_last(), ns) + java_jni_at(t, cs.last(), ns)
    }
}

/// The JNI calls of the `native` methods among the children of `body`.
fn push_natives(t: &SyntaxTree, body: usize, ns: &Vec<String>, class: &String, file: &str, out: &mut Vec<Reference>)
    requires
        t.wf(),
        body < t.size(),
    ensures
        refs_grow(*t, file@, old(out)@, final(out)@, java_natives_in(*t, t.children_of(body as int), views(ns@), class@)),
{
    let ms = t.children(body);
    let mut j: usize = 0;
    assert(ms@.take(0) =~= Seq::<usize>::empty());
    proof {
        lemma_refs_grow_none(*t, file@, out@);
    }
    while j < ms.len()
        invariant
            t.wf(),
            j <= ms.len(),
            ms@ == t.children_of(body as int),
            forall|x: int| 0 <= x < ms.len() ==> #[trigger] ms@[x] < t.size(),
            refs_grow(*t, file@, old(out)@, out@, java_natives_in(*t, ms@.take(j as int), views(ns@), class@)),
        decreases ms.len() - j,
    {
        let m = ms[j];
        let ghost mid = out@;
        proof {
            assert(ms@.take(j + 1).drop_last() =~= ms@.take(j as int));
            assert(ms@.take(j + 1).last() == m);
            lemma_refs_grow_none(*t, file@, mid);
        }
        if t.is_kind(m, "method_declaration") && has_modifier(t, m, "native") {
            match t.field_child(m, "name") {
                Some(nm) => {
                    let method = t.text(nm);
                    let mangled = jni_mangle(ns, class, &method);
                    push_ref_item(out, mangled, t, nm, file, RefRole::Call);
                },
                None => {},
            }
        }
        proof {
            let prev = java_natives_in(*t, ms@.take(j as int), views(ns@), class@);
            let step = java_natives_in(*t, ms@.take(j + 1), views(ns@), class@).skip(prev.len() as int);
            assert(java_natives_in(*t, ms@.take(j + 1), views(ns@), class@) =~= prev + step);
            lemma_refs_grow_trans(*t, file@, old(out)@, mid, out@, prev, step);
        }
        j = j + 1;
    }
    assert(ms@.take(ms.len() as int) =~= ms@);
}

/// A `Call` reference to the JNI name of every `native` method of a
/// top-level class, interface, enum or record, at the method's name.
fn collect_jni_natives(t: &SyntaxTree, file: &str, ns: &Vec<String>, out: &mut Vec<Reference>)
    requires
        t.wf(),
    ensures
        refs_grow(*t, file@, old(out)@, final(out)@, java_jni_in(*t, t.children_of(0), views(ns@))),
{
    let tys = t.children(0);
    let mut k: usize = 0;
    assert(tys@.take(0) =~= Seq::<usize>::empty());
    proof {
        lemma_refs_grow_none(*t, file@, out@);
    }
    while k < tys.len()
        invariant
            t.wf(),
            k <= tys.len(),
            tys@ == t.children_of(0),
            forall|j: int| 0 <= j < tys.len() ==> #[trigger] tys@[j] < t.size(),
            refs_grow(*t, file@, old(out)@, out@, java_jni_in(*t, tys@.take(k as int), views(ns@))),
        decreases tys.len() - k,
    {
        let ty = tys[k];
        let ghost mid = out@;
        proof {
            assert(tys@.take(k + 1).drop_last() =~= tys@.take(k as int));
            assert(tys@.take(k + 1).last() == ty);
            lemma_refs_grow_none(*t, file@, mid);
        }
        if t.is_kind(ty, "class_declaration") || t.is_kind(ty, "interface_declaration") || t.is_kind(ty, "enum_declaration")
            || t.is_kind(ty, "record_declaration") {
            match (field_text(t, ty, "name"), t.field_child(ty, "body")) {
                (Some(class), Some(body)) => push_natives(t, body, ns, &class, file, out),
                _ => {},
            }
        }
        proof {
            lemma_refs_grow_trans(
                *t,
                file@,
                old(out)@,
                mid,
                out@,
                java_jni_in(*t, tys@.take(k as int), views(ns@)),
                java_jni_at(*t, ty, views(ns@)),
            );
        }
        k = k + 1;
    }
    assert(tys@.take(tys.len() as int) =~= tys@);
}

/// Whether a node of kind `k` opens a `Function` scope: a method,
/// constructor or lambda.
pub open spec fn java_function_kind(k: Seq<char>) -> bool {
    k == "method_declaration"@ || k == "constructor_declaration"@ || k == "compact_constructor_declaration"@
        || k == "lambda_expression"@
}

/// The scopes `ss` grows to as the tree below node `n` is walked, the
/// enclosing scope being `parent`: a `Type` scope per type declaration, a
/// `Function` scope per method, constructor and lambda (their body's
/// statements go straight into it; a lambda's expression body is walked
/// whole), a `Block` scope per other block.
pub open spec fn java_scope_dfs(t: SyntaxTree, n: int, parent: int, ss: Seq<Scope>) -> Seq<Scope>
    decreases t.size() - n, 1nat, 0nat,
{
    let k = t.kind_of(n);
    if java_type_kind(k) || java_function_kind(k) {
        let ss1 = ss.push(
            scope_of(
                t,
                n,
                parent,
                if java_type_kind(k) {
                    ScopeKind::Type
                } else {
                    ScopeKind::Function
                },
            ),
        );
        match t.field_child_of(n, "body"@) {
            Some(b) => if k == "lambda_expression"@ && t.kind_of(b as int) != "block"@ {
                if n < b < t.size() {
                    java_scope_dfs(t, b as int, ss.len() as int, ss1)
                } else {
                    ss1
                }
            } else {
                java_children_dfs(t, n, t.children_of(b as int), ss.len() as int, ss1)
            },
            None => ss1,
        }
    } else if k == "block"@ {
        java_children_dfs(t, n, t.children_of(n), ss.len() as int, ss.push(scope_of(t, n, parent, ScopeKind::Block)))
    } else {
        java_children_dfs(t, n, t.children_of(n), parent, ss)
    }
}

/// The scopes `ss` grows to as the trees below `cs` (nodes after `n`) are
/// walked in turn.
pub open spec fn java_children_dfs(t: SyntaxTree, n: int, cs: Seq<usize>, parent: int, ss: Seq<Scope>) -> Seq<Scope>
    decreases t.size() - n, 0nat, cs.len(),
{
    if cs.len() == 0 {
        ss
    } else {
        java_children_dfs(
            t,
            n,
            cs.skip(1),
            parent,
            if n < cs[0] < t.size() {
                java_scope_dfs(t, cs[0] as int, parent, ss)
            } else {
                ss
            },
        )
    }
}

/// The scope tree of a Java file of `len` bytes.
pub open spec fn java_scope_tree(t: SyntaxTree, len: usize) -> Seq<Scope> {
    java_children_dfs(t, 0, t.children_of(0), 0, seq![root_scope(len)])
}

/// Open scopes below node `n` whose enclosing scope is `parent`: a `Type`
/// scope per type declaration, a `Function` scope per method, constructor
/// and lambda (their body's statements go straight into it), a `Block` scope
/// per other block.
fn scope_dfs(t: &SyntaxTree, n: usize, parent: ScopeId, scopes: &mut Vec<Scope>)
    requires
        t.wf(),
        n < t.size(),
        parent < old(scopes).len(),
    ensures
        scopes_extend(old(scopes)@, final(scopes)@),
        final(scopes)@ == java_scope_dfs(*t, n as int, parent as int, old(scopes)@),
    decreases t.size() - n, 1nat,
{
    proof {
        lemma_scopes_extend_refl(scopes@);
    }
    let ghost s0 = scopes@;
    let is_type = is_type_decl(t, n);
    if is_type || t.is_kind(n, "method_declaration") || t.is_kind(n, "constructor_declaration")
        || t.is_kind(n, "compact_constructor_declaration") || t.is_kind(n, "lambda_expression") {
        let kind = if is_type {
            ScopeKind::Type
        } else {
            ScopeKind::Function
        };
        let id = push_scope(scopes, Some(parent), node_span(t, n), kind);
        let ghost s1 = scopes@;
        assert(s1 =~= s0.push(scope_of(*t, n as int, parent as int, kind)));
        assert(scopes_extend(s0, s1)) by {
            assert(s1.take(s0.len() as int) =~= s0);
        }
        match t.field_child(n, "body") {
            Some(body) => {
                if t.is_kind(n, "lambda_expression") && !t.is_kind(body, "block") {
                    scope_dfs(t, body, id, scopes);
                } else {
                    let ch = t.children(body);
                    children_dfs(t, &ch, n, id, scopes);
                }
                proof { lemma_scopes_extend_trans(s0, s1, scopes@); }
            },
            None => {},
        }
    } else if t.is_kind(n, "block") {
        let id = push_scope(scopes, Some(parent), node_span(t, n), ScopeKind::Block);
        let ghost s1 = scopes@;
        assert(s1 =~= s0.push(scope_of(*t, n as int, parent as int, ScopeKind::Block)));
        assert(scopes_extend(s0, s1)) by {
            assert(s1.take(s0.len() as int) =~= s0);
        }
        let ch = t.children(n);
        children_dfs(t, &ch, n, id, scopes);
        proof { lemma_scopes_extend_trans(s0, s1, scopes@); }
    } else {
        let ch = t.children(n);
        children_dfs(t, &ch, n, parent, scopes);
    }
}

/// `scope_dfs` over each of `ch`, all of them below node `n`.
fn children_dfs(t: &SyntaxTree, ch: &Vec<usize>, n: usize, parent: ScopeId, scopes: &mut Vec<Scope>)
    requires
        t.wf(),
        n < t.size(),
        forall|j: int| 0 <= j < ch.len() ==> n < #[trigger] ch@[j] < t.size(),
        parent < old(scopes).len(),
    ensures
        scopes_extend(old(scopes)@, final(scopes)@),
        final(scopes)@ == java_children_dfs(*t, n as int, ch@, parent as int, old(scopes)@),
    decreases t.size() - n, 0nat,
{
    proof {
        lemma_scopes_extend_refl(scopes@);
    }
    let mut k: usize = 0;
    assert(ch@.skip(0) =~= ch@);
    while k < ch.len()
        invariant
            t.wf(),
            n < t.size(),
            k <= ch.len(),
            forall|j: int| 0 <= j < ch.len() ==> n < #[trigger] ch@[j] < t.size(),
            parent < scopes.len(),
            scopes_extend(old(scopes)@, scopes@),
            java_children_dfs(*t, n as int, ch@, parent as int, old(scopes)@) == java_children_dfs(
                *t,
                n as int,
                ch@.skip(k as int),
                parent as int,
                scopes@,
            ),
        decreases ch.len() - k,
    {
        let ghost before = scopes@;
        assert(ch@.skip(k as int)[0] == ch@[k as int]);
        assert(ch@.skip(k as int).skip(1) =~= ch@.skip(k + 1));
        scope_dfs(t, ch[k], parent, scopes);
        proof { lemma_scopes_extend_trans(old(scopes)@, before, scopes@); }
        k = k + 1;
    }
}

/// The scope tree of a Java file.
fn collect_scopes(t: &SyntaxTree, source_len: usize) -> (r: Vec<Scope>)
    requires
        t.wf(),
    ensures
        scope_tree_wf(r@, source_len as int),
        r@ == java_scope_tree(*t, source_len),
{
    let mut scopes = root_scopes(source_len);
    let ghost s0 = scopes@;
    let ch = t.children(0);
    children_dfs(t, &ch, 0, 0, &mut scopes);
    proof { lemma_scopes_extend_wf(s0, scopes@, source_len as int); }
    scopes
}

/// The binding of kind `kind` the `name` field of node `n` makes; a local
/// whose innermost scope is the file root makes none.
pub open spec fn java_name_binding(t: SyntaxTree, scopes: Seq<Scope>, n: int, kind: BindingKind) -> Seq<LocalItem> {
    match t.field_child_of(n, "name"@) {
        Some(nm) => {
            let intro = t.nodes@[nm as int].start as int;
            if kind != BindingKind::Local || !is_innermost(scopes, intro, 0) {
                seq![(intro, t.text_of(nm as int), kind)]
            } else {
                Seq::empty()
            }
        },
        None => Seq::empty(),
    }
}

/// The parameter bindings the declarators among `gs` (children of a
/// `spread_parameter`) make.
pub open spec fn java_spread_in(t: SyntaxTree, scopes: Seq<Scope>, gs: Seq<usize>) -> Seq<LocalItem>
    decreases gs.len(),
{
    if gs.len() == 0 {
        Seq::empty()
    } else {
        let g = gs.last();
        java_spread_in(t, scopes, gs.drop_last()) + if t.nodes@[g as int].named && t.kind_of(g as int) == "variable_declarator"@ {
            java_name_binding(t, scopes, g as int, BindingKind::Param)
        } else {
            Seq::empty()
        }
    }
}

/// The parameter bindings the children `cs` of a `formal_parameters` node
/// make: each `formal_parameter` by its name, each `spread_parameter` by its
/// declarator.
pub open spec fn java_params_in(t: SyntaxTree, scopes: Seq<Scope>, cs: Seq<usize>) -> Seq<LocalItem>
    decreases cs.len(),
{
    if cs.len() == 0 {
        Seq::empty()
    } else {
        let c = cs.last();
        java_params_in(t, scopes, cs.drop_last()) + if !t.nodes@[c as int].named {
            Seq::empty()
        } else if t.kind_of(c as int) == "formal_parameter"@ {
            java_name_binding(t, scopes, c as int, BindingKind::Param)
        } else if t.kind_of(c as int) == "spread_parameter"@ {
            java_spread_in(t, scopes, t.children_of(c as int))
        } else {
            Seq::empty()
        }
    }
}

/// The parameter bindings the named identifiers among `cs` (children of
/// `inferred_parameters`) make.
pub open spec fn java_inferred_in(t: SyntaxTree, cs: Seq<usize>) -> Seq<LocalItem>
    decreases cs.len(),
{
    if cs.len() == 0 {
        Seq::empty()
    } else {
        let c = cs.last();
        java_inferred_in(t, cs.drop_last()) + if t.nodes@[c as int].named && t.kind_of(c as int) == "identifier"@ {
            seq![(t.nodes@[c as int].start as int, t.text_of(c as int), BindingKind::Param)]
        } else {
            Seq::empty()
        }
    }
}

/// The local bindings the declarators among `ds` (children of a
/// `local_variable_declaration`) make.
pub open spec fn java_decls_in(t: SyntaxTree, scopes: Seq<Scope>, ds: Seq<usize>) -> Seq<LocalItem>
    decreases ds.len(),
{
    if ds.len() == 0 {
        Seq::empty()
    } else {
        let d = ds.last();
        java_decls_in(t, scopes, ds.drop_last()) + if t.field_of(d as int) == Some("declarator"@) {
            java_name_binding(t, scopes, d as int, BindingKind::Local)
        } else {
            Seq::empty()
        }
    }
}

/// The bindings node `i` makes: parameters of methods, constructors and
/// lambdas (formal, inferred or a bare identifier) and catch parameters;
/// locals of variable declarations and enhanced `for` loops.
pub open spec fn java_bindings_at(t: SyntaxTree, scopes: Seq<Scope>, i: int) -> Seq<LocalItem> {
    let k = t.kind_of(i);
    if k == "method_declaration"@ || k == "constructor_declaration"@ || k == "compact_constructor_declaration"@ {
        match t.field_child_of(i, "parameters"@) {
            Some(p) => java_params_in(t, scopes, t.children_of(p as int)),
            None => Seq::empty(),
        }
    } else if k == "lambda_expression"@ {
        match t.field_child_of(i, "parameters"@) {
            Some(p) => if t.kind_of(p as int) == "formal_parameters"@ {
                java_params_in(t, scopes, t.children_of(p as int))
            } else if t.kind_of(p as int) == "inferred_parameters"@ {
                java_inferred_in(t, t.children_of(p as int))
            } else if t.kind_of(p as int) == "identifier"@ {
                seq![(t.nodes@[p as int].start as int, t.text_of(p as int), BindingKind::Param)]
            } else {
                Seq::empty()
            },
            None => Seq::empty(),
        }
    } else if k == "local_variable_declaration"@ {
        java_decls_in(t, scopes, t.children_of(i))
    } else if k == "enhanced_for_statement"@ {
        java_name_binding(t, scopes, i, BindingKind::Local)
    } else if k == "catch_formal_parameter"@ {
        java_name_binding(t, scopes, i, BindingKind::Param)
    } else {
        Seq::empty()
    }
}

/// The bindings nodes `0..n` make, in pre-order.
pub open spec fn java_bindings_upto(t: SyntaxTree, scopes: Seq<Scope>, n: int) -> Seq<LocalItem>
    decreases n,
{
    if n <= 0 {
        Seq::empty()
    } else {
        java_bindings_upto(t, scopes, n - 1) + java_bindings_at(t, scopes, n - 1)
    }
}

/// Whether byte `b` lies, innermost, in the file's root scope.
fn in_root_scope(b: usize, scopes: &Vec<Scope>) -> (r: bool)
    ensures
        r == is_innermost(scopes@, b as int, 0),
{
    let s = innermost_scope(b, scopes);
    proof {
        if is_innermost(scopes@, b as int, 0) {
            lemma_innermost_unique(scopes@, b as int, s, Some(0usize));
        }
    }
    match s {
        Some(id) => id == 0,
        None => false,
    }
}

/// A binding of kind `kind` for the `name` field of `n`, when it has one and
/// (for locals) it is not introduced at the file root.
fn bind_name_field(t: &SyntaxTree, n: usize, kind: BindingKind, scopes: &Vec<Scope>, out: &mut Vec<Binding>)
    requires
        t.wf(),
        n < t.size(),
        scopes.len() >= 1,
    ensures
        locals_grow(scopes@, old(out)@, final(out)@, java_name_binding(*t, scopes@, n as int, kind)),
{
    proof {
        lemma_locals_grow_none(scopes@, out@);
    }
    match t.field_child(n, "name") {
        Some(nm) => {
            let intro = t.nodes[nm].start;
            let is_local = match kind {
                BindingKind::Local => true,
                _ => false,
            };
            if !is_local || !in_root_scope(intro, scopes) {
                push_local_item(out, t.text(nm), intro, kind, scopes);
            }
        },
        None => {},
    }
}

/// `Param` bindings for the declarators among the children of spread
/// parameter `c`.
fn bind_spread(t: &SyntaxTree, c: usize, scopes: &Vec<Scope>, out: &mut Vec<Binding>)
    requires
        t.wf(),
        c < t.size(),
        scopes.len() >= 1,
    ensures
        locals_grow(scopes@, old(out)@, final(out)@, java_spread_in(*t, scopes@, t.children_of(c as int))),
{
    let gs = t.children(c);
    let mut m: usize = 0;
    assert(gs@.take(0) =~= Seq::<usize>::empty());
    proof {
        lemma_locals_grow_none(scopes@, out@);
    }
    while m < gs.len()
        invariant
            t.wf(),
            scopes.len() >= 1,
            m <= gs.len(),
            gs@ == t.children_of(c as int),
            forall|j: int| 0 <= j < gs.len() ==> #[trigger] gs@[j] < t.size(),
            locals_grow(scopes@, old(out)@, out@, java_spread_in(*t, scopes@, gs@.take(m as int))),
        decreases gs.len() - m,
    {
        let g = gs[m];
        let ghost mid = out@;
        proof {
            assert(gs@.take(m + 1).drop_last() =~= gs@.take(m as int));
            assert(gs@.take(m + 1).last() == g);
            lemma_locals_grow_none(scopes@, mid);
        }
        if t.nodes[g].named && t.is_kind(g, "variable_declarator") {
            bind_name_field(t, g, BindingKind::Param, scopes, out);
        }
        proof {
            let prev = java_spread_in(*t, scopes@, gs@.take(m as int));
            let step = java_spread_in(*t, scopes@, gs@.take(m + 1)).skip(prev.len() as int);
            assert(java_spread_in(*t, scopes@, gs@.take(m + 1)) =~= prev + step);
            lemma_locals_grow_trans(scopes@, old(out)@, mid, out@, prev, step);
        }
        m = m + 1;
    }
    assert(gs@.take(gs.len() as int) =~= gs@);
}

/// `Param` bindings for the parameters of a `formal_parameters` node:
/// `formal_parameter` names and the declarator of a `spread_parameter`.
fn collect_params(t: &SyntaxTree, params: usize, scopes: &Vec<Scope>, out: &mut Vec<Binding>)
    requires
        t.wf(),
        params < t.size(),
        scopes.len() >= 1,
    ensures
        locals_grow(scopes@, old(out)@, final(out)@, java_params_in(*t, scopes@, t.children_of(params as int))),
{
    let ch = t.children(params);
    let mut k: usize = 0;
    assert(ch@.take(0) =~= Seq::<usize>::empty());
    proof {
        lemma_locals_grow_none(scopes@, out@);
    }
    while k < ch.len()
        invariant
            t.wf(),
            scopes.len() >= 1,
            k <= ch.len(),
            ch@ == t.children_of(params as int),
            forall|j: int| 0 <= j < ch.len() ==> #[trigger] ch@[j] < t.size(),
            locals_grow(scopes@, old(out)@, out@, java_params_in(*t, scopes@, ch@.take(k as int))),
        decreases ch.len() - k,
    {
        let c = ch[k];
        let ghost mid = out@;
        proof {
            assert(ch@.take(k + 1).drop_last() =~= ch@.take(k as int));
            assert(ch@.take(k + 1).last() == c);
            lemma_locals_grow_none(scopes@, mid);
        }
        if t.nodes[c].named {
            if t.is_kind(c, "formal_parameter") {
                bind_name_field(t, c, BindingKind::Param, scopes, out);
            } else if t.is_kind(c, "spread_parameter") {
                bind_spread(t, c, scopes, out);
            }
        }
        proof {
            let prev = java_params_in(*t, scopes@, ch@.take(k as int));
            let step = java_params_in(*t, scopes@, ch@.take(k + 1)).skip(prev.len() as int);
            assert(java_params_in(*t, scopes@, ch@.take(k + 1)) =~= prev + step);
            lemma_locals_grow_trans(scopes@, old(out)@, mid, out@, prev, step);
        }
        k = k + 1;
    }
    assert(ch@.take(ch.len() as int) =~= ch@);
}

/// `Param` bindings for the named identifiers among the children of
/// `inferred_parameters` node `p`.
fn bind_inferred(t: &SyntaxTree, p: usize, scopes: &Vec<Scope>, out: &mut Vec<Binding>)
    requires
        t.wf(),
        p < t.size(),
        scopes.len() >= 1,
    ensures
        locals_grow(scopes@, old(out)@, final(out)@, java_inferred_in(*t, t.children_of(p as int))),
{
    let ch = t.children(p);
    let mut k: usize = 0;
    assert(ch@.take(0) =~= Seq::<usize>::empty());
    proof {
        lemma_locals_grow_none(scopes@, out@);
    }
    while k < ch.len()
        invariant
            t.wf(),
            scopes.len() >= 1,
            k <= ch.len(),
            ch@ == t.children_of(p as int),
            forall|j: int| 0 <= j < ch.len() ==> #[trigger] ch@[j] < t.size(),
            locals_grow(scopes@, old(out)@, out@, java_inferred_in(*t, ch@.take(k as int))),
        decreases ch.len() - k,
    {
        let c = ch[k];
        let ghost mid = out@;
        proof {
            assert(ch@.take(k + 1).drop_last() =~= ch@.take(k as int));
            assert(ch@.take(k + 1).last() == c);
            lemma_locals_grow_none(scopes@, mid);
        }
        if t.nodes[c].named && t.is_kind(c, "identifier") {
            push_local_item(out, t.text(c), t.nodes[c].start, BindingKind::Param, scopes);
        }
        proof {
            let prev = java_inferred_in(*t, ch@.take(k as int));
            let step = java_inferred_in(*t, ch@.take(k + 1)).skip(prev.len() as int);
            assert(java_inferred_in(*t, ch@.take(k + 1)) =~= prev + step);
            lemma_locals_grow_trans(scopes@, old(out)@, mid, out@, prev, step);
        }
        k = k + 1;
    }
    assert(ch@.take(ch.len() as int) =~= ch@);
}

/// `Local` bindings for the declarators among the children of local
/// variable declaration `i`.
fn bind_declarators(t: &SyntaxTree, i: usize, scopes: &Vec<Scope>, out: &mut Vec<Binding>)
    requires
        t.wf(),
        i < t.size(),
        scopes.len() >= 1,
    ensures
        locals_grow(scopes@, old(out)@, final(out)@, java_decls_in(*t, scopes@, t.children_of(i as int))),
{
    let ds = t.children(i);
    let mut k: usize = 0;
    assert(ds@.take(0) =~= Seq::<usize>::empty());
    proof {
        lemma_locals_grow_none(scopes@, out@);
    }
    while k < ds.len()
        invariant
            t.wf(),
            scopes.len() >= 1,
            k <= ds.len(),
            ds@ == t.children_of(i as int),
            forall|j: int| 0 <= j < ds.len() ==> #[trigger] ds@[j] < t.size(),
            locals_grow(scopes@, old(out)@, out@, java_decls_in(*t, scopes@, ds@.take(k as int))),
        decreases ds.len() - k,
    {
        let d = ds[k];
        let ghost mid = out@;
        proof {
            assert(ds@.take(k + 1).drop_last() =~= ds@.take(k as int));
            assert(ds@.take(k + 1).last() == d);
            lemma_locals_grow_none(scopes@, mid);
        }
        if t.has_field(d, "declarator") {
            bind_name_field(t, d, BindingKind::Local, scopes, out);
        }
        proof {
            let prev = java_decls_in(*t, scopes@, ds@.take(k as int));
            let step = java_decls_in(*t, scopes@, ds@.take(k + 1)).skip(prev.len() as int);
            assert(java_decls_in(*t, scopes@, ds@.take(k + 1)) =~= prev + step);
            lemma_locals_grow_trans(scopes@, old(out)@, mid, out@, prev, step);
        }
        k = k + 1;
    }
    assert(ds@.take(ds.len() as int) =~= ds@);
}

/// The bindings node `i` makes.
fn bind_node(t: &SyntaxTree, i: usize, scopes: &Vec<Scope>, out: &mut Vec<Binding>)
    requires
        t.wf(),
        i < t.size(),
        scopes.len() >= 1,
    ensures
        locals_grow(scopes@, old(out)@, final(out)@, java_bindings_at(*t, scopes@, i as int)),
{
    proof {
        lemma_locals_grow_none(scopes@, out@);
    }
    if t.is_kind(i, "method_declaration") || t.is_kind(i, "constructor_declaration")
        || t.is_kind(i, "compact_constructor_declaration") {
        match t.field_child(i, "parameters") {
            Some(p) => collect_params(t, p, scopes, out),
            None => {},
        }
    } else if t.is_kind(i, "lambda_expression") {
        match t.field_child(i, "parameters") {
            Some(p) => {
                if t.is_kind(p, "formal_parameters") {
                    collect_params(t, p, scopes, out);
                } else if t.is_kind(p, "inferred_parameters") {
                    bind_inferred(t, p, scopes, out);
                } else if t.is_kind(p, "identifier") {
                    push_local_item(out, t.text(p), t.nodes[p].start, BindingKind::Param, scopes);
                }
            },
            None => {},
        }
    } else if t.is_kind(i, "local_variable_declaration") {
        bind_declarators(t, i, scopes, out);
    } else if t.is_kind(i, "enhanced_for_statement") {
        bind_name_field(t, i, BindingKind::Local, scopes, out);
    } else if t.is_kind(i, "catch_formal_parameter") {
        bind_name_field(t, i, BindingKind::Param, scopes, out);
    }
}

/// Parameter and local bindings: method, constructor and lambda parameters,
/// catch parameters (`Param`); local variable declarators and enhanced-for
/// variables not at the file root (`Local`).
fn collect_bindings(t: &SyntaxTree, scopes: &Vec<Scope>) -> (r: Vec<Binding>)
    requires
        t.wf(),
        scopes.len() >= 1,
    ensures
        forall|i: int| 0 <= i < r@.len() ==> (#[trigger] r@[i]).scope < scopes.len(),
        locals_match(scopes@, java_bindings_upto(*t, scopes@, t.size()), r@),
{
    let mut out: Vec<Binding> = Vec::new();
    let mut i: usize = 0;
    proof {
        lemma_locals_grow_none(scopes@, out@);
    }
    while i < t.nodes.len()
        invariant
            t.wf(),
            scopes.len() >= 1,
            i <= t.nodes.len(),
            locals_grow(scopes@, Seq::empty(), out@, java_bindings_upto(*t, scopes@, i as int)),
        decreases t.nodes.len() - i,
    {
        let ghost before = out@;
        bind_node(t, i, scopes, &mut out);
        proof {
            assert(java_bindings_upto(*t, scopes@, i + 1) == java_bindings_upto(*t, scopes@, i as int) + java_bindings_at(
                *t,
                scopes@,
                i as int,
            ));
            lemma_locals_grow_trans(
                scopes@,
                Seq::empty(),
                before,
                out@,
                java_bindings_upto(*t, scopes@, i as int),
                java_bindings_at(*t, scopes@, i as int),
            );
        }
        i = i + 1;
    }
    assert(out@.skip(0) =~= out@);
    out
}

/// The plain references of a Java file before its imports: calls, then
/// inheritance.
pub open spec fn java_refs(t: SyntaxTree) -> Seq<RefItem> {
    java_calls_upto(t, t.size()) + java_inherits_upto(t, t.size())
}

/// What `java_facts` states of the facts `r` it builds from tree `t` of
/// `source`, the text of `file`.
pub open spec fn java_facts_of(t: SyntaxTree, source: Seq<char>, file: Seq<char>, r: FileFacts) -> bool {
    &&& scope_tree_wf(r.scopes@, encode_utf8(source).len() as int)
    &&& r.symbols@.len() >= 1
    &&& r.symbols@.last().kind == SymbolKind::Module
    &&& r.ffi_exports@.len() == 0
    &&& symbols_match(
        t,
        file,
        Language::Java,
        java_stops(),
        java_defs_in(t, t.children_of(0), namespaces_text(java_namespaces_spec(t, file))),
        r.symbols@.drop_last(),
    )
    &&& module_symbol_spec(r.symbols@.last(), Language::Java, java_namespaces_spec(t, file), file, encode_utf8(source).len() as int)
    &&& ({
        let plain = java_refs(t);
        let imports = java_imports_upto(t, t.size());
        let jni = java_jni_in(t, t.children_of(0), java_namespaces_spec(t, file));
        let p = plain.len() as int;
        let q = p + imports.len();
        &&& r.references@.len() == q + jni.len()
        &&& refs_items(t, file, plain, r.references@.take(p))
        &&& (forall|j: int|
            0 <= j < imports.len() ==> import_ref_at(
                t,
                file,
                scip_text(r.symbols@.last().id),
                imports[j],
                #[trigger] r.references@.skip(p)[j],
            ))
        &&& refs_items(t, file, jni, r.references@.skip(q))
    })
    &&& r.scopes@ == java_scope_tree(t, (encode_utf8(source).len() as usize))
    &&& ({
        let locals = java_bindings_upto(t, r.scopes@, t.size());
        let defs = r.symbols@.drop_last();
        &&& r.bindings@.len() == locals.len() + defs.len() + imports_of(r.references@).len()
        &&& locals_match(r.scopes@, locals, r.bindings@.take(locals.len() as int))
        &&& def_bindings_of(defs, r.bindings@.subrange(locals.len() as int, (locals.len() + defs.len()) as int))
        &&& import_bindings_of(r.references@, r.scopes@, r.bindings@.skip((locals.len() + defs.len()) as int))
    })
}

/// The facts of a Java file from its syntax tree: the public types and
/// members, in order, then the file's module symbol; calls and inheritance,
/// then imports (from the module), then JNI bridges of native methods; the
/// scope tree; local, definition and import bindings.
pub fn java_facts(t: &SyntaxTree, source: &str, file: &str) -> (r: FileFacts)
    requires
        t.wf(),
        t.bytes@ == encode_utf8(source@),
    ensures
        facts_wf(r, file@, source@, Language::Java),
        java_facts_of(*t, source@, file@, r),
{
    let len = source.len();
    let ns = java_namespaces(t, file);
    let defs = collect_symbols(t, file, &ns);
    let def_bindings = definition_bindings(&defs);
    let mut symbols = defs;
    let ghost defs_seq = symbols@;
    let module = module_symbol(Language::Java, &ns, file, len);
    let module_id = module.id.to_scip_string();
    symbols.push(module);
    assert(symbols@.drop_last() =~= defs_seq);
    let mut refs: Vec<Reference> = Vec::new();
    let ghost r0 = refs@;
    collect_calls(t, file, &mut refs);
    let ghost r1 = refs@;
    collect_inheritance(t, file, &mut refs);
    let ghost r2 = refs@;
    collect_imports(t, file, module_id.as_str(), &mut refs);
    let ghost r3 = refs@;
    collect_jni_natives(t, file, &ns, &mut refs);
    proof {
        lemma_refs_grow_trans(*t, file@, r0, r1, r2, java_calls_upto(*t, t.size()), java_inherits_upto(*t, t.size()));
        assert(r2.skip(0) =~= r2);
        assert(refs_ok(Seq::<Reference>::empty(), file@, t.bytes.len() as int));
        assert(refs@.take(r3.len() as int) == r3);
        assert(r3.take(r2.len() as int) == r2);
    }
    let scopes = collect_scopes(t, len);
    let ghost before = refs@;
    let refs = attach_reference_scopes(refs, &scopes);
    proof {
        let plain = java_refs(*t);
        let p = plain.len() as int;
        let imports = java_imports_upto(*t, t.size());
        let q = p + imports.len();
        let jni = java_jni_in(*t, t.children_of(0), views(ns@));
        assert(before.take(p) =~= r2) by {
            assert(before.take(r3.len() as int).take(p) =~= before.take(p));
        }
        assert(super::scope::scopes_attached(before.take(p), refs@.take(p), scopes@));
        lemma_refs_items_attached(*t, file@, plain, before.take(p), refs@.take(p), scopes@);
        assert forall|j: int| 0 <= j < imports.len() implies import_ref_at(
            *t,
            file@,
            scip_text(symbols@.last().id),
            imports[j],
            #[trigger] refs@.skip(p)[j],
        ) by {
            assert(import_ref_at(*t, file@, module_id@, imports[j], r3.skip(p)[j]));
            assert(r3.skip(p)[j] == r3[p + j]);
            assert(before[p + j] == r3[p + j]);
            assert(refs@.skip(p)[j] == refs@[p + j]);
        }
        assert(before.skip(q) =~= before.skip(r3.len() as int));
        assert(super::scope::scopes_attached(before.skip(q), refs@.skip(q), scopes@));
        lemma_refs_items_attached(*t, file@, jni, before.skip(q), refs@.skip(q), scopes@);
    }
    let mut bindings = collect_bindings(t, &scopes);
    let ghost locals = bindings@;
    let ib = import_bindings(&refs, &scopes);
    proof {
        assert forall|i: int| 0 <= i < ib@.len() implies (#[trigger] ib@[i]).scope < scopes.len() by {
            lemma_binding_scope_bound(scopes@, imports_of(refs@)[i].occ.byte as int, ib@[i].scope);
        }
    }
    let ghost dbs = def_bindings@;
    let ghost ibs = ib@;
    append_bindings(&mut bindings, def_bindings, scopes.len());
    append_bindings(&mut bindings, ib, scopes.len());
    proof {
        let l = locals.len() as int;
        let d = dbs.len() as int;
        assert(bindings@ == locals + dbs + ibs);
        assert(bindings@.take(l) =~= locals);
        assert(bindings@.subrange(l, l + d) =~= dbs);
        assert(bindings@.skip(l + d) =~= ibs);
    }
    FileFacts {
        file: file.to_owned(),
        lang: Language::Java.as_str().to_owned(),
        symbols,
        references: refs,
        scopes,
        bindings,
        ffi_exports: Vec::new(),
    }
}

impl Extractor for JavaExtractor {
    open spec fn spec_lang(&self) -> Language {
        Language::Java
    }

    fn lang(&self) -> (r: Language) {
        Language::Java
    }

    fn extract(&self, source: &str, file: &str) -> (r: Result<FileFacts>)
        ensures
            r is Ok <==> super::parses(Grammar::Java, source@),
            r matches Ok(f) ==> super::extracted(Language::Java, source@, file@, f),
    {
        let t = super::parse_tree(Grammar::Java, source, file)?;
        let res: Result<FileFacts> = Ok(java_facts(&t, source, file));
        assert(super::parsed_by(t, Grammar::Java, source@) && java_facts_of(t, source@, file@, res->Ok_0));
        res
    }
}

/// A callee of a node before `n` is among the calls of nodes `0..n`.
proof fn lemma_java_calls_upto_has(t: SyntaxTree, i: int, n: int, m: usize)
    requires
        0 <= i < n,
        java_callee(t, i) == Some(m),
    ensures
        exists|k: int|
            0 <= k < java_calls_upto(t, n).len() && java_calls_upto(t, n)[k] == (m as int, t.text_of(m as int), RefRole::Call),
    decreases n,
{
    let prev = java_calls_upto(t, n - 1);
    if i < n - 1 {
        lemma_java_calls_upto_has(t, i, n - 1, m);
        let k = choose|k: int| 0 <= k < prev.len() && prev[k] == (m as int, t.text_of(m as int), RefRole::Call);
        assert(java_calls_upto(t, n)[k] == prev[k]);
    } else {
        assert(java_calls_upto(t, n)[prev.len() as int] == (m as int, t.text_of(m as int), RefRole::Call));
    }
}

/// Law: every method invocation named by an identifier, and every object creation of a type identifier is a `Call` reference of the file, named by that node's
/// text and occurring where it starts.
pub proof fn law_java_calls_are_referenced(
    t: SyntaxTree,
    source: Seq<char>,
    file: Seq<char>,
    r: FileFacts,
    i: int,
    f: usize,
    m: usize,
)
    requires
        java_facts_of(t, source, file, r),
        0 <= i < t.size(),
        (t.kind_of(i) == "method_invocation"@ && (t.field_child_of(i, "name"@) == Some(m) && t.kind_of(m as int) == "identifier"@)) || (t.kind_of(i) == "object_creation_expression"@ && (t.field_child_of(i, "type"@) == Some(m) && t.kind_of(m as int) == "type_identifier"@)),
    ensures
        exists|j: int|
            0 <= j < r.references.len() && (#[trigger] r.references@[j]).role == RefRole::Call
                && r.references@[j].name@ == t.text_of(m as int) && r.references@[j].occ.byte
                == t.nodes@[m as int].start,
{
    reveal_strlit("method_invocation");
    assert("method_invocation"@ =~= seq!['m', 'e', 't', 'h', 'o', 'd', '_', 'i', 'n', 'v', 'o', 'c', 'a', 't', 'i', 'o', 'n']);
    reveal_strlit("object_creation_expression");
    assert("object_creation_expression"@ =~= seq!['o', 'b', 'j', 'e', 'c', 't', '_', 'c', 'r', 'e', 'a', 't', 'i', 'o', 'n', '_', 'e', 'x', 'p', 'r', 'e', 's', 's', 'i', 'o', 'n']);
    reveal_strlit("identifier");
    assert("identifier"@ =~= seq!['i', 'd', 'e', 'n', 't', 'i', 'f', 'i', 'e', 'r']);
    reveal_strlit("type_identifier");
    assert("type_identifier"@ =~= seq!['t', 'y', 'p', 'e', '_', 'i', 'd', 'e', 'n', 't', 'i', 'f', 'i', 'e', 'r']);
    assert(java_callee(t, i) == Some(m));
    lemma_java_calls_upto_has(t, i, t.size(), m);
    let calls = java_calls_upto(t, t.size());
    let k = choose|k: int| 0 <= k < calls.len() && calls[k] == (m as int, t.text_of(m as int), RefRole::Call);
    let refs = java_refs(t);
    assert(refs[k] == calls[k]);
    let got = r.references@.take(refs.len() as int);
    assert(super::support::ref_at(t, refs[k].0, file, refs[k].1, refs[k].2, got[k]));
    assert(got[k] == r.references@[k]);
}

} // verus!
