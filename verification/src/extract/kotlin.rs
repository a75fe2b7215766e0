//! Kotlin: every declaration not marked `private` — classes (interfaces and
//! enum classes by kind), objects, companion objects, functions, properties
//! (`val` constant, `var` static), type aliases, enum entries and secondary
//! constructors — qualified by the `package` header or, without one, by the
//! file's path; call, supertype and import references. No scopes or
//! bindings are recorded.

use vstd::prelude::*;
use vstd::utf8::*;
use crate::error::Result;
use crate::graph::{FileFacts, RefRole, Reference, Symbol, SymbolKind};
use crate::lang::Language;
use crate::symbol::{Descriptor, descriptor_text};
use crate::text::{
    chars_of, chars_eq, contains_char, segments, simple_type_name, simple_name_of, split_nonempty, strings_of,
    strip_prefix_chars, strip_prefix_or_self, strip_suffix_chars, strip_suffix_or_self, views, ws_tokens, has_word,
};
use super::Extractor;
use super::tree::{SyntaxTree, decode_range};
use super::ts::Grammar;
use super::scope::attach_reference_scopes;
use super::support::{
    facts_wf, field_text, module_symbol, refs_ok, symbols_ok, symbols_match, module_symbol_spec, namespaces_text,
    method_text, type_text, term_text, types_text, Def, defs_grow, lemma_defs_grow_none, lemma_defs_grow_trans, strings_push,
    push_path_def, RefItem, refs_items, refs_grow, lemma_refs_grow_none, lemma_refs_grow_trans, push_ref_item,
    lemma_refs_items_attached,
};

verus! {

/// Extracts Kotlin symbols and references.
pub struct KotlinExtractor;

/// The path-derived namespaces of a Kotlin file: without `.kts` (or else
/// `.kt`) and a leading `src/`, split on `/`.
pub open spec fn kotlin_path_namespaces(file: Seq<char>) -> Seq<Seq<char>> {
    let a = strip_suffix_or_self(file, ".kts"@);
    let b = if a != file {
        a
    } else {
        strip_suffix_or_self(file, ".kt"@)
    };
    segments(strip_prefix_or_self(b, "src/"@), '/')
}

/// Law: without a package header, the namespaces of `src/<stem><ext>`, and
/// of `<stem><ext>` when `stem` does not start with `src/`, for `ext` `.kt`
/// or `.kts`, are the `/`-separated segments of `stem`.
pub proof fn law_kotlin_path_namespaces(stem: Seq<char>, ext: Seq<char>)
    requires
        ext == ".kt"@ || ext == ".kts"@,
    ensures
        kotlin_path_namespaces("src/"@ + stem + ext) == segments(stem, '/'),
        !crate::text::has_prefix(stem, "src/"@) ==> kotlin_path_namespaces(stem + ext) == segments(stem, '/'),
{
    reveal_strlit(".kt");
    reveal_strlit(".kts");
    crate::text::lemma_strip_own_suffix("src/"@ + stem, ext);
    crate::text::lemma_strip_own_suffix(stem, ext);
    crate::text::lemma_strip_own_prefix("src/"@, stem);
    if ext == ".kt"@ {
        crate::text::lemma_not_suffix_at(".kt"@, ".kts"@, 1);
        crate::text::lemma_strip_other_suffix("src/"@ + stem, ext, ".kts"@);
        crate::text::lemma_strip_other_suffix(stem, ext, ".kts"@);
    }
}

/// The first of `cs` that is a (qualified) identifier.
pub open spec fn kt_first_ident_in(t: SyntaxTree, cs: Seq<usize>) -> Option<usize>
    decreases cs.len(),
{
    if cs.len() == 0 {
        None
    } else if t.kind_of(cs[0] as int) == "qualified_identifier"@ || t.kind_of(cs[0] as int) == "identifier"@ {
        Some(cs[0])
    } else {
        kt_first_ident_in(t, cs.skip(1))
    }
}

/// The namespaces the first of the top-level nodes `cs` that is a package
/// header naming a package gives: the dot-separated segments of the name;
/// without one, the path-derived namespaces.
pub open spec fn kt_namespaces_in(t: SyntaxTree, cs: Seq<usize>, file: Seq<char>) -> Seq<Seq<char>>
    decreases cs.len(),
{
    if cs.len() == 0 {
        kotlin_path_namespaces(file)
    } else if t.kind_of(cs[0] as int) == "package_header"@ && kt_first_ident_in(t, t.children_of(cs[0] as int)) is Some {
        segments(t.text_of(kt_first_ident_in(t, t.children_of(cs[0] as int))->0 as int), '.')
    } else {
        kt_namespaces_in(t, cs.skip(1), file)
    }
}

/// The namespaces of a Kotlin file.
pub open spec fn kt_namespaces(t: SyntaxTree, file: Seq<char>) -> Seq<Seq<char>> {
    kt_namespaces_in(t, t.children_of(0), file)
}

/// Whether a node of kind `k` is a (qualified) identifier.
pub open spec fn kt_ident_kind(k: Seq<char>) -> bool {
    k == "qualified_identifier"@ || k == "identifier"@
}

/// The first (qualified) identifier of `cs` is the one at `m` when none
/// before it is one.
proof fn lemma_kt_first_ident_at(t: SyntaxTree, cs: Seq<usize>, m: int)
    requires
        0 <= m < cs.len(),
        kt_ident_kind(t.kind_of(cs[m] as int)),
        forall|l: int| 0 <= l < m ==> !kt_ident_kind(t.kind_of(#[trigger] cs[l] as int)),
    ensures
        kt_first_ident_in(t, cs) == Some(cs[m]),
    decreases m,
{
    if m > 0 {
        assert(!kt_ident_kind(t.kind_of(cs[0] as int)));
        assert forall|l: int| 0 <= l < m - 1 implies !kt_ident_kind(t.kind_of(#[trigger] cs.skip(1)[l] as int)) by {
            assert(cs.skip(1)[l] == cs[l + 1]);
        }
        lemma_kt_first_ident_at(t, cs.skip(1), m - 1);
    }
}

/// The namespaces of `cs` are those its first package header, at `k`,
/// names, when it names one.
proof fn lemma_kt_namespaces_at(t: SyntaxTree, cs: Seq<usize>, file: Seq<char>, k: int, p: usize)
    requires
        0 <= k < cs.len(),
        t.kind_of(cs[k] as int) == "package_header"@,
        kt_first_ident_in(t, t.children_of(cs[k] as int)) == Some(p),
        forall|l: int| 0 <= l < k ==> t.kind_of(#[trigger] cs[l] as int) != "package_header"@,
    ensures
        kt_namespaces_in(t, cs, file) == segments(t.text_of(p as int), '.'),
    decreases k,
{
    if k > 0 {
        assert(t.kind_of(cs[0] as int) != "package_header"@);
        assert forall|l: int| 0 <= l < k - 1 implies t.kind_of(#[trigger] cs.skip(1)[l] as int) != "package_header"@ by {
            assert(cs.skip(1)[l] == cs[l + 1]);
        }
        lemma_kt_namespaces_at(t, cs.skip(1), file, k - 1, p);
    }
}

/// Without a package header among `cs` the namespaces come from the path.
proof fn lemma_kt_namespaces_none(t: SyntaxTree, cs: Seq<usize>, file: Seq<char>)
    requires
        forall|l: int| 0 <= l < cs.len() ==> t.kind_of(#[trigger] cs[l] as int) != "package_header"@,
    ensures
        kt_namespaces_in(t, cs, file) == kotlin_path_namespaces(file),
    decreases cs.len(),
{
    if cs.len() > 0 {
        assert forall|l: int| 0 <= l < cs.len() - 1 implies t.kind_of(#[trigger] cs.skip(1)[l] as int)
            != "package_header"@ by {
            assert(cs.skip(1)[l] == cs[l + 1]);
        }
        lemma_kt_namespaces_none(t, cs.skip(1), file);
    }
}

/// Law: a Kotlin file's namespaces are the dot-separated segments of the
/// name in its first top-level package header (the first child of that
/// header that is a qualified or a bare identifier); a file with no
/// top-level package header takes the namespaces of its path.
pub proof fn law_kotlin_package_names_the_namespaces(t: SyntaxTree, file: Seq<char>, k: int, m: int)
    ensures
        ({
            let cs = t.children_of(0);
            (0 <= k < cs.len() && t.kind_of(cs[k] as int) == "package_header"@ && (forall|l: int|
                0 <= l < k ==> t.kind_of(#[trigger] cs[l] as int) != "package_header"@) && 0 <= m < t.children_of(
                cs[k] as int,
            ).len() && kt_ident_kind(t.kind_of(t.children_of(cs[k] as int)[m] as int)) && (forall|l: int|
                0 <= l < m ==> !kt_ident_kind(t.kind_of(#[trigger] t.children_of(cs[k] as int)[l] as int))))
                ==> kt_namespaces(t, file) == segments(t.text_of(t.children_of(cs[k] as int)[m] as int), '.')
        }),
        (forall|l: int|
            0 <= l < t.children_of(0).len() ==> t.kind_of(#[trigger] t.children_of(0)[l] as int) != "package_header"@)
            ==> kt_namespaces(t, file) == kotlin_path_namespaces(file),
{
    let cs = t.children_of(0);
    if 0 <= k < cs.len() && t.kind_of(cs[k] as int) == "package_header"@ && (forall|l: int|
        0 <= l < k ==> t.kind_of(#[trigger] cs[l] as int) != "package_header"@) && 0 <= m < t.children_of(
        cs[k] as int,
    ).len() && kt_ident_kind(t.kind_of(t.children_of(cs[k] as int)[m] as int)) && (forall|l: int|
        0 <= l < m ==> !kt_ident_kind(t.kind_of(#[trigger] t.children_of(cs[k] as int)[l] as int))) {
        let pcs = t.children_of(cs[k] as int);
        lemma_kt_first_ident_at(t, pcs, m);
        lemma_kt_namespaces_at(t, cs, file, k, pcs[m]);
    }
    if forall|l: int| 0 <= l < cs.len() ==> t.kind_of(#[trigger] cs[l] as int) != "package_header"@ {
        lemma_kt_namespaces_none(t, cs, file);
    }
}

/// The first child of `n` that is a (qualified) identifier.
fn first_ident(t: &SyntaxTree, n: usize) -> (r: Option<usize>)
    requires
        t.wf(),
        n < t.size(),
    ensures
        r == kt_first_ident_in(*t, t.children_of(n as int)),
        r matches Some(c) ==> n < c < t.size(),
{
    let ch = t.children(n);
    let mut k: usize = 0;
    assert(ch@.skip(0) =~= ch@);
    while k < ch.len()
        invariant
            t.wf(),
            k <= ch.len(),
            ch@ == t.children_of(n as int),
            forall|j: int| 0 <= j < ch.len() ==> n < #[trigger] ch@[j] < t.size(),
            kt_first_ident_in(*t, ch@.skip(k as int)) == kt_first_ident_in(*t, t.children_of(n as int)),
        decreases ch.len() - k,
    {
        let c = ch[k];
        assert(ch@.skip(k as int)[0] == c);
        if t.is_kind(c, "qualified_identifier") || t.is_kind(c, "identifier") {
            return Some(c);
        }
        assert(ch@.skip(k as int).skip(1) =~= ch@.skip(k + 1));
        k = k + 1;
    }
    None
}

/// The namespaces of a Kotlin file: the segments of its package name, or the
/// path-derived ones without a package header.
pub fn kotlin_namespaces(t: &SyntaxTree, file: &str) -> (r: Vec<String>)
    requires
        t.wf(),
    ensures
        views(r@) == kt_namespaces(*t, file@),
        (forall|k: int| 0 <= k < t.children_of(0).len() ==> t.kind_of(#[trigger] t.children_of(0)[k] as int) != "package_header"@)
            ==> views(r@) == kotlin_path_namespaces(file@),
{
    let ch = t.children(0);
    let mut k: usize = 0;
    assert(ch@.skip(0) =~= ch@);
    while k < ch.len()
        invariant
            t.wf(),
            k <= ch.len(),
            ch@ == t.children_of(0),
            forall|j: int| 0 <= j < ch.len() ==> 0 < #[trigger] ch@[j] < t.size(),
            kt_namespaces_in(*t, ch@.skip(k as int), file@) == kt_namespaces(*t, file@),
            forall|j: int| 0 <= j < k ==> t.kind_of(#[trigger] ch@[j] as int) != "package_header"@ || kt_first_ident_in(
                *t,
                t.children_of(ch@[j] as int),
            ) is None,
        decreases ch.len() - k,
    {
        let c = ch[k];
        assert(ch@.skip(k as int)[0] == c);
        if t.is_kind(c, "package_header") {
            match first_ident(t, c) {
                Some(p) => {
                    let text = t.text(p);
                    let cs = chars_of(text.as_str());
                    let parts = split_nonempty(&cs, '.');
                    return strings_of(&parts);
                },
                None => {},
            }
        }
        assert(ch@.skip(k as int).skip(1) =~= ch@.skip(k + 1));
        k = k + 1;
    }
    let cs = chars_of(file);
    let a = strip_suffix_chars(&cs, ".kts");
    let b = if a.len() != cs.len() {
        a
    } else {
        strip_suffix_chars(&cs, ".kt")
    };
    proof {
        reveal_strlit(".kts");
        assert(".kts"@.len() == 4);
    }
    let p = strip_prefix_chars(&b, "src/");
    let parts = split_nonempty(&p, '/');
    strings_of(&parts)
}

/// A declaration is emitted unless the first visibility modifier of its
/// first `modifiers` child reads `private`.
pub open spec fn kt_visible(t: SyntaxTree, n: int) -> bool {
    match t.kind_child_of(n, "modifiers"@) {
        Some(m) => match t.kind_child_of(m as int, "visibility_modifier"@) {
            Some(v) => t.text_of(v as int) != "private"@,
            None => true,
        },
        None => true,
    }
}

/// Whether declaration `n` is emitted.
fn is_visible(t: &SyntaxTree, n: usize) -> (r: bool)
    requires
        t.wf(),
        n < t.size(),
    ensures
        r == kt_visible(*t, n as int),
{
    match t.child_of_kind(n, "modifiers") {
        Some(mods) => match t.child_of_kind(mods, "visibility_modifier") {
            Some(v) => {
                let text = t.text(v);
                let cs = chars_of(text.as_str());
                !chars_eq(&cs, "private")
            },
            None => true,
        },
        None => true,
    }
}

/// Where a Kotlin signature stops.
pub open spec fn kotlin_stops() -> Seq<char> {
    seq!['{', '\n']
}

/// The kind a class declaration defines: an enum class, an interface (the
/// word `interface` before its name), or a class.
pub open spec fn kt_class_kind(t: SyntaxTree, n: int, name_node: int) -> SymbolKind {
    if t.kind_child_of(n, "enum_class_body"@) is Some {
        SymbolKind::Enum
    } else {
        let s = t.nodes@[n].start;
        let e = t.nodes@[name_node].start;
        let head = if s <= e {
            decode_range(t.bytes@, s as int, e as int)
        } else {
            Seq::empty()
        };
        if ws_tokens(head).contains("interface"@) {
            SymbolKind::Interface
        } else {
            SymbolKind::Class
        }
    }
}

/// The kind class declaration `n` defines.
fn class_kind(t: &SyntaxTree, n: usize, name_node: usize) -> (r: SymbolKind)
    requires
        t.wf(),
        n < t.size(),
        name_node < t.size(),
    ensures
        r == kt_class_kind(*t, n as int, name_node as int),
{
    if t.child_of_kind(n, "enum_class_body").is_some() {
        return SymbolKind::Enum;
    }
    let s = t.nodes[n].start;
    let e = t.nodes[name_node].start;
    let head = if s <= e {
        t.text_range(s, e)
    } else {
        String::new()
    };
    if has_word(&head, "interface") {
        SymbolKind::Interface
    } else {
        SymbolKind::Class
    }
}

/// The name of a property among its children `cs`: the first identifier of
/// the first `variable_declaration`; none for a destructuring declaration
/// that comes first.
pub open spec fn kt_prop_name_in(t: SyntaxTree, cs: Seq<usize>) -> Option<Seq<char>>
    decreases cs.len(),
{
    if cs.len() == 0 {
        None
    } else if t.kind_of(cs[0] as int) == "variable_declaration"@ {
        match t.kind_child_of(cs[0] as int, "identifier"@) {
            Some(id) => Some(t.text_of(id as int)),
            None => None,
        }
    } else if t.kind_of(cs[0] as int) == "multi_variable_declaration"@ {
        None
    } else {
        kt_prop_name_in(t, cs.skip(1))
    }
}

/// The name of property `n`.
fn property_name(t: &SyntaxTree, n: usize) -> (r: Option<String>)
    requires
        t.wf(),
        n < t.size(),
    ensures
        r is Some == kt_prop_name_in(*t, t.children_of(n as int)) is Some,
        r matches Some(s) ==> s@ == kt_prop_name_in(*t, t.children_of(n as int))->0,
{
    let ch = t.children(n);
    let mut k: usize = 0;
    assert(ch@.skip(0) =~= ch@);
    while k < ch.len()
        invariant
            t.wf(),
            k <= ch.len(),
            ch@ == t.children_of(n as int),
            forall|j: int| 0 <= j < ch.len() ==> #[trigger] ch@[j] < t.size(),
            kt_prop_name_in(*t, ch@.skip(k as int)) == kt_prop_name_in(*t, t.children_of(n as int)),
        decreases ch.len() - k,
    {
        let c = ch[k];
        assert(ch@.skip(k as int)[0] == c);
        if t.is_kind(c, "variable_declaration") {
            return match t.child_of_kind(c, "identifier") {
                Some(id) => Some(t.text(id)),
                None => None,
            };
        }
        if t.is_kind(c, "multi_variable_declaration") {
            return None;
        }
        assert(ch@.skip(k as int).skip(1) =~= ch@.skip(k + 1));
        k = k + 1;
    }
    None
}

/// The type declaration `c` defines, if any: a class (by its kind), an
/// object, or a companion object (`Companion` when unnamed).
pub open spec fn kt_type_of(t: SyntaxTree, c: int) -> Option<(Seq<char>, SymbolKind)> {
    let k = t.kind_of(c);
    if k == "class_declaration"@ {
        match t.field_child_of(c, "name"@) {
            Some(nm) => Some((t.text_of(nm as int), kt_class_kind(t, c, nm as int))),
            None => None,
        }
    } else if k == "object_declaration"@ {
        match t.field_child_of(c, "name"@) {
            Some(nm) => Some((t.text_of(nm as int), SymbolKind::Class)),
            None => None,
        }
    } else if k == "companion_object"@ {
        match t.field_child_of(c, "name"@) {
            Some(nm) => Some((t.text_of(nm as int), SymbolKind::Class)),
            None => Some(("Companion"@, SymbolKind::Class)),
        }
    } else {
        None
    }
}

/// The definitions among `cs`, children of `node`, inside the types
/// `types`; `inside` makes functions methods.
pub open spec fn kt_defs_in(t: SyntaxTree, node: int, cs: Seq<usize>, nst: Seq<char>, types: Seq<Seq<char>>, inside: bool) -> Seq<Def>
    decreases t.size() - node, cs.len(),
{
    if cs.len() == 0 {
        Seq::empty()
    } else {
        kt_defs_in(t, node, cs.drop_last(), nst, types, inside) + kt_defs_at(t, node, cs.last(), nst, types, inside)
    }
}

/// The definitions visible declaration `c` (a child of `node`) makes: a type
/// (then the definitions of its class bodies, inside it), a function, a
/// named property, a type alias, an enum entry or a secondary constructor.
pub open spec fn kt_defs_at(t: SyntaxTree, node: int, c: usize, nst: Seq<char>, types: Seq<Seq<char>>, inside: bool) -> Seq<Def>
    decreases t.size() - node, 0nat,
{
    if !kt_visible(t, c as int) {
        Seq::empty()
    } else {
        match kt_type_of(t, c as int) {
            Some(p) => seq![(c as int, p.0, p.1, nst + types_text(types) + type_text(p.0))] + if node < c < t.size() {
                kt_bodies(t, c as int, t.children_of(c as int), nst, types.push(p.0))
            } else {
                Seq::empty()
            },
            None => {
                let k = t.kind_of(c as int);
                let here = nst + types_text(types);
                if k == "function_declaration"@ {
                    match t.field_child_of(c as int, "name"@) {
                        Some(nm) => seq![
                            (
                                c as int,
                                t.text_of(nm as int),
                                if inside {
                                    SymbolKind::Method
                                } else {
                                    SymbolKind::Function
                                },
                                here + method_text(t.text_of(nm as int)),
                            ),
                        ],
                        None => Seq::empty(),
                    }
                } else if k == "property_declaration"@ {
                    match kt_prop_name_in(t, t.children_of(c as int)) {
                        Some(n) => seq![
                            (
                                c as int,
                                n,
                                if t.kind_child_of(c as int, "var"@) is Some {
                                    SymbolKind::Static
                                } else {
                                    SymbolKind::Const
                                },
                                here + term_text(n),
                            ),
                        ],
                        None => Seq::empty(),
                    }
                } else if k == "type_alias"@ {
                    match t.field_child_of(c as int, "type"@) {
                        Some(nm) => seq![(c as int, t.text_of(nm as int), SymbolKind::TypeAlias, here + type_text(t.text_of(nm as int)))],
                        None => Seq::empty(),
                    }
                } else if k == "enum_entry"@ {
                    match t.kind_child_of(c as int, "identifier"@) {
                        Some(id) => seq![(c as int, t.text_of(id as int), SymbolKind::Const, here + term_text(t.text_of(id as int)))],
                        None => Seq::empty(),
                    }
                } else if k == "secondary_constructor"@ {
                    seq![(c as int, "constructor"@, SymbolKind::Method, here + method_text("constructor"@))]
                } else {
                    Seq::empty()
                }
            },
        }
    }
}

/// The definitions of the class bodies among `bs`, children of type
/// declaration `c`, inside the types `types`.
pub open spec fn kt_bodies(t: SyntaxTree, c: int, bs: Seq<usize>, nst: Seq<char>, types: Seq<Seq<char>>) -> Seq<Def>
    decreases t.size() - c, bs.len(),
{
    if bs.len() == 0 {
        Seq::empty()
    } else {
        let b = bs.last();
        kt_bodies(t, c, bs.drop_last(), nst, types) + if (t.kind_of(b as int) == "class_body"@ || t.kind_of(b as int)
            == "enum_class_body"@) && c < b < t.size() {
            kt_defs_in(t, b as int, t.children_of(b as int), nst, types, true)
        } else {
            Seq::empty()
        }
    }
}

/// The definitions among the children of `container`, inside the types
/// `types`; `inside` makes functions methods. Class, object and companion
/// bodies are descended into.
fn collect_decls(t: &SyntaxTree, container: usize, ns: &Vec<String>, types: &Vec<String>, inside: bool, file: &str, out: &mut Vec<Symbol>)
    requires
        t.wf(),
        container < t.size(),
    ensures
        defs_grow(
            *t,
            file@,
            Language::Kotlin,
            kotlin_stops(),
            old(out)@,
            final(out)@,
            kt_defs_in(*t, container as int, t.children_of(container as int), namespaces_text(views(ns@)), views(types@), inside),
        ),
    decreases t.size() - container, 2nat,
{
    let ghost nst = namespaces_text(views(ns@));
    let ghost ts = views(types@);
    let ch = t.children(container);
    let mut k: usize = 0;
    assert(ch@.take(0) =~= Seq::<usize>::empty());
    proof {
        lemma_defs_grow_none(*t, file@, Language::Kotlin, kotlin_stops(), out@);
    }
    while k < ch.len()
        invariant
            t.wf(),
            container < t.size(),
            k <= ch.len(),
            ch@ == t.children_of(container as int),
            nst == namespaces_text(views(ns@)),
            ts == views(types@),
            forall|j: int| 0 <= j < ch.len() ==> container < #[trigger] ch@[j] < t.size(),
            defs_grow(*t, file@, Language::Kotlin, kotlin_stops(), old(out)@, out@, kt_defs_in(*t, container as int, ch@.take(k as int), nst, ts, inside)),
        decreases ch.len() - k,
    {
        let c = ch[k];
        let ghost mid = out@;
        proof {
            assert(ch@.take(k + 1).drop_last() =~= ch@.take(k as int));
            assert(ch@.take(k + 1).last() == c);
        }
        push_decl(t, container, c, ns, types, inside, file, out);
        proof {
            lemma_defs_grow_trans(
                *t,
                file@,
                Language::Kotlin,
                kotlin_stops(),
                old(out)@,
                mid,
                out@,
                kt_defs_in(*t, container as int, ch@.take(k as int), nst, ts, inside),
                kt_defs_at(*t, container as int, c, nst, ts, inside),
            );
        }
        k = k + 1;
    }
    assert(ch@.take(ch.len() as int) =~= ch@);
}

/// The definitions declaration `c`, a child of `node`, makes.
fn push_decl(t: &SyntaxTree, node: usize, c: usize, ns: &Vec<String>, types: &Vec<String>, inside: bool, file: &str, out: &mut Vec<Symbol>)
    requires
        t.wf(),
        node < c < t.size(),
    ensures
        defs_grow(
            *t,
            file@,
            Language::Kotlin,
            kotlin_stops(),
            old(out)@,
            final(out)@,
            kt_defs_at(*t, node as int, c, namespaces_text(views(ns@)), views(types@), inside),
        ),
    decreases t.size() - node, 1nat,
{
    let ghost nst = namespaces_text(views(ns@));
    let ghost ts = views(types@);
    proof {
        lemma_defs_grow_none(*t, file@, Language::Kotlin, kotlin_stops(), out@);
    }
    if !is_visible(t, c) {
        return;
    }
    let stops = vec!['{', '\n'];
    assert(stops@ =~= kotlin_stops());
    let ty: Option<(String, SymbolKind)> = if t.is_kind(c, "class_declaration") {
        match t.field_child(c, "name") {
            Some(nm) => Some((t.text(nm), class_kind(t, c, nm))),
            None => None,
        }
    } else if t.is_kind(c, "object_declaration") {
        match field_text(t, c, "name") {
            Some(name) => Some((name, SymbolKind::Class)),
            None => None,
        }
    } else if t.is_kind(c, "companion_object") {
        match field_text(t, c, "name") {
            Some(name) => Some((name, SymbolKind::Class)),
            None => {
                proof {
                    reveal_strlit("Companion");
                }
                Some(("Companion".to_owned(), SymbolKind::Class))
            },
        }
    } else {
        None
    };
    proof {
        assert(ty is Some == kt_type_of(*t, c as int) is Some);
        if ty is Some {
            assert(ty.unwrap().0@ == kt_type_of(*t, c as int).unwrap().0);
            assert(ty.unwrap().1 == kt_type_of(*t, c as int).unwrap().1);
        }
    }
    match ty {
        Some((name, kind)) => {
            let inner = strings_push(types, &name);
            let ghost nm = name@;
            let leaf = Descriptor::Type(name.clone());
            assert(descriptor_text(leaf) =~= type_text(name@));
            push_path_def(out, t, c, Language::Kotlin, ns, types, leaf, name, kind, file, &stops);
            let ghost one = out@;
            walk_bodies(t, c, ns, &inner, file, out);
            proof {
                lemma_defs_grow_trans(
                    *t,
                    file@,
                    Language::Kotlin,
                    kotlin_stops(),
                    old(out)@,
                    one,
                    out@,
                    seq![(c as int, nm, kind, nst + types_text(ts) + type_text(nm))],
                    kt_bodies(*t, c as int, t.children_of(c as int), nst, views(inner@)),
                );
            }
        },
        None => {
            if t.is_kind(c, "function_declaration") {
                match field_text(t, c, "name") {
                    Some(name) => {
                        let kind = if inside {
                            SymbolKind::Method
                        } else {
                            SymbolKind::Function
                        };
                        let leaf = Descriptor::Method { name: name.clone(), disambiguator: String::new() };
                        assert(descriptor_text(leaf) =~= method_text(name@));
                        push_path_def(out, t, c, Language::Kotlin, ns, types, leaf, name, kind, file, &stops);
                    },
                    None => {},
                }
            } else if t.is_kind(c, "property_declaration") {
                match property_name(t, c) {
                    Some(name) => {
                        let kind = if t.child_of_kind(c, "var").is_some() {
                            SymbolKind::Static
                        } else {
                            SymbolKind::Const
                        };
                        let leaf = Descriptor::Term(name.clone());
                        assert(descriptor_text(leaf) =~= term_text(name@));
                        push_path_def(out, t, c, Language::Kotlin, ns, types, leaf, name, kind, file, &stops);
                    },
                    None => {},
                }
            } else if t.is_kind(c, "type_alias") {
                match field_text(t, c, "type") {
                    Some(name) => {
                        let leaf = Descriptor::Type(name.clone());
                        assert(descriptor_text(leaf) =~= type_text(name@));
                        push_path_def(out, t, c, Language::Kotlin, ns, types, leaf, name, SymbolKind::TypeAlias, file, &stops);
                    },
                    None => {},
                }
            } else if t.is_kind(c, "enum_entry") {
                match t.child_of_kind(c, "identifier") {
                    Some(id) => {
                        let name = t.text(id);
                        let leaf = Descriptor::Term(name.clone());
                        assert(descriptor_text(leaf) =~= term_text(name@));
                        push_path_def(out, t, c, Language::Kotlin, ns, types, leaf, name, SymbolKind::Const, file, &stops);
                    },
                    None => {},
                }
            } else if t.is_kind(c, "secondary_constructor") {
                proof {
                    reveal_strlit("constructor");
                }
                let leaf = Descriptor::Method { name: "constructor".to_owned(), disambiguator: String::new() };
                assert(descriptor_text(leaf) =~= method_text("constructor"@));
                push_path_def(out, t, c, Language::Kotlin, ns, types, leaf, "constructor".to_owned(), SymbolKind::Method, file, &stops);
            }
        },
    }
}

/// The definitions of the class bodies among the children of type
/// declaration `c`, inside the types `types`.
fn walk_bodies(t: &SyntaxTree, c: usize, ns: &Vec<String>, types: &Vec<String>, file: &str, out: &mut Vec<Symbol>)
    requires
        t.wf(),
        c < t.size(),
    ensures
        defs_grow(
            *t,
            file@,
            Language::Kotlin,
            kotlin_stops(),
            old(out)@,
            final(out)@,
            kt_bodies(*t, c as int, t.children_of(c as int), namespaces_text(views(ns@)), views(types@)),
        ),
    decreases t.size() - c, 0nat,
{
    let ghost nst = namespaces_text(views(ns@));
    let ghost ts = views(types@);
    let bs = t.children(c);
    let mut j: usize = 0;
    assert(bs@.take(0) =~= Seq::<usize>::empty());
    proof {
        lemma_defs_grow_none(*t, file@, Language::Kotlin, kotlin_stops(), out@);
    }
    while j < bs.len()
        invariant
            t.wf(),
            c < t.size(),
            j <= bs.len(),
            bs@ == t.children_of(c as int),
            nst == namespaces_text(views(ns@)),
            ts == views(types@),
            forall|x: int| 0 <= x < bs.len() ==> c < #[trigger] bs@[x] < t.size(),
            defs_grow(*t, file@, Language::Kotlin, kotlin_stops(), old(out)@, out@, kt_bodies(*t, c as int, bs@.take(j as int), nst, ts)),
        decreases bs.len() - j,
    {
        let b = bs[j];
        let ghost mid = out@;
        proof {
            assert(bs@.take(j + 1).drop_last() =~= bs@.take(j as int));
            assert(bs@.take(j + 1).last() == b);
            lemma_defs_grow_none(*t, file@, Language::Kotlin, kotlin_stops(), mid);
        }
        if t.is_kind(b, "class_body") || t.is_kind(b, "enum_class_body") {
            collect_decls(t, b, ns, types, true, file, out);
        }
        proof {
            let step = kt_bodies(*t, c as int, bs@.take(j + 1), nst, ts).skip(kt_bodies(*t, c as int, bs@.take(j as int), nst, ts).len() as int);
            assert(kt_bodies(*t, c as int, bs@.take(j + 1), nst, ts) =~= kt_bodies(*t, c as int, bs@.take(j as int), nst, ts) + step);
            lemma_defs_grow_trans(
                *t,
                file@,
                Language::Kotlin,
                kotlin_stops(),
                old(out)@,
                mid,
                out@,
                kt_bodies(*t, c as int, bs@.take(j as int), nst, ts),
                step,
            );
        }
        j = j + 1;
    }
    assert(bs@.take(bs.len() as int) =~= bs@);
}

/// The named identifiers among `xs`, as calls.
pub open spec fn kt_ids_in(t: SyntaxTree, xs: Seq<usize>) -> Seq<RefItem>
    decreases xs.len(),
{
    if xs.len() == 0 {
        Seq::empty()
    } else {
        let x = xs.last();
        kt_ids_in(t, xs.drop_last()) + if t.nodes@[x as int].named && t.kind_of(x as int) == "identifier"@ {
            seq![(x as int, t.text_of(x as int), RefRole::Call)]
        } else {
            Seq::empty()
        }
    }
}

/// The calls the children `es` of a call make: a named identifier (free
/// call), or the named identifiers of a named navigation expression (member
/// call).
pub open spec fn kt_call_parts(t: SyntaxTree, es: Seq<usize>) -> Seq<RefItem>
    decreases es.len(),
{
    if es.len() == 0 {
        Seq::empty()
    } else {
        let e = es.last();
        kt_call_parts(t, es.drop_last()) + if t.nodes@[e as int].named && t.kind_of(e as int) == "identifier"@ {
            seq![(e as int, t.text_of(e as int), RefRole::Call)]
        } else if t.nodes@[e as int].named && t.kind_of(e as int) == "navigation_expression"@ {
            kt_ids_in(t, t.children_of(e as int))
        } else {
            Seq::empty()
        }
    }
}

/// The calls node `i` makes.
pub open spec fn kt_call_at(t: SyntaxTree, i: int) -> Seq<RefItem> {
    if t.kind_of(i) == "call_expression"@ {
        kt_call_parts(t, t.children_of(i))
    } else {
        Seq::empty()
    }
}

/// The calls nodes `0..n` make, in pre-order.
pub open spec fn kt_calls_upto(t: SyntaxTree, n: int) -> Seq<RefItem>
    decreases n,
{
    if n <= 0 {
        Seq::empty()
    } else {
        kt_calls_upto(t, n - 1) + kt_call_at(t, n - 1)
    }
}

/// The named identifiers among the children of `n`, as calls.
fn push_ids(t: &SyntaxTree, n: usize, file: &str, out: &mut Vec<Reference>)
    requires
        t.wf(),
        n < t.size(),
    ensures
        refs_grow(*t, file@, old(out)@, final(out)@, kt_ids_in(*t, t.children_of(n as int))),
{
    let xs = t.children(n);
    let mut m: usize = 0;
    assert(xs@.take(0) =~= Seq::<usize>::empty());
    proof {
        lemma_refs_grow_none(*t, file@, out@);
    }
    while m < xs.len()
        invariant
            t.wf(),
            m <= xs.len(),
            xs@ == t.children_of(n as int),
            forall|j: int| 0 <= j < xs.len() ==> #[trigger] xs@[j] < t.size(),
            refs_grow(*t, file@, old(out)@, out@, kt_ids_in(*t, xs@.take(m as int))),
        decreases xs.len() - m,
    {
        let x = xs[m];
        let ghost mid = out@;
        proof {
            assert(xs@.take(m + 1).drop_last() =~= xs@.take(m as int));
            assert(xs@.take(m + 1).last() == x);
            lemma_refs_grow_none(*t, file@, mid);
        }
        if t.nodes[x].named && t.is_kind(x, "identifier") {
            push_ref_item(out, t.text(x), t, x, file, RefRole::Call);
        }
        proof {
            let prev = kt_ids_in(*t, xs@.take(m as int));
            let step = kt_ids_in(*t, xs@.take(m + 1)).skip(prev.len() as int);
            assert(kt_ids_in(*t, xs@.take(m + 1)) =~= prev + step);
            lemma_refs_grow_trans(*t, file@, old(out)@, mid, out@, prev, step);
        }
        m = m + 1;
    }
    assert(xs@.take(xs.len() as int) =~= xs@);
}

/// Call references: an identifier directly under a call (free call), or an
/// identifier under a navigation expression directly under a call (member
/// call).
fn collect_calls(t: &SyntaxTree, file: &str, out: &mut Vec<Reference>)
    requires
        t.wf(),
    ensures
        refs_grow(*t, file@, old(out)@, final(out)@, kt_calls_upto(*t, t.size())),
{
    let mut i: usize = 0;
    proof {
        lemma_refs_grow_none(*t, file@, out@);
    }
    while i < t.nodes.len()
        invariant
            t.wf(),
            i <= t.nodes.len(),
            refs_grow(*t, file@, old(out)@, out@, kt_calls_upto(*t, i as int)),
        decreases t.nodes.len() - i,
    {
        let ghost before = out@;
        proof {
            lemma_refs_grow_none(*t, file@, before);
        }
        if t.is_kind(i, "call_expression") {
            let es = t.children(i);
            let mut k: usize = 0;
            assert(es@.take(0) =~= Seq::<usize>::empty());
            while k < es.len()
                invariant
                    t.wf(),
                    k <= es.len(),
                    es@ == t.children_of(i as int),
                    forall|j: int| 0 <= j < es.len() ==> #[trigger] es@[j] < t.size(),
                    refs_grow(*t, file@, before, out@, kt_call_parts(*t, es@.take(k as int))),
                decreases es.len() - k,
            {
                let e = es[k];
                let ghost mid = out@;
                proof {
                    assert(es@.take(k + 1).drop_last() =~= es@.take(k as int));
                    assert(es@.take(k + 1).last() == e);
                    lemma_refs_grow_none(*t, file@, mid);
                }
                if t.nodes[e].named && t.is_kind(e, "identifier") {
                    push_ref_item(out, t.text(e), t, e, file, RefRole::Call);
                } else if t.nodes[e].named && t.is_kind(e, "navigation_expression") {
                    push_ids(t, e, file, out);
                }
                proof {
                    let prev = kt_call_parts(*t, es@.take(k as int));
                    let step = kt_call_parts(*t, es@.take(k + 1)).skip(prev.len() as int);
                    assert(kt_call_parts(*t, es@.take(k + 1)) =~= prev + step);
                    lemma_refs_grow_trans(*t, file@, before, mid, out@, prev, step);
                }
                k = k + 1;
            }
            assert(es@.take(es.len() as int) =~= es@);
        }
        proof {
            assert(kt_calls_upto(*t, i + 1) == kt_calls_upto(*t, i as int) + kt_call_at(*t, i as int));
            lemma_refs_grow_trans(*t, file@, old(out)@, before, out@, kt_calls_upto(*t, i as int), kt_call_at(*t, i as int));
        }
        i = i + 1;
    }
}

/// The first node of kind `user_type`, in pre-order from `n` itself.
pub open spec fn kt_first_user_type(t: SyntaxTree, n: int) -> Option<usize>
    decreases t.size() - n, t.children_of(n).len() + 1,
{
    if t.kind_of(n) == "user_type"@ {
        Some(n as usize)
    } else {
        kt_first_user_type_in(t, n, t.children_of(n))
    }
}

/// The first `user_type` in pre-order under the first of `cs` (children of
/// `n`) that has one.
pub open spec fn kt_first_user_type_in(t: SyntaxTree, n: int, cs: Seq<usize>) -> Option<usize>
    decreases t.size() - n, cs.len(),
{
    if cs.len() == 0 {
        None
    } else if n < cs[0] < t.size() && kt_first_user_type(t, cs[0] as int) is Some {
        kt_first_user_type(t, cs[0] as int)
    } else {
        kt_first_user_type_in(t, n, cs.skip(1))
    }
}

/// The first node, in pre-order from `n` itself, of kind `user_type`.
fn first_user_type(t: &SyntaxTree, n: usize) -> (r: Option<usize>)
    requires
        t.wf(),
        n < t.size(),
    ensures
        r == kt_first_user_type(*t, n as int),
        r matches Some(u) ==> u < t.size(),
    decreases t.size() - n,
{
    if t.is_kind(n, "user_type") {
        return Some(n);
    }
    let ch = t.children(n);
    let mut k: usize = 0;
    assert(ch@.skip(0) =~= ch@);
    while k < ch.len()
        invariant
            t.wf(),
            n < t.size(),
            k <= ch.len(),
            ch@ == t.children_of(n as int),
            forall|j: int| 0 <= j < ch.len() ==> n < #[trigger] ch@[j] < t.size(),
            kt_first_user_type_in(*t, n as int, ch@.skip(k as int)) == kt_first_user_type(*t, n as int),
        decreases ch.len() - k,
    {
        assert(ch@.skip(k as int)[0] == ch@[k as int]);
        match first_user_type(t, ch[k]) {
            Some(u) => {
                return Some(u);
            },
            None => {},
        }
        assert(ch@.skip(k as int).skip(1) =~= ch@.skip(k + 1));
        k = k + 1;
    }
    None
}

/// The supertypes the delegation specifiers among `ss` name: the first user
/// type of each, by simple name.
pub open spec fn kt_specifiers(t: SyntaxTree, ss: Seq<usize>) -> Seq<RefItem>
    decreases ss.len(),
{
    if ss.len() == 0 {
        Seq::empty()
    } else {
        let sp = ss.last();
        kt_specifiers(t, ss.drop_last()) + if t.kind_of(sp as int) == "delegation_specifier"@ {
            match kt_first_user_type(t, sp as int) {
                Some(u) => seq![(u as int, simple_name_of(t.text_of(u as int), "."@), RefRole::IsImplementation)],
                None => Seq::empty(),
            }
        } else {
            Seq::empty()
        }
    }
}

/// The supertypes the `delegation_specifiers` among `cs` name.
pub open spec fn kt_supertypes_in(t: SyntaxTree, cs: Seq<usize>) -> Seq<RefItem>
    decreases cs.len(),
{
    if cs.len() == 0 {
        Seq::empty()
    } else {
        let c = cs.last();
        kt_supertypes_in(t, cs.drop_last()) + if t.kind_of(c as int) == "delegation_specifiers"@ {
            kt_specifiers(t, t.children_of(c as int))
        } else {
            Seq::empty()
        }
    }
}

/// The supertypes class or object declaration `i` names.
pub open spec fn kt_inherit_at(t: SyntaxTree, i: int) -> Seq<RefItem> {
    if t.kind_of(i) == "class_declaration"@ || t.kind_of(i) == "object_declaration"@ {
        kt_supertypes_in(t, t.children_of(i))
    } else {
        Seq::empty()
    }
}

/// The supertypes nodes `0..n` name, in pre-order.
pub open spec fn kt_inherits_upto(t: SyntaxTree, n: int) -> Seq<RefItem>
    decreases n,
{
    if n <= 0 {
        Seq::empty()
    } else {
        kt_inherits_upto(t, n - 1) + kt_inherit_at(t, n - 1)
    }
}

/// The supertypes the delegation specifiers among the children of `c` name.
fn push_specifiers(t: &SyntaxTree, c: usize, file: &str, out: &mut Vec<Reference>)
    requires
        t.wf(),
        c < t.size(),
    ensures
        refs_grow(*t, file@, old(out)@, final(out)@, kt_specifiers(*t, t.children_of(c as int))),
{
    let ss = t.children(c);
    let mut m: usize = 0;
    assert(ss@.take(0) =~= Seq::<usize>::empty());
    proof {
        lemma_refs_grow_none(*t, file@, out@);
    }
    while m < ss.len()
        invariant
            t.wf(),
            m <= ss.len(),
            ss@ == t.children_of(c as int),
            forall|j: int| 0 <= j < ss.len() ==> #[trigger] ss@[j] < t.size(),
            refs_grow(*t, file@, old(out)@, out@, kt_specifiers(*t, ss@.take(m as int))),
        decreases ss.len() - m,
    {
        let sp = ss[m];
        let ghost mid = out@;
        proof {
            assert(ss@.take(m + 1).drop_last() =~= ss@.take(m as int));
            assert(ss@.take(m + 1).last() == sp);
            lemma_refs_grow_none(*t, file@, mid);
        }
        if t.is_kind(sp, "delegation_specifier") {
            match first_user_type(t, sp) {
                Some(u) => {
                    let text = t.text(u);
                    push_ref_item(out, simple_type_name(text.as_str(), "."), t, u, file, RefRole::IsImplementation);
                },
                None => {},
            }
        }
        proof {
            let prev = kt_specifiers(*t, ss@.take(m as int));
            let step = kt_specifiers(*t, ss@.take(m + 1)).skip(prev.len() as int);
            assert(kt_specifiers(*t, ss@.take(m + 1)) =~= prev + step);
            lemma_refs_grow_trans(*t, file@, old(out)@, mid, out@, prev, step);
        }
        m = m + 1;
    }
    assert(ss@.take(ss.len() as int) =~= ss@);
}

/// `IsImplementation` references: for every class and object, the first
/// user type of each delegation specifier, by simple name.
fn collect_inheritance(t: &SyntaxTree, file: &str, out: &mut Vec<Reference>)
    requires
        t.wf(),
    ensures
        refs_grow(*t, file@, old(out)@, final(out)@, kt_inherits_upto(*t, t.size())),
{
    let mut i: usize = 0;
    proof {
        lemma_refs_grow_none(*t, file@, out@);
    }
    while i < t.nodes.len()
        invariant
            t.wf(),
            i <= t.nodes.len(),
            refs_grow(*t, file@, old(out)@, out@, kt_inherits_upto(*t, i as int)),
        decreases t.nodes.len() - i,
    {
        let ghost before = out@;
        proof {
            lemma_refs_grow_none(*t, file@, before);
        }
        if t.is_kind(i, "class_declaration") || t.is_kind(i, "object_declaration") {
            let ch = t.children(i);
            let mut k: usize = 0;
            assert(ch@.take(0) =~= Seq::<usize>::empty());
            while k < ch.len()
                invariant
                    t.wf(),
                    k <= ch.len(),
                    ch@ == t.children_of(i as int),
                    forall|j: int| 0 <= j < ch.len() ==> #[trigger] ch@[j] < t.size(),
                    refs_grow(*t, file@, before, out@, kt_supertypes_in(*t, ch@.take(k as int))),
                decreases ch.len() - k,
            {
                let c = ch[k];
                let ghost mid = out@;
                proof {
                    assert(ch@.take(k + 1).drop_last() =~= ch@.take(k as int));
                    assert(ch@.take(k + 1).last() == c);
                    lemma_refs_grow_none(*t, file@, mid);
                }
                if t.is_kind(c, "delegation_specifiers") {
                    push_specifiers(t, c, file, out);
                }
                proof {
                    let prev = kt_supertypes_in(*t, ch@.take(k as int));
                    let step = kt_supertypes_in(*t, ch@.take(k + 1)).skip(prev.len() as int);
                    assert(kt_supertypes_in(*t, ch@.take(k + 1)) =~= prev + step);
                    lemma_refs_grow_trans(*t, file@, before, mid, out@, prev, step);
                }
                k = k + 1;
            }
            assert(ch@.take(ch.len() as int) =~= ch@);
        }
        proof {
            assert(kt_inherits_upto(*t, i + 1) == kt_inherits_upto(*t, i as int) + kt_inherit_at(*t, i as int));
            lemma_refs_grow_trans(*t, file@, old(out)@, before, out@, kt_inherits_upto(*t, i as int), kt_inherit_at(*t, i as int));
        }
        i = i + 1;
    }
}

/// The import node `i` makes: unless its text holds a `*`, the leaf of its
/// first (qualified) identifier.
pub open spec fn kt_import_at(t: SyntaxTree, i: int) -> Seq<RefItem> {
    if t.kind_of(i) == "import"@ && !t.text_of(i).contains('*') {
        match kt_first_ident_in(t, t.children_of(i)) {
            Some(c) => seq![(c as int, simple_name_of(t.text_of(c as int), "."@), RefRole::Import)],
            None => Seq::empty(),
        }
    } else {
        Seq::empty()
    }
}

/// The imports nodes `0..n` make, in pre-order.
pub open spec fn kt_imports_upto(t: SyntaxTree, n: int) -> Seq<RefItem>
    decreases n,
{
    if n <= 0 {
        Seq::empty()
    } else {
        kt_imports_upto(t, n - 1) + kt_import_at(t, n - 1)
    }
}

/// `Import` references: for every import without a `*`, the leaf of its
/// first (qualified) identifier.
fn collect_imports(t: &SyntaxTree, file: &str, out: &mut Vec<Reference>)
    requires
        t.wf(),
    ensures
        refs_grow(*t, file@, old(out)@, final(out)@, kt_imports_upto(*t, t.size())),
{
    let mut i: usize = 0;
    proof {
        lemma_refs_grow_none(*t, file@, out@);
    }
    while i < t.nodes.len()
        invariant
            t.wf(),
            i <= t.nodes.len(),
            refs_grow(*t, file@, old(out)@, out@, kt_imports_upto(*t, i as int)),
        decreases t.nodes.len() - i,
    {
        let ghost before = out@;
        proof {
            lemma_refs_grow_none(*t, file@, before);
        }
        if t.is_kind(i, "import") {
            let raw = t.text(i);
            let rc = chars_of(raw.as_str());
            if !contains_char(&rc, '*') {
                match first_ident(t, i) {
                    Some(c) => {
                        let text = t.text(c);
                        push_ref_item(out, simple_type_name(text.as_str(), "."), t, c, file, RefRole::Import);
                    },
                    None => {},
                }
            }
        }
        proof {
            assert(kt_imports_upto(*t, i + 1) == kt_imports_upto(*t, i as int) + kt_import_at(*t, i as int));
            lemma_refs_grow_trans(*t, file@, old(out)@, before, out@, kt_imports_upto(*t, i as int), kt_import_at(*t, i as int));
        }
        i = i + 1;
    }
}

/// The references of a Kotlin file, in order: calls, then supertypes, then
/// imports.
pub open spec fn kt_refs(t: SyntaxTree) -> Seq<RefItem> {
    kt_calls_upto(t, t.size()) + kt_inherits_upto(t, t.size()) + kt_imports_upto(t, t.size())
}

/// What `kotlin_facts` states of the facts `r` it builds from tree `t` of
/// `source`, the text of `file`.
pub open spec fn kotlin_facts_of(t: SyntaxTree, source: Seq<char>, file: Seq<char>, r: FileFacts) -> bool {
    &&& r.scopes@.len() == 0
    &&& r.bindings@.len() == 0
    &&& r.ffi_exports@.len() == 0
    &&& r.symbols@.len() >= 1
    &&& symbols_match(
        t,
        file,
        Language::Kotlin,
        kotlin_stops(),
        kt_defs_in(t, 0, t.children_of(0), namespaces_text(kt_namespaces(t, file)), Seq::empty(), false),
        r.symbols@.drop_last(),
    )
    &&& module_symbol_spec(r.symbols@.last(), Language::Kotlin, kt_namespaces(t, file), file, encode_utf8(source).len() as int)
    &&& refs_items(t, file, kt_refs(t), r.references@)
}

/// The facts of a Kotlin file from its syntax tree: the visible
/// declarations the walk from the root finds, in order, then the file's
/// module symbol; calls, supertypes and imports, each in pre-order.
pub fn kotlin_facts(t: &SyntaxTree, source: &str, file: &str) -> (r: FileFacts)
    requires
        t.wf(),
        t.bytes@ == encode_utf8(source@),
    ensures
        facts_wf(r, file@, source@, Language::Kotlin),
        kotlin_facts_of(*t, source@, file@, r),
{
    let len = source.len();
    let ns = kotlin_namespaces(t, file);
    let types: Vec<String> = Vec::new();
    let mut symbols: Vec<Symbol> = Vec::new();
    collect_decls(t, 0, &ns, &types, false, file, &mut symbols);
    proof {
        assert(views(types@) =~= Seq::<Seq<char>>::empty());
        assert(symbols@.skip(0) =~= symbols@);
        assert(symbols_ok(Seq::<Symbol>::empty(), file@, t.bytes.len() as int));
    }
    let ghost defs = symbols@;
    symbols.push(module_symbol(Language::Kotlin, &ns, file, len));
    assert(symbols@.drop_last() =~= defs);
    let mut refs: Vec<Reference> = Vec::new();
    let ghost r0 = refs@;
    collect_calls(t, file, &mut refs);
    let ghost r1 = refs@;
    collect_inheritance(t, file, &mut refs);
    let ghost r2 = refs@;
    collect_imports(t, file, &mut refs);
    proof {
        lemma_refs_grow_trans(*t, file@, r0, r1, r2, kt_calls_upto(*t, t.size()), kt_inherits_upto(*t, t.size()));
        lemma_refs_grow_trans(
            *t,
            file@,
            r0,
            r2,
            refs@,
            kt_calls_upto(*t, t.size()) + kt_inherits_upto(*t, t.size()),
            kt_imports_upto(*t, t.size()),
        );
        assert(refs@.skip(0) =~= refs@);
        assert(refs_ok(Seq::<Reference>::empty(), file@, t.bytes.len() as int));
    }
    let scopes: Vec<crate::graph::Scope> = Vec::new();
    let ghost before = refs@;
    let refs = attach_reference_scopes(refs, &scopes);
    proof {
        lemma_refs_items_attached(*t, file@, kt_refs(*t), before, refs@, scopes@);
    }
    FileFacts {
        file: file.to_owned(),
        lang: Language::Kotlin.as_str().to_owned(),
        symbols,
        references: refs,
        scopes,
        bindings: Vec::new(),
        ffi_exports: Vec::new(),
    }
}

impl Extractor for KotlinExtractor {
    open spec fn spec_lang(&self) -> Language {
        Language::Kotlin
    }

    fn lang(&self) -> (r: Language) {
        Language::Kotlin
    }

    fn extract(&self, source: &str, file: &str) -> (r: Result<FileFacts>)
        ensures
            r is Ok <==> super::parses(Grammar::Kotlin, source@),
            r matches Ok(f) ==> super::extracted(Language::Kotlin, source@, file@, f),
    {
        let t = super::parse_tree(Grammar::Kotlin, source, file)?;
        let res: Result<FileFacts> = Ok(kotlin_facts(&t, source, file));
        assert(super::parsed_by(t, Grammar::Kotlin, source@) && kotlin_facts_of(t, source@, file@, res->Ok_0));
        res
    }
}

/// A named identifier among `xs` is among the calls `kt_ids_in` makes.
proof fn lemma_kt_ids_has(t: SyntaxTree, xs: Seq<usize>, x: usize, m: usize)
    requires
        xs.contains(x),
        t.nodes@[x as int].named && t.kind_of(x as int) == "identifier"@ && x == m,
    ensures
        kt_ids_in(t, xs).contains((m as int, t.text_of(m as int), RefRole::Call)),
    decreases xs.len(),
{
    let prev = kt_ids_in(t, xs.drop_last());
    if xs.last() == x {
        assert(kt_ids_in(t, xs).skip(prev.len() as int) =~= seq![(m as int, t.text_of(m as int), RefRole::Call)]);
        assert(kt_ids_in(t, xs)[prev.len() as int] == (m as int, t.text_of(m as int), RefRole::Call));
    } else {
        let k = choose|k: int| 0 <= k < xs.len() && xs[k] == x;
        assert(xs.drop_last()[k] == x);
        lemma_kt_ids_has(t, xs.drop_last(), x, m);
        let j = choose|j: int| 0 <= j < prev.len() && prev[j] == (m as int, t.text_of(m as int), RefRole::Call);
        assert(kt_ids_in(t, xs)[j] == (m as int, t.text_of(m as int), RefRole::Call));
    }
}

/// A free-call identifier or member-call identifier among the children
/// `es` of a call is among the calls `kt_call_parts` makes.
proof fn lemma_kt_parts_has(t: SyntaxTree, es: Seq<usize>, e: usize, m: usize)
    requires
        es.contains(e),
        t.nodes@[e as int].named,
        (t.kind_of(e as int) == "identifier"@ && e == m) || (t.kind_of(e as int) == "navigation_expression"@
            && kt_ids_in(t, t.children_of(e as int)).contains((m as int, t.text_of(m as int), RefRole::Call))),
    ensures
        kt_call_parts(t, es).contains((m as int, t.text_of(m as int), RefRole::Call)),
    decreases es.len(),
{
    reveal_strlit("identifier");
    reveal_strlit("navigation_expression");
    assert("identifier"@ =~= seq!['i', 'd', 'e', 'n', 't', 'i', 'f', 'i', 'e', 'r']);
    assert("navigation_expression"@ =~= seq!['n', 'a', 'v', 'i', 'g', 'a', 't', 'i', 'o', 'n', '_', 'e', 'x', 'p', 'r', 'e', 's', 's', 'i', 'o', 'n']);
    let prev = kt_call_parts(t, es.drop_last());
    let all = kt_call_parts(t, es);
    if es.last() == e {
        let step = all.skip(prev.len() as int);
        assert(all =~= prev + step);
        if t.kind_of(e as int) == "identifier"@ {
            assert(all[prev.len() as int] == (m as int, t.text_of(m as int), RefRole::Call));
        } else {
            let ids = kt_ids_in(t, t.children_of(e as int));
            assert(step =~= ids);
            let j = choose|j: int| 0 <= j < ids.len() && ids[j] == (m as int, t.text_of(m as int), RefRole::Call);
            assert(all[prev.len() + j] == (m as int, t.text_of(m as int), RefRole::Call));
        }
    } else {
        let k = choose|k: int| 0 <= k < es.len() && es[k] == e;
        assert(es.drop_last()[k] == e);
        lemma_kt_parts_has(t, es.drop_last(), e, m);
        let j = choose|j: int| 0 <= j < prev.len() && prev[j] == (m as int, t.text_of(m as int), RefRole::Call);
        assert(all[j] == (m as int, t.text_of(m as int), RefRole::Call));
    }
}

/// A call of a node before `n` is among the calls of nodes `0..n`.
proof fn lemma_kt_calls_upto_has(t: SyntaxTree, i: int, n: int, m: usize)
    requires
        0 <= i < n,
        kt_call_at(t, i).contains((m as int, t.text_of(m as int), RefRole::Call)),
    ensures
        kt_calls_upto(t, n).contains((m as int, t.text_of(m as int), RefRole::Call)),
    decreases n,
{
    let prev = kt_calls_upto(t, n - 1);
    if i < n - 1 {
        lemma_kt_calls_upto_has(t, i, n - 1, m);
        let k = choose|k: int| 0 <= k < prev.len() && prev[k] == (m as int, t.text_of(m as int), RefRole::Call);
        assert(kt_calls_upto(t, n)[k] == (m as int, t.text_of(m as int), RefRole::Call));
    } else {
        let k = choose|k: int| 0 <= k < kt_call_at(t, i).len() && kt_call_at(t, i)[k] == (m as int, t.text_of(m as int), RefRole::Call);
        assert(kt_calls_upto(t, n)[prev.len() + k] == (m as int, t.text_of(m as int), RefRole::Call));
    }
}

/// Law: in every call expression, a named identifier child (a free call)
/// and each named identifier child of a named navigation-expression child
/// (a member call) is a `Call` reference of the file, named by the
/// identifier and occurring where it starts.
pub proof fn law_kotlin_calls_are_referenced(
    t: SyntaxTree,
    source: Seq<char>,
    file: Seq<char>,
    r: FileFacts,
    i: int,
    e: usize,
    m: usize,
)
    requires
        kotlin_facts_of(t, source, file, r),
        0 <= i < t.size(),
        t.kind_of(i) == "call_expression"@,
        t.children_of(i).contains(e),
        t.nodes@[e as int].named,
        (t.kind_of(e as int) == "identifier"@ && e == m) || (t.kind_of(e as int) == "navigation_expression"@
            && t.children_of(e as int).contains(m) && t.nodes@[m as int].named && t.kind_of(m as int)
            == "identifier"@),
    ensures
        exists|j: int|
            0 <= j < r.references.len() && (#[trigger] r.references@[j]).role == RefRole::Call
                && r.references@[j].name@ == t.text_of(m as int) && r.references@[j].occ.byte
                == t.nodes@[m as int].start,
{
    if t.kind_of(e as int) != "identifier"@ || e != m {
        lemma_kt_ids_has(t, t.children_of(e as int), m, m);
    }
    lemma_kt_parts_has(t, t.children_of(i), e, m);
    lemma_kt_calls_upto_has(t, i, t.size(), m);
    let calls = kt_calls_upto(t, t.size());
    let k = choose|k: int| 0 <= k < calls.len() && calls[k] == (m as int, t.text_of(m as int), RefRole::Call);
    let refs = kt_refs(t);
    assert(refs[k] == calls[k]);
    assert(super::support::ref_at(t, refs[k].0, file, refs[k].1, refs[k].2, r.references@[k]));
}

} // verus!
