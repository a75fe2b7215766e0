//! PHP: top-level functions, classes, interfaces, traits and enums (also
//! inside block-form namespaces) and their public members — methods,
//! properties (without their `$`) and constants; interface members are
//! implicitly public. Qualified by the `namespace` declaration or, without
//! one, by the file's path. Call, inheritance and `use` import references. No
//! scopes or bindings are recorded.

use vstd::prelude::*;
use vstd::utf8::*;
use crate::error::Result;
use crate::graph::{FileFacts, RefRole, Reference, Symbol, SymbolKind};
use crate::lang::Language;
use crate::symbol::{Descriptor, descriptor_text};
use crate::text::{
    chars_of, chars_eq, segments, simple_type_name, simple_name_of, split_nonempty, strings_of, strip_prefix_chars,
    strip_prefix_or_self, string_from_chars, views,
};
use super::Extractor;
use super::tree::SyntaxTree;
use super::ts::Grammar;
use super::scope::attach_reference_scopes;
use super::support::{
    facts_wf, field_text, module_symbol, path_namespaces, path_namespaces_spec, refs_ok, symbols_ok, symbols_match,
    module_symbol_spec, namespaces_text, method_text, type_text, term_text, types_text, Def, defs_grow, lemma_defs_grow_none,
    lemma_defs_grow_trans, strings_push, push_path_def, RefItem, refs_items, refs_grow, lemma_refs_grow_none,
    lemma_refs_grow_trans, push_ref_item, lemma_refs_items_attached,
};

verus! {

/// Extracts PHP symbols and references.
pub struct PhpExtractor;

/// The namespaces the first of the top-level nodes `cs` that is a
/// namespace declaration with a non-empty name gives: the `\`-separated
/// segments of the name; without one, the path-derived namespaces.
pub open spec fn php_namespaces_in(t: SyntaxTree, cs: Seq<usize>, file: Seq<char>) -> Seq<Seq<char>>
    decreases cs.len(),
{
    if cs.len() == 0 {
        path_namespaces_spec(file, ".php"@)
    } else if t.kind_of(cs[0] as int) == "namespace_definition"@ && t.field_child_of(cs[0] as int, "name"@) is Some
        && segments(t.text_of(t.field_child_of(cs[0] as int, "name"@)->0 as int), '\\').len() > 0 {
        segments(t.text_of(t.field_child_of(cs[0] as int, "name"@)->0 as int), '\\')
    } else {
        php_namespaces_in(t, cs.skip(1), file)
    }
}

/// The namespaces of a PHP file.
pub open spec fn php_namespaces_spec(t: SyntaxTree, file: Seq<char>) -> Seq<Seq<char>> {
    php_namespaces_in(t, t.children_of(0), file)
}

/// The namespaces of `cs` are those of its first namespace declaration, at
/// `k`, when that declaration has a name with some segment.
proof fn lemma_php_namespaces_at(t: SyntaxTree, cs: Seq<usize>, file: Seq<char>, k: int, n: usize)
    requires
        0 <= k < cs.len(),
        t.kind_of(cs[k] as int) == "namespace_definition"@,
        t.field_child_of(cs[k] as int, "name"@) == Some(n),
        segments(t.text_of(n as int), '\\').len() > 0,
        forall|l: int| 0 <= l < k ==> t.kind_of(#[trigger] cs[l] as int) != "namespace_definition"@,
    ensures
        php_namespaces_in(t, cs, file) == segments(t.text_of(n as int), '\\'),
    decreases k,
{
    if k > 0 {
        assert(t.kind_of(cs[0] as int) != "namespace_definition"@);
        assert forall|l: int| 0 <= l < k - 1 implies t.kind_of(#[trigger] cs.skip(1)[l] as int) != "namespace_definition"@ by {
            assert(cs.skip(1)[l] == cs[l + 1]);
        }
        lemma_php_namespaces_at(t, cs.skip(1), file, k - 1, n);
    }
}

/// Without a namespace declaration among `cs` the namespaces come from the
/// path.
proof fn lemma_php_namespaces_none(t: SyntaxTree, cs: Seq<usize>, file: Seq<char>)
    requires
        forall|l: int| 0 <= l < cs.len() ==> t.kind_of(#[trigger] cs[l] as int) != "namespace_definition"@,
    ensures
        php_namespaces_in(t, cs, file) == path_namespaces_spec(file, ".php"@),
    decreases cs.len(),
{
    if cs.len() > 0 {
        assert forall|l: int| 0 <= l < cs.len() - 1 implies t.kind_of(#[trigger] cs.skip(1)[l] as int)
            != "namespace_definition"@ by {
            assert(cs.skip(1)[l] == cs[l + 1]);
        }
        lemma_php_namespaces_none(t, cs.skip(1), file);
    }
}

/// Law: a PHP file's namespaces are the `\`-separated segments of the name
/// of its first top-level `namespace` declaration, when that name has any;
/// a file with no top-level `namespace` declaration takes the namespaces of
/// its path, without a leading `src/` and the `.php` extension.
pub proof fn law_php_namespace_names_the_namespaces(t: SyntaxTree, file: Seq<char>, k: int, n: usize)
    ensures
        ({
            let cs = t.children_of(0);
            (0 <= k < cs.len() && t.kind_of(cs[k] as int) == "namespace_definition"@ && t.field_child_of(
                cs[k] as int,
                "name"@,
            ) == Some(n) && segments(t.text_of(n as int), '\\').len() > 0 && (forall|l: int|
                0 <= l < k ==> t.kind_of(#[trigger] cs[l] as int) != "namespace_definition"@)) ==> php_namespaces_spec(
                t,
                file,
            ) == segments(t.text_of(n as int), '\\')
        }),
        (forall|l: int|
            0 <= l < t.children_of(0).len() ==> t.kind_of(#[trigger] t.children_of(0)[l] as int)
                != "namespace_definition"@) ==> php_namespaces_spec(t, file) == path_namespaces_spec(file, ".php"@),
{
    let cs = t.children_of(0);
    if 0 <= k < cs.len() && t.kind_of(cs[k] as int) == "namespace_definition"@ && t.field_child_of(cs[k] as int, "name"@)
        == Some(n) && segments(t.text_of(n as int), '\\').len() > 0 && (forall|l: int|
        0 <= l < k ==> t.kind_of(#[trigger] cs[l] as int) != "namespace_definition"@) {
        lemma_php_namespaces_at(t, cs, file, k, n);
    }
    if forall|l: int| 0 <= l < cs.len() ==> t.kind_of(#[trigger] cs[l] as int) != "namespace_definition"@ {
        lemma_php_namespaces_none(t, cs, file);
    }
}

/// The namespaces of a PHP file: the `\`-separated segments of its first
/// namespace declaration that has any, or the path-derived ones.
pub fn php_namespaces(t: &SyntaxTree, file: &str) -> (r: Vec<String>)
    requires
        t.wf(),
    ensures
        views(r@) == php_namespaces_spec(*t, file@),
        (forall|k: int| 0 <= k < t.children_of(0).len() ==> t.kind_of(#[trigger] t.children_of(0)[k] as int) != "namespace_definition"@)
            ==> views(r@) == path_namespaces_spec(file@, ".php"@),
{
    let ch = t.children(0);
    let mut k: usize = 0;
    assert(ch@.skip(0) =~= ch@);
    while k < ch.len()
        invariant
            t.wf(),
            k <= ch.len(),
            ch@ == t.children_of(0),
            forall|j: int| 0 <= j < ch.len() ==> 0 < #[trigger] ch@[j] < t.size(),
            php_namespaces_in(*t, ch@.skip(k as int), file@) == php_namespaces_spec(*t, file@),
            forall|j: int| 0 <= j < k ==> t.kind_of(#[trigger] ch@[j] as int) != "namespace_definition"@ || !(t.field_child_of(
                ch@[j] as int,
                "name"@,
            ) is Some && segments(t.text_of(t.field_child_of(ch@[j] as int, "name"@)->0 as int), '\\').len() > 0),
        decreases ch.len() - k,
    {
        let c = ch[k];
        assert(ch@.skip(k as int)[0] == c);
        if t.is_kind(c, "namespace_definition") {
            match field_text(t, c, "name") {
                Some(text) => {
                    let cs = chars_of(text.as_str());
                    let parts = split_nonempty(&cs, '\\');
                    if parts.len() > 0 {
                        return strings_of(&parts);
                    }
                },
                None => {},
            }
        }
        assert(ch@.skip(k as int).skip(1) =~= ch@.skip(k + 1));
        k = k + 1;
    }
    path_namespaces(file, ".php")
}

/// A member is public unless its first visibility modifier reads otherwise
/// than `public`.
pub open spec fn php_public(t: SyntaxTree, n: int) -> bool {
    match t.kind_child_of(n, "visibility_modifier"@) {
        Some(v) => t.text_of(v as int) == "public"@,
        None => true,
    }
}

/// Whether member `n` is public.
fn is_public(t: &SyntaxTree, n: usize) -> (r: bool)
    requires
        t.wf(),
        n < t.size(),
    ensures
        r == php_public(*t, n as int),
{
    match t.child_of_kind(n, "visibility_modifier") {
        Some(v) => {
            let text = t.text(v);
            let cs = chars_of(text.as_str());
            chars_eq(&cs, "public")
        },
        None => true,
    }
}

/// Where a PHP signature stops.
pub open spec fn php_stops() -> Seq<char> {
    seq!['{', ';']
}

/// What the elements `es` of property or constant declaration `m` define at
/// the path `here`: properties without their `$`, or constants.
pub open spec fn php_elements(t: SyntaxTree, m: int, es: Seq<usize>, here: Seq<char>, is_prop: bool) -> Seq<Def>
    decreases es.len(),
{
    if es.len() == 0 {
        Seq::empty()
    } else {
        let e = es.last();
        php_elements(t, m, es.drop_last(), here, is_prop) + if is_prop && t.kind_of(e as int) == "property_element"@ {
            match t.field_child_of(e as int, "name"@) {
                Some(nm) => {
                    let name = strip_prefix_or_self(t.text_of(nm as int), "$"@);
                    seq![(m, name, SymbolKind::Static, here + term_text(name))]
                },
                None => Seq::empty(),
            }
        } else if !is_prop && t.kind_of(e as int) == "const_element"@ {
            match t.kind_child_of(e as int, "name"@) {
                Some(nm) => seq![(m, t.text_of(nm as int), SymbolKind::Const, here + term_text(t.text_of(nm as int)))],
                None => Seq::empty(),
            }
        } else {
            Seq::empty()
        }
    }
}

/// What member `m` of a type body defines at the path `here`, when public
/// (or `implicit_public`): a method, or its property or constant elements.
pub open spec fn php_member(t: SyntaxTree, m: int, here: Seq<char>, implicit_public: bool) -> Seq<Def> {
    let k = t.kind_of(m);
    let is_member = k == "method_declaration"@ || k == "property_declaration"@ || k == "const_declaration"@;
    if is_member && (implicit_public || php_public(t, m)) {
        if k == "method_declaration"@ {
            match t.field_child_of(m, "name"@) {
                Some(nm) => seq![(m, t.text_of(nm as int), SymbolKind::Method, here + method_text(t.text_of(nm as int)))],
                None => Seq::empty(),
            }
        } else {
            php_elements(t, m, t.children_of(m), here, k == "property_declaration"@)
        }
    } else {
        Seq::empty()
    }
}

/// What the members `ms` of a type body define at the path `here`.
pub open spec fn php_members(t: SyntaxTree, ms: Seq<usize>, here: Seq<char>, implicit_public: bool) -> Seq<Def>
    decreases ms.len(),
{
    if ms.len() == 0 {
        Seq::empty()
    } else {
        php_members(t, ms.drop_last(), here, implicit_public) + php_member(t, ms.last() as int, here, implicit_public)
    }
}

/// The kind a type declaration of kind `k` defines.
pub open spec fn php_type_kind(k: Seq<char>) -> SymbolKind {
    if k == "class_declaration"@ {
        SymbolKind::Class
    } else if k == "interface_declaration"@ {
        SymbolKind::Interface
    } else if k == "trait_declaration"@ {
        SymbolKind::Trait
    } else {
        SymbolKind::Enum
    }
}

/// The definitions among `cs`, children of `node`, in a file whose
/// namespaces spell `nst`.
pub open spec fn php_defs_in(t: SyntaxTree, node: int, cs: Seq<usize>, nst: Seq<char>) -> Seq<Def>
    decreases t.size() - node, cs.len(),
{
    if cs.len() == 0 {
        Seq::empty()
    } else {
        php_defs_in(t, node, cs.drop_last(), nst) + php_defs_at(t, node, cs.last(), nst)
    }
}

/// The definitions child `c` of `node` makes: a named function; a named
/// class, interface, trait or enum, then its public members; the
/// definitions of a block-form namespace's body.
pub open spec fn php_defs_at(t: SyntaxTree, node: int, c: usize, nst: Seq<char>) -> Seq<Def>
    decreases t.size() - node, 0nat,
{
    let k = t.kind_of(c as int);
    if k == "function_definition"@ {
        match t.field_child_of(c as int, "name"@) {
            Some(nm) => seq![(c as int, t.text_of(nm as int), SymbolKind::Function, nst + method_text(t.text_of(nm as int)))],
            None => Seq::empty(),
        }
    } else if k == "class_declaration"@ || k == "interface_declaration"@ || k == "trait_declaration"@ || k
        == "enum_declaration"@ {
        match t.field_child_of(c as int, "name"@) {
            Some(nm) => {
                let name = t.text_of(nm as int);
                let here = nst + types_text(seq![name]);
                seq![(c as int, name, php_type_kind(k), nst + types_text(Seq::empty()) + type_text(name))] + match t.field_child_of(
                    c as int,
                    "body"@,
                ) {
                    Some(b) => php_members(t, t.children_of(b as int), here, k == "interface_declaration"@),
                    None => Seq::empty(),
                }
            },
            None => Seq::empty(),
        }
    } else if k == "namespace_definition"@ {
        match t.field_child_of(c as int, "body"@) {
            Some(b) => if node < b < t.size() {
                php_defs_in(t, b as int, t.children_of(b as int), nst)
            } else {
                Seq::empty()
            },
            None => Seq::empty(),
        }
    } else {
        Seq::empty()
    }
}

/// The property or constant elements of member `m`.
fn push_elements(t: &SyntaxTree, m: usize, ns: &Vec<String>, types: &Vec<String>, is_prop: bool, file: &str, out: &mut Vec<Symbol>)
    requires
        t.wf(),
        m < t.size(),
    ensures
        defs_grow(
            *t,
            file@,
            Language::Php,
            php_stops(),
            old(out)@,
            final(out)@,
            php_elements(*t, m as int, t.children_of(m as int), namespaces_text(views(ns@)) + types_text(views(types@)), is_prop),
        ),
{
    let ghost here = namespaces_text(views(ns@)) + types_text(views(types@));
    let stops = vec!['{', ';'];
    assert(stops@ =~= php_stops());
    let es = t.children(m);
    let mut j: usize = 0;
    assert(es@.take(0) =~= Seq::<usize>::empty());
    proof {
        lemma_defs_grow_none(*t, file@, Language::Php, php_stops(), out@);
        reveal_strlit("$");
    }
    while j < es.len()
        invariant
            t.wf(),
            m < t.size(),
            j <= es.len(),
            es@ == t.children_of(m as int),
            stops@ == php_stops(),
            here == namespaces_text(views(ns@)) + types_text(views(types@)),
            forall|x: int| 0 <= x < es.len() ==> #[trigger] es@[x] < t.size(),
            defs_grow(*t, file@, Language::Php, php_stops(), old(out)@, out@, php_elements(*t, m as int, es@.take(j as int), here, is_prop)),
        decreases es.len() - j,
    {
        let e = es[j];
        let ghost mid = out@;
        proof {
            assert(es@.take(j + 1).drop_last() =~= es@.take(j as int));
            assert(es@.take(j + 1).last() == e);
            lemma_defs_grow_none(*t, file@, Language::Php, php_stops(), mid);
        }
        if is_prop && t.is_kind(e, "property_element") {
            match field_text(t, e, "name") {
                Some(raw) => {
                    let cs = chars_of(raw.as_str());
                    let stripped = strip_prefix_chars(&cs, "$");
                    let name = string_from_chars(stripped.as_slice());
                    let leaf = Descriptor::Term(name.clone());
                    assert(descriptor_text(leaf) =~= term_text(name@));
                    push_path_def(out, t, m, Language::Php, ns, types, leaf, name, SymbolKind::Static, file, &stops);
                },
                None => {},
            }
        } else if !is_prop && t.is_kind(e, "const_element") {
            match t.child_of_kind(e, "name") {
                Some(nm) => {
                    let name = t.text(nm);
                    let leaf = Descriptor::Term(name.clone());
                    assert(descriptor_text(leaf) =~= term_text(name@));
                    push_path_def(out, t, m, Language::Php, ns, types, leaf, name, SymbolKind::Const, file, &stops);
                },
                None => {},
            }
        }
        proof {
            let prev = php_elements(*t, m as int, es@.take(j as int), here, is_prop);
            let step = php_elements(*t, m as int, es@.take(j + 1), here, is_prop).skip(prev.len() as int);
            assert(php_elements(*t, m as int, es@.take(j + 1), here, is_prop) =~= prev + step);
            lemma_defs_grow_trans(*t, file@, Language::Php, php_stops(), old(out)@, mid, out@, prev, step);
        }
        j = j + 1;
    }
    assert(es@.take(es.len() as int) =~= es@);
}

/// The public methods, properties and constants of a type body.
fn collect_members(t: &SyntaxTree, body: usize, ns: &Vec<String>, types: &Vec<String>, implicit_public: bool, file: &str, out: &mut Vec<Symbol>)
    requires
        t.wf(),
        body < t.size(),
    ensures
        defs_grow(
            *t,
            file@,
            Language::Php,
            php_stops(),
            old(out)@,
            final(out)@,
            php_members(*t, t.children_of(body as int), namespaces_text(views(ns@)) + types_text(views(types@)), implicit_public),
        ),
{
    let ghost here = namespaces_text(views(ns@)) + types_text(views(types@));
    let stops = vec!['{', ';'];
    assert(stops@ =~= php_stops());
    let ms = t.children(body);
    let mut k: usize = 0;
    assert(ms@.take(0) =~= Seq::<usize>::empty());
    proof {
        lemma_defs_grow_none(*t, file@, Language::Php, php_stops(), out@);
    }
    while k < ms.len()
        invariant
            t.wf(),
            k <= ms.len(),
            ms@ == t.children_of(body as int),
            stops@ == php_stops(),
            here == namespaces_text(views(ns@)) + types_text(views(types@)),
            forall|j: int| 0 <= j < ms.len() ==> #[trigger] ms@[j] < t.size(),
            defs_grow(*t, file@, Language::Php, php_stops(), old(out)@, out@, php_members(*t, ms@.take(k as int), here, implicit_public)),
        decreases ms.len() - k,
    {
        let m = ms[k];
        let ghost mid = out@;
        proof {
            assert(ms@.take(k + 1).drop_last() =~= ms@.take(k as int));
            assert(ms@.take(k + 1).last() == m);
            lemma_defs_grow_none(*t, file@, Language::Php, php_stops(), mid);
        }
        let is_member = t.is_kind(m, "method_declaration") || t.is_kind(m, "property_declaration") || t.is_kind(m, "const_declaration");
        if is_member && (implicit_public || is_public(t, m)) {
            if t.is_kind(m, "method_declaration") {
                match field_text(t, m, "name") {
                    Some(name) => {
                        let leaf = Descriptor::Method { name: name.clone(), disambiguator: String::new() };
                        assert(descriptor_text(leaf) =~= method_text(name@));
                        push_path_def(out, t, m, Language::Php, ns, types, leaf, name, SymbolKind::Method, file, &stops);
                    },
                    None => {},
                }
            } else {
                let is_prop = t.is_kind(m, "property_declaration");
                push_elements(t, m, ns, types, is_prop, file, out);
            }
        }
        proof {
            lemma_defs_grow_trans(
                *t,
                file@,
                Language::Php,
                php_stops(),
                old(out)@,
                mid,
                out@,
                php_members(*t, ms@.take(k as int), here, implicit_public),
                php_member(*t, m as int, here, implicit_public),
            );
        }
        k = k + 1;
    }
    assert(ms@.take(ms.len() as int) =~= ms@);
}

/// The top-level definitions among the children of `container`, descending
/// into the body of block-form namespaces.
fn collect_defs(t: &SyntaxTree, container: usize, ns: &Vec<String>, file: &str, out: &mut Vec<Symbol>)
    requires
        t.wf(),
        container < t.size(),
    ensures
        defs_grow(
            *t,
            file@,
            Language::Php,
            php_stops(),
            old(out)@,
            final(out)@,
            php_defs_in(*t, container as int, t.children_of(container as int), namespaces_text(views(ns@))),
        ),
    decreases t.size() - container,
{
    let ghost nst = namespaces_text(views(ns@));
    let stops = vec!['{', ';'];
    assert(stops@ =~= php_stops());
    let no_types: Vec<String> = Vec::new();
    assert(views(no_types@) =~= Seq::<Seq<char>>::empty());
    let ch = t.children(container);
    let mut k: usize = 0;
    assert(ch@.take(0) =~= Seq::<usize>::empty());
    proof {
        lemma_defs_grow_none(*t, file@, Language::Php, php_stops(), out@);
    }
    while k < ch.len()
        invariant
            t.wf(),
            container < t.size(),
            k <= ch.len(),
            ch@ == t.children_of(container as int),
            stops@ == php_stops(),
            views(no_types@) == Seq::<Seq<char>>::empty(),
            nst == namespaces_text(views(ns@)),
            forall|j: int| 0 <= j < ch.len() ==> container < #[trigger] ch@[j] < t.size(),
            defs_grow(*t, file@, Language::Php, php_stops(), old(out)@, out@, php_defs_in(*t, container as int, ch@.take(k as int), nst)),
        decreases ch.len() - k,
    {
        let c = ch[k];
        let ghost mid = out@;
        proof {
            assert(ch@.take(k + 1).drop_last() =~= ch@.take(k as int));
            assert(ch@.take(k + 1).last() == c);
            lemma_defs_grow_none(*t, file@, Language::Php, php_stops(), mid);
        }
        if t.is_kind(c, "function_definition") {
            match field_text(t, c, "name") {
                Some(name) => {
                    let leaf = Descriptor::Method { name: name.clone(), disambiguator: String::new() };
                    assert(descriptor_text(leaf) =~= method_text(name@));
                    proof {
                        assert(nst + types_text(Seq::<Seq<char>>::empty()) =~= nst);
                    }
                    push_path_def(out, t, c, Language::Php, ns, &no_types, leaf, name, SymbolKind::Function, file, &stops);
                },
                None => {},
            }
        } else if t.is_kind(c, "class_declaration") || t.is_kind(c, "interface_declaration") || t.is_kind(c, "trait_declaration")
            || t.is_kind(c, "enum_declaration") {
            match field_text(t, c, "name") {
                Some(name) => {
                    let kind = if t.is_kind(c, "class_declaration") {
                        SymbolKind::Class
                    } else if t.is_kind(c, "interface_declaration") {
                        SymbolKind::Interface
                    } else if t.is_kind(c, "trait_declaration") {
                        SymbolKind::Trait
                    } else {
                        SymbolKind::Enum
                    };
                    let ghost nm = name@;
                    let types = strings_push(&no_types, &name);
                    assert(views(types@) =~= seq![nm]);
                    let leaf = Descriptor::Type(name.clone());
                    assert(descriptor_text(leaf) =~= type_text(name@));
                    push_path_def(out, t, c, Language::Php, ns, &no_types, leaf, name, kind, file, &stops);
                    let ghost one = out@;
                    let implicit_public = t.is_kind(c, "interface_declaration");
                    proof {
                        lemma_defs_grow_none(*t, file@, Language::Php, php_stops(), one);
                    }
                    match t.field_child(c, "body") {
                        Some(body) => collect_members(t, body, ns, &types, implicit_public, file, out),
                        None => {},
                    }
                    proof {
                        let first = seq![(c as int, nm, kind, nst + types_text(Seq::<Seq<char>>::empty()) + type_text(nm))];
                        let rest = php_defs_at(*t, container as int, c, nst).skip(1);
                        assert(php_defs_at(*t, container as int, c, nst) =~= first + rest);
                        lemma_defs_grow_trans(*t, file@, Language::Php, php_stops(), mid, one, out@, first, rest);
                    }
                },
                None => {},
            }
        } else if t.is_kind(c, "namespace_definition") {
            match t.field_child(c, "body") {
                Some(body) => collect_defs(t, body, ns, file, out),
                None => {},
            }
        }
        proof {
            lemma_defs_grow_trans(
                *t,
                file@,
                Language::Php,
                php_stops(),
                old(out)@,
                mid,
                out@,
                php_defs_in(*t, container as int, ch@.take(k as int), nst),
                php_defs_at(*t, container as int, c, nst),
            );
        }
        k = k + 1;
    }
    assert(ch@.take(ch.len() as int) =~= ch@);
}

/// The callee of node `i`: the `function` of a bare call or the `name` of a
/// method call, when a plain name.
pub open spec fn php_call_at(t: SyntaxTree, i: int) -> Seq<RefItem> {
    let callee = if t.kind_of(i) == "function_call_expression"@ {
        t.field_child_of(i, "function"@)
    } else if t.kind_of(i) == "member_call_expression"@ {
        t.field_child_of(i, "name"@)
    } else {
        None
    };
    match callee {
        Some(f) => if t.kind_of(f as int) == "name"@ {
            seq![(f as int, t.text_of(f as int), RefRole::Call)]
        } else {
            Seq::empty()
        },
        None => Seq::empty(),
    }
}

/// The calls nodes `0..n` make, in pre-order.
pub open spec fn php_calls_upto(t: SyntaxTree, n: int) -> Seq<RefItem>
    decreases n,
{
    if n <= 0 {
        Seq::empty()
    } else {
        php_calls_upto(t, n - 1) + php_call_at(t, n - 1)
    }
}

/// Call references: the `name` callee of a bare function call and the
/// `name` of a method call.
fn collect_calls(t: &SyntaxTree, file: &str, out: &mut Vec<Reference>)
    requires
        t.wf(),
    ensures
        refs_grow(*t, file@, old(out)@, final(out)@, php_calls_upto(*t, t.size())),
{
    let mut i: usize = 0;
    proof {
        lemma_refs_grow_none(*t, file@, out@);
    }
    while i < t.nodes.len()
        invariant
            t.wf(),
            i <= t.nodes.len(),
            refs_grow(*t, file@, old(out)@, out@, php_calls_upto(*t, i as int)),
        decreases t.nodes.len() - i,
    {
        let ghost before = out@;
        proof {
            lemma_refs_grow_none(*t, file@, before);
        }
        let callee = if t.is_kind(i, "function_call_expression") {
            t.field_child(i, "function")
        } else if t.is_kind(i, "member_call_expression") {
            t.field_child(i, "name")
        } else {
            None
        };
        match callee {
            Some(f) => {
                if t.is_kind(f, "name") {
                    push_ref_item(out, t.text(f), t, f, file, RefRole::Call);
                }
            },
            None => {},
        }
        proof {
            assert(php_calls_upto(*t, i + 1) == php_calls_upto(*t, i as int) + php_call_at(*t, i as int));
            lemma_refs_grow_trans(*t, file@, old(out)@, before, out@, php_calls_upto(*t, i as int), php_call_at(*t, i as int));
        }
        i = i + 1;
    }
}

/// The first of `cs` that is a (qualified) name.
pub open spec fn php_first_name_in(t: SyntaxTree, cs: Seq<usize>) -> Option<usize>
    decreases cs.len(),
{
    if cs.len() == 0 {
        None
    } else if t.kind_of(cs[0] as int) == "qualified_name"@ || t.kind_of(cs[0] as int) == "name"@ {
        Some(cs[0])
    } else {
        php_first_name_in(t, cs.skip(1))
    }
}

/// The first child of `n` that is a (qualified) name.
fn first_name(t: &SyntaxTree, n: usize) -> (r: Option<usize>)
    requires
        t.wf(),
        n < t.size(),
    ensures
        r == php_first_name_in(*t, t.children_of(n as int)),
        r matches Some(c) ==> n < c < t.size(),
{
    let ch = t.children(n);
    let mut k: usize = 0;
    assert(ch@.skip(0) =~= ch@);
    while k < ch.len()
        invariant
            t.wf(),
            k <= ch.len(),
            ch@ == t.children_of(n as int),
            forall|j: int| 0 <= j < ch.len() ==> n < #[trigger] ch@[j] < t.size(),
            php_first_name_in(*t, ch@.skip(k as int)) == php_first_name_in(*t, t.children_of(n as int)),
        decreases ch.len() - k,
    {
        let c = ch[k];
        assert(ch@.skip(k as int)[0] == c);
        if t.is_kind(c, "qualified_name") || t.is_kind(c, "name") {
            return Some(c);
        }
        assert(ch@.skip(k as int).skip(1) =~= ch@.skip(k + 1));
        k = k + 1;
    }
    None
}

/// The import node `i` makes: for a `use` clause, the leaf of its first
/// (qualified) name.
pub open spec fn php_import_at(t: SyntaxTree, i: int) -> Seq<RefItem> {
    if t.kind_of(i) == "namespace_use_clause"@ {
        match php_first_name_in(t, t.children_of(i)) {
            Some(c) => seq![(c as int, simple_name_of(t.text_of(c as int), "\\"@), RefRole::Import)],
            None => Seq::empty(),
        }
    } else {
        Seq::empty()
    }
}

/// The imports nodes `0..n` make, in pre-order.
pub open spec fn php_imports_upto(t: SyntaxTree, n: int) -> Seq<RefItem>
    decreases n,
{
    if n <= 0 {
        Seq::empty()
    } else {
        php_imports_upto(t, n - 1) + php_import_at(t, n - 1)
    }
}

/// `Import` references: for every `use` clause (grouped ones too), the leaf
/// of its first (qualified) name; an alias is not the name.
fn collect_imports(t: &SyntaxTree, file: &str, out: &mut Vec<Reference>)
    requires
        t.wf(),
    ensures
        refs_grow(*t, file@, old(out)@, final(out)@, php_imports_upto(*t, t.size())),
{
    let mut i: usize = 0;
    proof {
        lemma_refs_grow_none(*t, file@, out@);
    }
    while i < t.nodes.len()
        invariant
            t.wf(),
            i <= t.nodes.len(),
            refs_grow(*t, file@, old(out)@, out@, php_imports_upto(*t, i as int)),
        decreases t.nodes.len() - i,
    {
        let ghost before = out@;
        proof {
            lemma_refs_grow_none(*t, file@, before);
        }
        if t.is_kind(i, "namespace_use_clause") {
            match first_name(t, i) {
                Some(c) => {
                    let text = t.text(c);
                    push_ref_item(out, simple_type_name(text.as_str(), "\\"), t, c, file, RefRole::Import);
                },
                None => {},
            }
        }
        proof {
            assert(php_imports_upto(*t, i + 1) == php_imports_upto(*t, i as int) + php_import_at(*t, i as int));
            lemma_refs_grow_trans(*t, file@, old(out)@, before, out@, php_imports_upto(*t, i as int), php_import_at(*t, i as int));
        }
        i = i + 1;
    }
}

/// The supertypes the names among `ts` spell, by simple name.
pub open spec fn php_supertype_names(t: SyntaxTree, ts: Seq<usize>) -> Seq<RefItem>
    decreases ts.len(),
{
    if ts.len() == 0 {
        Seq::empty()
    } else {
        let ty = ts.last();
        let k = t.kind_of(ty as int);
        php_supertype_names(t, ts.drop_last()) + if k == "name"@ || k == "qualified_name"@ || k == "relative_name"@ {
            seq![(ty as int, simple_name_of(t.text_of(ty as int), "\\"@), RefRole::IsImplementation)]
        } else {
            Seq::empty()
        }
    }
}

/// The supertypes the `extends` and `implements` clauses among `cs` name.
pub open spec fn php_clauses(t: SyntaxTree, cs: Seq<usize>) -> Seq<RefItem>
    decreases cs.len(),
{
    if cs.len() == 0 {
        Seq::empty()
    } else {
        let c = cs.last();
        php_clauses(t, cs.drop_last()) + if t.kind_of(c as int) == "base_clause"@ || t.kind_of(c as int) == "class_interface_clause"@ {
            php_supertype_names(t, t.children_of(c as int))
        } else {
            Seq::empty()
        }
    }
}

/// The supertypes class or interface declaration `i` names.
pub open spec fn php_inherit_at(t: SyntaxTree, i: int) -> Seq<RefItem> {
    if t.kind_of(i) == "class_declaration"@ || t.kind_of(i) == "interface_declaration"@ {
        php_clauses(t, t.children_of(i))
    } else {
        Seq::empty()
    }
}

/// The supertypes nodes `0..n` name, in pre-order.
pub open spec fn php_inherits_upto(t: SyntaxTree, n: int) -> Seq<RefItem>
    decreases n,
{
    if n <= 0 {
        Seq::empty()
    } else {
        php_inherits_upto(t, n - 1) + php_inherit_at(t, n - 1)
    }
}

/// The supertypes the names among the children of clause `c` spell.
fn push_supertypes(t: &SyntaxTree, c: usize, file: &str, out: &mut Vec<Reference>)
    requires
        t.wf(),
        c < t.size(),
    ensures
        refs_grow(*t, file@, old(out)@, final(out)@, php_supertype_names(*t, t.children_of(c as int))),
{
    let ts = t.children(c);
    let mut m: usize = 0;
    assert(ts@.take(0) =~= Seq::<usize>::empty());
    proof {
        lemma_refs_grow_none(*t, file@, out@);
    }
    while m < ts.len()
        invariant
            t.wf(),
            m <= ts.len(),
            ts@ == t.children_of(c as int),
            forall|j: int| 0 <= j < ts.len() ==> #[trigger] ts@[j] < t.size(),
            refs_grow(*t, file@, old(out)@, out@, php_supertype_names(*t, ts@.take(m as int))),
        decreases ts.len() - m,
    {
        let ty = ts[m];
        let ghost mid = out@;
        proof {
            assert(ts@.take(m + 1).drop_last() =~= ts@.take(m as int));
            assert(ts@.take(m + 1).last() == ty);
            lemma_refs_grow_none(*t, file@, mid);
        }
        if t.is_kind(ty, "name") || t.is_kind(ty, "qualified_name") || t.is_kind(ty, "relative_name") {
            let text = t.text(ty);
            push_ref_item(out, simple_type_name(text.as_str(), "\\"), t, ty, file, RefRole::IsImplementation);
        }
        proof {
            let prev = php_supertype_names(*t, ts@.take(m as int));
            let step = php_supertype_names(*t, ts@.take(m + 1)).skip(prev.len() as int);
            assert(php_supertype_names(*t, ts@.take(m + 1)) =~= prev + step);
            lemma_refs_grow_trans(*t, file@, old(out)@, mid, out@, prev, step);
        }
        m = m + 1;
    }
    assert(ts@.take(ts.len() as int) =~= ts@);
}

/// `IsImplementation` references: the names in the `extends` and
/// `implements` clauses of every class and interface, by simple name.
fn collect_inheritance(t: &SyntaxTree, file: &str, out: &mut Vec<Reference>)
    requires
        t.wf(),
    ensures
        refs_grow(*t, file@, old(out)@, final(out)@, php_inherits_upto(*t, t.size())),
{
    let mut i: usize = 0;
    proof {
        lemma_refs_grow_none(*t, file@, out@);
    }
    while i < t.nodes.len()
        invariant
            t.wf(),
            i <= t.nodes.len(),
            refs_grow(*t, file@, old(out)@, out@, php_inherits_upto(*t, i as int)),
        decreases t.nodes.len() - i,
    {
        let ghost before = out@;
        proof {
            lemma_refs_grow_none(*t, file@, before);
        }
        if t.is_kind(i, "class_declaration") || t.is_kind(i, "interface_declaration") {
            let ch = t.children(i);
            let mut k: usize = 0;
            assert(ch@.take(0) =~= Seq::<usize>::empty());
            while k < ch.len()
                invariant
                    t.wf(),
                    k <= ch.len(),
                    ch@ == t.children_of(i as int),
                    forall|j: int| 0 <= j < ch.len() ==> #[trigger] ch@[j] < t.size(),
                    refs_grow(*t, file@, before, out@, php_clauses(*t, ch@.take(k as int))),
                decreases ch.len() - k,
            {
                let c = ch[k];
                let ghost mid = out@;
                proof {
                    assert(ch@.take(k + 1).drop_last() =~= ch@.take(k as int));
                    assert(ch@.take(k + 1).last() == c);
                    lemma_refs_grow_none(*t, file@, mid);
                }
                if t.is_kind(c, "base_clause") || t.is_kind(c, "class_interface_clause") {
                    push_supertypes(t, c, file, out);
                }
                proof {
                    let prev = php_clauses(*t, ch@.take(k as int));
                    let step = php_clauses(*t, ch@.take(k + 1)).skip(prev.len() as int);
                    assert(php_clauses(*t, ch@.take(k + 1)) =~= prev + step);
                    lemma_refs_grow_trans(*t, file@, before, mid, out@, prev, step);
                }
                k = k + 1;
            }
            assert(ch@.take(ch.len() as int) =~= ch@);
        }
        proof {
            assert(php_inherits_upto(*t, i + 1) == php_inherits_upto(*t, i as int) + php_inherit_at(*t, i as int));
            lemma_refs_grow_trans(*t, file@, old(out)@, before, out@, php_inherits_upto(*t, i as int), php_inherit_at(*t, i as int));
        }
        i = i + 1;
    }
}

/// The references of a PHP file, in order: calls, then supertypes, then
/// imports.
pub open spec fn php_refs(t: SyntaxTree) -> Seq<RefItem> {
    php_calls_upto(t, t.size()) + php_inherits_upto(t, t.size()) + php_imports_upto(t, t.size())
}

/// What `php_facts` states of the facts `r` it builds from tree `t` of
/// `source`, the text of `file`.
pub open spec fn php_facts_of(t: SyntaxTree, source: Seq<char>, file: Seq<char>, r: FileFacts) -> bool {
    &&& r.scopes@.len() == 0
    &&& r.bindings@.len() == 0
    &&& r.ffi_exports@.len() == 0
    &&& r.symbols@.len() >= 1
    &&& symbols_match(
        t,
        file,
        Language::Php,
        php_stops(),
        php_defs_in(t, 0, t.children_of(0), namespaces_text(php_namespaces_spec(t, file))),
        r.symbols@.drop_last(),
    )
    &&& module_symbol_spec(r.symbols@.last(), Language::Php, php_namespaces_spec(t, file), file, encode_utf8(source).len() as int)
    &&& refs_items(t, file, php_refs(t), r.references@)
}

/// The facts of a PHP file from its syntax tree: the definitions the walk
/// from the root finds, in order, then the file's module symbol; calls,
/// supertypes and imports, each in pre-order.
pub fn php_facts(t: &SyntaxTree, source: &str, file: &str) -> (r: FileFacts)
    requires
        t.wf(),
        t.bytes@ == encode_utf8(source@),
    ensures
        facts_wf(r, file@, source@, Language::Php),
        php_facts_of(*t, source@, file@, r),
{
    let len = source.len();
    let ns = php_namespaces(t, file);
    let mut symbols: Vec<Symbol> = Vec::new();
    collect_defs(t, 0, &ns, file, &mut symbols);
    proof {
        assert(symbols@.skip(0) =~= symbols@);
        assert(symbols_ok(Seq::<Symbol>::empty(), file@, t.bytes.len() as int));
    }
    let ghost defs = symbols@;
    symbols.push(module_symbol(Language::Php, &ns, file, len));
    assert(symbols@.drop_last() =~= defs);
    let mut refs: Vec<Reference> = Vec::new();
    let ghost r0 = refs@;
    collect_calls(t, file, &mut refs);
    let ghost r1 = refs@;
    collect_inheritance(t, file, &mut refs);
    let ghost r2 = refs@;
    collect_imports(t, file, &mut refs);
    proof {
        lemma_refs_grow_trans(*t, file@, r0, r1, r2, php_calls_upto(*t, t.size()), php_inherits_upto(*t, t.size()));
        lemma_refs_grow_trans(
            *t,
            file@,
            r0,
            r2,
            refs@,
            php_calls_upto(*t, t.size()) + php_inherits_upto(*t, t.size()),
            php_imports_upto(*t, t.size()),
        );
        assert(refs@.skip(0) =~= refs@);
        assert(refs_ok(Seq::<Reference>::empty(), file@, t.bytes.len() as int));
    }
    let scopes: Vec<crate::graph::Scope> = Vec::new();
    let ghost before = refs@;
    let refs = attach_reference_scopes(refs, &scopes);
    proof {
        lemma_refs_items_attached(*t, file@, php_refs(*t), before, refs@, scopes@);
    }
    FileFacts {
        file: file.to_owned(),
        lang: Language::Php.as_str().to_owned(),
        symbols,
        references: refs,
        scopes,
        bindings: Vec::new(),
        ffi_exports: Vec::new(),
    }
}

impl Extractor for PhpExtractor {
    open spec fn spec_lang(&self) -> Language {
        Language::Php
    }

    fn lang(&self) -> (r: Language) {
        Language::Php
    }

    fn extract(&self, source: &str, file: &str) -> (r: Result<FileFacts>)
        ensures
            r is Ok <==> super::parses(Grammar::Php, source@),
            r matches Ok(f) ==> super::extracted(Language::Php, source@, file@, f),
    {
        let t = super::parse_tree(Grammar::Php, source, file)?;
        let res: Result<FileFacts> = Ok(php_facts(&t, source, file));
        assert(super::parsed_by(t, Grammar::Php, source@) && php_facts_of(t, source@, file@, res->Ok_0));
        res
    }
}

/// A call of a node before `n` is among the calls of nodes `0..n`.
proof fn lemma_php_calls_upto_has(t: SyntaxTree, i: int, n: int, m: usize)
    requires
        0 <= i < n,
        php_call_at(t, i) == seq![(m as int, t.text_of(m as int), RefRole::Call)],
    ensures
        exists|k: int|
            0 <= k < php_calls_upto(t, n).len() && php_calls_upto(t, n)[k] == (m as int, t.text_of(m as int), RefRole::Call),
    decreases n,
{
    let prev = php_calls_upto(t, n - 1);
    if i < n - 1 {
        lemma_php_calls_upto_has(t, i, n - 1, m);
        let k = choose|k: int| 0 <= k < prev.len() && prev[k] == (m as int, t.text_of(m as int), RefRole::Call);
        assert(php_calls_upto(t, n)[k] == prev[k]);
    } else {
        assert(php_calls_upto(t, n)[prev.len() as int] == (m as int, t.text_of(m as int), RefRole::Call));
    }
}

/// Law: every function call whose `function` is a name, and every method
/// call whose `name` is a name, is a `Call` reference of the file, named by
/// that name and occurring where it starts.
pub proof fn law_php_calls_are_referenced(t: SyntaxTree, source: Seq<char>, file: Seq<char>, r: FileFacts, i: int, m: usize)
    requires
        php_facts_of(t, source, file, r),
        0 <= i < t.size(),
        (t.kind_of(i) == "function_call_expression"@ && t.field_child_of(i, "function"@) == Some(m))
            || (t.kind_of(i) == "member_call_expression"@ && t.field_child_of(i, "name"@) == Some(m)),
        t.kind_of(m as int) == "name"@,
    ensures
        exists|j: int|
            0 <= j < r.references.len() && (#[trigger] r.references@[j]).role == RefRole::Call
                && r.references@[j].name@ == t.text_of(m as int) && r.references@[j].occ.byte
                == t.nodes@[m as int].start,
{
    reveal_strlit("function_call_expression");
    reveal_strlit("member_call_expression");
    assert("function_call_expression"@ =~= seq!['f', 'u', 'n', 'c', 't', 'i', 'o', 'n', '_', 'c', 'a', 'l', 'l', '_', 'e', 'x', 'p', 'r', 'e', 's', 's', 'i', 'o', 'n']);
    assert("member_call_expression"@ =~= seq!['m', 'e', 'm', 'b', 'e', 'r', '_', 'c', 'a', 'l', 'l', '_', 'e', 'x', 'p', 'r', 'e', 's', 's', 'i', 'o', 'n']);
    assert(php_call_at(t, i) == seq![(m as int, t.text_of(m as int), RefRole::Call)]);
    lemma_php_calls_upto_has(t, i, t.size(), m);
    let calls = php_calls_upto(t, t.size());
    let k = choose|k: int| 0 <= k < calls.len() && calls[k] == (m as int, t.text_of(m as int), RefRole::Call);
    let refs = php_refs(t);
    assert(refs[k] == calls[k]);
    assert(super::support::ref_at(t, refs[k].0, file, refs[k].1, refs[k].2, r.references@[k]));
}

} // verus!
