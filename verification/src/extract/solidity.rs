//! Solidity: every declaration not marked `private` — contracts and
//! libraries (classes), interfaces, functions, constructors, modifiers,
//! fallback and receive functions, state variables and constants, events and
//! errors, structs with their members, enums with their values and user
//! types — qualified by the file's path (every directory kept); call,
//! inheritance and named-import references. No scopes or bindings are
//! recorded.

use vstd::prelude::*;
use vstd::utf8::*;
use crate::error::Result;
use crate::graph::{FileFacts, RefRole, Reference, Symbol, SymbolKind};
use crate::lang::Language;
use crate::symbol::{Descriptor, descriptor_text};
use crate::text::{
    chars_of, chars_eq, segments, simple_type_name, simple_name_of, split_nonempty, strings_of, strip_suffix_chars,
    strip_suffix_or_self, views, ws_tokens, has_word, starts_with_word, starts_with_word_spec,
};
use super::Extractor;
use super::tree::SyntaxTree;
use super::ts::Grammar;
use super::scope::attach_reference_scopes;
use super::support::{
    facts_wf, field_text, module_symbol, refs_ok, symbols_ok, symbols_match, module_symbol_spec, namespaces_text,
    method_text, type_text, term_text, types_text, Def, defs_grow, lemma_defs_grow_none, lemma_defs_grow_trans, strings_push,
    push_path_def, RefItem, refs_items, refs_grow, lemma_refs_grow_none, lemma_refs_grow_trans, push_ref_item,
    lemma_refs_items_attached,
};

verus! {

/// Extracts Solidity symbols and references.
pub struct SolidityExtractor;

/// The namespaces of a Solidity file: its path without `.sol`, split on `/`
/// into non-empty segments.
pub open spec fn solidity_namespaces_spec(file: Seq<char>) -> Seq<Seq<char>> {
    segments(strip_suffix_or_self(file, ".sol"@), '/')
}

/// Law: the namespaces of `<stem>.sol` are the `/`-separated segments of
/// `stem` (no directory is dropped).
pub proof fn law_solidity_namespaces(stem: Seq<char>)
    ensures
        solidity_namespaces_spec(stem + ".sol"@) == segments(stem, '/'),
{
    crate::text::lemma_strip_own_suffix(stem, ".sol"@);
}

/// The namespaces of a Solidity file.
pub fn solidity_namespaces(file: &str) -> (r: Vec<String>)
    ensures
        views(r@) == solidity_namespaces_spec(file@),
{
    let cs = chars_of(file);
    let p = strip_suffix_chars(&cs, ".sol");
    let parts = split_nonempty(&p, '/');
    strings_of(&parts)
}

/// A declaration is emitted unless its first `visibility` child reads
/// `private`.
pub open spec fn sol_visible(t: SyntaxTree, n: int) -> bool {
    match t.kind_child_of(n, "visibility"@) {
        Some(v) => t.text_of(v as int) != "private"@,
        None => true,
    }
}

/// Whether declaration `n` is emitted.
fn is_visible(t: &SyntaxTree, n: usize) -> (r: bool)
    requires
        t.wf(),
        n < t.size(),
    ensures
        r == sol_visible(*t, n as int),
{
    match t.child_of_kind(n, "visibility") {
        Some(v) => {
            let text = t.text(v);
            let cs = chars_of(text.as_str());
            !chars_eq(&cs, "private")
        },
        None => true,
    }
}

/// Where a Solidity signature stops.
pub open spec fn sol_stops() -> Seq<char> {
    seq!['{', ';']
}

/// The nodes among `cs` of kind `k`, in order.
pub open spec fn of_kind(t: SyntaxTree, cs: Seq<usize>, k: Seq<char>) -> Seq<usize>
    decreases cs.len(),
{
    if cs.len() == 0 {
        Seq::empty()
    } else {
        of_kind(t, cs.drop_last(), k) + if t.kind_of(cs.last() as int) == k {
            seq![cs.last()]
        } else {
            Seq::empty()
        }
    }
}

/// The children of kind `k` of the `body` field of `n`.
pub open spec fn sol_members(t: SyntaxTree, n: int, k: Seq<char>) -> Seq<usize> {
    match t.field_child_of(n, "body"@) {
        Some(b) => of_kind(t, t.children_of(b as int), k),
        None => Seq::empty(),
    }
}

/// The children of kind `kind` of the `body` field of `n`.
fn members_of(t: &SyntaxTree, n: usize, kind: &str) -> (r: Vec<usize>)
    requires
        t.wf(),
        n < t.size(),
    ensures
        r@ == sol_members(*t, n as int, kind@),
        forall|j: int| 0 <= j < r.len() ==> #[trigger] r@[j] < t.size(),
{
    let mut out: Vec<usize> = Vec::new();
    match t.field_child(n, "body") {
        Some(body) => {
            let ch = t.children(body);
            let mut k: usize = 0;
            assert(ch@.take(0) =~= Seq::<usize>::empty());
            while k < ch.len()
                invariant
                    t.wf(),
                    k <= ch.len(),
                    ch@ == t.children_of(body as int),
                    forall|j: int| 0 <= j < ch.len() ==> #[trigger] ch@[j] < t.size(),
                    forall|j: int| 0 <= j < out.len() ==> #[trigger] out@[j] < t.size(),
                    out@ == of_kind(*t, ch@.take(k as int), kind@),
                decreases ch.len() - k,
            {
                assert(ch@.take(k + 1).drop_last() =~= ch@.take(k as int));
                assert(ch@.take(k + 1).last() == ch@[k as int]);
                if t.is_kind(ch[k], kind) {
                    out.push(ch[k]);
                }
                assert(out@ =~= of_kind(*t, ch@.take(k + 1), kind@));
                k = k + 1;
            }
            assert(ch@.take(ch.len() as int) =~= ch@);
        },
        None => {},
    }
    out
}

/// The name of a fallback or receive function: whichever of the two words
/// its text starts with.
pub open spec fn sol_fallback_name(text: Seq<char>) -> Option<Seq<char>> {
    if starts_with_word_spec(text, "fallback"@) {
        Some("fallback"@)
    } else if starts_with_word_spec(text, "receive"@) {
        Some("receive"@)
    } else {
        None
    }
}

/// The kind a state variable defines: a constant when `immutable` or when
/// some word of it is `constant`, else a static.
pub open spec fn sol_state_kind(t: SyntaxTree, c: int) -> SymbolKind {
    if t.kind_child_of(c, "immutable"@) is Some || ws_tokens(t.text_of(c)).contains("constant"@) {
        SymbolKind::Const
    } else {
        SymbolKind::Static
    }
}

/// The member a struct member or enum value `m` names: a struct member's
/// `name`; an enum value's own text, unless empty.
pub open spec fn sol_member_name(t: SyntaxTree, m: int, is_struct: bool) -> Option<Seq<char>> {
    if is_struct {
        match t.field_child_of(m, "name"@) {
            Some(nm) => Some(t.text_of(nm as int)),
            None => None,
        }
    } else if t.text_of(m).len() == 0 {
        None
    } else {
        Some(t.text_of(m))
    }
}

/// The members `ms` of a struct or enum, at the path `here`.
pub open spec fn sol_member_defs(t: SyntaxTree, ms: Seq<usize>, here: Seq<char>, is_struct: bool) -> Seq<Def>
    decreases ms.len(),
{
    if ms.len() == 0 {
        Seq::empty()
    } else {
        let m = ms.last();
        sol_member_defs(t, ms.drop_last(), here, is_struct) + match sol_member_name(t, m as int, is_struct) {
            Some(n) => seq![
                (
                    m as int,
                    n,
                    if is_struct {
                        SymbolKind::Static
                    } else {
                        SymbolKind::Const
                    },
                    here + term_text(n),
                ),
            ],
            None => Seq::empty(),
        }
    }
}

/// The definitions among `cs`, children of `node`, inside the types
/// `types`; `inside` makes functions methods.
pub open spec fn sol_defs_in(t: SyntaxTree, node: int, cs: Seq<usize>, nst: Seq<char>, types: Seq<Seq<char>>, inside: bool) -> Seq<Def>
    decreases t.size() - node, cs.len(),
{
    if cs.len() == 0 {
        Seq::empty()
    } else {
        sol_defs_in(t, node, cs.drop_last(), nst, types, inside) + sol_defs_at(t, node, cs.last(), nst, types, inside)
    }
}

/// A single definition at node `c`, at the path `here`, named by its `name`
/// field.
pub open spec fn sol_named(t: SyntaxTree, c: int, kind: SymbolKind, here: Seq<char>, leaf: spec_fn(Seq<char>) -> Seq<char>) -> Seq<Def> {
    match t.field_child_of(c, "name"@) {
        Some(nm) => seq![(c, t.text_of(nm as int), kind, here + leaf(t.text_of(nm as int)))],
        None => Seq::empty(),
    }
}

/// The definitions child `c` of `node` makes: a named contract, library or
/// interface (then the definitions of its body, inside it); a visible
/// function; a constructor; a modifier; a fallback or receive function; a
/// state variable not marked `private`; a constant; an event or error; a
/// struct or enum with its members; a user-defined value type.
pub open spec fn sol_defs_at(t: SyntaxTree, node: int, c: usize, nst: Seq<char>, types: Seq<Seq<char>>, inside: bool) -> Seq<Def>
    decreases t.size() - node, 0nat,
{
    let k = t.kind_of(c as int);
    let here = nst + types_text(types);
    if k == "contract_declaration"@ || k == "library_declaration"@ || k == "interface_declaration"@ {
        let kind = if k == "interface_declaration"@ {
            SymbolKind::Interface
        } else {
            SymbolKind::Class
        };
        match t.field_child_of(c as int, "name"@) {
            Some(nm) => {
                let name = t.text_of(nm as int);
                seq![(c as int, name, kind, here + type_text(name))] + match t.field_child_of(c as int, "body"@) {
                    Some(b) => if node < b < t.size() {
                        sol_defs_in(t, b as int, t.children_of(b as int), nst, types.push(name), true)
                    } else {
                        Seq::empty()
                    },
                    None => Seq::empty(),
                }
            },
            None => Seq::empty(),
        }
    } else if k == "function_definition"@ {
        if sol_visible(t, c as int) {
            sol_named(
                t,
                c as int,
                if inside {
                    SymbolKind::Method
                } else {
                    SymbolKind::Function
                },
                here,
                |n: Seq<char>| method_text(n),
            )
        } else {
            Seq::empty()
        }
    } else if k == "constructor_definition"@ {
        seq![(c as int, "constructor"@, SymbolKind::Method, here + method_text("constructor"@))]
    } else if k == "modifier_definition"@ {
        sol_named(t, c as int, SymbolKind::Method, here, |n: Seq<char>| method_text(n))
    } else if k == "fallback_receive_definition"@ {
        match sol_fallback_name(t.text_of(c as int)) {
            Some(n) => seq![(c as int, n, SymbolKind::Method, here + method_text(n))],
            None => Seq::empty(),
        }
    } else if k == "state_variable_declaration"@ {
        let private = match t.field_child_of(c as int, "visibility"@) {
            Some(v) => t.text_of(v as int) == "private"@,
            None => false,
        };
        if !private {
            sol_named(t, c as int, sol_state_kind(t, c as int), here, |n: Seq<char>| term_text(n))
        } else {
            Seq::empty()
        }
    } else if k == "constant_variable_declaration"@ {
        sol_named(t, c as int, SymbolKind::Const, here, |n: Seq<char>| term_text(n))
    } else if k == "event_definition"@ || k == "error_declaration"@ {
        sol_named(t, c as int, SymbolKind::Other, here, |n: Seq<char>| term_text(n))
    } else if k == "struct_declaration"@ || k == "enum_declaration"@ {
        let is_struct = k == "struct_declaration"@;
        match t.field_child_of(c as int, "name"@) {
            Some(nm) => {
                let name = t.text_of(nm as int);
                seq![
                    (
                        c as int,
                        name,
                        if is_struct {
                            SymbolKind::Struct
                        } else {
                            SymbolKind::Enum
                        },
                        here + type_text(name),
                    ),
                ] + sol_member_defs(
                    t,
                    sol_members(
                        t,
                        c as int,
                        if is_struct {
                            "struct_member"@
                        } else {
                            "enum_value"@
                        },
                    ),
                    nst + types_text(types.push(name)),
                    is_struct,
                )
            },
            None => Seq::empty(),
        }
    } else if k == "user_defined_type_definition"@ {
        sol_named(t, c as int, SymbolKind::TypeAlias, here, |n: Seq<char>| type_text(n))
    } else {
        Seq::empty()
    }
}

/// The members `ms` of a struct or enum declared inside the types `types`.
fn push_members(t: &SyntaxTree, ms: &Vec<usize>, ns: &Vec<String>, types: &Vec<String>, is_struct: bool, file: &str, out: &mut Vec<Symbol>)
    requires
        t.wf(),
        forall|x: int| 0 <= x < ms.len() ==> #[trigger] ms@[x] < t.size(),
    ensures
        defs_grow(
            *t,
            file@,
            Language::Solidity,
            sol_stops(),
            old(out)@,
            final(out)@,
            sol_member_defs(*t, ms@, namespaces_text(views(ns@)) + types_text(views(types@)), is_struct),
        ),
{
    let ghost here = namespaces_text(views(ns@)) + types_text(views(types@));
    let stops = vec!['{', ';'];
    assert(stops@ =~= sol_stops());
    let mut j: usize = 0;
    assert(ms@.take(0) =~= Seq::<usize>::empty());
    proof {
        lemma_defs_grow_none(*t, file@, Language::Solidity, sol_stops(), out@);
    }
    while j < ms.len()
        invariant
            t.wf(),
            j <= ms.len(),
            stops@ == sol_stops(),
            here == namespaces_text(views(ns@)) + types_text(views(types@)),
            forall|x: int| 0 <= x < ms.len() ==> #[trigger] ms@[x] < t.size(),
            defs_grow(*t, file@, Language::Solidity, sol_stops(), old(out)@, out@, sol_member_defs(*t, ms@.take(j as int), here, is_struct)),
        decreases ms.len() - j,
    {
        let m = ms[j];
        let ghost mid = out@;
        proof {
            assert(ms@.take(j + 1).drop_last() =~= ms@.take(j as int));
            assert(ms@.take(j + 1).last() == m);
            lemma_defs_grow_none(*t, file@, Language::Solidity, sol_stops(), mid);
        }
        let member = if is_struct {
            field_text(t, m, "name")
        } else {
            let v = t.text(m);
            let vc = chars_of(v.as_str());
            if vc.len() == 0 {
                None
            } else {
                Some(v)
            }
        };
        assert(member is Some == sol_member_name(*t, m as int, is_struct) is Some);
        match member {
            Some(mname) => {
                assert(mname@ == sol_member_name(*t, m as int, is_struct)->0);
                let kind = if is_struct {
                    SymbolKind::Static
                } else {
                    SymbolKind::Const
                };
                let leaf = Descriptor::Term(mname.clone());
                assert(descriptor_text(leaf) =~= term_text(mname@));
                push_path_def(out, t, m, Language::Solidity, ns, types, leaf, mname, kind, file, &stops);
            },
            None => {},
        }
        proof {
            let prev = sol_member_defs(*t, ms@.take(j as int), here, is_struct);
            let step = sol_member_defs(*t, ms@.take(j + 1), here, is_struct).skip(prev.len() as int);
            assert(sol_member_defs(*t, ms@.take(j + 1), here, is_struct) =~= prev + step);
            lemma_defs_grow_trans(*t, file@, Language::Solidity, sol_stops(), old(out)@, mid, out@, prev, step);
        }
        j = j + 1;
    }
    assert(ms@.take(ms.len() as int) =~= ms@);
}

/// The definitions among the children of `container`, inside the types
/// `types`; `inside` makes functions methods. Contract, interface and
/// library bodies are descended into.
fn collect_decls(t: &SyntaxTree, container: usize, ns: &Vec<String>, types: &Vec<String>, inside: bool, file: &str, out: &mut Vec<Symbol>)
    requires
        t.wf(),
        container < t.size(),
    ensures
        defs_grow(
            *t,
            file@,
            Language::Solidity,
            sol_stops(),
            old(out)@,
            final(out)@,
            sol_defs_in(*t, container as int, t.children_of(container as int), namespaces_text(views(ns@)), views(types@), inside),
        ),
    decreases t.size() - container, 1nat,
{
    let ghost nst = namespaces_text(views(ns@));
    let ghost ts = views(types@);
    let ch = t.children(container);
    let mut k: usize = 0;
    assert(ch@.take(0) =~= Seq::<usize>::empty());
    proof {
        lemma_defs_grow_none(*t, file@, Language::Solidity, sol_stops(), out@);
    }
    while k < ch.len()
        invariant
            t.wf(),
            container < t.size(),
            k <= ch.len(),
            ch@ == t.children_of(container as int),
            nst == namespaces_text(views(ns@)),
            ts == views(types@),
            forall|j: int| 0 <= j < ch.len() ==> container < #[trigger] ch@[j] < t.size(),
            defs_grow(*t, file@, Language::Solidity, sol_stops(), old(out)@, out@, sol_defs_in(*t, container as int, ch@.take(k as int), nst, ts, inside)),
        decreases ch.len() - k,
    {
        let c = ch[k];
        let ghost mid = out@;
        proof {
            assert(ch@.take(k + 1).drop_last() =~= ch@.take(k as int));
            assert(ch@.take(k + 1).last() == c);
        }
        push_decl(t, container, c, ns, types, inside, file, out);
        proof {
            lemma_defs_grow_trans(
                *t,
                file@,
                Language::Solidity,
                sol_stops(),
                old(out)@,
                mid,
                out@,
                sol_defs_in(*t, container as int, ch@.take(k as int), nst, ts, inside),
                sol_defs_at(*t, container as int, c, nst, ts, inside),
            );
        }
        k = k + 1;
    }
    assert(ch@.take(ch.len() as int) =~= ch@);
}

/// A definition at node `c` named by its `name` field, with leaf `mk(name)`.
fn push_named(t: &SyntaxTree, c: usize, ns: &Vec<String>, types: &Vec<String>, kind: SymbolKind, leaf_kind: u8, file: &str, out: &mut Vec<Symbol>)
    requires
        t.wf(),
        c < t.size(),
        leaf_kind < 3,
    ensures
        defs_grow(
            *t,
            file@,
            Language::Solidity,
            sol_stops(),
            old(out)@,
            final(out)@,
            sol_named(
                *t,
                c as int,
                kind,
                namespaces_text(views(ns@)) + types_text(views(types@)),
                if leaf_kind == 0 {
                    |n: Seq<char>| method_text(n)
                } else if leaf_kind == 1 {
                    |n: Seq<char>| term_text(n)
                } else {
                    |n: Seq<char>| type_text(n)
                },
            ),
        ),
{
    let stops = vec!['{', ';'];
    assert(stops@ =~= sol_stops());
    proof {
        lemma_defs_grow_none(*t, file@, Language::Solidity, sol_stops(), out@);
    }
    match field_text(t, c, "name") {
        Some(name) => {
            let leaf = if leaf_kind == 0 {
                Descriptor::Method { name: name.clone(), disambiguator: String::new() }
            } else if leaf_kind == 1 {
                Descriptor::Term(name.clone())
            } else {
                Descriptor::Type(name.clone())
            };
            proof {
                if leaf_kind == 0 {
                    assert(descriptor_text(leaf) =~= method_text(name@));
                } else if leaf_kind == 1 {
                    assert(descriptor_text(leaf) =~= term_text(name@));
                } else {
                    assert(descriptor_text(leaf) =~= type_text(name@));
                }
            }
            push_path_def(out, t, c, Language::Solidity, ns, types, leaf, name, kind, file, &stops);
        },
        None => {},
    }
}

/// The definitions declaration `c`, a child of `node`, makes.
fn push_decl(t: &SyntaxTree, node: usize, c: usize, ns: &Vec<String>, types: &Vec<String>, inside: bool, file: &str, out: &mut Vec<Symbol>)
    requires
        t.wf(),
        node < c < t.size(),
    ensures
        defs_grow(
            *t,
            file@,
            Language::Solidity,
            sol_stops(),
            old(out)@,
            final(out)@,
            sol_defs_at(*t, node as int, c, namespaces_text(views(ns@)), views(types@), inside),
        ),
    decreases t.size() - node, 0nat,
{
    let ghost nst = namespaces_text(views(ns@));
    let ghost ts = views(types@);
    let stops = vec!['{', ';'];
    assert(stops@ =~= sol_stops());
    proof {
        lemma_defs_grow_none(*t, file@, Language::Solidity, sol_stops(), out@);
    }
    if t.is_kind(c, "contract_declaration") || t.is_kind(c, "library_declaration") || t.is_kind(c, "interface_declaration") {
        let kind = if t.is_kind(c, "interface_declaration") {
            SymbolKind::Interface
        } else {
            SymbolKind::Class
        };
        match field_text(t, c, "name") {
            Some(name) => {
                let ghost nm = name@;
                let inner = strings_push(types, &name);
                let leaf = Descriptor::Type(name.clone());
                assert(descriptor_text(leaf) =~= type_text(name@));
                push_path_def(out, t, c, Language::Solidity, ns, types, leaf, name, kind, file, &stops);
                let ghost one = out@;
                proof {
                    lemma_defs_grow_none(*t, file@, Language::Solidity, sol_stops(), one);
                }
                match t.field_child(c, "body") {
                    Some(body) => collect_decls(t, body, ns, &inner, true, file, out),
                    None => {},
                }
                proof {
                    let first = seq![(c as int, nm, kind, nst + types_text(ts) + type_text(nm))];
                    let rest = sol_defs_at(*t, node as int, c, nst, ts, inside).skip(1);
                    assert(sol_defs_at(*t, node as int, c, nst, ts, inside) =~= first + rest);
                    lemma_defs_grow_trans(*t, file@, Language::Solidity, sol_stops(), old(out)@, one, out@, first, rest);
                }
            },
            None => {},
        }
    } else if t.is_kind(c, "function_definition") {
        if is_visible(t, c) {
            let kind = if inside {
                SymbolKind::Method
            } else {
                SymbolKind::Function
            };
            push_named(t, c, ns, types, kind, 0, file, out);
        }
    } else if t.is_kind(c, "constructor_definition") {
        proof {
            reveal_strlit("constructor");
        }
        let leaf = Descriptor::Method { name: "constructor".to_owned(), disambiguator: String::new() };
        assert(descriptor_text(leaf) =~= method_text("constructor"@));
        push_path_def(out, t, c, Language::Solidity, ns, types, leaf, "constructor".to_owned(), SymbolKind::Method, file, &stops);
    } else if t.is_kind(c, "modifier_definition") {
        push_named(t, c, ns, types, SymbolKind::Method, 0, file, out);
    } else if t.is_kind(c, "fallback_receive_definition") {
        let text = t.text(c);
        proof {
            reveal_strlit("fallback");
            reveal_strlit("receive");
        }
        let name = if starts_with_word(&text, "fallback") {
            Some("fallback".to_owned())
        } else if starts_with_word(&text, "receive") {
            Some("receive".to_owned())
        } else {
            None
        };
        match name {
            Some(name) => {
                let leaf = Descriptor::Method { name: name.clone(), disambiguator: String::new() };
                assert(descriptor_text(leaf) =~= method_text(name@));
                push_path_def(out, t, c, Language::Solidity, ns, types, leaf, name, SymbolKind::Method, file, &stops);
            },
            None => {},
        }
    } else if t.is_kind(c, "state_variable_declaration") {
        let private = match t.field_child(c, "visibility") {
            Some(v) => {
                let vt = t.text(v);
                let cs = chars_of(vt.as_str());
                chars_eq(&cs, "private")
            },
            None => false,
        };
        if !private {
            let text = t.text(c);
            let constant = t.child_of_kind(c, "immutable").is_some() || has_word(&text, "constant");
            let kind = if constant {
                SymbolKind::Const
            } else {
                SymbolKind::Static
            };
            push_named(t, c, ns, types, kind, 1, file, out);
        }
    } else if t.is_kind(c, "constant_variable_declaration") {
        push_named(t, c, ns, types, SymbolKind::Const, 1, file, out);
    } else if t.is_kind(c, "event_definition") || t.is_kind(c, "error_declaration") {
        push_named(t, c, ns, types, SymbolKind::Other, 1, file, out);
    } else if t.is_kind(c, "struct_declaration") || t.is_kind(c, "enum_declaration") {
        let is_struct = t.is_kind(c, "struct_declaration");
        match field_text(t, c, "name") {
            Some(name) => {
                let ghost nm = name@;
                let inner = strings_push(types, &name);
                let kind = if is_struct {
                    SymbolKind::Struct
                } else {
                    SymbolKind::Enum
                };
                let leaf = Descriptor::Type(name.clone());
                assert(descriptor_text(leaf) =~= type_text(name@));
                push_path_def(out, t, c, Language::Solidity, ns, types, leaf, name, kind, file, &stops);
                let ghost one = out@;
                let ms = if is_struct {
                    members_of(t, c, "struct_member")
                } else {
                    members_of(t, c, "enum_value")
                };
                push_members(t, &ms, ns, &inner, is_struct, file, out);
                proof {
                    let first = seq![(c as int, nm, kind, nst + types_text(ts) + type_text(nm))];
                    let rest = sol_defs_at(*t, node as int, c, nst, ts, inside).skip(1);
                    assert(sol_defs_at(*t, node as int, c, nst, ts, inside) =~= first + rest);
                    lemma_defs_grow_trans(*t, file@, Language::Solidity, sol_stops(), old(out)@, one, out@, first, rest);
                }
            },
            None => {},
        }
    } else if t.is_kind(c, "user_defined_type_definition") {
        push_named(t, c, ns, types, SymbolKind::TypeAlias, 2, file, out);
    }
}

/// The calls the children `xs` of an `expression` make: a named identifier
/// (free call), or the identifier `property` of a named member expression
/// (member call).
pub open spec fn sol_callees(t: SyntaxTree, xs: Seq<usize>) -> Seq<RefItem>
    decreases xs.len(),
{
    if xs.len() == 0 {
        Seq::empty()
    } else {
        let x = xs.last();
        sol_callees(t, xs.drop_last()) + if t.nodes@[x as int].named {
            if t.kind_of(x as int) == "identifier"@ {
                seq![(x as int, t.text_of(x as int), RefRole::Call)]
            } else if t.kind_of(x as int) == "member_expression"@ {
                match t.field_child_of(x as int, "property"@) {
                    Some(p) => if t.kind_of(p as int) == "identifier"@ {
                        seq![(p as int, t.text_of(p as int), RefRole::Call)]
                    } else {
                        Seq::empty()
                    },
                    None => Seq::empty(),
                }
            } else {
                Seq::empty()
            }
        } else {
            Seq::empty()
        }
    }
}

/// The calls the named `expression` children among `es` make.
pub open spec fn sol_call_parts(t: SyntaxTree, es: Seq<usize>) -> Seq<RefItem>
    decreases es.len(),
{
    if es.len() == 0 {
        Seq::empty()
    } else {
        let e = es.last();
        sol_call_parts(t, es.drop_last()) + if t.nodes@[e as int].named && t.kind_of(e as int) == "expression"@ {
            sol_callees(t, t.children_of(e as int))
        } else {
            Seq::empty()
        }
    }
}

/// The calls node `i` makes.
pub open spec fn sol_call_at(t: SyntaxTree, i: int) -> Seq<RefItem> {
    if t.kind_of(i) == "call_expression"@ {
        sol_call_parts(t, t.children_of(i))
    } else {
        Seq::empty()
    }
}

/// The calls nodes `0..n` make, in pre-order.
pub open spec fn sol_calls_upto(t: SyntaxTree, n: int) -> Seq<RefItem>
    decreases n,
{
    if n <= 0 {
        Seq::empty()
    } else {
        sol_calls_upto(t, n - 1) + sol_call_at(t, n - 1)
    }
}

/// The callees among the children of expression `e`.
fn push_callees(t: &SyntaxTree, e: usize, file: &str, out: &mut Vec<Reference>)
    requires
        t.wf(),
        e < t.size(),
    ensures
        refs_grow(*t, file@, old(out)@, final(out)@, sol_callees(*t, t.children_of(e as int))),
{
    let xs = t.children(e);
    let mut m: usize = 0;
    assert(xs@.take(0) =~= Seq::<usize>::empty());
    proof {
        lemma_refs_grow_none(*t, file@, out@);
    }
    while m < xs.len()
        invariant
            t.wf(),
            m <= xs.len(),
            xs@ == t.children_of(e as int),
            forall|j: int| 0 <= j < xs.len() ==> #[trigger] xs@[j] < t.size(),
            refs_grow(*t, file@, old(out)@, out@, sol_callees(*t, xs@.take(m as int))),
        decreases xs.len() - m,
    {
        let x = xs[m];
        let ghost mid = out@;
        proof {
            assert(xs@.take(m + 1).drop_last() =~= xs@.take(m as int));
            assert(xs@.take(m + 1).last() == x);
            lemma_refs_grow_none(*t, file@, mid);
        }
        if t.nodes[x].named {
            if t.is_kind(x, "identifier") {
                push_ref_item(out, t.text(x), t, x, file, RefRole::Call);
            } else if t.is_kind(x, "member_expression") {
                match t.field_child(x, "property") {
                    Some(p) => {
                        if t.is_kind(p, "identifier") {
                            push_ref_item(out, t.text(p), t, p, file, RefRole::Call);
                        }
                    },
                    None => {},
                }
            }
        }
        proof {
            let prev = sol_callees(*t, xs@.take(m as int));
            let step = sol_callees(*t, xs@.take(m + 1)).skip(prev.len() as int);
            assert(sol_callees(*t, xs@.take(m + 1)) =~= prev + step);
            lemma_refs_grow_trans(*t, file@, old(out)@, mid, out@, prev, step);
        }
        m = m + 1;
    }
    assert(xs@.take(xs.len() as int) =~= xs@);
}

/// Call references: for every call, an identifier (free call) or the
/// `property` of a member expression (member call) inside an `expression`
/// child of the call.
fn collect_calls(t: &SyntaxTree, file: &str, out: &mut Vec<Reference>)
    requires
        t.wf(),
    ensures
        refs_grow(*t, file@, old(out)@, final(out)@, sol_calls_upto(*t, t.size())),
{
    let mut i: usize = 0;
    proof {
        lemma_refs_grow_none(*t, file@, out@);
    }
    while i < t.nodes.len()
        invariant
            t.wf(),
            i <= t.nodes.len(),
            refs_grow(*t, file@, old(out)@, out@, sol_calls_upto(*t, i as int)),
        decreases t.nodes.len() - i,
    {
        let ghost before = out@;
        proof {
            lemma_refs_grow_none(*t, file@, before);
        }
        if t.is_kind(i, "call_expression") {
            let es = t.children(i);
            let mut k: usize = 0;
            assert(es@.take(0) =~= Seq::<usize>::empty());
            while k < es.len()
                invariant
                    t.wf(),
                    k <= es.len(),
                    es@ == t.children_of(i as int),
                    forall|j: int| 0 <= j < es.len() ==> #[trigger] es@[j] < t.size(),
                    refs_grow(*t, file@, before, out@, sol_call_parts(*t, es@.take(k as int))),
                decreases es.len() - k,
            {
                let e = es[k];
                let ghost mid = out@;
                proof {
                    assert(es@.take(k + 1).drop_last() =~= es@.take(k as int));
                    assert(es@.take(k + 1).last() == e);
                    lemma_refs_grow_none(*t, file@, mid);
                }
                if t.nodes[e].named && t.is_kind(e, "expression") {
                    push_callees(t, e, file, out);
                }
                proof {
                    let prev = sol_call_parts(*t, es@.take(k as int));
                    let step = sol_call_parts(*t, es@.take(k + 1)).skip(prev.len() as int);
                    assert(sol_call_parts(*t, es@.take(k + 1)) =~= prev + step);
                    lemma_refs_grow_trans(*t, file@, before, mid, out@, prev, step);
                }
                k = k + 1;
            }
            assert(es@.take(es.len() as int) =~= es@);
        }
        proof {
            assert(sol_calls_upto(*t, i + 1) == sol_calls_upto(*t, i as int) + sol_call_at(*t, i as int));
            lemma_refs_grow_trans(*t, file@, old(out)@, before, out@, sol_calls_upto(*t, i as int), sol_call_at(*t, i as int));
        }
        i = i + 1;
    }
}

/// The ancestors the inheritance specifiers among `cs` name, by simple
/// name.
pub open spec fn sol_ancestors(t: SyntaxTree, cs: Seq<usize>) -> Seq<RefItem>
    decreases cs.len(),
{
    if cs.len() == 0 {
        Seq::empty()
    } else {
        let c = cs.last();
        sol_ancestors(t, cs.drop_last()) + if t.kind_of(c as int) == "inheritance_specifier"@ {
            match t.field_child_of(c as int, "ancestor"@) {
                Some(a) => seq![(a as int, simple_name_of(t.text_of(a as int), "."@), RefRole::IsImplementation)],
                None => Seq::empty(),
            }
        } else {
            Seq::empty()
        }
    }
}

/// The ancestors contract or interface `i` names.
pub open spec fn sol_inherit_at(t: SyntaxTree, i: int) -> Seq<RefItem> {
    if t.kind_of(i) == "contract_declaration"@ || t.kind_of(i) == "interface_declaration"@ {
        sol_ancestors(t, t.children_of(i))
    } else {
        Seq::empty()
    }
}

/// The ancestors nodes `0..n` name, in pre-order.
pub open spec fn sol_inherits_upto(t: SyntaxTree, n: int) -> Seq<RefItem>
    decreases n,
{
    if n <= 0 {
        Seq::empty()
    } else {
        sol_inherits_upto(t, n - 1) + sol_inherit_at(t, n - 1)
    }
}

/// `IsImplementation` references: the ancestor of each inheritance
/// specifier of every contract and interface, by simple name.
fn collect_inheritance(t: &SyntaxTree, file: &str, out: &mut Vec<Reference>)
    requires
        t.wf(),
    ensures
        refs_grow(*t, file@, old(out)@, final(out)@, sol_inherits_upto(*t, t.size())),
{
    let mut i: usize = 0;
    proof {
        lemma_refs_grow_none(*t, file@, out@);
    }
    while i < t.nodes.len()
        invariant
            t.wf(),
            i <= t.nodes.len(),
            refs_grow(*t, file@, old(out)@, out@, sol_inherits_upto(*t, i as int)),
        decreases t.nodes.len() - i,
    {
        let ghost before = out@;
        proof {
            lemma_refs_grow_none(*t, file@, before);
        }
        if t.is_kind(i, "contract_declaration") || t.is_kind(i, "interface_declaration") {
            let ch = t.children(i);
            let mut k: usize = 0;
            assert(ch@.take(0) =~= Seq::<usize>::empty());
            while k < ch.len()
                invariant
                    t.wf(),
                    k <= ch.len(),
                    ch@ == t.children_of(i as int),
                    forall|j: int| 0 <= j < ch.len() ==> #[trigger] ch@[j] < t.size(),
                    refs_grow(*t, file@, before, out@, sol_ancestors(*t, ch@.take(k as int))),
                decreases ch.len() - k,
            {
                let c = ch[k];
                let ghost mid = out@;
                proof {
                    assert(ch@.take(k + 1).drop_last() =~= ch@.take(k as int));
                    assert(ch@.take(k + 1).last() == c);
                    lemma_refs_grow_none(*t, file@, mid);
                }
                if t.is_kind(c, "inheritance_specifier") {
                    match t.field_child(c, "ancestor") {
                        Some(a) => {
                            let text = t.text(a);
                            push_ref_item(out, simple_type_name(text.as_str(), "."), t, a, file, RefRole::IsImplementation);
                        },
                        None => {},
                    }
                }
                proof {
                    let prev = sol_ancestors(*t, ch@.take(k as int));
                    let step = sol_ancestors(*t, ch@.take(k + 1)).skip(prev.len() as int);
                    assert(sol_ancestors(*t, ch@.take(k + 1)) =~= prev + step);
                    lemma_refs_grow_trans(*t, file@, before, mid, out@, prev, step);
                }
                k = k + 1;
            }
            assert(ch@.take(ch.len() as int) =~= ch@);
        }
        proof {
            assert(sol_inherits_upto(*t, i + 1) == sol_inherits_upto(*t, i as int) + sol_inherit_at(*t, i as int));
            lemma_refs_grow_trans(*t, file@, old(out)@, before, out@, sol_inherits_upto(*t, i as int), sol_inherit_at(*t, i as int));
        }
        i = i + 1;
    }
}

/// The names the children `cs` of an import directive import: each child
/// under field `import_name`.
pub open spec fn sol_import_names(t: SyntaxTree, cs: Seq<usize>) -> Seq<RefItem>
    decreases cs.len(),
{
    if cs.len() == 0 {
        Seq::empty()
    } else {
        let c = cs.last();
        sol_import_names(t, cs.drop_last()) + if t.field_of(c as int) == Some("import_name"@) {
            seq![(c as int, t.text_of(c as int), RefRole::Import)]
        } else {
            Seq::empty()
        }
    }
}

/// The names import directive `i` imports.
pub open spec fn sol_import_at(t: SyntaxTree, i: int) -> Seq<RefItem> {
    if t.kind_of(i) == "import_directive"@ {
        sol_import_names(t, t.children_of(i))
    } else {
        Seq::empty()
    }
}

/// The names nodes `0..n` import, in pre-order.
pub open spec fn sol_imports_upto(t: SyntaxTree, n: int) -> Seq<RefItem>
    decreases n,
{
    if n <= 0 {
        Seq::empty()
    } else {
        sol_imports_upto(t, n - 1) + sol_import_at(t, n - 1)
    }
}

/// `Import` references: each `import_name` of every import directive (an
/// alias is not the name; whole-file imports name nothing).
fn collect_imports(t: &SyntaxTree, file: &str, out: &mut Vec<Reference>)
    requires
        t.wf(),
    ensures
        refs_grow(*t, file@, old(out)@, final(out)@, sol_imports_upto(*t, t.size())),
{
    let mut i: usize = 0;
    proof {
        lemma_refs_grow_none(*t, file@, out@);
    }
    while i < t.nodes.len()
        invariant
            t.wf(),
            i <= t.nodes.len(),
            refs_grow(*t, file@, old(out)@, out@, sol_imports_upto(*t, i as int)),
        decreases t.nodes.len() - i,
    {
        let ghost before = out@;
        proof {
            lemma_refs_grow_none(*t, file@, before);
        }
        if t.is_kind(i, "import_directive") {
            let ch = t.children(i);
            let mut k: usize = 0;
            assert(ch@.take(0) =~= Seq::<usize>::empty());
            while k < ch.len()
                invariant
                    t.wf(),
                    k <= ch.len(),
                    ch@ == t.children_of(i as int),
                    forall|j: int| 0 <= j < ch.len() ==> #[trigger] ch@[j] < t.size(),
                    refs_grow(*t, file@, before, out@, sol_import_names(*t, ch@.take(k as int))),
                decreases ch.len() - k,
            {
                let c = ch[k];
                let ghost mid = out@;
                proof {
                    assert(ch@.take(k + 1).drop_last() =~= ch@.take(k as int));
                    assert(ch@.take(k + 1).last() == c);
                    lemma_refs_grow_none(*t, file@, mid);
                }
                if t.has_field(c, "import_name") {
                    push_ref_item(out, t.text(c), t, c, file, RefRole::Import);
                }
                proof {
                    let prev = sol_import_names(*t, ch@.take(k as int));
                    let step = sol_import_names(*t, ch@.take(k + 1)).skip(prev.len() as int);
                    assert(sol_import_names(*t, ch@.take(k + 1)) =~= prev + step);
                    lemma_refs_grow_trans(*t, file@, before, mid, out@, prev, step);
                }
                k = k + 1;
            }
            assert(ch@.take(ch.len() as int) =~= ch@);
        }
        proof {
            assert(sol_imports_upto(*t, i + 1) == sol_imports_upto(*t, i as int) + sol_import_at(*t, i as int));
            lemma_refs_grow_trans(*t, file@, old(out)@, before, out@, sol_imports_upto(*t, i as int), sol_import_at(*t, i as int));
        }
        i = i + 1;
    }
}

/// The references of a Solidity file, in order: calls, then ancestors, then
/// imports.
pub open spec fn sol_refs(t: SyntaxTree) -> Seq<RefItem> {
    sol_calls_upto(t, t.size()) + sol_inherits_upto(t, t.size()) + sol_imports_upto(t, t.size())
}

/// What `solidity_facts` states of the facts `r` it builds from tree `t` of
/// `source`, the text of `file`.
pub open spec fn solidity_facts_of(t: SyntaxTree, source: Seq<char>, file: Seq<char>, r: FileFacts) -> bool {
    &&& r.scopes@.len() == 0
    &&& r.bindings@.len() == 0
    &&& r.ffi_exports@.len() == 0
    &&& r.symbols@.len() >= 1
    &&& symbols_match(
        t,
        file,
        Language::Solidity,
        sol_stops(),
        sol_defs_in(t, 0, t.children_of(0), namespaces_text(solidity_namespaces_spec(file)), Seq::empty(), false),
        r.symbols@.drop_last(),
    )
    &&& module_symbol_spec(r.symbols@.last(), Language::Solidity, solidity_namespaces_spec(file), file, encode_utf8(source).len() as int)
    &&& refs_items(t, file, sol_refs(t), r.references@)
}

/// The facts of a Solidity file from its syntax tree: the declarations the
/// walk from the root finds, in order, then the file's module symbol; calls,
/// ancestors and imports, each in pre-order.
pub fn solidity_facts(t: &SyntaxTree, source: &str, file: &str) -> (r: FileFacts)
    requires
        t.wf(),
        t.bytes@ == encode_utf8(source@),
    ensures
        facts_wf(r, file@, source@, Language::Solidity),
        solidity_facts_of(*t, source@, file@, r),
{
    let len = source.len();
    let ns = solidity_namespaces(file);
    let types: Vec<String> = Vec::new();
    let mut symbols: Vec<Symbol> = Vec::new();
    collect_decls(t, 0, &ns, &types, false, file, &mut symbols);
    proof {
        assert(views(types@) =~= Seq::<Seq<char>>::empty());
        assert(symbols@.skip(0) =~= symbols@);
        assert(symbols_ok(Seq::<Symbol>::empty(), file@, t.bytes.len() as int));
    }
    let ghost defs = symbols@;
    symbols.push(module_symbol(Language::Solidity, &ns, file, len));
    assert(symbols@.drop_last() =~= defs);
    let mut refs: Vec<Reference> = Vec::new();
    let ghost r0 = refs@;
    collect_calls(t, file, &mut refs);
    let ghost r1 = refs@;
    collect_inheritance(t, file, &mut refs);
    let ghost r2 = refs@;
    collect_imports(t, file, &mut refs);
    proof {
        lemma_refs_grow_trans(*t, file@, r0, r1, r2, sol_calls_upto(*t, t.size()), sol_inherits_upto(*t, t.size()));
        lemma_refs_grow_trans(
            *t,
            file@,
            r0,
            r2,
            refs@,
            sol_calls_upto(*t, t.size()) + sol_inherits_upto(*t, t.size()),
            sol_imports_upto(*t, t.size()),
        );
        assert(refs@.skip(0) =~= refs@);
        assert(refs_ok(Seq::<Reference>::empty(), file@, t.bytes.len() as int));
    }
    let scopes: Vec<crate::graph::Scope> = Vec::new();
    let ghost before = refs@;
    let refs = attach_reference_scopes(refs, &scopes);
    proof {
        lemma_refs_items_attached(*t, file@, sol_refs(*t), before, refs@, scopes@);
    }
    FileFacts {
        file: file.to_owned(),
        lang: Language::Solidity.as_str().to_owned(),
        symbols,
        references: refs,
        scopes,
        bindings: Vec::new(),
        ffi_exports: Vec::new(),
    }
}

impl Extractor for SolidityExtractor {
    open spec fn spec_lang(&self) -> Language {
        Language::Solidity
    }

    fn lang(&self) -> (r: Language) {
        Language::Solidity
    }

    fn extract(&self, source: &str, file: &str) -> (r: Result<FileFacts>)
        ensures
            r is Ok <==> super::parses(Grammar::Solidity, source@),
            r matches Ok(f) ==> super::extracted(Language::Solidity, source@, file@, f),
    {
        let t = super::parse_tree(Grammar::Solidity, source, file)?;
        let res: Result<FileFacts> = Ok(solidity_facts(&t, source, file));
        assert(super::parsed_by(t, Grammar::Solidity, source@) && solidity_facts_of(t, source@, file@, res->Ok_0));
        res
    }
}

/// A callee among the children `xs` of an expression is among the calls
/// `sol_callees` makes.
proof fn lemma_sol_callees_has(t: SyntaxTree, xs: Seq<usize>, x: usize, m: usize)
    requires
        xs.contains(x),
        t.nodes@[x as int].named,
        (t.kind_of(x as int) == "identifier"@ && x == m) || (t.kind_of(x as int) == "member_expression"@
            && t.field_child_of(x as int, "property"@) == Some(m) && t.kind_of(m as int) == "identifier"@),
    ensures
        sol_callees(t, xs).contains((m as int, t.text_of(m as int), RefRole::Call)),
    decreases xs.len(),
{
    reveal_strlit("identifier");
    reveal_strlit("member_expression");
    assert("identifier"@ =~= seq!['i', 'd', 'e', 'n', 't', 'i', 'f', 'i', 'e', 'r']);
    assert("member_expression"@ =~= seq!['m', 'e', 'm', 'b', 'e', 'r', '_', 'e', 'x', 'p', 'r', 'e', 's', 's', 'i', 'o', 'n']);
    let prev = sol_callees(t, xs.drop_last());
    let all = sol_callees(t, xs);
    if xs.last() == x {
        assert(all[prev.len() as int] == (m as int, t.text_of(m as int), RefRole::Call));
    } else {
        let k = choose|k: int| 0 <= k < xs.len() && xs[k] == x;
        assert(xs.drop_last()[k] == x);
        lemma_sol_callees_has(t, xs.drop_last(), x, m);
        let j = choose|j: int| 0 <= j < prev.len() && prev[j] == (m as int, t.text_of(m as int), RefRole::Call);
        assert(all[j] == (m as int, t.text_of(m as int), RefRole::Call));
    }
}

/// A callee inside a named `expression` child among `es` is among the calls
/// `sol_call_parts` makes.
proof fn lemma_sol_parts_has(t: SyntaxTree, es: Seq<usize>, e: usize, m: usize)
    requires
        es.contains(e),
        t.nodes@[e as int].named,
        t.kind_of(e as int) == "expression"@,
        sol_callees(t, t.children_of(e as int)).contains((m as int, t.text_of(m as int), RefRole::Call)),
    ensures
        sol_call_parts(t, es).contains((m as int, t.text_of(m as int), RefRole::Call)),
    decreases es.len(),
{
    let prev = sol_call_parts(t, es.drop_last());
    let all = sol_call_parts(t, es);
    if es.last() == e {
        let cs = sol_callees(t, t.children_of(e as int));
        assert(all =~= prev + cs);
        let j = choose|j: int| 0 <= j < cs.len() && cs[j] == (m as int, t.text_of(m as int), RefRole::Call);
        assert(all[prev.len() + j] == (m as int, t.text_of(m as int), RefRole::Call));
    } else {
        let k = choose|k: int| 0 <= k < es.len() && es[k] == e;
        assert(es.drop_last()[k] == e);
        lemma_sol_parts_has(t, es.drop_last(), e, m);
        let j = choose|j: int| 0 <= j < prev.len() && prev[j] == (m as int, t.text_of(m as int), RefRole::Call);
        assert(all[j] == (m as int, t.text_of(m as int), RefRole::Call));
    }
}

/// A call of a node before `n` is among the calls of nodes `0..n`.
proof fn lemma_sol_calls_upto_has(t: SyntaxTree, i: int, n: int, m: usize)
    requires
        0 <= i < n,
        sol_call_at(t, i).contains((m as int, t.text_of(m as int), RefRole::Call)),
    ensures
        sol_calls_upto(t, n).contains((m as int, t.text_of(m as int), RefRole::Call)),
    decreases n,
{
    let prev = sol_calls_upto(t, n - 1);
    if i < n - 1 {
        lemma_sol_calls_upto_has(t, i, n - 1, m);
        let k = choose|k: int| 0 <= k < prev.len() && prev[k] == (m as int, t.text_of(m as int), RefRole::Call);
        assert(sol_calls_upto(t, n)[k] == (m as int, t.text_of(m as int), RefRole::Call));
    } else {
        let k = choose|k: int| 0 <= k < sol_call_at(t, i).len() && sol_call_at(t, i)[k] == (m as int, t.text_of(m as int), RefRole::Call);
        assert(sol_calls_upto(t, n)[prev.len() + k] == (m as int, t.text_of(m as int), RefRole::Call));
    }
}

/// Law: in every call expression, the callee inside each named `expression`
/// child (an identifier, or the identifier property of a member expression)
/// is a `Call` reference of the file, named by the identifier and occurring
/// where it starts.
pub proof fn law_solidity_calls_are_referenced(
    t: SyntaxTree,
    source: Seq<char>,
    file: Seq<char>,
    r: FileFacts,
    i: int,
    e: usize,
    x: usize,
    m: usize,
)
    requires
        solidity_facts_of(t, source, file, r),
        0 <= i < t.size(),
        t.kind_of(i) == "call_expression"@,
        t.children_of(i).contains(e),
        t.nodes@[e as int].named,
        t.kind_of(e as int) == "expression"@,
        t.children_of(e as int).contains(x),
        t.nodes@[x as int].named,
        (t.kind_of(x as int) == "identifier"@ && x == m) || (t.kind_of(x as int) == "member_expression"@
            && t.field_child_of(x as int, "property"@) == Some(m) && t.kind_of(m as int) == "identifier"@),
    ensures
        exists|j: int|
            0 <= j < r.references.len() && (#[trigger] r.references@[j]).role == RefRole::Call
                && r.references@[j].name@ == t.text_of(m as int) && r.references@[j].occ.byte
                == t.nodes@[m as int].start,
{
    lemma_sol_callees_has(t, t.children_of(e as int), x, m);
    lemma_sol_parts_has(t, t.children_of(i), e, m);
    lemma_sol_calls_upto_has(t, i, t.size(), m);
    let calls = sol_calls_upto(t, t.size());
    let k = choose|k: int| 0 <= k < calls.len() && calls[k] == (m as int, t.text_of(m as int), RefRole::Call);
    let refs = sol_refs(t);
    assert(refs[k] == calls[k]);
    assert(super::support::ref_at(t, refs[k].0, file, refs[k].1, refs[k].2, r.references@[k]));
}

} // verus!
