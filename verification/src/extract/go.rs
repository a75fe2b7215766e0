//! Go: top-level exported declarations (`func`, methods, `type`, `const`,
//! `var`) qualified by the package path of the file; call and import
//! references; function- and block-level scopes with parameter and local
//! bindings.

use vstd::prelude::*;
use vstd::utf8::*;
use crate::error::Result;
use crate::graph::{Binding, BindingKind, ByteSpan, FileFacts, RefRole, Reference, Scope, ScopeId, ScopeKind, Symbol, SymbolKind};
use crate::lang::{Language};
use crate::symbol::{Descriptor, descriptor_text};
use crate::text::{
    chars_of, char_is_uppercase, is_uppercase, segments, simple_type_name, simple_name_of, split_nonempty, str_eq,
    string_from_chars, strings_of, strip_prefix_chars, strip_prefix_or_self, strip_suffix_chars, strip_suffix_or_self,
    trim_char, trim_char_spec, views,
};
use super::Extractor;
use super::tree::SyntaxTree;
use super::ts::Grammar;
use super::scope::{
    attach_reference_scopes, definition_bindings, import_bindings, imports_of, innermost_scope, innermost_spec,
    lemma_binding_scope_bound, lemma_innermost_unique, lemma_scopes_extend_refl, lemma_scopes_extend_trans,
    lemma_scopes_extend_wf, push_scope, root_scopes, root_scope, scope_tree_wf, scopes_extend, LocalItem, locals_match,
    locals_grow, lemma_locals_grow_none, lemma_locals_grow_trans, push_local_item, def_bindings_of, import_bindings_of,
};
use super::support::{
    append_bindings, bindings_ok, facts_wf, field_text, module_symbol, refs_ok, symbols_ok, symbols_match,
    module_symbol_spec, namespaces_text, method_text, type_text, term_text, Def, defs_grow, lemma_defs_grow_none,
    lemma_defs_grow_trans, push_ns_def, RefItem, refs_items, refs_grow, lemma_refs_grow_none, lemma_refs_grow_trans,
    push_ref_item, lemma_refs_items_attached,
};

verus! {

/// Extracts Go symbols and references.
pub struct GoExtractor;

/// The package path of a Go file: the path without `.go` and a leading
/// `src/`, split on `/` into its non-empty segments.
pub open spec fn go_namespaces_spec(file: Seq<char>) -> Seq<Seq<char>> {
    segments(strip_prefix_or_self(strip_suffix_or_self(file, ".go"@), "src/"@), '/')
}

/// Law: the package path of `src/<stem>.go`, and of `<stem>.go` when
/// `stem` does not start with `src/`, is the `/`-separated segments of
/// `stem`.
pub proof fn law_go_package_path(stem: Seq<char>)
    ensures
        go_namespaces_spec("src/"@ + stem + ".go"@) == segments(stem, '/'),
        !crate::text::has_prefix(stem, "src/"@) ==> go_namespaces_spec(stem + ".go"@) == segments(stem, '/'),
{
    crate::text::lemma_strip_own_suffix("src/"@ + stem, ".go"@);
    crate::text::lemma_strip_own_prefix("src/"@, stem);
    crate::text::lemma_strip_own_suffix(stem, ".go"@);
}

/// The package path (namespace descriptors) of a Go file.
pub fn go_namespaces(file: &str) -> (r: Vec<String>)
    ensures
        views(r@) == go_namespaces_spec(file@),
{
    let cs = chars_of(file);
    let a = strip_suffix_chars(&cs, ".go");
    let b = strip_prefix_chars(&a, "src/");
    let parts = split_nonempty(&b, '/');
    strings_of(&parts)
}

/// A Go identifier is exported when its first character is uppercase.
pub open spec fn is_exported_spec(name: Seq<char>) -> bool {
    name.len() > 0 && char_is_uppercase(name[0])
}

/// Whether a Go identifier is exported.
pub fn is_exported(name: &str) -> (r: bool)
    ensures
        r == is_exported_spec(name@),
{
    let cs = chars_of(name);
    cs.len() > 0 && is_uppercase(cs[0])
}

/// The Go-specific promise on definitions: every one but the module symbol
/// is exported.
pub open spec fn go_defs_exported(syms: Seq<Symbol>) -> bool {
    forall|i: int| 0 <= i < syms.len() ==> is_exported_spec((#[trigger] syms[i]).name@)
}

/// Where a Go signature stops.
pub open spec fn go_stops() -> Seq<char> {
    seq!['{']
}

/// The kind a type spec `sp` defines: an alias, a struct, an interface, or
/// (any other type) an alias.
pub open spec fn go_type_kind(t: SyntaxTree, sp: int) -> SymbolKind {
    if t.kind_of(sp) == "type_alias"@ {
        SymbolKind::TypeAlias
    } else {
        match t.field_child_of(sp, "type"@) {
            Some(ty) => if t.kind_of(ty as int) == "struct_type"@ {
                SymbolKind::Struct
            } else if t.kind_of(ty as int) == "interface_type"@ {
                SymbolKind::Interface
            } else {
                SymbolKind::TypeAlias
            },
            None => SymbolKind::TypeAlias,
        }
    }
}

/// The exported types the specs `sps` of a type declaration define.
pub open spec fn go_type_specs(t: SyntaxTree, sps: Seq<usize>, nst: Seq<char>) -> Seq<Def>
    decreases sps.len(),
{
    if sps.len() == 0 {
        Seq::empty()
    } else {
        let sp = sps.last();
        go_type_specs(t, sps.drop_last(), nst) + if t.kind_of(sp as int) == "type_spec"@ || t.kind_of(sp as int)
            == "type_alias"@ {
            match t.field_child_of(sp as int, "name"@) {
                Some(nm) => if is_exported_spec(t.text_of(nm as int)) {
                    seq![(sp as int, t.text_of(nm as int), go_type_kind(t, sp as int), nst + type_text(t.text_of(nm as int)))]
                } else {
                    Seq::empty()
                },
                None => Seq::empty(),
            }
        } else {
            Seq::empty()
        }
    }
}

/// The exported names the identifiers `ids` of spec `sp` declare.
pub open spec fn go_value_ids(t: SyntaxTree, sp: int, ids: Seq<usize>, nst: Seq<char>, is_const: bool) -> Seq<Def>
    decreases ids.len(),
{
    if ids.len() == 0 {
        Seq::empty()
    } else {
        let id = ids.last();
        go_value_ids(t, sp, ids.drop_last(), nst, is_const) + if t.kind_of(id as int) == "identifier"@ && is_exported_spec(
            t.text_of(id as int),
        ) {
            seq![
                (
                    sp,
                    t.text_of(id as int),
                    if is_const {
                        SymbolKind::Const
                    } else {
                        SymbolKind::Static
                    },
                    nst + term_text(t.text_of(id as int)),
                ),
            ]
        } else {
            Seq::empty()
        }
    }
}

/// The exported names the specs `sps` of a `const` or `var` declaration
/// declare.
pub open spec fn go_value_specs(t: SyntaxTree, sps: Seq<usize>, nst: Seq<char>, is_const: bool) -> Seq<Def>
    decreases sps.len(),
{
    if sps.len() == 0 {
        Seq::empty()
    } else {
        let sp = sps.last();
        go_value_specs(t, sps.drop_last(), nst, is_const) + if (is_const && t.kind_of(sp as int) == "const_spec"@) || (
        !is_const && t.kind_of(sp as int) == "var_spec"@) {
            go_value_ids(t, sp as int, t.children_of(sp as int), nst, is_const)
        } else {
            Seq::empty()
        }
    }
}

/// The exported definitions top-level node `c` makes: a function or method,
/// the types of a type declaration, the names of a `const` or `var`
/// declaration.
pub open spec fn go_defs_at(t: SyntaxTree, c: int, nst: Seq<char>) -> Seq<Def> {
    let k = t.kind_of(c);
    if k == "function_declaration"@ || k == "method_declaration"@ {
        match t.field_child_of(c, "name"@) {
            Some(nm) => if is_exported_spec(t.text_of(nm as int)) {
                seq![
                    (
                        c,
                        t.text_of(nm as int),
                        if k == "function_declaration"@ {
                            SymbolKind::Function
                        } else {
                            SymbolKind::Method
                        },
                        nst + method_text(t.text_of(nm as int)),
                    ),
                ]
            } else {
                Seq::empty()
            },
            None => Seq::empty(),
        }
    } else if k == "type_declaration"@ {
        go_type_specs(t, t.children_of(c), nst)
    } else if k == "const_declaration"@ || k == "var_declaration"@ {
        go_value_specs(t, t.children_of(c), nst, k == "const_declaration"@)
    } else {
        Seq::empty()
    }
}

/// The exported definitions the top-level nodes `cs` make, in order.
pub open spec fn go_defs_in(t: SyntaxTree, cs: Seq<usize>, nst: Seq<char>) -> Seq<Def>
    decreases cs.len(),
{
    if cs.len() == 0 {
        Seq::empty()
    } else {
        go_defs_in(t, cs.drop_last(), nst) + go_defs_at(t, cs.last() as int, nst)
    }
}

/// The first definition a child makes is among the definitions of any list
/// of children that holds it.
proof fn lemma_go_defs_in_has(t: SyntaxTree, cs: Seq<usize>, nst: Seq<char>, k: int)
    requires
        0 <= k < cs.len(),
        go_defs_at(t, cs[k] as int, nst).len() > 0,
    ensures
        go_defs_in(t, cs, nst).contains(go_defs_at(t, cs[k] as int, nst)[0]),
    decreases cs.len(),
{
    let d = go_defs_at(t, cs[k] as int, nst)[0];
    let prev = go_defs_in(t, cs.drop_last(), nst);
    if k < cs.len() - 1 {
        assert(cs.drop_last()[k] == cs[k]);
        lemma_go_defs_in_has(t, cs.drop_last(), nst, k);
        let j = choose|j: int| 0 <= j < prev.len() && prev[j] == d;
        assert(go_defs_in(t, cs, nst)[j] == d);
    } else {
        assert(go_defs_in(t, cs, nst)[prev.len() as int] == d);
    }
}

/// Law: every top-level function whose name starts with an upper-case
/// letter is a `Function` symbol of the file, named by the function, whose
/// SCIP path is the package path (each segment, then `/`) followed by the
/// name and `().`.
pub proof fn law_go_exported_function_symbol(t: SyntaxTree, source: Seq<char>, file: Seq<char>, f: FileFacts, k: int, nm: usize)
    requires
        go_facts_of(t, source, file, f),
        0 <= k < t.children_of(0).len(),
        t.kind_of(t.children_of(0)[k] as int) == "function_declaration"@,
        t.field_child_of(t.children_of(0)[k] as int, "name"@) == Some(nm),
        t.text_of(nm as int).len() > 0,
        char_is_uppercase(t.text_of(nm as int)[0]),
    ensures
        exists|j: int|
            0 <= j < f.symbols.len() && (#[trigger] f.symbols@[j]).kind == SymbolKind::Function && f.symbols@[j].name@
                == t.text_of(nm as int) && crate::symbol::descriptors_text(f.symbols@[j].id.descriptors@)
                == namespaces_text(go_namespaces_spec(file)) + method_text(t.text_of(nm as int)),
{
    let cs = t.children_of(0);
    let nst = namespaces_text(go_namespaces_spec(file));
    let d = go_defs_at(t, cs[k] as int, nst)[0];
    assert(d == (cs[k] as int, t.text_of(nm as int), SymbolKind::Function, nst + method_text(t.text_of(nm as int))));
    lemma_go_defs_in_has(t, cs, nst, k);
    let defs = go_defs_in(t, cs, nst);
    let j = choose|j: int| 0 <= j < defs.len() && defs[j] == d;
    let syms = f.symbols@.drop_last();
    assert(super::support::symbol_at(t, defs[j].0, file, Language::Go, defs[j].3, defs[j].1, defs[j].2, go_stops(), syms[j]));
    assert(syms[j] == f.symbols@[j]);
}

/// What Go definitions add: their symbols, all exported.
pub open spec fn go_grows(t: SyntaxTree, file: Seq<char>, old: Seq<Symbol>, new: Seq<Symbol>, defs: Seq<Def>) -> bool {
    &&& defs_grow(t, file, Language::Go, go_stops(), old, new, defs)
    &&& (go_defs_exported(old) ==> go_defs_exported(new))
}

proof fn lemma_go_grows_none(t: SyntaxTree, file: Seq<char>, s: Seq<Symbol>)
    ensures
        go_grows(t, file, s, s, Seq::empty()),
{
    lemma_defs_grow_none(t, file, Language::Go, go_stops(), s);
}

proof fn lemma_go_grows_trans(t: SyntaxTree, file: Seq<char>, a: Seq<Symbol>, b: Seq<Symbol>, c: Seq<Symbol>, d1: Seq<Def>, d2: Seq<Def>)
    requires
        go_grows(t, file, a, b, d1),
        go_grows(t, file, b, c, d2),
    ensures
        go_grows(t, file, a, c, d1 + d2),
{
    lemma_defs_grow_trans(t, file, Language::Go, go_stops(), a, b, c, d1, d2);
}

/// Push the exported definition node `n` makes.
fn push_def(out: &mut Vec<Symbol>, t: &SyntaxTree, n: usize, ns: &Vec<String>, leaf: Descriptor, name: String, kind: SymbolKind, file: &str)
    requires
        t.wf(),
        n < t.size(),
        is_exported_spec(name@),
    ensures
        go_grows(*t, file@, old(out)@, final(out)@, seq![(n as int, name@, kind, namespaces_text(views(ns@)) + descriptor_text(leaf))]),
{
    let stops = vec!['{'];
    assert(stops@ =~= go_stops());
    let ghost nm = name@;
    push_ns_def(out, t, n, Language::Go, ns, leaf, name, kind, file, &stops);
    proof {
        assert(out@.skip(old(out)@.len() as int)[0] == out@[old(out)@.len() as int]);
        assert(out@[old(out)@.len() as int].name@ == nm);
        if go_defs_exported(old(out)@) {
            assert forall|i: int| 0 <= i < out@.len() implies is_exported_spec((#[trigger] out@[i]).name@) by {
                if i < old(out)@.len() {
                    assert(out@[i] == out@.take(old(out)@.len() as int)[i]);
                }
            }
        }
    }
}

/// The exported types of type declaration `c`.
fn push_type_specs(t: &SyntaxTree, c: usize, ns: &Vec<String>, file: &str, out: &mut Vec<Symbol>)
    requires
        t.wf(),
        c < t.size(),
    ensures
        go_grows(*t, file@, old(out)@, final(out)@, go_type_specs(*t, t.children_of(c as int), namespaces_text(views(ns@)))),
{
    let ghost nst = namespaces_text(views(ns@));
    let specs = t.children(c);
    let mut j: usize = 0;
    assert(specs@.take(0) =~= Seq::<usize>::empty());
    proof {
        lemma_go_grows_none(*t, file@, out@);
    }
    while j < specs.len()
        invariant
            t.wf(),
            j <= specs.len(),
            specs@ == t.children_of(c as int),
            nst == namespaces_text(views(ns@)),
            forall|x: int| 0 <= x < specs.len() ==> #[trigger] specs@[x] < t.size(),
            go_grows(*t, file@, old(out)@, out@, go_type_specs(*t, specs@.take(j as int), nst)),
        decreases specs.len() - j,
    {
        let sp = specs[j];
        let ghost mid = out@;
        proof {
            assert(specs@.take(j + 1).drop_last() =~= specs@.take(j as int));
            assert(specs@.take(j + 1).last() == sp);
            lemma_go_grows_none(*t, file@, mid);
        }
        if t.is_kind(sp, "type_spec") || t.is_kind(sp, "type_alias") {
            match field_text(t, sp, "name") {
                Some(name) => {
                    if is_exported(name.as_str()) {
                        let kind = if t.is_kind(sp, "type_alias") {
                            SymbolKind::TypeAlias
                        } else {
                            match t.field_child(sp, "type") {
                                Some(ty) => {
                                    if t.is_kind(ty, "struct_type") {
                                        SymbolKind::Struct
                                    } else if t.is_kind(ty, "interface_type") {
                                        SymbolKind::Interface
                                    } else {
                                        SymbolKind::TypeAlias
                                    }
                                },
                                None => SymbolKind::TypeAlias,
                            }
                        };
                        assert(kind == go_type_kind(*t, sp as int));
                        let leaf = Descriptor::Type(name.clone());
                        assert(descriptor_text(leaf) =~= type_text(name@));
                        push_def(out, t, sp, ns, leaf, name, kind, file);
                    }
                },
                None => {},
            }
        }
        proof {
            let prev = go_type_specs(*t, specs@.take(j as int), nst);
            let step = go_type_specs(*t, specs@.take(j + 1), nst).skip(prev.len() as int);
            assert(go_type_specs(*t, specs@.take(j + 1), nst) =~= prev + step);
            lemma_go_grows_trans(*t, file@, old(out)@, mid, out@, prev, step);
        }
        j = j + 1;
    }
    assert(specs@.take(specs.len() as int) =~= specs@);
}

/// The exported names the identifiers of spec `sp` declare.
fn push_value_ids(t: &SyntaxTree, sp: usize, ns: &Vec<String>, is_const: bool, file: &str, out: &mut Vec<Symbol>)
    requires
        t.wf(),
        sp < t.size(),
    ensures
        go_grows(
            *t,
            file@,
            old(out)@,
            final(out)@,
            go_value_ids(*t, sp as int, t.children_of(sp as int), namespaces_text(views(ns@)), is_const),
        ),
{
    let ghost nst = namespaces_text(views(ns@));
    let ids = t.children(sp);
    let mut m: usize = 0;
    assert(ids@.take(0) =~= Seq::<usize>::empty());
    proof {
        lemma_go_grows_none(*t, file@, out@);
    }
    while m < ids.len()
        invariant
            t.wf(),
            sp < t.size(),
            m <= ids.len(),
            ids@ == t.children_of(sp as int),
            nst == namespaces_text(views(ns@)),
            forall|x: int| 0 <= x < ids.len() ==> #[trigger] ids@[x] < t.size(),
            go_grows(*t, file@, old(out)@, out@, go_value_ids(*t, sp as int, ids@.take(m as int), nst, is_const)),
        decreases ids.len() - m,
    {
        let id = ids[m];
        let ghost mid = out@;
        proof {
            assert(ids@.take(m + 1).drop_last() =~= ids@.take(m as int));
            assert(ids@.take(m + 1).last() == id);
            lemma_go_grows_none(*t, file@, mid);
        }
        if t.is_kind(id, "identifier") {
            let name = t.text(id);
            if is_exported(name.as_str()) {
                let kind = if is_const {
                    SymbolKind::Const
                } else {
                    SymbolKind::Static
                };
                let leaf = Descriptor::Term(name.clone());
                assert(descriptor_text(leaf) =~= term_text(name@));
                push_def(out, t, sp, ns, leaf, name, kind, file);
            }
        }
        proof {
            let prev = go_value_ids(*t, sp as int, ids@.take(m as int), nst, is_const);
            let step = go_value_ids(*t, sp as int, ids@.take(m + 1), nst, is_const).skip(prev.len() as int);
            assert(go_value_ids(*t, sp as int, ids@.take(m + 1), nst, is_const) =~= prev + step);
            lemma_go_grows_trans(*t, file@, old(out)@, mid, out@, prev, step);
        }
        m = m + 1;
    }
    assert(ids@.take(ids.len() as int) =~= ids@);
}

/// The exported names of `const` or `var` declaration `c`.
fn push_value_specs(t: &SyntaxTree, c: usize, ns: &Vec<String>, is_const: bool, file: &str, out: &mut Vec<Symbol>)
    requires
        t.wf(),
        c < t.size(),
    ensures
        go_grows(*t, file@, old(out)@, final(out)@, go_value_specs(*t, t.children_of(c as int), namespaces_text(views(ns@)), is_const)),
{
    let ghost nst = namespaces_text(views(ns@));
    let specs = t.children(c);
    let mut j: usize = 0;
    assert(specs@.take(0) =~= Seq::<usize>::empty());
    proof {
        lemma_go_grows_none(*t, file@, out@);
    }
    while j < specs.len()
        invariant
            t.wf(),
            j <= specs.len(),
            specs@ == t.children_of(c as int),
            nst == namespaces_text(views(ns@)),
            forall|x: int| 0 <= x < specs.len() ==> #[trigger] specs@[x] < t.size(),
            go_grows(*t, file@, old(out)@, out@, go_value_specs(*t, specs@.take(j as int), nst, is_const)),
        decreases specs.len() - j,
    {
        let sp = specs[j];
        let ghost mid = out@;
        proof {
            assert(specs@.take(j + 1).drop_last() =~= specs@.take(j as int));
            assert(specs@.take(j + 1).last() == sp);
            lemma_go_grows_none(*t, file@, mid);
        }
        if (is_const && t.is_kind(sp, "const_spec")) || (!is_const && t.is_kind(sp, "var_spec")) {
            push_value_ids(t, sp, ns, is_const, file, out);
        }
        proof {
            let prev = go_value_specs(*t, specs@.take(j as int), nst, is_const);
            let step = go_value_specs(*t, specs@.take(j + 1), nst, is_const).skip(prev.len() as int);
            assert(go_value_specs(*t, specs@.take(j + 1), nst, is_const) =~= prev + step);
            lemma_go_grows_trans(*t, file@, old(out)@, mid, out@, prev, step);
        }
        j = j + 1;
    }
    assert(specs@.take(specs.len() as int) =~= specs@);
}

/// The top-level exported declarations of a Go file.
fn collect_symbols(t: &SyntaxTree, file: &str, ns: &Vec<String>) -> (r: Vec<Symbol>)
    requires
        t.wf(),
    ensures
        symbols_ok(r@, file@, t.bytes.len() as int),
        go_defs_exported(r@),
        symbols_match(*t, file@, Language::Go, go_stops(), go_defs_in(*t, t.children_of(0), namespaces_text(views(ns@))), r@),
{
    let ghost nst = namespaces_text(views(ns@));
    let mut out: Vec<Symbol> = Vec::new();
    let ch = t.children(0);
    let mut k: usize = 0;
    assert(ch@.take(0) =~= Seq::<usize>::empty());
    proof {
        lemma_go_grows_none(*t, file@, out@);
    }
    while k < ch.len()
        invariant
            t.wf(),
            k <= ch.len(),
            ch@ == t.children_of(0),
            nst == namespaces_text(views(ns@)),
            forall|j: int| 0 <= j < ch.len() ==> 0 < #[trigger] ch@[j] < t.size(),
            go_grows(*t, file@, Seq::empty(), out@, go_defs_in(*t, ch@.take(k as int), nst)),
        decreases ch.len() - k,
    {
        let c = ch[k];
        let ghost mid = out@;
        proof {
            assert(ch@.take(k + 1).drop_last() =~= ch@.take(k as int));
            assert(ch@.take(k + 1).last() == c);
            lemma_go_grows_none(*t, file@, mid);
        }
        if t.is_kind(c, "function_declaration") || t.is_kind(c, "method_declaration") {
            let kind = if t.is_kind(c, "function_declaration") {
                SymbolKind::Function
            } else {
                SymbolKind::Method
            };
            match field_text(t, c, "name") {
                Some(name) => {
                    if is_exported(name.as_str()) {
                        let leaf = Descriptor::Method { name: name.clone(), disambiguator: String::new() };
                        assert(descriptor_text(leaf) =~= method_text(name@));
                        push_def(&mut out, t, c, ns, leaf, name, kind, file);
                    }
                },
                None => {},
            }
        } else if t.is_kind(c, "type_declaration") {
            push_type_specs(t, c, ns, file, &mut out);
        } else if t.is_kind(c, "const_declaration") || t.is_kind(c, "var_declaration") {
            let is_const = t.is_kind(c, "const_declaration");
            push_value_specs(t, c, ns, is_const, file, &mut out);
        } else {
            assert(go_defs_at(*t, c as int, nst) =~= Seq::<Def>::empty());
        }
        proof {
            lemma_go_grows_trans(*t, file@, Seq::empty(), mid, out@, go_defs_in(*t, ch@.take(k as int), nst), go_defs_at(*t, c as int, nst));
        }
        k = k + 1;
    }
    assert(ch@.take(ch.len() as int) =~= ch@);
    assert(out@.skip(0) =~= out@);
    assert(out@.take(0) =~= Seq::<Symbol>::empty());
    out
}

/// The callee of node `i`: for a call, a bare identifier, or the field of a
/// selector expression.
pub open spec fn go_callee(t: SyntaxTree, i: int) -> Option<usize> {
    if t.kind_of(i) == "call_expression"@ {
        match t.field_child_of(i, "function"@) {
            Some(f) => if t.kind_of(f as int) == "identifier"@ {
                Some(f)
            } else if t.kind_of(f as int) == "selector_expression"@ {
                match t.field_child_of(f as int, "field"@) {
                    Some(fld) => if t.kind_of(fld as int) == "field_identifier"@ {
                        Some(fld)
                    } else {
                        None
                    },
                    None => None,
                }
            } else {
                None
            },
            None => None,
        }
    } else {
        None
    }
}

/// The calls nodes `0..n` make, in pre-order.
pub open spec fn go_calls_upto(t: SyntaxTree, n: int) -> Seq<RefItem>
    decreases n,
{
    if n <= 0 {
        Seq::empty()
    } else {
        go_calls_upto(t, n - 1) + match go_callee(t, n - 1) {
            Some(c) => seq![(c as int, t.text_of(c as int), RefRole::Call)],
            None => Seq::empty(),
        }
    }
}

/// Call references: the callee of every `call_expression` — a bare
/// `identifier`, or the `field` of a `selector_expression`.
fn collect_calls(t: &SyntaxTree, file: &str, out: &mut Vec<Reference>)
    requires
        t.wf(),
    ensures
        refs_grow(*t, file@, old(out)@, final(out)@, go_calls_upto(*t, t.size())),
{
    let mut i: usize = 0;
    proof {
        lemma_refs_grow_none(*t, file@, out@);
    }
    while i < t.nodes.len()
        invariant
            t.wf(),
            i <= t.nodes.len(),
            refs_grow(*t, file@, old(out)@, out@, go_calls_upto(*t, i as int)),
        decreases t.nodes.len() - i,
    {
        let ghost before = out@;
        proof {
            lemma_refs_grow_none(*t, file@, before);
        }
        let mut callee: Option<usize> = None;
        if t.is_kind(i, "call_expression") {
            match t.field_child(i, "function") {
                Some(f) => {
                    if t.is_kind(f, "identifier") {
                        callee = Some(f);
                    } else if t.is_kind(f, "selector_expression") {
                        match t.field_child(f, "field") {
                            Some(fld) => {
                                if t.is_kind(fld, "field_identifier") {
                                    callee = Some(fld);
                                }
                            },
                            None => {},
                        }
                    }
                },
                None => {},
            }
        }
        assert(callee == go_callee(*t, i as int));
        match callee {
            Some(c) => push_ref_item(out, t.text(c), t, c, file, RefRole::Call),
            None => {},
        }
        proof {
            let step = match go_callee(*t, i as int) {
                Some(c) => seq![(c as int, t.text_of(c as int), RefRole::Call)],
                None => Seq::<RefItem>::empty(),
            };
            assert(go_calls_upto(*t, i + 1) == go_calls_upto(*t, i as int) + step);
            lemma_refs_grow_trans(*t, file@, old(out)@, before, out@, go_calls_upto(*t, i as int), step);
        }
        i = i + 1;
    }
}

/// The name an import path names: its last `/`-segment, without quotes or
/// backticks.
pub open spec fn go_import_name(path: Seq<char>) -> Seq<char> {
    simple_name_of(trim_char_spec(trim_char_spec(path, '"'), '`'), "/"@)
}

/// The import node `i` makes: for an import spec, the name of its path.
pub open spec fn go_import_at(t: SyntaxTree, i: int) -> Seq<RefItem> {
    if t.kind_of(i) == "import_spec"@ {
        match t.field_child_of(i, "path"@) {
            Some(p) => seq![(p as int, go_import_name(t.text_of(p as int)), RefRole::Import)],
            None => Seq::empty(),
        }
    } else {
        Seq::empty()
    }
}

/// The imports nodes `0..n` make, in pre-order.
pub open spec fn go_imports_upto(t: SyntaxTree, n: int) -> Seq<RefItem>
    decreases n,
{
    if n <= 0 {
        Seq::empty()
    } else {
        go_imports_upto(t, n - 1) + go_import_at(t, n - 1)
    }
}

/// One `Import` reference per `import_spec`: the last `/`-segment of the
/// unquoted import path (an alias is ignored).
fn collect_imports(t: &SyntaxTree, file: &str, out: &mut Vec<Reference>)
    requires
        t.wf(),
    ensures
        refs_grow(*t, file@, old(out)@, final(out)@, go_imports_upto(*t, t.size())),
{
    let mut i: usize = 0;
    proof {
        lemma_refs_grow_none(*t, file@, out@);
    }
    while i < t.nodes.len()
        invariant
            t.wf(),
            i <= t.nodes.len(),
            refs_grow(*t, file@, old(out)@, out@, go_imports_upto(*t, i as int)),
        decreases t.nodes.len() - i,
    {
        let ghost before = out@;
        proof {
            lemma_refs_grow_none(*t, file@, before);
        }
        if t.is_kind(i, "import_spec") {
            match t.field_child(i, "path") {
                Some(p) => {
                    let raw = t.text(p);
                    let cs = chars_of(raw.as_str());
                    let a = trim_char(&cs, '"');
                    let b = trim_char(&a, '`');
                    let dequoted = string_from_chars(b.as_slice());
                    let leaf = simple_type_name(dequoted.as_str(), "/");
                    push_ref_item(out, leaf, t, p, file, RefRole::Import);
                },
                None => {},
            }
        }
        proof {
            assert(go_imports_upto(*t, i + 1) == go_imports_upto(*t, i as int) + go_import_at(*t, i as int));
            lemma_refs_grow_trans(*t, file@, old(out)@, before, out@, go_imports_upto(*t, i as int), go_import_at(*t, i as int));
        }
        i = i + 1;
    }
}

fn node_span(t: &SyntaxTree, n: usize) -> (r: ByteSpan)
    requires
        n < t.size(),
    ensures
        r == (ByteSpan { start: t.nodes@[n as int].start, end: t.nodes@[n as int].end }),
{
    ByteSpan { start: t.nodes[n].start, end: t.nodes[n].end }
}

/// The scope of kind `kind` node `n` opens under scope `parent`.
pub open spec fn scope_of(t: SyntaxTree, n: int, parent: int, kind: ScopeKind) -> Scope {
    Scope {
        parent: Some(parent as usize),
        span: ByteSpan { start: t.nodes@[n].start, end: t.nodes@[n].end },
        kind,
    }
}

/// The scopes `ss` grows to as the tree below node `n` is walked, the
/// enclosing scope being `parent`: a `Function` scope per function, method
/// or function literal (its body's statements go straight into it), a
/// `Block` scope per other block.
pub open spec fn go_scope_dfs(t: SyntaxTree, n: int, parent: int, ss: Seq<Scope>) -> Seq<Scope>
    decreases t.size() - n, 1nat, 0nat,
{
    let k = t.kind_of(n);
    if k == "function_declaration"@ || k == "method_declaration"@ || k == "func_literal"@ {
        let ss1 = ss.push(scope_of(t, n, parent, ScopeKind::Function));
        match t.field_child_of(n, "body"@) {
            Some(b) => go_children_dfs(t, n, t.children_of(b as int), ss.len() as int, ss1),
            None => ss1,
        }
    } else if k == "block"@ {
        go_children_dfs(t, n, t.children_of(n), ss.len() as int, ss.push(scope_of(t, n, parent, ScopeKind::Block)))
    } else {
        go_children_dfs(t, n, t.children_of(n), parent, ss)
    }
}

/// The scopes `ss` grows to as the trees below `cs` (nodes after `n`) are
/// walked in turn.
pub open spec fn go_children_dfs(t: SyntaxTree, n: int, cs: Seq<usize>, parent: int, ss: Seq<Scope>) -> Seq<Scope>
    decreases t.size() - n, 0nat, cs.len(),
{
    if cs.len() == 0 {
        ss
    } else {
        go_children_dfs(
            t,
            n,
            cs.skip(1),
            parent,
            if n < cs[0] < t.size() {
                go_scope_dfs(t, cs[0] as int, parent, ss)
            } else {
                ss
            },
        )
    }
}

/// The scope tree of a Go file of `len` bytes.
pub open spec fn go_scope_tree(t: SyntaxTree, len: usize) -> Seq<Scope> {
    go_children_dfs(t, 0, t.children_of(0), 0, seq![root_scope(len)])
}

/// Open scopes below node `n`, whose enclosing scope is `parent`.
fn scope_dfs(t: &SyntaxTree, n: usize, parent: ScopeId, scopes: &mut Vec<Scope>)
    requires
        t.wf(),
        n < t.size(),
        parent < old(scopes).len(),
    ensures
        scopes_extend(old(scopes)@, final(scopes)@),
        final(scopes)@ == go_scope_dfs(*t, n as int, parent as int, old(scopes)@),
    decreases t.size() - n, 1nat,
{
    proof {
        lemma_scopes_extend_refl(scopes@);
    }
    if t.is_kind(n, "function_declaration") || t.is_kind(n, "method_declaration") || t.is_kind(n, "func_literal") {
        let fn_id = push_scope(scopes, Some(parent), node_span(t, n), ScopeKind::Function);
        let ghost s1 = scopes@;
        assert(s1 == old(scopes)@.push(scope_of(*t, n as int, parent as int, ScopeKind::Function)));
        assert(scopes_extend(old(scopes)@, s1)) by {
            assert(s1.take(old(scopes)@.len() as int) =~= old(scopes)@);
        }
        match t.field_child(n, "body") {
            Some(body) => {
                let ch = t.children(body);
                proof {
                    t.lemma_children_bounds(body as int);
                }
                children_dfs(t, &ch, n, fn_id, scopes);
                proof { lemma_scopes_extend_trans(old(scopes)@, s1, scopes@); }
            },
            None => {},
        }
    } else if t.is_kind(n, "block") {
        let block_id = push_scope(scopes, Some(parent), node_span(t, n), ScopeKind::Block);
        let ghost s1 = scopes@;
        assert(s1 == old(scopes)@.push(scope_of(*t, n as int, parent as int, ScopeKind::Block)));
        assert(scopes_extend(old(scopes)@, s1)) by {
            assert(s1.take(old(scopes)@.len() as int) =~= old(scopes)@);
        }
        let ch = t.children(n);
        children_dfs(t, &ch, n, block_id, scopes);
        proof { lemma_scopes_extend_trans(old(scopes)@, s1, scopes@); }
    } else {
        let ch = t.children(n);
        children_dfs(t, &ch, n, parent, scopes);
    }
}

/// `scope_dfs` over each of `ch`, all of them below node `n`.
fn children_dfs(t: &SyntaxTree, ch: &Vec<usize>, n: usize, parent: ScopeId, scopes: &mut Vec<Scope>)
    requires
        t.wf(),
        n < t.size(),
        forall|j: int| 0 <= j < ch.len() ==> n < #[trigger] ch@[j] < t.size(),
        parent < old(scopes).len(),
    ensures
        scopes_extend(old(scopes)@, final(scopes)@),
        final(scopes)@ == go_children_dfs(*t, n as int, ch@, parent as int, old(scopes)@),
    decreases t.size() - n, 0nat,
{
    proof {
        lemma_scopes_extend_refl(scopes@);
    }
    let mut k: usize = 0;
    assert(ch@.skip(0) =~= ch@);
    while k < ch.len()
        invariant
            t.wf(),
            n < t.size(),
            k <= ch.len(),
            forall|j: int| 0 <= j < ch.len() ==> n < #[trigger] ch@[j] < t.size(),
            parent < scopes.len(),
            scopes_extend(old(scopes)@, scopes@),
            go_children_dfs(*t, n as int, ch@, parent as int, old(scopes)@) == go_children_dfs(
                *t,
                n as int,
                ch@.skip(k as int),
                parent as int,
                scopes@,
            ),
        decreases ch.len() - k,
    {
        let ghost before = scopes@;
        assert(ch@.skip(k as int)[0] == ch@[k as int]);
        assert(ch@.skip(k as int).skip(1) =~= ch@.skip(k + 1));
        scope_dfs(t, ch[k], parent, scopes);
        proof { lemma_scopes_extend_trans(old(scopes)@, before, scopes@); }
        k = k + 1;
    }
}

/// The scope tree of a Go file: the `Module` root over the whole source,
/// then the scopes below each top-level node.
fn collect_scopes(t: &SyntaxTree, source_len: usize) -> (r: Vec<Scope>)
    requires
        t.wf(),
    ensures
        scope_tree_wf(r@, source_len as int),
        r@ == go_scope_tree(*t, source_len),
{
    let mut scopes = root_scopes(source_len);
    let ghost s0 = scopes@;
    let ch = t.children(0);
    children_dfs(t, &ch, 0, 0, &mut scopes);
    proof { lemma_scopes_extend_wf(s0, scopes@, source_len as int); }
    scopes
}

/// The parameter bindings the identifiers `ids` of a parameter declaration
/// make (`_` binds nothing).
pub open spec fn go_param_ids(t: SyntaxTree, ids: Seq<usize>) -> Seq<LocalItem>
    decreases ids.len(),
{
    if ids.len() == 0 {
        Seq::empty()
    } else {
        let id = ids.last();
        go_param_ids(t, ids.drop_last()) + if t.kind_of(id as int) == "identifier"@ && t.text_of(id as int) != "_"@ {
            seq![(t.nodes@[id as int].start as int, t.text_of(id as int), BindingKind::Param)]
        } else {
            Seq::empty()
        }
    }
}

/// The parameter bindings the children `cs` of a parameter list make.
pub open spec fn go_params_in(t: SyntaxTree, cs: Seq<usize>) -> Seq<LocalItem>
    decreases cs.len(),
{
    if cs.len() == 0 {
        Seq::empty()
    } else {
        let c = cs.last();
        go_params_in(t, cs.drop_last()) + if t.nodes@[c as int].named && (t.kind_of(c as int) == "parameter_declaration"@
            || t.kind_of(c as int) == "variadic_parameter_declaration"@) {
            go_param_ids(t, t.children_of(c as int))
        } else {
            Seq::empty()
        }
    }
}

/// The parameter bindings the parameter list in field `f` of `i` makes.
pub open spec fn go_params_field(t: SyntaxTree, i: int, f: Seq<char>) -> Seq<LocalItem> {
    match t.field_child_of(i, f) {
        Some(p) => go_params_in(t, t.children_of(p as int)),
        None => Seq::empty(),
    }
}

/// The local bindings the identifier children `ids` make: each not `_` and
/// not introduced in the root scope.
pub open spec fn go_local_ids(t: SyntaxTree, scopes: Seq<Scope>, ids: Seq<usize>) -> Seq<LocalItem>
    decreases ids.len(),
{
    if ids.len() == 0 {
        Seq::empty()
    } else {
        let id = ids.last();
        let b = t.nodes@[id as int].start as int;
        go_local_ids(t, scopes, ids.drop_last()) + if t.kind_of(id as int) == "identifier"@ && t.text_of(id as int) != "_"@
            && !innermost_spec(scopes, b, Some(0usize)) {
            seq![(b, t.text_of(id as int), BindingKind::Local)]
        } else {
            Seq::empty()
        }
    }
}

/// The bindings node `i` makes: the parameters and receiver of a function,
/// method or literal; the names of `:=`, `range`, `var` and `const`.
pub open spec fn go_bindings_at(t: SyntaxTree, scopes: Seq<Scope>, i: int) -> Seq<LocalItem> {
    let k = t.kind_of(i);
    if k == "function_declaration"@ || k == "method_declaration"@ || k == "func_literal"@ {
        go_params_field(t, i, "parameters"@) + go_params_field(t, i, "receiver"@)
    } else if k == "short_var_declaration"@ || k == "range_clause"@ {
        match t.field_child_of(i, "left"@) {
            Some(l) => go_local_ids(t, scopes, t.children_of(l as int)),
            None => Seq::empty(),
        }
    } else if k == "var_spec"@ || k == "const_spec"@ {
        go_local_ids(t, scopes, t.children_of(i))
    } else {
        Seq::empty()
    }
}

/// The bindings nodes `0..n` make, in pre-order.
pub open spec fn go_bindings_upto(t: SyntaxTree, scopes: Seq<Scope>, n: int) -> Seq<LocalItem>
    decreases n,
{
    if n <= 0 {
        Seq::empty()
    } else {
        go_bindings_upto(t, scopes, n - 1) + go_bindings_at(t, scopes, n - 1)
    }
}

/// A `Param` binding for each named parameter (not `_`) of a parameter list.
fn collect_params(t: &SyntaxTree, params: usize, scopes: &Vec<Scope>, out: &mut Vec<Binding>)
    requires
        t.wf(),
        params < t.size(),
        scopes.len() >= 1,
    ensures
        locals_grow(scopes@, old(out)@, final(out)@, go_params_in(*t, t.children_of(params as int))),
{
    let ch = t.children(params);
    let mut k: usize = 0;
    assert(ch@.take(0) =~= Seq::<usize>::empty());
    proof {
        lemma_locals_grow_none(scopes@, out@);
        reveal_strlit("_");
    }
    while k < ch.len()
        invariant
            t.wf(),
            scopes.len() >= 1,
            k <= ch.len(),
            ch@ == t.children_of(params as int),
            forall|j: int| 0 <= j < ch.len() ==> #[trigger] ch@[j] < t.size(),
            locals_grow(scopes@, old(out)@, out@, go_params_in(*t, ch@.take(k as int))),
        decreases ch.len() - k,
    {
        let c = ch[k];
        let ghost mid = out@;
        proof {
            assert(ch@.take(k + 1).drop_last() =~= ch@.take(k as int));
            assert(ch@.take(k + 1).last() == c);
            lemma_locals_grow_none(scopes@, mid);
        }
        if t.nodes[c].named && (t.is_kind(c, "parameter_declaration") || t.is_kind(c, "variadic_parameter_declaration")) {
            let ids = t.children(c);
            let mut m: usize = 0;
            assert(ids@.take(0) =~= Seq::<usize>::empty());
            while m < ids.len()
                invariant
                    t.wf(),
                    scopes.len() >= 1,
                    m <= ids.len(),
                    ids@ == t.children_of(c as int),
                    forall|j: int| 0 <= j < ids.len() ==> #[trigger] ids@[j] < t.size(),
                    locals_grow(scopes@, mid, out@, go_param_ids(*t, ids@.take(m as int))),
                decreases ids.len() - m,
            {
                let id = ids[m];
                let ghost inner = out@;
                proof {
                    assert(ids@.take(m + 1).drop_last() =~= ids@.take(m as int));
                    assert(ids@.take(m + 1).last() == id);
                    lemma_locals_grow_none(scopes@, inner);
                }
                if t.is_kind(id, "identifier") {
                    let name = t.text(id);
                    if !str_eq(name.as_str(), "_") {
                        push_local_item(out, name, t.nodes[id].start, BindingKind::Param, scopes);
                    }
                }
                proof {
                    let prev = go_param_ids(*t, ids@.take(m as int));
                    let step = go_param_ids(*t, ids@.take(m + 1)).skip(prev.len() as int);
                    assert(go_param_ids(*t, ids@.take(m + 1)) =~= prev + step);
                    lemma_locals_grow_trans(scopes@, mid, inner, out@, prev, step);
                }
                m = m + 1;
            }
            assert(ids@.take(ids.len() as int) =~= ids@);
        }
        proof {
            let prev = go_params_in(*t, ch@.take(k as int));
            let step = go_params_in(*t, ch@.take(k + 1)).skip(prev.len() as int);
            assert(go_params_in(*t, ch@.take(k + 1)) =~= prev + step);
            lemma_locals_grow_trans(scopes@, old(out)@, mid, out@, prev, step);
        }
        k = k + 1;
    }
    assert(ch@.take(ch.len() as int) =~= ch@);
}

/// The parameter list in field `f` of `i`, bound.
fn collect_params_field(t: &SyntaxTree, i: usize, f: &str, scopes: &Vec<Scope>, out: &mut Vec<Binding>)
    requires
        t.wf(),
        i < t.size(),
        scopes.len() >= 1,
    ensures
        locals_grow(scopes@, old(out)@, final(out)@, go_params_field(*t, i as int, f@)),
{
    proof {
        lemma_locals_grow_none(scopes@, out@);
    }
    match t.field_child(i, f) {
        Some(p) => collect_params(t, p, scopes, out),
        None => {},
    }
}

/// A `Local` binding for each non-`_` identifier child of `n` that is not
/// introduced at the file root.
fn bind_identifier_children(t: &SyntaxTree, n: usize, scopes: &Vec<Scope>, out: &mut Vec<Binding>)
    requires
        t.wf(),
        n < t.size(),
        scopes.len() >= 1,
    ensures
        locals_grow(scopes@, old(out)@, final(out)@, go_local_ids(*t, scopes@, t.children_of(n as int))),
{
    let ids = t.children(n);
    let mut m: usize = 0;
    assert(ids@.take(0) =~= Seq::<usize>::empty());
    proof {
        lemma_locals_grow_none(scopes@, out@);
        reveal_strlit("_");
    }
    while m < ids.len()
        invariant
            t.wf(),
            scopes.len() >= 1,
            m <= ids.len(),
            ids@ == t.children_of(n as int),
            forall|j: int| 0 <= j < ids.len() ==> #[trigger] ids@[j] < t.size(),
            locals_grow(scopes@, old(out)@, out@, go_local_ids(*t, scopes@, ids@.take(m as int))),
        decreases ids.len() - m,
    {
        let id = ids[m];
        let ghost mid = out@;
        proof {
            assert(ids@.take(m + 1).drop_last() =~= ids@.take(m as int));
            assert(ids@.take(m + 1).last() == id);
            lemma_locals_grow_none(scopes@, mid);
        }
        if t.is_kind(id, "identifier") {
            let name = t.text(id);
            let intro = t.nodes[id].start;
            let at = innermost_scope(intro, scopes);
            proof {
                if innermost_spec(scopes@, intro as int, Some(0usize)) {
                    lemma_innermost_unique(scopes@, intro as int, at, Some(0usize));
                }
            }
            if !str_eq(name.as_str(), "_") && at != Some(0usize) {
                push_local_item(out, name, intro, BindingKind::Local, scopes);
            }
        }
        proof {
            let prev = go_local_ids(*t, scopes@, ids@.take(m as int));
            let step = go_local_ids(*t, scopes@, ids@.take(m + 1)).skip(prev.len() as int);
            assert(go_local_ids(*t, scopes@, ids@.take(m + 1)) =~= prev + step);
            lemma_locals_grow_trans(scopes@, old(out)@, mid, out@, prev, step);
        }
        m = m + 1;
    }
    assert(ids@.take(ids.len() as int) =~= ids@);
}

/// Parameter and local-variable bindings: function, method and literal
/// parameters and receivers (`Param`); `:=`, `var`, `const` and `range`
/// names inside functions (`Local`).
fn collect_bindings(t: &SyntaxTree, scopes: &Vec<Scope>) -> (r: Vec<Binding>)
    requires
        t.wf(),
        scopes.len() >= 1,
    ensures
        bindings_ok(r@, scopes.len() as int),
        locals_match(scopes@, go_bindings_upto(*t, scopes@, t.size()), r@),
{
    let mut out: Vec<Binding> = Vec::new();
    let mut i: usize = 0;
    proof {
        lemma_locals_grow_none(scopes@, out@);
    }
    while i < t.nodes.len()
        invariant
            t.wf(),
            scopes.len() >= 1,
            i <= t.nodes.len(),
            locals_grow(scopes@, Seq::empty(), out@, go_bindings_upto(*t, scopes@, i as int)),
        decreases t.nodes.len() - i,
    {
        let ghost before = out@;
        proof {
            lemma_locals_grow_none(scopes@, before);
        }
        if t.is_kind(i, "function_declaration") || t.is_kind(i, "method_declaration") || t.is_kind(i, "func_literal") {
            collect_params_field(t, i, "parameters", scopes, &mut out);
            let ghost mid = out@;
            collect_params_field(t, i, "receiver", scopes, &mut out);
            proof {
                lemma_locals_grow_trans(
                    scopes@,
                    before,
                    mid,
                    out@,
                    go_params_field(*t, i as int, "parameters"@),
                    go_params_field(*t, i as int, "receiver"@),
                );
            }
        } else if t.is_kind(i, "short_var_declaration") || t.is_kind(i, "range_clause") {
            match t.field_child(i, "left") {
                Some(l) => bind_identifier_children(t, l, scopes, &mut out),
                None => {},
            }
        } else if t.is_kind(i, "var_spec") || t.is_kind(i, "const_spec") {
            bind_identifier_children(t, i, scopes, &mut out);
        }
        proof {
            assert(go_bindings_upto(*t, scopes@, i + 1) == go_bindings_upto(*t, scopes@, i as int) + go_bindings_at(*t, scopes@, i as int));
            lemma_locals_grow_trans(
                scopes@,
                Seq::empty(),
                before,
                out@,
                go_bindings_upto(*t, scopes@, i as int),
                go_bindings_at(*t, scopes@, i as int),
            );
        }
        i = i + 1;
    }
    assert(out@.skip(0) =~= out@);
    assert(out@.take(0) =~= Seq::<Binding>::empty());
    out
}

/// The references of a Go file, in order: calls, then imports.
pub open spec fn go_refs(t: SyntaxTree) -> Seq<RefItem> {
    go_calls_upto(t, t.size()) + go_imports_upto(t, t.size())
}

/// What `go_facts` states of the facts `r` it builds from tree `t` of
/// `source`, the text of `file`.
pub open spec fn go_facts_of(t: SyntaxTree, source: Seq<char>, file: Seq<char>, r: FileFacts) -> bool {
    &&& go_defs_exported(r.symbols@.drop_last())
    &&& r.symbols@.last().kind == SymbolKind::Module
    &&& r.symbols@.len() >= 1
    &&& r.ffi_exports@.len() == 0
    &&& symbols_match(
        t,
        file,
        Language::Go,
        go_stops(),
        go_defs_in(t, t.children_of(0), namespaces_text(go_namespaces_spec(file))),
        r.symbols@.drop_last(),
    )
    &&& module_symbol_spec(r.symbols@.last(), Language::Go, go_namespaces_spec(file), file, encode_utf8(source).len() as int)
    &&& refs_items(t, file, go_refs(t), r.references@)
    &&& r.scopes@ == go_scope_tree(t, (encode_utf8(source).len() as usize))
    &&& ({
        let locals = go_bindings_upto(t, r.scopes@, t.size());
        let defs = r.symbols@.drop_last();
        &&& r.bindings@.len() == locals.len() + defs.len() + imports_of(r.references@).len()
        &&& locals_match(r.scopes@, locals, r.bindings@.take(locals.len() as int))
        &&& def_bindings_of(defs, r.bindings@.subrange(locals.len() as int, (locals.len() + defs.len()) as int))
        &&& import_bindings_of(r.references@, r.scopes@, r.bindings@.skip((locals.len() + defs.len()) as int))
    })
}

/// The facts of a Go file from its syntax tree: the exported top-level
/// definitions, in order, then the file's module symbol; calls and imports,
/// each in pre-order; the scope tree; local, definition and import bindings.
pub fn go_facts(t: &SyntaxTree, source: &str, file: &str) -> (r: FileFacts)
    requires
        t.wf(),
        t.bytes@ == encode_utf8(source@),
    ensures
        facts_wf(r, file@, source@, Language::Go),
        go_facts_of(*t, source@, file@, r),
{
    let len = source.len();
    let ns = go_namespaces(file);
    let defs = collect_symbols(t, file, &ns);
    let def_bindings = definition_bindings(&defs);
    let mut symbols = defs;
    let ghost defs_seq = symbols@;
    symbols.push(module_symbol(Language::Go, &ns, file, len));
    assert(symbols@.drop_last() =~= defs_seq);
    let mut refs: Vec<Reference> = Vec::new();
    let ghost r0 = refs@;
    collect_calls(t, file, &mut refs);
    let ghost r1 = refs@;
    collect_imports(t, file, &mut refs);
    proof {
        lemma_refs_grow_trans(*t, file@, r0, r1, refs@, go_calls_upto(*t, t.size()), go_imports_upto(*t, t.size()));
        assert(refs@.skip(0) =~= refs@);
        assert(refs_ok(Seq::<Reference>::empty(), file@, t.bytes.len() as int));
    }
    let scopes = collect_scopes(t, len);
    let ghost before = refs@;
    let refs = attach_reference_scopes(refs, &scopes);
    proof {
        lemma_refs_items_attached(*t, file@, go_refs(*t), before, refs@, scopes@);
    }
    let mut bindings = collect_bindings(t, &scopes);
    let ghost locals = bindings@;
    let ib = import_bindings(&refs, &scopes);
    proof {
        assert forall|i: int| 0 <= i < ib@.len() implies (#[trigger] ib@[i]).scope < scopes.len() by {
            lemma_binding_scope_bound(scopes@, imports_of(refs@)[i].occ.byte as int, ib@[i].scope);
        }
    }
    let ghost dbs = def_bindings@;
    let ghost ibs = ib@;
    append_bindings(&mut bindings, def_bindings, scopes.len());
    append_bindings(&mut bindings, ib, scopes.len());
    proof {
        let l = locals.len() as int;
        let d = dbs.len() as int;
        assert(bindings@ == locals + dbs + ibs);
        assert(bindings@.take(l) =~= locals);
        assert(bindings@.subrange(l, l + d) =~= dbs);
        assert(bindings@.skip(l + d) =~= ibs);
    }
    let lang = Language::Go.as_str().to_owned();
    FileFacts {
        file: file.to_owned(),
        lang,
        symbols,
        references: refs,
        scopes,
        bindings,
        ffi_exports: Vec::new(),
    }
}

impl Extractor for GoExtractor {
    open spec fn spec_lang(&self) -> Language {
        Language::Go
    }

    fn lang(&self) -> (r: Language) {
        Language::Go
    }

    fn extract(&self, source: &str, file: &str) -> (r: Result<FileFacts>)
        ensures
            r is Ok <==> super::parses(Grammar::Go, source@),
            r matches Ok(f) ==> super::extracted(Language::Go, source@, file@, f),
    {
        let t = super::parse_tree(Grammar::Go, source, file)?;
        let res: Result<FileFacts> = Ok(go_facts(&t, source, file));
        assert(super::parsed_by(t, Grammar::Go, source@) && go_facts_of(t, source@, file@, res->Ok_0));
        res
    }
}

/// A callee of a node before `n` is among the calls of nodes `0..n`.
proof fn lemma_go_calls_upto_has(t: SyntaxTree, i: int, n: int, m: usize)
    requires
        0 <= i < n,
        go_callee(t, i) == Some(m),
    ensures
        exists|k: int|
            0 <= k < go_calls_upto(t, n).len() && go_calls_upto(t, n)[k] == (m as int, t.text_of(m as int), RefRole::Call),
    decreases n,
{
    let prev = go_calls_upto(t, n - 1);
    if i < n - 1 {
        lemma_go_calls_upto_has(t, i, n - 1, m);
        let k = choose|k: int| 0 <= k < prev.len() && prev[k] == (m as int, t.text_of(m as int), RefRole::Call);
        assert(go_calls_upto(t, n)[k] == prev[k]);
    } else {
        assert(go_calls_upto(t, n)[prev.len() as int] == (m as int, t.text_of(m as int), RefRole::Call));
    }
}

/// Law: every call whose function is an identifier or the field identifier of a selector expression is a `Call` reference of the file, named by that node's
/// text and occurring where it starts.
pub proof fn law_go_calls_are_referenced(
    t: SyntaxTree,
    source: Seq<char>,
    file: Seq<char>,
    r: FileFacts,
    i: int,
    f: usize,
    m: usize,
)
    requires
        go_facts_of(t, source, file, r),
        0 <= i < t.size(),
        t.kind_of(i) == "call_expression"@,
        (t.field_child_of(i, "function"@) == Some(m) && t.kind_of(m as int) == "identifier"@) || (t.field_child_of(i, "function"@) == Some(f) && t.kind_of(f as int) == "selector_expression"@ && t.field_child_of(f as int, "field"@) == Some(m) && t.kind_of(m as int) == "field_identifier"@),
    ensures
        exists|j: int|
            0 <= j < r.references.len() && (#[trigger] r.references@[j]).role == RefRole::Call
                && r.references@[j].name@ == t.text_of(m as int) && r.references@[j].occ.byte
                == t.nodes@[m as int].start,
{
    reveal_strlit("identifier");
    assert("identifier"@ =~= seq!['i', 'd', 'e', 'n', 't', 'i', 'f', 'i', 'e', 'r']);
    reveal_strlit("selector_expression");
    assert("selector_expression"@ =~= seq!['s', 'e', 'l', 'e', 'c', 't', 'o', 'r', '_', 'e', 'x', 'p', 'r', 'e', 's', 's', 'i', 'o', 'n']);
    reveal_strlit("field_identifier");
    assert("field_identifier"@ =~= seq!['f', 'i', 'e', 'l', 'd', '_', 'i', 'd', 'e', 'n', 't', 'i', 'f', 'i', 'e', 'r']);
    assert(go_callee(t, i) == Some(m));
    lemma_go_calls_upto_has(t, i, t.size(), m);
    let calls = go_calls_upto(t, t.size());
    let k = choose|k: int| 0 <= k < calls.len() && calls[k] == (m as int, t.text_of(m as int), RefRole::Call);
    let refs = go_refs(t);
    assert(refs[k] == calls[k]);
    assert(super::support::ref_at(t, refs[k].0, file, refs[k].1, refs[k].2, r.references@[k]));
}

} // verus!
