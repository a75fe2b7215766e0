//! Python: top-level `def` / `async def` and `class` (decorated ones too) and
//! module-level ALL_CAPS constants, qualified by the dotted module path of
//! the file (`__init__` collapsing to its package); call, base-class and
//! import references; function scopes (a class body opens none) with
//! parameter and assignment bindings.

use vstd::prelude::*;
use vstd::utf8::*;
use crate::error::Result;
use crate::graph::{Binding, BindingKind, FileFacts, RefRole, Reference, Scope, ScopeId, ScopeKind, Symbol, SymbolKind};
use crate::lang::Language;
use crate::symbol::{Descriptor, descriptor_text, scip_text};
use crate::text::{
    chars_of, chars_eq, segments, simple_type_name, simple_name_of, split_nonempty, strings_of, strip_prefix_chars,
    strip_prefix_or_self, strip_suffix_chars, strip_suffix_or_self, views, is_uppercase, is_numeric, char_is_uppercase,
    char_is_numeric,
};
use super::Extractor;
use super::tree::SyntaxTree;
use super::ts::Grammar;
use super::scope::{
    attach_reference_scopes, definition_bindings, import_bindings, imports_of, lemma_binding_scope_bound,
    lemma_scopes_extend_refl, lemma_scopes_extend_trans, lemma_scopes_extend_wf, push_scope, root_scopes, root_scope,
    scope_tree_wf, scopes_extend, LocalItem, locals_match, locals_grow, lemma_locals_grow_none, lemma_locals_grow_trans,
    push_local_item, def_bindings_of, import_bindings_of,
};
use super::go::scope_of;
use super::support::{
    append_bindings, bindings_ok, descriptors_with, facts_wf, field_text, make_symbol_split, module_symbol, node_span,
    refs_ok, symbols_ok, module_symbol_spec, namespaces_text, method_text, type_text, term_text, lemma_path_text,
    lemma_one_descriptor_text, SplitDef, split_symbol_at, split_symbols_match, RefItem, refs_items, refs_grow,
    lemma_refs_grow_none, lemma_refs_grow_trans, push_ref_item, lemma_refs_items_attached, ImportItem, import_ref_at,
    imports_grow, lemma_imports_grow_none, lemma_imports_grow_trans, push_import_item,
};

verus! {

/// Extracts Python symbols and references.
pub struct PythonExtractor;

/// The module stem of a file name: without `.pyi`, or else without `.py`.
pub open spec fn python_stem(name: Seq<char>) -> Seq<char> {
    let a = strip_suffix_or_self(name, ".pyi"@);
    if a != name {
        a
    } else {
        strip_suffix_or_self(name, ".py"@)
    }
}

/// The dotted module path of a Python file: its path segments (a leading
/// `src/` dropped), the last one by its stem, and an `__init__` stem
/// dropped so that a package's `__init__.py` stands for the package.
pub open spec fn python_namespaces_spec(file: Seq<char>) -> Seq<Seq<char>> {
    let parts = segments(strip_prefix_or_self(file, "src/"@), '/');
    if parts.len() == 0 {
        parts
    } else {
        let stem = python_stem(parts.last());
        if stem == seq!['_', '_', 'i', 'n', 'i', 't', '_', '_'] {
            parts.drop_last()
        } else {
            parts.drop_last().push(stem)
        }
    }
}

/// Law: the module path of `src/<dir>/<name>.py` (or `.pyi`) is the
/// `/`-separated segments of `dir` followed by `name`, where `name` is a
/// plain file stem (non-empty, no `/`, not `__init__`); that of
/// `src/<dir>/__init__.py` is the segments of `dir` alone.
pub proof fn law_python_module_path(dir: Seq<char>, name: Seq<char>, ext: Seq<char>)
    requires
        ext == ".py"@ || ext == ".pyi"@,
        name.len() > 0,
        forall|i: int| 0 <= i < name.len() ==> name[i] != '/',
    ensures
        name != seq!['_', '_', 'i', 'n', 'i', 't', '_', '_'] ==> python_namespaces_spec("src/"@ + dir + seq!['/'] + name + ext)
            == segments(dir, '/').push(name),
        name == seq!['_', '_', 'i', 'n', 'i', 't', '_', '_'] ==> python_namespaces_spec("src/"@ + dir + seq!['/'] + name + ext)
            == segments(dir, '/'),
{
    reveal_strlit(".py");
    reveal_strlit(".pyi");
    let f = "src/"@ + dir + seq!['/'] + name + ext;
    let rest = dir + seq!['/'] + (name + ext);
    assert(f =~= "src/"@ + rest);
    crate::text::lemma_strip_own_prefix("src/"@, rest);
    assert forall|i: int| 0 <= i < (name + ext).len() implies (name + ext)[i] != '/' by {
        if i >= name.len() {
            assert((name + ext)[i] == ext[i - name.len()]);
        }
    }
    crate::text::lemma_segments_concat(dir, name + ext, '/');
    crate::text::lemma_segments_single(name + ext, '/');
    let parts = segments(rest, '/');
    assert(parts == segments(dir, '/') + seq![name + ext]);
    assert(parts.last() == name + ext);
    assert(parts.drop_last() =~= segments(dir, '/'));
    crate::text::lemma_strip_own_suffix(name, ext);
    if ext == ".py"@ {
        crate::text::lemma_not_suffix_at(".py"@, ".pyi"@, 1);
        crate::text::lemma_strip_other_suffix(name, ext, ".pyi"@);
    }
    assert(python_stem(name + ext) == name);
}

/// Law: a leading `src/` does not change a Python file's module path.
pub proof fn law_python_src_root_is_dropped(rest: Seq<char>)
    requires
        !crate::text::has_prefix(rest, "src/"@),
    ensures
        python_namespaces_spec("src/"@ + rest) == python_namespaces_spec(rest),
{
    crate::text::lemma_strip_own_prefix("src/"@, rest);
}

/// The dotted module path (namespace descriptors) of a Python file.
pub fn python_namespaces(file: &str) -> (r: Vec<String>)
    ensures
        views(r@) == python_namespaces_spec(file@),
{
    let cs = chars_of(file);
    let p = strip_prefix_chars(&cs, "src/");
    let mut parts = split_nonempty(&p, '/');
    if parts.len() == 0 {
        return strings_of(&parts);
    }
    let ghost all = parts@;
    let last = parts.pop().unwrap();
    proof {
        assert(views(parts@) =~= views(all).drop_last());
        assert(last@ == views(all).last());
    }
    let a = strip_suffix_chars(&last, ".pyi");
    let stem = if a.len() != last.len() {
        a
    } else {
        strip_suffix_chars(&last, ".py")
    };
    proof {
        reveal_strlit(".pyi");
        assert(".pyi"@.len() == 4);
        assert(stem@ == python_stem(last@));
    }
    proof {
        reveal_strlit("__init__");
        assert("__init__"@ =~= seq!['_', '_', 'i', 'n', 'i', 't', '_', '_']);
    }
    let init = chars_eq(&stem, "__init__");
    let ghost before = parts@;
    if !init {
        parts.push(stem);
    }
    let r = strings_of(&parts);
    proof {
        let full = segments(strip_prefix_or_self(file@, "src/"@), '/');
        assert(views(before) =~= full.drop_last());
        if !init {
            assert(views(parts@) =~= views(before).push(stem@));
        }
    }
    r
}

/// Whether every character of `s` is `_`.
pub open spec fn all_underscores_spec(s: Seq<char>) -> bool {
    forall|i: int| 0 <= i < s.len() ==> s[i] == '_'
}

/// Whether every character of `name` is `_`.
fn all_underscores(name: &String) -> (r: bool)
    ensures
        r == all_underscores_spec(name@),
{
    let cs = chars_of(name.as_str());
    let mut k: usize = 0;
    while k < cs.len()
        invariant
            k <= cs.len(),
            cs@ == name@,
            forall|i: int| 0 <= i < k ==> cs@[i] == '_',
        decreases cs.len() - k,
    {
        if cs[k] != '_' {
            return false;
        }
        k = k + 1;
    }
    true
}

/// Whether a name reads as a constant: at least three bytes in UTF-8, every
/// character uppercase, numeric or `_`.
pub open spec fn is_const_name_spec(s: Seq<char>) -> bool {
    &&& encode_utf8(s).len() >= 3
    &&& forall|i: int| 0 <= i < s.len() ==> char_is_uppercase(#[trigger] s[i]) || s[i] == '_' || char_is_numeric(s[i])
}

/// Whether `name` reads as a constant.
fn is_const_name(name: &String) -> (r: bool)
    ensures
        r == is_const_name_spec(name@),
{
    if name.as_str().as_bytes().len() < 3 {
        return false;
    }
    let cs = chars_of(name.as_str());
    let mut k: usize = 0;
    while k < cs.len()
        invariant
            k <= cs.len(),
            cs@ == name@,
            encode_utf8(name@).len() >= 3,
            forall|i: int| 0 <= i < k ==> char_is_uppercase(#[trigger] cs@[i]) || cs@[i] == '_' || char_is_numeric(cs@[i]),
        decreases cs.len() - k,
    {
        let c = cs[k];
        if !(is_uppercase(c) || c == '_' || is_numeric(c)) {
            return false;
        }
        k = k + 1;
    }
    true
}

/// The definition a `def` or `class` node `sig` gives: named by its first
/// identifier child, unless that name is all underscores; its kind and the
/// SCIP text of its leaf.
pub open spec fn py_def_of(t: SyntaxTree, sig: int, is_fn: bool) -> Option<(Seq<char>, SymbolKind, Seq<char>)> {
    match t.kind_child_of(sig, "identifier"@) {
        Some(id) => {
            let name = t.text_of(id as int);
            if all_underscores_spec(name) {
                None
            } else if is_fn {
                Some((name, SymbolKind::Function, method_text(name)))
            } else {
                Some((name, SymbolKind::Class, type_text(name)))
            }
        },
        None => None,
    }
}

/// The definition of a `def` or `class` node `sig`.
fn def_of(t: &SyntaxTree, sig: usize, is_fn: bool) -> (r: Option<(String, SymbolKind, Descriptor)>)
    requires
        t.wf(),
        sig < t.size(),
    ensures
        r is Some == py_def_of(*t, sig as int, is_fn) is Some,
        r matches Some(d) ==> {
            let e = py_def_of(*t, sig as int, is_fn).unwrap();
            &&& d.0@ == e.0
            &&& d.1 == e.1
            &&& descriptor_text(d.2) == e.2
        },
{
    match t.child_of_kind(sig, "identifier") {
        Some(id) => {
            let name = t.text(id);
            if all_underscores(&name) {
                return None;
            }
            if is_fn {
                let leaf = Descriptor::Method { name: name.clone(), disambiguator: String::new() };
                assert(descriptor_text(leaf) =~= method_text(name@));
                Some((name, SymbolKind::Function, leaf))
            } else {
                let leaf = Descriptor::Type(name.clone());
                assert(descriptor_text(leaf) =~= type_text(name@));
                Some((name, SymbolKind::Class, leaf))
            }
        },
        None => None,
    }
}

/// The assignment a module-level node `n` is or holds first.
pub open spec fn py_assignment(t: SyntaxTree, n: int) -> Option<usize> {
    if t.kind_of(n) == "assignment"@ {
        Some(n as usize)
    } else {
        t.kind_child_of(n, "assignment"@)
    }
}

/// The constant a module-level assignment (or expression statement holding
/// one) defines: its first identifier child, when named like a constant.
pub open spec fn py_const_of(t: SyntaxTree, n: int) -> Option<(Seq<char>, SymbolKind, Seq<char>)> {
    match py_assignment(t, n) {
        Some(a) => match t.kind_child_of(a as int, "identifier"@) {
            Some(lhs) => if is_const_name_spec(t.text_of(lhs as int)) {
                Some((t.text_of(lhs as int), SymbolKind::Const, term_text(t.text_of(lhs as int))))
            } else {
                None
            },
            None => None,
        },
        None => None,
    }
}

/// The constant node `n` defines.
fn const_of(t: &SyntaxTree, n: usize) -> (r: Option<(String, SymbolKind, Descriptor)>)
    requires
        t.wf(),
        n < t.size(),
    ensures
        r is Some == py_const_of(*t, n as int) is Some,
        r matches Some(d) ==> {
            let e = py_const_of(*t, n as int).unwrap();
            &&& d.0@ == e.0
            &&& d.1 == e.1
            &&& descriptor_text(d.2) == e.2
        },
{
    let assign = if t.is_kind(n, "assignment") {
        n
    } else {
        match t.child_of_kind(n, "assignment") {
            Some(a) => a,
            None => {
                return None;
            },
        }
    };
    match t.child_of_kind(assign, "identifier") {
        Some(lhs) => {
            let name = t.text(lhs);
            if !is_const_name(&name) {
                return None;
            }
            let leaf = Descriptor::Term(name.clone());
            assert(descriptor_text(leaf) =~= term_text(name@));
            Some((name, SymbolKind::Const, leaf))
        },
        None => None,
    }
}

/// The first of `cs` that is a function or class definition.
pub open spec fn py_first_def_in(t: SyntaxTree, cs: Seq<usize>) -> Option<usize>
    decreases cs.len(),
{
    if cs.len() == 0 {
        None
    } else if t.kind_of(cs[0] as int) == "function_definition"@ || t.kind_of(cs[0] as int) == "class_definition"@ {
        Some(cs[0])
    } else {
        py_first_def_in(t, cs.skip(1))
    }
}

/// The definition top-level node `c` makes, with the node its signature
/// comes from: a `def`, a `class`, the definition a decorated definition
/// wraps, or a module-level constant.
pub open spec fn py_def_at(t: SyntaxTree, c: int) -> Option<(int, (Seq<char>, SymbolKind, Seq<char>))> {
    let k = t.kind_of(c);
    if k == "function_definition"@ {
        match py_def_of(t, c, true) {
            Some(d) => Some((c, d)),
            None => None,
        }
    } else if k == "class_definition"@ {
        match py_def_of(t, c, false) {
            Some(d) => Some((c, d)),
            None => None,
        }
    } else if k == "decorated_definition"@ {
        match py_first_def_in(t, t.children_of(c)) {
            Some(i) => match py_def_of(t, i as int, t.kind_of(i as int) == "function_definition"@) {
                Some(d) => Some((i as int, d)),
                None => None,
            },
            None => None,
        }
    } else if k == "expression_statement"@ || k == "assignment"@ {
        match py_const_of(t, c) {
            Some(d) => Some((c, d)),
            None => None,
        }
    } else {
        None
    }
}

/// The definitions the top-level nodes `cs` make, in a file whose namespaces
/// spell `nst`.
pub open spec fn py_defs_in(t: SyntaxTree, cs: Seq<usize>, nst: Seq<char>) -> Seq<SplitDef>
    decreases cs.len(),
{
    if cs.len() == 0 {
        Seq::empty()
    } else {
        let c = cs.last();
        py_defs_in(t, cs.drop_last(), nst) + match py_def_at(t, c as int) {
            Some(p) => seq![(c as int, p.0, p.1.0, p.1.1, nst + p.1.2)],
            None => Seq::empty(),
        }
    }
}

/// Where a Python signature stops.
pub open spec fn py_stops() -> Seq<char> {
    seq![':']
}

/// The top-level definitions of a Python file.
fn collect_symbols(t: &SyntaxTree, file: &str, ns: &Vec<String>) -> (r: Vec<Symbol>)
    requires
        t.wf(),
    ensures
        symbols_ok(r@, file@, t.bytes.len() as int),
        split_symbols_match(*t, file@, Language::Python, py_stops(), py_defs_in(*t, t.children_of(0), namespaces_text(views(ns@))), r@),
{
    let ghost nst = namespaces_text(views(ns@));
    let stops = vec![':'];
    assert(stops@ =~= py_stops());
    let mut out: Vec<Symbol> = Vec::new();
    let ch = t.children(0);
    let mut k: usize = 0;
    assert(ch@.take(0) =~= Seq::<usize>::empty());
    while k < ch.len()
        invariant
            t.wf(),
            k <= ch.len(),
            ch@ == t.children_of(0),
            stops@ == py_stops(),
            nst == namespaces_text(views(ns@)),
            forall|j: int| 0 <= j < ch.len() ==> 0 < #[trigger] ch@[j] < t.size(),
            symbols_ok(out@, file@, t.bytes.len() as int),
            split_symbols_match(*t, file@, Language::Python, py_stops(), py_defs_in(*t, ch@.take(k as int), nst), out@),
        decreases ch.len() - k,
    {
        let c = ch[k];
        proof {
            assert(ch@.take(k + 1).drop_last() =~= ch@.take(k as int));
            assert(ch@.take(k + 1).last() == c);
        }
        let parsed: Option<(usize, (String, SymbolKind, Descriptor))> = if t.is_kind(c, "function_definition") {
            match def_of(t, c, true) {
                Some(d) => Some((c, d)),
                None => None,
            }
        } else if t.is_kind(c, "class_definition") {
            match def_of(t, c, false) {
                Some(d) => Some((c, d)),
                None => None,
            }
        } else if t.is_kind(c, "decorated_definition") {
            let first = first_def_child(t, c);
            match first {
                Some(i) => {
                    let is_fn = t.is_kind(i, "function_definition");
                    match def_of(t, i, is_fn) {
                        Some(d) => Some((i, d)),
                        None => None,
                    }
                },
                None => None,
            }
        } else if t.is_kind(c, "expression_statement") || t.is_kind(c, "assignment") {
            match const_of(t, c) {
                Some(d) => Some((c, d)),
                None => None,
            }
        } else {
            None
        };
        proof {
            let e = py_def_at(*t, c as int);
            assert(parsed is Some == e is Some);
            if parsed is Some {
                let p = parsed.unwrap();
                assert(p.0 as int == e.unwrap().0);
                assert(p.1.0@ == e.unwrap().1.0);
                assert(p.1.1 == e.unwrap().1.1);
                assert(descriptor_text(p.1.2) == e.unwrap().1.2);
            }
        }
        let ghost prev = out@;
        match parsed {
            Some((sig, (name, kind, leaf))) => {
                let ghost nm = name@;
                let leaves = vec![leaf];
                assert(leaves@ =~= seq![leaf]);
                let descs = descriptors_with(ns, leaves);
                proof {
                    lemma_path_text(ns@, seq![leaf]);
                    lemma_one_descriptor_text(leaf);
                }
                let s = make_symbol_split(t, c, sig, Language::Python, descs, name, kind, file, stops.as_slice());
                out.push(s);
                proof {
                    let d = (c as int, sig as int, nm, kind, nst + descriptor_text(leaf));
                    assert(py_defs_in(*t, ch@.take(k + 1), nst) == py_defs_in(*t, ch@.take(k as int), nst).push(d));
                    assert(split_symbol_at(*t, file@, Language::Python, py_stops(), d, out@.last()));
                    assert forall|i: int| 0 <= i < out@.len() implies split_symbol_at(
                        *t,
                        file@,
                        Language::Python,
                        py_stops(),
                        py_defs_in(*t, ch@.take(k + 1), nst)[i],
                        #[trigger] out@[i],
                    ) by {
                        if i < prev.len() {
                            assert(out@[i] == prev[i]);
                        }
                    }
                }
            },
            None => {
                assert(py_defs_in(*t, ch@.take(k + 1), nst) =~= py_defs_in(*t, ch@.take(k as int), nst));
            },
        }
        k = k + 1;
    }
    assert(ch@.take(ch.len() as int) =~= ch@);
    out
}

/// The first child of `n` that is a function or class definition.
fn first_def_child(t: &SyntaxTree, n: usize) -> (r: Option<usize>)
    requires
        t.wf(),
        n < t.size(),
    ensures
        r == py_first_def_in(*t, t.children_of(n as int)),
        r matches Some(c) ==> c < t.size(),
{
    let ch = t.children(n);
    let mut k: usize = 0;
    assert(ch@.skip(0) =~= ch@);
    while k < ch.len()
        invariant
            t.wf(),
            k <= ch.len(),
            ch@ == t.children_of(n as int),
            forall|j: int| 0 <= j < ch.len() ==> #[trigger] ch@[j] < t.size(),
            py_first_def_in(*t, ch@.skip(k as int)) == py_first_def_in(*t, t.children_of(n as int)),
        decreases ch.len() - k,
    {
        let c = ch[k];
        assert(ch@.skip(k as int)[0] == c);
        if t.is_kind(c, "function_definition") || t.is_kind(c, "class_definition") {
            return Some(c);
        }
        assert(ch@.skip(k as int).skip(1) =~= ch@.skip(k + 1));
        k = k + 1;
    }
    None
}

/// The callee of node `i`: for a call, a bare identifier or the attribute
/// of an attribute access.
pub open spec fn py_callee(t: SyntaxTree, i: int) -> Option<usize> {
    if t.kind_of(i) == "call"@ {
        match t.field_child_of(i, "function"@) {
            Some(f) => if t.kind_of(f as int) == "identifier"@ {
                Some(f)
            } else if t.kind_of(f as int) == "attribute"@ {
                match t.field_child_of(f as int, "attribute"@) {
                    Some(x) => if t.kind_of(x as int) == "identifier"@ {
                        Some(x)
                    } else {
                        None
                    },
                    None => None,
                }
            } else {
                None
            },
            None => None,
        }
    } else {
        None
    }
}

/// The calls nodes `0..n` make, in pre-order.
pub open spec fn py_calls_upto(t: SyntaxTree, n: int) -> Seq<RefItem>
    decreases n,
{
    if n <= 0 {
        Seq::empty()
    } else {
        py_calls_upto(t, n - 1) + match py_callee(t, n - 1) {
            Some(c) => seq![(c as int, t.text_of(c as int), RefRole::Call)],
            None => Seq::empty(),
        }
    }
}

/// Call references: the callee of every `call` — a bare identifier or the
/// attribute of an attribute access.
fn collect_calls(t: &SyntaxTree, file: &str, out: &mut Vec<Reference>)
    requires
        t.wf(),
    ensures
        refs_grow(*t, file@, old(out)@, final(out)@, py_calls_upto(*t, t.size())),
{
    let mut i: usize = 0;
    proof {
        lemma_refs_grow_none(*t, file@, out@);
    }
    while i < t.nodes.len()
        invariant
            t.wf(),
            i <= t.nodes.len(),
            refs_grow(*t, file@, old(out)@, out@, py_calls_upto(*t, i as int)),
        decreases t.nodes.len() - i,
    {
        let ghost before = out@;
        proof {
            lemma_refs_grow_none(*t, file@, before);
        }
        let mut callee: Option<usize> = None;
        if t.is_kind(i, "call") {
            match t.field_child(i, "function") {
                Some(f) => {
                    if t.is_kind(f, "identifier") {
                        callee = Some(f);
                    } else if t.is_kind(f, "attribute") {
                        match t.field_child(f, "attribute") {
                            Some(x) => {
                                if t.is_kind(x, "identifier") {
                                    callee = Some(x);
                                }
                            },
                            None => {},
                        }
                    }
                },
                None => {},
            }
        }
        assert(callee == py_callee(*t, i as int));
        match callee {
            Some(c) => push_ref_item(out, t.text(c), t, c, file, RefRole::Call),
            None => {},
        }
        proof {
            let step = match py_callee(*t, i as int) {
                Some(c) => seq![(c as int, t.text_of(c as int), RefRole::Call)],
                None => Seq::<RefItem>::empty(),
            };
            assert(py_calls_upto(*t, i + 1) == py_calls_upto(*t, i as int) + step);
            lemma_refs_grow_trans(*t, file@, old(out)@, before, out@, py_calls_upto(*t, i as int), step);
        }
        i = i + 1;
    }
}

/// The imports the children `cs` of an import statement make: each child
/// under field `name` — a dotted name, or the name of an aliased import —
/// by its leaf, from `from` (for `from m import ...`) or from itself.
pub open spec fn py_import_names(t: SyntaxTree, cs: Seq<usize>, is_from: bool, from: Seq<char>) -> Seq<ImportItem>
    decreases cs.len(),
{
    if cs.len() == 0 {
        Seq::empty()
    } else {
        let c = cs.last();
        let target = if t.kind_of(c as int) == "dotted_name"@ {
            Some(c)
        } else if t.kind_of(c as int) == "aliased_import"@ {
            t.field_child_of(c as int, "name"@)
        } else {
            None
        };
        py_import_names(t, cs.drop_last(), is_from, from) + if t.field_of(c as int) == Some("name"@) {
            match target {
                Some(d) => seq![
                    (
                        d as int,
                        simple_name_of(t.text_of(d as int), "."@),
                        if is_from {
                            from
                        } else {
                            t.text_of(d as int)
                        },
                    ),
                ],
                None => Seq::empty(),
            }
        } else {
            Seq::empty()
        }
    }
}

/// The imports node `i` makes.
pub open spec fn py_import_at(t: SyntaxTree, i: int) -> Seq<ImportItem> {
    let is_from = t.kind_of(i) == "import_from_statement"@;
    if is_from || t.kind_of(i) == "import_statement"@ {
        let from = if is_from {
            match t.field_child_of(i, "module_name"@) {
                Some(m) => t.text_of(m as int),
                None => Seq::empty(),
            }
        } else {
            Seq::empty()
        };
        py_import_names(t, t.children_of(i), is_from, from)
    } else {
        Seq::empty()
    }
}

/// The imports nodes `0..n` make, in pre-order.
pub open spec fn py_imports_upto(t: SyntaxTree, n: int) -> Seq<ImportItem>
    decreases n,
{
    if n <= 0 {
        Seq::empty()
    } else {
        py_imports_upto(t, n - 1) + py_import_at(t, n - 1)
    }
}

/// `Import` references: for `from m import a, b as c` each real name's leaf
/// (imported from `m`); for `import x.y` the leaf `y` (imported from `x.y`).
/// Wildcards import nothing.
fn collect_imports(t: &SyntaxTree, file: &str, module_id: &str, out: &mut Vec<Reference>)
    requires
        t.wf(),
    ensures
        imports_grow(*t, file@, module_id@, old(out)@, final(out)@, py_imports_upto(*t, t.size())),
{
    let mut i: usize = 0;
    proof {
        lemma_imports_grow_none(*t, file@, module_id@, out@);
        reveal_strlit("");
    }
    while i < t.nodes.len()
        invariant
            t.wf(),
            i <= t.nodes.len(),
            imports_grow(*t, file@, module_id@, old(out)@, out@, py_imports_upto(*t, i as int)),
        decreases t.nodes.len() - i,
    {
        let ghost before = out@;
        proof {
            lemma_imports_grow_none(*t, file@, module_id@, before);
        }
        let is_from = t.is_kind(i, "import_from_statement");
        if is_from || t.is_kind(i, "import_statement") {
            let module_from = if is_from {
                match t.field_child(i, "module_name") {
                    Some(m) => t.text(m),
                    None => String::new(),
                }
            } else {
                String::new()
            };
            let ghost from = module_from@;
            let ch = t.children(i);
            let mut k: usize = 0;
            assert(ch@.take(0) =~= Seq::<usize>::empty());
            while k < ch.len()
                invariant
                    t.wf(),
                    k <= ch.len(),
                    ch@ == t.children_of(i as int),
                    from == module_from@,
                    forall|j: int| 0 <= j < ch.len() ==> #[trigger] ch@[j] < t.size(),
                    imports_grow(*t, file@, module_id@, before, out@, py_import_names(*t, ch@.take(k as int), is_from, from)),
                decreases ch.len() - k,
            {
                let c = ch[k];
                let ghost mid = out@;
                proof {
                    assert(ch@.take(k + 1).drop_last() =~= ch@.take(k as int));
                    assert(ch@.take(k + 1).last() == c);
                    lemma_imports_grow_none(*t, file@, module_id@, mid);
                }
                if t.has_field(c, "name") {
                    let target = if t.is_kind(c, "dotted_name") {
                        Some(c)
                    } else if t.is_kind(c, "aliased_import") {
                        t.field_child(c, "name")
                    } else {
                        None
                    };
                    match target {
                        Some(d) => {
                            let text = t.text(d);
                            let leaf = simple_type_name(text.as_str(), ".");
                            let from_path = if is_from {
                                module_from.clone()
                            } else {
                                text
                            };
                            push_import_item(out, leaf, t, d, file, module_id, from_path);
                        },
                        None => {},
                    }
                }
                proof {
                    let prev = py_import_names(*t, ch@.take(k as int), is_from, from);
                    let step = py_import_names(*t, ch@.take(k + 1), is_from, from).skip(prev.len() as int);
                    assert(py_import_names(*t, ch@.take(k + 1), is_from, from) =~= prev + step);
                    lemma_imports_grow_trans(*t, file@, module_id@, before, mid, out@, prev, step);
                }
                k = k + 1;
            }
            assert(ch@.take(ch.len() as int) =~= ch@);
            assert(py_import_at(*t, i as int) == py_import_names(*t, ch@, is_from, from));
        }
        proof {
            assert(py_imports_upto(*t, i + 1) == py_imports_upto(*t, i as int) + py_import_at(*t, i as int));
            lemma_imports_grow_trans(*t, file@, module_id@, old(out)@, before, out@, py_imports_upto(*t, i as int), py_import_at(*t, i as int));
        }
        i = i + 1;
    }
}

/// The bases the children `cs` of a superclass list name: a bare name, or
/// the last attribute of a dotted one (at the dotted node).
pub open spec fn py_bases(t: SyntaxTree, cs: Seq<usize>) -> Seq<RefItem>
    decreases cs.len(),
{
    if cs.len() == 0 {
        Seq::empty()
    } else {
        let c = cs.last();
        py_bases(t, cs.drop_last()) + if t.nodes@[c as int].named {
            if t.kind_of(c as int) == "identifier"@ {
                seq![(c as int, t.text_of(c as int), RefRole::IsImplementation)]
            } else if t.kind_of(c as int) == "attribute"@ {
                match t.field_child_of(c as int, "attribute"@) {
                    Some(a) => seq![(c as int, t.text_of(a as int), RefRole::IsImplementation)],
                    None => Seq::empty(),
                }
            } else {
                Seq::empty()
            }
        } else {
            Seq::empty()
        }
    }
}

/// The bases class `i` names.
pub open spec fn py_inherit_at(t: SyntaxTree, i: int) -> Seq<RefItem> {
    if t.kind_of(i) == "class_definition"@ {
        match t.field_child_of(i, "superclasses"@) {
            Some(sc) => py_bases(t, t.children_of(sc as int)),
            None => Seq::empty(),
        }
    } else {
        Seq::empty()
    }
}

/// The bases nodes `0..n` name, in pre-order.
pub open spec fn py_inherits_upto(t: SyntaxTree, n: int) -> Seq<RefItem>
    decreases n,
{
    if n <= 0 {
        Seq::empty()
    } else {
        py_inherits_upto(t, n - 1) + py_inherit_at(t, n - 1)
    }
}

/// The bases the children of superclass list `sc` name.
fn push_bases(t: &SyntaxTree, sc: usize, file: &str, out: &mut Vec<Reference>)
    requires
        t.wf(),
        sc < t.size(),
    ensures
        refs_grow(*t, file@, old(out)@, final(out)@, py_bases(*t, t.children_of(sc as int))),
{
    let ch = t.children(sc);
    let mut k: usize = 0;
    assert(ch@.take(0) =~= Seq::<usize>::empty());
    proof {
        lemma_refs_grow_none(*t, file@, out@);
    }
    while k < ch.len()
        invariant
            t.wf(),
            k <= ch.len(),
            ch@ == t.children_of(sc as int),
            forall|j: int| 0 <= j < ch.len() ==> #[trigger] ch@[j] < t.size(),
            refs_grow(*t, file@, old(out)@, out@, py_bases(*t, ch@.take(k as int))),
        decreases ch.len() - k,
    {
        let c = ch[k];
        let ghost mid = out@;
        proof {
            assert(ch@.take(k + 1).drop_last() =~= ch@.take(k as int));
            assert(ch@.take(k + 1).last() == c);
            lemma_refs_grow_none(*t, file@, mid);
        }
        if t.nodes[c].named {
            if t.is_kind(c, "identifier") {
                push_ref_item(out, t.text(c), t, c, file, RefRole::IsImplementation);
            } else if t.is_kind(c, "attribute") {
                match field_text(t, c, "attribute") {
                    Some(name) => push_ref_item(out, name, t, c, file, RefRole::IsImplementation),
                    None => {},
                }
            }
        }
        proof {
            let prev = py_bases(*t, ch@.take(k as int));
            let step = py_bases(*t, ch@.take(k + 1)).skip(prev.len() as int);
            assert(py_bases(*t, ch@.take(k + 1)) =~= prev + step);
            lemma_refs_grow_trans(*t, file@, old(out)@, mid, out@, prev, step);
        }
        k = k + 1;
    }
    assert(ch@.take(ch.len() as int) =~= ch@);
}

/// `IsImplementation` references for the base classes of every class: a
/// bare name, or the last attribute of a dotted one.
fn collect_inheritance(t: &SyntaxTree, file: &str, out: &mut Vec<Reference>)
    requires
        t.wf(),
    ensures
        refs_grow(*t, file@, old(out)@, final(out)@, py_inherits_upto(*t, t.size())),
{
    let mut i: usize = 0;
    proof {
        lemma_refs_grow_none(*t, file@, out@);
    }
    while i < t.nodes.len()
        invariant
            t.wf(),
            i <= t.nodes.len(),
            refs_grow(*t, file@, old(out)@, out@, py_inherits_upto(*t, i as int)),
        decreases t.nodes.len() - i,
    {
        let ghost before = out@;
        proof {
            lemma_refs_grow_none(*t, file@, before);
        }
        if t.is_kind(i, "class_definition") {
            match t.field_child(i, "superclasses") {
                Some(sc) => push_bases(t, sc, file, out),
                None => {},
            }
        }
        proof {
            assert(py_inherits_upto(*t, i + 1) == py_inherits_upto(*t, i as int) + py_inherit_at(*t, i as int));
            lemma_refs_grow_trans(*t, file@, old(out)@, before, out@, py_inherits_upto(*t, i as int), py_inherit_at(*t, i as int));
        }
        i = i + 1;
    }
}

/// The scopes `ss` grows to as the tree below node `n` is walked, the
/// enclosing scope being `parent`: a `Function` scope per `def` (its body's
/// statements go straight into it); nothing else opens a scope.
pub open spec fn py_scope_dfs(t: SyntaxTree, n: int, parent: int, ss: Seq<Scope>) -> Seq<Scope>
    decreases t.size() - n, 1nat, 0nat,
{
    if t.kind_of(n) == "function_definition"@ {
        let ss1 = ss.push(scope_of(t, n, parent, ScopeKind::Function));
        match t.field_child_of(n, "body"@) {
            Some(b) => py_children_dfs(t, n, t.children_of(b as int), ss.len() as int, ss1),
            None => ss1,
        }
    } else {
        py_children_dfs(t, n, t.children_of(n), parent, ss)
    }
}

/// The scopes `ss` grows to as the trees below `cs` (nodes after `n`) are
/// walked in turn.
pub open spec fn py_children_dfs(t: SyntaxTree, n: int, cs: Seq<usize>, parent: int, ss: Seq<Scope>) -> Seq<Scope>
    decreases t.size() - n, 0nat, cs.len(),
{
    if cs.len() == 0 {
        ss
    } else {
        py_children_dfs(
            t,
            n,
            cs.skip(1),
            parent,
            if n < cs[0] < t.size() {
                py_scope_dfs(t, cs[0] as int, parent, ss)
            } else {
                ss
            },
        )
    }
}

/// The scope tree of a Python file of `len` bytes.
pub open spec fn py_scope_tree(t: SyntaxTree, len: usize) -> Seq<Scope> {
    py_children_dfs(t, 0, t.children_of(0), 0, seq![root_scope(len)])
}

/// Open a `Function` scope below node `n` for every `def` (its body's
/// statements go straight into it); nothing else opens a scope.
fn scope_dfs(t: &SyntaxTree, n: usize, parent: ScopeId, scopes: &mut Vec<Scope>)
    requires
        t.wf(),
        n < t.size(),
        parent < old(scopes).len(),
    ensures
        scopes_extend(old(scopes)@, final(scopes)@),
        final(scopes)@ == py_scope_dfs(*t, n as int, parent as int, old(scopes)@),
    decreases t.size() - n, 1nat,
{
    proof {
        lemma_scopes_extend_refl(scopes@);
    }
    let ghost s0 = scopes@;
    if t.is_kind(n, "function_definition") {
        let id = push_scope(scopes, Some(parent), node_span(t, n), ScopeKind::Function);
        let ghost s1 = scopes@;
        assert(s1 =~= s0.push(scope_of(*t, n as int, parent as int, ScopeKind::Function)));
        assert(scopes_extend(s0, s1)) by {
            assert(s1.take(s0.len() as int) =~= s0);
        }
        match t.field_child(n, "body") {
            Some(body) => {
                let ch = t.children(body);
                proof {
                    t.lemma_children_bounds(body as int);
                }
                children_dfs(t, &ch, n, id, scopes);
                proof { lemma_scopes_extend_trans(s0, s1, scopes@); }
            },
            None => {},
        }
    } else {
        let ch = t.children(n);
        children_dfs(t, &ch, n, parent, scopes);
    }
}

/// `scope_dfs` over each of `ch`, all of them below node `n`.
fn children_dfs(t: &SyntaxTree, ch: &Vec<usize>, n: usize, parent: ScopeId, scopes: &mut Vec<Scope>)
    requires
        t.wf(),
        n < t.size(),
        forall|j: int| 0 <= j < ch.len() ==> n < #[trigger] ch@[j] < t.size(),
        parent < old(scopes).len(),
    ensures
        scopes_extend(old(scopes)@, final(scopes)@),
        final(scopes)@ == py_children_dfs(*t, n as int, ch@, parent as int, old(scopes)@),
    decreases t.size() - n, 0nat,
{
    proof {
        lemma_scopes_extend_refl(scopes@);
    }
    let mut k: usize = 0;
    assert(ch@.skip(0) =~= ch@);
    while k < ch.len()
        invariant
            t.wf(),
            n < t.size(),
            k <= ch.len(),
            forall|j: int| 0 <= j < ch.len() ==> n < #[trigger] ch@[j] < t.size(),
            parent < scopes.len(),
            scopes_extend(old(scopes)@, scopes@),
            py_children_dfs(*t, n as int, ch@, parent as int, old(scopes)@) == py_children_dfs(
                *t,
                n as int,
                ch@.skip(k as int),
                parent as int,
                scopes@,
            ),
        decreases ch.len() - k,
    {
        let ghost before = scopes@;
        assert(ch@.skip(k as int)[0] == ch@[k as int]);
        assert(ch@.skip(k as int).skip(1) =~= ch@.skip(k + 1));
        scope_dfs(t, ch[k], parent, scopes);
        proof { lemma_scopes_extend_trans(old(scopes)@, before, scopes@); }
        k = k + 1;
    }
}

/// The scope tree of a Python file.
fn collect_scopes(t: &SyntaxTree, source_len: usize) -> (r: Vec<Scope>)
    requires
        t.wf(),
    ensures
        scope_tree_wf(r@, source_len as int),
        r@ == py_scope_tree(*t, source_len),
{
    let mut scopes = root_scopes(source_len);
    let ghost s0 = scopes@;
    let ch = t.children(0);
    children_dfs(t, &ch, 0, 0, &mut scopes);
    proof { lemma_scopes_extend_wf(s0, scopes@, source_len as int); }
    scopes
}

/// The first of `cs` that is a named identifier.
pub open spec fn py_first_ident_in(t: SyntaxTree, cs: Seq<usize>) -> Option<usize>
    decreases cs.len(),
{
    if cs.len() == 0 {
        None
    } else if t.nodes@[cs[0] as int].named && t.kind_of(cs[0] as int) == "identifier"@ {
        Some(cs[0])
    } else {
        py_first_ident_in(t, cs.skip(1))
    }
}

/// The identifier parameter `c` binds: itself, the `name` of a default, or
/// the first named identifier of a typed or splat parameter.
pub open spec fn py_param_ident(t: SyntaxTree, c: int) -> Option<usize> {
    let k = t.kind_of(c);
    if k == "identifier"@ {
        Some(c as usize)
    } else if k == "default_parameter"@ || k == "typed_default_parameter"@ {
        t.field_child_of(c, "name"@)
    } else if k == "typed_parameter"@ || k == "list_splat_pattern"@ || k == "dictionary_splat_pattern"@ {
        py_first_ident_in(t, t.children_of(c))
    } else {
        None
    }
}

/// The parameter bindings the children `cs` of a `parameters` node make.
pub open spec fn py_params_in(t: SyntaxTree, cs: Seq<usize>) -> Seq<LocalItem>
    decreases cs.len(),
{
    if cs.len() == 0 {
        Seq::empty()
    } else {
        let c = cs.last();
        py_params_in(t, cs.drop_last()) + if t.nodes@[c as int].named {
            match py_param_ident(t, c as int) {
                Some(id) => if t.kind_of(id as int) == "identifier"@ {
                    seq![(t.nodes@[id as int].start as int, t.text_of(id as int), BindingKind::Param)]
                } else {
                    Seq::empty()
                },
                None => Seq::empty(),
            }
        } else {
            Seq::empty()
        }
    }
}

/// The bindings node `i` makes: the parameters of a `def`; the bare name an
/// assignment assigns.
pub open spec fn py_bindings_at(t: SyntaxTree, i: int) -> Seq<LocalItem> {
    if t.kind_of(i) == "function_definition"@ {
        match t.field_child_of(i, "parameters"@) {
            Some(p) => py_params_in(t, t.children_of(p as int)),
            None => Seq::empty(),
        }
    } else if t.kind_of(i) == "assignment"@ {
        match t.field_child_of(i, "left"@) {
            Some(l) => if t.kind_of(l as int) == "identifier"@ {
                seq![(t.nodes@[l as int].start as int, t.text_of(l as int), BindingKind::Local)]
            } else {
                Seq::empty()
            },
            None => Seq::empty(),
        }
    } else {
        Seq::empty()
    }
}

/// The bindings nodes `0..n` make, in pre-order.
pub open spec fn py_bindings_upto(t: SyntaxTree, n: int) -> Seq<LocalItem>
    decreases n,
{
    if n <= 0 {
        Seq::empty()
    } else {
        py_bindings_upto(t, n - 1) + py_bindings_at(t, n - 1)
    }
}

/// `Param` bindings for a `parameters` node: plain, default, typed and
/// splat parameters by the identifier they bind.
fn collect_params(t: &SyntaxTree, params: usize, scopes: &Vec<Scope>, out: &mut Vec<Binding>)
    requires
        t.wf(),
        params < t.size(),
        scopes.len() >= 1,
    ensures
        locals_grow(scopes@, old(out)@, final(out)@, py_params_in(*t, t.children_of(params as int))),
{
    let ch = t.children(params);
    let mut k: usize = 0;
    assert(ch@.take(0) =~= Seq::<usize>::empty());
    proof {
        lemma_locals_grow_none(scopes@, out@);
    }
    while k < ch.len()
        invariant
            t.wf(),
            scopes.len() >= 1,
            k <= ch.len(),
            ch@ == t.children_of(params as int),
            forall|j: int| 0 <= j < ch.len() ==> #[trigger] ch@[j] < t.size(),
            locals_grow(scopes@, old(out)@, out@, py_params_in(*t, ch@.take(k as int))),
        decreases ch.len() - k,
    {
        let c = ch[k];
        let ghost mid = out@;
        proof {
            assert(ch@.take(k + 1).drop_last() =~= ch@.take(k as int));
            assert(ch@.take(k + 1).last() == c);
            lemma_locals_grow_none(scopes@, mid);
        }
        if t.nodes[c].named {
            let ident = if t.is_kind(c, "identifier") {
                Some(c)
            } else if t.is_kind(c, "default_parameter") || t.is_kind(c, "typed_default_parameter") {
                t.field_child(c, "name")
            } else if t.is_kind(c, "typed_parameter") || t.is_kind(c, "list_splat_pattern") || t.is_kind(c, "dictionary_splat_pattern") {
                first_named_identifier(t, c)
            } else {
                None
            };
            assert(ident == py_param_ident(*t, c as int));
            match ident {
                Some(id) => {
                    if t.is_kind(id, "identifier") {
                        push_local_item(out, t.text(id), t.nodes[id].start, BindingKind::Param, scopes);
                    }
                },
                None => {},
            }
        }
        proof {
            let prev = py_params_in(*t, ch@.take(k as int));
            let step = py_params_in(*t, ch@.take(k + 1)).skip(prev.len() as int);
            assert(py_params_in(*t, ch@.take(k + 1)) =~= prev + step);
            lemma_locals_grow_trans(scopes@, old(out)@, mid, out@, prev, step);
        }
        k = k + 1;
    }
    assert(ch@.take(ch.len() as int) =~= ch@);
}

/// The first named `identifier` child of `n`.
fn first_named_identifier(t: &SyntaxTree, n: usize) -> (r: Option<usize>)
    requires
        t.wf(),
        n < t.size(),
    ensures
        r == py_first_ident_in(*t, t.children_of(n as int)),
        r matches Some(c) ==> c < t.size(),
{
    let ch = t.children(n);
    let mut k: usize = 0;
    assert(ch@.skip(0) =~= ch@);
    while k < ch.len()
        invariant
            t.wf(),
            k <= ch.len(),
            ch@ == t.children_of(n as int),
            forall|j: int| 0 <= j < ch.len() ==> #[trigger] ch@[j] < t.size(),
            py_first_ident_in(*t, ch@.skip(k as int)) == py_first_ident_in(*t, t.children_of(n as int)),
        decreases ch.len() - k,
    {
        let c = ch[k];
        assert(ch@.skip(k as int)[0] == c);
        if t.nodes[c].named && t.is_kind(c, "identifier") {
            return Some(c);
        }
        assert(ch@.skip(k as int).skip(1) =~= ch@.skip(k + 1));
        k = k + 1;
    }
    None
}

/// Parameter bindings of every `def`, and a `Local` binding for every
/// assignment to a bare name.
fn collect_bindings(t: &SyntaxTree, scopes: &Vec<Scope>) -> (r: Vec<Binding>)
    requires
        t.wf(),
        scopes.len() >= 1,
    ensures
        bindings_ok(r@, scopes.len() as int),
        locals_match(scopes@, py_bindings_upto(*t, t.size()), r@),
{
    let mut out: Vec<Binding> = Vec::new();
    let mut i: usize = 0;
    proof {
        lemma_locals_grow_none(scopes@, out@);
    }
    while i < t.nodes.len()
        invariant
            t.wf(),
            scopes.len() >= 1,
            i <= t.nodes.len(),
            locals_grow(scopes@, Seq::empty(), out@, py_bindings_upto(*t, i as int)),
        decreases t.nodes.len() - i,
    {
        let ghost before = out@;
        proof {
            lemma_locals_grow_none(scopes@, before);
        }
        if t.is_kind(i, "function_definition") {
            match t.field_child(i, "parameters") {
                Some(p) => collect_params(t, p, scopes, &mut out),
                None => {},
            }
        } else if t.is_kind(i, "assignment") {
            match t.field_child(i, "left") {
                Some(l) => {
                    if t.is_kind(l, "identifier") {
                        push_local_item(&mut out, t.text(l), t.nodes[l].start, BindingKind::Local, scopes);
                    }
                },
                None => {},
            }
        }
        proof {
            assert(py_bindings_upto(*t, i + 1) == py_bindings_upto(*t, i as int) + py_bindings_at(*t, i as int));
            lemma_locals_grow_trans(scopes@, Seq::empty(), before, out@, py_bindings_upto(*t, i as int), py_bindings_at(*t, i as int));
        }
        i = i + 1;
    }
    assert(out@.skip(0) =~= out@);
    assert(out@.take(0) =~= Seq::<Binding>::empty());
    out
}

/// The plain references of a Python file, in order: calls, then bases.
pub open spec fn py_refs(t: SyntaxTree) -> Seq<RefItem> {
    py_calls_upto(t, t.size()) + py_inherits_upto(t, t.size())
}

/// What `python_facts` states of the facts `r` it builds from tree `t` of
/// `source`, the text of `file`.
pub open spec fn python_facts_of(t: SyntaxTree, source: Seq<char>, file: Seq<char>, r: FileFacts) -> bool {
    &&& scope_tree_wf(r.scopes@, encode_utf8(source).len() as int)
    &&& r.symbols@.len() >= 1
    &&& r.symbols@.last().kind == SymbolKind::Module
    &&& r.ffi_exports@.len() == 0
    &&& split_symbols_match(
        t,
        file,
        Language::Python,
        py_stops(),
        py_defs_in(t, t.children_of(0), namespaces_text(python_namespaces_spec(file))),
        r.symbols@.drop_last(),
    )
    &&& module_symbol_spec(r.symbols@.last(), Language::Python, python_namespaces_spec(file), file, encode_utf8(source).len() as int)
    &&& ({
        let plain = py_refs(t);
        let imports = py_imports_upto(t, t.size());
        &&& r.references@.len() == plain.len() + imports.len()
        &&& refs_items(t, file, plain, r.references@.take(plain.len() as int))
        &&& forall|j: int|
            0 <= j < imports.len() ==> import_ref_at(
                t,
                file,
                scip_text(r.symbols@.last().id),
                imports[j],
                #[trigger] r.references@.skip(plain.len() as int)[j],
            )
    })
    &&& r.scopes@ == py_scope_tree(t, (encode_utf8(source).len() as usize))
    &&& ({
        let locals = py_bindings_upto(t, t.size());
        let defs = r.symbols@.drop_last();
        &&& r.bindings@.len() == locals.len() + defs.len() + imports_of(r.references@).len()
        &&& locals_match(r.scopes@, locals, r.bindings@.take(locals.len() as int))
        &&& def_bindings_of(defs, r.bindings@.subrange(locals.len() as int, (locals.len() + defs.len()) as int))
        &&& import_bindings_of(r.references@, r.scopes@, r.bindings@.skip((locals.len() + defs.len()) as int))
    })
}

/// The facts of a Python file from its syntax tree: the top-level
/// definitions, in order, then the file's module symbol; calls and bases,
/// then imports (from the module), each in pre-order; the scope tree;
/// local, definition and import bindings.
pub fn python_facts(t: &SyntaxTree, source: &str, file: &str) -> (r: FileFacts)
    requires
        t.wf(),
        t.bytes@ == encode_utf8(source@),
    ensures
        facts_wf(r, file@, source@, Language::Python),
        python_facts_of(*t, source@, file@, r),
{
    let len = source.len();
    let ns = python_namespaces(file);
    let defs = collect_symbols(t, file, &ns);
    let def_bindings = definition_bindings(&defs);
    let mut symbols = defs;
    let ghost defs_seq = symbols@;
    let module = module_symbol(Language::Python, &ns, file, len);
    let module_id = module.id.to_scip_string();
    symbols.push(module);
    assert(symbols@.drop_last() =~= defs_seq);
    let mut refs: Vec<Reference> = Vec::new();
    let ghost r0 = refs@;
    collect_calls(t, file, &mut refs);
    let ghost r1 = refs@;
    collect_inheritance(t, file, &mut refs);
    let ghost r2 = refs@;
    collect_imports(t, file, module_id.as_str(), &mut refs);
    proof {
        lemma_refs_grow_trans(*t, file@, r0, r1, r2, py_calls_upto(*t, t.size()), py_inherits_upto(*t, t.size()));
        assert(r2.skip(0) =~= r2);
        assert(refs@.take(r2.len() as int) == r2);
        assert(refs_ok(Seq::<Reference>::empty(), file@, t.bytes.len() as int));
    }
    let scopes = collect_scopes(t, len);
    let ghost before = refs@;
    let refs = attach_reference_scopes(refs, &scopes);
    proof {
        let plain = py_refs(*t);
        let n = plain.len() as int;
        assert(refs_items(*t, file@, plain, before.take(n))) by {
            assert(before.take(n) =~= r2);
        }
        assert(super::scope::scopes_attached(before.take(n), refs@.take(n), scopes@));
        lemma_refs_items_attached(*t, file@, plain, before.take(n), refs@.take(n), scopes@);
        let imports = py_imports_upto(*t, t.size());
        assert forall|j: int| 0 <= j < imports.len() implies import_ref_at(
            *t,
            file@,
            scip_text(symbols@.last().id),
            imports[j],
            #[trigger] refs@.skip(n)[j],
        ) by {
            assert(import_ref_at(*t, file@, module_id@, imports[j], before.skip(n)[j]));
            assert(refs@.skip(n)[j] == refs@[n + j]);
            assert(before.skip(n)[j] == before[n + j]);
        }
    }
    let mut bindings = collect_bindings(t, &scopes);
    let ghost locals = bindings@;
    let ib = import_bindings(&refs, &scopes);
    proof {
        assert forall|i: int| 0 <= i < ib@.len() implies (#[trigger] ib@[i]).scope < scopes.len() by {
            lemma_binding_scope_bound(scopes@, imports_of(refs@)[i].occ.byte as int, ib@[i].scope);
        }
    }
    let ghost dbs = def_bindings@;
    let ghost ibs = ib@;
    append_bindings(&mut bindings, def_bindings, scopes.len());
    append_bindings(&mut bindings, ib, scopes.len());
    proof {
        let l = locals.len() as int;
        let d = dbs.len() as int;
        assert(bindings@ == locals + dbs + ibs);
        assert(bindings@.take(l) =~= locals);
        assert(bindings@.subrange(l, l + d) =~= dbs);
        assert(bindings@.skip(l + d) =~= ibs);
    }
    FileFacts {
        file: file.to_owned(),
        lang: Language::Python.as_str().to_owned(),
        symbols,
        references: refs,
        scopes,
        bindings,
        ffi_exports: Vec::new(),
    }
}

impl Extractor for PythonExtractor {
    open spec fn spec_lang(&self) -> Language {
        Language::Python
    }

    fn lang(&self) -> (r: Language) {
        Language::Python
    }

    fn extract(&self, source: &str, file: &str) -> (r: Result<FileFacts>)
        ensures
            r is Ok <==> super::parses(Grammar::Python, source@),
            r matches Ok(f) ==> super::extracted(Language::Python, source@, file@, f),
    {
        let t = super::parse_tree(Grammar::Python, source, file)?;
        let res: Result<FileFacts> = Ok(python_facts(&t, source, file));
        assert(super::parsed_by(t, Grammar::Python, source@) && python_facts_of(t, source@, file@, res->Ok_0));
        res
    }
}

/// A callee of a node before `n` is among the calls of nodes `0..n`.
proof fn lemma_python_calls_upto_has(t: SyntaxTree, i: int, n: int, m: usize)
    requires
        0 <= i < n,
        py_callee(t, i) == Some(m),
    ensures
        exists|k: int|
            0 <= k < py_calls_upto(t, n).len() && py_calls_upto(t, n)[k] == (m as int, t.text_of(m as int), RefRole::Call),
    decreases n,
{
    let prev = py_calls_upto(t, n - 1);
    if i < n - 1 {
        lemma_python_calls_upto_has(t, i, n - 1, m);
        let k = choose|k: int| 0 <= k < prev.len() && prev[k] == (m as int, t.text_of(m as int), RefRole::Call);
        assert(py_calls_upto(t, n)[k] == prev[k]);
    } else {
        assert(py_calls_upto(t, n)[prev.len() as int] == (m as int, t.text_of(m as int), RefRole::Call));
    }
}

/// Law: every call whose function is an identifier or the identifier attribute of an attribute access is a `Call` reference of the file, named by that node's
/// text and occurring where it starts.
pub proof fn law_python_calls_are_referenced(
    t: SyntaxTree,
    source: Seq<char>,
    file: Seq<char>,
    r: FileFacts,
    i: int,
    f: usize,
    m: usize,
)
    requires
        python_facts_of(t, source, file, r),
        0 <= i < t.size(),
        t.kind_of(i) == "call"@,
        (t.field_child_of(i, "function"@) == Some(m) && t.kind_of(m as int) == "identifier"@) || (t.field_child_of(i, "function"@) == Some(f) && t.kind_of(f as int) == "attribute"@ && t.field_child_of(f as int, "attribute"@) == Some(m) && t.kind_of(m as int) == "identifier"@),
    ensures
        exists|j: int|
            0 <= j < r.references.len() && (#[trigger] r.references@[j]).role == RefRole::Call
                && r.references@[j].name@ == t.text_of(m as int) && r.references@[j].occ.byte
                == t.nodes@[m as int].start,
{
    reveal_strlit("identifier");
    assert("identifier"@ =~= seq!['i', 'd', 'e', 'n', 't', 'i', 'f', 'i', 'e', 'r']);
    reveal_strlit("attribute");
    assert("attribute"@ =~= seq!['a', 't', 't', 'r', 'i', 'b', 'u', 't', 'e']);
    assert(py_callee(t, i) == Some(m));
    lemma_python_calls_upto_has(t, i, t.size(), m);
    let calls = py_calls_upto(t, t.size());
    let k = choose|k: int| 0 <= k < calls.len() && calls[k] == (m as int, t.text_of(m as int), RefRole::Call);
    let refs = py_refs(t);
    assert(refs[k] == calls[k]);
    let got = r.references@.take(refs.len() as int);
    assert(super::support::ref_at(t, refs[k].0, file, refs[k].1, refs[k].2, got[k]));
    assert(got[k] == r.references@[k]);
}

} // verus!
