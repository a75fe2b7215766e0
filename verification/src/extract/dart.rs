//! Dart: the walks over a syntax tree that turn `import` directives into
//! `Import` references and parameters and local variables into bindings.
//! The tree comes from a Dart grammar; the walks themselves only read it.

use vstd::prelude::*;
use vstd::utf8::*;
use crate::graph::{Binding, BindingKind, Reference, Scope, ScopeId, ScopeKind};
use crate::text::{chars_of, slice_chars, string_from_chars};
use super::tree::SyntaxTree;
use super::go::scope_of;
use super::scope::{
    push_scope, root_scopes, root_scope, scope_tree_wf, scopes_extend, lemma_scopes_extend_refl,
    lemma_scopes_extend_trans, lemma_scopes_extend_wf, innermost_scope, innermost_spec, is_innermost, nested_at_least, LocalItem, locals_match, locals_grow,
    lemma_locals_grow_none, lemma_locals_grow_trans, push_local_item,
};
use super::support::{
    bindings_ok, node_span, ImportItem, imports_grow, lemma_imports_grow_none, lemma_imports_grow_trans, push_import_item,
};

verus! {

// ── Bindings ────────────────────────────────────────────────────────────────

/// The parameter bindings the children `cs` of a parameter list make: each
/// named `formal_parameter` with a `name`, introduced where it starts.
pub open spec fn dart_params_in(t: SyntaxTree, cs: Seq<usize>) -> Seq<LocalItem>
    decreases cs.len(),
{
    if cs.len() == 0 {
        Seq::empty()
    } else {
        let c = cs.last();
        dart_params_in(t, cs.drop_last()) + if t.nodes@[c as int].named && t.kind_of(c as int) == "formal_parameter"@ {
            match t.field_child_of(c as int, "name"@) {
                Some(nm) => seq![(t.nodes@[c as int].start as int, t.text_of(nm as int), BindingKind::Param)],
                None => Seq::empty(),
            }
        } else {
            Seq::empty()
        }
    }
}

/// The parameter list of a function or method declaration `i`: the
/// `parameters` of the `function_signature` inside its `signature`, else
/// the `parameters` of the signature itself.
pub open spec fn dart_params_node(t: SyntaxTree, i: int) -> Option<usize> {
    match t.field_child_of(i, "signature"@) {
        Some(s) => {
            let own = t.field_child_of(s as int, "parameters"@);
            match t.kind_child_of(s as int, "function_signature"@) {
                Some(f) => match t.field_child_of(f as int, "parameters"@) {
                    Some(p) => Some(p),
                    None => own,
                },
                None => own,
            }
        },
        None => None,
    }
}

/// Whether a local variable named `name`, introduced at byte `intro`, is
/// recorded: its name is at least `min_len` bytes long and the innermost
/// scope around it is not the file's root scope.
pub open spec fn dart_local_kept(scopes: Seq<Scope>, min_len: int, name: Seq<char>, intro: int) -> bool {
    encode_utf8(name).len() >= min_len && !is_innermost(scopes, intro, 0)
}

/// The local bindings the children `cs` of an `initialized_identifier_list`
/// make: each `initialized_identifier` with a `name` that is kept.
pub open spec fn dart_local_names_in(t: SyntaxTree, scopes: Seq<Scope>, min_len: int, cs: Seq<usize>) -> Seq<LocalItem>
    decreases cs.len(),
{
    if cs.len() == 0 {
        Seq::empty()
    } else {
        let c = cs.last();
        dart_local_names_in(t, scopes, min_len, cs.drop_last()) + if t.kind_of(c as int) == "initialized_identifier"@ {
            match t.field_child_of(c as int, "name"@) {
                Some(nm) => if dart_local_kept(scopes, min_len, t.text_of(nm as int), t.nodes@[c as int].start as int) {
                    seq![(t.nodes@[c as int].start as int, t.text_of(nm as int), BindingKind::Local)]
                } else {
                    Seq::empty()
                },
                None => Seq::empty(),
            }
        } else {
            Seq::empty()
        }
    }
}

/// The local bindings the children `cs` of a `local_variable_declaration`
/// make, list by list.
pub open spec fn dart_locals_in(t: SyntaxTree, scopes: Seq<Scope>, min_len: int, cs: Seq<usize>) -> Seq<LocalItem>
    decreases cs.len(),
{
    if cs.len() == 0 {
        Seq::empty()
    } else {
        let c = cs.last();
        dart_locals_in(t, scopes, min_len, cs.drop_last()) + if t.kind_of(c as int) == "initialized_identifier_list"@ {
            dart_local_names_in(t, scopes, min_len, t.children_of(c as int))
        } else {
            Seq::empty()
        }
    }
}

/// The bindings node `i` makes: the parameters of a function or method
/// declaration; the kept names of a local variable declaration.
pub open spec fn dart_bindings_at(t: SyntaxTree, scopes: Seq<Scope>, min_len: int, i: int) -> Seq<LocalItem> {
    if t.kind_of(i) == "function_declaration"@ || t.kind_of(i) == "method_declaration"@ {
        match dart_params_node(t, i) {
            Some(p) => dart_params_in(t, t.children_of(p as int)),
            None => Seq::empty(),
        }
    } else if t.kind_of(i) == "local_variable_declaration"@ {
        dart_locals_in(t, scopes, min_len, t.children_of(i))
    } else {
        Seq::empty()
    }
}

/// The bindings nodes `0..n` make, in pre-order.
pub open spec fn dart_bindings_upto(t: SyntaxTree, scopes: Seq<Scope>, min_len: int, n: int) -> Seq<LocalItem>
    decreases n,
{
    if n <= 0 {
        Seq::empty()
    } else {
        dart_bindings_upto(t, scopes, min_len, n - 1) + dart_bindings_at(t, scopes, min_len, n - 1)
    }
}

/// The innermost scope of a byte is the root exactly when the search for it
/// answers the root.
proof fn lemma_innermost_root(scopes: Seq<Scope>, b: int, r: Option<usize>)
    requires
        innermost_spec(scopes, b, r),
    ensures
        is_innermost(scopes, b, 0) <==> r == Some(0usize),
{
    match r {
        Some(id) => {
            if is_innermost(scopes, b, 0) {
                assert(nested_at_least(scopes, id as int, 0));
                assert(nested_at_least(scopes, 0, id as int));
            }
        },
        None => {
            if is_innermost(scopes, b, 0) {
                assert(scopes[0].span.spec_contains(b));
            }
        },
    }
}

/// The parameter bindings of parameter list `params`.
fn collect_params(t: &SyntaxTree, params: usize, scopes: &Vec<Scope>, out: &mut Vec<Binding>)
    requires
        t.wf(),
        params < t.size(),
        scopes.len() >= 1,
    ensures
        locals_grow(scopes@, old(out)@, final(out)@, dart_params_in(*t, t.children_of(params as int))),
{
    let ch = t.children(params);
    let mut k: usize = 0;
    assert(ch@.take(0) =~= Seq::<usize>::empty());
    proof {
        lemma_locals_grow_none(scopes@, out@);
    }
    while k < ch.len()
        invariant
            t.wf(),
            scopes.len() >= 1,
            k <= ch.len(),
            ch@ == t.children_of(params as int),
            forall|j: int| 0 <= j < ch.len() ==> #[trigger] ch@[j] < t.size(),
            locals_grow(scopes@, old(out)@, out@, dart_params_in(*t, ch@.take(k as int))),
        decreases ch.len() - k,
    {
        let c = ch[k];
        let ghost mid = out@;
        proof {
            assert(ch@.take(k + 1).drop_last() =~= ch@.take(k as int));
            assert(ch@.take(k + 1).last() == c);
            lemma_locals_grow_none(scopes@, mid);
        }
        if t.nodes[c].named && t.is_kind(c, "formal_parameter") {
            match t.field_child(c, "name") {
                Some(nm) => {
                    push_local_item(out, t.text(nm), t.nodes[c].start, BindingKind::Param, scopes);
                },
                None => {},
            }
        }
        proof {
            let prev = dart_params_in(*t, ch@.take(k as int));
            let step = dart_params_in(*t, ch@.take(k + 1)).skip(prev.len() as int);
            assert(dart_params_in(*t, ch@.take(k + 1)) =~= prev + step);
            lemma_locals_grow_trans(scopes@, old(out)@, mid, out@, prev, step);
        }
        k = k + 1;
    }
    assert(ch@.take(ch.len() as int) =~= ch@);
}

/// The parameter list of function or method declaration `i`.
fn params_node(t: &SyntaxTree, i: usize) -> (r: Option<usize>)
    requires
        t.wf(),
        i < t.size(),
    ensures
        r == dart_params_node(*t, i as int),
        r matches Some(p) ==> p < t.size(),
{
    match t.field_child(i, "signature") {
        Some(s) => {
            let own = t.field_child(s, "parameters");
            match t.child_of_kind(s, "function_signature") {
                Some(f) => match t.field_child(f, "parameters") {
                    Some(p) => Some(p),
                    None => own,
                },
                None => own,
            }
        },
        None => None,
    }
}

/// The kept local bindings of `initialized_identifier_list` node `list`.
fn collect_local_names(
    t: &SyntaxTree,
    list: usize,
    scopes: &Vec<Scope>,
    min_len: usize,
    out: &mut Vec<Binding>,
)
    requires
        t.wf(),
        list < t.size(),
        scopes.len() >= 1,
    ensures
        locals_grow(
            scopes@,
            old(out)@,
            final(out)@,
            dart_local_names_in(*t, scopes@, min_len as int, t.children_of(list as int)),
        ),
{
    let ch = t.children(list);
    let mut k: usize = 0;
    assert(ch@.take(0) =~= Seq::<usize>::empty());
    proof {
        lemma_locals_grow_none(scopes@, out@);
    }
    while k < ch.len()
        invariant
            t.wf(),
            scopes.len() >= 1,
            k <= ch.len(),
            ch@ == t.children_of(list as int),
            forall|j: int| 0 <= j < ch.len() ==> #[trigger] ch@[j] < t.size(),
            locals_grow(scopes@, old(out)@, out@, dart_local_names_in(*t, scopes@, min_len as int, ch@.take(k as int))),
        decreases ch.len() - k,
    {
        let c = ch[k];
        let ghost mid = out@;
        proof {
            assert(ch@.take(k + 1).drop_last() =~= ch@.take(k as int));
            assert(ch@.take(k + 1).last() == c);
            lemma_locals_grow_none(scopes@, mid);
        }
        if t.is_kind(c, "initialized_identifier") {
            match t.field_child(c, "name") {
                Some(nm) => {
                    let name = t.text(nm);
                    let intro = t.nodes[c].start;
                    let inner = innermost_scope(intro, scopes);
                    proof {
                        lemma_innermost_root(scopes@, intro as int, inner);
                    }
                    let not_root = match inner {
                        Some(id) => id != 0,
                        None => true,
                    };
                    if name.as_str().as_bytes().len() >= min_len && not_root {
                        push_local_item(out, name, intro, BindingKind::Local, scopes);
                    }
                },
                None => {},
            }
        }
        proof {
            let prev = dart_local_names_in(*t, scopes@, min_len as int, ch@.take(k as int));
            let step = dart_local_names_in(*t, scopes@, min_len as int, ch@.take(k + 1)).skip(prev.len() as int);
            assert(dart_local_names_in(*t, scopes@, min_len as int, ch@.take(k + 1)) =~= prev + step);
            lemma_locals_grow_trans(scopes@, old(out)@, mid, out@, prev, step);
        }
        k = k + 1;
    }
    assert(ch@.take(ch.len() as int) =~= ch@);
}

/// The kept local bindings of `local_variable_declaration` node `decl`.
fn collect_locals(t: &SyntaxTree, decl: usize, scopes: &Vec<Scope>, min_len: usize, out: &mut Vec<Binding>)
    requires
        t.wf(),
        decl < t.size(),
        scopes.len() >= 1,
    ensures
        locals_grow(
            scopes@,
            old(out)@,
            final(out)@,
            dart_locals_in(*t, scopes@, min_len as int, t.children_of(decl as int)),
        ),
{
    let ch = t.children(decl);
    let mut k: usize = 0;
    assert(ch@.take(0) =~= Seq::<usize>::empty());
    proof {
        lemma_locals_grow_none(scopes@, out@);
    }
    while k < ch.len()
        invariant
            t.wf(),
            scopes.len() >= 1,
            k <= ch.len(),
            ch@ == t.children_of(decl as int),
            forall|j: int| 0 <= j < ch.len() ==> #[trigger] ch@[j] < t.size(),
            locals_grow(scopes@, old(out)@, out@, dart_locals_in(*t, scopes@, min_len as int, ch@.take(k as int))),
        decreases ch.len() - k,
    {
        let c = ch[k];
        let ghost mid = out@;
        proof {
            assert(ch@.take(k + 1).drop_last() =~= ch@.take(k as int));
            assert(ch@.take(k + 1).last() == c);
            lemma_locals_grow_none(scopes@, mid);
        }
        if t.is_kind(c, "initialized_identifier_list") {
            collect_local_names(t, c, scopes, min_len, out);
        }
        proof {
            let prev = dart_locals_in(*t, scopes@, min_len as int, ch@.take(k as int));
            let step = dart_locals_in(*t, scopes@, min_len as int, ch@.take(k + 1)).skip(prev.len() as int);
            assert(dart_locals_in(*t, scopes@, min_len as int, ch@.take(k + 1)) =~= prev + step);
            lemma_locals_grow_trans(scopes@, old(out)@, mid, out@, prev, step);
        }
        k = k + 1;
    }
    assert(ch@.take(ch.len() as int) =~= ch@);
}

/// The local bindings of a Dart file, in pre-order: a `Param` binding for
/// each named formal parameter of every function and method declaration,
/// and a `Local` binding for each declared local variable whose name is at
/// least `min_len` bytes long and that lies inside some scope below the
/// root.
pub fn dart_bindings(t: &SyntaxTree, scopes: &Vec<Scope>, min_len: usize) -> (r: Vec<Binding>)
    requires
        t.wf(),
        scopes.len() >= 1,
    ensures
        bindings_ok(r@, scopes.len() as int),
        locals_match(scopes@, dart_bindings_upto(*t, scopes@, min_len as int, t.size()), r@),
{
    let mut out: Vec<Binding> = Vec::new();
    let mut i: usize = 0;
    proof {
        lemma_locals_grow_none(scopes@, out@);
    }
    while i < t.nodes.len()
        invariant
            t.wf(),
            scopes.len() >= 1,
            i <= t.nodes.len(),
            locals_grow(scopes@, Seq::empty(), out@, dart_bindings_upto(*t, scopes@, min_len as int, i as int)),
        decreases t.nodes.len() - i,
    {
        let ghost before = out@;
        proof {
            lemma_locals_grow_none(scopes@, before);
        }
        if t.is_kind(i, "function_declaration") || t.is_kind(i, "method_declaration") {
            match params_node(t, i) {
                Some(p) => collect_params(t, p, scopes, &mut out),
                None => {},
            }
        } else if t.is_kind(i, "local_variable_declaration") {
            collect_locals(t, i, scopes, min_len, &mut out);
        }
        proof {
            assert(dart_bindings_upto(*t, scopes@, min_len as int, i + 1) == dart_bindings_upto(
                *t,
                scopes@,
                min_len as int,
                i as int,
            ) + dart_bindings_at(*t, scopes@, min_len as int, i as int));
            lemma_locals_grow_trans(
                scopes@,
                Seq::empty(),
                before,
                out@,
                dart_bindings_upto(*t, scopes@, min_len as int, i as int),
                dart_bindings_at(*t, scopes@, min_len as int, i as int),
            );
        }
        i = i + 1;
    }
    assert(out@.skip(0) =~= out@);
    assert(out@.take(0) =~= Seq::<Binding>::empty());
    out
}

// ── Imports ─────────────────────────────────────────────────────────────────

/// The first `string_literal` at or below node `n`, in pre-order.
pub open spec fn dart_string_at(t: SyntaxTree, n: int) -> Option<usize>
    decreases t.size() - n, 1nat, 0nat,
{
    if t.kind_of(n) == "string_literal"@ {
        Some(n as usize)
    } else {
        dart_string_in(t, n, t.children_of(n))
    }
}

/// The first `string_literal` at or below the nodes `cs` (all after `n`).
pub open spec fn dart_string_in(t: SyntaxTree, n: int, cs: Seq<usize>) -> Option<usize>
    decreases t.size() - n, 0nat, cs.len(),
{
    if cs.len() == 0 {
        None
    } else {
        let first = if n < cs[0] < t.size() {
            dart_string_at(t, cs[0] as int)
        } else {
            None
        };
        if first is Some {
            first
        } else {
            dart_string_in(t, n, cs.skip(1))
        }
    }
}

/// `s` without the single or double quotes around it, when it has them.
pub open spec fn dart_unquote(s: Seq<char>) -> Seq<char> {
    if s.len() >= 2 && s[0] == '\'' && s[s.len() - 1] == '\'' {
        s.subrange(1, s.len() - 1)
    } else if s.len() >= 2 && s[0] == '"' && s[s.len() - 1] == '"' {
        s.subrange(1, s.len() - 1)
    } else {
        s
    }
}

/// Law: an import URI written in single or in double quotes is read without
/// them, whatever it holds; a text that does not both start and end with
/// the same quote is read as it is.
pub proof fn law_dart_uri_quotes_are_stripped(x: Seq<char>, s: Seq<char>)
    ensures
        dart_unquote(seq!['\''] + x + seq!['\'']) == x,
        dart_unquote(seq!['"'] + x + seq!['"']) == x,
        !(s.len() >= 2 && ((s[0] == '\'' && s.last() == '\'') || (s[0] == '"' && s.last() == '"'))) ==> dart_unquote(s)
            == s,
{
    let a = seq!['\''] + x + seq!['\''];
    assert(a.subrange(1, a.len() - 1) =~= x);
    let b = seq!['"'] + x + seq!['"'];
    assert(b.subrange(1, b.len() - 1) =~= x);
}

/// The URI an `import_specification` node `n` imports, quotes stripped: the
/// first string literal below its `uri` field.
pub open spec fn dart_uri(t: SyntaxTree, n: int) -> Option<Seq<char>> {
    match t.field_child_of(n, "uri"@) {
        Some(u) => match dart_string_at(t, u as int) {
            Some(l) => Some(dart_unquote(t.text_of(l as int))),
            None => None,
        },
        None => None,
    }
}

/// Whether the first `show` or `hide` among the nodes `cs` is a `show`.
pub open spec fn dart_shows_kw(t: SyntaxTree, cs: Seq<usize>) -> bool
    decreases cs.len(),
{
    if cs.len() == 0 {
        false
    } else if t.kind_of(cs[0] as int) == "show"@ {
        true
    } else if t.kind_of(cs[0] as int) == "hide"@ {
        false
    } else {
        dart_shows_kw(t, cs.skip(1))
    }
}

/// Whether node `c` is a `show` combinator.
pub open spec fn dart_is_show(t: SyntaxTree, c: int) -> bool {
    t.kind_of(c) == "combinator"@ && dart_shows_kw(t, t.children_of(c))
}

/// The `identifier` nodes among `cs`, imported from `from`.
pub open spec fn dart_idents(t: SyntaxTree, cs: Seq<usize>, from: Seq<char>) -> Seq<ImportItem>
    decreases cs.len(),
{
    if cs.len() == 0 {
        Seq::empty()
    } else {
        let c = cs.last();
        dart_idents(t, cs.drop_last(), from) + if t.kind_of(c as int) == "identifier"@ {
            seq![(c as int, t.text_of(c as int), from)]
        } else {
            Seq::empty()
        }
    }
}

/// The names the `show` combinators among `cs` list, imported from `from`.
pub open spec fn dart_shown(t: SyntaxTree, cs: Seq<usize>, from: Seq<char>) -> Seq<ImportItem>
    decreases cs.len(),
{
    if cs.len() == 0 {
        Seq::empty()
    } else {
        let c = cs.last();
        dart_shown(t, cs.drop_last(), from) + if dart_is_show(t, c as int) {
            dart_idents(t, t.children_of(c as int), from)
        } else {
            Seq::empty()
        }
    }
}

/// Whether some node of `cs` is a `show` combinator.
pub open spec fn dart_has_show(t: SyntaxTree, cs: Seq<usize>) -> bool
    decreases cs.len(),
{
    cs.len() > 0 && (dart_has_show(t, cs.drop_last()) || dart_is_show(t, cs.last() as int))
}

/// The last `identifier` among `cs` (the alias of `as alias`).
pub open spec fn dart_alias(t: SyntaxTree, cs: Seq<usize>) -> Option<usize>
    decreases cs.len(),
{
    if cs.len() == 0 {
        None
    } else if t.kind_of(cs.last() as int) == "identifier"@ {
        Some(cs.last())
    } else {
        dart_alias(t, cs.drop_last())
    }
}

/// The imports `import_specification` node `n` makes, from its URI: the
/// names its `show` combinators list when it has one; else its alias; else
/// none. Without a URI it makes none.
pub open spec fn dart_spec_items(t: SyntaxTree, n: int) -> Seq<ImportItem> {
    match dart_uri(t, n) {
        Some(p) => {
            let cs = t.children_of(n);
            if dart_has_show(t, cs) {
                dart_shown(t, cs, p)
            } else {
                match dart_alias(t, cs) {
                    Some(a) => seq![(a as int, t.text_of(a as int), p)],
                    None => Seq::empty(),
                }
            }
        },
        None => Seq::empty(),
    }
}

/// The imports of the `import_specification` nodes among `cs`.
pub open spec fn dart_lib_items(t: SyntaxTree, cs: Seq<usize>) -> Seq<ImportItem>
    decreases cs.len(),
{
    if cs.len() == 0 {
        Seq::empty()
    } else {
        let c = cs.last();
        dart_lib_items(t, cs.drop_last()) + if t.kind_of(c as int) == "import_specification"@ {
            dart_spec_items(t, c as int)
        } else {
            Seq::empty()
        }
    }
}

/// The imports of the `library_import` nodes among `cs`.
pub open spec fn dart_ioe_items(t: SyntaxTree, cs: Seq<usize>) -> Seq<ImportItem>
    decreases cs.len(),
{
    if cs.len() == 0 {
        Seq::empty()
    } else {
        let c = cs.last();
        dart_ioe_items(t, cs.drop_last()) + if t.kind_of(c as int) == "library_import"@ {
            dart_lib_items(t, t.children_of(c as int))
        } else {
            Seq::empty()
        }
    }
}

/// The imports at or below node `n`: an `import_or_export` node makes those
/// of its library imports and is not entered further; any other node, those
/// of its children in turn.
pub open spec fn dart_imports_at(t: SyntaxTree, n: int) -> Seq<ImportItem>
    decreases t.size() - n, 1nat, 0nat,
{
    if t.kind_of(n) == "import_or_export"@ {
        dart_ioe_items(t, t.children_of(n))
    } else {
        dart_imports_in(t, n, t.children_of(n))
    }
}

/// The imports at or below the nodes `cs` (all after `n`), in turn.
pub open spec fn dart_imports_in(t: SyntaxTree, n: int, cs: Seq<usize>) -> Seq<ImportItem>
    decreases t.size() - n, 0nat, cs.len(),
{
    if cs.len() == 0 {
        Seq::empty()
    } else {
        (if n < cs[0] < t.size() {
            dart_imports_at(t, cs[0] as int)
        } else {
            Seq::empty()
        }) + dart_imports_in(t, n, cs.skip(1))
    }
}

/// The imports of a whole Dart file.
pub open spec fn dart_imports_spec(t: SyntaxTree) -> Seq<ImportItem> {
    dart_imports_at(t, 0)
}

/// The first string literal at or below node `n`.
fn string_at(t: &SyntaxTree, n: usize) -> (r: Option<usize>)
    requires
        t.wf(),
        n < t.size(),
    ensures
        r == dart_string_at(*t, n as int),
        r matches Some(c) ==> c < t.size(),
    decreases t.size() - n, 1nat,
{
    if t.is_kind(n, "string_literal") {
        return Some(n);
    }
    let ch = t.children(n);
    string_in(t, &ch, n)
}

/// The first string literal at or below the nodes `ch`, all below node `n`.
fn string_in(t: &SyntaxTree, ch: &Vec<usize>, n: usize) -> (r: Option<usize>)
    requires
        t.wf(),
        n < t.size(),
        forall|j: int| 0 <= j < ch.len() ==> n < #[trigger] ch@[j] < t.size(),
    ensures
        r == dart_string_in(*t, n as int, ch@),
        r matches Some(c) ==> c < t.size(),
    decreases t.size() - n, 0nat,
{
    let mut k: usize = 0;
    assert(ch@.skip(0) =~= ch@);
    while k < ch.len()
        invariant
            t.wf(),
            n < t.size(),
            k <= ch.len(),
            forall|j: int| 0 <= j < ch.len() ==> n < #[trigger] ch@[j] < t.size(),
            dart_string_in(*t, n as int, ch@.skip(k as int)) == dart_string_in(*t, n as int, ch@),
        decreases ch.len() - k,
    {
        assert(ch@.skip(k as int)[0] == ch@[k as int]);
        assert(ch@.skip(k as int).skip(1) =~= ch@.skip(k + 1));
        let found = string_at(t, ch[k]);
        if found.is_some() {
            return found;
        }
        k = k + 1;
    }
    None
}

/// `text` without the quotes around it, when it has them.
fn unquote(text: &String) -> (r: String)
    ensures
        r@ == dart_unquote(text@),
{
    let cs = chars_of(text.as_str());
    let n = cs.len();
    if n >= 2 && ((cs[0] == '\'' && cs[n - 1] == '\'') || (cs[0] == '"' && cs[n - 1] == '"')) {
        let inner = slice_chars(&cs, 1, n - 1);
        string_from_chars(inner.as_slice())
    } else {
        text.clone()
    }
}

/// The URI `import_specification` node `n` imports.
fn uri_text(t: &SyntaxTree, n: usize) -> (r: Option<String>)
    requires
        t.wf(),
        n < t.size(),
    ensures
        r matches Some(s) ==> dart_uri(*t, n as int) == Some(s@),
        r is None ==> dart_uri(*t, n as int) is None,
{
    match t.field_child(n, "uri") {
        Some(u) => match string_at(t, u) {
            Some(l) => Some(unquote(&t.text(l))),
            None => None,
        },
        None => None,
    }
}

/// Whether the first `show` or `hide` child of `c` is a `show`.
fn shows_kw(t: &SyntaxTree, c: usize) -> (r: bool)
    requires
        t.wf(),
        c < t.size(),
    ensures
        r == dart_shows_kw(*t, t.children_of(c as int)),
{
    let ch = t.children(c);
    let mut k: usize = 0;
    assert(ch@.skip(0) =~= ch@);
    while k < ch.len()
        invariant
            t.wf(),
            k <= ch.len(),
            ch@ == t.children_of(c as int),
            forall|j: int| 0 <= j < ch.len() ==> #[trigger] ch@[j] < t.size(),
            dart_shows_kw(*t, ch@.skip(k as int)) == dart_shows_kw(*t, ch@),
        decreases ch.len() - k,
    {
        assert(ch@.skip(k as int)[0] == ch@[k as int]);
        assert(ch@.skip(k as int).skip(1) =~= ch@.skip(k + 1));
        if t.is_kind(ch[k], "show") {
            return true;
        }
        if t.is_kind(ch[k], "hide") {
            return false;
        }
        k = k + 1;
    }
    false
}

/// Whether node `c` is a `show` combinator.
fn is_show(t: &SyntaxTree, c: usize) -> (r: bool)
    requires
        t.wf(),
        c < t.size(),
    ensures
        r == dart_is_show(*t, c as int),
{
    t.is_kind(c, "combinator") && shows_kw(t, c)
}

/// Push the `identifier` children of node `c`, imported from `from`.
fn push_idents(t: &SyntaxTree, c: usize, file: &str, module_id: &str, from: &String, out: &mut Vec<Reference>)
    requires
        t.wf(),
        c < t.size(),
    ensures
        imports_grow(*t, file@, module_id@, old(out)@, final(out)@, dart_idents(*t, t.children_of(c as int), from@)),
{
    let ch = t.children(c);
    let mut k: usize = 0;
    assert(ch@.take(0) =~= Seq::<usize>::empty());
    proof {
        lemma_imports_grow_none(*t, file@, module_id@, out@);
    }
    while k < ch.len()
        invariant
            t.wf(),
            k <= ch.len(),
            ch@ == t.children_of(c as int),
            forall|j: int| 0 <= j < ch.len() ==> #[trigger] ch@[j] < t.size(),
            imports_grow(*t, file@, module_id@, old(out)@, out@, dart_idents(*t, ch@.take(k as int), from@)),
        decreases ch.len() - k,
    {
        let d = ch[k];
        let ghost mid = out@;
        proof {
            assert(ch@.take(k + 1).drop_last() =~= ch@.take(k as int));
            assert(ch@.take(k + 1).last() == d);
            lemma_imports_grow_none(*t, file@, module_id@, mid);
        }
        if t.is_kind(d, "identifier") {
            push_import_item(out, t.text(d), t, d, file, module_id, from.clone());
        }
        proof {
            let prev = dart_idents(*t, ch@.take(k as int), from@);
            let step = dart_idents(*t, ch@.take(k + 1), from@).skip(prev.len() as int);
            assert(dart_idents(*t, ch@.take(k + 1), from@) =~= prev + step);
            lemma_imports_grow_trans(*t, file@, module_id@, old(out)@, mid, out@, prev, step);
        }
        k = k + 1;
    }
    assert(ch@.take(ch.len() as int) =~= ch@);
}

/// The imports of `import_specification` node `n`.
fn spec_imports(t: &SyntaxTree, n: usize, file: &str, module_id: &str, out: &mut Vec<Reference>)
    requires
        t.wf(),
        n < t.size(),
    ensures
        imports_grow(*t, file@, module_id@, old(out)@, final(out)@, dart_spec_items(*t, n as int)),
{
    proof {
        lemma_imports_grow_none(*t, file@, module_id@, out@);
    }
    let from = match uri_text(t, n) {
        Some(p) => p,
        None => {
            return;
        },
    };
    let ch = t.children(n);
    let mut has_show = false;
    let mut alias: Option<usize> = None;
    let mut k: usize = 0;
    assert(ch@.take(0) =~= Seq::<usize>::empty());
    while k < ch.len()
        invariant
            t.wf(),
            k <= ch.len(),
            ch@ == t.children_of(n as int),
            forall|j: int| 0 <= j < ch.len() ==> #[trigger] ch@[j] < t.size(),
            has_show == dart_has_show(*t, ch@.take(k as int)),
            alias == dart_alias(*t, ch@.take(k as int)),
            alias matches Some(a) ==> a < t.size(),
        decreases ch.len() - k,
    {
        let c = ch[k];
        proof {
            assert(ch@.take(k + 1).drop_last() =~= ch@.take(k as int));
            assert(ch@.take(k + 1).last() == c);
        }
        if is_show(t, c) {
            has_show = true;
        }
        if t.is_kind(c, "identifier") {
            alias = Some(c);
        }
        k = k + 1;
    }
    assert(ch@.take(ch.len() as int) =~= ch@);
    if has_show {
        let mut k: usize = 0;
        assert(ch@.take(0) =~= Seq::<usize>::empty());
        while k < ch.len()
            invariant
                t.wf(),
                k <= ch.len(),
                ch@ == t.children_of(n as int),
                forall|j: int| 0 <= j < ch.len() ==> #[trigger] ch@[j] < t.size(),
                imports_grow(*t, file@, module_id@, old(out)@, out@, dart_shown(*t, ch@.take(k as int), from@)),
            decreases ch.len() - k,
        {
            let c = ch[k];
            let ghost mid = out@;
            proof {
                assert(ch@.take(k + 1).drop_last() =~= ch@.take(k as int));
                assert(ch@.take(k + 1).last() == c);
                lemma_imports_grow_none(*t, file@, module_id@, mid);
            }
            if is_show(t, c) {
                push_idents(t, c, file, module_id, &from, out);
            }
            proof {
                let prev = dart_shown(*t, ch@.take(k as int), from@);
                let step = dart_shown(*t, ch@.take(k + 1), from@).skip(prev.len() as int);
                assert(dart_shown(*t, ch@.take(k + 1), from@) =~= prev + step);
                lemma_imports_grow_trans(*t, file@, module_id@, old(out)@, mid, out@, prev, step);
            }
            k = k + 1;
        }
        assert(ch@.take(ch.len() as int) =~= ch@);
    } else {
        match alias {
            Some(a) => {
                push_import_item(out, t.text(a), t, a, file, module_id, from);
            },
            None => {},
        }
    }
}

/// The imports of the `import_specification` children of node `lib`.
fn lib_imports(t: &SyntaxTree, lib: usize, file: &str, module_id: &str, out: &mut Vec<Reference>)
    requires
        t.wf(),
        lib < t.size(),
    ensures
        imports_grow(*t, file@, module_id@, old(out)@, final(out)@, dart_lib_items(*t, t.children_of(lib as int))),
{
    let ch = t.children(lib);
    let mut k: usize = 0;
    assert(ch@.take(0) =~= Seq::<usize>::empty());
    proof {
        lemma_imports_grow_none(*t, file@, module_id@, out@);
    }
    while k < ch.len()
        invariant
            t.wf(),
            k <= ch.len(),
            ch@ == t.children_of(lib as int),
            forall|j: int| 0 <= j < ch.len() ==> #[trigger] ch@[j] < t.size(),
            imports_grow(*t, file@, module_id@, old(out)@, out@, dart_lib_items(*t, ch@.take(k as int))),
        decreases ch.len() - k,
    {
        let c = ch[k];
        let ghost mid = out@;
        proof {
            assert(ch@.take(k + 1).drop_last() =~= ch@.take(k as int));
            assert(ch@.take(k + 1).last() == c);
            lemma_imports_grow_none(*t, file@, module_id@, mid);
        }
        if t.is_kind(c, "import_specification") {
            spec_imports(t, c, file, module_id, out);
        }
        proof {
            let prev = dart_lib_items(*t, ch@.take(k as int));
            let step = dart_lib_items(*t, ch@.take(k + 1)).skip(prev.len() as int);
            assert(dart_lib_items(*t, ch@.take(k + 1)) =~= prev + step);
            lemma_imports_grow_trans(*t, file@, module_id@, old(out)@, mid, out@, prev, step);
        }
        k = k + 1;
    }
    assert(ch@.take(ch.len() as int) =~= ch@);
}

/// The imports of the `library_import` children of node `n`.
fn ioe_imports(t: &SyntaxTree, n: usize, file: &str, module_id: &str, out: &mut Vec<Reference>)
    requires
        t.wf(),
        n < t.size(),
    ensures
        imports_grow(*t, file@, module_id@, old(out)@, final(out)@, dart_ioe_items(*t, t.children_of(n as int))),
{
    let ch = t.children(n);
    let mut k: usize = 0;
    assert(ch@.take(0) =~= Seq::<usize>::empty());
    proof {
        lemma_imports_grow_none(*t, file@, module_id@, out@);
    }
    while k < ch.len()
        invariant
            t.wf(),
            k <= ch.len(),
            ch@ == t.children_of(n as int),
            forall|j: int| 0 <= j < ch.len() ==> #[trigger] ch@[j] < t.size(),
            imports_grow(*t, file@, module_id@, old(out)@, out@, dart_ioe_items(*t, ch@.take(k as int))),
        decreases ch.len() - k,
    {
        let c = ch[k];
        let ghost mid = out@;
        proof {
            assert(ch@.take(k + 1).drop_last() =~= ch@.take(k as int));
            assert(ch@.take(k + 1).last() == c);
            lemma_imports_grow_none(*t, file@, module_id@, mid);
        }
        if t.is_kind(c, "library_import") {
            lib_imports(t, c, file, module_id, out);
        }
        proof {
            let prev = dart_ioe_items(*t, ch@.take(k as int));
            let step = dart_ioe_items(*t, ch@.take(k + 1)).skip(prev.len() as int);
            assert(dart_ioe_items(*t, ch@.take(k + 1)) =~= prev + step);
            lemma_imports_grow_trans(*t, file@, module_id@, old(out)@, mid, out@, prev, step);
        }
        k = k + 1;
    }
    assert(ch@.take(ch.len() as int) =~= ch@);
}

/// The imports at or below node `n`.
fn imports_at(t: &SyntaxTree, n: usize, file: &str, module_id: &str, out: &mut Vec<Reference>)
    requires
        t.wf(),
        n < t.size(),
    ensures
        imports_grow(*t, file@, module_id@, old(out)@, final(out)@, dart_imports_at(*t, n as int)),
    decreases t.size() - n, 1nat,
{
    if t.is_kind(n, "import_or_export") {
        ioe_imports(t, n, file, module_id, out);
    } else {
        let ch = t.children(n);
        imports_in(t, &ch, n, file, module_id, out);
    }
}

/// The imports at or below the nodes `ch`, all below node `n`, in turn.
fn imports_in(t: &SyntaxTree, ch: &Vec<usize>, n: usize, file: &str, module_id: &str, out: &mut Vec<Reference>)
    requires
        t.wf(),
        n < t.size(),
        forall|j: int| 0 <= j < ch.len() ==> n < #[trigger] ch@[j] < t.size(),
    ensures
        imports_grow(*t, file@, module_id@, old(out)@, final(out)@, dart_imports_in(*t, n as int, ch@)),
    decreases t.size() - n, 0nat,
{
    let ghost mut acc: Seq<ImportItem> = Seq::empty();
    let mut k: usize = 0;
    assert(ch@.skip(0) =~= ch@);
    assert(acc + dart_imports_in(*t, n as int, ch@) =~= dart_imports_in(*t, n as int, ch@));
    proof {
        lemma_imports_grow_none(*t, file@, module_id@, out@);
    }
    while k < ch.len()
        invariant
            t.wf(),
            n < t.size(),
            k <= ch.len(),
            forall|j: int| 0 <= j < ch.len() ==> n < #[trigger] ch@[j] < t.size(),
            imports_grow(*t, file@, module_id@, old(out)@, out@, acc),
            acc + dart_imports_in(*t, n as int, ch@.skip(k as int)) == dart_imports_in(*t, n as int, ch@),
        decreases ch.len() - k,
    {
        let c = ch[k];
        let ghost mid = out@;
        let ghost rest = ch@.skip(k as int);
        proof {
            assert(rest[0] == c);
            assert(rest.skip(1) =~= ch@.skip(k + 1));
            assert(dart_imports_in(*t, n as int, rest) == dart_imports_at(*t, c as int) + dart_imports_in(
                *t,
                n as int,
                ch@.skip(k + 1),
            ));
        }
        imports_at(t, c, file, module_id, out);
        proof {
            lemma_imports_grow_trans(*t, file@, module_id@, old(out)@, mid, out@, acc, dart_imports_at(*t, c as int));
            let step = dart_imports_at(*t, c as int);
            let later = dart_imports_in(*t, n as int, ch@.skip(k + 1));
            assert((acc + step) + later =~= acc + (step + later));
            acc = acc + step;
        }
        k = k + 1;
    }
    assert(ch@.skip(ch.len() as int) =~= Seq::<usize>::empty());
    assert(acc + Seq::<ImportItem>::empty() =~= acc);
}

/// The `Import` references of a Dart file, in pre-order, all from module
/// `module_id`: for each `import` directive with a URI, the names its `show`
/// combinators list, else the alias it is imported `as`; a bare import or a
/// `hide`-only one references nothing. Each reference comes from the URI as
/// written between its quotes.
pub fn dart_imports(t: &SyntaxTree, file: &str, module_id: &str) -> (r: Vec<Reference>)
    requires
        t.wf(),
    ensures
        imports_grow(*t, file@, module_id@, Seq::empty(), r@, dart_imports_spec(*t)),
{
    let mut out: Vec<Reference> = Vec::new();
    imports_at(t, 0, file, module_id, &mut out);
    out
}

// ── Scope tree ──────────────────────────────────────────────────────────────

/// Whether kind `k` declares a type: a class, mixin, enum or extension.
pub open spec fn dart_type_kind(k: Seq<char>) -> bool {
    k == "class_declaration"@ || k == "mixin_declaration"@ || k == "enum_declaration"@ || k == "extension_declaration"@
}

/// The scopes `ss` grows to as the tree below node `n` is walked, the
/// enclosing scope being `parent`: a `Type` scope per type declaration and a
/// `Function` scope per function or method declaration, each over the whole
/// declaration, whose body's children are walked inside it (a declaration
/// without a body is not entered); a `Block` scope per block.
pub open spec fn dart_scope_dfs(t: SyntaxTree, n: int, parent: int, ss: Seq<Scope>) -> Seq<Scope>
    decreases t.size() - n, 1nat, 0nat,
{
    let k = t.kind_of(n);
    if dart_type_kind(k) || k == "function_declaration"@ || k == "method_declaration"@ {
        let kind = if dart_type_kind(k) { ScopeKind::Type } else { ScopeKind::Function };
        let ss1 = ss.push(scope_of(t, n, parent, kind));
        match t.field_child_of(n, "body"@) {
            Some(b) => dart_children_dfs(t, n, t.children_of(b as int), ss.len() as int, ss1),
            None => ss1,
        }
    } else if k == "block"@ {
        dart_children_dfs(t, n, t.children_of(n), ss.len() as int, ss.push(scope_of(t, n, parent, ScopeKind::Block)))
    } else {
        dart_children_dfs(t, n, t.children_of(n), parent, ss)
    }
}

/// The scopes `ss` grows to as the trees below `cs` (nodes after `n`) are
/// walked in turn.
pub open spec fn dart_children_dfs(t: SyntaxTree, n: int, cs: Seq<usize>, parent: int, ss: Seq<Scope>) -> Seq<Scope>
    decreases t.size() - n, 0nat, cs.len(),
{
    if cs.len() == 0 {
        ss
    } else {
        dart_children_dfs(
            t,
            n,
            cs.skip(1),
            parent,
            if n < cs[0] < t.size() {
                dart_scope_dfs(t, cs[0] as int, parent, ss)
            } else {
                ss
            },
        )
    }
}

/// The scope tree of a Dart file of `len` bytes.
pub open spec fn dart_scope_tree(t: SyntaxTree, len: usize) -> Seq<Scope> {
    dart_children_dfs(t, 0, t.children_of(0), 0, seq![root_scope(len)])
}

/// Push a scope of `kind` over node `n`, inside scope `parent`.
fn push_node_scope(t: &SyntaxTree, n: usize, parent: ScopeId, kind: ScopeKind, scopes: &mut Vec<Scope>) -> (r: ScopeId)
    requires
        n < t.size(),
        parent < old(scopes).len(),
    ensures
        r == old(scopes).len(),
        final(scopes)@ == old(scopes)@.push(scope_of(*t, n as int, parent as int, kind)),
        scopes_extend(old(scopes)@, final(scopes)@),
{
    let id = push_scope(scopes, Some(parent), node_span(t, n), kind);
    assert(final(scopes)@ =~= old(scopes)@.push(scope_of(*t, n as int, parent as int, kind)));
    assert(final(scopes)@.take(old(scopes)@.len() as int) =~= old(scopes)@);
    id
}

/// Open scopes below node `n` whose enclosing scope is `parent`.
fn scope_dfs(t: &SyntaxTree, n: usize, parent: ScopeId, scopes: &mut Vec<Scope>)
    requires
        t.wf(),
        n < t.size(),
        parent < old(scopes).len(),
    ensures
        scopes_extend(old(scopes)@, final(scopes)@),
        final(scopes)@ == dart_scope_dfs(*t, n as int, parent as int, old(scopes)@),
    decreases t.size() - n, 1nat,
{
    proof {
        lemma_scopes_extend_refl(scopes@);
    }
    let ghost s0 = scopes@;
    let is_type = t.is_kind(n, "class_declaration") || t.is_kind(n, "mixin_declaration") || t.is_kind(
        n,
        "enum_declaration",
    ) || t.is_kind(n, "extension_declaration");
    if is_type || t.is_kind(n, "function_declaration") || t.is_kind(n, "method_declaration") {
        let kind = if is_type {
            ScopeKind::Type
        } else {
            ScopeKind::Function
        };
        let id = push_node_scope(t, n, parent, kind, scopes);
        let ghost s1 = scopes@;
        match t.field_child(n, "body") {
            Some(body) => {
                let ch = t.children(body);
                proof {
                    t.lemma_children_bounds(body as int);
                }
                children_dfs(t, &ch, n, id, scopes);
                proof {
                    lemma_scopes_extend_trans(s0, s1, scopes@);
                }
            },
            None => {},
        }
    } else if t.is_kind(n, "block") {
        let id = push_node_scope(t, n, parent, ScopeKind::Block, scopes);
        let ghost s1 = scopes@;
        let ch = t.children(n);
        children_dfs(t, &ch, n, id, scopes);
        proof {
            lemma_scopes_extend_trans(s0, s1, scopes@);
        }
    } else {
        let ch = t.children(n);
        children_dfs(t, &ch, n, parent, scopes);
    }
}

/// `scope_dfs` over each of `ch`, all of them below node `n`.
fn children_dfs(t: &SyntaxTree, ch: &Vec<usize>, n: usize, parent: ScopeId, scopes: &mut Vec<Scope>)
    requires
        t.wf(),
        n < t.size(),
        forall|j: int| 0 <= j < ch.len() ==> n < #[trigger] ch@[j] < t.size(),
        parent < old(scopes).len(),
    ensures
        scopes_extend(old(scopes)@, final(scopes)@),
        final(scopes)@ == dart_children_dfs(*t, n as int, ch@, parent as int, old(scopes)@),
    decreases t.size() - n, 0nat,
{
    proof {
        lemma_scopes_extend_refl(scopes@);
    }
    let mut k: usize = 0;
    assert(ch@.skip(0) =~= ch@);
    while k < ch.len()
        invariant
            t.wf(),
            n < t.size(),
            k <= ch.len(),
            forall|j: int| 0 <= j < ch.len() ==> n < #[trigger] ch@[j] < t.size(),
            parent < scopes.len(),
            scopes_extend(old(scopes)@, scopes@),
            dart_children_dfs(*t, n as int, ch@, parent as int, old(scopes)@) == dart_children_dfs(
                *t,
                n as int,
                ch@.skip(k as int),
                parent as int,
                scopes@,
            ),
        decreases ch.len() - k,
    {
        let ghost before = scopes@;
        assert(ch@.skip(k as int)[0] == ch@[k as int]);
        assert(ch@.skip(k as int).skip(1) =~= ch@.skip(k + 1));
        scope_dfs(t, ch[k], parent, scopes);
        proof {
            lemma_scopes_extend_trans(old(scopes)@, before, scopes@);
        }
        k = k + 1;
    }
}

/// The scope tree of a Dart file: a `Module` root over the whole source,
/// then, in pre-order, a `Type` scope per class, mixin, enum or extension
/// declaration, a `Function` scope per function or method declaration (the
/// children of their bodies walked inside them) and a `Block` scope per
/// block, each inside the innermost one enclosing it.
pub fn dart_scopes(t: &SyntaxTree, source_len: usize) -> (r: Vec<Scope>)
    requires
        t.wf(),
    ensures
        scope_tree_wf(r@, source_len as int),
        r@ == dart_scope_tree(*t, source_len),
{
    let mut scopes = root_scopes(source_len);
    let ghost s0 = scopes@;
    let ch = t.children(0);
    children_dfs(t, &ch, 0, 0, &mut scopes);
    proof {
        lemma_scopes_extend_wf(s0, scopes@, source_len as int);
    }
    scopes
}

} // verus!
