//! Lexical scopes and bindings: building a file's scope tree, attaching each
//! reference to the innermost scope that contains it, and recording where
//! names are introduced.

use vstd::prelude::*;
use crate::graph::{Binding, BindingKind, BindingTarget, ByteSpan, Reference, RefRole, Scope, ScopeId, ScopeKind, Symbol};
use crate::symbol::scip_text;

verus! {

/// Scope `a` is at least as deeply nested as scope `b`: strictly shorter, or
/// as long and pushed no earlier (a child is always pushed after its parent).
pub open spec fn nested_at_least(scopes: Seq<Scope>, a: int, b: int) -> bool {
    scopes[a].span.spec_len() < scopes[b].span.spec_len() || (scopes[a].span.spec_len()
        == scopes[b].span.spec_len() && a >= b)
}

/// `id` is the innermost scope containing byte `b`.
pub open spec fn is_innermost(scopes: Seq<Scope>, b: int, id: int) -> bool {
    &&& 0 <= id < scopes.len()
    &&& scopes[id].span.spec_contains(b)
    &&& forall|j: int|
        0 <= j < scopes.len() && (#[trigger] scopes[j]).span.spec_contains(b) ==> nested_at_least(
            scopes,
            id,
            j,
        )
}

/// `r` is the innermost scope containing `b`, or `None` when no scope does.
pub open spec fn innermost_spec(scopes: Seq<Scope>, b: int, r: Option<ScopeId>) -> bool {
    match r {
        Some(id) => is_innermost(scopes, b, id as int),
        None => forall|j: int| 0 <= j < scopes.len() ==> !(#[trigger] scopes[j]).span.spec_contains(b),
    }
}

/// The scope a binding introduced at `b` lands in: the innermost one, or the
/// root when none contains `b`.
pub open spec fn binding_scope_spec(scopes: Seq<Scope>, b: int, s: ScopeId) -> bool {
    (exists|r: Option<ScopeId>| innermost_spec(scopes, b, r) && s == match r {
        Some(id) => id,
        None => 0,
    })
}

/// A file's scope tree: a `Module` root spanning the whole source, and every
/// other scope hanging from an earlier one.
pub open spec fn scope_tree_wf(scopes: Seq<Scope>, source_len: int) -> bool {
    &&& scopes.len() >= 1
    &&& scopes[0].parent == None::<ScopeId>
    &&& scopes[0].kind == ScopeKind::Module
    &&& scopes[0].span.start == 0
    &&& scopes[0].span.end == source_len
    &&& forall|i: int|
        0 < i < scopes.len() ==> ((#[trigger] scopes[i]).parent matches Some(p) && p < i)
}

/// Span `a` lies inside span `b`.
pub open spec fn span_within(a: ByteSpan, b: ByteSpan) -> bool {
    b.start <= a.start && a.end <= b.end
}

/// Every scope after the first hangs from an earlier scope and lies inside
/// it.
pub open spec fn scopes_nest(scopes: Seq<Scope>) -> bool {
    forall|i: int|
        0 < i < scopes.len() ==> ((#[trigger] scopes[i]).parent matches Some(p) && p < i && span_within(
            scopes[i].span,
            scopes[p as int].span,
        ))
}

/// A copy of an optional string.
pub fn clone_opt(o: &Option<String>) -> (r: Option<String>)
    ensures
        r == *o,
{
    match o {
        Some(s) => Some(s.clone()),
        None => None,
    }
}

/// `after` extends `before`: the old scopes are untouched and each new scope
/// hangs from an earlier one.
pub open spec fn scopes_extend(before: Seq<Scope>, after: Seq<Scope>) -> bool {
    &&& after.len() >= before.len()
    &&& after.take(before.len() as int) == before
    &&& forall|i: int|
        before.len() <= i < after.len() ==> ((#[trigger] after[i]).parent matches Some(p) && p < i)
}

pub proof fn lemma_scopes_extend_trans(a: Seq<Scope>, b: Seq<Scope>, c: Seq<Scope>)
    requires
        scopes_extend(a, b),
        scopes_extend(b, c),
    ensures
        scopes_extend(a, c),
{
    assert(c.take(a.len() as int) =~= c.take(b.len() as int).take(a.len() as int));
    assert forall|i: int| a.len() <= i < c.len() implies ((#[trigger] c[i]).parent matches Some(p) && p < i) by {
        if i < b.len() {
            assert(c[i] == c.take(b.len() as int)[i]);
        }
    }
}

pub proof fn lemma_scopes_extend_refl(a: Seq<Scope>)
    ensures
        scopes_extend(a, a),
{
    assert(a.take(a.len() as int) =~= a);
}

pub proof fn lemma_scopes_extend_wf(a: Seq<Scope>, b: Seq<Scope>, len: int)
    requires
        scope_tree_wf(a, len),
        scopes_extend(a, b),
    ensures
        scope_tree_wf(b, len),
{
    assert(b[0] == b.take(a.len() as int)[0]);
    assert forall|i: int| 0 < i < b.len() implies ((#[trigger] b[i]).parent matches Some(p) && p < i) by {
        if i < a.len() {
            assert(b[i] == b.take(a.len() as int)[i]);
        }
    }
}

/// A binding's scope lies in a non-empty scope vector.
pub proof fn lemma_binding_scope_bound(scopes: Seq<Scope>, b: int, s: ScopeId)
    requires
        binding_scope_spec(scopes, b, s),
        scopes.len() >= 1,
    ensures
        s < scopes.len(),
{
}

/// Append a scope and return its id.
pub fn push_scope(scopes: &mut Vec<Scope>, parent: Option<ScopeId>, span: ByteSpan, kind: ScopeKind) -> (r: ScopeId)
    ensures
        r == old(scopes).len(),
        final(scopes)@ == old(scopes)@.push(Scope { parent, span, kind }),
{
    let id = scopes.len();
    scopes.push(Scope { parent, span, kind });
    id
}

/// A one-scope tree: the `Module` root spanning `[0, source_len)`.
pub fn root_scopes(source_len: usize) -> (r: Vec<Scope>)
    ensures
        scope_tree_wf(r@, source_len as int),
        r.len() == 1,
        r@ == seq![root_scope(source_len)],
{
    let mut scopes: Vec<Scope> = Vec::new();
    push_scope(&mut scopes, None, ByteSpan { start: 0, end: source_len }, ScopeKind::Module);
    scopes
}

/// The innermost scope whose span contains `byte`: the shortest one, ties
/// going to the later (more deeply nested) scope.
pub fn innermost_scope(byte: usize, scopes: &Vec<Scope>) -> (r: Option<ScopeId>)
    ensures
        innermost_spec(scopes@, byte as int, r),
{
    let mut best: Option<ScopeId> = None;
    let mut i: usize = 0;
    while i < scopes.len()
        invariant
            i <= scopes.len(),
            match best {
                Some(id) => {
                    &&& id < i
                    &&& scopes@[id as int].span.spec_contains(byte as int)
                    &&& forall|j: int|
                        0 <= j < i && (#[trigger] scopes@[j]).span.spec_contains(byte as int)
                            ==> nested_at_least(scopes@, id as int, j)
                },
                None => forall|j: int|
                    0 <= j < i ==> !(#[trigger] scopes@[j]).span.spec_contains(byte as int),
            },
        decreases scopes.len() - i,
    {
        if scopes[i].span.contains(byte) {
            match best {
                Some(id) => {
                    if scopes[i].span.len() <= scopes[id].span.len() {
                        best = Some(i);
                    }
                },
                None => {
                    best = Some(i);
                },
            }
        }
        i = i + 1;
    }
    best
}

/// Two scopes that are both innermost for a byte are the same scope.
pub proof fn lemma_innermost_unique(scopes: Seq<Scope>, b: int, r1: Option<ScopeId>, r2: Option<ScopeId>)
    requires
        innermost_spec(scopes, b, r1),
        innermost_spec(scopes, b, r2),
    ensures
        r1 == r2,
{
    match (r1, r2) {
        (Some(a), Some(c)) => {
            assert(nested_at_least(scopes, a as int, c as int));
            assert(nested_at_least(scopes, c as int, a as int));
        },
        (Some(a), None) => {
            assert(scopes[a as int].span.spec_contains(b));
        },
        (None, Some(c)) => {
            assert(scopes[c as int].span.spec_contains(b));
        },
        (None, None) => {},
    }
}

/// In a scope tree over a source of `source_len` bytes, every byte of the
/// source lies in some scope.
pub proof fn lemma_every_byte_has_a_scope(scopes: Seq<Scope>, source_len: int, b: int, r: Option<ScopeId>)
    requires
        scope_tree_wf(scopes, source_len),
        0 <= b < source_len,
        innermost_spec(scopes, b, r),
    ensures
        r is Some,
{
    if r is None {
        assert(scopes[0].span.spec_contains(b));
    }
}

/// The references `refs` with each scope set to the innermost scope
/// containing its byte and nothing else changed.
pub open spec fn scopes_attached(before: Seq<Reference>, after: Seq<Reference>, scopes: Seq<Scope>) -> bool {
    &&& after.len() == before.len()
    &&& forall|i: int|
        0 <= i < after.len() ==> {
            &&& (#[trigger] after[i]).name == before[i].name
            &&& after[i].occ == before[i].occ
            &&& after[i].role == before[i].role
            &&& after[i].source_module == before[i].source_module
            &&& after[i].from_path == before[i].from_path
            &&& after[i].qualifier == before[i].qualifier
            &&& innermost_spec(scopes, after[i].occ.byte as int, after[i].scope)
        }
}

/// Attach each reference to the innermost scope containing its byte offset.
pub fn attach_reference_scopes(refs: Vec<Reference>, scopes: &Vec<Scope>) -> (r: Vec<Reference>)
    ensures
        scopes_attached(refs@, r@, scopes@),
{
    let mut out: Vec<Reference> = Vec::new();
    let mut i: usize = 0;
    while i < refs.len()
        invariant
            i <= refs.len(),
            scopes_attached(refs@.take(i as int), out@, scopes@),
        decreases refs.len() - i,
    {
        let r = &refs[i];
        let s = innermost_scope(r.occ.byte, scopes);
        let nr = Reference {
            name: r.name.clone(),
            occ: r.occ.duplicate(),
            role: r.role,
            source_module: clone_opt(&r.source_module),
            from_path: clone_opt(&r.from_path),
            qualifier: clone_opt(&r.qualifier),
            scope: s,
        };
        out.push(nr);
        assert(refs@.take(i + 1) =~= refs@.take(i as int).push(refs@[i as int]));
        i = i + 1;
    }
    assert(refs@.take(refs.len() as int) =~= refs@);
    out
}

/// Record that `name` is introduced at byte `intro`, in the innermost scope
/// containing `intro` (the root when none does).
pub fn push_binding(out: &mut Vec<Binding>, name: String, intro: usize, kind: BindingKind, scopes: &Vec<Scope>)
    ensures
        final(out)@.len() == old(out)@.len() + 1,
        final(out)@.take(old(out)@.len() as int) == old(out)@,
        final(out)@.last().name == name,
        final(out)@.last().intro == intro,
        final(out)@.last().kind == kind,
        final(out)@.last().target == BindingTarget::Local,
        binding_scope_spec(scopes@, intro as int, final(out)@.last().scope),
{
    let r = innermost_scope(intro, scopes);
    let scope = match r {
        Some(id) => id,
        None => 0,
    };
    out.push(Binding { scope, name, intro, kind, target: BindingTarget::Local });
    assert(final(out)@.take(old(out)@.len() as int) =~= old(out)@);
}

/// A `Definition` binding at the root scope for each of `defs`, introduced
/// where the definition starts and targeting the definition's SCIP id.
pub fn definition_bindings(defs: &Vec<Symbol>) -> (r: Vec<Binding>)
    ensures
        r.len() == defs.len(),
        forall|i: int|
            0 <= i < r.len() ==> {
                &&& (#[trigger] r@[i]).scope == 0
                &&& r@[i].name == defs@[i].name
                &&& r@[i].intro == defs@[i].span.start
                &&& r@[i].kind == BindingKind::Definition
                &&& (r@[i].target matches BindingTarget::Symbol(s) && s@ == scip_text(defs@[i].id))
            },
{
    let mut out: Vec<Binding> = Vec::new();
    let mut i: usize = 0;
    while i < defs.len()
        invariant
            i <= defs.len(),
            out.len() == i,
            forall|k: int|
                0 <= k < i ==> {
                    &&& (#[trigger] out@[k]).scope == 0
                    &&& out@[k].name == defs@[k].name
                    &&& out@[k].intro == defs@[k].span.start
                    &&& out@[k].kind == BindingKind::Definition
                    &&& (out@[k].target matches BindingTarget::Symbol(s) && s@ == scip_text(defs@[k].id))
                },
        decreases defs.len() - i,
    {
        let d = &defs[i];
        out.push(Binding {
            scope: 0,
            name: d.name.clone(),
            intro: d.span.start,
            kind: BindingKind::Definition,
            target: BindingTarget::Symbol(d.id.to_scip_string()),
        });
        i = i + 1;
    }
    out
}

/// The import references among `refs`, in order.
pub open spec fn imports_of(refs: Seq<Reference>) -> Seq<Reference> {
    refs.filter(|r: Reference| r.role == RefRole::Import)
}

/// An `Import` binding for each import reference, in order: the imported
/// name, introduced at the reference, in the innermost scope containing it
/// (the root when none does), targeting the path it is imported from.
pub fn import_bindings(refs: &Vec<Reference>, scopes: &Vec<Scope>) -> (r: Vec<Binding>)
    ensures
        r.len() == imports_of(refs@).len(),
        forall|i: int|
            0 <= i < r.len() ==> {
                let im = imports_of(refs@)[i];
                &&& (#[trigger] r@[i]).name == im.name
                &&& r@[i].intro == im.occ.byte
                &&& r@[i].kind == BindingKind::Import
                &&& r@[i].target == BindingTarget::Import(im.from_path)
                &&& binding_scope_spec(scopes@, im.occ.byte as int, r@[i].scope)
            },
{
    let mut out: Vec<Binding> = Vec::new();
    let mut i: usize = 0;
    while i < refs.len()
        invariant
            i <= refs.len(),
            out.len() == imports_of(refs@.take(i as int)).len(),
            forall|k: int|
                0 <= k < out.len() ==> {
                    let im = imports_of(refs@.take(i as int))[k];
                    &&& (#[trigger] out@[k]).name == im.name
                    &&& out@[k].intro == im.occ.byte
                    &&& out@[k].kind == BindingKind::Import
                    &&& out@[k].target == BindingTarget::Import(im.from_path)
                    &&& binding_scope_spec(scopes@, im.occ.byte as int, out@[k].scope)
                },
        decreases refs.len() - i,
    {
        let r = &refs[i];
        let ghost pre = refs@.take(i as int);
        assert(refs@.take(i + 1) =~= pre.push(refs@[i as int]));
        proof {
            reveal(Seq::filter);
            assert(refs@.take(i + 1).drop_last() =~= pre);
        }
        if r.role == RefRole::Import {
            let s = innermost_scope(r.occ.byte, scopes);
            let scope = match s {
                Some(id) => id,
                None => 0,
            };
            out.push(Binding {
                scope,
                name: r.name.clone(),
                intro: r.occ.byte,
                kind: BindingKind::Import,
                target: BindingTarget::Import(clone_opt(&r.from_path)),
            });
            assert(imports_of(refs@.take(i + 1)) =~= imports_of(pre).push(refs@[i as int]));
        } else {
            assert(imports_of(refs@.take(i + 1)) =~= imports_of(pre));
        }
        i = i + 1;
    }
    assert(refs@.take(refs.len() as int) =~= refs@);
    out
}

/// The `Module` scope spanning a whole source of `len` bytes.
pub open spec fn root_scope(len: usize) -> Scope {
    Scope { parent: None, span: ByteSpan { start: 0, end: len }, kind: ScopeKind::Module }
}

/// A local binding to be made: its introducing byte, name and kind.
pub type LocalItem = (int, Seq<char>, BindingKind);

/// `b` is the local binding `item` makes, in the innermost scope of its
/// introducing byte.
pub open spec fn local_at(scopes: Seq<Scope>, item: LocalItem, b: Binding) -> bool {
    &&& b.intro == item.0
    &&& b.name@ == item.1
    &&& b.kind == item.2
    &&& b.target == BindingTarget::Local
    &&& binding_scope_spec(scopes, item.0, b.scope)
}

/// `bs` are, in order, the local bindings `items` make.
pub open spec fn locals_match(scopes: Seq<Scope>, items: Seq<LocalItem>, bs: Seq<Binding>) -> bool {
    &&& bs.len() == items.len()
    &&& forall|j: int| 0 <= j < bs.len() ==> local_at(scopes, items[j], #[trigger] bs[j])
}

/// `new` is `old` followed by the local bindings `items` make; every
/// binding stays in an existing scope when those of `old` do.
pub open spec fn locals_grow(scopes: Seq<Scope>, old: Seq<Binding>, new: Seq<Binding>, items: Seq<LocalItem>) -> bool {
    &&& new.len() >= old.len()
    &&& new.take(old.len() as int) == old
    &&& locals_match(scopes, items, new.skip(old.len() as int))
    &&& ((forall|i: int| 0 <= i < old.len() ==> (#[trigger] old[i]).scope < scopes.len()) ==> (forall|i: int|
        0 <= i < new.len() ==> (#[trigger] new[i]).scope < scopes.len()))
}

pub proof fn lemma_locals_grow_none(scopes: Seq<Scope>, s: Seq<Binding>)
    ensures
        locals_grow(scopes, s, s, Seq::empty()),
{
    assert(s.take(s.len() as int) =~= s);
    assert(s.skip(s.len() as int) =~= Seq::<Binding>::empty());
}

pub proof fn lemma_locals_grow_trans(
    scopes: Seq<Scope>,
    a: Seq<Binding>,
    b: Seq<Binding>,
    c: Seq<Binding>,
    i1: Seq<LocalItem>,
    i2: Seq<LocalItem>,
)
    requires
        locals_grow(scopes, a, b, i1),
        locals_grow(scopes, b, c, i2),
    ensures
        locals_grow(scopes, a, c, i1 + i2),
{
    assert(c.take(a.len() as int) =~= a) by {
        assert(c.take(b.len() as int).take(a.len() as int) =~= c.take(a.len() as int));
    }
    let s1 = b.skip(a.len() as int);
    let s2 = c.skip(b.len() as int);
    assert(c.skip(a.len() as int) =~= s1 + s2) by {
        assert(c =~= b + c.skip(b.len() as int)) by {
            assert(c.take(b.len() as int) == b);
        }
    }
    assert forall|j: int| 0 <= j < (s1 + s2).len() implies local_at(scopes, (i1 + i2)[j], #[trigger] (s1 + s2)[j]) by {
        if j < s1.len() {
            assert(local_at(scopes, i1[j], s1[j]));
        } else {
            assert(local_at(scopes, i2[j - s1.len()], s2[j - s1.len()]));
        }
    }
}

/// Record the local binding `(intro, name, kind)`.
pub fn push_local_item(out: &mut Vec<Binding>, name: String, intro: usize, kind: BindingKind, scopes: &Vec<Scope>)
    requires
        scopes.len() >= 1,
    ensures
        locals_grow(scopes@, old(out)@, final(out)@, seq![(intro as int, name@, kind)]),
{
    let ghost nm = name@;
    push_binding(out, name, intro, kind, scopes);
    proof {
        lemma_binding_scope_bound(scopes@, intro as int, out@.last().scope);
        assert(out@.skip(old(out)@.len() as int) =~= seq![out@.last()]);
        let items = seq![(intro as int, nm, kind)];
        assert(local_at(scopes@, items[0], out@.skip(old(out)@.len() as int)[0]));
        if forall|i: int| 0 <= i < old(out)@.len() ==> (#[trigger] old(out)@[i]).scope < scopes.len() {
            assert forall|i: int| 0 <= i < out@.len() implies (#[trigger] out@[i]).scope < scopes.len() by {
                if i < old(out)@.len() {
                    assert(out@[i] == out@.take(old(out)@.len() as int)[i]);
                }
            }
        }
    }
}

/// `bs` are the definition bindings of `defs`: each in the root scope, named
/// and introduced as its definition, pointing at its SCIP id.
pub open spec fn def_bindings_of(defs: Seq<Symbol>, bs: Seq<Binding>) -> bool {
    &&& bs.len() == defs.len()
    &&& forall|i: int|
        0 <= i < bs.len() ==> {
            &&& (#[trigger] bs[i]).scope == 0
            &&& bs[i].name == defs[i].name
            &&& bs[i].intro == defs[i].span.start
            &&& bs[i].kind == BindingKind::Definition
            &&& (bs[i].target matches BindingTarget::Symbol(s) && s@ == scip_text(defs[i].id))
        }
}

/// `bs` are the import bindings of the imports among `refs`: each in the
/// innermost scope of its occurrence, pointing at the path it imports from.
pub open spec fn import_bindings_of(refs: Seq<Reference>, scopes: Seq<Scope>, bs: Seq<Binding>) -> bool {
    &&& bs.len() == imports_of(refs).len()
    &&& forall|i: int|
        0 <= i < bs.len() ==> {
            let im = imports_of(refs)[i];
            &&& (#[trigger] bs[i]).name == im.name
            &&& bs[i].intro == im.occ.byte
            &&& bs[i].kind == BindingKind::Import
            &&& bs[i].target == BindingTarget::Import(im.from_path)
            &&& binding_scope_spec(scopes, im.occ.byte as int, bs[i].scope)
        }
}

} // verus!
