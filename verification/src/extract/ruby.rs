//! Ruby: classes, modules, methods (instance and singleton) and constant
//! assignments, found by walking class and module bodies (method bodies are
//! not entered), qualified by the file's path; explicit call references.
//! Ruby's `private` is a runtime call, so every definition is emitted. No
//! module symbol, scopes or bindings are recorded.

use vstd::prelude::*;
use vstd::utf8::*;
use crate::error::Result;
use crate::graph::{FileFacts, RefRole, Reference, Symbol, SymbolKind};
use crate::lang::Language;
use crate::symbol::{Descriptor, descriptor_text, descriptors_text};
use crate::text::{chars_of, has_prefix, segments, split_nonempty, strings_of, strip_prefix_chars, strip_prefix_or_self, strip_suffix_chars, strip_suffix_or_self, views};
use super::Extractor;
use super::tree::SyntaxTree;
use super::ts::Grammar;
use super::scope::attach_reference_scopes;
use super::support::{
    facts_wf, field_text, make_symbol_at, push_ref, refs_ok, symbols_ok,
    symbol_at, ref_at, refs_match, namespaces_text, method_text, lemma_refs_match_attached,
    types_text, type_text, term_text, path_descriptors, strings_push,
};

verus! {

/// Extracts Ruby symbols and references.
pub struct RubyExtractor;

/// `s` without the first of `prefixes` it starts with.
pub open spec fn strip_first_prefix(s: Seq<char>, prefixes: Seq<Seq<char>>) -> Seq<char>
    decreases prefixes.len(),
{
    if prefixes.len() == 0 {
        s
    } else if strip_prefix_or_self(s, prefixes[0]) != s {
        strip_prefix_or_self(s, prefixes[0])
    } else {
        strip_first_prefix(s, prefixes.skip(1))
    }
}

/// The namespaces of a Ruby file: the path without `.rb` and without a
/// leading `lib/`, `app/` or `src/` (the first that matches), split on `/`.
pub open spec fn ruby_namespaces_spec(file: Seq<char>) -> Seq<Seq<char>> {
    segments(strip_first_prefix(strip_suffix_or_self(file, ".rb"@), seq!["lib/"@, "app/"@, "src/"@]), '/')
}

/// The namespaces of a Ruby file.
pub fn ruby_namespaces(file: &str) -> (r: Vec<String>)
    ensures
        views(r@) == ruby_namespaces_spec(file@),
{
    let cs = chars_of(file);
    let p = strip_suffix_chars(&cs, ".rb");
    let a = strip_prefix_chars(&p, "lib/");
    let b = if a.len() != p.len() {
        a
    } else {
        let a2 = strip_prefix_chars(&p, "app/");
        if a2.len() != p.len() {
            a2
        } else {
            strip_prefix_chars(&p, "src/")
        }
    };
    proof {
        reveal_strlit("lib/");
        reveal_strlit("app/");
        reveal_strlit("src/");
        let ps = seq!["lib/"@, "app/"@, "src/"@];
        assert(ps[0] == "lib/"@ && ps.skip(1)[0] == "app/"@ && ps.skip(1).skip(1)[0] == "src/"@);
        assert(ps.skip(1).skip(1).skip(1).len() == 0);
        reveal_with_fuel(strip_first_prefix, 4);
        assert(b@ == strip_first_prefix(p@, ps));
    }
    let parts = split_nonempty(&b, '/');
    strings_of(&parts)
}

/// Law: the module path of a Ruby file `<root><stem>.rb` whose source root
/// is `lib/`, `app/` or `src/` is the `/`-separated segments of `stem`: the
/// root and the `.rb` extension are not part of it.
pub proof fn law_ruby_module_path_drops_root_and_extension(root: Seq<char>, stem: Seq<char>)
    requires
        root == "lib/"@ || root == "app/"@ || root == "src/"@,
    ensures
        ruby_namespaces_spec(root + stem + ".rb"@) == segments(stem, '/'),
{
    reveal_strlit(".rb");
    reveal_strlit("lib/");
    reveal_strlit("app/");
    reveal_strlit("src/");
    let f = root + stem + ".rb"@;
    let p = root + stem;
    assert(f.skip(f.len() - 3) =~= ".rb"@);
    assert(f.take(f.len() - 3) =~= p);
    assert(strip_suffix_or_self(f, ".rb"@) == p);
    let ps = seq!["lib/"@, "app/"@, "src/"@];
    assert(ps[0] == "lib/"@ && ps.skip(1)[0] == "app/"@ && ps.skip(1).skip(1)[0] == "src/"@);
    assert(ps.skip(1).skip(1).skip(1).len() == 0);
    reveal_with_fuel(strip_first_prefix, 4);
    assert(p.take(4) =~= root);
    assert(p.skip(4) =~= stem);
    assert(p[0] == root[0]);
    assert(strip_first_prefix(p, ps) == stem);
}

/// Law: the module path of a Ruby file `<stem>.rb` whose path does not
/// start with a source root (`lib/`, `app/`, `src/`) is the `/`-separated
/// segments of `stem`.
pub proof fn law_ruby_module_path_without_root(stem: Seq<char>)
    requires
        !has_prefix(stem, "lib/"@),
        !has_prefix(stem, "app/"@),
        !has_prefix(stem, "src/"@),
    ensures
        ruby_namespaces_spec(stem + ".rb"@) == segments(stem, '/'),
{
    reveal_strlit(".rb");
    let f = stem + ".rb"@;
    assert(f.skip(f.len() - 3) =~= ".rb"@);
    assert(f.take(f.len() - 3) =~= stem);
    assert(strip_suffix_or_self(f, ".rb"@) == stem);
    let ps = seq!["lib/"@, "app/"@, "src/"@];
    assert(ps[0] == "lib/"@ && ps.skip(1)[0] == "app/"@ && ps.skip(1).skip(1)[0] == "src/"@);
    assert(ps.skip(1).skip(1).skip(1).len() == 0);
    reveal_with_fuel(strip_first_prefix, 4);
    assert(strip_first_prefix(stem, ps) == stem);
}

/// A definition found by the walk: its node, name, kind and SCIP path text
/// (after the scheme).
pub type RubyDef = (int, Seq<char>, SymbolKind, Seq<char>);

/// The definitions among `cs`, children of `node`, inside the types `types`
/// of a file whose namespaces spell `ns`.
pub open spec fn ruby_defs_in(t: SyntaxTree, node: int, cs: Seq<usize>, ns: Seq<char>, types: Seq<Seq<char>>) -> Seq<RubyDef>
    decreases t.size() - node, cs.len(),
{
    if cs.len() == 0 {
        Seq::empty()
    } else {
        ruby_defs_in(t, node, cs.drop_last(), ns, types) + ruby_defs_at(t, node, cs.last(), ns, types)
    }
}

/// The definitions child `c` of `node` makes: a class or module with a
/// name (then the definitions of its body, inside it), a method or
/// singleton method with a name, or an assignment to a constant.
pub open spec fn ruby_defs_at(t: SyntaxTree, node: int, c: usize, ns: Seq<char>, types: Seq<Seq<char>>) -> Seq<RubyDef>
    decreases t.size() - node, 0nat,
{
    let k = t.kind_of(c as int);
    if k == "class"@ || k == "module"@ {
        match t.field_child_of(c as int, "name"@) {
            Some(nm) => {
                let name = t.text_of(nm as int);
                let kind = if k == "class"@ {
                    SymbolKind::Class
                } else {
                    SymbolKind::Module
                };
                let me = seq![(c as int, name, kind, ns + types_text(types.push(name)))];
                match t.field_child_of(c as int, "body"@) {
                    Some(b) => if node < b < t.size() {
                        me + ruby_defs_in(t, b as int, t.children_of(b as int), ns, types.push(name))
                    } else {
                        me
                    },
                    None => me,
                }
            },
            None => Seq::empty(),
        }
    } else if k == "method"@ || k == "singleton_method"@ {
        match t.field_child_of(c as int, "name"@) {
            Some(nm) => seq![
                (c as int, t.text_of(nm as int), SymbolKind::Method, ns + types_text(types) + method_text(t.text_of(nm as int))),
            ],
            None => Seq::empty(),
        }
    } else if k == "assignment"@ {
        match t.field_child_of(c as int, "left"@) {
            Some(l) => if t.kind_of(l as int) == "constant"@ {
                seq![(c as int, t.text_of(l as int), SymbolKind::Const, ns + types_text(types) + term_text(t.text_of(l as int)))]
            } else {
                Seq::empty()
            },
            None => Seq::empty(),
        }
    } else {
        Seq::empty()
    }
}

/// `s` is the symbol of definition `d`.
pub open spec fn ruby_symbol(t: SyntaxTree, file: Seq<char>, d: RubyDef, s: Symbol) -> bool {
    symbol_at(t, d.0, file, Language::Ruby, d.3, d.1, d.2, Seq::empty(), s)
}

/// `syms` are, in order, the symbols of `defs`.
pub open spec fn ruby_symbols(t: SyntaxTree, file: Seq<char>, defs: Seq<RubyDef>, syms: Seq<Symbol>) -> bool {
    &&& syms.len() == defs.len()
    &&& forall|i: int| 0 <= i < syms.len() ==> ruby_symbol(t, file, defs[i], #[trigger] syms[i])
}

pub proof fn lemma_ruby_symbols_add(t: SyntaxTree, file: Seq<char>, d1: Seq<RubyDef>, s1: Seq<Symbol>, d2: Seq<RubyDef>, s2: Seq<Symbol>)
    requires
        ruby_symbols(t, file, d1, s1),
        ruby_symbols(t, file, d2, s2),
    ensures
        ruby_symbols(t, file, d1 + d2, s1 + s2),
{
    assert forall|i: int| 0 <= i < (s1 + s2).len() implies ruby_symbol(t, file, (d1 + d2)[i], #[trigger] (s1 + s2)[i]) by {
        if i < s1.len() {
            assert(ruby_symbol(t, file, d1[i], s1[i]));
        } else {
            assert(ruby_symbol(t, file, d2[i - s1.len()], s2[i - s1.len()]));
        }
    }
}

/// Push the symbol of definition node `n` with descriptors `descs`.
fn push_def(out: &mut Vec<Symbol>, t: &SyntaxTree, n: usize, descs: Vec<Descriptor>, name: String, kind: SymbolKind, file: &str)
    requires
        t.wf(),
        n < t.size(),
    ensures
        final(out)@ == old(out)@.push(final(out)@.last()),
        symbol_at(*t, n as int, file@, Language::Ruby, descriptors_text(descs@), name@, kind, Seq::empty(), final(out)@.last()),
        final(out)@.last().span.start <= final(out)@.last().span.end <= t.bytes.len(),
        final(out)@.last().file@ == file@,
{
    let stops: Vec<char> = Vec::new();
    assert(stops@ =~= Seq::<char>::empty());
    let s = make_symbol_at(t, n, Language::Ruby, descs, name, kind, file, stops.as_slice());
    out.push(s);
}

/// The definitions among the children of `node`, inside the types `types`:
/// classes and modules (their bodies walked), methods, and assignments to
/// constants.
fn walk(t: &SyntaxTree, node: usize, ns: &Vec<String>, types: &Vec<String>, file: &str, out: &mut Vec<Symbol>)
    requires
        t.wf(),
        node < t.size(),
        symbols_ok(old(out)@, file@, t.bytes.len() as int),
    ensures
        symbols_ok(final(out)@, file@, t.bytes.len() as int),
        final(out)@.len() >= old(out)@.len(),
        final(out)@.take(old(out)@.len() as int) == old(out)@,
        ruby_symbols(
            *t,
            file@,
            ruby_defs_in(*t, node as int, t.children_of(node as int), namespaces_text(views(ns@)), views(types@)),
            final(out)@.skip(old(out)@.len() as int),
        ),
    decreases t.size() - node,
{
    let ghost nst = namespaces_text(views(ns@));
    let ghost ts = views(types@);
    let ghost base = out@;
    let ch = t.children(node);
    let mut k: usize = 0;
    assert(ch@.take(0) =~= Seq::<usize>::empty());
    assert(out@.skip(base.len() as int) =~= Seq::<Symbol>::empty());
    assert(out@.take(base.len() as int) =~= base);
    while k < ch.len()
        invariant
            t.wf(),
            node < t.size(),
            k <= ch.len(),
            ch@ == t.children_of(node as int),
            nst == namespaces_text(views(ns@)),
            ts == views(types@),
            forall|j: int| 0 <= j < ch.len() ==> node < #[trigger] ch@[j] < t.size(),
            symbols_ok(out@, file@, t.bytes.len() as int),
            out@.len() >= base.len(),
            out@.take(base.len() as int) == base,
            ruby_symbols(*t, file@, ruby_defs_in(*t, node as int, ch@.take(k as int), nst, ts), out@.skip(base.len() as int)),
        decreases ch.len() - k,
    {
        let c = ch[k];
        let ghost mid = out@;
        let ghost before = ruby_defs_in(*t, node as int, ch@.take(k as int), nst, ts);
        proof {
            assert(ch@.take(k + 1).drop_last() =~= ch@.take(k as int));
            assert(ch@.take(k + 1).last() == c);
            assert(ruby_defs_in(*t, node as int, ch@.take(k + 1), nst, ts) == before + ruby_defs_at(*t, node as int, c, nst, ts));
        }
        if t.is_kind(c, "class") || t.is_kind(c, "module") {
            match field_text(t, c, "name") {
                Some(name) => {
                    let kind = if t.is_kind(c, "class") {
                        SymbolKind::Class
                    } else {
                        SymbolKind::Module
                    };
                    let inner = strings_push(types, &name);
                    let descs = path_descriptors(ns, types, Descriptor::Type(name.clone()));
                    proof {
                        assert(types_text(views(inner@)) == types_text(ts) + type_text(name@)) by {
                            assert(views(inner@).drop_last() =~= ts);
                        }
                        assert(descriptors_text(descs@) =~= nst + types_text(views(inner@)));
                    }
                    let ghost me: RubyDef = (c as int, name@, kind, nst + types_text(views(inner@)));
                    push_def(out, t, c, descs, name, kind, file);
                    let ghost one = out@;
                    proof {
                        assert(one =~= mid.push(one.last()));
                        assert(ruby_symbols(*t, file@, seq![me], seq![one.last()]));
                    }
                    match t.field_child(c, "body") {
                        Some(body) => {
                            walk(t, body, ns, &inner, file, out);
                            proof {
                                let sub = ruby_defs_in(*t, body as int, t.children_of(body as int), nst, views(inner@));
                                assert(views(inner@) == ts.push(name@));
                                assert(node < body < t.size());
                                assert(ruby_defs_at(*t, node as int, c, nst, ts) == seq![me] + sub);
                                assert(out@ =~= one + out@.skip(one.len() as int)) by {
                                    assert(out@.take(one.len() as int) == one);
                                }
                                assert(out@.skip(mid.len() as int) =~= seq![one.last()] + out@.skip(one.len() as int));
                                lemma_ruby_symbols_add(*t, file@, seq![me], seq![one.last()], sub, out@.skip(one.len() as int));
                                assert(ruby_symbols(*t, file@, ruby_defs_at(*t, node as int, c, nst, ts), out@.skip(mid.len() as int)));
                            }
                        },
                        None => {
                            proof {
                                assert(ruby_defs_at(*t, node as int, c, nst, ts) == seq![me]);
                                assert(out@.skip(mid.len() as int) =~= seq![one.last()]);
                                assert(ruby_symbols(*t, file@, ruby_defs_at(*t, node as int, c, nst, ts), out@.skip(mid.len() as int)));
                            }
                        },
                    }
                },
                None => {
                    assert(ruby_defs_at(*t, node as int, c, nst, ts) =~= Seq::<RubyDef>::empty());
                    assert(out@.skip(mid.len() as int) =~= Seq::<Symbol>::empty());
                },
            }
        } else if t.is_kind(c, "method") || t.is_kind(c, "singleton_method") {
            match field_text(t, c, "name") {
                Some(name) => {
                    let leaf = Descriptor::Method { name: name.clone(), disambiguator: String::new() };
                    let descs = path_descriptors(ns, types, leaf);
                    proof {
                        assert(descriptor_text(leaf) =~= method_text(name@));
                    }
                    push_def(out, t, c, descs, name, SymbolKind::Method, file);
                    proof {
                        assert(ruby_defs_at(*t, node as int, c, nst, ts) == seq![
                            (c as int, name@, SymbolKind::Method, nst + types_text(ts) + method_text(name@)),
                        ]);
                        assert(out@.skip(mid.len() as int) =~= seq![out@.last()]);
                        assert(ruby_symbols(*t, file@, ruby_defs_at(*t, node as int, c, nst, ts), out@.skip(mid.len() as int)));
                    }
                },
                None => {
                    assert(ruby_defs_at(*t, node as int, c, nst, ts) =~= Seq::<RubyDef>::empty());
                    assert(out@.skip(mid.len() as int) =~= Seq::<Symbol>::empty());
                },
            }
        } else if t.is_kind(c, "assignment") {
            match t.field_child(c, "left") {
                Some(l) => {
                    if t.is_kind(l, "constant") {
                        let name = t.text(l);
                        let leaf = Descriptor::Term(name.clone());
                        let descs = path_descriptors(ns, types, leaf);
                        proof {
                            assert(descriptor_text(leaf) =~= term_text(name@));
                            assert(ruby_defs_at(*t, node as int, c, nst, ts) == seq![
                                (c as int, name@, SymbolKind::Const, nst + types_text(ts) + term_text(name@)),
                            ]);
                        }
                        let ghost nm = name@;
                        push_def(out, t, c, descs, name, SymbolKind::Const, file);
                        proof {
                            assert(out@.last().name@ == nm);
                            assert(descriptors_text(out@.last().id.descriptors@) == nst + types_text(ts) + term_text(nm));
                            assert(ruby_symbol(*t, file@, (c as int, nm, SymbolKind::Const, nst + types_text(ts) + term_text(nm)), out@.last()));
                            assert(out@.skip(mid.len() as int) =~= seq![out@.last()]);
                            assert(ruby_symbols(*t, file@, ruby_defs_at(*t, node as int, c, nst, ts), out@.skip(mid.len() as int)));
                        }
                    } else {
                        assert(ruby_defs_at(*t, node as int, c, nst, ts) =~= Seq::<RubyDef>::empty());
                        assert(out@.skip(mid.len() as int) =~= Seq::<Symbol>::empty());
                    }
                },
                None => {
                    assert(ruby_defs_at(*t, node as int, c, nst, ts) =~= Seq::<RubyDef>::empty());
                    assert(out@.skip(mid.len() as int) =~= Seq::<Symbol>::empty());
                },
            }
        } else {
            assert(ruby_defs_at(*t, node as int, c, nst, ts) =~= Seq::<RubyDef>::empty());
            assert(out@.skip(mid.len() as int) =~= Seq::<Symbol>::empty());
        }
        proof {
            assert(out@.len() >= mid.len());
            assert(out@.take(mid.len() as int) == mid);
            assert(ruby_symbols(*t, file@, ruby_defs_at(*t, node as int, c, nst, ts), out@.skip(mid.len() as int)));
            assert(out@.skip(base.len() as int) =~= mid.skip(base.len() as int) + out@.skip(mid.len() as int));
            lemma_ruby_symbols_add(
                *t,
                file@,
                before,
                mid.skip(base.len() as int),
                ruby_defs_at(*t, node as int, c, nst, ts),
                out@.skip(mid.len() as int),
            );
            assert(out@.take(base.len() as int) =~= base) by {
                assert(out@.take(mid.len() as int).take(base.len() as int) =~= out@.take(base.len() as int));
            }
            assert forall|i: int| 0 <= i < out@.len() implies (#[trigger] out@[i]).file@ == file@ && out@[i].span.start
                <= out@[i].span.end <= t.bytes.len() by {
                if i < base.len() {
                    assert(out@[i] == base[i]);
                } else {
                    assert(out@[i] == out@.skip(base.len() as int)[i - base.len()]);
                    let j = i - base.len();
                    assert(ruby_symbol(*t, file@, ruby_defs_in(*t, node as int, ch@.take(k + 1), nst, ts)[j], out@.skip(base.len() as int)[j]));
                }
            }
        }
        k = k + 1;
    }
    assert(ch@.take(ch.len() as int) =~= ch@);
}

/// The call words of node `i`: the `method` of a `call`, when an
/// identifier.
pub open spec fn ruby_call_at(t: SyntaxTree, i: int) -> Seq<usize> {
    if t.kind_of(i) == "call"@ {
        match t.field_child_of(i, "method"@) {
            Some(m) => if t.kind_of(m as int) == "identifier"@ {
                seq![m]
            } else {
                Seq::empty()
            },
            None => Seq::empty(),
        }
    } else {
        Seq::empty()
    }
}

/// The call words of nodes `0..n`, in pre-order.
pub open spec fn ruby_calls_upto(t: SyntaxTree, n: int) -> Seq<usize>
    decreases n,
{
    if n <= 0 {
        Seq::empty()
    } else {
        ruby_calls_upto(t, n - 1) + ruby_call_at(t, n - 1)
    }
}

/// Every call word of a node before `n` is among the call words of nodes
/// `0..n`.
proof fn lemma_ruby_calls_upto_has(t: SyntaxTree, i: int, n: int, m: usize)
    requires
        0 <= i < n,
        ruby_call_at(t, i) == seq![m],
    ensures
        ruby_calls_upto(t, n).contains(m),
    decreases n,
{
    if i < n - 1 {
        lemma_ruby_calls_upto_has(t, i, n - 1, m);
        let prev = ruby_calls_upto(t, n - 1);
        let k = choose|k: int| 0 <= k < prev.len() && prev[k] == m;
        assert(ruby_calls_upto(t, n)[k] == m);
    } else {
        let prev = ruby_calls_upto(t, n - 1);
        assert(ruby_calls_upto(t, n)[prev.len() as int] == m);
    }
}

/// Law: every call whose method is an identifier, with or without a
/// receiver, is a `Call` reference of the file: named by the identifier and
/// occurring where it starts.
pub proof fn law_ruby_every_call_is_referenced(
    t: SyntaxTree,
    source: Seq<char>,
    file: Seq<char>,
    f: FileFacts,
    i: int,
    m: usize,
)
    requires
        ruby_facts_of(t, source, file, f),
        0 <= i < t.size(),
        t.kind_of(i) == "call"@,
        t.field_child_of(i, "method"@) == Some(m),
        t.kind_of(m as int) == "identifier"@,
    ensures
        exists|j: int|
            0 <= j < f.references.len() && (#[trigger] f.references@[j]).role == RefRole::Call
                && f.references@[j].name@ == t.text_of(m as int) && f.references@[j].occ.byte
                == t.nodes@[m as int].start,
{
    assert(ruby_call_at(t, i) == seq![m]);
    lemma_ruby_calls_upto_has(t, i, t.size(), m);
    let calls = ruby_calls_upto(t, t.size());
    let k = choose|k: int| 0 <= k < calls.len() && calls[k] == m;
    assert(ref_at(t, calls[k] as int, file, t.text_of(calls[k] as int), RefRole::Call, f.references@[k]));
}

/// The first definition a child of `node` makes is among the definitions of
/// any list of children that holds it.
proof fn lemma_ruby_defs_in_has(t: SyntaxTree, node: int, cs: Seq<usize>, ns: Seq<char>, types: Seq<Seq<char>>, k: int)
    requires
        0 <= k < cs.len(),
        ruby_defs_at(t, node, cs[k], ns, types).len() > 0,
    ensures
        ruby_defs_in(t, node, cs, ns, types).contains(ruby_defs_at(t, node, cs[k], ns, types)[0]),
    decreases cs.len(),
{
    let d = ruby_defs_at(t, node, cs[k], ns, types)[0];
    let prev = ruby_defs_in(t, node, cs.drop_last(), ns, types);
    if k < cs.len() - 1 {
        assert(cs.drop_last()[k] == cs[k]);
        lemma_ruby_defs_in_has(t, node, cs.drop_last(), ns, types, k);
        let j = choose|j: int| 0 <= j < prev.len() && prev[j] == d;
        assert(ruby_defs_in(t, node, cs, ns, types)[j] == d);
    } else {
        assert(ruby_defs_in(t, node, cs, ns, types)[prev.len() as int] == d);
    }
}

/// Law: every named class at the top of a Ruby file is a `Class` symbol of
/// the file, named by the class, whose SCIP path is the file's module path
/// (each segment, then `/`) followed by the class name and `#`.
pub proof fn law_ruby_top_level_class_symbol(t: SyntaxTree, source: Seq<char>, file: Seq<char>, f: FileFacts, k: int, nm: usize)
    requires
        ruby_facts_of(t, source, file, f),
        0 <= k < t.children_of(0).len(),
        t.kind_of(t.children_of(0)[k] as int) == "class"@,
        t.field_child_of(t.children_of(0)[k] as int, "name"@) == Some(nm),
    ensures
        exists|j: int|
            0 <= j < f.symbols.len() && (#[trigger] f.symbols@[j]).kind == SymbolKind::Class && f.symbols@[j].name@
                == t.text_of(nm as int) && descriptors_text(f.symbols@[j].id.descriptors@) == namespaces_text(
                ruby_namespaces_spec(file),
            ) + type_text(t.text_of(nm as int)),
{
    let cs = t.children_of(0);
    let ns = namespaces_text(ruby_namespaces_spec(file));
    let name = t.text_of(nm as int);
    let empty = Seq::<Seq<char>>::empty();
    assert(types_text(empty.push(name)) == types_text(empty.push(name).drop_last()) + type_text(name));
    assert(empty.push(name).drop_last() =~= empty);
    let d = ruby_defs_at(t, 0, cs[k], ns, empty)[0];
    assert(d == (cs[k] as int, name, SymbolKind::Class, ns + types_text(empty.push(name))));
    lemma_ruby_defs_in_has(t, 0, cs, ns, empty, k);
    let defs = ruby_defs_in(t, 0, cs, ns, empty);
    let j = choose|j: int| 0 <= j < defs.len() && defs[j] == d;
    assert(ruby_symbol(t, file, defs[j], f.symbols@[j]));
}

/// Call references: the identifier `method` of every explicit call.
fn collect_calls(t: &SyntaxTree, file: &str) -> (r: Vec<Reference>)
    requires
        t.wf(),
    ensures
        refs_ok(r@, file@, t.bytes.len() as int),
        refs_match(*t, file@, ruby_calls_upto(*t, t.size()), RefRole::Call, r@),
{
    let mut out: Vec<Reference> = Vec::new();
    let mut i: usize = 0;
    while i < t.nodes.len()
        invariant
            t.wf(),
            i <= t.nodes.len(),
            refs_ok(out@, file@, t.bytes.len() as int),
            refs_match(*t, file@, ruby_calls_upto(*t, i as int), RefRole::Call, out@),
        decreases t.nodes.len() - i,
    {
        let ghost upto = ruby_calls_upto(*t, i as int);
        let ghost old_out = out@;
        if t.is_kind(i, "call") {
            match t.field_child(i, "method") {
                Some(m) => {
                    if t.is_kind(m, "identifier") {
                        push_ref(&mut out, t.text(m), t, m, file, RefRole::Call);
                        proof {
                            assert(ruby_call_at(*t, i as int) == seq![m]);
                            let now = upto + seq![m];
                            assert forall|j: int| 0 <= j < out.len() implies ref_at(
                                *t,
                                now[j] as int,
                                file@,
                                t.text_of(now[j] as int),
                                RefRole::Call,
                                #[trigger] out@[j],
                            ) by {
                                if j < old_out.len() {
                                    assert(out@[j] == old_out[j]);
                                }
                            }
                        }
                    } else {
                        assert(ruby_call_at(*t, i as int) =~= Seq::<usize>::empty());
                    }
                },
                None => {
                    assert(ruby_call_at(*t, i as int) =~= Seq::<usize>::empty());
                },
            }
        } else {
            assert(ruby_call_at(*t, i as int) =~= Seq::<usize>::empty());
        }
        assert(ruby_calls_upto(*t, i + 1) == upto + ruby_call_at(*t, i as int));
        assert(upto + Seq::<usize>::empty() =~= upto);
        i = i + 1;
    }
    out
}

/// What `ruby_facts` states of the facts `r` it builds from tree `t` of
/// `source`, the text of `file`.
pub open spec fn ruby_facts_of(t: SyntaxTree, source: Seq<char>, file: Seq<char>, r: FileFacts) -> bool {
    &&& r.scopes@.len() == 0
    &&& r.bindings@.len() == 0
    &&& r.ffi_exports@.len() == 0
    &&& ruby_symbols(
        t,
        file,
        ruby_defs_in(t, 0, t.children_of(0), namespaces_text(ruby_namespaces_spec(file)), Seq::empty()),
        r.symbols@,
    )
    &&& refs_match(t, file, ruby_calls_upto(t, t.size()), RefRole::Call, r.references@)
}

/// The facts of a Ruby file from its syntax tree: the definitions the walk
/// from the root finds, in order, and the explicit calls, in pre-order.
pub fn ruby_facts(t: &SyntaxTree, source: &str, file: &str) -> (r: FileFacts)
    requires
        t.wf(),
        t.bytes@ == encode_utf8(source@),
    ensures
        facts_wf(r, file@, source@, Language::Ruby),
        ruby_facts_of(*t, source@, file@, r),
{
    let ns = ruby_namespaces(file);
    let types: Vec<String> = Vec::new();
    let mut symbols: Vec<Symbol> = Vec::new();
    walk(t, 0, &ns, &types, file, &mut symbols);
    assert(views(types@) =~= Seq::<Seq<char>>::empty());
    assert(symbols@.skip(0) =~= symbols@);
    let refs = collect_calls(t, file);
    let scopes: Vec<crate::graph::Scope> = Vec::new();
    let ghost before = refs@;
    let refs = attach_reference_scopes(refs, &scopes);
    proof {
        lemma_refs_match_attached(*t, file@, ruby_calls_upto(*t, t.size()), RefRole::Call, before, refs@, scopes@);
    }
    FileFacts {
        file: file.to_owned(),
        lang: Language::Ruby.as_str().to_owned(),
        symbols,
        references: refs,
        scopes,
        bindings: Vec::new(),
        ffi_exports: Vec::new(),
    }
}

impl Extractor for RubyExtractor {
    open spec fn spec_lang(&self) -> Language {
        Language::Ruby
    }

    fn lang(&self) -> (r: Language) {
        Language::Ruby
    }

    fn extract(&self, source: &str, file: &str) -> (r: Result<FileFacts>)
        ensures
            r is Ok <==> super::parses(Grammar::Ruby, source@),
            r matches Ok(f) ==> super::extracted(Language::Ruby, source@, file@, f),
    {
        let t = super::parse_tree(Grammar::Ruby, source, file)?;
        let res: Result<FileFacts> = Ok(ruby_facts(&t, source, file));
        assert(super::parsed_by(t, Grammar::Ruby, source@) && ruby_facts_of(t, source@, file@, res->Ok_0));
        res
    }
}

} // verus!
