//! Building blocks shared by the per-language extractors: occurrences and
//! references at syntax nodes, symbols, the module symbol of a file, and the
//! well-formedness every extractor's output satisfies.

use vstd::prelude::*;
use vstd::utf8::*;
use crate::graph::{Binding, ByteSpan, FileFacts, Occurrence, RefRole, Reference, Symbol, SymbolKind};
use crate::lang::{Language, lang_name};
use crate::symbol::{Descriptor, SymbolId, descriptor_text, descriptors_text, escaped_name};
use crate::text::{one_line_signature, signature_of, last_index_spec, last_index_of, lemma_last_index_bounds, slice_chars, string_from_chars, segments, strip_prefix_or_self, strip_suffix_or_self, views, chars_of, strip_suffix_chars, strip_prefix_chars, split_nonempty, strings_of};
use super::tree::SyntaxTree;
use super::scope::{innermost_spec, scope_tree_wf};

verus! {

/// A 1-based line number from a 0-based row, saturating at `u32::MAX`.
pub open spec fn line_of(row: int) -> u32 {
    if row < u32::MAX {
        (row + 1) as u32
    } else {
        u32::MAX
    }
}

/// A 1-based line number from a 0-based row.
pub fn line_from_row(row: usize) -> (r: u32)
    ensures
        r == line_of(row as int),
{
    if row < u32::MAX as usize {
        (row + 1) as u32
    } else {
        u32::MAX
    }
}

/// A column as `u32`, saturating.
pub open spec fn col_of(col: int) -> u32 {
    if col <= u32::MAX {
        col as u32
    } else {
        u32::MAX
    }
}

fn col_from(col: usize) -> (r: u32)
    ensures
        r == col_of(col as int),
{
    if col <= u32::MAX as usize {
        col as u32
    } else {
        u32::MAX
    }
}

/// The occurrence at node `n`: its first byte, line and column.
pub open spec fn occurrence_at(t: SyntaxTree, n: int, file: Seq<char>, o: Occurrence) -> bool {
    &&& o.file@ == file
    &&& o.byte == t.nodes@[n].start
    &&& o.line == line_of(t.nodes@[n].row as int)
    &&& o.col == col_of(t.nodes@[n].col as int)
}

/// The occurrence at node `n` of file `file`.
pub fn node_occurrence(t: &SyntaxTree, n: usize, file: &str) -> (r: Occurrence)
    requires
        n < t.size(),
    ensures
        occurrence_at(*t, n as int, file@, r),
{
    Occurrence {
        file: file.to_owned(),
        line: line_from_row(t.nodes[n].row),
        col: col_from(t.nodes[n].col),
        byte: t.nodes[n].start,
    }
}

/// Every reference lies in `file`, at a byte of its source.
pub open spec fn refs_ok(refs: Seq<Reference>, file: Seq<char>, len: int) -> bool {
    forall|i: int| 0 <= i < refs.len() ==> (#[trigger] refs[i]).occ.file@ == file && refs[i].occ.byte <= len
}

/// Every binding lands in an existing scope.
pub open spec fn bindings_ok(bs: Seq<Binding>, nscopes: int) -> bool {
    forall|i: int| 0 <= i < bs.len() ==> (#[trigger] bs[i]).scope < nscopes
}

/// Every symbol lies in `file`, over a byte range of its source.
pub open spec fn symbols_ok(syms: Seq<Symbol>, file: Seq<char>, len: int) -> bool {
    forall|i: int|
        0 <= i < syms.len() ==> (#[trigger] syms[i]).file@ == file && syms[i].span.start
            <= syms[i].span.end <= len
}

/// What every extractor's facts for `file` with source `source` satisfy:
/// they name the file and language; the scopes form a tree rooted at the
/// whole file, or there are none; symbols and references lie in the file;
/// each reference is attached to the innermost scope containing it (to none
/// when there are no scopes) and each binding to an existing scope (so there
/// are no bindings without scopes).
pub open spec fn facts_wf(f: FileFacts, file: Seq<char>, source: Seq<char>, lang: Language) -> bool {
    let len = encode_utf8(source).len() as int;
    &&& f.file@ == file
    &&& f.lang@ == lang_name(lang)
    &&& (scope_tree_wf(f.scopes@, len) || f.scopes.len() == 0)
    &&& symbols_ok(f.symbols@, file, len)
    &&& refs_ok(f.references@, file, len)
    &&& forall|i: int|
        0 <= i < f.references.len() ==> innermost_spec(
            f.scopes@,
            (#[trigger] f.references@[i]).occ.byte as int,
            f.references@[i].scope,
        )
    &&& bindings_ok(f.bindings@, f.scopes.len() as int)
}

/// Record a reference of `role` to `name` at node `n`.
pub fn push_ref(out: &mut Vec<Reference>, name: String, t: &SyntaxTree, n: usize, file: &str, role: RefRole)
    requires
        t.wf(),
        n < t.size(),
    ensures
        final(out)@.len() == old(out)@.len() + 1,
        final(out)@.take(old(out)@.len() as int) == old(out)@,
        final(out)@.last().name == name,
        final(out)@.last().role == role,
        occurrence_at(*t, n as int, file@, final(out)@.last().occ),
        final(out)@.last().source_module is None,
        final(out)@.last().from_path is None,
        final(out)@.last().qualifier is None,
        refs_ok(old(out)@, file@, t.bytes.len() as int) ==> refs_ok(final(out)@, file@, t.bytes.len() as int),
{
    let occ = node_occurrence(t, n, file);
    out.push(Reference {
        name,
        occ,
        role,
        source_module: None,
        from_path: None,
        qualifier: None,
        scope: None,
    });
    assert(final(out)@.take(old(out)@.len() as int) =~= old(out)@);
}

/// Record an import of `name` at node `n` from `from_path` (none when empty),
/// by the module whose SCIP id is `module_id`.
pub fn push_import_ref(out: &mut Vec<Reference>, name: String, t: &SyntaxTree, n: usize, file: &str, module_id: &str, from_path: String)
    requires
        t.wf(),
        n < t.size(),
    ensures
        final(out)@.len() == old(out)@.len() + 1,
        final(out)@.take(old(out)@.len() as int) == old(out)@,
        final(out)@.last().name == name,
        final(out)@.last().role == RefRole::Import,
        occurrence_at(*t, n as int, file@, final(out)@.last().occ),
        final(out)@.last().source_module matches Some(m) && m@ == module_id@,
        from_path@.len() == 0 ==> final(out)@.last().from_path is None,
        from_path@.len() > 0 ==> final(out)@.last().from_path == Some(from_path),
        final(out)@.last().qualifier is None,
        refs_ok(old(out)@, file@, t.bytes.len() as int) ==> refs_ok(final(out)@, file@, t.bytes.len() as int),
{
    let occ = node_occurrence(t, n, file);
    let fp = if from_path.as_str().is_empty() {
        None
    } else {
        Some(from_path)
    };
    out.push(Reference {
        name,
        occ,
        role: RefRole::Import,
        source_module: Some(module_id.to_owned()),
        from_path: fp,
        qualifier: None,
        scope: None,
    });
    assert(final(out)@.take(old(out)@.len() as int) =~= old(out)@);
}

/// `Namespace` descriptors for each of `names`, in order.
pub open spec fn namespace_descriptors(names: Seq<String>) -> Seq<Descriptor> {
    Seq::new(names.len(), |i: int| Descriptor::Namespace(names[i]))
}

/// `Namespace` descriptors for each of `names`.
pub fn namespaces_to_descriptors(names: &Vec<String>) -> (r: Vec<Descriptor>)
    ensures
        r@ == namespace_descriptors(names@),
{
    let mut out: Vec<Descriptor> = Vec::new();
    let mut i: usize = 0;
    while i < names.len()
        invariant
            i <= names.len(),
            out@ =~= namespace_descriptors(names@).take(i as int),
        decreases names.len() - i,
    {
        out.push(Descriptor::Namespace(names[i].clone()));
        i = i + 1;
    }
    assert(namespace_descriptors(names@).take(names.len() as int) =~= namespace_descriptors(names@));
    out
}

/// The stem of a file path: its last `/`-segment without the extension
/// after the last `.` (a leading `.` starts no extension).
pub open spec fn file_stem(file: Seq<char>) -> Seq<char> {
    let base = file.skip(last_index_spec(file, '/') + 1);
    let k = last_index_spec(base, '.');
    if k > 0 {
        base.take(k)
    } else {
        base
    }
}

/// Law: the stem of `<dir>/<stem>.<ext>` is `stem`, for a non-empty `stem`
/// and an `ext` without `/` or `.` (and `stem` without them either).
pub proof fn law_file_stem(dir: Seq<char>, stem: Seq<char>, ext: Seq<char>)
    requires
        stem.len() > 0,
        forall|i: int| 0 <= i < stem.len() ==> stem[i] != '/' && stem[i] != '.',
        forall|i: int| 0 <= i < ext.len() ==> ext[i] != '/' && ext[i] != '.',
    ensures
        file_stem(dir + seq!['/'] + stem + seq!['.'] + ext) == stem,
{
    let tail = stem + seq!['.'] + ext;
    let f = dir + seq!['/'] + tail;
    assert(f =~= (dir + seq!['/']) + tail);
    assert forall|i: int| 0 <= i < tail.len() implies tail[i] != '/' by {
        if i > stem.len() {
            assert(tail[i] == ext[i - stem.len() - 1]);
        }
    }
    crate::text::lemma_last_index_concat(dir + seq!['/'], tail, '/');
    assert((dir + seq!['/']).last() == '/');
    assert(last_index_spec(dir + seq!['/'], '/') == dir.len());
    assert(f.skip(dir.len() as int + 1) =~= tail);
    assert(tail =~= (stem + seq!['.']) + ext);
    crate::text::lemma_last_index_concat(stem + seq!['.'], ext, '.');
    assert((stem + seq!['.']).last() == '.');
    assert(last_index_spec(stem + seq!['.'], '.') == stem.len());
    assert(tail.take(stem.len() as int) =~= stem);
    assert(dir + seq!['/'] + stem + seq!['.'] + ext =~= f);
    assert(file_stem(f) == stem);
}

/// The stem of `file`.
pub fn file_stem_of(file: &str) -> (r: String)
    ensures
        r@ == file_stem(file@),
{
    let cs = chars_of(file);
    proof {
        lemma_last_index_bounds(cs@, '/');
    }
    let from = match last_index_of(&cs, '/') {
        Some(k) => k + 1,
        None => 0,
    };
    let base = slice_chars(&cs, from, cs.len());
    assert(base@ =~= cs@.skip(last_index_spec(cs@, '/') + 1));
    proof {
        lemma_last_index_bounds(base@, '.');
    }
    match last_index_of(&base, '.') {
        Some(k) => {
            if k > 0 {
                let stem = slice_chars(&base, 0, k);
                assert(stem@ =~= base@.take(k as int));
                string_from_chars(stem.as_slice())
            } else {
                string_from_chars(base.as_slice())
            }
        },
        None => string_from_chars(base.as_slice()),
    }
}

/// The symbol standing for a whole file: a `Module` at the namespace path,
/// named after its last segment, spanning the whole source. A file without
/// namespaces stands at the one-segment path of its stem.
pub fn module_symbol(lang: Language, namespaces: &Vec<String>, file: &str, source_len: usize) -> (r: Symbol)
    ensures
        r.kind == SymbolKind::Module,
        r.id.lang@ == lang_name(lang),
        namespaces.len() > 0 ==> r.id.descriptors@ == namespace_descriptors(namespaces@),
        namespaces.len() > 0 ==> r.name == namespaces@.last(),
        namespaces.len() == 0 ==> r.name@ == file_stem(file@),
        namespaces.len() == 0 ==> r.id.descriptors@ == seq![Descriptor::Namespace(r.name)],
        r.file@ == file@,
        r.line == 1,
        r.span == (ByteSpan { start: 0, end: source_len }),
        module_symbol_spec(r, lang, views(namespaces@), file@, source_len as int),
{
    proof {
        lemma_namespaces_text(namespaces@);
        if namespaces.len() > 0 {
            assert(views(namespaces@).last() == namespaces@.last()@);
        }
    }
    let (name, descs) = if namespaces.len() > 0 {
        (namespaces[namespaces.len() - 1].clone(), namespaces_to_descriptors(namespaces))
    } else {
        let stem = file_stem_of(file);
        let d = vec![Descriptor::Namespace(stem.clone())];
        proof {
            lemma_one_descriptor_text(Descriptor::Namespace(stem));
            assert(d@ =~= seq![Descriptor::Namespace(stem)]);
        }
        (stem, d)
    };
    Symbol {
        id: SymbolId::global(lang.as_str(), descs),
        name,
        kind: SymbolKind::Module,
        file: file.to_owned(),
        line: 1,
        span: ByteSpan { start: 0, end: source_len },
        signature: String::new(),
    }
}

/// The text of the first child of `n` under field `f`.
pub fn field_text(t: &SyntaxTree, n: usize, f: &str) -> (r: Option<String>)
    requires
        t.wf(),
        n < t.size(),
    ensures
        r matches Some(s) ==> exists|c: int|
            #![trigger t.text_of(c)]
            n < c < t.size() && t.children_of(n as int).contains(c as usize) && t.field_of(c)
                == Some(f@) && s@ == t.text_of(c),
        r is Some == t.field_child_of(n as int, f@) is Some,
        r matches Some(s) ==> s@ == t.text_of(t.field_child_of(n as int, f@)->0 as int),
{
    match t.field_child(n, f) {
        Some(c) => {
            let s = t.text(c);
            assert(t.text_of(c as int) == s@);
            Some(s)
        },
        None => None,
    }
}

/// Append `more` to `out`, keeping every binding in an existing scope.
pub fn append_bindings(out: &mut Vec<Binding>, more: Vec<Binding>, nscopes: usize)
    requires
        bindings_ok(old(out)@, nscopes as int),
        bindings_ok(more@, nscopes as int),
    ensures
        final(out)@ == old(out)@ + more@,
        bindings_ok(final(out)@, nscopes as int),
{
    let mut m = more;
    out.append(&mut m);
    assert forall|i: int| 0 <= i < final(out)@.len() implies (#[trigger] final(out)@[i]).scope < nscopes by {
        if i >= old(out)@.len() {
            assert(final(out)@[i] == more@[i - old(out)@.len()]);
        }
    }
}

/// A definition at node `n` with the descriptor path `descs`, spanning the
/// node, with the node's head up to a newline or one of `stops` as signature.
pub fn make_symbol_at(t: &SyntaxTree, n: usize, lang: Language, descs: Vec<Descriptor>, name: String, kind: SymbolKind, file: &str, stops: &[char]) -> (r: Symbol)
    requires
        t.wf(),
        n < t.size(),
    ensures
        r.id.lang@ == lang_name(lang),
        r.id.descriptors@ == descs@,
        r.name == name,
        r.kind == kind,
        r.file@ == file@,
        r.line == line_of(t.nodes@[n as int].row as int),
        r.span == (ByteSpan { start: t.nodes@[n as int].start, end: t.nodes@[n as int].end }),
        r.signature@ == signature_of(t.text_of(n as int), stops@),
        r.span.start <= r.span.end <= t.bytes.len(),
{
    let text = t.text(n);
    Symbol {
        id: SymbolId::global(lang.as_str(), descs),
        name,
        kind,
        file: file.to_owned(),
        line: line_from_row(t.nodes[n].row),
        span: ByteSpan { start: t.nodes[n].start, end: t.nodes[n].end },
        signature: one_line_signature(text.as_str(), stops),
    }
}

/// The byte span of node `n`.
pub fn node_span(t: &SyntaxTree, n: usize) -> (r: ByteSpan)
    requires
        n < t.size(),
    ensures
        r.start == t.nodes@[n as int].start,
        r.end == t.nodes@[n as int].end,
{
    ByteSpan { start: t.nodes[n].start, end: t.nodes[n].end }
}

/// The path-derived namespaces of a file: the path without extension `ext`
/// and a leading `src/`, split on `/` into its non-empty segments.
pub open spec fn path_namespaces_spec(file: Seq<char>, ext: Seq<char>) -> Seq<Seq<char>> {
    segments(strip_prefix_or_self(strip_suffix_or_self(file, ext), "src/"@), '/')
}

/// Law: the path-derived namespaces of `src/<stem><ext>`, and of
/// `<stem><ext>` when `stem` does not start with `src/`, are the
/// `/`-separated segments of `stem`.
pub proof fn law_path_namespaces_drop_src_and_extension(stem: Seq<char>, ext: Seq<char>)
    ensures
        path_namespaces_spec("src/"@ + stem + ext, ext) == segments(stem, '/'),
        !crate::text::has_prefix(stem, "src/"@) ==> path_namespaces_spec(stem + ext, ext) == segments(stem, '/'),
{
    crate::text::lemma_strip_own_suffix("src/"@ + stem, ext);
    crate::text::lemma_strip_own_prefix("src/"@, stem);
    crate::text::lemma_strip_own_suffix(stem, ext);
}

/// The path-derived namespaces of `file` with extension `ext`.
pub fn path_namespaces(file: &str, ext: &str) -> (r: Vec<String>)
    ensures
        views(r@) == path_namespaces_spec(file@, ext@),
{
    let cs = chars_of(file);
    let a = strip_suffix_chars(&cs, ext);
    let b = strip_prefix_chars(&a, "src/");
    let parts = split_nonempty(&b, '/');
    strings_of(&parts)
}

/// The SCIP text of a path of namespaces: each name, escaped, then `/`.
pub open spec fn namespaces_text(ns: Seq<Seq<char>>) -> Seq<char>
    decreases ns.len(),
{
    if ns.len() == 0 {
        Seq::empty()
    } else {
        namespaces_text(ns.drop_last()) + escaped_name(ns.last()) + seq!['/']
    }
}

/// Law: the module path a definition is qualified by reads the same whether
/// it is written from the names themselves or from their `Namespace`
/// descriptors: each name, escaped, then `/`, in order; and the text of two
/// paths one after the other is the text of the first, then of the second.
pub proof fn law_namespace_path_text(ns: Seq<String>, more: Seq<Seq<char>>)
    ensures
        namespaces_text(views(ns)) == descriptors_text(namespace_descriptors(ns)),
        namespaces_text(views(ns) + more) == namespaces_text(views(ns)) + namespaces_text(more),
    decreases ns.len() + more.len(),
{
    if more.len() > 0 {
        law_namespace_path_text(ns, more.drop_last());
        assert((views(ns) + more).drop_last() =~= views(ns) + more.drop_last());
        assert((views(ns) + more).last() == more.last());
    } else {
        assert(views(ns) + more =~= views(ns));
    }
    if ns.len() > 0 {
        law_namespace_path_text(ns.drop_last(), Seq::empty());
        assert(views(ns).drop_last() =~= views(ns.drop_last()));
        assert(namespace_descriptors(ns).drop_last() =~= namespace_descriptors(ns.drop_last()));
        assert(namespace_descriptors(ns).last() == Descriptor::Namespace(ns.last()));
    }
}

/// The SCIP text of a method named `name`: `name().`.
pub open spec fn method_text(name: Seq<char>) -> Seq<char> {
    escaped_name(name) + seq!['(', ')', '.']
}

/// The SCIP text of a type named `name`: `name#`.
pub open spec fn type_text(name: Seq<char>) -> Seq<char> {
    escaped_name(name) + seq!['#']
}

/// The SCIP text of a term named `name`: `name.`.
pub open spec fn term_text(name: Seq<char>) -> Seq<char> {
    escaped_name(name) + seq!['.']
}

/// The SCIP text of a macro named `name`: `name!`.
pub open spec fn macro_text(name: Seq<char>) -> Seq<char> {
    escaped_name(name) + seq!['!']
}

pub proof fn lemma_descriptors_text_add(a: Seq<Descriptor>, b: Seq<Descriptor>)
    ensures
        descriptors_text(a + b) == descriptors_text(a) + descriptors_text(b),
    decreases b.len(),
{
    if b.len() == 0 {
        assert(a + b =~= a);
        assert(descriptors_text(a) + descriptors_text(b) =~= descriptors_text(a));
    } else {
        lemma_descriptors_text_add(a, b.drop_last());
        assert((a + b).drop_last() =~= a + b.drop_last());
        assert((a + b).last() == b.last());
        assert(descriptors_text(a + b) =~= descriptors_text(a) + descriptors_text(b));
    }
}

pub proof fn lemma_namespaces_text(names: Seq<String>)
    ensures
        descriptors_text(namespace_descriptors(names)) == namespaces_text(views(names)),
    decreases names.len(),
{
    if names.len() > 0 {
        lemma_namespaces_text(names.drop_last());
        assert(namespace_descriptors(names).drop_last() =~= namespace_descriptors(names.drop_last()));
        assert(views(names).drop_last() =~= views(names.drop_last()));
    } else {
        assert(namespace_descriptors(names) =~= Seq::<Descriptor>::empty());
        assert(views(names) =~= Seq::<Seq<char>>::empty());
    }
}

/// The SCIP text of `names` as namespaces followed by `extra`.
pub proof fn lemma_path_text(names: Seq<String>, extra: Seq<Descriptor>)
    ensures
        descriptors_text(namespace_descriptors(names) + extra) == namespaces_text(views(names))
            + descriptors_text(extra),
{
    lemma_descriptors_text_add(namespace_descriptors(names), extra);
    lemma_namespaces_text(names);
}

pub proof fn lemma_one_descriptor_text(d: Descriptor)
    ensures
        descriptors_text(seq![d]) == descriptor_text(d),
{
    assert(seq![d].drop_last() =~= Seq::<Descriptor>::empty());
    assert(descriptors_text(Seq::<Descriptor>::empty()) == Seq::<char>::empty());
    assert(descriptors_text(seq![d]) =~= descriptors_text(Seq::<Descriptor>::empty()) + descriptor_text(d));
    assert(descriptors_text(seq![d]) =~= descriptor_text(d));
}

/// `s` is the definition node `n` of `t` makes in `file`: `name` of `kind`
/// at the SCIP path `path` (after the scheme), spanning the node, with the
/// node's head up to a newline or one of `stops` as its signature.
pub open spec fn symbol_at(
    t: SyntaxTree,
    n: int,
    file: Seq<char>,
    lang: Language,
    path: Seq<char>,
    name: Seq<char>,
    kind: SymbolKind,
    stops: Seq<char>,
    s: Symbol,
) -> bool {
    &&& s.id.lang@ == lang_name(lang)
    &&& descriptors_text(s.id.descriptors@) == path
    &&& s.name@ == name
    &&& s.kind == kind
    &&& s.file@ == file
    &&& s.line == line_of(t.nodes@[n].row as int)
    &&& s.span == (ByteSpan { start: t.nodes@[n].start, end: t.nodes@[n].end })
    &&& s.signature@ == signature_of(t.text_of(n), stops)
}

/// `r` is a plain reference of `role` to `name` at node `n` of `t` in `file`
/// (no import source, no qualifier).
pub open spec fn ref_at(t: SyntaxTree, n: int, file: Seq<char>, name: Seq<char>, role: RefRole, r: Reference) -> bool {
    &&& r.name@ == name
    &&& r.role == role
    &&& occurrence_at(t, n, file, r.occ)
    &&& r.source_module is None
    &&& r.from_path is None
    &&& r.qualifier is None
}

/// `refs` are, in order, plain references of `role` at the nodes `nodes`,
/// each named by its node's text.
pub open spec fn refs_match(t: SyntaxTree, file: Seq<char>, nodes: Seq<usize>, role: RefRole, refs: Seq<Reference>) -> bool {
    &&& refs.len() == nodes.len()
    &&& forall|j: int|
        0 <= j < refs.len() ==> ref_at(t, nodes[j] as int, file, t.text_of(nodes[j] as int), role, #[trigger] refs[j])
}

/// Attaching scopes keeps what `refs_match` states.
pub proof fn lemma_refs_match_attached(
    t: SyntaxTree,
    file: Seq<char>,
    nodes: Seq<usize>,
    role: RefRole,
    before: Seq<Reference>,
    after: Seq<Reference>,
    scopes: Seq<crate::graph::Scope>,
)
    requires
        refs_match(t, file, nodes, role, before),
        super::scope::scopes_attached(before, after, scopes),
    ensures
        refs_match(t, file, nodes, role, after),
{
    assert forall|j: int| 0 <= j < after.len() implies ref_at(
        t,
        nodes[j] as int,
        file,
        t.text_of(nodes[j] as int),
        role,
        #[trigger] after[j],
    ) by {
        assert(ref_at(t, nodes[j] as int, file, t.text_of(nodes[j] as int), role, before[j]));
    }
}

/// The symbol standing for a whole file, by value: a `Module` at the
/// namespace path named after its last segment (at the stem of the file
/// when there are no namespaces), spanning the whole source.
pub open spec fn module_symbol_spec(s: Symbol, lang: Language, ns: Seq<Seq<char>>, file: Seq<char>, len: int) -> bool {
    &&& s.kind == SymbolKind::Module
    &&& s.id.lang@ == lang_name(lang)
    &&& s.file@ == file
    &&& s.line == 1
    &&& s.span.start == 0
    &&& s.span.end == len
    &&& ns.len() > 0 ==> s.name@ == ns.last() && descriptors_text(s.id.descriptors@) == namespaces_text(ns)
    &&& ns.len() == 0 ==> s.name@ == file_stem(file) && descriptors_text(s.id.descriptors@) == escaped_name(
        file_stem(file),
    ) + seq!['/']
}

/// A definition: its node, name, kind and SCIP path text (after the scheme).
pub type Def = (int, Seq<char>, SymbolKind, Seq<char>);

/// `syms` are, in order, the symbols of the definitions `defs` of a `lang`
/// file, with signatures cut at `stops`.
pub open spec fn symbols_match(t: SyntaxTree, file: Seq<char>, lang: Language, stops: Seq<char>, defs: Seq<Def>, syms: Seq<Symbol>) -> bool {
    &&& syms.len() == defs.len()
    &&& forall|i: int|
        0 <= i < syms.len() ==> symbol_at(t, defs[i].0, file, lang, defs[i].3, defs[i].1, defs[i].2, stops, #[trigger] syms[i])
}

pub proof fn lemma_symbols_match_add(
    t: SyntaxTree,
    file: Seq<char>,
    lang: Language,
    stops: Seq<char>,
    d1: Seq<Def>,
    s1: Seq<Symbol>,
    d2: Seq<Def>,
    s2: Seq<Symbol>,
)
    requires
        symbols_match(t, file, lang, stops, d1, s1),
        symbols_match(t, file, lang, stops, d2, s2),
    ensures
        symbols_match(t, file, lang, stops, d1 + d2, s1 + s2),
{
    assert forall|i: int| 0 <= i < (s1 + s2).len() implies symbol_at(
        t,
        (d1 + d2)[i].0,
        file,
        lang,
        (d1 + d2)[i].3,
        (d1 + d2)[i].1,
        (d1 + d2)[i].2,
        stops,
        #[trigger] (s1 + s2)[i],
    ) by {
        if i < s1.len() {
            assert(symbol_at(t, d1[i].0, file, lang, d1[i].3, d1[i].1, d1[i].2, stops, s1[i]));
        } else {
            let j = i - s1.len();
            assert(symbol_at(t, d2[j].0, file, lang, d2[j].3, d2[j].1, d2[j].2, stops, s2[j]));
        }
    }
}

/// `new` is `old` followed by the symbols of the definitions `defs`.
pub open spec fn grows_by(
    t: SyntaxTree,
    file: Seq<char>,
    lang: Language,
    stops: Seq<char>,
    old: Seq<Symbol>,
    new: Seq<Symbol>,
    defs: Seq<Def>,
) -> bool {
    &&& new.len() >= old.len()
    &&& new.take(old.len() as int) == old
    &&& symbols_match(t, file, lang, stops, defs, new.skip(old.len() as int))
}

pub proof fn lemma_grows_none(t: SyntaxTree, file: Seq<char>, lang: Language, stops: Seq<char>, s: Seq<Symbol>)
    ensures
        grows_by(t, file, lang, stops, s, s, Seq::empty()),
{
    assert(s.take(s.len() as int) =~= s);
    assert(s.skip(s.len() as int) =~= Seq::<Symbol>::empty());
}

pub proof fn lemma_grows_one(t: SyntaxTree, file: Seq<char>, lang: Language, stops: Seq<char>, old: Seq<Symbol>, new: Seq<Symbol>, d: Def)
    requires
        new == old.push(new.last()),
        symbol_at(t, d.0, file, lang, d.3, d.1, d.2, stops, new.last()),
    ensures
        grows_by(t, file, lang, stops, old, new, seq![d]),
{
    assert(new.take(old.len() as int) =~= old);
    assert(new.skip(old.len() as int) =~= seq![new.last()]);
    assert(symbol_at(t, seq![d][0].0, file, lang, seq![d][0].3, seq![d][0].1, seq![d][0].2, stops, new.skip(old.len() as int)[0]));
}

pub proof fn lemma_grows_trans(
    t: SyntaxTree,
    file: Seq<char>,
    lang: Language,
    stops: Seq<char>,
    a: Seq<Symbol>,
    b: Seq<Symbol>,
    c: Seq<Symbol>,
    d1: Seq<Def>,
    d2: Seq<Def>,
)
    requires
        grows_by(t, file, lang, stops, a, b, d1),
        grows_by(t, file, lang, stops, b, c, d2),
    ensures
        grows_by(t, file, lang, stops, a, c, d1 + d2),
{
    assert(c.take(a.len() as int) =~= a) by {
        assert(c.take(b.len() as int).take(a.len() as int) =~= c.take(a.len() as int));
    }
    assert(c.skip(a.len() as int) =~= b.skip(a.len() as int) + c.skip(b.len() as int)) by {
        assert(c =~= b + c.skip(b.len() as int)) by {
            assert(c.take(b.len() as int) == b);
        }
    }
    lemma_symbols_match_add(t, file, lang, stops, d1, b.skip(a.len() as int), d2, c.skip(b.len() as int));
}

/// `new` is `old` followed by the symbols of `defs`, and stays in the file
/// when `old` does.
pub open spec fn defs_grow(
    t: SyntaxTree,
    file: Seq<char>,
    lang: Language,
    stops: Seq<char>,
    old: Seq<Symbol>,
    new: Seq<Symbol>,
    defs: Seq<Def>,
) -> bool {
    &&& grows_by(t, file, lang, stops, old, new, defs)
    &&& (symbols_ok(old, file, t.bytes.len() as int) ==> symbols_ok(new, file, t.bytes.len() as int))
}

pub proof fn lemma_defs_grow_none(t: SyntaxTree, file: Seq<char>, lang: Language, stops: Seq<char>, s: Seq<Symbol>)
    ensures
        defs_grow(t, file, lang, stops, s, s, Seq::empty()),
{
    lemma_grows_none(t, file, lang, stops, s);
}

pub proof fn lemma_defs_grow_trans(
    t: SyntaxTree,
    file: Seq<char>,
    lang: Language,
    stops: Seq<char>,
    a: Seq<Symbol>,
    b: Seq<Symbol>,
    c: Seq<Symbol>,
    d1: Seq<Def>,
    d2: Seq<Def>,
)
    requires
        defs_grow(t, file, lang, stops, a, b, d1),
        defs_grow(t, file, lang, stops, b, c, d2),
    ensures
        defs_grow(t, file, lang, stops, a, c, d1 + d2),
{
    lemma_grows_trans(t, file, lang, stops, a, b, c, d1, d2);
}

/// The SCIP text of a path of enclosing types: each name, escaped, then `#`.
pub open spec fn types_text(ts: Seq<Seq<char>>) -> Seq<char>
    decreases ts.len(),
{
    if ts.len() == 0 {
        Seq::empty()
    } else {
        types_text(ts.drop_last()) + type_text(ts.last())
    }
}

/// The descriptors of a definition: the namespaces `ns`, the enclosing
/// types `types`, then `leaf`.
pub fn path_descriptors(ns: &Vec<String>, types: &Vec<String>, leaf: Descriptor) -> (r: Vec<Descriptor>)
    ensures
        descriptors_text(r@) == namespaces_text(views(ns@)) + types_text(views(types@)) + descriptor_text(leaf),
{
    let mut d = namespaces_to_descriptors(ns);
    proof {
        lemma_path_text(ns@, Seq::empty());
        assert(namespace_descriptors(ns@) + Seq::<Descriptor>::empty() =~= namespace_descriptors(ns@));
        assert(descriptors_text(Seq::<Descriptor>::empty()) == Seq::<char>::empty());
        assert(views(types@).take(0) =~= Seq::<Seq<char>>::empty());
    }
    let mut i: usize = 0;
    while i < types.len()
        invariant
            i <= types.len(),
            descriptors_text(d@) =~= namespaces_text(views(ns@)) + types_text(views(types@).take(i as int)),
        decreases types.len() - i,
    {
        let ghost before = d@;
        d.push(Descriptor::Type(types[i].clone()));
        proof {
            assert(d@.drop_last() =~= before);
            assert(views(types@).take(i + 1).drop_last() =~= views(types@).take(i as int));
            assert(views(types@).take(i + 1).last() == types@[i as int]@);
        }
        i = i + 1;
    }
    assert(views(types@).take(types.len() as int) =~= views(types@));
    let ghost before = d@;
    d.push(leaf);
    assert(d@.drop_last() =~= before);
    d
}

/// `v` with `s` appended.
pub fn strings_push(v: &Vec<String>, s: &String) -> (r: Vec<String>)
    ensures
        views(r@) == views(v@).push(s@),
{
    let mut out: Vec<String> = Vec::new();
    let mut i: usize = 0;
    while i < v.len()
        invariant
            i <= v.len(),
            views(out@) =~= views(v@).take(i as int),
        decreases v.len() - i,
    {
        let ghost before = out@;
        let c = v[i].clone();
        out.push(c);
        proof {
            assert(views(out@) =~= views(before).push(v@[i as int]@));
            assert(views(v@).take(i + 1) =~= views(v@).take(i as int).push(v@[i as int]@));
        }
        i = i + 1;
    }
    let ghost before = out@;
    out.push(s.clone());
    assert(views(v@).take(v.len() as int) =~= views(v@));
    assert(views(out@) =~= views(before).push(s@));
    out
}

/// Push the symbol of definition node `n`, at the path `ns`, `types`, then
/// `leaf`.
pub fn push_path_def(
    out: &mut Vec<Symbol>,
    t: &SyntaxTree,
    n: usize,
    lang: Language,
    ns: &Vec<String>,
    types: &Vec<String>,
    leaf: Descriptor,
    name: String,
    kind: SymbolKind,
    file: &str,
    stops: &Vec<char>,
)
    requires
        t.wf(),
        n < t.size(),
    ensures
        defs_grow(
            *t,
            file@,
            lang,
            stops@,
            old(out)@,
            final(out)@,
            seq![(n as int, name@, kind, namespaces_text(views(ns@)) + types_text(views(types@)) + descriptor_text(leaf))],
        ),
{
    let ghost nm = name@;
    let descs = path_descriptors(ns, types, leaf);
    let s = make_symbol_at(t, n, lang, descs, name, kind, file, stops.as_slice());
    out.push(s);
    proof {
        assert(out@.drop_last() =~= old(out)@);
        lemma_grows_one(
            *t,
            file@,
            lang,
            stops@,
            old(out)@,
            out@,
            (n as int, nm, kind, namespaces_text(views(ns@)) + types_text(views(types@)) + descriptor_text(leaf)),
        );
    }
}

/// Push the symbol of definition node `n`, at the namespaces `ns` then
/// `leaf`.
pub fn push_ns_def(
    out: &mut Vec<Symbol>,
    t: &SyntaxTree,
    n: usize,
    lang: Language,
    ns: &Vec<String>,
    leaf: Descriptor,
    name: String,
    kind: SymbolKind,
    file: &str,
    stops: &Vec<char>,
)
    requires
        t.wf(),
        n < t.size(),
    ensures
        defs_grow(
            *t,
            file@,
            lang,
            stops@,
            old(out)@,
            final(out)@,
            seq![(n as int, name@, kind, namespaces_text(views(ns@)) + descriptor_text(leaf))],
        ),
{
    let ghost nm = name@;
    let leaves = vec![leaf];
    assert(leaves@ =~= seq![leaf]);
    let descs = descriptors_with(ns, leaves);
    proof {
        lemma_path_text(ns@, seq![leaf]);
        lemma_one_descriptor_text(leaf);
    }
    let s = make_symbol_at(t, n, lang, descs, name, kind, file, stops.as_slice());
    out.push(s);
    proof {
        assert(out@.drop_last() =~= old(out)@);
        lemma_grows_one(*t, file@, lang, stops@, old(out)@, out@, (n as int, nm, kind, namespaces_text(views(ns@)) + descriptor_text(leaf)));
    }
}

/// `v` followed by `w`.
pub fn strings_append(v: &Vec<String>, w: &Vec<String>) -> (r: Vec<String>)
    ensures
        views(r@) == views(v@) + views(w@),
{
    let mut out: Vec<String> = Vec::new();
    let mut i: usize = 0;
    while i < v.len()
        invariant
            i <= v.len(),
            views(out@) =~= views(v@).take(i as int),
        decreases v.len() - i,
    {
        let ghost before = out@;
        let c = v[i].clone();
        out.push(c);
        proof {
            assert(views(out@) =~= views(before).push(v@[i as int]@));
            assert(views(v@).take(i + 1) =~= views(v@).take(i as int).push(v@[i as int]@));
        }
        i = i + 1;
    }
    assert(views(v@).take(v.len() as int) =~= views(v@));
    let mut j: usize = 0;
    while j < w.len()
        invariant
            j <= w.len(),
            views(out@) =~= views(v@) + views(w@).take(j as int),
        decreases w.len() - j,
    {
        let ghost before = out@;
        let c = w[j].clone();
        out.push(c);
        proof {
            assert(views(out@) =~= views(before).push(w@[j as int]@));
            assert(views(w@).take(j + 1) =~= views(w@).take(j as int).push(w@[j as int]@));
        }
        j = j + 1;
    }
    assert(views(w@).take(w.len() as int) =~= views(w@));
    out
}

/// A definition whose span and signature come from different nodes: span
/// node, signature node, name, kind and SCIP path text.
pub type SplitDef = (int, int, Seq<char>, SymbolKind, Seq<char>);

/// `s` is the symbol of split definition `d`.
pub open spec fn split_symbol_at(t: SyntaxTree, file: Seq<char>, lang: Language, stops: Seq<char>, d: SplitDef, s: Symbol) -> bool {
    &&& s.id.lang@ == lang_name(lang)
    &&& descriptors_text(s.id.descriptors@) == d.4
    &&& s.name@ == d.2
    &&& s.kind == d.3
    &&& s.file@ == file
    &&& s.line == line_of(t.nodes@[d.0].row as int)
    &&& s.span == (ByteSpan { start: t.nodes@[d.0].start, end: t.nodes@[d.0].end })
    &&& s.signature@ == signature_of(t.text_of(d.1), stops)
}

/// `syms` are, in order, the symbols of the split definitions `defs`.
pub open spec fn split_symbols_match(t: SyntaxTree, file: Seq<char>, lang: Language, stops: Seq<char>, defs: Seq<SplitDef>, syms: Seq<Symbol>) -> bool {
    &&& syms.len() == defs.len()
    &&& forall|i: int| 0 <= i < syms.len() ==> split_symbol_at(t, file, lang, stops, defs[i], #[trigger] syms[i])
}

/// An import to be referenced: its node, name and the path it comes from.
pub type ImportItem = (int, Seq<char>, Seq<char>);

/// `r` is the import reference `item` makes from module `module`: it comes
/// from its path (none when empty).
pub open spec fn import_ref_at(t: SyntaxTree, file: Seq<char>, module: Seq<char>, item: ImportItem, r: Reference) -> bool {
    &&& r.name@ == item.1
    &&& r.role == RefRole::Import
    &&& occurrence_at(t, item.0, file, r.occ)
    &&& r.source_module matches Some(m) && m@ == module
    &&& (item.2.len() == 0 ==> r.from_path is None)
    &&& (item.2.len() > 0 ==> (r.from_path matches Some(p) && p@ == item.2))
    &&& r.qualifier is None
}

/// `new` is `old` followed by the import references `items` make from
/// module `module`, and stays in the file when `old` does.
pub open spec fn imports_grow(t: SyntaxTree, file: Seq<char>, module: Seq<char>, old: Seq<Reference>, new: Seq<Reference>, items: Seq<ImportItem>) -> bool {
    &&& new.len() >= old.len()
    &&& new.take(old.len() as int) == old
    &&& new.skip(old.len() as int).len() == items.len()
    &&& (forall|j: int|
        0 <= j < items.len() ==> import_ref_at(t, file, module, items[j], #[trigger] new.skip(old.len() as int)[j]))
    &&& (refs_ok(old, file, t.bytes.len() as int) ==> refs_ok(new, file, t.bytes.len() as int))
}

pub proof fn lemma_imports_grow_none(t: SyntaxTree, file: Seq<char>, module: Seq<char>, s: Seq<Reference>)
    ensures
        imports_grow(t, file, module, s, s, Seq::empty()),
{
    assert(s.take(s.len() as int) =~= s);
    assert(s.skip(s.len() as int) =~= Seq::<Reference>::empty());
}

pub proof fn lemma_imports_grow_trans(
    t: SyntaxTree,
    file: Seq<char>,
    module: Seq<char>,
    a: Seq<Reference>,
    b: Seq<Reference>,
    c: Seq<Reference>,
    i1: Seq<ImportItem>,
    i2: Seq<ImportItem>,
)
    requires
        imports_grow(t, file, module, a, b, i1),
        imports_grow(t, file, module, b, c, i2),
    ensures
        imports_grow(t, file, module, a, c, i1 + i2),
{
    assert(c.take(a.len() as int) =~= a) by {
        assert(c.take(b.len() as int).take(a.len() as int) =~= c.take(a.len() as int));
    }
    let s1 = b.skip(a.len() as int);
    let s2 = c.skip(b.len() as int);
    assert(c.skip(a.len() as int) =~= s1 + s2) by {
        assert(c =~= b + c.skip(b.len() as int)) by {
            assert(c.take(b.len() as int) == b);
        }
    }
    assert forall|j: int| 0 <= j < (i1 + i2).len() implies import_ref_at(t, file, module, (i1 + i2)[j], #[trigger] c.skip(
        a.len() as int,
    )[j]) by {
        if j < s1.len() {
            assert(import_ref_at(t, file, module, i1[j], s1[j]));
        } else {
            assert(import_ref_at(t, file, module, i2[j - s1.len()], s2[j - s1.len()]));
        }
    }
}

/// Push the import reference to `name` at node `n`, from module `module_id`
/// and path `from_path`.
pub fn push_import_item(out: &mut Vec<Reference>, name: String, t: &SyntaxTree, n: usize, file: &str, module_id: &str, from_path: String)
    requires
        t.wf(),
        n < t.size(),
    ensures
        imports_grow(*t, file@, module_id@, old(out)@, final(out)@, seq![(n as int, name@, from_path@)]),
{
    let ghost nm = name@;
    let ghost fp = from_path@;
    push_import_ref(out, name, t, n, file, module_id, from_path);
    proof {
        assert(final(out)@.take(old(out)@.len() as int) =~= old(out)@);
        assert(final(out)@.skip(old(out)@.len() as int) =~= seq![final(out)@.last()]);
        let items = seq![(n as int, nm, fp)];
        assert(import_ref_at(*t, file@, module_id@, items[0], final(out)@.skip(old(out)@.len() as int)[0]));
    }
}

/// A reference to be made: its node, name and role.
pub type RefItem = (int, Seq<char>, RefRole);

/// `refs` are, in order, plain references for `items`.
pub open spec fn refs_items(t: SyntaxTree, file: Seq<char>, items: Seq<RefItem>, refs: Seq<Reference>) -> bool {
    &&& refs.len() == items.len()
    &&& forall|j: int| 0 <= j < refs.len() ==> ref_at(t, items[j].0, file, items[j].1, items[j].2, #[trigger] refs[j])
}

/// `new` is `old` followed by plain references for `items`, and stays in
/// the file when `old` does.
pub open spec fn refs_grow(t: SyntaxTree, file: Seq<char>, old: Seq<Reference>, new: Seq<Reference>, items: Seq<RefItem>) -> bool {
    &&& new.len() >= old.len()
    &&& new.take(old.len() as int) == old
    &&& refs_items(t, file, items, new.skip(old.len() as int))
    &&& (refs_ok(old, file, t.bytes.len() as int) ==> refs_ok(new, file, t.bytes.len() as int))
}

pub proof fn lemma_refs_grow_none(t: SyntaxTree, file: Seq<char>, s: Seq<Reference>)
    ensures
        refs_grow(t, file, s, s, Seq::empty()),
{
    assert(s.take(s.len() as int) =~= s);
    assert(s.skip(s.len() as int) =~= Seq::<Reference>::empty());
}

pub proof fn lemma_refs_grow_trans(
    t: SyntaxTree,
    file: Seq<char>,
    a: Seq<Reference>,
    b: Seq<Reference>,
    c: Seq<Reference>,
    i1: Seq<RefItem>,
    i2: Seq<RefItem>,
)
    requires
        refs_grow(t, file, a, b, i1),
        refs_grow(t, file, b, c, i2),
    ensures
        refs_grow(t, file, a, c, i1 + i2),
{
    assert(c.take(a.len() as int) =~= a) by {
        assert(c.take(b.len() as int).take(a.len() as int) =~= c.take(a.len() as int));
    }
    let s1 = b.skip(a.len() as int);
    let s2 = c.skip(b.len() as int);
    assert(c.skip(a.len() as int) =~= s1 + s2) by {
        assert(c =~= b + c.skip(b.len() as int)) by {
            assert(c.take(b.len() as int) == b);
        }
    }
    assert forall|j: int| 0 <= j < (s1 + s2).len() implies ref_at(
        t,
        (i1 + i2)[j].0,
        file,
        (i1 + i2)[j].1,
        (i1 + i2)[j].2,
        #[trigger] (s1 + s2)[j],
    ) by {
        if j < s1.len() {
            assert(ref_at(t, i1[j].0, file, i1[j].1, i1[j].2, s1[j]));
        } else {
            let k = j - s1.len();
            assert(ref_at(t, i2[k].0, file, i2[k].1, i2[k].2, s2[k]));
        }
    }
}

/// Push a plain reference of `role` to `name` at node `n`.
pub fn push_ref_item(out: &mut Vec<Reference>, name: String, t: &SyntaxTree, n: usize, file: &str, role: RefRole)
    requires
        t.wf(),
        n < t.size(),
    ensures
        refs_grow(*t, file@, old(out)@, final(out)@, seq![(n as int, name@, role)]),
{
    let ghost nm = name@;
    push_ref(out, name, t, n, file, role);
    proof {
        assert(final(out)@.take(old(out)@.len() as int) =~= old(out)@);
        assert(final(out)@.skip(old(out)@.len() as int) =~= seq![final(out)@.last()]);
        let items = seq![(n as int, nm, role)];
        assert(ref_at(*t, items[0].0, file@, items[0].1, items[0].2, final(out)@.skip(old(out)@.len() as int)[0]));
    }
}

/// Attaching scopes keeps what `refs_items` states.
pub proof fn lemma_refs_items_attached(
    t: SyntaxTree,
    file: Seq<char>,
    items: Seq<RefItem>,
    before: Seq<Reference>,
    after: Seq<Reference>,
    scopes: Seq<crate::graph::Scope>,
)
    requires
        refs_items(t, file, items, before),
        super::scope::scopes_attached(before, after, scopes),
    ensures
        refs_items(t, file, items, after),
{
    assert forall|j: int| 0 <= j < after.len() implies ref_at(t, items[j].0, file, items[j].1, items[j].2, #[trigger] after[j]) by {
        assert(ref_at(t, items[j].0, file, items[j].1, items[j].2, before[j]));
    }
}

/// `namespaces` then `extra`, as descriptors.
pub fn descriptors_with(namespaces: &Vec<String>, extra: Vec<Descriptor>) -> (r: Vec<Descriptor>)
    ensures
        r@ == namespace_descriptors(namespaces@) + extra@,
{
    let mut d = namespaces_to_descriptors(namespaces);
    let mut e = extra;
    d.append(&mut e);
    d
}

/// A definition spanning node `span_n`, with the head of node `sig_n` up to a
/// newline or one of `stops` as its signature.
pub fn make_symbol_split(t: &SyntaxTree, span_n: usize, sig_n: usize, lang: Language, descs: Vec<Descriptor>, name: String, kind: SymbolKind, file: &str, stops: &[char]) -> (r: Symbol)
    requires
        t.wf(),
        span_n < t.size(),
        sig_n < t.size(),
    ensures
        r.id.lang@ == lang_name(lang),
        r.id.descriptors@ == descs@,
        r.name == name,
        r.kind == kind,
        r.file@ == file@,
        r.line == line_of(t.nodes@[span_n as int].row as int),
        r.span == (ByteSpan { start: t.nodes@[span_n as int].start, end: t.nodes@[span_n as int].end }),
        r.signature@ == signature_of(t.text_of(sig_n as int), stops@),
        r.span.start <= r.span.end <= t.bytes.len(),
{
    let text = t.text(sig_n);
    Symbol {
        id: SymbolId::global(lang.as_str(), descs),
        name,
        kind,
        file: file.to_owned(),
        line: line_from_row(t.nodes[span_n].row),
        span: ByteSpan { start: t.nodes[span_n].start, end: t.nodes[span_n].end },
        signature: one_line_signature(text.as_str(), stops),
    }
}

} // verus!
