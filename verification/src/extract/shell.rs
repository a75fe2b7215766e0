//! Shell (bash): top-level function definitions in every bash style,
//! qualified by the file's path; the command names of commands as call
//! references. No module symbol, scopes or bindings are recorded.

use vstd::prelude::*;
use vstd::utf8::*;
use crate::error::Result;
use crate::graph::{FileFacts, RefRole, Reference, Symbol, SymbolKind};
use crate::lang::Language;
use crate::symbol::Descriptor;
use crate::text::{chars_of, has_prefix, segments, split_nonempty, strings_of, strip_prefix_chars, strip_suffix_chars, strip_suffix_or_self, views};
use super::Extractor;
use super::tree::SyntaxTree;
use super::ts::Grammar;
use super::scope::attach_reference_scopes;
use super::ruby::strip_first_prefix;
use super::support::{
    facts_wf, field_text, descriptors_with, make_symbol_at, push_ref, refs_ok, symbols_ok, symbol_at, ref_at, refs_match,
    namespaces_text, method_text, lemma_path_text, lemma_one_descriptor_text, lemma_refs_match_attached,
};
use crate::symbol::{descriptor_text, descriptors_text};

verus! {

/// Extracts shell symbols and references.
pub struct ShellExtractor;

/// `s` without the first of `suffixes` it ends with.
pub open spec fn strip_first_suffix(s: Seq<char>, suffixes: Seq<Seq<char>>) -> Seq<char>
    decreases suffixes.len(),
{
    if suffixes.len() == 0 {
        s
    } else if strip_suffix_or_self(s, suffixes[0]) != s {
        strip_suffix_or_self(s, suffixes[0])
    } else {
        strip_first_suffix(s, suffixes.skip(1))
    }
}

/// The namespaces of a shell file: the path without `.sh`, `.bash` or `.zsh`
/// and without a leading `src/`, `bin/` or `scripts/` (the first that
/// matches of each), split on `/`.
pub open spec fn shell_namespaces_spec(file: Seq<char>) -> Seq<Seq<char>> {
    let p = strip_first_suffix(file, seq![".sh"@, ".bash"@, ".zsh"@]);
    segments(strip_first_prefix(p, seq!["src/"@, "bin/"@, "scripts/"@]), '/')
}

/// `f` is `p` with one of the shell extensions: stripping the first that
/// matches gives `p`.
proof fn lemma_shell_strip_extension(p: Seq<char>, ext: Seq<char>)
    requires
        ext == ".sh"@ || ext == ".bash"@ || ext == ".zsh"@,
    ensures
        strip_first_suffix(p + ext, seq![".sh"@, ".bash"@, ".zsh"@]) == p,
{
    reveal_strlit(".sh");
    reveal_strlit(".bash");
    reveal_strlit(".zsh");
    let f = p + ext;
    let es = seq![".sh"@, ".bash"@, ".zsh"@];
    assert(es[0] == ".sh"@ && es.skip(1)[0] == ".bash"@ && es.skip(1).skip(1)[0] == ".zsh"@);
    assert(es.skip(1).skip(1).skip(1).len() == 0);
    reveal_with_fuel(strip_first_suffix, 4);
    assert(f.skip(f.len() - ext.len()) =~= ext);
    assert(f.take(f.len() - ext.len()) =~= p);
    if ext != ".sh"@ {
        assert(f[f.len() - 3] != '.');
        assert(f.skip(f.len() - 3)[0] == f[f.len() - 3]);
        assert(strip_suffix_or_self(f, ".sh"@) == f);
    }
    if ext == ".zsh"@ {
        assert(f[f.len() - 4] == '.');
        if f.len() >= 5 {
            assert(f.skip(f.len() - 5)[1] == f[f.len() - 4]);
        }
        assert(strip_suffix_or_self(f, ".bash"@) == f);
    }
}

/// Law: the module path of a shell file `<root><stem><ext>` whose source
/// root is `src/`, `bin/` or `scripts/` and whose extension is `.sh`,
/// `.bash` or `.zsh` is the `/`-separated segments of `stem`: the root and
/// the extension are not part of it.
pub proof fn law_shell_module_path_drops_root_and_extension(root: Seq<char>, stem: Seq<char>, ext: Seq<char>)
    requires
        root == "src/"@ || root == "bin/"@ || root == "scripts/"@,
        ext == ".sh"@ || ext == ".bash"@ || ext == ".zsh"@,
    ensures
        shell_namespaces_spec(root + stem + ext) == segments(stem, '/'),
{
    reveal_strlit("src/");
    reveal_strlit("bin/");
    reveal_strlit("scripts/");
    let p = root + stem;
    lemma_shell_strip_extension(p, ext);
    assert(root + stem + ext == p + ext);
    let ps = seq!["src/"@, "bin/"@, "scripts/"@];
    assert(ps[0] == "src/"@ && ps.skip(1)[0] == "bin/"@ && ps.skip(1).skip(1)[0] == "scripts/"@);
    assert(ps.skip(1).skip(1).skip(1).len() == 0);
    reveal_with_fuel(strip_first_prefix, 4);
    assert(p.take(root.len() as int) =~= root);
    assert(p.skip(root.len() as int) =~= stem);
    assert(p[0] == root[0] && p[1] == root[1]);
    if root != "src/"@ {
        assert(p.take(4)[0] == p[0] && p.take(4)[1] == p[1]);
        assert(!has_prefix(p, "src/"@));
    }
    if root == "scripts/"@ {
        assert(p.take(4)[0] == p[0]);
        assert(!has_prefix(p, "bin/"@));
    }
    assert(strip_first_prefix(p, ps) == stem);
}

/// Law: the module path of a shell file `<stem><ext>` whose path does not
/// start with a source root (`src/`, `bin/`, `scripts/`) and whose
/// extension is `.sh`, `.bash` or `.zsh` is the `/`-separated segments of
/// `stem`.
pub proof fn law_shell_module_path_without_root(stem: Seq<char>, ext: Seq<char>)
    requires
        ext == ".sh"@ || ext == ".bash"@ || ext == ".zsh"@,
        !has_prefix(stem, "src/"@),
        !has_prefix(stem, "bin/"@),
        !has_prefix(stem, "scripts/"@),
    ensures
        shell_namespaces_spec(stem + ext) == segments(stem, '/'),
{
    lemma_shell_strip_extension(stem, ext);
    let ps = seq!["src/"@, "bin/"@, "scripts/"@];
    assert(ps[0] == "src/"@ && ps.skip(1)[0] == "bin/"@ && ps.skip(1).skip(1)[0] == "scripts/"@);
    assert(ps.skip(1).skip(1).skip(1).len() == 0);
    reveal_with_fuel(strip_first_prefix, 4);
    assert(strip_first_prefix(stem, ps) == stem);
}

/// The namespaces of a shell file.
pub fn shell_namespaces(file: &str) -> (r: Vec<String>)
    ensures
        views(r@) == shell_namespaces_spec(file@),
{
    let cs = chars_of(file);
    let s1 = strip_suffix_chars(&cs, ".sh");
    let p = if s1.len() != cs.len() {
        s1
    } else {
        let s2 = strip_suffix_chars(&cs, ".bash");
        if s2.len() != cs.len() {
            s2
        } else {
            strip_suffix_chars(&cs, ".zsh")
        }
    };
    let a = strip_prefix_chars(&p, "src/");
    let b = if a.len() != p.len() {
        a
    } else {
        let a2 = strip_prefix_chars(&p, "bin/");
        if a2.len() != p.len() {
            a2
        } else {
            strip_prefix_chars(&p, "scripts/")
        }
    };
    proof {
        reveal_strlit(".sh");
        reveal_strlit(".bash");
        reveal_strlit(".zsh");
        reveal_strlit("src/");
        reveal_strlit("bin/");
        reveal_strlit("scripts/");
        let ss = seq![".sh"@, ".bash"@, ".zsh"@];
        assert(ss[0] == ".sh"@ && ss.skip(1)[0] == ".bash"@ && ss.skip(1).skip(1)[0] == ".zsh"@);
        assert(ss.skip(1).skip(1).skip(1).len() == 0);
        reveal_with_fuel(strip_first_suffix, 4);
        assert(p@ == strip_first_suffix(cs@, ss));
        let ps = seq!["src/"@, "bin/"@, "scripts/"@];
        assert(ps[0] == "src/"@ && ps.skip(1)[0] == "bin/"@ && ps.skip(1).skip(1)[0] == "scripts/"@);
        assert(ps.skip(1).skip(1).skip(1).len() == 0);
        reveal_with_fuel(strip_first_prefix, 4);
        assert(b@ == strip_first_prefix(p@, ps));
    }
    let parts = split_nonempty(&b, '/');
    strings_of(&parts)
}

/// A child of the root that defines a function: a `function_definition`
/// with a `name`.
pub open spec fn shell_def(t: SyntaxTree, c: usize) -> bool {
    t.kind_of(c as int) == "function_definition"@ && t.field_child_of(c as int, "name"@) is Some
}

/// The function definitions among `cs`, in order.
pub open spec fn shell_defs_in(t: SyntaxTree, cs: Seq<usize>) -> Seq<usize>
    decreases cs.len(),
{
    if cs.len() == 0 {
        Seq::empty()
    } else {
        shell_defs_in(t, cs.drop_last()) + if shell_def(t, cs.last()) {
            seq![cs.last()]
        } else {
            Seq::empty()
        }
    }
}

/// The name function definition `c` gives.
pub open spec fn shell_def_name(t: SyntaxTree, c: usize) -> Seq<char> {
    t.text_of(t.field_child_of(c as int, "name"@)->0 as int)
}

/// `s` is the symbol of function definition `c`: a `Function` at the file's
/// namespaces, then `name().`.
pub open spec fn shell_symbol(t: SyntaxTree, file: Seq<char>, c: usize, s: Symbol) -> bool {
    symbol_at(
        t,
        c as int,
        file,
        Language::Shell,
        namespaces_text(shell_namespaces_spec(file)) + method_text(shell_def_name(t, c)),
        shell_def_name(t, c),
        SymbolKind::Function,
        seq!['{'],
        s,
    )
}

/// Every function definition among `cs` is among the definitions of `cs`.
proof fn lemma_shell_defs_in_has(t: SyntaxTree, cs: Seq<usize>, k: int)
    requires
        0 <= k < cs.len(),
        shell_def(t, cs[k]),
    ensures
        shell_defs_in(t, cs).contains(cs[k]),
    decreases cs.len(),
{
    let prev = shell_defs_in(t, cs.drop_last());
    if k < cs.len() - 1 {
        assert(cs.drop_last()[k] == cs[k]);
        lemma_shell_defs_in_has(t, cs.drop_last(), k);
        let j = choose|j: int| 0 <= j < prev.len() && prev[j] == cs[k];
        assert(shell_defs_in(t, cs)[j] == cs[k]);
    } else {
        assert(shell_defs_in(t, cs)[prev.len() as int] == cs[k]);
    }
}

/// Law: every named function defined at the top of a shell script is a
/// `Function` symbol of the file, named by the function, whose SCIP path is
/// the file's module path (each segment, then `/`) followed by the name and
/// `().`.
pub proof fn law_shell_function_symbol(t: SyntaxTree, source: Seq<char>, file: Seq<char>, f: FileFacts, k: int, nm: usize)
    requires
        shell_facts_of(t, source, file, f),
        0 <= k < t.children_of(0).len(),
        t.kind_of(t.children_of(0)[k] as int) == "function_definition"@,
        t.field_child_of(t.children_of(0)[k] as int, "name"@) == Some(nm),
    ensures
        exists|j: int|
            0 <= j < f.symbols.len() && (#[trigger] f.symbols@[j]).kind == SymbolKind::Function && f.symbols@[j].name@
                == t.text_of(nm as int) && descriptors_text(f.symbols@[j].id.descriptors@) == namespaces_text(
                shell_namespaces_spec(file),
            ) + method_text(t.text_of(nm as int)),
{
    let cs = t.children_of(0);
    lemma_shell_defs_in_has(t, cs, k);
    let defs = shell_defs_in(t, cs);
    let j = choose|j: int| 0 <= j < defs.len() && defs[j] == cs[k];
    assert(shell_symbol(t, file, defs[j], f.symbols@[j]));
}

/// The named `word`s among `cs`, in order.
pub open spec fn shell_words_in(t: SyntaxTree, cs: Seq<usize>) -> Seq<usize>
    decreases cs.len(),
{
    if cs.len() == 0 {
        Seq::empty()
    } else {
        shell_words_in(t, cs.drop_last()) + if t.nodes@[cs.last() as int].named && t.kind_of(cs.last() as int)
            == "word"@ {
            seq![cs.last()]
        } else {
            Seq::empty()
        }
    }
}

/// The call words of node `i`: for a `command` whose `name` child is a
/// `command_name`, that child's named `word` children.
pub open spec fn shell_call_words(t: SyntaxTree, i: int) -> Seq<usize> {
    if t.kind_of(i) == "command"@ {
        match t.field_child_of(i, "name"@) {
            Some(cn) => if t.kind_of(cn as int) == "command_name"@ {
                shell_words_in(t, t.children_of(cn as int))
            } else {
                Seq::empty()
            },
            None => Seq::empty(),
        }
    } else {
        Seq::empty()
    }
}

/// The call words of nodes `0..n`, in pre-order.
pub open spec fn shell_calls_upto(t: SyntaxTree, n: int) -> Seq<usize>
    decreases n,
{
    if n <= 0 {
        Seq::empty()
    } else {
        shell_calls_upto(t, n - 1) + shell_call_words(t, n - 1)
    }
}

/// The top-level function definitions of a shell file.
fn collect_symbols(t: &SyntaxTree, file: &str, ns: &Vec<String>) -> (r: Vec<Symbol>)
    requires
        t.wf(),
        views(ns@) == shell_namespaces_spec(file@),
    ensures
        symbols_ok(r@, file@, t.bytes.len() as int),
        r.len() == shell_defs_in(*t, t.children_of(0)).len(),
        forall|i: int|
            0 <= i < r.len() ==> shell_symbol(*t, file@, shell_defs_in(*t, t.children_of(0))[i], #[trigger] r@[i]),
{
    let mut out: Vec<Symbol> = Vec::new();
    let ch = t.children(0);
    let mut k: usize = 0;
    assert(ch@.take(0) =~= Seq::<usize>::empty());
    while k < ch.len()
        invariant
            t.wf(),
            views(ns@) == shell_namespaces_spec(file@),
            ch@ == t.children_of(0),
            k <= ch.len(),
            forall|j: int| 0 <= j < ch.len() ==> 0 < #[trigger] ch@[j] < t.size(),
            symbols_ok(out@, file@, t.bytes.len() as int),
            out.len() == shell_defs_in(*t, ch@.take(k as int)).len(),
            forall|i: int|
                0 <= i < out.len() ==> shell_symbol(*t, file@, shell_defs_in(*t, ch@.take(k as int))[i], #[trigger] out@[i]),
        decreases ch.len() - k,
    {
        let c = ch[k];
        let ghost before = shell_defs_in(*t, ch@.take(k as int));
        assert(ch@.take(k + 1).drop_last() =~= ch@.take(k as int));
        assert(ch@.take(k + 1).last() == c);
        if t.is_kind(c, "function_definition") {
            match field_text(t, c, "name") {
                Some(name) => {
                    let leaf = Descriptor::Method { name: name.clone(), disambiguator: String::new() };
                    let leaves = vec![leaf];
                    assert(leaves@ =~= seq![leaf]);
                    let descs = descriptors_with(ns, leaves);
                    let stops = vec!['{'];
                    assert(stops@ =~= seq!['{']);
                    let s = make_symbol_at(t, c, Language::Shell, descs, name, SymbolKind::Function, file, stops.as_slice());
                    proof {
                        lemma_path_text(ns@, seq![leaf]);
                        lemma_one_descriptor_text(leaf);
                        assert(descriptor_text(leaf) =~= method_text(shell_def_name(*t, c)));
                        assert(shell_def(*t, c));
                        assert(shell_defs_in(*t, ch@.take(k + 1)) == before.push(c));
                        assert(s.name@ == shell_def_name(*t, c));
                        assert(descriptors_text(s.id.descriptors@) == namespaces_text(shell_namespaces_spec(file@))
                            + method_text(shell_def_name(*t, c)));
                        assert(s.signature@ == crate::text::signature_of(t.text_of(c as int), seq!['{']));
                        assert(shell_symbol(*t, file@, c, s));
                    }
                    out.push(s);
                    proof {
                        assert forall|i: int|
                            0 <= i < out.len() implies shell_symbol(
                            *t,
                            file@,
                            shell_defs_in(*t, ch@.take(k + 1))[i],
                            #[trigger] out@[i],
                        ) by {
                            if i < out.len() - 1 {
                                assert(shell_defs_in(*t, ch@.take(k + 1))[i] == before[i]);
                            }
                        }
                    }
                },
                None => {
                    assert(!shell_def(*t, c));
                    assert(shell_defs_in(*t, ch@.take(k + 1)) =~= before);
                },
            }
        } else {
            assert(!shell_def(*t, c));
            assert(shell_defs_in(*t, ch@.take(k + 1)) =~= before);
        }
        k = k + 1;
    }
    assert(ch@.take(ch.len() as int) =~= ch@);
    out
}

/// Call references: each word of the command name of every command.
fn collect_calls(t: &SyntaxTree, file: &str) -> (r: Vec<Reference>)
    requires
        t.wf(),
    ensures
        refs_ok(r@, file@, t.bytes.len() as int),
        refs_match(*t, file@, shell_calls_upto(*t, t.size()), RefRole::Call, r@),
{
    let mut out: Vec<Reference> = Vec::new();
    let mut i: usize = 0;
    while i < t.nodes.len()
        invariant
            t.wf(),
            i <= t.nodes.len(),
            refs_ok(out@, file@, t.bytes.len() as int),
            refs_match(*t, file@, shell_calls_upto(*t, i as int), RefRole::Call, out@),
        decreases t.nodes.len() - i,
    {
        let ghost upto = shell_calls_upto(*t, i as int);
        if t.is_kind(i, "command") {
            match t.field_child(i, "name") {
                Some(cn) => {
                    if t.is_kind(cn, "command_name") {
                        let ws = t.children(cn);
                        let mut k: usize = 0;
                        assert(ws@.take(0) =~= Seq::<usize>::empty());
                        assert(upto + shell_words_in(*t, ws@.take(0)) =~= upto);
                        while k < ws.len()
                            invariant
                                t.wf(),
                                k <= ws.len(),
                                ws@ == t.children_of(cn as int),
                                forall|j: int| 0 <= j < ws.len() ==> #[trigger] ws@[j] < t.size(),
                                refs_ok(out@, file@, t.bytes.len() as int),
                                refs_match(
                                    *t,
                                    file@,
                                    upto + shell_words_in(*t, ws@.take(k as int)),
                                    RefRole::Call,
                                    out@,
                                ),
                            decreases ws.len() - k,
                        {
                            let w = ws[k];
                            let ghost done = upto + shell_words_in(*t, ws@.take(k as int));
                            assert(ws@.take(k + 1).drop_last() =~= ws@.take(k as int));
                            assert(ws@.take(k + 1).last() == w);
                            if t.nodes[w].named && t.is_kind(w, "word") {
                                let ghost old_out = out@;
                                push_ref(&mut out, t.text(w), t, w, file, RefRole::Call);
                                proof {
                                    let now = upto + shell_words_in(*t, ws@.take(k + 1));
                                    assert(now =~= done.push(w));
                                    assert forall|j: int| 0 <= j < out.len() implies ref_at(
                                        *t,
                                        now[j] as int,
                                        file@,
                                        t.text_of(now[j] as int),
                                        RefRole::Call,
                                        #[trigger] out@[j],
                                    ) by {
                                        if j < old_out.len() {
                                            assert(out@[j] == old_out[j]);
                                        }
                                    }
                                }
                            } else {
                                assert(upto + shell_words_in(*t, ws@.take(k + 1)) =~= done);
                            }
                            k = k + 1;
                        }
                        assert(ws@.take(ws.len() as int) =~= ws@);
                        assert(shell_call_words(*t, i as int) == shell_words_in(*t, ws@));
                    } else {
                        assert(shell_call_words(*t, i as int) =~= Seq::<usize>::empty());
                    }
                },
                None => {
                    assert(shell_call_words(*t, i as int) =~= Seq::<usize>::empty());
                },
            }
        } else {
            assert(shell_call_words(*t, i as int) =~= Seq::<usize>::empty());
        }
        assert(shell_calls_upto(*t, i + 1) == upto + shell_call_words(*t, i as int));
        assert(upto + Seq::<usize>::empty() =~= upto);
        i = i + 1;
    }
    out
}

/// What `shell_facts` states of the facts `r` it builds from tree `t` of
/// `source`, the text of `file`.
pub open spec fn shell_facts_of(t: SyntaxTree, source: Seq<char>, file: Seq<char>, r: FileFacts) -> bool {
    &&& r.scopes@.len() == 0
    &&& r.bindings@.len() == 0
    &&& r.ffi_exports@.len() == 0
    &&& r.symbols.len() == shell_defs_in(t, t.children_of(0)).len()
    &&& forall|i: int|
        0 <= i < r.symbols.len() ==> shell_symbol(
            t,
            file,
            shell_defs_in(t, t.children_of(0))[i],
            #[trigger] r.symbols@[i],
        )
    &&& refs_match(t, file, shell_calls_upto(t, t.size()), RefRole::Call, r.references@)
}

/// The facts of a shell file from its syntax tree: the top-level function
/// definitions, in order, and the command-name words of every command, in
/// pre-order, as calls.
pub fn shell_facts(t: &SyntaxTree, source: &str, file: &str) -> (r: FileFacts)
    requires
        t.wf(),
        t.bytes@ == encode_utf8(source@),
    ensures
        facts_wf(r, file@, source@, Language::Shell),
        shell_facts_of(*t, source@, file@, r),
{
    let ns = shell_namespaces(file);
    let symbols = collect_symbols(t, file, &ns);
    let refs = collect_calls(t, file);
    let scopes: Vec<crate::graph::Scope> = Vec::new();
    let ghost before = refs@;
    let refs = attach_reference_scopes(refs, &scopes);
    proof {
        lemma_refs_match_attached(*t, file@, shell_calls_upto(*t, t.size()), RefRole::Call, before, refs@, scopes@);
    }
    FileFacts {
        file: file.to_owned(),
        lang: Language::Shell.as_str().to_owned(),
        symbols,
        references: refs,
        scopes,
        bindings: Vec::new(),
        ffi_exports: Vec::new(),
    }
}

impl Extractor for ShellExtractor {
    open spec fn spec_lang(&self) -> Language {
        Language::Shell
    }

    fn lang(&self) -> (r: Language) {
        Language::Shell
    }

    fn extract(&self, source: &str, file: &str) -> (r: Result<FileFacts>)
        ensures
            r is Ok <==> super::parses(Grammar::Bash, source@),
            r matches Ok(f) ==> super::extracted(Language::Shell, source@, file@, f),
    {
        let t = super::parse_tree(Grammar::Bash, source, file)?;
        let res: Result<FileFacts> = Ok(shell_facts(&t, source, file));
        assert(super::parsed_by(t, Grammar::Bash, source@) && shell_facts_of(t, source@, file@, res->Ok_0));
        res
    }
}

/// A named `word` among `cs` is among the words `shell_words_in` picks.
proof fn lemma_shell_words_has(t: SyntaxTree, cs: Seq<usize>, w: usize)
    requires
        cs.contains(w),
        t.nodes@[w as int].named,
        t.kind_of(w as int) == "word"@,
    ensures
        shell_words_in(t, cs).contains(w),
    decreases cs.len(),
{
    let prev = shell_words_in(t, cs.drop_last());
    if cs.last() == w {
        assert(shell_words_in(t, cs)[prev.len() as int] == w);
    } else {
        let k = choose|k: int| 0 <= k < cs.len() && cs[k] == w;
        assert(cs.drop_last()[k] == w);
        lemma_shell_words_has(t, cs.drop_last(), w);
        let j = choose|j: int| 0 <= j < prev.len() && prev[j] == w;
        assert(shell_words_in(t, cs)[j] == w);
    }
}

/// A call word of a node before `n` is among the call words of nodes
/// `0..n`.
proof fn lemma_shell_calls_upto_has(t: SyntaxTree, i: int, n: int, w: usize)
    requires
        0 <= i < n,
        shell_call_words(t, i).contains(w),
    ensures
        shell_calls_upto(t, n).contains(w),
    decreases n,
{
    let prev = shell_calls_upto(t, n - 1);
    if i < n - 1 {
        lemma_shell_calls_upto_has(t, i, n - 1, w);
        let k = choose|k: int| 0 <= k < prev.len() && prev[k] == w;
        assert(shell_calls_upto(t, n)[k] == w);
    } else {
        let k = choose|k: int| 0 <= k < shell_call_words(t, i).len() && shell_call_words(t, i)[k] == w;
        assert(shell_calls_upto(t, n)[prev.len() + k] == w);
    }
}

/// Law: every named `word` in the `command_name` of a command is a `Call`
/// reference of the file, named by the word and occurring where it starts.
pub proof fn law_shell_commands_are_referenced(
    t: SyntaxTree,
    source: Seq<char>,
    file: Seq<char>,
    r: FileFacts,
    i: int,
    cn: usize,
    w: usize,
)
    requires
        shell_facts_of(t, source, file, r),
        0 <= i < t.size(),
        t.kind_of(i) == "command"@,
        t.field_child_of(i, "name"@) == Some(cn),
        t.kind_of(cn as int) == "command_name"@,
        t.children_of(cn as int).contains(w),
        t.nodes@[w as int].named,
        t.kind_of(w as int) == "word"@,
    ensures
        exists|j: int|
            0 <= j < r.references.len() && (#[trigger] r.references@[j]).role == RefRole::Call
                && r.references@[j].name@ == t.text_of(w as int) && r.references@[j].occ.byte
                == t.nodes@[w as int].start,
{
    lemma_shell_words_has(t, t.children_of(cn as int), w);
    assert(shell_call_words(t, i) == shell_words_in(t, t.children_of(cn as int)));
    lemma_shell_calls_upto_has(t, i, t.size(), w);
    let calls = shell_calls_upto(t, t.size());
    let k = choose|k: int| 0 <= k < calls.len() && calls[k] == w;
    assert(ref_at(t, calls[k] as int, file, t.text_of(calls[k] as int), RefRole::Call, r.references@[k]));
}

} // verus!
