//! PowerShell: the walk over a syntax tree that classifies the three import
//! forms, all of them generic `command` nodes, into `Import` references:
//! `Import-Module Name`, `using module Name` and dot-sourcing
//! (`. .\lib\helpers.ps1`). The tree comes from a PowerShell grammar; the
//! walk itself only reads it.

use vstd::prelude::*;
use crate::graph::{Reference, RefRole};
use crate::text::chars_of;
use super::tree::SyntaxTree;
use super::support::{ImportItem, import_ref_at, imports_grow, lemma_imports_grow_none, lemma_imports_grow_trans, push_import_item};

verus! {

/// Characters equal up to ASCII case.
pub open spec fn ascii_ci_eq_char(x: char, y: char) -> bool {
    ||| x == y
    ||| ('A' <= x <= 'Z' && 'a' <= y <= 'z' && y as int == x as int + 32)
    ||| ('a' <= x <= 'z' && 'A' <= y <= 'Z' && x as int == y as int + 32)
}

/// Texts equal up to ASCII case (`str::eq_ignore_ascii_case`).
pub open spec fn ascii_ci_eq(a: Seq<char>, b: Seq<char>) -> bool {
    a.len() == b.len() && forall|i: int| 0 <= i < a.len() ==> ascii_ci_eq_char(#[trigger] a[i], b[i])
}

/// Law: comparing up to ASCII case is reflexive and symmetric, sees an
/// ASCII letter and its other case as equal, and sees two different
/// characters that are not the two cases of one ASCII letter as different.
pub proof fn law_ascii_case_is_ignored(a: Seq<char>, b: Seq<char>, x: char, y: char)
    ensures
        ascii_ci_eq(a, a),
        ascii_ci_eq(a, b) == ascii_ci_eq(b, a),
        ('a' <= x <= 'z' && y as int == x as int - 32) ==> ascii_ci_eq(seq![x], seq![y]) && ascii_ci_eq(seq![y], seq![x]),
        (x != y && !('a' <= x <= 'z' && y as int == x as int - 32) && !('a' <= y <= 'z' && x as int == y as int - 32))
            ==> !ascii_ci_eq(seq![x], seq![y]),
{
    if ascii_ci_eq(a, b) {
        assert forall|i: int| 0 <= i < b.len() implies ascii_ci_eq_char(#[trigger] b[i], a[i]) by {
            assert(ascii_ci_eq_char(a[i], b[i]));
        }
    }
    if ascii_ci_eq(b, a) {
        assert forall|i: int| 0 <= i < a.len() implies ascii_ci_eq_char(#[trigger] a[i], b[i]) by {
            assert(ascii_ci_eq_char(b[i], a[i]));
        }
    }
    if ascii_ci_eq(seq![x], seq![y]) {
        assert(ascii_ci_eq_char(seq![x][0], seq![y][0]));
    }
    if 'a' <= x <= 'z' && y as int == x as int - 32 {
        assert(ascii_ci_eq_char(seq![x][0], seq![y][0]));
        assert(ascii_ci_eq_char(seq![y][0], seq![x][0]));
    }
}

/// Whether `a` equals `b` up to ASCII case.
pub fn eq_ignore_ascii_case(a: &str, b: &str) -> (r: bool)
    ensures
        r == ascii_ci_eq(a@, b@),
{
    let ca = chars_of(a);
    let cb = chars_of(b);
    if ca.len() != cb.len() {
        return false;
    }
    let mut i: usize = 0;
    while i < ca.len()
        invariant
            i <= ca.len(),
            ca.len() == cb.len(),
            ca@ == a@,
            cb@ == b@,
            forall|j: int| 0 <= j < i ==> ascii_ci_eq_char(#[trigger] ca@[j], cb@[j]),
        decreases ca.len() - i,
    {
        let x = ca[i];
        let y = cb[i];
        let same = x == y || ('A' <= x && x <= 'Z' && 'a' <= y && y <= 'z' && (y as u8) - (x as u8) == 32) || ('a'
            <= x && x <= 'z' && 'A' <= y && y <= 'Z' && (x as u8) - (y as u8) == 32);
        if !same {
            assert(!ascii_ci_eq_char(ca@[i as int], cb@[i as int]));
            return false;
        }
        i = i + 1;
    }
    true
}

/// Every module import of a node before `n` is among those of nodes `0..n`.
proof fn lemma_ps_modules_upto_has(t: SyntaxTree, i: int, n: int, item: ImportItem)
    requires
        0 <= i < n,
        ps_module_import_at(t, i) == seq![item],
    ensures
        ps_modules_upto(t, n).contains(item),
    decreases n,
{
    if i < n - 1 {
        lemma_ps_modules_upto_has(t, i, n - 1, item);
        let prev = ps_modules_upto(t, n - 1);
        let k = choose|k: int| 0 <= k < prev.len() && prev[k] == item;
        assert(ps_modules_upto(t, n)[k] == item);
    } else {
        let prev = ps_modules_upto(t, n - 1);
        assert(ps_modules_upto(t, n)[prev.len() as int] == item);
    }
}

/// Every dot-sourced path of a node before `n` is among those of nodes
/// `0..n`.
proof fn lemma_ps_dots_upto_has(t: SyntaxTree, i: int, n: int, item: ImportItem)
    requires
        0 <= i < n,
        ps_dot_import_at(t, i).contains(item),
    ensures
        ps_dots_upto(t, n).contains(item),
    decreases n,
{
    if i < n - 1 {
        lemma_ps_dots_upto_has(t, i, n - 1, item);
        let prev = ps_dots_upto(t, n - 1);
        let k = choose|k: int| 0 <= k < prev.len() && prev[k] == item;
        assert(ps_dots_upto(t, n)[k] == item);
    } else {
        let prev = ps_dots_upto(t, n - 1);
        let here = ps_dot_import_at(t, i);
        let k = choose|k: int| 0 <= k < here.len() && here[k] == item;
        assert(ps_dots_upto(t, n)[prev.len() + k] == item);
    }
}

/// The `command_name` nodes among `cs` each give an import item.
proof fn lemma_ps_names_in_has(t: SyntaxTree, cs: Seq<usize>, k: int)
    requires
        0 <= k < cs.len(),
        t.kind_of(cs[k] as int) == "command_name"@,
    ensures
        ps_names_in(t, cs).contains(ps_arg_item(t, cs[k])),
    decreases cs.len(),
{
    let c = cs.last();
    if k < cs.len() - 1 {
        lemma_ps_names_in_has(t, cs.drop_last(), k);
        let prev = ps_names_in(t, cs.drop_last());
        let j = choose|j: int| 0 <= j < prev.len() && prev[j] == ps_arg_item(t, cs[k]);
        assert(ps_names_in(t, cs)[j] == ps_arg_item(t, cs[k]));
    } else {
        let prev = ps_names_in(t, cs.drop_last());
        assert(ps_names_in(t, cs)[prev.len() as int] == ps_arg_item(t, cs[k]));
    }
}

/// An import item of the file is an `Import` reference of `r`.
proof fn lemma_ps_item_referenced(t: SyntaxTree, file: Seq<char>, module_id: Seq<char>, r: Seq<Reference>, item: ImportItem)
    requires
        imports_grow(t, file, module_id, Seq::empty(), r, powershell_imports_spec(t)),
        powershell_imports_spec(t).contains(item),
    ensures
        exists|j: int| 0 <= j < r.len() && import_ref_at(t, file, module_id, item, #[trigger] r[j]),
{
    let items = powershell_imports_spec(t);
    let k = choose|k: int| 0 <= k < items.len() && items[k] == item;
    assert(r.skip(0) =~= r);
    assert(import_ref_at(t, file, module_id, items[k], r.skip(0)[k]));
}

/// Law: a command named `Import-Module`, in any ASCII case, imports the
/// module its first argument names: `r` holds an `Import` reference named
/// by that argument's text, at that argument, from module `module_id`.
pub proof fn law_import_module_is_an_import(t: SyntaxTree, file: Seq<char>, module_id: Seq<char>, r: Seq<Reference>, i: int, c: usize, a: usize)
    requires
        imports_grow(t, file, module_id, Seq::empty(), r, powershell_imports_spec(t)),
        0 <= i < t.size(),
        t.kind_of(i) == "command"@,
        ps_command_name(t, i) == Some(c),
        ascii_ci_eq(t.text_of(c as int), "Import-Module"@),
        ps_command_args(t, i).len() > 0,
        ps_command_args(t, i)[0] == a,
    ensures
        exists|j: int|
            0 <= j < r.len() && (#[trigger] r[j]).role == RefRole::Import && r[j].name@ == t.text_of(a as int)
                && r[j].occ.byte == t.nodes@[a as int].start && r[j].source_module is Some && r[j].source_module->0@ == module_id,
{
    let item = ps_arg_item(t, a);
    assert(ps_module_import_at(t, i) == seq![item]);
    lemma_ps_modules_upto_has(t, i, t.size(), item);
    let mods = ps_modules_upto(t, t.size());
    let k = choose|k: int| 0 <= k < mods.len() && mods[k] == item;
    assert((mods + ps_dots_upto(t, t.size()))[k] == item);
    lemma_ps_item_referenced(t, file, module_id, r, item);
}

/// Law: `using module Name`, with `using` and `module` in any ASCII case,
/// imports `Name`: `r` holds an `Import` reference named by the second
/// argument's text, at that argument, from module `module_id`.
pub proof fn law_using_module_is_an_import(t: SyntaxTree, file: Seq<char>, module_id: Seq<char>, r: Seq<Reference>, i: int, c: usize, a: usize)
    requires
        imports_grow(t, file, module_id, Seq::empty(), r, powershell_imports_spec(t)),
        0 <= i < t.size(),
        t.kind_of(i) == "command"@,
        ps_command_name(t, i) == Some(c),
        ascii_ci_eq(t.text_of(c as int), "using"@),
        ps_command_args(t, i).len() >= 2,
        ascii_ci_eq(t.text_of(ps_command_args(t, i)[0] as int), "module"@),
        ps_command_args(t, i)[1] == a,
    ensures
        exists|j: int|
            0 <= j < r.len() && (#[trigger] r[j]).role == RefRole::Import && r[j].name@ == t.text_of(a as int)
                && r[j].occ.byte == t.nodes@[a as int].start && r[j].source_module is Some && r[j].source_module->0@ == module_id,
{
    let item = ps_arg_item(t, a);
    reveal_strlit("Import-Module");
    reveal_strlit("using");
    assert(!ascii_ci_eq(t.text_of(c as int), "Import-Module"@)) by {
        assert("Import-Module"@.len() != "using"@.len());
    }
    assert(ps_module_import_at(t, i) == seq![item]);
    lemma_ps_modules_upto_has(t, i, t.size(), item);
    let mods = ps_modules_upto(t, t.size());
    let k = choose|k: int| 0 <= k < mods.len() && mods[k] == item;
    assert((mods + ps_dots_upto(t, t.size()))[k] == item);
    lemma_ps_item_referenced(t, file, module_id, r, item);
}

/// Law: a dot-sourced script (`. path`) is imported: for a command with an
/// invocation operator whose name is a `command_name_expr`, each
/// `command_name` inside it gives an `Import` reference named by its text,
/// at it, from module `module_id`.
pub proof fn law_dot_sourcing_is_an_import(t: SyntaxTree, file: Seq<char>, module_id: Seq<char>, r: Seq<Reference>, i: int, e: usize, k: int)
    requires
        imports_grow(t, file, module_id, Seq::empty(), r, powershell_imports_spec(t)),
        0 <= i < t.size(),
        t.kind_of(i) == "command"@,
        t.kind_child_of(i, "command_invokation_operator"@) is Some,
        t.field_child_of(i, "command_name"@) == Some(e),
        t.kind_of(e as int) == "command_name_expr"@,
        0 <= k < t.children_of(e as int).len(),
        t.kind_of(t.children_of(e as int)[k] as int) == "command_name"@,
    ensures
        exists|j: int|
            0 <= j < r.len() && (#[trigger] r[j]).role == RefRole::Import && r[j].name@ == t.text_of(
                t.children_of(e as int)[k] as int,
            ) && r[j].occ.byte == t.nodes@[t.children_of(e as int)[k] as int].start && r[j].source_module is Some
                && r[j].source_module->0@ == module_id,
{
    let cs = t.children_of(e as int);
    let item = ps_arg_item(t, cs[k]);
    lemma_ps_names_in_has(t, cs, k);
    assert(ps_dot_import_at(t, i) == ps_names_in(t, cs));
    lemma_ps_dots_upto_has(t, i, t.size(), item);
    let mods = ps_modules_upto(t, t.size());
    let dots = ps_dots_upto(t, t.size());
    let q = choose|q: int| 0 <= q < dots.len() && dots[q] == item;
    assert((mods + dots)[mods.len() + q] == item);
    lemma_ps_item_referenced(t, file, module_id, r, item);
}

/// The `generic_token` nodes among `cs`.
pub open spec fn ps_tokens_in(t: SyntaxTree, cs: Seq<usize>) -> Seq<usize>
    decreases cs.len(),
{
    if cs.len() == 0 {
        Seq::empty()
    } else {
        let c = cs.last();
        ps_tokens_in(t, cs.drop_last()) + if t.kind_of(c as int) == "generic_token"@ {
            seq![c]
        } else {
            Seq::empty()
        }
    }
}

/// The `command_name` node under the `command_name` field of command `i`.
pub open spec fn ps_command_name(t: SyntaxTree, i: int) -> Option<usize> {
    match t.field_child_of(i, "command_name"@) {
        Some(c) => if t.kind_of(c as int) == "command_name"@ {
            Some(c)
        } else {
            None
        },
        None => None,
    }
}

/// The arguments of command `i`: the `generic_token` children of the
/// `command_elements` node under its `command_elements` field.
pub open spec fn ps_command_args(t: SyntaxTree, i: int) -> Seq<usize> {
    match t.field_child_of(i, "command_elements"@) {
        Some(e) => if t.kind_of(e as int) == "command_elements"@ {
            ps_tokens_in(t, t.children_of(e as int))
        } else {
            Seq::empty()
        },
        None => Seq::empty(),
    }
}

/// The import argument `a` stands for: its text, imported from itself.
pub open spec fn ps_arg_item(t: SyntaxTree, a: usize) -> ImportItem {
    (a as int, t.text_of(a as int), t.text_of(a as int))
}

/// The module import node `i` makes: for a command named `Import-Module`
/// (any ASCII case) with arguments, its first argument; for a command named
/// `using` whose first argument is `module` (any ASCII case), its second.
pub open spec fn ps_module_import_at(t: SyntaxTree, i: int) -> Seq<ImportItem> {
    if t.kind_of(i) == "command"@ {
        match ps_command_name(t, i) {
            Some(c) => {
                let args = ps_command_args(t, i);
                if args.len() == 0 {
                    Seq::empty()
                } else if ascii_ci_eq(t.text_of(c as int), "Import-Module"@) {
                    seq![ps_arg_item(t, args[0])]
                } else if ascii_ci_eq(t.text_of(c as int), "using"@) && ascii_ci_eq(
                    t.text_of(args[0] as int),
                    "module"@,
                ) && args.len() >= 2 {
                    seq![ps_arg_item(t, args[1])]
                } else {
                    Seq::empty()
                }
            },
            None => Seq::empty(),
        }
    } else {
        Seq::empty()
    }
}

/// The `command_name` nodes among `cs`, each imported from its own text.
pub open spec fn ps_names_in(t: SyntaxTree, cs: Seq<usize>) -> Seq<ImportItem>
    decreases cs.len(),
{
    if cs.len() == 0 {
        Seq::empty()
    } else {
        let c = cs.last();
        ps_names_in(t, cs.drop_last()) + if t.kind_of(c as int) == "command_name"@ {
            seq![ps_arg_item(t, c)]
        } else {
            Seq::empty()
        }
    }
}

/// The dot-sourcing import node `i` makes: for a command with a
/// `command_invokation_operator` child whose `command_name` field is a
/// `command_name_expr`, each `command_name` inside that expression.
pub open spec fn ps_dot_import_at(t: SyntaxTree, i: int) -> Seq<ImportItem> {
    if t.kind_of(i) == "command"@ && t.kind_child_of(i, "command_invokation_operator"@) is Some {
        match t.field_child_of(i, "command_name"@) {
            Some(e) => if t.kind_of(e as int) == "command_name_expr"@ {
                ps_names_in(t, t.children_of(e as int))
            } else {
                Seq::empty()
            },
            None => Seq::empty(),
        }
    } else {
        Seq::empty()
    }
}

/// The module imports of nodes `0..n`, in pre-order.
pub open spec fn ps_modules_upto(t: SyntaxTree, n: int) -> Seq<ImportItem>
    decreases n,
{
    if n <= 0 {
        Seq::empty()
    } else {
        ps_modules_upto(t, n - 1) + ps_module_import_at(t, n - 1)
    }
}

/// The dot-sourcing imports of nodes `0..n`, in pre-order.
pub open spec fn ps_dots_upto(t: SyntaxTree, n: int) -> Seq<ImportItem>
    decreases n,
{
    if n <= 0 {
        Seq::empty()
    } else {
        ps_dots_upto(t, n - 1) + ps_dot_import_at(t, n - 1)
    }
}

/// The imports of a PowerShell file: the module imports, then the
/// dot-sourcing ones.
pub open spec fn powershell_imports_spec(t: SyntaxTree) -> Seq<ImportItem> {
    ps_modules_upto(t, t.size()) + ps_dots_upto(t, t.size())
}

/// The `generic_token` children of node `e`.
fn tokens(t: &SyntaxTree, e: usize) -> (r: Vec<usize>)
    requires
        t.wf(),
        e < t.size(),
    ensures
        r@ == ps_tokens_in(*t, t.children_of(e as int)),
        forall|j: int| 0 <= j < r.len() ==> #[trigger] r@[j] < t.size(),
{
    let ch = t.children(e);
    let mut out: Vec<usize> = Vec::new();
    let mut k: usize = 0;
    assert(ch@.take(0) =~= Seq::<usize>::empty());
    while k < ch.len()
        invariant
            t.wf(),
            k <= ch.len(),
            ch@ == t.children_of(e as int),
            forall|j: int| 0 <= j < ch.len() ==> #[trigger] ch@[j] < t.size(),
            out@ == ps_tokens_in(*t, ch@.take(k as int)),
            forall|j: int| 0 <= j < out.len() ==> #[trigger] out@[j] < t.size(),
        decreases ch.len() - k,
    {
        let c = ch[k];
        proof {
            assert(ch@.take(k + 1).drop_last() =~= ch@.take(k as int));
            assert(ch@.take(k + 1).last() == c);
        }
        if t.is_kind(c, "generic_token") {
            out.push(c);
        }
        proof {
            let prev = ps_tokens_in(*t, ch@.take(k as int));
            assert(ps_tokens_in(*t, ch@.take(k + 1)) =~= out@);
        }
        k = k + 1;
    }
    assert(ch@.take(ch.len() as int) =~= ch@);
    out
}

/// The module import of command node `i`, pushed.
fn module_import(t: &SyntaxTree, i: usize, file: &str, module_id: &str, out: &mut Vec<Reference>)
    requires
        t.wf(),
        i < t.size(),
    ensures
        imports_grow(*t, file@, module_id@, old(out)@, final(out)@, ps_module_import_at(*t, i as int)),
{
    proof {
        lemma_imports_grow_none(*t, file@, module_id@, out@);
        reveal_strlit("Import-Module");
        reveal_strlit("using");
        reveal_strlit("module");
    }
    if !t.is_kind(i, "command") {
        return;
    }
    let name = match t.field_child(i, "command_name") {
        Some(c) => if t.is_kind(c, "command_name") {
            c
        } else {
            return;
        },
        None => {
            return;
        },
    };
    let args: Vec<usize> = match t.field_child(i, "command_elements") {
        Some(e) => if t.is_kind(e, "command_elements") {
            tokens(t, e)
        } else {
            Vec::new()
        },
        None => Vec::new(),
    };
    assert(args@ == ps_command_args(*t, i as int));
    if args.len() == 0 {
        return;
    }
    let cmd = t.text(name);
    if eq_ignore_ascii_case(cmd.as_str(), "Import-Module") {
        let a = args[0];
        push_import_item(out, t.text(a), t, a, file, module_id, t.text(a));
    } else if eq_ignore_ascii_case(cmd.as_str(), "using") {
        let first = t.text(args[0]);
        if eq_ignore_ascii_case(first.as_str(), "module") && args.len() >= 2 {
            let a = args[1];
            push_import_item(out, t.text(a), t, a, file, module_id, t.text(a));
        }
    }
}

/// The dot-sourcing imports of command node `i`, pushed.
fn dot_import(t: &SyntaxTree, i: usize, file: &str, module_id: &str, out: &mut Vec<Reference>)
    requires
        t.wf(),
        i < t.size(),
    ensures
        imports_grow(*t, file@, module_id@, old(out)@, final(out)@, ps_dot_import_at(*t, i as int)),
{
    proof {
        lemma_imports_grow_none(*t, file@, module_id@, out@);
    }
    if !(t.is_kind(i, "command") && t.child_of_kind(i, "command_invokation_operator").is_some()) {
        return;
    }
    let e = match t.field_child(i, "command_name") {
        Some(e) => if t.is_kind(e, "command_name_expr") {
            e
        } else {
            return;
        },
        None => {
            return;
        },
    };
    let ch = t.children(e);
    let mut k: usize = 0;
    assert(ch@.take(0) =~= Seq::<usize>::empty());
    while k < ch.len()
        invariant
            t.wf(),
            k <= ch.len(),
            ch@ == t.children_of(e as int),
            forall|j: int| 0 <= j < ch.len() ==> #[trigger] ch@[j] < t.size(),
            imports_grow(*t, file@, module_id@, old(out)@, out@, ps_names_in(*t, ch@.take(k as int))),
        decreases ch.len() - k,
    {
        let c = ch[k];
        let ghost mid = out@;
        proof {
            assert(ch@.take(k + 1).drop_last() =~= ch@.take(k as int));
            assert(ch@.take(k + 1).last() == c);
            lemma_imports_grow_none(*t, file@, module_id@, mid);
        }
        if t.is_kind(c, "command_name") {
            push_import_item(out, t.text(c), t, c, file, module_id, t.text(c));
        }
        proof {
            let prev = ps_names_in(*t, ch@.take(k as int));
            let step = ps_names_in(*t, ch@.take(k + 1)).skip(prev.len() as int);
            assert(ps_names_in(*t, ch@.take(k + 1)) =~= prev + step);
            lemma_imports_grow_trans(*t, file@, module_id@, old(out)@, mid, out@, prev, step);
        }
        k = k + 1;
    }
    assert(ch@.take(ch.len() as int) =~= ch@);
}

/// The `Import` references of a PowerShell file, all from module
/// `module_id`, each imported from its own text: first, in pre-order, the
/// module named by each `Import-Module Name` and `using module Name` command
/// (command names and `module` in any ASCII case); then, in pre-order, the
/// path of each dot-sourced script.
pub fn powershell_imports(t: &SyntaxTree, file: &str, module_id: &str) -> (r: Vec<Reference>)
    requires
        t.wf(),
    ensures
        imports_grow(*t, file@, module_id@, Seq::empty(), r@, powershell_imports_spec(*t)),
{
    let mut out: Vec<Reference> = Vec::new();
    let mut i: usize = 0;
    proof {
        lemma_imports_grow_none(*t, file@, module_id@, out@);
    }
    while i < t.nodes.len()
        invariant
            t.wf(),
            i <= t.nodes.len(),
            imports_grow(*t, file@, module_id@, Seq::empty(), out@, ps_modules_upto(*t, i as int)),
        decreases t.nodes.len() - i,
    {
        let ghost before = out@;
        module_import(t, i, file, module_id, &mut out);
        proof {
            assert(ps_modules_upto(*t, i + 1) == ps_modules_upto(*t, i as int) + ps_module_import_at(*t, i as int));
            lemma_imports_grow_trans(
                *t,
                file@,
                module_id@,
                Seq::empty(),
                before,
                out@,
                ps_modules_upto(*t, i as int),
                ps_module_import_at(*t, i as int),
            );
        }
        i = i + 1;
    }
    let ghost mods = out@;
    let mut i: usize = 0;
    proof {
        lemma_imports_grow_none(*t, file@, module_id@, out@);
    }
    while i < t.nodes.len()
        invariant
            t.wf(),
            i <= t.nodes.len(),
            imports_grow(*t, file@, module_id@, mods, out@, ps_dots_upto(*t, i as int)),
        decreases t.nodes.len() - i,
    {
        let ghost before = out@;
        dot_import(t, i, file, module_id, &mut out);
        proof {
            assert(ps_dots_upto(*t, i + 1) == ps_dots_upto(*t, i as int) + ps_dot_import_at(*t, i as int));
            lemma_imports_grow_trans(
                *t,
                file@,
                module_id@,
                mods,
                before,
                out@,
                ps_dots_upto(*t, i as int),
                ps_dot_import_at(*t, i as int),
            );
        }
        i = i + 1;
    }
    proof {
        lemma_imports_grow_trans(
            *t,
            file@,
            module_id@,
            Seq::empty(),
            mods,
            out@,
            ps_modules_upto(*t, t.size()),
            ps_dots_upto(*t, t.size()),
        );
    }
    out
}

} // verus!
