//! SCIP-aligned symbol identity: a symbol is a package-less global path of
//! descriptors, rendered as a stable SCIP string so that cross-file matching is
//! string equality.

use vstd::prelude::*;
use vstd::string::*;
use crate::text::{chars_of, string_from_chars};

verus! {

/// One step of a SCIP descriptor path.
#[derive(Debug, Clone, PartialEq, Eq)]
pub enum Descriptor {
    /// A package or module segment: `name/`.
    Namespace(String),
    /// A type: `name#`.
    Type(String),
    /// A term (constant, field, variable): `name.`.
    Term(String),
    /// A function or method: `name(disambiguator).`.
    Method { name: String, disambiguator: String },
    /// A macro: `name!`.
    Macro(String),
}

/// A global symbol identity: the language it was extracted from plus its
/// descriptor path.
#[derive(Debug, Clone, PartialEq, Eq)]
pub struct SymbolId {
    pub lang: String,
    pub descriptors: Vec<Descriptor>,
}

/// Characters SCIP accepts in a name without escaping.
pub open spec fn is_simple_char(c: char) -> bool {
    ('a' <= c && c <= 'z') || ('A' <= c && c <= 'Z') || ('0' <= c && c <= '9') || c == '_' || c
        == '+' || c == '-' || c == '$'
}

/// A non-empty name made only of simple characters.
pub open spec fn is_simple_name(s: Seq<char>) -> bool {
    s.len() > 0 && forall|i: int| 0 <= i < s.len() ==> is_simple_char(#[trigger] s[i])
}

/// `s` with every backtick doubled.
pub open spec fn double_backticks(s: Seq<char>) -> Seq<char>
    decreases s.len(),
{
    if s.len() == 0 {
        Seq::empty()
    } else if s.last() == '`' {
        double_backticks(s.drop_last()).push('`').push('`')
    } else {
        double_backticks(s.drop_last()).push(s.last())
    }
}

/// A name as SCIP writes it: bare when simple, otherwise inside backticks.
pub open spec fn escaped_name(s: Seq<char>) -> Seq<char> {
    if is_simple_name(s) {
        s
    } else {
        seq!['`'] + double_backticks(s) + seq!['`']
    }
}

/// The SCIP text of one descriptor.
pub open spec fn descriptor_text(d: Descriptor) -> Seq<char> {
    match d {
        Descriptor::Namespace(n) => escaped_name(n@) + seq!['/'],
        Descriptor::Type(n) => escaped_name(n@) + seq!['#'],
        Descriptor::Term(n) => escaped_name(n@) + seq!['.'],
        Descriptor::Method { name, disambiguator } => escaped_name(name@) + seq!['('] + disambiguator@
            + seq![')', '.'],
        Descriptor::Macro(n) => escaped_name(n@) + seq!['!'],
    }
}

/// The SCIP text of a descriptor path: each descriptor's text, in order.
pub open spec fn descriptors_text(ds: Seq<Descriptor>) -> Seq<char>
    decreases ds.len(),
{
    if ds.len() == 0 {
        Seq::empty()
    } else {
        descriptors_text(ds.drop_last()) + descriptor_text(ds.last())
    }
}

/// The scheme and the three empty package fields (`.` each) of every global
/// symbol this crate mints.
pub open spec fn scip_prefix() -> Seq<char> {
    seq!['c', 'o', 'd', 'e', 'g', 'r', 'a', 'p', 'h', ' ', '.', ' ', '.', ' ', '.', ' ']
}

/// The SCIP string of a symbol identity.
pub open spec fn scip_text(id: SymbolId) -> Seq<char> {
    scip_prefix() + descriptors_text(id.descriptors@)
}

/// The name a descriptor carries.
pub open spec fn descriptor_name(d: Descriptor) -> Seq<char> {
    match d {
        Descriptor::Namespace(n) => n@,
        Descriptor::Type(n) => n@,
        Descriptor::Term(n) => n@,
        Descriptor::Method { name, disambiguator } => name@,
        Descriptor::Macro(n) => n@,
    }
}

fn is_simple_char_exec(c: char) -> (r: bool)
    ensures
        r == is_simple_char(c),
{
    ('a' <= c && c <= 'z') || ('A' <= c && c <= 'Z') || ('0' <= c && c <= '9') || c == '_' || c
        == '+' || c == '-' || c == '$'
}

/// Append `name` to `out` the way SCIP writes a name.
fn append_escaped(out: &mut String, name: &str)
    ensures
        final(out)@ == old(out)@ + escaped_name(name@),
{
    let cs = chars_of(name);
    let mut simple = cs.len() > 0;
    let mut i: usize = 0;
    while i < cs.len()
        invariant
            i <= cs.len(),
            cs@ == name@,
            simple <==> (cs.len() > 0 && forall|k: int| 0 <= k < i ==> is_simple_char(#[trigger] cs@[k])),
        decreases cs.len() - i,
    {
        if !is_simple_char_exec(cs[i]) {
            simple = false;
        }
        i = i + 1;
    }
    if simple {
        out.append(name);
        return;
    }
    let mut body: Vec<char> = Vec::new();
    body.push('`');
    let mut j: usize = 0;
    while j < cs.len()
        invariant
            j <= cs.len(),
            cs@ == name@,
            body@ == seq!['`'] + double_backticks(cs@.take(j as int)),
        decreases cs.len() - j,
    {
        assert(cs@.take(j + 1).drop_last() =~= cs@.take(j as int));
        let c = cs[j];
        if c == '`' {
            body.push('`');
            body.push('`');
        } else {
            body.push(c);
        }
        j = j + 1;
    }
    assert(cs@.take(cs.len() as int) =~= cs@);
    body.push('`');
    let s = string_from_chars(body.as_slice());
    out.append(s.as_str());
}

impl Descriptor {
    /// The name this descriptor carries.
    pub fn name(&self) -> (r: &str)
        ensures
            r@ == descriptor_name(*self),
    {
        match self {
            Descriptor::Namespace(n) => n.as_str(),
            Descriptor::Type(n) => n.as_str(),
            Descriptor::Term(n) => n.as_str(),
            Descriptor::Method { name, disambiguator: _ } => name.as_str(),
            Descriptor::Macro(n) => n.as_str(),
        }
    }

    /// Append this descriptor's SCIP text to `out`.
    pub fn write_scip(&self, out: &mut String)
        ensures
            final(out)@ == old(out)@ + descriptor_text(*self),
    {
        match self {
            Descriptor::Namespace(n) => {
                append_escaped(out, n.as_str());
                out.append("/");
            },
            Descriptor::Type(n) => {
                append_escaped(out, n.as_str());
                out.append("#");
            },
            Descriptor::Term(n) => {
                append_escaped(out, n.as_str());
                out.append(".");
            },
            Descriptor::Method { name, disambiguator } => {
                append_escaped(out, name.as_str());
                out.append("(");
                out.append(disambiguator.as_str());
                out.append(").");
            },
            Descriptor::Macro(n) => {
                append_escaped(out, n.as_str());
                out.append("!");
            },
        }
        proof {
            reveal_strlit("/");
            reveal_strlit("#");
            reveal_strlit(".");
            reveal_strlit("(");
            reveal_strlit(").");
            reveal_strlit("!");
        }
        assert(final(out)@ =~= old(out)@ + descriptor_text(*self));
    }
}

impl Descriptor {
    /// A copy of this descriptor.
    pub fn duplicate(&self) -> (r: Descriptor)
        ensures
            r == *self,
    {
        match self {
            Descriptor::Namespace(n) => Descriptor::Namespace(n.clone()),
            Descriptor::Type(n) => Descriptor::Type(n.clone()),
            Descriptor::Term(n) => Descriptor::Term(n.clone()),
            Descriptor::Method { name, disambiguator } => Descriptor::Method {
                name: name.clone(),
                disambiguator: disambiguator.clone(),
            },
            Descriptor::Macro(n) => Descriptor::Macro(n.clone()),
        }
    }
}

impl SymbolId {
    /// A copy of this identity.
    pub fn duplicate(&self) -> (r: SymbolId)
        ensures
            r.lang == self.lang,
            r.descriptors@ == self.descriptors@,
    {
        let mut ds: Vec<Descriptor> = Vec::new();
        let mut i: usize = 0;
        while i < self.descriptors.len()
            invariant
                i <= self.descriptors.len(),
                ds@ == self.descriptors@.take(i as int),
            decreases self.descriptors.len() - i,
        {
            ds.push(self.descriptors[i].duplicate());
            assert(self.descriptors@.take(i + 1) =~= self.descriptors@.take(i as int).push(self.descriptors@[i as int]));
            i = i + 1;
        }
        assert(self.descriptors@.take(self.descriptors.len() as int) =~= self.descriptors@);
        SymbolId { lang: self.lang.clone(), descriptors: ds }
    }

    /// A global symbol of language `lang` at descriptor path `descriptors`.
    pub fn global(lang: &str, descriptors: Vec<Descriptor>) -> (r: SymbolId)
        ensures
            r.lang@ == lang@,
            r.descriptors@ == descriptors@,
    {
        SymbolId { lang: lang.to_owned(), descriptors }
    }

    /// The SCIP string of this identity: `codegraph . . . ` followed by each
    /// descriptor's text.
    pub fn to_scip_string(&self) -> (r: String)
        ensures
            r@ == scip_text(*self),
    {
        let mut out = String::from_str("codegraph . . . ");
        proof {
            reveal_strlit("codegraph . . . ");
            assert(out@ =~= scip_prefix());
        }
        let mut i: usize = 0;
        while i < self.descriptors.len()
            invariant
                i <= self.descriptors.len(),
                out@ == scip_prefix() + descriptors_text(self.descriptors@.take(i as int)),
            decreases self.descriptors.len() - i,
        {
            assert(self.descriptors@.take(i + 1).drop_last() =~= self.descriptors@.take(i as int));
            self.descriptors[i].write_scip(&mut out);
            assert(out@ =~= scip_prefix() + descriptors_text(self.descriptors@.take(i + 1)));
            i = i + 1;
        }
        assert(self.descriptors@.take(self.descriptors.len() as int) =~= self.descriptors@);
        out
    }
}

/// Law: a non-empty name made only of ASCII letters, digits, `_`, `+`, `-`
/// and `$` is written bare in a SCIP string; any other name (empty, or with
/// some other character) is written inside backticks, with its backticks
/// doubled.
pub proof fn law_plain_names_are_written_bare(s: Seq<char>)
    ensures
        (s.len() > 0 && forall|i: int|
            0 <= i < s.len() ==> ('a' <= #[trigger] s[i] <= 'z' || 'A' <= s[i] <= 'Z' || '0' <= s[i] <= '9' || s[i]
                == '_' || s[i] == '+' || s[i] == '-' || s[i] == '$')) ==> escaped_name(s) == s,
        !(s.len() > 0 && forall|i: int|
            0 <= i < s.len() ==> ('a' <= #[trigger] s[i] <= 'z' || 'A' <= s[i] <= 'Z' || '0' <= s[i] <= '9' || s[i]
                == '_' || s[i] == '+' || s[i] == '-' || s[i] == '$')) ==> escaped_name(s) == seq!['`']
            + double_backticks(s) + seq!['`'],
{
}

/// A text without backticks keeps its text when backticks are doubled.
proof fn lemma_no_backticks(s: Seq<char>)
    requires
        forall|i: int| 0 <= i < s.len() ==> s[i] != '`',
    ensures
        double_backticks(s) == s,
    decreases s.len(),
{
    if s.len() > 0 {
        lemma_no_backticks(s.drop_last());
        assert(s.drop_last().push(s.last()) =~= s);
    }
}

/// Doubling backticks works piece by piece.
proof fn lemma_double_backticks_concat(a: Seq<char>, b: Seq<char>)
    ensures
        double_backticks(a + b) == double_backticks(a) + double_backticks(b),
    decreases b.len(),
{
    if b.len() > 0 {
        lemma_double_backticks_concat(a, b.drop_last());
        assert((a + b).drop_last() =~= a + b.drop_last());
        assert((a + b).last() == b.last());
        if b.last() == '`' {
            assert(double_backticks(a) + double_backticks(b.drop_last()).push('`').push('`') =~= (double_backticks(a)
                + double_backticks(b.drop_last())).push('`').push('`'));
        } else {
            assert(double_backticks(a) + double_backticks(b.drop_last()).push(b.last()) =~= (double_backticks(a)
                + double_backticks(b.drop_last())).push(b.last()));
        }
    }
}

/// Law: inside the backticks of an escaped name each backtick of the name
/// is written twice and every other character once, in order: a name
/// without backticks is written unchanged, the pieces of a name are escaped
/// one after another, and a lone backtick becomes two.
pub proof fn law_backticks_are_doubled(a: Seq<char>, b: Seq<char>)
    ensures
        (forall|i: int| 0 <= i < a.len() ==> a[i] != '`') ==> double_backticks(a) == a,
        double_backticks(a + b) == double_backticks(a) + double_backticks(b),
        double_backticks(seq!['`']) == seq!['`', '`'],
{
    if forall|i: int| 0 <= i < a.len() ==> a[i] != '`' {
        lemma_no_backticks(a);
    }
    lemma_double_backticks_concat(a, b);
    let t = seq!['`'];
    assert(t.drop_last() =~= Seq::<char>::empty());
    assert(double_backticks(t) == double_backticks(t.drop_last()).push('`').push('`'));
    assert(double_backticks(Seq::<char>::empty()) == Seq::<char>::empty());
    assert(Seq::<char>::empty().push('`').push('`') =~= seq!['`', '`']);
}

/// Law: a symbol's SCIP string is `codegraph . . . ` followed by the text of
/// each of its descriptors in order; the text of a descriptor whose name is
/// plain (non-empty, only ASCII letters, digits, `_`, `+`, `-`, `$`) is that
/// name followed by `/` for a namespace, `#` for a type, `.` for a term,
/// `(`, the disambiguator and `).` for a method, and `!` for a macro.
pub proof fn law_scip_string_layout(id: SymbolId, n: String, dis: String)
    requires
        n@.len() > 0,
        forall|i: int|
            0 <= i < n@.len() ==> ('a' <= #[trigger] n@[i] <= 'z' || 'A' <= n@[i] <= 'Z' || '0' <= n@[i] <= '9'
                || n@[i] == '_' || n@[i] == '+' || n@[i] == '-' || n@[i] == '$'),
    ensures
        scip_text(id) == seq!['c', 'o', 'd', 'e', 'g', 'r', 'a', 'p', 'h', ' ', '.', ' ', '.', ' ', '.', ' ']
            + descriptors_text(id.descriptors@),
        id.descriptors@.len() > 0 ==> descriptors_text(id.descriptors@) == descriptors_text(
            id.descriptors@.drop_last(),
        ) + descriptor_text(id.descriptors@.last()),
        descriptors_text(Seq::<Descriptor>::empty()) == Seq::<char>::empty(),
        descriptor_text(Descriptor::Namespace(n)) == n@ + seq!['/'],
        descriptor_text(Descriptor::Type(n)) == n@ + seq!['#'],
        descriptor_text(Descriptor::Term(n)) == n@ + seq!['.'],
        descriptor_text(Descriptor::Method { name: n, disambiguator: dis }) == n@ + seq!['('] + dis@ + seq![')', '.'],
        descriptor_text(Descriptor::Macro(n)) == n@ + seq!['!'],
{
    law_plain_names_are_written_bare(n@);
}

} // verus!
