//! The languages this crate knows and the file-extension dispatch.

use vstd::prelude::*;
use crate::text::{chars_of, last_index_of, last_index_spec, lemma_last_index_bounds, lemma_last_index_concat, slice_chars, chars_eq};

verus! {

/// A source language, identified by file extension.
#[derive(Debug, Clone, Copy, PartialEq, Eq, Structural)]
pub enum Language {
    Astro,
    C,
    CSharp,
    Cpp,
    Dart,
    Fortran,
    Go,
    Groovy,
    Hcl,
    Java,
    JavaScript,
    Kotlin,
    Lua,
    Luau,
    ObjC,
    Pascal,
    Php,
    PowerShell,
    Python,
    Ruby,
    Rust,
    Scala,
    Shell,
    Solidity,
    Sql,
    Svelte,
    Swift,
    TypeScript,
}

/// The stable lower-case name of a language.
pub open spec fn lang_name(l: Language) -> Seq<char> {
    match l {
        Language::Astro => "astro"@,
        Language::C => "c"@,
        Language::CSharp => "csharp"@,
        Language::Cpp => "cpp"@,
        Language::Dart => "dart"@,
        Language::Fortran => "fortran"@,
        Language::Go => "go"@,
        Language::Groovy => "groovy"@,
        Language::Hcl => "hcl"@,
        Language::Java => "java"@,
        Language::JavaScript => "javascript"@,
        Language::Kotlin => "kotlin"@,
        Language::Lua => "lua"@,
        Language::Luau => "luau"@,
        Language::ObjC => "objc"@,
        Language::Pascal => "pascal"@,
        Language::Php => "php"@,
        Language::PowerShell => "powershell"@,
        Language::Python => "python"@,
        Language::Ruby => "ruby"@,
        Language::Rust => "rust"@,
        Language::Scala => "scala"@,
        Language::Shell => "shell"@,
        Language::Solidity => "solidity"@,
        Language::Sql => "sql"@,
        Language::Svelte => "svelte"@,
        Language::Swift => "swift"@,
        Language::TypeScript => "typescript"@,
    }
}

/// The extension of a path: the text after the last `.` of its last
/// `/`-separated component, or `None` when that component has no `.`.
pub open spec fn path_extension(p: Seq<char>) -> Option<Seq<char>> {
    let slash = last_index_spec(p, '/');
    let base = p.subrange(slash + 1, p.len() as int);
    let dot = last_index_spec(base, '.');
    if dot < 0 {
        None
    } else {
        Some(base.subrange(dot + 1, base.len() as int))
    }
}

/// The language that owns a file extension.
pub open spec fn lang_of_extension(e: Seq<char>) -> Option<Language> {
    if e == "rs"@ {
        Some(Language::Rust)
    } else if e == "py"@ || e == "pyi"@ {
        Some(Language::Python)
    } else if e == "go"@ {
        Some(Language::Go)
    } else if e == "java"@ {
        Some(Language::Java)
    } else if e == "kt"@ || e == "kts"@ {
        Some(Language::Kotlin)
    } else if e == "sol"@ {
        Some(Language::Solidity)
    } else if e == "c"@ || e == "h"@ {
        Some(Language::C)
    } else if e == "cpp"@ || e == "cc"@ || e == "cxx"@ || e == "hpp"@ || e == "hh"@ || e
        == "hxx"@ {
        Some(Language::Cpp)
    } else if e == "php"@ {
        Some(Language::Php)
    } else if e == "rb"@ {
        Some(Language::Ruby)
    } else if e == "sh"@ || e == "bash"@ {
        Some(Language::Shell)
    } else if e == "tf"@ || e == "hcl"@ || e == "tfvars"@ {
        Some(Language::Hcl)
    } else if e == "js"@ || e == "jsx"@ || e == "mjs"@ || e == "cjs"@ {
        Some(Language::JavaScript)
    } else if e == "ts"@ || e == "tsx"@ {
        Some(Language::TypeScript)
    } else if e == "cs"@ {
        Some(Language::CSharp)
    } else if e == "swift"@ {
        Some(Language::Swift)
    } else if e == "scala"@ {
        Some(Language::Scala)
    } else if e == "sql"@ {
        Some(Language::Sql)
    } else if e == "dart"@ {
        Some(Language::Dart)
    } else if e == "lua"@ {
        Some(Language::Lua)
    } else if e == "luau"@ {
        Some(Language::Luau)
    } else if e == "pas"@ || e == "dpr"@ {
        Some(Language::Pascal)
    } else if e == "svelte"@ {
        Some(Language::Svelte)
    } else if e == "ps1"@ || e == "psm1"@ {
        Some(Language::PowerShell)
    } else if e == "astro"@ {
        Some(Language::Astro)
    } else if e == "f90"@ || e == "f95"@ || e == "f03"@ || e == "f08"@ {
        Some(Language::Fortran)
    } else if e == "groovy"@ || e == "gradle"@ {
        Some(Language::Groovy)
    } else if e == "m"@ || e == "mm"@ {
        Some(Language::ObjC)
    } else {
        None
    }
}

/// The language of a path, decided by its extension.
pub open spec fn lang_of_path(p: Seq<char>) -> Option<Language> {
    match path_extension(p) {
        Some(e) => lang_of_extension(e),
        None => None,
    }
}

impl Language {
    /// The stable lower-case name (`"rust"`, `"go"`, …).
    pub fn as_str(&self) -> (r: &'static str)
        ensures
            r@ == lang_name(*self),
    {
        match self {
            Language::Astro => "astro",
            Language::C => "c",
            Language::CSharp => "csharp",
            Language::Cpp => "cpp",
            Language::Dart => "dart",
            Language::Fortran => "fortran",
            Language::Go => "go",
            Language::Groovy => "groovy",
            Language::Hcl => "hcl",
            Language::Java => "java",
            Language::JavaScript => "javascript",
            Language::Kotlin => "kotlin",
            Language::Lua => "lua",
            Language::Luau => "luau",
            Language::ObjC => "objc",
            Language::Pascal => "pascal",
            Language::Php => "php",
            Language::PowerShell => "powershell",
            Language::Python => "python",
            Language::Ruby => "ruby",
            Language::Rust => "rust",
            Language::Scala => "scala",
            Language::Shell => "shell",
            Language::Solidity => "solidity",
            Language::Sql => "sql",
            Language::Svelte => "svelte",
            Language::Swift => "swift",
            Language::TypeScript => "typescript",
        }
    }

    /// The language of `file`, inferred from its extension.
    pub fn from_path(file: &str) -> (r: Option<Language>)
        ensures
            r == lang_of_path(file@),
    {
        let cs = chars_of(file);
        proof {
            lemma_last_index_bounds(cs@, '/');
        }
        let start = match last_index_of(&cs, '/') {
            Some(k) => k + 1,
            None => 0,
        };
        let base: Vec<char> = slice_chars(&cs, start, cs.len());
        proof {
            lemma_last_index_bounds(base@, '.');
        }
        let dot = match last_index_of(&base, '.') {
            Some(k) => k,
            None => {
                return None;
            },
        };
        let ext = slice_chars(&base, dot + 1, base.len());
        lang_of_extension_exec(&ext)
    }
}

fn lang_of_extension_exec(e: &Vec<char>) -> (r: Option<Language>)
    ensures
        r == lang_of_extension(e@),
{
    if chars_eq(e, "rs") {
        Some(Language::Rust)
    } else if chars_eq(e, "py") || chars_eq(e, "pyi") {
        Some(Language::Python)
    } else if chars_eq(e, "go") {
        Some(Language::Go)
    } else if chars_eq(e, "java") {
        Some(Language::Java)
    } else if chars_eq(e, "kt") || chars_eq(e, "kts") {
        Some(Language::Kotlin)
    } else if chars_eq(e, "sol") {
        Some(Language::Solidity)
    } else if chars_eq(e, "c") || chars_eq(e, "h") {
        Some(Language::C)
    } else if chars_eq(e, "cpp") || chars_eq(e, "cc") || chars_eq(e, "cxx") || chars_eq(e, "hpp")
        || chars_eq(e, "hh") || chars_eq(e, "hxx") {
        Some(Language::Cpp)
    } else if chars_eq(e, "php") {
        Some(Language::Php)
    } else if chars_eq(e, "rb") {
        Some(Language::Ruby)
    } else if chars_eq(e, "sh") || chars_eq(e, "bash") {
        Some(Language::Shell)
    } else if chars_eq(e, "tf") || chars_eq(e, "hcl") || chars_eq(e, "tfvars") {
        Some(Language::Hcl)
    } else if chars_eq(e, "js") || chars_eq(e, "jsx") || chars_eq(e, "mjs") || chars_eq(e, "cjs") {
        Some(Language::JavaScript)
    } else if chars_eq(e, "ts") || chars_eq(e, "tsx") {
        Some(Language::TypeScript)
    } else if chars_eq(e, "cs") {
        Some(Language::CSharp)
    } else if chars_eq(e, "swift") {
        Some(Language::Swift)
    } else if chars_eq(e, "scala") {
        Some(Language::Scala)
    } else if chars_eq(e, "sql") {
        Some(Language::Sql)
    } else if chars_eq(e, "dart") {
        Some(Language::Dart)
    } else if chars_eq(e, "lua") {
        Some(Language::Lua)
    } else if chars_eq(e, "luau") {
        Some(Language::Luau)
    } else if chars_eq(e, "pas") || chars_eq(e, "dpr") {
        Some(Language::Pascal)
    } else if chars_eq(e, "svelte") {
        Some(Language::Svelte)
    } else if chars_eq(e, "ps1") || chars_eq(e, "psm1") {
        Some(Language::PowerShell)
    } else if chars_eq(e, "astro") {
        Some(Language::Astro)
    } else if chars_eq(e, "f90") || chars_eq(e, "f95") || chars_eq(e, "f03") || chars_eq(e, "f08") {
        Some(Language::Fortran)
    } else if chars_eq(e, "groovy") || chars_eq(e, "gradle") {
        Some(Language::Groovy)
    } else if chars_eq(e, "m") || chars_eq(e, "mm") {
        Some(Language::ObjC)
    } else {
        None
    }
}

/// A path whose last component ends in `.` and `e` (with neither `.` nor
/// `/` in `e`) has the extension `e`, whatever comes before.
pub proof fn lemma_path_extension(q: Seq<char>, e: Seq<char>)
    requires
        forall|i: int| 0 <= i < e.len() ==> e[i] != '.' && e[i] != '/',
    ensures
        path_extension(q + seq!['.'] + e) == Some(e),
{
    let s = q + seq!['.'] + e;
    assert(s =~= q + (seq!['.'] + e));
    assert forall|i: int| 0 <= i < (seq!['.'] + e).len() implies (seq!['.'] + e)[i] != '/' by {
        if i > 0 {
            assert((seq!['.'] + e)[i] == e[i - 1]);
        }
    }
    lemma_last_index_concat(q, seq!['.'] + e, '/');
    let slash = last_index_spec(q, '/');
    lemma_last_index_bounds(q, '/');
    let base = s.subrange(slash + 1, s.len() as int);
    let head = q.subrange(slash + 1, q.len() as int) + seq!['.'];
    assert(base =~= head + e);
    lemma_last_index_concat(head, e, '.');
    assert(head.drop_last() =~= q.subrange(slash + 1, q.len() as int));
    assert(last_index_spec(head, '.') == head.len() - 1);
    assert(base.subrange(head.len() as int, base.len() as int) =~= e);
}

#[verifier::spinoff_prover]
#[verifier::rlimit(50)]
proof fn lemma_extensions_0(q: Seq<char>)
    ensures
        lang_of_path(q + seq!['.'] + seq!['r', 's']) == Some(Language::Rust),
        lang_of_path(q + seq!['.'] + seq!['p', 'y']) == Some(Language::Python),
        lang_of_path(q + seq!['.'] + seq!['p', 'y', 'i']) == Some(Language::Python),
        lang_of_path(q + seq!['.'] + seq!['g', 'o']) == Some(Language::Go),
{
    reveal_strlit("astro");
    reveal_strlit("bash");
    reveal_strlit("c");
    reveal_strlit("cc");
    reveal_strlit("cjs");
    reveal_strlit("cpp");
    reveal_strlit("cs");
    reveal_strlit("cxx");
    reveal_strlit("dart");
    reveal_strlit("dpr");
    reveal_strlit("f03");
    reveal_strlit("f08");
    reveal_strlit("f90");
    reveal_strlit("f95");
    reveal_strlit("go");
    reveal_strlit("gradle");
    reveal_strlit("groovy");
    reveal_strlit("h");
    reveal_strlit("hcl");
    reveal_strlit("hh");
    reveal_strlit("hpp");
    reveal_strlit("hxx");
    reveal_strlit("java");
    reveal_strlit("js");
    reveal_strlit("jsx");
    reveal_strlit("kt");
    reveal_strlit("kts");
    reveal_strlit("lua");
    reveal_strlit("luau");
    reveal_strlit("m");
    reveal_strlit("mjs");
    reveal_strlit("mm");
    reveal_strlit("pas");
    reveal_strlit("php");
    reveal_strlit("ps1");
    reveal_strlit("psm1");
    reveal_strlit("py");
    reveal_strlit("pyi");
    reveal_strlit("rb");
    reveal_strlit("rs");
    reveal_strlit("scala");
    reveal_strlit("sh");
    reveal_strlit("sol");
    reveal_strlit("sql");
    reveal_strlit("svelte");
    reveal_strlit("swift");
    reveal_strlit("tf");
    reveal_strlit("tfvars");
    reveal_strlit("ts");
    reveal_strlit("tsx");
    reveal_strlit("rs");
    assert("rs"@ =~= seq!['r', 's']);
    assert(lang_of_extension(seq!['r', 's']) == Some(Language::Rust));
    lemma_path_extension(q, seq!['r', 's']);
    reveal_strlit("py");
    assert("py"@ =~= seq!['p', 'y']);
    assert(lang_of_extension(seq!['p', 'y']) == Some(Language::Python));
    lemma_path_extension(q, seq!['p', 'y']);
    reveal_strlit("pyi");
    assert("pyi"@ =~= seq!['p', 'y', 'i']);
    assert(lang_of_extension(seq!['p', 'y', 'i']) == Some(Language::Python));
    lemma_path_extension(q, seq!['p', 'y', 'i']);
    reveal_strlit("go");
    assert("go"@ =~= seq!['g', 'o']);
    assert(lang_of_extension(seq!['g', 'o']) == Some(Language::Go));
    lemma_path_extension(q, seq!['g', 'o']);
}
#[verifier::spinoff_prover]
#[verifier::rlimit(50)]
proof fn lemma_extensions_1(q: Seq<char>)
    ensures
        lang_of_path(q + seq!['.'] + seq!['j', 'a', 'v', 'a']) == Some(Language::Java),
        lang_of_path(q + seq!['.'] + seq!['k', 't']) == Some(Language::Kotlin),
        lang_of_path(q + seq!['.'] + seq!['k', 't', 's']) == Some(Language::Kotlin),
        lang_of_path(q + seq!['.'] + seq!['s', 'o', 'l']) == Some(Language::Solidity),
{
    reveal_strlit("astro");
    reveal_strlit("bash");
    reveal_strlit("c");
    reveal_strlit("cc");
    reveal_strlit("cjs");
    reveal_strlit("cpp");
    reveal_strlit("cs");
    reveal_strlit("cxx");
    reveal_strlit("dart");
    reveal_strlit("dpr");
    reveal_strlit("f03");
    reveal_strlit("f08");
    reveal_strlit("f90");
    reveal_strlit("f95");
    reveal_strlit("go");
    reveal_strlit("gradle");
    reveal_strlit("groovy");
    reveal_strlit("h");
    reveal_strlit("hcl");
    reveal_strlit("hh");
    reveal_strlit("hpp");
    reveal_strlit("hxx");
    reveal_strlit("java");
    reveal_strlit("js");
    reveal_strlit("jsx");
    reveal_strlit("kt");
    reveal_strlit("kts");
    reveal_strlit("lua");
    reveal_strlit("luau");
    reveal_strlit("m");
    reveal_strlit("mjs");
    reveal_strlit("mm");
    reveal_strlit("pas");
    reveal_strlit("php");
    reveal_strlit("ps1");
    reveal_strlit("psm1");
    reveal_strlit("py");
    reveal_strlit("pyi");
    reveal_strlit("rb");
    reveal_strlit("rs");
    reveal_strlit("scala");
    reveal_strlit("sh");
    reveal_strlit("sol");
    reveal_strlit("sql");
    reveal_strlit("svelte");
    reveal_strlit("swift");
    reveal_strlit("tf");
    reveal_strlit("tfvars");
    reveal_strlit("ts");
    reveal_strlit("tsx");
    reveal_strlit("java");
    assert("java"@ =~= seq!['j', 'a', 'v', 'a']);
    assert(lang_of_extension(seq!['j', 'a', 'v', 'a']) == Some(Language::Java));
    lemma_path_extension(q, seq!['j', 'a', 'v', 'a']);
    reveal_strlit("kt");
    assert("kt"@ =~= seq!['k', 't']);
    assert(lang_of_extension(seq!['k', 't']) == Some(Language::Kotlin));
    lemma_path_extension(q, seq!['k', 't']);
    reveal_strlit("kts");
    assert("kts"@ =~= seq!['k', 't', 's']);
    assert(lang_of_extension(seq!['k', 't', 's']) == Some(Language::Kotlin));
    lemma_path_extension(q, seq!['k', 't', 's']);
    reveal_strlit("sol");
    assert("sol"@ =~= seq!['s', 'o', 'l']);
    assert(lang_of_extension(seq!['s', 'o', 'l']) == Some(Language::Solidity));
    lemma_path_extension(q, seq!['s', 'o', 'l']);
}
#[verifier::spinoff_prover]
#[verifier::rlimit(50)]
proof fn lemma_extensions_2(q: Seq<char>)
    ensures
        lang_of_path(q + seq!['.'] + seq!['c']) == Some(Language::C),
        lang_of_path(q + seq!['.'] + seq!['h']) == Some(Language::C),
        lang_of_path(q + seq!['.'] + seq!['c', 'p', 'p']) == Some(Language::Cpp),
        lang_of_path(q + seq!['.'] + seq!['c', 'c']) == Some(Language::Cpp),
{
    reveal_strlit("astro");
    reveal_strlit("bash");
    reveal_strlit("c");
    reveal_strlit("cc");
    reveal_strlit("cjs");
    reveal_strlit("cpp");
    reveal_strlit("cs");
    reveal_strlit("cxx");
    reveal_strlit("dart");
    reveal_strlit("dpr");
    reveal_strlit("f03");
    reveal_strlit("f08");
    reveal_strlit("f90");
    reveal_strlit("f95");
    reveal_strlit("go");
    reveal_strlit("gradle");
    reveal_strlit("groovy");
    reveal_strlit("h");
    reveal_strlit("hcl");
    reveal_strlit("hh");
    reveal_strlit("hpp");
    reveal_strlit("hxx");
    reveal_strlit("java");
    reveal_strlit("js");
    reveal_strlit("jsx");
    reveal_strlit("kt");
    reveal_strlit("kts");
    reveal_strlit("lua");
    reveal_strlit("luau");
    reveal_strlit("m");
    reveal_strlit("mjs");
    reveal_strlit("mm");
    reveal_strlit("pas");
    reveal_strlit("php");
    reveal_strlit("ps1");
    reveal_strlit("psm1");
    reveal_strlit("py");
    reveal_strlit("pyi");
    reveal_strlit("rb");
    reveal_strlit("rs");
    reveal_strlit("scala");
    reveal_strlit("sh");
    reveal_strlit("sol");
    reveal_strlit("sql");
    reveal_strlit("svelte");
    reveal_strlit("swift");
    reveal_strlit("tf");
    reveal_strlit("tfvars");
    reveal_strlit("ts");
    reveal_strlit("tsx");
    reveal_strlit("c");
    assert("c"@ =~= seq!['c']);
    assert(lang_of_extension(seq!['c']) == Some(Language::C));
    lemma_path_extension(q, seq!['c']);
    reveal_strlit("h");
    assert("h"@ =~= seq!['h']);
    assert(lang_of_extension(seq!['h']) == Some(Language::C));
    lemma_path_extension(q, seq!['h']);
    reveal_strlit("cpp");
    assert("cpp"@ =~= seq!['c', 'p', 'p']);
    assert(lang_of_extension(seq!['c', 'p', 'p']) == Some(Language::Cpp));
    lemma_path_extension(q, seq!['c', 'p', 'p']);
    reveal_strlit("cc");
    assert("cc"@ =~= seq!['c', 'c']);
    assert(lang_of_extension(seq!['c', 'c']) == Some(Language::Cpp));
    lemma_path_extension(q, seq!['c', 'c']);
}
#[verifier::spinoff_prover]
#[verifier::rlimit(50)]
proof fn lemma_extensions_3(q: Seq<char>)
    ensures
        lang_of_path(q + seq!['.'] + seq!['c', 'x', 'x']) == Some(Language::Cpp),
        lang_of_path(q + seq!['.'] + seq!['h', 'p', 'p']) == Some(Language::Cpp),
        lang_of_path(q + seq!['.'] + seq!['h', 'h']) == Some(Language::Cpp),
        lang_of_path(q + seq!['.'] + seq!['h', 'x', 'x']) == Some(Language::Cpp),
{
    reveal_strlit("astro");
    reveal_strlit("bash");
    reveal_strlit("c");
    reveal_strlit("cc");
    reveal_strlit("cjs");
    reveal_strlit("cpp");
    reveal_strlit("cs");
    reveal_strlit("cxx");
    reveal_strlit("dart");
    reveal_strlit("dpr");
    reveal_strlit("f03");
    reveal_strlit("f08");
    reveal_strlit("f90");
    reveal_strlit("f95");
    reveal_strlit("go");
    reveal_strlit("gradle");
    reveal_strlit("groovy");
    reveal_strlit("h");
    reveal_strlit("hcl");
    reveal_strlit("hh");
    reveal_strlit("hpp");
    reveal_strlit("hxx");
    reveal_strlit("java");
    reveal_strlit("js");
    reveal_strlit("jsx");
    reveal_strlit("kt");
    reveal_strlit("kts");
    reveal_strlit("lua");
    reveal_strlit("luau");
    reveal_strlit("m");
    reveal_strlit("mjs");
    reveal_strlit("mm");
    reveal_strlit("pas");
    reveal_strlit("php");
    reveal_strlit("ps1");
    reveal_strlit("psm1");
    reveal_strlit("py");
    reveal_strlit("pyi");
    reveal_strlit("rb");
    reveal_strlit("rs");
    reveal_strlit("scala");
    reveal_strlit("sh");
    reveal_strlit("sol");
    reveal_strlit("sql");
    reveal_strlit("svelte");
    reveal_strlit("swift");
    reveal_strlit("tf");
    reveal_strlit("tfvars");
    reveal_strlit("ts");
    reveal_strlit("tsx");
    reveal_strlit("cxx");
    assert("cxx"@ =~= seq!['c', 'x', 'x']);
    assert(lang_of_extension(seq!['c', 'x', 'x']) == Some(Language::Cpp));
    lemma_path_extension(q, seq!['c', 'x', 'x']);
    reveal_strlit("hpp");
    assert("hpp"@ =~= seq!['h', 'p', 'p']);
    assert(lang_of_extension(seq!['h', 'p', 'p']) == Some(Language::Cpp));
    lemma_path_extension(q, seq!['h', 'p', 'p']);
    reveal_strlit("hh");
    assert("hh"@ =~= seq!['h', 'h']);
    assert(lang_of_extension(seq!['h', 'h']) == Some(Language::Cpp));
    lemma_path_extension(q, seq!['h', 'h']);
    reveal_strlit("hxx");
    assert("hxx"@ =~= seq!['h', 'x', 'x']);
    assert(lang_of_extension(seq!['h', 'x', 'x']) == Some(Language::Cpp));
    lemma_path_extension(q, seq!['h', 'x', 'x']);
}
#[verifier::spinoff_prover]
#[verifier::rlimit(50)]
proof fn lemma_extensions_4(q: Seq<char>)
    ensures
        lang_of_path(q + seq!['.'] + seq!['p', 'h', 'p']) == Some(Language::Php),
        lang_of_path(q + seq!['.'] + seq!['r', 'b']) == Some(Language::Ruby),
        lang_of_path(q + seq!['.'] + seq!['s', 'h']) == Some(Language::Shell),
        lang_of_path(q + seq!['.'] + seq!['b', 'a', 's', 'h']) == Some(Language::Shell),
{
    reveal_strlit("astro");
    reveal_strlit("bash");
    reveal_strlit("c");
    reveal_strlit("cc");
    reveal_strlit("cjs");
    reveal_strlit("cpp");
    reveal_strlit("cs");
    reveal_strlit("cxx");
    reveal_strlit("dart");
    reveal_strlit("dpr");
    reveal_strlit("f03");
    reveal_strlit("f08");
    reveal_strlit("f90");
    reveal_strlit("f95");
    reveal_strlit("go");
    reveal_strlit("gradle");
    reveal_strlit("groovy");
    reveal_strlit("h");
    reveal_strlit("hcl");
    reveal_strlit("hh");
    reveal_strlit("hpp");
    reveal_strlit("hxx");
    reveal_strlit("java");
    reveal_strlit("js");
    reveal_strlit("jsx");
    reveal_strlit("kt");
    reveal_strlit("kts");
    reveal_strlit("lua");
    reveal_strlit("luau");
    reveal_strlit("m");
    reveal_strlit("mjs");
    reveal_strlit("mm");
    reveal_strlit("pas");
    reveal_strlit("php");
    reveal_strlit("ps1");
    reveal_strlit("psm1");
    reveal_strlit("py");
    reveal_strlit("pyi");
    reveal_strlit("rb");
    reveal_strlit("rs");
    reveal_strlit("scala");
    reveal_strlit("sh");
    reveal_strlit("sol");
    reveal_strlit("sql");
    reveal_strlit("svelte");
    reveal_strlit("swift");
    reveal_strlit("tf");
    reveal_strlit("tfvars");
    reveal_strlit("ts");
    reveal_strlit("tsx");
    reveal_strlit("php");
    assert("php"@ =~= seq!['p', 'h', 'p']);
    assert(lang_of_extension(seq!['p', 'h', 'p']) == Some(Language::Php));
    lemma_path_extension(q, seq!['p', 'h', 'p']);
    reveal_strlit("rb");
    assert("rb"@ =~= seq!['r', 'b']);
    assert(lang_of_extension(seq!['r', 'b']) == Some(Language::Ruby));
    lemma_path_extension(q, seq!['r', 'b']);
    reveal_strlit("sh");
    assert("sh"@ =~= seq!['s', 'h']);
    assert(lang_of_extension(seq!['s', 'h']) == Some(Language::Shell));
    lemma_path_extension(q, seq!['s', 'h']);
    reveal_strlit("bash");
    assert("bash"@ =~= seq!['b', 'a', 's', 'h']);
    assert(lang_of_extension(seq!['b', 'a', 's', 'h']) == Some(Language::Shell));
    lemma_path_extension(q, seq!['b', 'a', 's', 'h']);
}
#[verifier::spinoff_prover]
#[verifier::rlimit(50)]
proof fn lemma_extensions_5(q: Seq<char>)
    ensures
        lang_of_path(q + seq!['.'] + seq!['t', 'f']) == Some(Language::Hcl),
        lang_of_path(q + seq!['.'] + seq!['h', 'c', 'l']) == Some(Language::Hcl),
        lang_of_path(q + seq!['.'] + seq!['t', 'f', 'v', 'a', 'r', 's']) == Some(Language::Hcl),
        lang_of_path(q + seq!['.'] + seq!['j', 's']) == Some(Language::JavaScript),
{
    reveal_strlit("astro");
    reveal_strlit("bash");
    reveal_strlit("c");
    reveal_strlit("cc");
    reveal_strlit("cjs");
    reveal_strlit("cpp");
    reveal_strlit("cs");
    reveal_strlit("cxx");
    reveal_strlit("dart");
    reveal_strlit("dpr");
    reveal_strlit("f03");
    reveal_strlit("f08");
    reveal_strlit("f90");
    reveal_strlit("f95");
    reveal_strlit("go");
    reveal_strlit("gradle");
    reveal_strlit("groovy");
    reveal_strlit("h");
    reveal_strlit("hcl");
    reveal_strlit("hh");
    reveal_strlit("hpp");
    reveal_strlit("hxx");
    reveal_strlit("java");
    reveal_strlit("js");
    reveal_strlit("jsx");
    reveal_strlit("kt");
    reveal_strlit("kts");
    reveal_strlit("lua");
    reveal_strlit("luau");
    reveal_strlit("m");
    reveal_strlit("mjs");
    reveal_strlit("mm");
    reveal_strlit("pas");
    reveal_strlit("php");
    reveal_strlit("ps1");
    reveal_strlit("psm1");
    reveal_strlit("py");
    reveal_strlit("pyi");
    reveal_strlit("rb");
    reveal_strlit("rs");
    reveal_strlit("scala");
    reveal_strlit("sh");
    reveal_strlit("sol");
    reveal_strlit("sql");
    reveal_strlit("svelte");
    reveal_strlit("swift");
    reveal_strlit("tf");
    reveal_strlit("tfvars");
    reveal_strlit("ts");
    reveal_strlit("tsx");
    reveal_strlit("tf");
    assert("tf"@ =~= seq!['t', 'f']);
    assert(lang_of_extension(seq!['t', 'f']) == Some(Language::Hcl));
    lemma_path_extension(q, seq!['t', 'f']);
    reveal_strlit("hcl");
    assert("hcl"@ =~= seq!['h', 'c', 'l']);
    assert(lang_of_extension(seq!['h', 'c', 'l']) == Some(Language::Hcl));
    lemma_path_extension(q, seq!['h', 'c', 'l']);
    reveal_strlit("tfvars");
    assert("tfvars"@ =~= seq!['t', 'f', 'v', 'a', 'r', 's']);
    assert(lang_of_extension(seq!['t', 'f', 'v', 'a', 'r', 's']) == Some(Language::Hcl));
    lemma_path_extension(q, seq!['t', 'f', 'v', 'a', 'r', 's']);
    reveal_strlit("js");
    assert("js"@ =~= seq!['j', 's']);
    assert(lang_of_extension(seq!['j', 's']) == Some(Language::JavaScript));
    lemma_path_extension(q, seq!['j', 's']);
}
#[verifier::spinoff_prover]
#[verifier::rlimit(50)]
proof fn lemma_extensions_6(q: Seq<char>)
    ensures
        lang_of_path(q + seq!['.'] + seq!['j', 's', 'x']) == Some(Language::JavaScript),
        lang_of_path(q + seq!['.'] + seq!['m', 'j', 's']) == Some(Language::JavaScript),
        lang_of_path(q + seq!['.'] + seq!['c', 'j', 's']) == Some(Language::JavaScript),
        lang_of_path(q + seq!['.'] + seq!['t', 's']) == Some(Language::TypeScript),
{
    reveal_strlit("astro");
    reveal_strlit("bash");
    reveal_strlit("c");
    reveal_strlit("cc");
    reveal_strlit("cjs");
    reveal_strlit("cpp");
    reveal_strlit("cs");
    reveal_strlit("cxx");
    reveal_strlit("dart");
    reveal_strlit("dpr");
    reveal_strlit("f03");
    reveal_strlit("f08");
    reveal_strlit("f90");
    reveal_strlit("f95");
    reveal_strlit("go");
    reveal_strlit("gradle");
    reveal_strlit("groovy");
    reveal_strlit("h");
    reveal_strlit("hcl");
    reveal_strlit("hh");
    reveal_strlit("hpp");
    reveal_strlit("hxx");
    reveal_strlit("java");
    reveal_strlit("js");
    reveal_strlit("jsx");
    reveal_strlit("kt");
    reveal_strlit("kts");
    reveal_strlit("lua");
    reveal_strlit("luau");
    reveal_strlit("m");
    reveal_strlit("mjs");
    reveal_strlit("mm");
    reveal_strlit("pas");
    reveal_strlit("php");
    reveal_strlit("ps1");
    reveal_strlit("psm1");
    reveal_strlit("py");
    reveal_strlit("pyi");
    reveal_strlit("rb");
    reveal_strlit("rs");
    reveal_strlit("scala");
    reveal_strlit("sh");
    reveal_strlit("sol");
    reveal_strlit("sql");
    reveal_strlit("svelte");
    reveal_strlit("swift");
    reveal_strlit("tf");
    reveal_strlit("tfvars");
    reveal_strlit("ts");
    reveal_strlit("tsx");
    reveal_strlit("jsx");
    assert("jsx"@ =~= seq!['j', 's', 'x']);
    assert(lang_of_extension(seq!['j', 's', 'x']) == Some(Language::JavaScript));
    lemma_path_extension(q, seq!['j', 's', 'x']);
    reveal_strlit("mjs");
    assert("mjs"@ =~= seq!['m', 'j', 's']);
    assert(lang_of_extension(seq!['m', 'j', 's']) == Some(Language::JavaScript));
    lemma_path_extension(q, seq!['m', 'j', 's']);
    reveal_strlit("cjs");
    assert("cjs"@ =~= seq!['c', 'j', 's']);
    assert(lang_of_extension(seq!['c', 'j', 's']) == Some(Language::JavaScript));
    lemma_path_extension(q, seq!['c', 'j', 's']);
    reveal_strlit("ts");
    assert("ts"@ =~= seq!['t', 's']);
    assert(lang_of_extension(seq!['t', 's']) == Some(Language::TypeScript));
    lemma_path_extension(q, seq!['t', 's']);
}
#[verifier::spinoff_prover]
#[verifier::rlimit(50)]
proof fn lemma_extensions_7(q: Seq<char>)
    ensures
        lang_of_path(q + seq!['.'] + seq!['t', 's', 'x']) == Some(Language::TypeScript),
        lang_of_path(q + seq!['.'] + seq!['c', 's']) == Some(Language::CSharp),
        lang_of_path(q + seq!['.'] + seq!['s', 'w', 'i', 'f', 't']) == Some(Language::Swift),
        lang_of_path(q + seq!['.'] + seq!['s', 'c', 'a', 'l', 'a']) == Some(Language::Scala),
{
    reveal_strlit("astro");
    reveal_strlit("bash");
    reveal_strlit("c");
    reveal_strlit("cc");
    reveal_strlit("cjs");
    reveal_strlit("cpp");
    reveal_strlit("cs");
    reveal_strlit("cxx");
    reveal_strlit("dart");
    reveal_strlit("dpr");
    reveal_strlit("f03");
    reveal_strlit("f08");
    reveal_strlit("f90");
    reveal_strlit("f95");
    reveal_strlit("go");
    reveal_strlit("gradle");
    reveal_strlit("groovy");
    reveal_strlit("h");
    reveal_strlit("hcl");
    reveal_strlit("hh");
    reveal_strlit("hpp");
    reveal_strlit("hxx");
    reveal_strlit("java");
    reveal_strlit("js");
    reveal_strlit("jsx");
    reveal_strlit("kt");
    reveal_strlit("kts");
    reveal_strlit("lua");
    reveal_strlit("luau");
    reveal_strlit("m");
    reveal_strlit("mjs");
    reveal_strlit("mm");
    reveal_strlit("pas");
    reveal_strlit("php");
    reveal_strlit("ps1");
    reveal_strlit("psm1");
    reveal_strlit("py");
    reveal_strlit("pyi");
    reveal_strlit("rb");
    reveal_strlit("rs");
    reveal_strlit("scala");
    reveal_strlit("sh");
    reveal_strlit("sol");
    reveal_strlit("sql");
    reveal_strlit("svelte");
    reveal_strlit("swift");
    reveal_strlit("tf");
    reveal_strlit("tfvars");
    reveal_strlit("ts");
    reveal_strlit("tsx");
    reveal_strlit("tsx");
    assert("tsx"@ =~= seq!['t', 's', 'x']);
    assert(lang_of_extension(seq!['t', 's', 'x']) == Some(Language::TypeScript));
    lemma_path_extension(q, seq!['t', 's', 'x']);
    reveal_strlit("cs");
    assert("cs"@ =~= seq!['c', 's']);
    assert(lang_of_extension(seq!['c', 's']) == Some(Language::CSharp));
    lemma_path_extension(q, seq!['c', 's']);
    reveal_strlit("swift");
    assert("swift"@ =~= seq!['s', 'w', 'i', 'f', 't']);
    assert(lang_of_extension(seq!['s', 'w', 'i', 'f', 't']) == Some(Language::Swift));
    lemma_path_extension(q, seq!['s', 'w', 'i', 'f', 't']);
    reveal_strlit("scala");
    assert("scala"@ =~= seq!['s', 'c', 'a', 'l', 'a']);
    assert(lang_of_extension(seq!['s', 'c', 'a', 'l', 'a']) == Some(Language::Scala));
    lemma_path_extension(q, seq!['s', 'c', 'a', 'l', 'a']);
}
#[verifier::spinoff_prover]
#[verifier::rlimit(50)]
proof fn lemma_extensions_8(q: Seq<char>)
    ensures
        lang_of_path(q + seq!['.'] + seq!['s', 'q', 'l']) == Some(Language::Sql),
        lang_of_path(q + seq!['.'] + seq!['d', 'a', 'r', 't']) == Some(Language::Dart),
        lang_of_path(q + seq!['.'] + seq!['l', 'u', 'a']) == Some(Language::Lua),
        lang_of_path(q + seq!['.'] + seq!['l', 'u', 'a', 'u']) == Some(Language::Luau),
{
    reveal_strlit("astro");
    reveal_strlit("bash");
    reveal_strlit("c");
    reveal_strlit("cc");
    reveal_strlit("cjs");
    reveal_strlit("cpp");
    reveal_strlit("cs");
    reveal_strlit("cxx");
    reveal_strlit("dart");
    reveal_strlit("dpr");
    reveal_strlit("f03");
    reveal_strlit("f08");
    reveal_strlit("f90");
    reveal_strlit("f95");
    reveal_strlit("go");
    reveal_strlit("gradle");
    reveal_strlit("groovy");
    reveal_strlit("h");
    reveal_strlit("hcl");
    reveal_strlit("hh");
    reveal_strlit("hpp");
    reveal_strlit("hxx");
    reveal_strlit("java");
    reveal_strlit("js");
    reveal_strlit("jsx");
    reveal_strlit("kt");
    reveal_strlit("kts");
    reveal_strlit("lua");
    reveal_strlit("luau");
    reveal_strlit("m");
    reveal_strlit("mjs");
    reveal_strlit("mm");
    reveal_strlit("pas");
    reveal_strlit("php");
    reveal_strlit("ps1");
    reveal_strlit("psm1");
    reveal_strlit("py");
    reveal_strlit("pyi");
    reveal_strlit("rb");
    reveal_strlit("rs");
    reveal_strlit("scala");
    reveal_strlit("sh");
    reveal_strlit("sol");
    reveal_strlit("sql");
    reveal_strlit("svelte");
    reveal_strlit("swift");
    reveal_strlit("tf");
    reveal_strlit("tfvars");
    reveal_strlit("ts");
    reveal_strlit("tsx");
    reveal_strlit("sql");
    assert("sql"@ =~= seq!['s', 'q', 'l']);
    assert(lang_of_extension(seq!['s', 'q', 'l']) == Some(Language::Sql));
    lemma_path_extension(q, seq!['s', 'q', 'l']);
    reveal_strlit("dart");
    assert("dart"@ =~= seq!['d', 'a', 'r', 't']);
    assert(lang_of_extension(seq!['d', 'a', 'r', 't']) == Some(Language::Dart));
    lemma_path_extension(q, seq!['d', 'a', 'r', 't']);
    reveal_strlit("lua");
    assert("lua"@ =~= seq!['l', 'u', 'a']);
    assert(lang_of_extension(seq!['l', 'u', 'a']) == Some(Language::Lua));
    lemma_path_extension(q, seq!['l', 'u', 'a']);
    reveal_strlit("luau");
    assert("luau"@ =~= seq!['l', 'u', 'a', 'u']);
    assert(lang_of_extension(seq!['l', 'u', 'a', 'u']) == Some(Language::Luau));
    lemma_path_extension(q, seq!['l', 'u', 'a', 'u']);
}
#[verifier::spinoff_prover]
#[verifier::rlimit(50)]
proof fn lemma_extensions_9(q: Seq<char>)
    ensures
        lang_of_path(q + seq!['.'] + seq!['p', 'a', 's']) == Some(Language::Pascal),
        lang_of_path(q + seq!['.'] + seq!['d', 'p', 'r']) == Some(Language::Pascal),
        lang_of_path(q + seq!['.'] + seq!['s', 'v', 'e', 'l', 't', 'e']) == Some(Language::Svelte),
        lang_of_path(q + seq!['.'] + seq!['p', 's', '1']) == Some(Language::PowerShell),
{
    reveal_strlit("astro");
    reveal_strlit("bash");
    reveal_strlit("c");
    reveal_strlit("cc");
    reveal_strlit("cjs");
    reveal_strlit("cpp");
    reveal_strlit("cs");
    reveal_strlit("cxx");
    reveal_strlit("dart");
    reveal_strlit("dpr");
    reveal_strlit("f03");
    reveal_strlit("f08");
    reveal_strlit("f90");
    reveal_strlit("f95");
    reveal_strlit("go");
    reveal_strlit("gradle");
    reveal_strlit("groovy");
    reveal_strlit("h");
    reveal_strlit("hcl");
    reveal_strlit("hh");
    reveal_strlit("hpp");
    reveal_strlit("hxx");
    reveal_strlit("java");
    reveal_strlit("js");
    reveal_strlit("jsx");
    reveal_strlit("kt");
    reveal_strlit("kts");
    reveal_strlit("lua");
    reveal_strlit("luau");
    reveal_strlit("m");
    reveal_strlit("mjs");
    reveal_strlit("mm");
    reveal_strlit("pas");
    reveal_strlit("php");
    reveal_strlit("ps1");
    reveal_strlit("psm1");
    reveal_strlit("py");
    reveal_strlit("pyi");
    reveal_strlit("rb");
    reveal_strlit("rs");
    reveal_strlit("scala");
    reveal_strlit("sh");
    reveal_strlit("sol");
    reveal_strlit("sql");
    reveal_strlit("svelte");
    reveal_strlit("swift");
    reveal_strlit("tf");
    reveal_strlit("tfvars");
    reveal_strlit("ts");
    reveal_strlit("tsx");
    reveal_strlit("pas");
    assert("pas"@ =~= seq!['p', 'a', 's']);
    assert(lang_of_extension(seq!['p', 'a', 's']) == Some(Language::Pascal));
    lemma_path_extension(q, seq!['p', 'a', 's']);
    reveal_strlit("dpr");
    assert("dpr"@ =~= seq!['d', 'p', 'r']);
    assert(lang_of_extension(seq!['d', 'p', 'r']) == Some(Language::Pascal));
    lemma_path_extension(q, seq!['d', 'p', 'r']);
    reveal_strlit("svelte");
    assert("svelte"@ =~= seq!['s', 'v', 'e', 'l', 't', 'e']);
    assert(lang_of_extension(seq!['s', 'v', 'e', 'l', 't', 'e']) == Some(Language::Svelte));
    lemma_path_extension(q, seq!['s', 'v', 'e', 'l', 't', 'e']);
    reveal_strlit("ps1");
    assert("ps1"@ =~= seq!['p', 's', '1']);
    assert(lang_of_extension(seq!['p', 's', '1']) == Some(Language::PowerShell));
    lemma_path_extension(q, seq!['p', 's', '1']);
}
#[verifier::spinoff_prover]
#[verifier::rlimit(50)]
proof fn lemma_extensions_10(q: Seq<char>)
    ensures
        lang_of_path(q + seq!['.'] + seq!['p', 's', 'm', '1']) == Some(Language::PowerShell),
        lang_of_path(q + seq!['.'] + seq!['a', 's', 't', 'r', 'o']) == Some(Language::Astro),
        lang_of_path(q + seq!['.'] + seq!['f', '9', '0']) == Some(Language::Fortran),
        lang_of_path(q + seq!['.'] + seq!['f', '9', '5']) == Some(Language::Fortran),
{
    reveal_strlit("astro");
    reveal_strlit("bash");
    reveal_strlit("c");
    reveal_strlit("cc");
    reveal_strlit("cjs");
    reveal_strlit("cpp");
    reveal_strlit("cs");
    reveal_strlit("cxx");
    reveal_strlit("dart");
    reveal_strlit("dpr");
    reveal_strlit("f03");
    reveal_strlit("f08");
    reveal_strlit("f90");
    reveal_strlit("f95");
    reveal_strlit("go");
    reveal_strlit("gradle");
    reveal_strlit("groovy");
    reveal_strlit("h");
    reveal_strlit("hcl");
    reveal_strlit("hh");
    reveal_strlit("hpp");
    reveal_strlit("hxx");
    reveal_strlit("java");
    reveal_strlit("js");
    reveal_strlit("jsx");
    reveal_strlit("kt");
    reveal_strlit("kts");
    reveal_strlit("lua");
    reveal_strlit("luau");
    reveal_strlit("m");
    reveal_strlit("mjs");
    reveal_strlit("mm");
    reveal_strlit("pas");
    reveal_strlit("php");
    reveal_strlit("ps1");
    reveal_strlit("psm1");
    reveal_strlit("py");
    reveal_strlit("pyi");
    reveal_strlit("rb");
    reveal_strlit("rs");
    reveal_strlit("scala");
    reveal_strlit("sh");
    reveal_strlit("sol");
    reveal_strlit("sql");
    reveal_strlit("svelte");
    reveal_strlit("swift");
    reveal_strlit("tf");
    reveal_strlit("tfvars");
    reveal_strlit("ts");
    reveal_strlit("tsx");
    reveal_strlit("psm1");
    assert("psm1"@ =~= seq!['p', 's', 'm', '1']);
    assert(lang_of_extension(seq!['p', 's', 'm', '1']) == Some(Language::PowerShell));
    lemma_path_extension(q, seq!['p', 's', 'm', '1']);
    reveal_strlit("astro");
    assert("astro"@ =~= seq!['a', 's', 't', 'r', 'o']);
    assert(lang_of_extension(seq!['a', 's', 't', 'r', 'o']) == Some(Language::Astro));
    lemma_path_extension(q, seq!['a', 's', 't', 'r', 'o']);
    reveal_strlit("f90");
    assert("f90"@ =~= seq!['f', '9', '0']);
    assert(lang_of_extension(seq!['f', '9', '0']) == Some(Language::Fortran));
    lemma_path_extension(q, seq!['f', '9', '0']);
    reveal_strlit("f95");
    assert("f95"@ =~= seq!['f', '9', '5']);
    assert(lang_of_extension(seq!['f', '9', '5']) == Some(Language::Fortran));
    lemma_path_extension(q, seq!['f', '9', '5']);
}
#[verifier::spinoff_prover]
#[verifier::rlimit(50)]
proof fn lemma_extensions_11(q: Seq<char>)
    ensures
        lang_of_path(q + seq!['.'] + seq!['f', '0', '3']) == Some(Language::Fortran),
        lang_of_path(q + seq!['.'] + seq!['f', '0', '8']) == Some(Language::Fortran),
        lang_of_path(q + seq!['.'] + seq!['g', 'r', 'o', 'o', 'v', 'y']) == Some(Language::Groovy),
        lang_of_path(q + seq!['.'] + seq!['g', 'r', 'a', 'd', 'l', 'e']) == Some(Language::Groovy),
{
    reveal_strlit("astro");
    reveal_strlit("bash");
    reveal_strlit("c");
    reveal_strlit("cc");
    reveal_strlit("cjs");
    reveal_strlit("cpp");
    reveal_strlit("cs");
    reveal_strlit("cxx");
    reveal_strlit("dart");
    reveal_strlit("dpr");
    reveal_strlit("f03");
    reveal_strlit("f08");
    reveal_strlit("f90");
    reveal_strlit("f95");
    reveal_strlit("go");
    reveal_strlit("gradle");
    reveal_strlit("groovy");
    reveal_strlit("h");
    reveal_strlit("hcl");
    reveal_strlit("hh");
    reveal_strlit("hpp");
    reveal_strlit("hxx");
    reveal_strlit("java");
    reveal_strlit("js");
    reveal_strlit("jsx");
    reveal_strlit("kt");
    reveal_strlit("kts");
    reveal_strlit("lua");
    reveal_strlit("luau");
    reveal_strlit("m");
    reveal_strlit("mjs");
    reveal_strlit("mm");
    reveal_strlit("pas");
    reveal_strlit("php");
    reveal_strlit("ps1");
    reveal_strlit("psm1");
    reveal_strlit("py");
    reveal_strlit("pyi");
    reveal_strlit("rb");
    reveal_strlit("rs");
    reveal_strlit("scala");
    reveal_strlit("sh");
    reveal_strlit("sol");
    reveal_strlit("sql");
    reveal_strlit("svelte");
    reveal_strlit("swift");
    reveal_strlit("tf");
    reveal_strlit("tfvars");
    reveal_strlit("ts");
    reveal_strlit("tsx");
    reveal_strlit("f03");
    assert("f03"@ =~= seq!['f', '0', '3']);
    assert(lang_of_extension(seq!['f', '0', '3']) == Some(Language::Fortran));
    lemma_path_extension(q, seq!['f', '0', '3']);
    reveal_strlit("f08");
    assert("f08"@ =~= seq!['f', '0', '8']);
    assert(lang_of_extension(seq!['f', '0', '8']) == Some(Language::Fortran));
    lemma_path_extension(q, seq!['f', '0', '8']);
    reveal_strlit("groovy");
    assert("groovy"@ =~= seq!['g', 'r', 'o', 'o', 'v', 'y']);
    assert(lang_of_extension(seq!['g', 'r', 'o', 'o', 'v', 'y']) == Some(Language::Groovy));
    lemma_path_extension(q, seq!['g', 'r', 'o', 'o', 'v', 'y']);
    reveal_strlit("gradle");
    assert("gradle"@ =~= seq!['g', 'r', 'a', 'd', 'l', 'e']);
    assert(lang_of_extension(seq!['g', 'r', 'a', 'd', 'l', 'e']) == Some(Language::Groovy));
    lemma_path_extension(q, seq!['g', 'r', 'a', 'd', 'l', 'e']);
}
#[verifier::spinoff_prover]
#[verifier::rlimit(50)]
proof fn lemma_extensions_12(q: Seq<char>)
    ensures
        lang_of_path(q + seq!['.'] + seq!['m']) == Some(Language::ObjC),
        lang_of_path(q + seq!['.'] + seq!['m', 'm']) == Some(Language::ObjC),
{
    reveal_strlit("astro");
    reveal_strlit("bash");
    reveal_strlit("c");
    reveal_strlit("cc");
    reveal_strlit("cjs");
    reveal_strlit("cpp");
    reveal_strlit("cs");
    reveal_strlit("cxx");
    reveal_strlit("dart");
    reveal_strlit("dpr");
    reveal_strlit("f03");
    reveal_strlit("f08");
    reveal_strlit("f90");
    reveal_strlit("f95");
    reveal_strlit("go");
    reveal_strlit("gradle");
    reveal_strlit("groovy");
    reveal_strlit("h");
    reveal_strlit("hcl");
    reveal_strlit("hh");
    reveal_strlit("hpp");
    reveal_strlit("hxx");
    reveal_strlit("java");
    reveal_strlit("js");
    reveal_strlit("jsx");
    reveal_strlit("kt");
    reveal_strlit("kts");
    reveal_strlit("lua");
    reveal_strlit("luau");
    reveal_strlit("m");
    reveal_strlit("mjs");
    reveal_strlit("mm");
    reveal_strlit("pas");
    reveal_strlit("php");
    reveal_strlit("ps1");
    reveal_strlit("psm1");
    reveal_strlit("py");
    reveal_strlit("pyi");
    reveal_strlit("rb");
    reveal_strlit("rs");
    reveal_strlit("scala");
    reveal_strlit("sh");
    reveal_strlit("sol");
    reveal_strlit("sql");
    reveal_strlit("svelte");
    reveal_strlit("swift");
    reveal_strlit("tf");
    reveal_strlit("tfvars");
    reveal_strlit("ts");
    reveal_strlit("tsx");
    reveal_strlit("m");
    assert("m"@ =~= seq!['m']);
    assert(lang_of_extension(seq!['m']) == Some(Language::ObjC));
    lemma_path_extension(q, seq!['m']);
    reveal_strlit("mm");
    assert("mm"@ =~= seq!['m', 'm']);
    assert(lang_of_extension(seq!['m', 'm']) == Some(Language::ObjC));
    lemma_path_extension(q, seq!['m', 'm']);
}

/// Law: a file's language is decided by the extension of its name,
/// whatever directories and stem come before it: `.rs` is Rust; `.py`,
/// `.pyi` Python; `.go` Go; `.java` Java; `.kt`, `.kts` Kotlin; `.sol`
/// Solidity; `.c`, `.h` C; `.cpp`, `.cc`, `.cxx`, `.hpp`, `.hh`, `.hxx` C++;
/// `.php` PHP; `.rb` Ruby; `.sh`, `.bash` shell; `.tf`, `.hcl`, `.tfvars`
/// HCL; `.js`, `.jsx`, `.mjs`, `.cjs` JavaScript; `.ts`, `.tsx`
/// TypeScript; `.cs` C#; `.swift` Swift; `.scala` Scala; `.sql` SQL;
/// `.dart` Dart; `.lua` Lua; `.luau` Luau; `.pas`, `.dpr` Pascal; `.svelte`
/// Svelte; `.ps1`, `.psm1` PowerShell; `.astro` Astro; `.f90`, `.f95`,
/// `.f03`, `.f08` Fortran; `.groovy`, `.gradle` Groovy; `.m`, `.mm`
/// Objective-C.
pub proof fn law_extension_decides_language(q: Seq<char>)
    ensures
        lang_of_path(q + seq!['.'] + seq!['r', 's']) == Some(Language::Rust),
        lang_of_path(q + seq!['.'] + seq!['p', 'y']) == Some(Language::Python),
        lang_of_path(q + seq!['.'] + seq!['p', 'y', 'i']) == Some(Language::Python),
        lang_of_path(q + seq!['.'] + seq!['g', 'o']) == Some(Language::Go),
        lang_of_path(q + seq!['.'] + seq!['j', 'a', 'v', 'a']) == Some(Language::Java),
        lang_of_path(q + seq!['.'] + seq!['k', 't']) == Some(Language::Kotlin),
        lang_of_path(q + seq!['.'] + seq!['k', 't', 's']) == Some(Language::Kotlin),
        lang_of_path(q + seq!['.'] + seq!['s', 'o', 'l']) == Some(Language::Solidity),
        lang_of_path(q + seq!['.'] + seq!['c']) == Some(Language::C),
        lang_of_path(q + seq!['.'] + seq!['h']) == Some(Language::C),
        lang_of_path(q + seq!['.'] + seq!['c', 'p', 'p']) == Some(Language::Cpp),
        lang_of_path(q + seq!['.'] + seq!['c', 'c']) == Some(Language::Cpp),
        lang_of_path(q + seq!['.'] + seq!['c', 'x', 'x']) == Some(Language::Cpp),
        lang_of_path(q + seq!['.'] + seq!['h', 'p', 'p']) == Some(Language::Cpp),
        lang_of_path(q + seq!['.'] + seq!['h', 'h']) == Some(Language::Cpp),
        lang_of_path(q + seq!['.'] + seq!['h', 'x', 'x']) == Some(Language::Cpp),
        lang_of_path(q + seq!['.'] + seq!['p', 'h', 'p']) == Some(Language::Php),
        lang_of_path(q + seq!['.'] + seq!['r', 'b']) == Some(Language::Ruby),
        lang_of_path(q + seq!['.'] + seq!['s', 'h']) == Some(Language::Shell),
        lang_of_path(q + seq!['.'] + seq!['b', 'a', 's', 'h']) == Some(Language::Shell),
        lang_of_path(q + seq!['.'] + seq!['t', 'f']) == Some(Language::Hcl),
        lang_of_path(q + seq!['.'] + seq!['h', 'c', 'l']) == Some(Language::Hcl),
        lang_of_path(q + seq!['.'] + seq!['t', 'f', 'v', 'a', 'r', 's']) == Some(Language::Hcl),
        lang_of_path(q + seq!['.'] + seq!['j', 's']) == Some(Language::JavaScript),
        lang_of_path(q + seq!['.'] + seq!['j', 's', 'x']) == Some(Language::JavaScript),
        lang_of_path(q + seq!['.'] + seq!['m', 'j', 's']) == Some(Language::JavaScript),
        lang_of_path(q + seq!['.'] + seq!['c', 'j', 's']) == Some(Language::JavaScript),
        lang_of_path(q + seq!['.'] + seq!['t', 's']) == Some(Language::TypeScript),
        lang_of_path(q + seq!['.'] + seq!['t', 's', 'x']) == Some(Language::TypeScript),
        lang_of_path(q + seq!['.'] + seq!['c', 's']) == Some(Language::CSharp),
        lang_of_path(q + seq!['.'] + seq!['s', 'w', 'i', 'f', 't']) == Some(Language::Swift),
        lang_of_path(q + seq!['.'] + seq!['s', 'c', 'a', 'l', 'a']) == Some(Language::Scala),
        lang_of_path(q + seq!['.'] + seq!['s', 'q', 'l']) == Some(Language::Sql),
        lang_of_path(q + seq!['.'] + seq!['d', 'a', 'r', 't']) == Some(Language::Dart),
        lang_of_path(q + seq!['.'] + seq!['l', 'u', 'a']) == Some(Language::Lua),
        lang_of_path(q + seq!['.'] + seq!['l', 'u', 'a', 'u']) == Some(Language::Luau),
        lang_of_path(q + seq!['.'] + seq!['p', 'a', 's']) == Some(Language::Pascal),
        lang_of_path(q + seq!['.'] + seq!['d', 'p', 'r']) == Some(Language::Pascal),
        lang_of_path(q + seq!['.'] + seq!['s', 'v', 'e', 'l', 't', 'e']) == Some(Language::Svelte),
        lang_of_path(q + seq!['.'] + seq!['p', 's', '1']) == Some(Language::PowerShell),
        lang_of_path(q + seq!['.'] + seq!['p', 's', 'm', '1']) == Some(Language::PowerShell),
        lang_of_path(q + seq!['.'] + seq!['a', 's', 't', 'r', 'o']) == Some(Language::Astro),
        lang_of_path(q + seq!['.'] + seq!['f', '9', '0']) == Some(Language::Fortran),
        lang_of_path(q + seq!['.'] + seq!['f', '9', '5']) == Some(Language::Fortran),
        lang_of_path(q + seq!['.'] + seq!['f', '0', '3']) == Some(Language::Fortran),
        lang_of_path(q + seq!['.'] + seq!['f', '0', '8']) == Some(Language::Fortran),
        lang_of_path(q + seq!['.'] + seq!['g', 'r', 'o', 'o', 'v', 'y']) == Some(Language::Groovy),
        lang_of_path(q + seq!['.'] + seq!['g', 'r', 'a', 'd', 'l', 'e']) == Some(Language::Groovy),
        lang_of_path(q + seq!['.'] + seq!['m']) == Some(Language::ObjC),
        lang_of_path(q + seq!['.'] + seq!['m', 'm']) == Some(Language::ObjC),
{
    lemma_extensions_0(q);
    lemma_extensions_1(q);
    lemma_extensions_2(q);
    lemma_extensions_3(q);
    lemma_extensions_4(q);
    lemma_extensions_5(q);
    lemma_extensions_6(q);
    lemma_extensions_7(q);
    lemma_extensions_8(q);
    lemma_extensions_9(q);
    lemma_extensions_10(q);
    lemma_extensions_11(q);
    lemma_extensions_12(q);
}

} // verus!
