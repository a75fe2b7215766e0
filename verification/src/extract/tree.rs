//! A syntax tree held as plain values: the pre-order node records read from
//! tree-sitter, linked into parent / first-child / next-sibling arrays, with
//! the source bytes the byte ranges point into.

use vstd::prelude::*;
use vstd::utf8::*;
use vstd::slice::*;
use super::ts::{Grammar, ParsedSource, RawNode, node_at, node_count, ts_node, ts_node_count};
use crate::text::{chars_of, chars_eq};

verus! {

/// A syntax tree. Node 0 is the root; every child and later sibling has a
/// larger index than the node it hangs from.
pub struct SyntaxTree {
    pub nodes: Vec<RawNode>,
    pub parent: Vec<usize>,
    pub first_child: Vec<Option<usize>>,
    pub next_sibling: Vec<Option<usize>>,
    pub bytes: Vec<u8>,
}

/// The text a byte range spells: its UTF-8 decoding, or empty when the range
/// is not valid UTF-8.
pub open spec fn decode_range(bytes: Seq<u8>, start: int, end: int) -> Seq<char> {
    let b = bytes.subrange(start, end);
    if valid_utf8(b) {
        decode_utf8(b)
    } else {
        Seq::empty()
    }
}

impl SyntaxTree {
    pub open spec fn size(&self) -> int {
        self.nodes.len() as int
    }

    /// Well-formedness: arrays of one length, links pointing forward, byte
    /// ranges inside the source.
    pub open spec fn wf(&self) -> bool {
        &&& self.nodes.len() >= 1
        &&& self.parent.len() == self.nodes.len()
        &&& self.first_child.len() == self.nodes.len()
        &&& self.next_sibling.len() == self.nodes.len()
        &&& forall|i: int|
            0 <= i < self.size() ==> (#[trigger] self.first_child@[i] matches Some(c) ==> i < c
                < self.size())
        &&& forall|i: int|
            0 <= i < self.size() ==> (#[trigger] self.next_sibling@[i] matches Some(c) ==> i < c
                < self.size())
        &&& forall|i: int|
            0 <= i < self.size() ==> #[trigger] self.nodes@[i].start <= self.nodes@[i].end
                <= self.bytes.len()
        &&& forall|i: int| 0 < i < self.size() ==> #[trigger] self.parent@[i] < i
    }

    /// Links agree with parents and every node lies inside its parent: a
    /// first child hangs from the node it is the first child of, a next
    /// sibling from the same parent, and each node's byte range lies inside
    /// its parent's.
    pub open spec fn nested(&self) -> bool {
        &&& forall|i: int|
            0 <= i < self.size() ==> (#[trigger] self.first_child@[i] matches Some(c) ==> self.parent@[c as int] == i)
        &&& forall|i: int|
            0 <= i < self.size() ==> (#[trigger] self.next_sibling@[i] matches Some(c) ==> self.parent@[c as int]
                == self.parent@[i])
        &&& forall|i: int|
            0 < i < self.size() ==> self.nodes@[#[trigger] self.parent@[i] as int].start <= self.nodes@[i].start
                && self.nodes@[i].end <= self.nodes@[self.parent@[i] as int].end
    }

    /// The sibling chain starting at node `c`.
    pub open spec fn chain_from(&self, c: int) -> Seq<usize>
        decreases self.size() - c,
    {
        if c < 0 || c >= self.size() {
            Seq::empty()
        } else {
            match self.next_sibling@[c] {
                Some(n) => if c < n < self.size() {
                    seq![c as usize] + self.chain_from(n as int)
                } else {
                    seq![c as usize]
                },
                None => seq![c as usize],
            }
        }
    }

    /// The children of node `i`, in source order.
    pub open spec fn children_of(&self, i: int) -> Seq<usize> {
        match self.first_child@[i] {
            Some(c) => self.chain_from(c as int),
            None => Seq::empty(),
        }
    }

    /// The text of node `i`.
    pub open spec fn text_of(&self, i: int) -> Seq<char> {
        decode_range(self.bytes@, self.nodes@[i].start as int, self.nodes@[i].end as int)
    }

    pub open spec fn kind_of(&self, i: int) -> Seq<char> {
        self.nodes@[i].kind@
    }

    pub open spec fn field_of(&self, i: int) -> Option<Seq<char>> {
        super::ts::opt_view(self.nodes@[i].field)
    }

    /// The first of `cs` that hangs from its parent under field `f`.
    pub open spec fn first_with_field(&self, cs: Seq<usize>, f: Seq<char>) -> Option<usize>
        decreases cs.len(),
    {
        if cs.len() == 0 {
            None
        } else if self.field_of(cs[0] as int) == Some(f) {
            Some(cs[0])
        } else {
            self.first_with_field(cs.skip(1), f)
        }
    }

    /// The first child of `i` under field `f`.
    pub open spec fn field_child_of(&self, i: int, f: Seq<char>) -> Option<usize> {
        self.first_with_field(self.children_of(i), f)
    }

    /// The first of `cs` whose kind is `k`.
    pub open spec fn first_of_kind(&self, cs: Seq<usize>, k: Seq<char>) -> Option<usize>
        decreases cs.len(),
    {
        if cs.len() == 0 {
            None
        } else if self.kind_of(cs[0] as int) == k {
            Some(cs[0])
        } else {
            self.first_of_kind(cs.skip(1), k)
        }
    }

    /// The first child of `i` whose kind is `k`.
    pub open spec fn kind_child_of(&self, i: int, k: Seq<char>) -> Option<usize> {
        self.first_of_kind(self.children_of(i), k)
    }

    pub proof fn lemma_chain_bounds(&self, c: int)
        requires
            self.wf(),
        ensures
            forall|k: int|
                0 <= k < self.chain_from(c).len() ==> c <= #[trigger] self.chain_from(c)[k]
                    < self.size(),
        decreases self.size() - c,
    {
        if 0 <= c < self.size() {
            match self.next_sibling@[c] {
                Some(n) => {
                    if c < n < self.size() {
                        self.lemma_chain_bounds(n as int);
                        assert forall|k: int|
                            0 <= k < self.chain_from(c).len() implies c <= #[trigger] self.chain_from(
                            c,
                        )[k] < self.size() by {
                            if k > 0 {
                                assert(self.chain_from(c)[k] == self.chain_from(n as int)[k - 1]);
                            }
                        }
                    }
                },
                None => {},
            }
        }
    }

    pub proof fn lemma_children_bounds(&self, i: int)
        requires
            self.wf(),
            0 <= i < self.size(),
        ensures
            forall|k: int|
                0 <= k < self.children_of(i).len() ==> i < #[trigger] self.children_of(i)[k]
                    < self.size(),
    {
        match self.first_child@[i] {
            Some(c) => {
                self.lemma_chain_bounds(c as int);
            },
            None => {},
        }
    }

    /// Every node of the sibling chain from `c` hangs from the parent of `c`.
    pub proof fn lemma_chain_parent(&self, c: int)
        requires
            self.wf(),
            self.nested(),
            0 <= c < self.size(),
        ensures
            forall|k: int|
                0 <= k < self.chain_from(c).len() ==> self.parent@[#[trigger] self.chain_from(c)[k] as int]
                    == self.parent@[c],
        decreases self.size() - c,
    {
        match self.next_sibling@[c] {
            Some(n) => {
                if c < n < self.size() {
                    self.lemma_chain_parent(n as int);
                    assert forall|k: int|
                        0 <= k < self.chain_from(c).len() implies self.parent@[#[trigger] self.chain_from(c)[k] as int]
                        == self.parent@[c] by {
                        if k > 0 {
                            assert(self.chain_from(c)[k] == self.chain_from(n as int)[k - 1]);
                        }
                    }
                }
            },
            None => {},
        }
    }

    /// Every child of node `i` hangs from `i` and lies inside it.
    pub proof fn lemma_children_inside(&self, i: int)
        requires
            self.wf(),
            self.nested(),
            0 <= i < self.size(),
        ensures
            forall|k: int|
                0 <= k < self.children_of(i).len() ==> {
                    let c = #[trigger] self.children_of(i)[k] as int;
                    &&& self.parent@[c] == i
                    &&& self.nodes@[i].start <= self.nodes@[c].start
                    &&& self.nodes@[c].end <= self.nodes@[i].end
                },
    {
        self.lemma_children_bounds(i);
        match self.first_child@[i] {
            Some(c) => {
                self.lemma_chain_parent(c as int);
                assert forall|k: int| 0 <= k < self.children_of(i).len() implies {
                    let d = #[trigger] self.children_of(i)[k] as int;
                    &&& self.parent@[d] == i
                    &&& self.nodes@[i].start <= self.nodes@[d].start
                    &&& self.nodes@[d].end <= self.nodes@[i].end
                } by {
                    let d = self.children_of(i)[k] as int;
                    assert(self.parent@[d] == self.parent@[c as int]);
                    assert(0 < d);
                }
            },
            None => {},
        }
    }

    /// The first node of `cs` under field `f` is one of `cs`.
    pub proof fn lemma_first_with_field_in(&self, cs: Seq<usize>, f: Seq<char>)
        ensures
            self.first_with_field(cs, f) matches Some(c) ==> cs.contains(c),
        decreases cs.len(),
    {
        if cs.len() > 0 && self.field_of(cs[0] as int) != Some(f) {
            self.lemma_first_with_field_in(cs.skip(1), f);
            match self.first_with_field(cs.skip(1), f) {
                Some(c) => {
                    let k = choose|k: int| 0 <= k < cs.skip(1).len() && cs.skip(1)[k] == c;
                    assert(cs[k + 1] == c);
                },
                None => {},
            }
        } else if cs.len() > 0 {
            assert(cs[0] == cs[0]);
        }
    }

    /// The children of node `i`, in source order.
    pub fn children(&self, i: usize) -> (r: Vec<usize>)
        requires
            self.wf(),
            i < self.size(),
        ensures
            r@ == self.children_of(i as int),
            forall|k: int| 0 <= k < r.len() ==> i < #[trigger] r@[k] < self.size(),
    {
        proof {
            self.lemma_children_bounds(i as int);
        }
        let mut out: Vec<usize> = Vec::new();
        let mut cur = self.first_child[i];
        loop
            invariant
                self.wf(),
                i < self.size(),
                cur matches Some(c) ==> i < c < self.size(),
                out@ + (match cur {
                    Some(c) => self.chain_from(c as int),
                    None => Seq::empty(),
                }) == self.children_of(i as int),
            ensures
                out@ == self.children_of(i as int),
            decreases (match cur {
                Some(c) => self.size() - c,
                None => 0,
            }),
        {
            match cur {
                Some(c) => {
                    let nxt = self.next_sibling[c];
                    let ghost rest = self.chain_from(c as int);
                    match nxt {
                        Some(n) => {
                            assert(rest == seq![c] + self.chain_from(n as int));
                        },
                        None => {
                            assert(rest == seq![c]);
                        },
                    }
                    assert(out@.push(c) + (match nxt {
                        Some(n) => self.chain_from(n as int),
                        None => Seq::<usize>::empty(),
                    }) =~= out@ + rest);
                    out.push(c);
                    cur = nxt;
                },
                None => {
                    assert(out@ + Seq::<usize>::empty() =~= out@);
                    break ;
                },
            }
        }
        out
    }

    /// Whether node `i` has kind `k`.
    pub fn is_kind(&self, i: usize, k: &str) -> (r: bool)
        requires
            i < self.size(),
        ensures
            r == (self.kind_of(i as int) == k@),
    {
        let cs = chars_of(self.nodes[i].kind.as_str());
        chars_eq(&cs, k)
    }

    /// Whether node `i` hangs from its parent under field `f`.
    pub fn has_field(&self, i: usize, f: &str) -> (r: bool)
        requires
            i < self.size(),
        ensures
            r == (self.field_of(i as int) == Some(f@)),
    {
        match &self.nodes[i].field {
            Some(name) => {
                let cs = chars_of(name.as_str());
                chars_eq(&cs, f)
            },
            None => false,
        }
    }

    /// The first child of `i` under field `f`.
    pub fn field_child(&self, i: usize, f: &str) -> (r: Option<usize>)
        requires
            self.wf(),
            i < self.size(),
        ensures
            r matches Some(c) ==> self.children_of(i as int).contains(c) && i < c < self.size()
                && self.field_of(c as int) == Some(f@),
            r is None ==> forall|k: int|
                0 <= k < self.children_of(i as int).len() ==> self.field_of(
                    #[trigger] self.children_of(i as int)[k] as int,
                ) != Some(f@),
            r == self.field_child_of(i as int, f@),
    {
        let ch = self.children(i);
        let mut k: usize = 0;
        assert(ch@.skip(0) =~= ch@);
        while k < ch.len()
            invariant
                self.wf(),
                i < self.size(),
                ch@ == self.children_of(i as int),
                forall|j: int| 0 <= j < ch.len() ==> i < #[trigger] ch@[j] < self.size(),
                k <= ch.len(),
                forall|j: int| 0 <= j < k ==> self.field_of(#[trigger] ch@[j] as int) != Some(f@),
                self.first_with_field(ch@.skip(k as int), f@) == self.field_child_of(i as int, f@),
            decreases ch.len() - k,
        {
            assert(ch@.skip(k as int)[0] == ch@[k as int]);
            if self.has_field(ch[k], f) {
                assert(ch@[k as int] == ch@[k as int]);
                return Some(ch[k]);
            }
            assert(ch@.skip(k as int).skip(1) =~= ch@.skip(k + 1));
            k = k + 1;
        }
        None
    }

    /// The first child of `i` whose kind is `kind`.
    pub fn child_of_kind(&self, i: usize, kind: &str) -> (r: Option<usize>)
        requires
            self.wf(),
            i < self.size(),
        ensures
            r matches Some(c) ==> self.children_of(i as int).contains(c) && i < c < self.size()
                && self.kind_of(c as int) == kind@,
            r is None ==> forall|k: int|
                0 <= k < self.children_of(i as int).len() ==> self.kind_of(
                    #[trigger] self.children_of(i as int)[k] as int,
                ) != kind@,
            r == self.kind_child_of(i as int, kind@),
    {
        let ch = self.children(i);
        let mut k: usize = 0;
        assert(ch@.skip(0) =~= ch@);
        while k < ch.len()
            invariant
                self.wf(),
                i < self.size(),
                ch@ == self.children_of(i as int),
                forall|j: int| 0 <= j < ch.len() ==> i < #[trigger] ch@[j] < self.size(),
                k <= ch.len(),
                forall|j: int| 0 <= j < k ==> self.kind_of(#[trigger] ch@[j] as int) != kind@,
                self.first_of_kind(ch@.skip(k as int), kind@) == self.kind_child_of(i as int, kind@),
            decreases ch.len() - k,
        {
            assert(ch@.skip(k as int)[0] == ch@[k as int]);
            if self.is_kind(ch[k], kind) {
                return Some(ch[k]);
            }
            assert(ch@.skip(k as int).skip(1) =~= ch@.skip(k + 1));
            k = k + 1;
        }
        None
    }

    /// The text the source bytes `start..end` spell (empty when not valid
    /// UTF-8).
    pub fn text_range(&self, start: usize, end: usize) -> (r: String)
        requires
            start <= end <= self.bytes.len(),
        ensures
            r@ == decode_range(self.bytes@, start as int, end as int),
    {
        let b = slice_subrange(self.bytes.as_slice(), start, end);
        match core::str::from_utf8(b) {
            Ok(t) => t.to_owned(),
            Err(_) => String::new(),
        }
    }

    /// The text node `i` spans.
    pub fn text(&self, i: usize) -> (r: String)
        requires
            self.wf(),
            i < self.size(),
        ensures
            r@ == self.text_of(i as int),
    {
        let s = self.nodes[i].start;
        let e = self.nodes[i].end;
        let b = slice_subrange(self.bytes.as_slice(), s, e);
        match core::str::from_utf8(b) {
            Ok(t) => t.to_owned(),
            Err(_) => String::new(),
        }
    }
}

/// Whether the pre-order node records grammar `g` reads from `text` describe
/// a tree over a source of `len` bytes: at least one node, the first at depth
/// 0, every later one at least one deeper than the root and at most one
/// deeper than the node before it, every byte range inside the source and
/// inside the range of the record it hangs from.
pub open spec fn records_form_tree(g: Grammar, text: Seq<char>, len: int) -> bool {
    &&& ts_node_count(g, text) > 0
    &&& ts_node(g, text, 0).depth == 0
    &&& forall|i: int| 0 <= i < ts_node_count(g, text) ==> #[trigger] node_fits(g, text, i, len)
    &&& forall|i: int| 0 < i < ts_node_count(g, text) ==> #[trigger] depth_steps(g, text, i)
    &&& forall|i: int, j: int|
        0 < i < ts_node_count(g, text) && #[trigger] hangs_from(g, text, i, j) ==> range_inside(g, text, i, j)
}

/// Record `i` hangs from record `j`: `j` comes earlier, one level up, and
/// every record between them is at least as deep as `i`.
pub open spec fn hangs_from(g: Grammar, text: Seq<char>, i: int, j: int) -> bool {
    &&& 0 <= j < i
    &&& ts_node(g, text, j).depth + 1 == ts_node(g, text, i).depth
    &&& forall|k: int| j < k < i ==> ts_node(g, text, i).depth <= #[trigger] ts_node(g, text, k).depth
}

/// The byte range of record `i` lies inside that of record `j`.
pub open spec fn range_inside(g: Grammar, text: Seq<char>, i: int, j: int) -> bool {
    ts_node(g, text, j).start <= ts_node(g, text, i).start && ts_node(g, text, i).end <= ts_node(g, text, j).end
}

/// The byte range of record `i` lies inside a source of `len` bytes.
pub open spec fn node_fits(g: Grammar, text: Seq<char>, i: int, len: int) -> bool {
    ts_node(g, text, i).start <= ts_node(g, text, i).end <= len
}

/// Record `i` lies below the root and at most one level deeper than the
/// record before it.
pub open spec fn depth_steps(g: Grammar, text: Seq<char>, i: int) -> bool {
    1 <= ts_node(g, text, i).depth <= ts_node(g, text, i - 1).depth + 1
}

/// Read every node of a parsed source and link them into a tree. `None` when
/// the node records do not describe a tree over `source` (a first node that
/// is not at depth 0, a depth that jumps by more than one, a byte range
/// outside the source or outside its parent's).
pub fn build_tree(p: &ParsedSource, source: &str) -> (r: Option<SyntaxTree>)
    requires
        p.text() == source@,
    ensures
        r is Some <==> records_form_tree(p.grammar(), p.text(), encode_utf8(source@).len() as int),
        r matches Some(t) ==> {
            &&& t.wf()
            &&& t.nested()
            &&& t.bytes@ == encode_utf8(source@)
            &&& t.size() == ts_node_count(p.grammar(), p.text())
            &&& forall|i: int| 0 <= i < t.size() ==> #[trigger] t.nodes@[i]@ == ts_node(
                p.grammar(),
                p.text(),
                i,
            )
        },
{
    let n = node_count(p);
    let bytes = slice_to_vec(source.as_bytes());
    let mut nodes: Vec<RawNode> = Vec::new();
    let mut parent: Vec<usize> = Vec::new();
    let mut first_child: Vec<Option<usize>> = Vec::new();
    let mut next_sibling: Vec<Option<usize>> = Vec::new();
    let mut last_child: Vec<Option<usize>> = Vec::new();
    let mut stack: Vec<usize> = Vec::new();
    let mut i: usize = 0;
    while i < n
        invariant
            n == ts_node_count(p.grammar(), p.text()),
            i <= n,
            bytes@ == encode_utf8(source@),
            nodes.len() == i,
            parent.len() == i,
            first_child.len() == i,
            next_sibling.len() == i,
            last_child.len() == i,
            i > 0 ==> stack.len() >= 1,
            forall|k: int| 0 <= k < stack.len() ==> #[trigger] stack@[k] < i,
            forall|j: int| 0 <= j < i ==> (#[trigger] first_child@[j] matches Some(c) ==> j < c < i),
            forall|j: int| 0 <= j < i ==> (#[trigger] next_sibling@[j] matches Some(c) ==> j < c < i),
            forall|j: int| 0 <= j < i ==> (#[trigger] last_child@[j] matches Some(c) ==> j < c < i),
            forall|j: int| 0 <= j < i ==> #[trigger] nodes@[j].start <= nodes@[j].end <= bytes.len(),
            forall|j: int| 0 < j < i ==> #[trigger] parent@[j] < j,
            forall|j: int| 0 <= j < i ==> #[trigger] nodes@[j]@ == ts_node(p.grammar(), p.text(), j),
            i > 0 ==> ts_node(p.grammar(), p.text(), 0).depth == 0,
            i > 0 ==> stack.len() == ts_node(p.grammar(), p.text(), i - 1).depth + 1,
            i == 0 ==> stack.len() == 0,
            forall|j: int| 0 < j < i ==> #[trigger] depth_steps(p.grammar(), p.text(), j),
            forall|k: int| 0 <= k < stack.len() ==> ts_node(p.grammar(), p.text(), #[trigger] stack@[k] as int).depth == k,
            forall|k: int, m: int|
                0 <= k < stack.len() && #[trigger] stack@[k] < m < i ==> k < #[trigger] ts_node(p.grammar(), p.text(), m).depth,
            forall|j: int| 0 < j < i ==> #[trigger] hangs_from(p.grammar(), p.text(), j, parent@[j] as int),
            forall|j: int, jj: int|
                0 < j < i && #[trigger] hangs_from(p.grammar(), p.text(), j, jj) ==> range_inside(p.grammar(), p.text(), j, jj),
            forall|j: int| 0 <= j < i ==> (#[trigger] first_child@[j] matches Some(c) ==> parent@[c as int] == j),
            forall|j: int| 0 <= j < i ==> (#[trigger] next_sibling@[j] matches Some(c) ==> parent@[c as int] == parent@[j]),
            forall|j: int| 0 <= j < i ==> (#[trigger] last_child@[j] matches Some(c) ==> parent@[c as int] == j),
            forall|j: int|
                0 < j < i ==> nodes@[#[trigger] parent@[j] as int].start <= nodes@[j].start && nodes@[j].end
                    <= nodes@[parent@[j] as int].end,
        decreases n - i,
    {
        let rec = node_at(p, i);
        if !(rec.start <= rec.end && rec.end <= bytes.len()) {
            proof {
                let g = p.grammar();
                let tx = p.text();
                assert(rec@ == ts_node(g, tx, i as int));
                assert(bytes.len() == encode_utf8(source@).len());
                assert(!node_fits(g, tx, i as int, encode_utf8(source@).len() as int));
            }
            return None;
        }
        let par: usize;
        if i == 0 {
            if rec.depth != 0 {
                return None;
            }
            par = 0;
        } else {
            let d = rec.depth;
            if d < 1 || d > stack.len() {
                proof {
                    assert(rec@ == ts_node(p.grammar(), p.text(), i as int));
                    assert(!depth_steps(p.grammar(), p.text(), i as int));
                }
                return None;
            }
            while stack.len() > d
                invariant
                    d >= 1,
                    stack.len() >= d,
                    d == rec.depth,
                    forall|k: int| 0 <= k < stack.len() ==> #[trigger] stack@[k] < i,
                    forall|k: int| 0 <= k < stack.len() ==> ts_node(p.grammar(), p.text(), #[trigger] stack@[k] as int).depth == k,
                    forall|k: int, m: int|
                        0 <= k < stack.len() && #[trigger] stack@[k] < m < i ==> k < #[trigger] ts_node(p.grammar(), p.text(), m).depth,
                decreases stack.len(),
            {
                stack.pop();
            }
            par = stack[d - 1];
            proof {
                let g = p.grammar();
                let tx = p.text();
                assert(rec@ == ts_node(g, tx, i as int));
                assert(ts_node(g, tx, par as int).depth == d - 1);
                assert forall|k: int| par < k < i implies ts_node(g, tx, i as int).depth <= #[trigger] ts_node(g, tx, k).depth by {
                    assert(stack@[d - 1] == par);
                }
                assert(hangs_from(g, tx, i as int, par as int));
            }
            if !(nodes[par].start <= rec.start && rec.end <= nodes[par].end) {
                proof {
                    let g = p.grammar();
                    let tx = p.text();
                    assert(nodes@[par as int]@ == ts_node(g, tx, par as int));
                    assert(!range_inside(g, tx, i as int, par as int));
                }
                return None;
            }
            proof {
                let g = p.grammar();
                let tx = p.text();
                assert(nodes@[par as int]@ == ts_node(g, tx, par as int));
                assert forall|jj: int| #[trigger] hangs_from(g, tx, i as int, jj) implies range_inside(g, tx, i as int, jj) by {
                    if jj < par {
                        assert(ts_node(g, tx, i as int).depth <= ts_node(g, tx, par as int).depth);
                    } else if jj > par {
                        assert(stack@[d - 1] == par);
                        assert(d - 1 < ts_node(g, tx, jj).depth);
                    }
                }
            }
            match last_child[par] {
                Some(lc) => {
                    next_sibling.set(lc, Some(i));
                },
                None => {
                    first_child.set(par, Some(i));
                },
            }
            last_child.set(par, Some(i));
        }
        nodes.push(rec);
        parent.push(par);
        first_child.push(None);
        next_sibling.push(None);
        last_child.push(None);
        stack.push(i);
        i = i + 1;
    }
    if n == 0 {
        return None;
    }
    proof {
        let g = p.grammar();
        let tx = p.text();
        assert forall|j: int| 0 <= j < n implies #[trigger] node_fits(g, tx, j, encode_utf8(source@).len() as int) by {
            assert(nodes@[j]@ == ts_node(g, tx, j));
        }
    }
    let t = SyntaxTree { nodes, parent, first_child, next_sibling, bytes };
    assert(t.nodes.len() >= 1);
    assert(forall|j: int| 0 <= j < t.size() ==> (#[trigger] t.first_child@[j] matches Some(c) ==> j < c < t.size()));
    assert(forall|j: int| 0 <= j < t.size() ==> (#[trigger] t.next_sibling@[j] matches Some(c) ==> j < c < t.size()));
    assert(forall|j: int| 0 <= j < t.size() ==> #[trigger] t.nodes@[j].start <= t.nodes@[j].end <= t.bytes.len());
    assert(t.wf());
    Some(t)
}

} // verus!
