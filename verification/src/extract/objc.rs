//! Objective-C: the walk over a syntax tree that turns superclasses,
//! adopted protocols and generic type arguments of class interfaces and
//! implementations, and the protocols a protocol declaration extends, into
//! `IsImplementation` references. The tree comes from an Objective-C
//! grammar; the walk itself only reads it.

use vstd::prelude::*;
use crate::graph::{RefRole, Reference};
use super::tree::SyntaxTree;
use super::support::{RefItem, refs_grow, refs_items, lemma_refs_grow_none, lemma_refs_grow_trans, push_ref_item};

verus! {

/// The references the children `cs` of a `parameterized_arguments` node
/// make: for each `type_name`, its first `type_identifier` child.
pub open spec fn objc_type_args(t: SyntaxTree, cs: Seq<usize>) -> Seq<RefItem>
    decreases cs.len(),
{
    if cs.len() == 0 {
        Seq::empty()
    } else {
        let c = cs.last();
        objc_type_args(t, cs.drop_last()) + if t.kind_of(c as int) == "type_name"@ {
            match t.kind_child_of(c as int, "type_identifier"@) {
                Some(id) => seq![(id as int, t.text_of(id as int), RefRole::IsImplementation)],
                None => Seq::empty(),
            }
        } else {
            Seq::empty()
        }
    }
}

/// The references the `parameterized_arguments` among `cs` make.
pub open spec fn objc_param_args(t: SyntaxTree, cs: Seq<usize>) -> Seq<RefItem>
    decreases cs.len(),
{
    if cs.len() == 0 {
        Seq::empty()
    } else {
        let c = cs.last();
        objc_param_args(t, cs.drop_last()) + if t.kind_of(c as int) == "parameterized_arguments"@ {
            objc_type_args(t, t.children_of(c as int))
        } else {
            Seq::empty()
        }
    }
}

/// The references the `identifier` nodes among `cs` make.
pub open spec fn objc_protocol_ids(t: SyntaxTree, cs: Seq<usize>) -> Seq<RefItem>
    decreases cs.len(),
{
    if cs.len() == 0 {
        Seq::empty()
    } else {
        let c = cs.last();
        objc_protocol_ids(t, cs.drop_last()) + if t.kind_of(c as int) == "identifier"@ {
            seq![(c as int, t.text_of(c as int), RefRole::IsImplementation)]
        } else {
            Seq::empty()
        }
    }
}

/// The references the `protocol_reference_list` nodes among `cs` make.
pub open spec fn objc_protocol_lists(t: SyntaxTree, cs: Seq<usize>) -> Seq<RefItem>
    decreases cs.len(),
{
    if cs.len() == 0 {
        Seq::empty()
    } else {
        let c = cs.last();
        objc_protocol_lists(t, cs.drop_last()) + if t.kind_of(c as int) == "protocol_reference_list"@ {
            objc_protocol_ids(t, t.children_of(c as int))
        } else {
            Seq::empty()
        }
    }
}

/// The references node `i` makes: a class interface or implementation its
/// `superclass`, then its generic type arguments; a protocol declaration the
/// protocols it lists.
pub open spec fn objc_inherits_at(t: SyntaxTree, i: int) -> Seq<RefItem> {
    let k = t.kind_of(i);
    if k == "class_interface"@ || k == "class_implementation"@ {
        (match t.field_child_of(i, "superclass"@) {
            Some(s) => seq![(s as int, t.text_of(s as int), RefRole::IsImplementation)],
            None => Seq::empty(),
        }) + objc_param_args(t, t.children_of(i))
    } else if k == "protocol_declaration"@ {
        objc_protocol_lists(t, t.children_of(i))
    } else {
        Seq::empty()
    }
}

/// The references nodes `0..n` make, in pre-order.
pub open spec fn objc_inherits_upto(t: SyntaxTree, n: int) -> Seq<RefItem>
    decreases n,
{
    if n <= 0 {
        Seq::empty()
    } else {
        objc_inherits_upto(t, n - 1) + objc_inherits_at(t, n - 1)
    }
}

/// The references of the `type_name` children of node `args`.
fn type_args(t: &SyntaxTree, args: usize, file: &str, out: &mut Vec<Reference>)
    requires
        t.wf(),
        args < t.size(),
    ensures
        refs_grow(*t, file@, old(out)@, final(out)@, objc_type_args(*t, t.children_of(args as int))),
{
    let ch = t.children(args);
    let mut k: usize = 0;
    assert(ch@.take(0) =~= Seq::<usize>::empty());
    proof {
        lemma_refs_grow_none(*t, file@, out@);
    }
    while k < ch.len()
        invariant
            t.wf(),
            k <= ch.len(),
            ch@ == t.children_of(args as int),
            forall|j: int| 0 <= j < ch.len() ==> #[trigger] ch@[j] < t.size(),
            refs_grow(*t, file@, old(out)@, out@, objc_type_args(*t, ch@.take(k as int))),
        decreases ch.len() - k,
    {
        let c = ch[k];
        let ghost mid = out@;
        proof {
            assert(ch@.take(k + 1).drop_last() =~= ch@.take(k as int));
            assert(ch@.take(k + 1).last() == c);
            lemma_refs_grow_none(*t, file@, mid);
        }
        if t.is_kind(c, "type_name") {
            match t.child_of_kind(c, "type_identifier") {
                Some(id) => push_ref_item(out, t.text(id), t, id, file, RefRole::IsImplementation),
                None => {},
            }
        }
        proof {
            let prev = objc_type_args(*t, ch@.take(k as int));
            let step = objc_type_args(*t, ch@.take(k + 1)).skip(prev.len() as int);
            assert(objc_type_args(*t, ch@.take(k + 1)) =~= prev + step);
            lemma_refs_grow_trans(*t, file@, old(out)@, mid, out@, prev, step);
        }
        k = k + 1;
    }
    assert(ch@.take(ch.len() as int) =~= ch@);
}

/// The references of the `parameterized_arguments` children of node `n`.
fn param_args(t: &SyntaxTree, n: usize, file: &str, out: &mut Vec<Reference>)
    requires
        t.wf(),
        n < t.size(),
    ensures
        refs_grow(*t, file@, old(out)@, final(out)@, objc_param_args(*t, t.children_of(n as int))),
{
    let ch = t.children(n);
    let mut k: usize = 0;
    assert(ch@.take(0) =~= Seq::<usize>::empty());
    proof {
        lemma_refs_grow_none(*t, file@, out@);
    }
    while k < ch.len()
        invariant
            t.wf(),
            k <= ch.len(),
            ch@ == t.children_of(n as int),
            forall|j: int| 0 <= j < ch.len() ==> #[trigger] ch@[j] < t.size(),
            refs_grow(*t, file@, old(out)@, out@, objc_param_args(*t, ch@.take(k as int))),
        decreases ch.len() - k,
    {
        let c = ch[k];
        let ghost mid = out@;
        proof {
            assert(ch@.take(k + 1).drop_last() =~= ch@.take(k as int));
            assert(ch@.take(k + 1).last() == c);
            lemma_refs_grow_none(*t, file@, mid);
        }
        if t.is_kind(c, "parameterized_arguments") {
            type_args(t, c, file, out);
        }
        proof {
            let prev = objc_param_args(*t, ch@.take(k as int));
            let step = objc_param_args(*t, ch@.take(k + 1)).skip(prev.len() as int);
            assert(objc_param_args(*t, ch@.take(k + 1)) =~= prev + step);
            lemma_refs_grow_trans(*t, file@, old(out)@, mid, out@, prev, step);
        }
        k = k + 1;
    }
    assert(ch@.take(ch.len() as int) =~= ch@);
}

/// The references of the `identifier` children of node `list`.
fn protocol_ids(t: &SyntaxTree, list: usize, file: &str, out: &mut Vec<Reference>)
    requires
        t.wf(),
        list < t.size(),
    ensures
        refs_grow(*t, file@, old(out)@, final(out)@, objc_protocol_ids(*t, t.children_of(list as int))),
{
    let ch = t.children(list);
    let mut k: usize = 0;
    assert(ch@.take(0) =~= Seq::<usize>::empty());
    proof {
        lemma_refs_grow_none(*t, file@, out@);
    }
    while k < ch.len()
        invariant
            t.wf(),
            k <= ch.len(),
            ch@ == t.children_of(list as int),
            forall|j: int| 0 <= j < ch.len() ==> #[trigger] ch@[j] < t.size(),
            refs_grow(*t, file@, old(out)@, out@, objc_protocol_ids(*t, ch@.take(k as int))),
        decreases ch.len() - k,
    {
        let c = ch[k];
        let ghost mid = out@;
        proof {
            assert(ch@.take(k + 1).drop_last() =~= ch@.take(k as int));
            assert(ch@.take(k + 1).last() == c);
            lemma_refs_grow_none(*t, file@, mid);
        }
        if t.is_kind(c, "identifier") {
            push_ref_item(out, t.text(c), t, c, file, RefRole::IsImplementation);
        }
        proof {
            let prev = objc_protocol_ids(*t, ch@.take(k as int));
            let step = objc_protocol_ids(*t, ch@.take(k + 1)).skip(prev.len() as int);
            assert(objc_protocol_ids(*t, ch@.take(k + 1)) =~= prev + step);
            lemma_refs_grow_trans(*t, file@, old(out)@, mid, out@, prev, step);
        }
        k = k + 1;
    }
    assert(ch@.take(ch.len() as int) =~= ch@);
}

/// The references of the `protocol_reference_list` children of node `n`.
fn protocol_lists(t: &SyntaxTree, n: usize, file: &str, out: &mut Vec<Reference>)
    requires
        t.wf(),
        n < t.size(),
    ensures
        refs_grow(*t, file@, old(out)@, final(out)@, objc_protocol_lists(*t, t.children_of(n as int))),
{
    let ch = t.children(n);
    let mut k: usize = 0;
    assert(ch@.take(0) =~= Seq::<usize>::empty());
    proof {
        lemma_refs_grow_none(*t, file@, out@);
    }
    while k < ch.len()
        invariant
            t.wf(),
            k <= ch.len(),
            ch@ == t.children_of(n as int),
            forall|j: int| 0 <= j < ch.len() ==> #[trigger] ch@[j] < t.size(),
            refs_grow(*t, file@, old(out)@, out@, objc_protocol_lists(*t, ch@.take(k as int))),
        decreases ch.len() - k,
    {
        let c = ch[k];
        let ghost mid = out@;
        proof {
            assert(ch@.take(k + 1).drop_last() =~= ch@.take(k as int));
            assert(ch@.take(k + 1).last() == c);
            lemma_refs_grow_none(*t, file@, mid);
        }
        if t.is_kind(c, "protocol_reference_list") {
            protocol_ids(t, c, file, out);
        }
        proof {
            let prev = objc_protocol_lists(*t, ch@.take(k as int));
            let step = objc_protocol_lists(*t, ch@.take(k + 1)).skip(prev.len() as int);
            assert(objc_protocol_lists(*t, ch@.take(k + 1)) =~= prev + step);
            lemma_refs_grow_trans(*t, file@, old(out)@, mid, out@, prev, step);
        }
        k = k + 1;
    }
    assert(ch@.take(ch.len() as int) =~= ch@);
}

/// The `IsImplementation` references of an Objective-C file, in pre-order:
/// for each class interface or implementation, its superclass, then the
/// first type identifier of each type name among its generic type
/// arguments; for each protocol declaration, the protocols its reference
/// lists name.
pub fn objc_inheritance(t: &SyntaxTree, file: &str) -> (r: Vec<Reference>)
    requires
        t.wf(),
    ensures
        refs_items(*t, file@, objc_inherits_upto(*t, t.size()), r@),
{
    let mut out: Vec<Reference> = Vec::new();
    let mut i: usize = 0;
    proof {
        lemma_refs_grow_none(*t, file@, out@);
    }
    while i < t.nodes.len()
        invariant
            t.wf(),
            i <= t.nodes.len(),
            refs_grow(*t, file@, Seq::empty(), out@, objc_inherits_upto(*t, i as int)),
        decreases t.nodes.len() - i,
    {
        let ghost before = out@;
        proof {
            lemma_refs_grow_none(*t, file@, before);
        }
        if t.is_kind(i, "class_interface") || t.is_kind(i, "class_implementation") {
            match t.field_child(i, "superclass") {
                Some(s) => push_ref_item(&mut out, t.text(s), t, s, file, RefRole::IsImplementation),
                None => {},
            }
            let ghost mid = out@;
            param_args(t, i, file, &mut out);
            proof {
                let sup = match t.field_child_of(i as int, "superclass"@) {
                    Some(s) => seq![(s as int, t.text_of(s as int), RefRole::IsImplementation)],
                    None => Seq::<RefItem>::empty(),
                };
                if sup.len() == 0 {
                    lemma_refs_grow_none(*t, file@, before);
                    assert(mid == before);
                }
                lemma_refs_grow_trans(*t, file@, before, mid, out@, sup, objc_param_args(*t, t.children_of(i as int)));
            }
        } else if t.is_kind(i, "protocol_declaration") {
            protocol_lists(t, i, file, &mut out);
        }
        proof {
            assert(objc_inherits_upto(*t, i + 1) == objc_inherits_upto(*t, i as int) + objc_inherits_at(*t, i as int));
            lemma_refs_grow_trans(
                *t,
                file@,
                Seq::empty(),
                before,
                out@,
                objc_inherits_upto(*t, i as int),
                objc_inherits_at(*t, i as int),
            );
        }
        i = i + 1;
    }
    assert(out@.skip(0) =~= out@);
    out
}

} // verus!
