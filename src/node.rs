use vstd::prelude::*;
use crate::error::{DecodeError, ErrorKind};

verus! {

/// An untyped document tree: scalars, sequences and mappings with string
/// keys. A mapping keeps its entries in document order, repeated keys
/// included, so that the decoder can reject them.
#[derive(Debug)]
pub enum Node {
    Null,
    Bool(bool),
    Int(i64),
    Str(String),
    Sequence(Vec<Node>),
    Mapping(Vec<(String, Node)>),
}

/// Some entry of the mapping `es` has key `k`.
pub open spec fn has_key(es: Seq<(String, Node)>, k: Seq<char>) -> bool {
    exists|i: int| 0 <= i < es.len() && (#[trigger] es[i]).0@ == k
}

/// No key occurs twice.
pub open spec fn keys_unique(es: Seq<(String, Node)>) -> bool {
    forall|i: int, j: int| 0 <= i < j < es.len() ==> (#[trigger] es[i]).0@ != (#[trigger] es[j]).0@
}

/// The value under key `k`, if there is one (keys being unique).
pub open spec fn field(es: Seq<(String, Node)>, k: Seq<char>) -> Option<Node> {
    if has_key(es, k) {
        Some(es[choose|i: int| 0 <= i < es.len() && (#[trigger] es[i]).0@ == k].1)
    } else {
        None
    }
}

/// `es` without the entry under key `k`.
pub open spec fn without(es: Seq<(String, Node)>, k: Seq<char>) -> Seq<(String, Node)> {
    es.filter(key_differs(k))
}

pub open spec fn key_differs(k: Seq<char>) -> spec_fn((String, Node)) -> bool {
    |e: (String, Node)| e.0@ != k
}

/// Whether two strings hold the same characters.
pub fn str_eq(a: &str, b: &str) -> (r: bool)
    ensures
        r == (a@ == b@),
{
    let x = crate::ident::chars_of(a);
    let y = crate::ident::chars_of(b);
    if x.len() != y.len() {
        return false;
    }
    let mut i: usize = 0;
    while i < x.len()
        invariant
            x@ == a@,
            y@ == b@,
            x@.len() == y@.len(),
            i <= x@.len(),
            forall|j: int| 0 <= j < i ==> x@[j] == y@[j],
        decreases x@.len() - i,
    {
        if x[i] != y[i] {
            return false;
        }
        i = i + 1;
    }
    assert(x@ =~= y@);
    true
}

/// The position of the first key that repeats an earlier one, if any.
pub fn find_duplicate(es: &Vec<(String, Node)>) -> (r: Option<usize>)
    ensures
        r is None <==> keys_unique(es@),
        r matches Some(j) ==> j < es@.len() && exists|i: int| 0 <= i < j && es@[i].0@ == es@[j as int].0@,
{
    let mut j: usize = 0;
    while j < es.len()
        invariant
            j <= es@.len(),
            forall|a: int, b: int| 0 <= a < b < j ==> (#[trigger] es@[a]).0@ != (#[trigger] es@[b]).0@,
        decreases es@.len() - j,
    {
        let mut i: usize = 0;
        while i < j
            invariant
                i <= j < es@.len(),
                forall|a: int| 0 <= a < i ==> (#[trigger] es@[a]).0@ != es@[j as int].0@,
            decreases j - i,
        {
            if str_eq(es[i].0.as_str(), es[j].0.as_str()) {
                return Some(j);
            }
            i = i + 1;
        }
        j = j + 1;
    }
    None
}

pub proof fn lemma_field_at(es: Seq<(String, Node)>, k: Seq<char>, i: int)
    requires
        keys_unique(es),
        0 <= i < es.len(),
        es[i].0@ == k,
    ensures
        field(es, k) == Some(es[i].1),
{
    let c = choose|c: int| 0 <= c < es.len() && (#[trigger] es[c]).0@ == k;
    assert(0 <= c < es.len() && es[c].0@ == k);
    if c < i {
        assert(es[c].0@ != es[i].0@);
    } else if i < c {
        assert(es[i].0@ != es[c].0@);
    }
}

proof fn lemma_remove_is_without(es: Seq<(String, Node)>, k: Seq<char>, i: int)
    requires
        keys_unique(es),
        0 <= i < es.len(),
        es[i].0@ == k,
    ensures
        es.remove(i) == without(es, k),
        keys_unique(es.remove(i)),
    decreases es.len(),
{
    reveal_with_fuel(Seq::filter, 1);
    let last = es.len() - 1;
    if i == last {
        assert(es.drop_last() == es.remove(i));
        lemma_none_without(es.drop_last(), k);
        assert(es.filter(key_differs(k)) == es.drop_last().filter(key_differs(k)));
    } else {
        assert(keys_unique(es.drop_last()));
        lemma_remove_is_without(es.drop_last(), k, i);
        assert(es.remove(i) =~= es.drop_last().remove(i).push(es.last()));
        assert(es.last().0@ != k);
    }
}

proof fn lemma_none_without(es: Seq<(String, Node)>, k: Seq<char>)
    requires
        !has_key(es, k),
    ensures
        without(es, k) == es,
    decreases es.len(),
{
    reveal_with_fuel(Seq::filter, 1);
    if es.len() > 0 {
        assert(!has_key(es.drop_last(), k)) by {
            if has_key(es.drop_last(), k) {
                let i = choose|i: int| 0 <= i < es.drop_last().len() && (#[trigger] es.drop_last()[i]).0@ == k;
                assert(es[i].0@ == k);
            }
        }
        lemma_none_without(es.drop_last(), k);
        assert(es.last().0@ != k) by {
            if es.last().0@ == k {
                assert(es[es.len() - 1].0@ == k);
            }
        }
        assert(es.drop_last().push(es.last()) =~= es);
    } else {
        assert(es.filter(key_differs(k)) =~= es);
    }
}

/// Removes the entry under key `k` from a mapping with unique keys, and
/// returns its value.
pub fn take_field(es: &mut Vec<(String, Node)>, k: &str) -> (r: Option<Node>)
    requires
        keys_unique(old(es)@),
    ensures
        r == field(old(es)@, k@),
        final(es)@ == without(old(es)@, k@),
        keys_unique(final(es)@),
{
    let mut i: usize = 0;
    while i < es.len()
        invariant
            i <= es@.len(),
            *es == *old(es),
            keys_unique(es@),
            forall|a: int| 0 <= a < i ==> (#[trigger] es@[a]).0@ != k@,
        decreases es@.len() - i,
    {
        if str_eq(es[i].0.as_str(), k) {
            proof {
                lemma_field_at(es@, k@, i as int);
                lemma_remove_is_without(es@, k@, i as int);
            }
            let (_, v) = es.remove(i);
            return Some(v);
        }
        i = i + 1;
    }
    proof {
        lemma_none_without(es@, k@);
    }
    None
}

pub open spec fn deref(o: Option<&Node>) -> Option<Node> {
    match o {
        Some(n) => Some(*n),
        None => None,
    }
}

/// The value under key `k` in a mapping with unique keys.
pub fn get_field<'a>(es: &'a Vec<(String, Node)>, k: &str) -> (r: Option<&'a Node>)
    requires
        keys_unique(es@),
    ensures
        deref(r) == field(es@, k@),
{
    let mut i: usize = 0;
    while i < es.len()
        invariant
            i <= es@.len(),
            keys_unique(es@),
            forall|a: int| 0 <= a < i ==> (#[trigger] es@[a]).0@ != k@,
        decreases es@.len() - i,
    {
        if str_eq(es[i].0.as_str(), k) {
            proof { lemma_field_at(es@, k@, i as int); }
            return Some(&es[i].1);
        }
        i = i + 1;
    }
    None
}

/// `k` is one of `names`.
pub open spec fn is_known(names: Seq<&str>, k: Seq<char>) -> bool {
    exists|i: int| 0 <= i < names.len() && (#[trigger] names[i])@ == k
}

/// Some entry has a key outside `names`.
pub open spec fn has_unknown(es: Seq<(String, Node)>, names: Seq<&str>) -> bool {
    exists|i: int| 0 <= i < es.len() && !is_known(names, (#[trigger] es[i]).0@)
}

/// The position of the first entry whose key is not among `names`.
pub fn find_unknown(es: &Vec<(String, Node)>, names: &[&str]) -> (r: Option<usize>)
    ensures
        r is None <==> !has_unknown(es@, names@),
        r matches Some(j) ==> j < es@.len() && !is_known(names@, es@[j as int].0@),
{
    let mut j: usize = 0;
    while j < es.len()
        invariant
            j <= es@.len(),
            forall|a: int| 0 <= a < j ==> is_known(names@, (#[trigger] es@[a]).0@),
        decreases es@.len() - j,
    {
        let mut i: usize = 0;
        let mut found = false;
        while i < names.len()
            invariant
                i <= names@.len(),
                j < es@.len(),
                found ==> is_known(names@, es@[j as int].0@),
                !found ==> forall|a: int| 0 <= a < i ==> (#[trigger] names@[a])@ != es@[j as int].0@,
            decreases names@.len() - i,
        {
            if !found && str_eq(names[i], es[j].0.as_str()) {
                found = true;
            }
            i = i + 1;
        }
        if !found {
            assert(!is_known(names@, es@[j as int].0@)) by {
                if is_known(names@, es@[j as int].0@) {
                    let a = choose|a: int| 0 <= a < names@.len() && (#[trigger] names@[a])@ == es@[j as int].0@;
                    assert(names@[a]@ != es@[j as int].0@);
                }
            }
            return Some(j);
        }
        j = j + 1;
    }
    None
}

/// Removing the entry under one key leaves the value under another key as
/// it was.
pub proof fn lemma_field_without(es: Seq<(String, Node)>, k1: Seq<char>, k2: Seq<char>)
    requires
        keys_unique(es),
        keys_unique(without(es, k1)),
        k1 != k2,
    ensures
        field(without(es, k1), k2) == field(es, k2),
{
    let pred = key_differs(k1);
    let w = without(es, k1);
    if has_key(es, k2) {
        let i = choose|i: int| 0 <= i < es.len() && (#[trigger] es[i]).0@ == k2;
        lemma_field_at(es, k2, i);
        es.lemma_filter_contains(pred, i);
        assert(w.contains(es[i]));
        let j = choose|j: int| 0 <= j < w.len() && w[j] == es[i];
        lemma_field_at(w, k2, j);
    } else {
        if has_key(w, k2) {
            let j = choose|j: int| 0 <= j < w.len() && (#[trigger] w[j]).0@ == k2;
            assert(w.contains(w[j]));
            es.lemma_filter_contains_rev(pred, w[j]);
            let i = choose|i: int| 0 <= i < es.len() && es[i] == w[j];
            assert(es[i].0@ == k2);
        }
    }
}

/// Appending an entry under another key leaves the value under `k` as it was.
pub proof fn lemma_field_push(es: Seq<(String, Node)>, e: (String, Node), k: Seq<char>)
    requires
        keys_unique(es.push(e)),
        e.0@ != k,
    ensures
        field(es.push(e), k) == field(es, k),
        keys_unique(es),
{
    let t = es.push(e);
    assert forall|i: int, j: int| 0 <= i < j < es.len() implies (#[trigger] es[i]).0@ != (#[trigger] es[j]).0@ by {
        assert(t[i] == es[i] && t[j] == es[j]);
    }
    if has_key(es, k) {
        let i = choose|i: int| 0 <= i < es.len() && (#[trigger] es[i]).0@ == k;
        lemma_field_at(es, k, i);
        assert(t[i] == es[i]);
        lemma_field_at(t, k, i);
    } else if has_key(t, k) {
        let i = choose|i: int| 0 <= i < t.len() && (#[trigger] t[i]).0@ == k;
        if i < es.len() {
            assert(t[i] == es[i]);
        }
    }
}

/// The error for a node of the wrong shape under `key`.
pub fn shape_error(key: &str) -> (r: DecodeError)
    ensures
        r.kind == ErrorKind::ShapeMismatch,
        r.subject@ == key@,
{
    DecodeError::new(ErrorKind::ShapeMismatch, key.to_string())
}

} // verus!
