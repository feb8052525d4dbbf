use vstd::prelude::*;
use crate::error::{DecodeError, ErrorKind};
use crate::text::{bool_string, bool_text, int_string, int_text};
use crate::node::{deref, find_duplicate, keys_unique, shape_error, Node};

verus! {

pub open spec fn opt_view(o: Option<String>) -> Option<Seq<char>> {
    match o {
        Some(s) => Some(s@),
        None => None,
    }
}

/// An optional text field: absent or null is `None`; a wrong shape is `None`
/// on the outside.
pub open spec fn text_of(n: Option<Node>) -> Option<Option<Seq<char>>> {
    match n {
        None => Some(None),
        Some(Node::Null) => Some(None),
        Some(x) => match scalar_text(x) {
            Some(t) => Some(Some(t)),
            None => None,
        },
    }
}

/// The text of a scalar: a string as it is, an integer in decimal, a
/// boolean as `true` or `false`.
pub open spec fn scalar_text(n: Node) -> Option<Seq<char>> {
    match n {
        Node::Str(s) => Some(s@),
        Node::Int(v) => Some(int_text(v as int)),
        Node::Bool(b) => Some(bool_text(b)),
        _ => None,
    }
}

pub open spec fn bool_of(n: Option<Node>) -> Option<Option<bool>> {
    match n {
        None => Some(None),
        Some(Node::Null) => Some(None),
        Some(Node::Bool(b)) => Some(Some(b)),
        _ => None,
    }
}

/// All nodes are scalars: their texts, in order.
pub open spec fn text_list(ns: Seq<Node>) -> Option<Seq<Seq<char>>>
    decreases ns.len(),
{
    if ns.len() == 0 {
        Some(Seq::empty())
    } else {
        match (text_list(ns.drop_last()), scalar_text(ns.last())) {
            (Some(t), Some(s)) => Some(t.push(s)),
            _ => None,
        }
    }
}

/// A one-or-many field of strings: a single string, or a sequence of them.
pub open spec fn one_or_many(n: Node) -> Option<Seq<Seq<char>>> {
    match n {
        Node::Sequence(v) => text_list(v@),
        _ => match scalar_text(n) {
            Some(t) => Some(seq![t]),
            None => None,
        },
    }
}

pub open spec fn texts(v: Seq<String>) -> Seq<Seq<char>> {
    v.map_values(|s: String| s@)
}

pub open spec fn pair_views(v: Seq<(String, String)>) -> Seq<(Seq<char>, Seq<char>)> {
    v.map_values(|p: (String, String)| (p.0@, p.1@))
}

/// A mapping whose values are all scalars: its entries, with the values'
/// texts, in order.
pub open spec fn text_pairs(es: Seq<(String, Node)>) -> Option<Seq<(Seq<char>, Seq<char>)>>
    decreases es.len(),
{
    if es.len() == 0 {
        Some(Seq::empty())
    } else {
        match (text_pairs(es.drop_last()), scalar_text(es.last().1)) {
            (Some(t), Some(s)) => Some(t.push((es.last().0@, s))),
            _ => None,
        }
    }
}

/// An optional text field, as a result.
pub open spec fn opt_text_of(n: Option<Node>) -> Result<Option<Seq<char>>, ErrorKind> {
    match text_of(n) {
        Some(t) => Ok(t),
        None => Err(ErrorKind::ShapeMismatch),
    }
}

/// A required text field: absent or null is `MissingRequiredField`.
pub open spec fn required_text(n: Option<Node>) -> Result<Seq<char>, ErrorKind> {
    match n {
        None => Err(ErrorKind::MissingRequiredField),
        Some(Node::Null) => Err(ErrorKind::MissingRequiredField),
        Some(x) => match scalar_text(x) {
            Some(t) => Ok(t),
            None => Err(ErrorKind::ShapeMismatch),
        },
    }
}

/// A list of strings that defaults to empty.
pub open spec fn list_of(n: Option<Node>) -> Result<Seq<Seq<char>>, ErrorKind> {
    match n {
        None => Ok(Seq::empty()),
        Some(Node::Null) => Ok(Seq::empty()),
        Some(Node::Sequence(v)) => match text_list(v@) {
            Some(t) => Ok(t),
            None => Err(ErrorKind::ShapeMismatch),
        },
        _ => Err(ErrorKind::ShapeMismatch),
    }
}

/// An optional mapping from names to strings.
pub open spec fn map_of(n: Option<Node>) -> Result<Option<Seq<(Seq<char>, Seq<char>)>>, ErrorKind> {
    match n {
        None => Ok(None),
        Some(Node::Null) => Ok(None),
        Some(Node::Mapping(es)) => if !keys_unique(es@) {
            Err(ErrorKind::DuplicateKey)
        } else {
            match text_pairs(es@) {
                Some(t) => Ok(Some(t)),
                None => Err(ErrorKind::ShapeMismatch),
            }
        },
        _ => Err(ErrorKind::ShapeMismatch),
    }
}

/// A mapping from names to strings that defaults to empty.
pub open spec fn map_or_empty(n: Option<Node>) -> Result<Seq<(Seq<char>, Seq<char>)>, ErrorKind> {
    match map_of(n) {
        Ok(Some(t)) => Ok(t),
        Ok(None) => Ok(Seq::empty()),
        Err(k) => Err(k),
    }
}

pub open spec fn bool_field(n: Option<Node>) -> Result<Option<bool>, ErrorKind> {
    match bool_of(n) {
        Some(t) => Ok(t),
        None => Err(ErrorKind::ShapeMismatch),
    }
}

/// An optional count or duration: an integer of at least one.
pub open spec fn positive_of(n: Option<Node>) -> Result<Option<i64>, ErrorKind> {
    match n {
        None => Ok(None),
        Some(Node::Null) => Ok(None),
        Some(Node::Int(v)) => if v >= 1 {
            Ok(Some(v))
        } else {
            Err(ErrorKind::InvalidValue)
        },
        _ => Err(ErrorKind::ShapeMismatch),
    }
}

pub open spec fn kind_is<T>(r: Result<T, DecodeError>, k: ErrorKind) -> bool {
    r matches Err(e) && e.kind == k
}

/// The text of a scalar node.
pub fn scalar_string(n: &Node) -> (r: Option<String>)
    ensures
        match scalar_text(*n) {
            Some(t) => r matches Some(s) && s@ == t,
            None => r is None,
        },
{
    match n {
        Node::Str(s) => Some(s.clone()),
        Node::Int(v) => Some(int_string(*v)),
        Node::Bool(b) => Some(bool_string(*b)),
        _ => None,
    }
}

/// Decodes an optional text field.
pub fn decode_opt_text(n: Option<&Node>, key: &str) -> (r: Result<Option<String>, DecodeError>)
    ensures
        match opt_text_of(deref(n)) {
            Ok(t) => r matches Ok(o) && opt_view(o) == t,
            Err(k) => kind_is(r, k),
        },
{
    match n {
        None => Ok(None),
        Some(Node::Null) => Ok(None),
        Some(x) => match scalar_string(x) {
            Some(t) => Ok(Some(t)),
            None => Err(shape_error(key)),
        },
    }
}

/// Decodes a required text field.
pub fn decode_required_text(n: Option<&Node>, key: &str) -> (r: Result<String, DecodeError>)
    ensures
        match required_text(deref(n)) {
            Ok(t) => r matches Ok(o) && o@ == t,
            Err(k) => kind_is(r, k),
        },
{
    match n {
        None => Err(DecodeError::new(ErrorKind::MissingRequiredField, key.to_string())),
        Some(Node::Null) => Err(DecodeError::new(ErrorKind::MissingRequiredField, key.to_string())),
        Some(x) => match scalar_string(x) {
            Some(t) => Ok(t),
            None => Err(shape_error(key)),
        },
    }
}

/// Decodes an optional boolean field.
pub fn decode_opt_bool(n: Option<&Node>, key: &str) -> (r: Result<Option<bool>, DecodeError>)
    ensures
        match bool_field(deref(n)) {
            Ok(t) => r == Ok::<Option<bool>, DecodeError>(t),
            Err(k) => kind_is(r, k),
        },
{
    match n {
        None => Ok(None),
        Some(Node::Null) => Ok(None),
        Some(Node::Bool(b)) => Ok(Some(*b)),
        _ => Err(shape_error(key)),
    }
}

/// Decodes an optional count or duration.
pub fn decode_opt_positive(n: Option<&Node>, key: &str) -> (r: Result<Option<i64>, DecodeError>)
    ensures
        match positive_of(deref(n)) {
            Ok(t) => r == Ok::<Option<i64>, DecodeError>(t),
            Err(k) => kind_is(r, k),
        },
{
    match n {
        None => Ok(None),
        Some(Node::Null) => Ok(None),
        Some(Node::Int(v)) => {
            if *v >= 1 {
                Ok(Some(*v))
            } else {
                Err(DecodeError::new(ErrorKind::InvalidValue, key.to_string()))
            }
        },
        _ => Err(shape_error(key)),
    }
}

proof fn lemma_text_list_prefix(s: Seq<Node>, k: int)
    requires
        0 <= k <= s.len(),
        text_list(s.subrange(0, k)) is None,
    ensures
        text_list(s) is None,
    decreases s.len() - k,
{
    if k < s.len() {
        assert(s.subrange(0, k + 1).drop_last() == s.subrange(0, k));
        lemma_text_list_prefix(s, k + 1);
    } else {
        assert(s.subrange(0, k) == s);
    }
}

/// Decodes a sequence of strings.
pub fn decode_text_list(v: &Vec<Node>, key: &str) -> (r: Result<Vec<String>, DecodeError>)
    ensures
        match text_list(v@) {
            Some(t) => r matches Ok(o) && texts(o@) == t,
            None => r matches Err(e) && e.kind == ErrorKind::ShapeMismatch,
        },
{
    let mut out: Vec<String> = Vec::new();
    let mut i: usize = 0;
    assert(texts(out@) =~= Seq::empty());
    assert(v@.subrange(0, 0) =~= Seq::empty());
    while i < v.len()
        invariant
            i <= v@.len(),
            text_list(v@.subrange(0, i as int)) == Some(texts(out@)),
        decreases v@.len() - i,
    {
        let ghost next = v@.subrange(0, i + 1);
        assert(next.drop_last() == v@.subrange(0, i as int));
        match scalar_string(&v[i]) {
            Some(s) => {
                let ghost before = out@;
                let ghost sv = s@;
                out.push(s);
                assert(texts(out@) =~= texts(before).push(sv));
            },
            None => {
                proof { lemma_text_list_prefix(v@, i as int + 1); }
                return Err(shape_error(key));
            },
        }
        i = i + 1;
    }
    assert(v@.subrange(0, v@.len() as int) == v@);
    Ok(out)
}

/// Decodes a field that holds one string or a sequence of strings, as the
/// sequence of those strings.
pub fn decode_one_or_many(n: &Node, key: &str) -> (r: Result<Vec<String>, DecodeError>)
    ensures
        match one_or_many(*n) {
            Some(t) => r matches Ok(o) && texts(o@) == t,
            None => r matches Err(e) && e.kind == ErrorKind::ShapeMismatch,
        },
{
    match n {
        Node::Sequence(v) => decode_text_list(v, key),
        _ => match scalar_string(n) {
            Some(s) => {
                let ghost sv = s@;
                let mut out: Vec<String> = Vec::new();
                out.push(s);
                assert(texts(out@) =~= seq![sv]);
                Ok(out)
            },
            None => Err(shape_error(key)),
        },
    }
}

proof fn lemma_text_pairs_prefix(s: Seq<(String, Node)>, k: int)
    requires
        0 <= k <= s.len(),
        text_pairs(s.subrange(0, k)) is None,
    ensures
        text_pairs(s) is None,
    decreases s.len() - k,
{
    if k < s.len() {
        assert(s.subrange(0, k + 1).drop_last() == s.subrange(0, k));
        lemma_text_pairs_prefix(s, k + 1);
    } else {
        assert(s.subrange(0, k) == s);
    }
}

/// Decodes a mapping from names to strings: keys must be unique and every
/// value a string.
pub fn decode_text_map(n: &Node, key: &str) -> (r: Result<Vec<(String, String)>, DecodeError>)
    ensures
        match *n {
            Node::Mapping(es) => if !keys_unique(es@) {
                r matches Err(e) && e.kind == ErrorKind::DuplicateKey
            } else {
                match text_pairs(es@) {
                    Some(t) => r matches Ok(o) && pair_views(o@) == t,
                    None => r matches Err(e) && e.kind == ErrorKind::ShapeMismatch,
                }
            },
            _ => r matches Err(e) && e.kind == ErrorKind::ShapeMismatch,
        },
{
    let es = match n {
        Node::Mapping(es) => es,
        _ => {
            return Err(shape_error(key));
        },
    };
    match find_duplicate(es) {
        Some(j) => {
            return Err(DecodeError::new(ErrorKind::DuplicateKey, es[j].0.clone()));
        },
        None => {},
    }
    let mut out: Vec<(String, String)> = Vec::new();
    let mut i: usize = 0;
    assert(pair_views(out@) =~= Seq::empty());
    assert(es@.subrange(0, 0) =~= Seq::empty());
    while i < es.len()
        invariant
            i <= es@.len(),
            text_pairs(es@.subrange(0, i as int)) == Some(pair_views(out@)),
            keys_unique(es@),
            *n == Node::Mapping(*es),
        decreases es@.len() - i,
    {
        let ghost next = es@.subrange(0, i + 1);
        assert(next.drop_last() == es@.subrange(0, i as int));
        assert(next.last() == es@[i as int]);
        match scalar_string(&es[i].1) {
            Some(s) => {
                let ghost before = out@;
                let ghost sv = s@;
                out.push((es[i].0.clone(), s));
                assert(pair_views(out@) =~= pair_views(before).push((es@[i as int].0@, sv)));
            },
            None => {
                proof { lemma_text_pairs_prefix(es@, i as int + 1); }
                return Err(shape_error(key));
            },
        }
        i = i + 1;
    }
    assert(es@.subrange(0, es@.len() as int) == es@);
    Ok(out)
}

/// Decodes a list of strings that defaults to empty.
pub fn decode_list(n: Option<&Node>, key: &str) -> (r: Result<Vec<String>, DecodeError>)
    ensures
        match list_of(deref(n)) {
            Ok(t) => r matches Ok(o) && texts(o@) == t,
            Err(k) => kind_is(r, k),
        },
{
    match n {
        None => {
            let out: Vec<String> = Vec::new();
            assert(texts(out@) =~= Seq::empty());
            Ok(out)
        },
        Some(Node::Null) => {
            let out: Vec<String> = Vec::new();
            assert(texts(out@) =~= Seq::empty());
            Ok(out)
        },
        Some(Node::Sequence(v)) => decode_text_list(v, key),
        _ => Err(shape_error(key)),
    }
}

/// Decodes an optional mapping from names to strings.
pub fn decode_opt_map(n: Option<&Node>, key: &str) -> (r: Result<Option<Vec<(String, String)>>, DecodeError>)
    ensures
        match map_of(deref(n)) {
            Ok(Some(t)) => r matches Ok(Some(o)) && pair_views(o@) == t,
            Ok(None) => r matches Ok(None),
            Err(k) => kind_is(r, k),
        },
{
    match n {
        None => Ok(None),
        Some(Node::Null) => Ok(None),
        Some(m) => match decode_text_map(m, key) {
            Ok(o) => Ok(Some(o)),
            Err(e) => Err(e),
        },
    }
}

/// Decodes a mapping from names to strings that defaults to empty.
pub fn decode_map(n: Option<&Node>, key: &str) -> (r: Result<Vec<(String, String)>, DecodeError>)
    ensures
        match map_or_empty(deref(n)) {
            Ok(t) => r matches Ok(o) && pair_views(o@) == t,
            Err(k) => kind_is(r, k),
        },
{
    match decode_opt_map(n, key) {
        Ok(Some(o)) => Ok(o),
        Ok(None) => {
            let out: Vec<(String, String)> = Vec::new();
            assert(pair_views(out@) =~= Seq::empty());
            Ok(out)
        },
        Err(e) => Err(e),
    }
}

} // verus!
