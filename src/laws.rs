use vstd::prelude::*;
use crate::decode::{bare_container, container_of, runs_on_of, trigger_of, workflow_keys, workflow_of, container_keys};
use crate::error::{ErrorKind, Mode};
use crate::fields::{one_or_many, text_list};
use crate::model::{ContainerView, TriggerView};
use crate::node::{field, has_key, has_unknown, is_known, keys_unique, lemma_field_push, Node};

verus! {

/// An optional field that is absent or null.
pub open spec fn unset(n: Option<Node>) -> bool {
    n is None || n == Some(Node::Null)
}

/// A list field that is absent, null or an empty sequence.
pub open spec fn empty_list(n: Option<Node>) -> bool {
    match n {
        None => true,
        Some(Node::Null) => true,
        Some(Node::Sequence(v)) => v@.len() == 0,
        _ => false,
    }
}

/// A bare image name (as `Container::from_str` reads it), and a detailed container mapping that gives the same
/// name and leaves every other field absent, null or empty, decode to the
/// same container.
pub proof fn lemma_container_shapes_agree(s: String, es: Vec<(String, Node)>, mode: Mode)
    requires
        keys_unique(es@),
        !has_unknown(es@, container_keys()),
        field(es@, "name"@) == Some(Node::Str(s)),
        unset(field(es@, "credentials"@)),
        unset(field(es@, "env"@)),
        empty_list(field(es@, "ports"@)),
        empty_list(field(es@, "volumes"@)),
        empty_list(field(es@, "options"@)),
    ensures
        container_of(Node::Str(s), mode) == container_of(Node::Mapping(es), mode),
        container_of(Node::Mapping(es), mode) == Ok::<ContainerView, ErrorKind>(bare_container(s@)),
{
}

/// A single string and a sequence holding only that string denote the same
/// one-or-many value, and the same runner labels.
pub proof fn lemma_one_or_many_agree(s: String, v: Vec<Node>)
    requires
        v@ == seq![Node::Str(s)],
    ensures
        one_or_many(Node::Str(s)) == one_or_many(Node::Sequence(v)),
        one_or_many(Node::Str(s)) == Some(seq![s@]),
        runs_on_of(Some(Node::Str(s))) == runs_on_of(Some(Node::Sequence(v))),
{
    assert(v@.drop_last() =~= Seq::<Node>::empty());
    assert(text_list(v@.drop_last()) == Some(Seq::<Seq<char>>::empty()));
    assert(v@.last() == Node::Str(s));
    assert(Seq::<Seq<char>>::empty().push(s@) =~= seq![s@]);
    assert(text_list(v@) == Some(seq![s@]));
}

/// A trigger mapping with a `schedule` key never decodes to events: it is a
/// schedule or an error.
pub proof fn lemma_schedule_never_events(es: Vec<(String, Node)>, mode: Mode)
    requires
        has_key(es@, "schedule"@),
    ensures
        !(trigger_of(Node::Mapping(es), mode) matches Ok(TriggerView::Events(_))),
{
}

/// In lenient mode an extra key that the decoder does not know changes
/// nothing; in strict mode it is rejected with `UnknownField`.
pub proof fn lemma_unknown_root_key(es: Vec<(String, Node)>, more: Vec<(String, Node)>, e: (String, Node))
    requires
        more@ == es@.push(e),
        !is_known(workflow_keys(), e.0@),
        !has_key(es@, e.0@),
    ensures
        workflow_of(Node::Mapping(more), Mode::Lenient) == workflow_of(Node::Mapping(es), Mode::Lenient),
        keys_unique(es@) ==> workflow_of(Node::Mapping(more), Mode::Strict) == Err::<
            crate::model::WorkflowView,
            ErrorKind,
        >(ErrorKind::UnknownField),
{
    let k = e.0@;
    assert(workflow_keys()[0]@ != k);
    assert(workflow_keys()[1]@ != k);
    assert(workflow_keys()[2]@ != k);
    assert(workflow_keys()[3]@ != k);
    assert(workflow_keys()[4]@ != k);
    assert(more@[more@.len() - 1] == e);
    if keys_unique(es@) {
        assert(keys_unique(more@)) by {
            assert forall|i: int, j: int| 0 <= i < j < more@.len() implies (#[trigger] more@[i]).0@ != (
            #[trigger] more@[j]).0@ by {
                if j == more@.len() - 1 {
                    assert(more@[i] == es@[i]);
                    if es@[i].0@ == k {
                        assert(has_key(es@, k));
                    }
                } else {
                    assert(more@[i] == es@[i] && more@[j] == es@[j]);
                }
            }
        }
        lemma_field_push(es@, e, "name"@);
        lemma_field_push(es@, e, "on"@);
        lemma_field_push(es@, e, "env"@);
        lemma_field_push(es@, e, "defaults"@);
        lemma_field_push(es@, e, "jobs"@);
        assert(has_unknown(more@, workflow_keys()));
    } else {
        assert(!keys_unique(more@)) by {
            let (i, j) = choose|i: int, j: int| 0 <= i < j < es@.len() && (#[trigger] es@[i]).0@ == (#[trigger] es@[j]).0@;
            assert(more@[i] == es@[i] && more@[j] == es@[j]);
        }
    }
}

} // verus!
