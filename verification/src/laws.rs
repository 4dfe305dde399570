//! The laws of the store: what a get returns after sets, removes,
//! rotations and compactions, in whatever order they come.

use vstd::prelude::*;
use crate::entry::EntryView;
use crate::model::{effect, effects, lemma_get, lemma_run, lemma_step, Contents, Model, Step};

verus! {

/// What comes with a set besides its record: the name under which the
/// active file is sealed, if it is; and the name and the order of the
/// snapshot, if the directory is compacted.
pub struct Turn {
    pub rotate: Option<Seq<char>>,
    pub compact: Option<(Seq<char>, Seq<Seq<char>>)>,
}

/// The steps of a set, in their order: the put, then the rotation, then
/// the compaction.
pub open spec fn set_steps(key: Seq<char>, value: Seq<char>, turn: Turn) -> Seq<Step> {
    seq![Step::Put { key, value }] + match turn.rotate {
        Some(name) => seq![Step::Rotate { name }],
        None => Seq::empty(),
    } + match turn.compact {
        Some((name, order)) => seq![Step::Compact { name, order }],
        None => Seq::empty(),
    }
}

impl Model {
    /// Whether a set succeeds in this state, with what comes with it.
    pub open spec fn permits_set(self, key: Seq<char>, value: Seq<char>, turn: Turn) -> bool {
        self.permits_all(set_steps(key, value, turn))
    }

    /// The store after a set, with what comes with it.
    pub open spec fn set(self, key: Seq<char>, value: Seq<char>, turn: Turn) -> Model {
        self.run(set_steps(key, value, turn))
    }

    /// The store after a remove: as it was where the key is not live, for
    /// then the remove fails and writes nothing.
    pub open spec fn remove(self, key: Seq<char>) -> Model {
        if self.dir.contains_key(key) {
            self.erase(key)
        } else {
            self
        }
    }
}

/// Whether a step says nothing of the key: it is no put and no remove of
/// it.
pub open spec fn spares(step: Step, key: Seq<char>) -> bool {
    match step {
        Step::Put { key: k, .. } => k != key,
        Step::Remove { key: k } => k != key,
        _ => true,
    }
}

/// Steps that say nothing of a key leave its value as it was.
pub proof fn lemma_effects_spare(contents: Contents, steps: Seq<Step>, key: Seq<char>)
    requires
        forall|i: int| 0 <= i < steps.len() ==> spares(#[trigger] steps[i], key),
    ensures
        effects(contents, steps).contains_key(key) == contents.contains_key(key),
        contents.contains_key(key) ==> effects(contents, steps)[key] == contents[key],
    decreases steps.len(),
{
    if steps.len() > 0 {
        assert(spares(steps[0], key));
        let rest = steps.drop_first();
        assert forall|i: int| 0 <= i < rest.len() implies spares(#[trigger] rest[i], key) by {
            assert(rest[i] == steps[i + 1]);
        }
        lemma_effects_spare(effect(contents, steps[0]), rest, key);
    }
}

/// The steps of a set give the key its value and change nothing else.
pub proof fn lemma_set_effects(contents: Contents, key: Seq<char>, value: Seq<char>, turn: Turn)
    ensures
        effects(contents, set_steps(key, value, turn)) == contents.insert(key, value),
{
    let steps = set_steps(key, value, turn);
    let rest = steps.drop_first();
    let after = contents.insert(key, value);
    assert(steps[0] == Step::Put { key, value });
    assert forall|k: Seq<char>|
        (#[trigger] effects(after, rest).contains_key(k)) == after.contains_key(k) && (
        after.contains_key(k) ==> effects(after, rest)[k] == after[k]) by {
        assert forall|i: int| 0 <= i < rest.len() implies spares(#[trigger] rest[i], k) by {
            assert(rest[i] == steps[i + 1]);
        }
        lemma_effects_spare(after, rest, k);
    }
    assert(effects(after, rest) =~= after);
}

/// After a set of a key, a get of the key returns the value that was set.
pub proof fn law_set_then_get(m: Model, key: Seq<char>, value: Seq<char>, turn: Turn)
    requires
        m.inv(),
        m.permits_set(key, value, turn),
    ensures
        m.set(key, value, turn).inv(),
        m.set(key, value, turn).get(key) == Some(value),
        m.set(key, value, turn).contents() == m.contents().insert(key, value),
{
    lemma_run(m, set_steps(key, value, turn));
    lemma_set_effects(m.contents(), key, value, turn);
    lemma_get(m.set(key, value, turn), key);
}

/// After two sets of one key, a get of the key returns the value that was
/// set last.
pub proof fn law_overwrite(
    m: Model,
    key: Seq<char>,
    first: Seq<char>,
    first_turn: Turn,
    second: Seq<char>,
    second_turn: Turn,
)
    requires
        m.inv(),
        m.permits_set(key, first, first_turn),
        m.set(key, first, first_turn).permits_set(key, second, second_turn),
    ensures
        m.set(key, first, first_turn).set(key, second, second_turn).get(key) == Some(second),
{
    law_set_then_get(m, key, first, first_turn);
    law_set_then_get(m.set(key, first, first_turn), key, second, second_turn);
}

/// After a set of a key, a remove of the key succeeds; after it a get of
/// the key returns nothing, and a second remove finds the key not live,
/// which is when a remove fails with `NotFound`.
pub proof fn law_remove(m: Model, key: Seq<char>, value: Seq<char>, turn: Turn)
    requires
        m.inv(),
        m.permits_set(key, value, turn),
    ensures
        m.set(key, value, turn).permits(Step::Remove { key }),
        m.set(key, value, turn).remove(key).get(key) is None,
        !m.set(key, value, turn).remove(key).dir.contains_key(key),
        m.set(key, value, turn).remove(key).remove(key) == m.set(key, value, turn).remove(key),
{
    law_set_then_get(m, key, value, turn);
    let after = m.set(key, value, turn);
    lemma_get(after, key);
    assert(set_steps(key, value, turn)[0] == Step::Put { key, value });
    assert((EntryView::Put { key, value }).encodable());
    lemma_step(after, Step::Remove { key });
}

/// A compaction between a prefix and a suffix of steps changes no answer:
/// after the suffix a get of any key returns what it would have returned
/// without the compaction.
pub proof fn law_compaction_keeps_answers(
    m: Model,
    prefix: Seq<Step>,
    name: Seq<char>,
    order: Seq<Seq<char>>,
    suffix: Seq<Step>,
    key: Seq<char>,
)
    requires
        m.inv(),
        m.permits_all(prefix),
        m.run(prefix).permits(Step::Compact { name, order }),
        m.run(prefix).permits_all(suffix),
        m.run(prefix).compact(name, order).permits_all(suffix),
    ensures
        m.run(prefix).compact(name, order).run(suffix).get(key) == m.run(prefix).run(suffix).get(
            key,
        ),
{
    let before = m.run(prefix);
    lemma_run(m, prefix);
    lemma_step(before, Step::Compact { name, order });
    lemma_run(before, suffix);
    lemma_run(before.compact(name, order), suffix);
    lemma_get(before.compact(name, order).run(suffix), key);
    lemma_get(before.run(suffix), key);
}

/// A set whose key no later step sets or removes decides what a get of
/// the key returns, whatever steps come before it and after it.
pub proof fn law_last_write_wins(m: Model, steps: Seq<Step>, i: int)
    requires
        m.inv(),
        m.permits_all(steps),
        0 <= i < steps.len(),
        steps[i] is Put,
        forall|j: int| i < j < steps.len() ==> spares(#[trigger] steps[j], steps[i]->Put_key),
    ensures
        m.run(steps).get(steps[i]->Put_key) == Some(steps[i]->Put_value),
{
    lemma_run(m, steps);
    lemma_get(m.run(steps), steps[i]->Put_key);
    lemma_effects_last_write(m.contents(), steps, i);
}

/// What `law_last_write_wins` says, of the values alone.
proof fn lemma_effects_last_write(contents: Contents, steps: Seq<Step>, i: int)
    requires
        0 <= i < steps.len(),
        steps[i] is Put,
        forall|j: int| i < j < steps.len() ==> spares(#[trigger] steps[j], steps[i]->Put_key),
    ensures
        effects(contents, steps).contains_key(steps[i]->Put_key),
        effects(contents, steps)[steps[i]->Put_key] == steps[i]->Put_value,
    decreases steps.len(),
{
    let rest = steps.drop_first();
    let next = effect(contents, steps[0]);
    let key = steps[i]->Put_key;
    if i == 0 {
        assert forall|j: int| 0 <= j < rest.len() implies spares(#[trigger] rest[j], key) by {
            assert(rest[j] == steps[j + 1]);
        }
        lemma_effects_spare(next, rest, key);
    } else {
        assert(rest[i - 1] == steps[i]);
        assert forall|j: int| i - 1 < j < rest.len() implies spares(#[trigger] rest[j], key) by {
            assert(rest[j] == steps[j + 1]);
        }
        lemma_effects_last_write(next, rest, i - 1);
    }
}

/// Sets of different keys, in whatever order they come and whatever
/// rotations and compactions come between them, leave every key readable
/// at the value that was set for it.
pub proof fn law_disjoint_sets(m: Model, steps: Seq<Step>, i: int)
    requires
        m.inv(),
        m.permits_all(steps),
        forall|j: int| 0 <= j < steps.len() ==> !((#[trigger] steps[j]) is Remove),
        forall|j: int, k: int|
            0 <= j < k < steps.len() && steps[j] is Put && steps[k] is Put ==> steps[j]->Put_key
                != steps[k]->Put_key,
        0 <= i < steps.len(),
        steps[i] is Put,
    ensures
        m.run(steps).get(steps[i]->Put_key) == Some(steps[i]->Put_value),
{
    law_last_write_wins(m, steps, i);
}

/// Sets of one key, in whatever order they come and whatever rotations
/// and compactions come between them, leave the key readable at one of
/// the values that were set: the one that came last.
pub proof fn law_same_key_sets(m: Model, steps: Seq<Step>, key: Seq<char>)
    requires
        m.inv(),
        m.permits_all(steps),
        forall|j: int|
            0 <= j < steps.len() ==> match #[trigger] steps[j] {
                Step::Put { key: k, .. } => k == key,
                Step::Remove { .. } => false,
                _ => true,
            },
        exists|j: int| 0 <= j < steps.len() && (#[trigger] steps[j]) is Put,
    ensures
        exists|j: int|
            0 <= j < steps.len() && (#[trigger] steps[j]) is Put && m.run(steps).get(key) == Some(
                steps[j]->Put_value,
            ) && forall|k: int| j < k < steps.len() ==> !((#[trigger] steps[k]) is Put),
{
    lemma_run(m, steps);
    lemma_get(m.run(steps), key);
    lemma_effects_same_key(m.contents(), steps, key);
}

/// What `law_same_key_sets` says, of the values alone.
proof fn lemma_effects_same_key(contents: Contents, steps: Seq<Step>, key: Seq<char>)
    requires
        forall|j: int|
            0 <= j < steps.len() ==> match #[trigger] steps[j] {
                Step::Put { key: k, .. } => k == key,
                Step::Remove { .. } => false,
                _ => true,
            },
        exists|j: int| 0 <= j < steps.len() && (#[trigger] steps[j]) is Put,
    ensures
        exists|j: int|
            0 <= j < steps.len() && (#[trigger] steps[j]) is Put && effects(
                contents,
                steps,
            ).contains_key(key) && effects(contents, steps)[key] == steps[j]->Put_value
                && forall|k: int| j < k < steps.len() ==> !((#[trigger] steps[k]) is Put),
    decreases steps.len(),
{
    let rest = steps.drop_first();
    let next = effect(contents, steps[0]);
    assert forall|j: int| 0 <= j < rest.len() implies match #[trigger] rest[j] {
        Step::Put { key: k, .. } => k == key,
        Step::Remove { .. } => false,
        _ => true,
    } by {
        assert(rest[j] == steps[j + 1]);
    }
    if exists|j: int| 0 <= j < rest.len() && (#[trigger] rest[j]) is Put {
        lemma_effects_same_key(next, rest, key);
        let j = choose|j: int|
            0 <= j < rest.len() && (#[trigger] rest[j]) is Put && effects(next, rest).contains_key(
                key,
            ) && effects(next, rest)[key] == rest[j]->Put_value && forall|k: int|
                j < k < rest.len() ==> !((#[trigger] rest[k]) is Put);
        assert(steps[j + 1] == rest[j]);
        assert forall|k: int| j + 1 < k < steps.len() implies !((#[trigger] steps[k]) is Put) by {
            assert(rest[k - 1] == steps[k]);
        }
    } else {
        let w = choose|j: int| 0 <= j < steps.len() && (#[trigger] steps[j]) is Put;
        if w > 0 {
            assert(rest[w - 1] == steps[w]);
        }
        assert(steps[0] is Put);
        assert forall|j: int| 0 <= j < rest.len() implies spares(#[trigger] rest[j], key) by {
            assert(!(rest[j] is Put));
        }
        lemma_effects_spare(next, rest, key);
        assert forall|k: int| 0 < k < steps.len() implies !((#[trigger] steps[k]) is Put) by {
            assert(rest[k - 1] == steps[k]);
        }
    }
}

} // verus!
