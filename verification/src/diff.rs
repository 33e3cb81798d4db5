//! The differ: which edits carry a mapping (or a scalar sequence) from its old
//! value to its new one, decided on the YAML values alone. Applying the edits
//! to the edit tree is the document's business.
use vstd::prelude::*;
use crate::yaml::{Yaml, find_key, key_index, yaml_eq, is_scalar, lemma_yaml_eq_reflexive, lemma_key_index};

verus! {

/// One edit of a mapping, naming entries by their index in the old or the new mapping.
#[derive(Debug, Clone, Copy)]
pub enum KeyEdit {
    /// Drop the key of this old entry.
    Remove(usize),
    /// Write this new entry's value afresh.
    Write(usize),
    /// The old and the new entry both hold mappings: diff them in turn.
    Descend(usize, usize),
    /// The old and the new entry both hold sequences: reconcile them element-wise.
    Reconcile(usize, usize),
}

/// One edit of a sequence.
#[derive(Debug, Clone, Copy)]
pub enum SeqEdit {
    /// Write the new element at this index over the old one.
    SetAt(usize),
    /// Append the new element at this index.
    Push(usize),
    /// Drop the element at this index.
    RemoveAt(usize),
}

/// The removal that the old entry `i` calls for: a string key that the new mapping lacks.
pub open spec fn removal_for(old: Seq<(Yaml, Yaml)>, new: Seq<(Yaml, Yaml)>, i: int) -> Option<KeyEdit> {
    if old[i].0 is String && key_index(new, old[i].0) is None {
        Some(KeyEdit::Remove(i as usize))
    } else {
        None
    }
}

/// The edit that the new entry `j` calls for.
pub open spec fn update_for(old: Seq<(Yaml, Yaml)>, new: Seq<(Yaml, Yaml)>, j: int) -> Option<KeyEdit> {
    if !(new[j].0 is String) {
        None
    } else {
        match key_index(old, new[j].0) {
            Some(i) => if yaml_eq(old[i].1, new[j].1) {
                None
            } else if old[i].1 is Mapping && new[j].1 is Mapping {
                Some(KeyEdit::Descend(i as usize, j as usize))
            } else if old[i].1 is Sequence && new[j].1 is Sequence {
                Some(KeyEdit::Reconcile(i as usize, j as usize))
            } else {
                Some(KeyEdit::Write(j as usize))
            },
            None => Some(KeyEdit::Write(j as usize)),
        }
    }
}

pub open spec fn opt_seq<A>(o: Option<A>) -> Seq<A> {
    match o {
        Some(a) => seq![a],
        None => seq![],
    }
}

/// The removals for the first `n` old entries, in order.
pub open spec fn removals(old: Seq<(Yaml, Yaml)>, new: Seq<(Yaml, Yaml)>, n: int) -> Seq<KeyEdit>
    decreases n,
{
    if n <= 0 {
        seq![]
    } else {
        removals(old, new, n - 1) + opt_seq(removal_for(old, new, n - 1))
    }
}

/// The updates for the first `n` new entries, in order.
pub open spec fn updates(old: Seq<(Yaml, Yaml)>, new: Seq<(Yaml, Yaml)>, n: int) -> Seq<KeyEdit>
    decreases n,
{
    if n <= 0 {
        seq![]
    } else {
        updates(old, new, n - 1) + opt_seq(update_for(old, new, n - 1))
    }
}

/// The edits that carry mapping `old` to mapping `new`: first every removal,
/// in the old order, then every update, in the new order.
pub open spec fn mapping_plan(old: Seq<(Yaml, Yaml)>, new: Seq<(Yaml, Yaml)>) -> Seq<KeyEdit> {
    removals(old, new, old.len() as int) + updates(old, new, new.len() as int)
}

/// The edits for the positions below `n` that both sequences have, and whether
/// they all could be made (a changed element that is no scalar stops them).
pub open spec fn common_edits(old: Seq<Yaml>, new: Seq<Yaml>, n: int) -> (Seq<SeqEdit>, bool)
    decreases n,
{
    if n <= 0 {
        (seq![], true)
    } else {
        let (p, ok) = common_edits(old, new, n - 1);
        if !ok {
            (p, false)
        } else if yaml_eq(old[n - 1], new[n - 1]) {
            (p, true)
        } else if is_scalar(new[n - 1]) {
            (p.push(SeqEdit::SetAt((n - 1) as usize)), true)
        } else {
            (p, false)
        }
    }
}

/// The appends of the new elements from `from` up to `n`, stopping at one that is no scalar.
pub open spec fn push_edits(new: Seq<Yaml>, from: int, n: int) -> (Seq<SeqEdit>, bool)
    decreases n - from,
{
    if n <= from {
        (seq![], true)
    } else {
        let (p, ok) = push_edits(new, from, n - 1);
        if !ok {
            (p, false)
        } else if is_scalar(new[n - 1]) {
            (p.push(SeqEdit::Push((n - 1) as usize)), true)
        } else {
            (p, false)
        }
    }
}

/// The removals of the old elements from `from` up to `to`, last one first.
pub open spec fn remove_edits(from: int, to: int) -> Seq<SeqEdit>
    decreases to - from,
{
    if to <= from {
        seq![]
    } else {
        seq![SeqEdit::RemoveAt((to - 1) as usize)] + remove_edits(from, to - 1)
    }
}

/// The edits that carry sequence `old` to sequence `new`, and whether they are
/// complete: changed common positions are overwritten, a longer new sequence
/// is appended to, a shorter one has its tail removed.
pub open spec fn sequence_plan(old: Seq<Yaml>, new: Seq<Yaml>) -> (Seq<SeqEdit>, bool) {
    let c = if old.len() < new.len() { old.len() as int } else { new.len() as int };
    let (p, ok) = common_edits(old, new, c);
    if !ok {
        (p, false)
    } else if new.len() > old.len() {
        let (q, ok2) = push_edits(new, old.len() as int, new.len() as int);
        (p + q, ok2)
    } else {
        (p + remove_edits(new.len() as int, old.len() as int), true)
    }
}

/// The edits that carry mapping `old` to mapping `new`.
pub fn plan_mapping(old: &Vec<(Yaml, Yaml)>, new: &Vec<(Yaml, Yaml)>) -> (plan: Vec<KeyEdit>)
    ensures
        plan@ == mapping_plan(old@, new@),
{
    let mut plan: Vec<KeyEdit> = Vec::new();
    let mut i: usize = 0;
    while i < old.len()
        invariant
            0 <= i <= old@.len(),
            plan@ == removals(old@, new@, i as int),
        decreases old@.len() - i,
    {
        let gone = match old[i].0.as_str() {
            Some(_) => find_key(new, &old[i].0).is_none(),
            None => false,
        };
        if gone {
            plan.push(KeyEdit::Remove(i));
        }
        assert(plan@ =~= removals(old@, new@, i + 1));
        i = i + 1;
    }
    let ghost removed = plan@;
    let mut j: usize = 0;
    while j < new.len()
        invariant
            0 <= j <= new@.len(),
            removed == removals(old@, new@, old@.len() as int),
            plan@ == removed + updates(old@, new@, j as int),
        decreases new@.len() - j,
    {
        let edit = match new[j].0.as_str() {
            None => None,
            Some(_) => match find_key(old, &new[j].0) {
                Some(i) => if old[i].1.equals(&new[j].1) {
                    None
                } else {
                    match (&old[i].1, &new[j].1) {
                        (Yaml::Mapping(_), Yaml::Mapping(_)) => Some(KeyEdit::Descend(i, j)),
                        (Yaml::Sequence(_), Yaml::Sequence(_)) => Some(KeyEdit::Reconcile(i, j)),
                        _ => Some(KeyEdit::Write(j)),
                    }
                },
                None => Some(KeyEdit::Write(j)),
            },
        };
        assert(edit == update_for(old@, new@, j as int));
        if let Some(e) = edit {
            plan.push(e);
        }
        assert(plan@ =~= removed + updates(old@, new@, j + 1));
        j = j + 1;
    }
    plan
}

/// The edits that carry sequence `old` to sequence `new`, and whether they are complete.
pub fn plan_sequence(old: &Vec<Yaml>, new: &Vec<Yaml>) -> (r: (Vec<SeqEdit>, bool))
    ensures
        r.0@ == sequence_plan(old@, new@).0,
        r.1 == sequence_plan(old@, new@).1,
{
    let c = if old.len() < new.len() {
        old.len()
    } else {
        new.len()
    };
    assert(c == (if old@.len() < new@.len() { old@.len() as int } else { new@.len() as int }));
    let mut plan: Vec<SeqEdit> = Vec::new();
    let mut i: usize = 0;
    while i < c
        invariant
            c <= old@.len(),
            c <= new@.len(),
            c == (if old@.len() < new@.len() { old@.len() as int } else { new@.len() as int }),
            0 <= i <= c,
            common_edits(old@, new@, i as int) == (plan@, true),
        decreases c - i,
    {
        if !old[i].equals(&new[i]) {
            let scalar = match &new[i] {
                Yaml::Bool(_) | Yaml::String(_) | Yaml::Number(_) => true,
                _ => false,
            };
            if !scalar {
                assert(common_edits(old@, new@, i + 1) == (plan@, false));
                proof {
                    lemma_common_edits_stop(old@, new@, i as int + 1, c as int);
                }
                return (plan, false);
            }
            plan.push(SeqEdit::SetAt(i));
        }
        i = i + 1;
    }
    if new.len() > old.len() {
        let ghost common = plan@;
        let mut k: usize = old.len();
        while k < new.len()
            invariant
                old@.len() <= k <= new@.len(),
                c == old@.len(),
                common_edits(old@, new@, c as int) == (common, true),
                push_edits(new@, old@.len() as int, k as int) == (plan@.skip(common.len() as int), true),
                plan@.take(common.len() as int) == common,
                common.len() <= plan@.len(),
            decreases new@.len() - k,
        {
            let scalar = match &new[k] {
                Yaml::Bool(_) | Yaml::String(_) | Yaml::Number(_) => true,
                _ => false,
            };
            if !scalar {
                assert(push_edits(new@, old@.len() as int, k + 1) == (plan@.skip(common.len() as int), false));
                proof {
                    lemma_push_edits_stop(new@, old@.len() as int, k as int + 1, new@.len() as int);
                    assert(plan@ =~= common + plan@.skip(common.len() as int));
                }
                return (plan, false);
            }
            let ghost before = plan@;
            plan.push(SeqEdit::Push(k));
            assert(plan@.skip(common.len() as int) =~= before.skip(common.len() as int).push(
                SeqEdit::Push(k),
            ));
            assert(plan@.take(common.len() as int) =~= common);
            k = k + 1;
        }
        assert(plan@ =~= common + plan@.skip(common.len() as int));
        (plan, true)
    } else {
        let ghost common = plan@;
        let mut k: usize = old.len();
        while k > new.len()
            invariant
                new@.len() <= k <= old@.len(),
                c == new@.len(),
                common_edits(old@, new@, c as int) == (common, true),
                plan@ == common + remove_edits(k as int, old@.len() as int),
            decreases k,
        {
            k = k - 1;
            plan.push(SeqEdit::RemoveAt(k));
            proof {
                lemma_remove_edits_extend(k as int, old@.len() as int);
            }
            assert(plan@ =~= common + remove_edits(k as int, old@.len() as int));
        }
        (plan, true)
    }
}

/// Once the common edits stop, they stay stopped.
proof fn lemma_common_edits_stop(old: Seq<Yaml>, new: Seq<Yaml>, n: int, m: int)
    requires
        0 < n <= m,
        !common_edits(old, new, n).1,
    ensures
        common_edits(old, new, m) == common_edits(old, new, n),
    decreases m - n,
{
    if m > n {
        lemma_common_edits_stop(old, new, n, m - 1);
    }
}

/// Once the appends stop, they stay stopped.
proof fn lemma_push_edits_stop(new: Seq<Yaml>, from: int, n: int, m: int)
    requires
        from < n <= m,
        !push_edits(new, from, n).1,
    ensures
        push_edits(new, from, m) == push_edits(new, from, n),
    decreases m - n,
{
    if m > n {
        lemma_push_edits_stop(new, from, n, m - 1);
    }
}

/// Removing from one position further down appends one removal at the end.
proof fn lemma_remove_edits_extend(from: int, to: int)
    requires
        from < to,
    ensures
        remove_edits(from, to) == remove_edits(from + 1, to).push(SeqEdit::RemoveAt(from as usize)),
    decreases to - from,
{
    if to - 1 > from {
        lemma_remove_edits_extend(from, to - 1);
        assert(remove_edits(from, to) =~= remove_edits(from + 1, to).push(SeqEdit::RemoveAt(from as usize)));
    } else {
        assert(remove_edits(from + 1, to) =~= seq![]);
        assert(remove_edits(from, to - 1) =~= seq![]);
        assert(remove_edits(from, to) =~= remove_edits(from + 1, to).push(SeqEdit::RemoveAt(from as usize)));
    }
}

// ── Laws of the differ ──────────────────────────────────────────────────────

/// The edit names entry `j` of the new mapping.
pub open spec fn names_new(e: KeyEdit, j: int) -> bool {
    match e {
        KeyEdit::Remove(_) => false,
        KeyEdit::Write(x) => x == j,
        KeyEdit::Descend(_, x) => x == j,
        KeyEdit::Reconcile(_, x) => x == j,
    }
}

proof fn lemma_removals_members(old: Seq<(Yaml, Yaml)>, new: Seq<(Yaml, Yaml)>, n: int)
    requires
        0 <= n <= old.len(),
        old.len() <= usize::MAX,
    ensures
        forall|k: int| #![trigger removals(old, new, n)[k]] 0 <= k < removals(old, new, n).len() ==> exists|i: int|
            0 <= i < n && removals(old, new, n)[k] == KeyEdit::Remove(i as usize) && #[trigger] removal_for(old, new, i) is Some,
        forall|i: int| 0 <= i < n && #[trigger] removal_for(old, new, i) is Some ==> removals(old, new, n).contains(KeyEdit::Remove(i as usize)),
    decreases n,
{
    if n > 0 {
        lemma_removals_members(old, new, n - 1);
        let p = removals(old, new, n - 1);
        let q = removals(old, new, n);
        let last = opt_seq(removal_for(old, new, n - 1));
        assert(q == p + last);
        assert forall|k: int| #![trigger q[k]] 0 <= k < q.len() implies exists|i: int|
            0 <= i < n && q[k] == KeyEdit::Remove(i as usize) && #[trigger] removal_for(old, new, i) is Some by {
            if k < p.len() {
                assert(q[k] == p[k]);
            } else {
                assert(q[k] == last[k - p.len()]);
                assert(removal_for(old, new, n - 1) is Some);
            }
        }
        assert forall|i: int| 0 <= i < n && #[trigger] removal_for(old, new, i) is Some implies q.contains(KeyEdit::Remove(i as usize)) by {
            if i < n - 1 {
                let k = choose|k: int| 0 <= k < p.len() && p[k] == KeyEdit::Remove(i as usize);
                assert(q[k] == p[k]);
            } else {
                assert(q[p.len() as int] == last[0]);
            }
        }
    }
}

proof fn lemma_updates_members(old: Seq<(Yaml, Yaml)>, new: Seq<(Yaml, Yaml)>, n: int)
    requires
        0 <= n <= new.len(),
        old.len() <= usize::MAX,
        new.len() <= usize::MAX,
    ensures
        forall|k: int| #![trigger updates(old, new, n)[k]] 0 <= k < updates(old, new, n).len() ==> exists|j: int|
            0 <= j < n && #[trigger] update_for(old, new, j) == Some(updates(old, new, n)[k]),
        forall|j: int| 0 <= j < n && #[trigger] update_for(old, new, j) is Some ==> updates(old, new, n).contains(update_for(old, new, j)->0),
    decreases n,
{
    if n > 0 {
        lemma_updates_members(old, new, n - 1);
        let p = updates(old, new, n - 1);
        let q = updates(old, new, n);
        let last = opt_seq(update_for(old, new, n - 1));
        assert(q == p + last);
        assert forall|k: int| #![trigger q[k]] 0 <= k < q.len() implies exists|j: int|
            0 <= j < n && #[trigger] update_for(old, new, j) == Some(q[k]) by {
            if k < p.len() {
                assert(q[k] == p[k]);
            } else {
                assert(q[k] == last[k - p.len()]);
                assert(update_for(old, new, n - 1) == Some(q[k]));
            }
        }
        assert forall|j: int| 0 <= j < n && #[trigger] update_for(old, new, j) is Some implies q.contains(update_for(old, new, j)->0) by {
            if j < n - 1 {
                let k = choose|k: int| 0 <= k < p.len() && p[k] == update_for(old, new, j)->0;
                assert(q[k] == p[k]);
            } else {
                assert(q[p.len() as int] == last[0]);
            }
        }
    }
}

proof fn lemma_update_names_itself(old: Seq<(Yaml, Yaml)>, new: Seq<(Yaml, Yaml)>, j: int)
    requires
        0 <= j < new.len(),
        old.len() <= usize::MAX,
        new.len() <= usize::MAX,
    ensures
        update_for(old, new, j) matches Some(e) ==> names_new(e, j) && forall|x: int| #[trigger] names_new(e, x) ==> x == j,
{
    lemma_key_index(old, new[j].0);
}

/// Every string key of the old mapping that the new mapping lacks is removed.
pub proof fn lemma_plan_removes_missing_keys(old: Seq<(Yaml, Yaml)>, new: Seq<(Yaml, Yaml)>, i: int)
    requires
        old.len() <= usize::MAX,
        new.len() <= usize::MAX,
        0 <= i < old.len(),
        old[i].0 is String,
        key_index(new, old[i].0) is None,
    ensures
        mapping_plan(old, new).contains(KeyEdit::Remove(i as usize)),
{
    lemma_removals_members(old, new, old.len() as int);
    assert(removal_for(old, new, i) is Some);
    let r = removals(old, new, old.len() as int);
    let k = choose|k: int| 0 <= k < r.len() && r[k] == KeyEdit::Remove(i as usize);
    assert(mapping_plan(old, new)[k] == r[k]);
}

/// Only string keys that the new mapping lacks are removed.
pub proof fn lemma_plan_removes_only_missing_keys(old: Seq<(Yaml, Yaml)>, new: Seq<(Yaml, Yaml)>, i: int)
    requires
        old.len() <= usize::MAX,
        new.len() <= usize::MAX,
        0 <= i < old.len(),
        mapping_plan(old, new).contains(KeyEdit::Remove(i as usize)),
    ensures
        old[i].0 is String,
        key_index(new, old[i].0) is None,
{
    lemma_removals_members(old, new, old.len() as int);
    lemma_updates_members(old, new, new.len() as int);
    let plan = mapping_plan(old, new);
    let r = removals(old, new, old.len() as int);
    let u = updates(old, new, new.len() as int);
    let k = choose|k: int| 0 <= k < plan.len() && plan[k] == KeyEdit::Remove(i as usize);
    if k < r.len() {
        assert(plan[k] == r[k]);
        let ii = choose|ii: int| 0 <= ii < old.len() && r[k] == KeyEdit::Remove(ii as usize) && #[trigger] removal_for(old, new, ii) is Some;
        assert(ii == i);
    } else {
        assert(plan[k] == u[k - r.len()]);
        let j = choose|j: int| 0 <= j < new.len() && #[trigger] update_for(old, new, j) == Some(u[k - r.len()]);
        lemma_key_index(old, new[j].0);
    }
}

/// An entry whose key is no string is never edited; neither is one whose
/// value did not change: no edit of the plan names it.
pub proof fn lemma_plan_leaves_unchanged_entries(old: Seq<(Yaml, Yaml)>, new: Seq<(Yaml, Yaml)>, j: int)
    requires
        old.len() <= usize::MAX,
        new.len() <= usize::MAX,
        0 <= j < new.len(),
        !(new[j].0 is String) || (key_index(old, new[j].0) matches Some(i) && yaml_eq(old[i].1, new[j].1)),
    ensures
        forall|k: int| 0 <= k < mapping_plan(old, new).len() ==> !names_new(#[trigger] mapping_plan(old, new)[k], j),
{
    lemma_removals_members(old, new, old.len() as int);
    lemma_updates_members(old, new, new.len() as int);
    let plan = mapping_plan(old, new);
    let r = removals(old, new, old.len() as int);
    let u = updates(old, new, new.len() as int);
    assert(update_for(old, new, j) is None);
    assert forall|k: int| 0 <= k < plan.len() implies !names_new(#[trigger] plan[k], j) by {
        if k < r.len() {
            assert(plan[k] == r[k]);
        } else {
            assert(plan[k] == u[k - r.len()]);
            let jj = choose|jj: int| 0 <= jj < new.len() && #[trigger] update_for(old, new, jj) == Some(u[k - r.len()]);
            lemma_update_names_itself(old, new, jj);
        }
    }
}

/// Every entry with a string key that is new or whose value changed gets an
/// edit that names it: a sub-mapping is descended into, a sequence
/// reconciled, anything else written afresh.
pub proof fn lemma_plan_edits_changed_entries(old: Seq<(Yaml, Yaml)>, new: Seq<(Yaml, Yaml)>, j: int)
    requires
        old.len() <= usize::MAX,
        new.len() <= usize::MAX,
        0 <= j < new.len(),
        new[j].0 is String,
        !(key_index(old, new[j].0) matches Some(i) && yaml_eq(old[i].1, new[j].1)),
    ensures
        mapping_plan(old, new).contains(
            match key_index(old, new[j].0) {
                Some(i) => if old[i].1 is Mapping && new[j].1 is Mapping {
                    KeyEdit::Descend(i as usize, j as usize)
                } else if old[i].1 is Sequence && new[j].1 is Sequence {
                    KeyEdit::Reconcile(i as usize, j as usize)
                } else {
                    KeyEdit::Write(j as usize)
                },
                None => KeyEdit::Write(j as usize),
            },
        ),
{
    lemma_removals_members(old, new, old.len() as int);
    lemma_updates_members(old, new, new.len() as int);
    lemma_update_names_itself(old, new, j);
    let plan = mapping_plan(old, new);
    let r = removals(old, new, old.len() as int);
    let u = updates(old, new, new.len() as int);
    let e = update_for(old, new, j)->0;
    let k = choose|k: int| 0 <= k < u.len() && u[k] == e;
    assert(plan[r.len() + k] == u[k]);
}

/// Applying one sequence edit to `cur`, with the new elements taken from `new`.
pub open spec fn apply_seq_edit(cur: Seq<Yaml>, new: Seq<Yaml>, e: SeqEdit) -> Seq<Yaml> {
    match e {
        SeqEdit::SetAt(i) => cur.update(i as int, new[i as int]),
        SeqEdit::Push(i) => cur.push(new[i as int]),
        SeqEdit::RemoveAt(i) => cur.remove(i as int),
    }
}

/// Applying sequence edits in order.
pub open spec fn apply_seq_edits(cur: Seq<Yaml>, new: Seq<Yaml>, es: Seq<SeqEdit>) -> Seq<Yaml>
    decreases es.len(),
{
    if es.len() == 0 {
        cur
    } else {
        apply_seq_edits(apply_seq_edit(cur, new, es[0]), new, es.drop_first())
    }
}

proof fn lemma_apply_concat(cur: Seq<Yaml>, new: Seq<Yaml>, p: Seq<SeqEdit>, q: Seq<SeqEdit>)
    ensures
        apply_seq_edits(cur, new, p + q) == apply_seq_edits(apply_seq_edits(cur, new, p), new, q),
    decreases p.len(),
{
    if p.len() == 0 {
        assert(p + q =~= q);
    } else {
        assert((p + q).drop_first() =~= p.drop_first() + q);
        assert((p + q)[0] == p[0]);
        lemma_apply_concat(apply_seq_edit(cur, new, p[0]), new, p.drop_first(), q);
    }
}

proof fn lemma_apply_push(cur: Seq<Yaml>, new: Seq<Yaml>, p: Seq<SeqEdit>, e: SeqEdit)
    ensures
        apply_seq_edits(cur, new, p.push(e)) == apply_seq_edit(apply_seq_edits(cur, new, p), new, e),
{
    lemma_apply_concat(cur, new, p, seq![e]);
    assert(p.push(e) =~= p + seq![e]);
    let mid = apply_seq_edits(cur, new, p);
    assert(seq![e].drop_first() =~= Seq::<SeqEdit>::empty());
    reveal_with_fuel(apply_seq_edits, 2);
}

proof fn lemma_common_applied(old: Seq<Yaml>, new: Seq<Yaml>, n: int)
    requires
        old.len() <= usize::MAX,
        0 <= n <= old.len(),
        n <= new.len(),
        common_edits(old, new, n).1,
    ensures
        ({
            let out = apply_seq_edits(old, new, common_edits(old, new, n).0);
            &&& out.len() == old.len()
            &&& forall|i: int| 0 <= i < n ==> yaml_eq(#[trigger] out[i], new[i])
            &&& forall|i: int| n <= i < old.len() ==> #[trigger] out[i] == old[i]
        }),
    decreases n,
{
    if n > 0 {
        lemma_common_applied(old, new, n - 1);
        let p = common_edits(old, new, n - 1).0;
        let mid = apply_seq_edits(old, new, p);
        if yaml_eq(old[n - 1], new[n - 1]) {
            assert(common_edits(old, new, n).0 == p);
        } else {
            assert(common_edits(old, new, n).0 == p.push(SeqEdit::SetAt((n - 1) as usize)));
            lemma_apply_push(old, new, p, SeqEdit::SetAt((n - 1) as usize));
            lemma_yaml_eq_reflexive(new[n - 1]);
        }
    } else {
        assert(common_edits(old, new, 0).0 =~= Seq::<SeqEdit>::empty());
    }
}

proof fn lemma_push_applied(cur: Seq<Yaml>, new: Seq<Yaml>, from: int, n: int)
    requires
        new.len() <= usize::MAX,
        0 <= from <= n <= new.len(),
        push_edits(new, from, n).1,
    ensures
        apply_seq_edits(cur, new, push_edits(new, from, n).0) == cur + new.subrange(from, n),
    decreases n - from,
{
    if n > from {
        lemma_push_applied(cur, new, from, n - 1);
        let p = push_edits(new, from, n - 1).0;
        assert(push_edits(new, from, n).0 == p.push(SeqEdit::Push((n - 1) as usize)));
        lemma_apply_push(cur, new, p, SeqEdit::Push((n - 1) as usize));
        assert(cur + new.subrange(from, n) =~= (cur + new.subrange(from, n - 1)).push(new[n - 1]));
    } else {
        assert(push_edits(new, from, n).0 =~= Seq::<SeqEdit>::empty());
        assert(cur + new.subrange(from, n) =~= cur);
    }
}

proof fn lemma_remove_applied(cur: Seq<Yaml>, new: Seq<Yaml>, from: int, to: int)
    requires
        to <= usize::MAX,
        0 <= from <= to,
        cur.len() == to,
    ensures
        apply_seq_edits(cur, new, remove_edits(from, to)) == cur.take(from),
    decreases to - from,
{
    if to > from {
        let es = remove_edits(from, to);
        assert(es[0] == SeqEdit::RemoveAt((to - 1) as usize));
        assert(es.drop_first() =~= remove_edits(from, to - 1));
        let next = cur.remove(to - 1);
        assert(next =~= cur.take(to - 1));
        lemma_remove_applied(next, new, from, to - 1);
        assert(next.take(from) =~= cur.take(from));
    } else {
        assert(remove_edits(from, to) =~= Seq::<SeqEdit>::empty());
        assert(cur.take(from) =~= cur);
    }
}

proof fn lemma_common_edits_changed(old: Seq<Yaml>, new: Seq<Yaml>, n: int)
    requires
        n <= usize::MAX,
    ensures
        forall|k: int|
            0 <= k < common_edits(old, new, n).0.len() ==> (#[trigger] common_edits(old, new, n).0[k] matches SeqEdit::SetAt(
                i,
            ) && i < n && !yaml_eq(old[i as int], new[i as int])),
    decreases n,
{
    if n > 0 {
        lemma_common_edits_changed(old, new, n - 1);
        let p = common_edits(old, new, n - 1).0;
        let q = common_edits(old, new, n).0;
        assert forall|k: int| 0 <= k < q.len() implies (#[trigger] q[k] matches SeqEdit::SetAt(i) && i < n && !yaml_eq(
            old[i as int],
            new[i as int],
        )) by {
            if k < p.len() {
                assert(q[k] == p[k]);
            }
        }
    }
}

proof fn lemma_push_edits_past(new: Seq<Yaml>, from: int, n: int)
    requires
        0 <= from,
        n <= usize::MAX,
    ensures
        forall|k: int|
            0 <= k < push_edits(new, from, n).0.len() ==> (#[trigger] push_edits(new, from, n).0[k] matches SeqEdit::Push(
                i,
            ) && from <= i < n),
    decreases n - from,
{
    if n > from {
        lemma_push_edits_past(new, from, n - 1);
        let p = push_edits(new, from, n - 1).0;
        let q = push_edits(new, from, n).0;
        assert forall|k: int| 0 <= k < q.len() implies (#[trigger] q[k] matches SeqEdit::Push(i) && from <= i < n) by {
            if k < p.len() {
                assert(q[k] == p[k]);
            }
        }
    }
}

proof fn lemma_remove_edits_past(from: int, to: int)
    requires
        0 <= from,
        to <= usize::MAX,
    ensures
        forall|k: int|
            0 <= k < remove_edits(from, to).len() ==> (#[trigger] remove_edits(from, to)[k] matches SeqEdit::RemoveAt(
                i,
            ) && from <= i < to),
    decreases to - from,
{
    if to > from {
        lemma_remove_edits_past(from, to - 1);
        let q = remove_edits(from, to);
        let p = remove_edits(from, to - 1);
        assert forall|k: int| 0 <= k < q.len() implies (#[trigger] q[k] matches SeqEdit::RemoveAt(i) && from <= i < to) by {
            if k > 0 {
                assert(q[k] == p[k - 1]);
            }
        }
    }
}

/// A sequence plan touches only what changed: it overwrites only positions
/// that both sequences have and whose elements differ, appends only
/// positions past the old end, and removes only positions past the new end.
pub proof fn lemma_sequence_plan_edits_only_changes(old: Seq<Yaml>, new: Seq<Yaml>)
    requires
        old.len() <= usize::MAX,
        new.len() <= usize::MAX,
    ensures
        forall|k: int|
            0 <= k < sequence_plan(old, new).0.len() ==> match #[trigger] sequence_plan(old, new).0[k] {
                SeqEdit::SetAt(i) => i < old.len() && i < new.len() && !yaml_eq(old[i as int], new[i as int]),
                SeqEdit::Push(i) => old.len() <= i < new.len(),
                SeqEdit::RemoveAt(i) => new.len() <= i < old.len(),
            },
{
    let c = if old.len() < new.len() { old.len() as int } else { new.len() as int };
    lemma_common_edits_changed(old, new, c);
    lemma_push_edits_past(new, old.len() as int, new.len() as int);
    lemma_remove_edits_past(new.len() as int, old.len() as int);
    let p = common_edits(old, new, c).0;
    let plan = sequence_plan(old, new).0;
    assert forall|k: int| 0 <= k < plan.len() implies match #[trigger] plan[k] {
        SeqEdit::SetAt(i) => i < old.len() && i < new.len() && !yaml_eq(old[i as int], new[i as int]),
        SeqEdit::Push(i) => old.len() <= i < new.len(),
        SeqEdit::RemoveAt(i) => new.len() <= i < old.len(),
    } by {
        if k < p.len() {
            assert(plan[k] == p[k]);
        } else if common_edits(old, new, c).1 && new.len() > old.len() {
            assert(plan[k] == push_edits(new, old.len() as int, new.len() as int).0[k - p.len()]);
        } else {
            assert(plan[k] == remove_edits(new.len() as int, old.len() as int)[k - p.len()]);
        }
    }
}

/// A complete sequence plan reconciles: applied to the old elements, its
/// edits give a sequence of the new length whose every element equals the
/// new one at its position.
pub proof fn lemma_sequence_plan_reconciles(old: Seq<Yaml>, new: Seq<Yaml>)
    requires
        old.len() <= usize::MAX,
        new.len() <= usize::MAX,
        sequence_plan(old, new).1,
    ensures
        apply_seq_edits(old, new, sequence_plan(old, new).0).len() == new.len(),
        forall|i: int| 0 <= i < new.len() ==> yaml_eq(#[trigger] apply_seq_edits(old, new, sequence_plan(old, new).0)[i], new[i]),
{
    let c = if old.len() < new.len() { old.len() as int } else { new.len() as int };
    let p = common_edits(old, new, c).0;
    lemma_common_applied(old, new, c);
    let mid = apply_seq_edits(old, new, p);
    if new.len() > old.len() {
        let q = push_edits(new, old.len() as int, new.len() as int).0;
        lemma_apply_concat(old, new, p, q);
        lemma_push_applied(mid, new, old.len() as int, new.len() as int);
        let out = mid + new.subrange(old.len() as int, new.len() as int);
        assert forall|i: int| 0 <= i < new.len() implies yaml_eq(#[trigger] out[i], new[i]) by {
            if i >= old.len() {
                assert(out[i] == new[i]);
                lemma_yaml_eq_reflexive(new[i]);
            }
        }
    } else {
        let q = remove_edits(new.len() as int, old.len() as int);
        lemma_apply_concat(old, new, p, q);
        lemma_remove_applied(mid, new, new.len() as int, old.len() as int);
    }
}

// ── The mapping plan carries the old mapping to the new one ────────────────

/// The key text of an entry whose key is a string.
pub open spec fn key_text(e: (Yaml, Yaml)) -> Seq<char> {
    e.0->String_0@
}

/// The string-keyed entries of a mapping, as a map from key text to value;
/// of entries with equal keys the first counts, as a lookup finds it.
pub open spec fn string_map(entries: Seq<(Yaml, Yaml)>) -> Map<Seq<char>, Yaml>
    decreases entries.len(),
{
    if entries.len() == 0 {
        Map::empty()
    } else if entries[0].0 is String {
        string_map(entries.drop_first()).insert(key_text(entries[0]), entries[0].1)
    } else {
        string_map(entries.drop_first())
    }
}

/// No two entries have the same string key.
pub open spec fn unique_string_keys(entries: Seq<(Yaml, Yaml)>) -> bool {
    forall|a: int, b: int|
        #![trigger entries[a], entries[b]]
        0 <= a < b < entries.len() && entries[a].0 is String && entries[b].0 is String ==> key_text(
            entries[a],
        ) != key_text(entries[b])
}

/// One mapping edit applied to a map of key texts to values: a removal drops
/// the old entry's key; every other edit sets the new entry's key to its new
/// value (a descent or a reconciliation gets there through the nested plan).
pub open spec fn apply_key_edit(
    m: Map<Seq<char>, Yaml>,
    old: Seq<(Yaml, Yaml)>,
    new: Seq<(Yaml, Yaml)>,
    e: KeyEdit,
) -> Map<Seq<char>, Yaml> {
    match e {
        KeyEdit::Remove(i) => m.remove(key_text(old[i as int])),
        KeyEdit::Write(j) => m.insert(key_text(new[j as int]), new[j as int].1),
        KeyEdit::Descend(_, j) => m.insert(key_text(new[j as int]), new[j as int].1),
        KeyEdit::Reconcile(_, j) => m.insert(key_text(new[j as int]), new[j as int].1),
    }
}

/// Mapping edits applied in order.
pub open spec fn apply_key_edits(
    m: Map<Seq<char>, Yaml>,
    old: Seq<(Yaml, Yaml)>,
    new: Seq<(Yaml, Yaml)>,
    es: Seq<KeyEdit>,
) -> Map<Seq<char>, Yaml>
    decreases es.len(),
{
    if es.len() == 0 {
        m
    } else {
        apply_key_edit(apply_key_edits(m, old, new, es.drop_last()), old, new, es.last())
    }
}

/// A lookup of a string key finds an entry exactly when the key's text is in
/// the string map, and then finds the entry whose value the map holds.
pub proof fn lemma_string_map_lookup(entries: Seq<(Yaml, Yaml)>, y: Yaml)
    requires
        y is String,
    ensures
        match key_index(entries, y) {
            Some(i) => string_map(entries).dom().contains(y->String_0@) && string_map(entries)[y->String_0@]
                == entries[i].1,
            None => !string_map(entries).dom().contains(y->String_0@),
        },
    decreases entries.len(),
{
    if entries.len() > 0 {
        let rest = entries.drop_first();
        lemma_string_map_lookup(rest, y);
        if yaml_eq(y, entries[0].0) {
            assert(entries[0].0 is String && key_text(entries[0]) == y->String_0@);
        } else {
            assert(!(entries[0].0 is String && key_text(entries[0]) == y->String_0@));
            lemma_key_index(rest, y);
            if let Some(i) = key_index(rest, y) {
                assert(entries[i + 1] == rest[i]);
            }
        }
    }
}

/// Every key text of the string map is the key of some entry.
pub proof fn lemma_string_map_keys(entries: Seq<(Yaml, Yaml)>, k: Seq<char>)
    requires
        string_map(entries).dom().contains(k),
    ensures
        exists|j: int| 0 <= j < entries.len() && entries[j].0 is String && #[trigger] key_text(entries[j]) == k,
    decreases entries.len(),
{
    if entries.len() > 0 {
        let rest = entries.drop_first();
        if entries[0].0 is String && key_text(entries[0]) == k {
        } else {
            lemma_string_map_keys(rest, k);
            let j = choose|j: int| 0 <= j < rest.len() && rest[j].0 is String && #[trigger] key_text(rest[j]) == k;
            assert(entries[j + 1] == rest[j]);
        }
    }
}

/// Every entry with a string key has its key text in the string map.
pub proof fn lemma_string_map_has_key(entries: Seq<(Yaml, Yaml)>, j: int)
    requires
        0 <= j < entries.len(),
        entries[j].0 is String,
    ensures
        string_map(entries).dom().contains(key_text(entries[j])),
    decreases entries.len(),
{
    if j > 0 {
        lemma_string_map_has_key(entries.drop_first(), j - 1);
        assert(entries.drop_first()[j - 1] == entries[j]);
    }
}

/// Some entry before index `n` has the string key `k`.
spec fn keyed_before(entries: Seq<(Yaml, Yaml)>, n: int, k: Seq<char>) -> bool {
    exists|i: int| 0 <= i < n && entries[i].0 is String && #[trigger] key_text(entries[i]) == k
}

proof fn lemma_apply_key_edits_concat(
    m: Map<Seq<char>, Yaml>,
    old: Seq<(Yaml, Yaml)>,
    new: Seq<(Yaml, Yaml)>,
    p: Seq<KeyEdit>,
    q: Seq<KeyEdit>,
)
    ensures
        apply_key_edits(m, old, new, p + q) == apply_key_edits(apply_key_edits(m, old, new, p), old, new, q),
    decreases q.len(),
{
    if q.len() == 0 {
        assert(p + q =~= p);
    } else {
        assert((p + q).drop_last() =~= p + q.drop_last());
        assert((p + q).last() == q.last());
        lemma_apply_key_edits_concat(m, old, new, p, q.drop_last());
    }
}

/// The removals drop exactly the keys of the old mapping that the new one lacks.
proof fn lemma_removals_applied(old: Seq<(Yaml, Yaml)>, new: Seq<(Yaml, Yaml)>, n: int)
    requires
        0 <= n <= old.len(),
        old.len() <= usize::MAX,
    ensures
        ({
            let m = apply_key_edits(string_map(old), old, new, removals(old, new, n));
            forall|k: Seq<char>|
                #![trigger m.dom().contains(k)]
                (m.dom().contains(k) <==> string_map(old).dom().contains(k) && (string_map(new).dom().contains(k)
                    || !keyed_before(old, n, k))) && (m.dom().contains(k) ==> m[k] == string_map(old)[k])
        }),
    decreases n,
{
    if n > 0 {
        lemma_removals_applied(old, new, n - 1);
        let p = removals(old, new, n - 1);
        let last = opt_seq(removal_for(old, new, n - 1));
        assert(removals(old, new, n) == p + last);
        let before = apply_key_edits(string_map(old), old, new, p);
        let m = apply_key_edits(string_map(old), old, new, removals(old, new, n));
        if old[n - 1].0 is String {
            lemma_string_map_lookup(new, old[n - 1].0);
        }
        if removal_for(old, new, n - 1) is Some {
            assert((p + last).drop_last() =~= p);
            assert(m == before.remove(key_text(old[n - 1])));
        } else {
            assert(p + last =~= p);
        }
        assert forall|k: Seq<char>| keyed_before(old, n, k) == (keyed_before(old, n - 1, k) || (old[n - 1].0 is String
            && key_text(old[n - 1]) == k)) by {
            if keyed_before(old, n, k) && !(old[n - 1].0 is String && key_text(old[n - 1]) == k) {
                let i = choose|i: int| 0 <= i < n && old[i].0 is String && #[trigger] key_text(old[i]) == k;
                assert(keyed_before(old, n - 1, k));
            }
            if old[n - 1].0 is String && key_text(old[n - 1]) == k {
                assert(keyed_before(old, n, k));
            }
        }
    } else {
        assert(removals(old, new, 0) =~= Seq::<KeyEdit>::empty());
    }
}

/// Some entry before index `n` of the new mapping has the string key `k` and gets an edit.
spec fn updated_before(old: Seq<(Yaml, Yaml)>, new: Seq<(Yaml, Yaml)>, n: int, k: Seq<char>) -> bool {
    exists|j: int|
        0 <= j < n && new[j].0 is String && #[trigger] key_text(new[j]) == k && update_for(old, new, j) is Some
}

/// The updates set each edited key to its new value and leave every other key alone.
proof fn lemma_updates_applied(
    m0: Map<Seq<char>, Yaml>,
    old: Seq<(Yaml, Yaml)>,
    new: Seq<(Yaml, Yaml)>,
    n: int,
)
    requires
        0 <= n <= new.len(),
        old.len() <= usize::MAX,
        new.len() <= usize::MAX,
        unique_string_keys(new),
    ensures
        ({
            let m = apply_key_edits(m0, old, new, updates(old, new, n));
            &&& forall|j: int|
                0 <= j < n && new[j].0 is String && update_for(old, new, j) is Some ==> m.dom().contains(
                    #[trigger] key_text(new[j]),
                ) && m[key_text(new[j])] == new[j].1
            &&& forall|k: Seq<char>|
                #![trigger m.dom().contains(k)]
                !updated_before(old, new, n, k) ==> (m.dom().contains(k) == m0.dom().contains(k) && (
                m0.dom().contains(k) ==> m[k] == m0[k]))
        }),
    decreases n,
{
    if n > 0 {
        lemma_updates_applied(m0, old, new, n - 1);
        let p = updates(old, new, n - 1);
        let last = opt_seq(update_for(old, new, n - 1));
        assert(updates(old, new, n) == p + last);
        let before = apply_key_edits(m0, old, new, p);
        let m = apply_key_edits(m0, old, new, updates(old, new, n));
        if update_for(old, new, n - 1) is Some {
            assert((p + last).drop_last() =~= p);
            assert(m == before.insert(key_text(new[n - 1]), new[n - 1].1));
            assert forall|j: int|
                0 <= j < n && new[j].0 is String && update_for(old, new, j) is Some implies m.dom().contains(
                #[trigger] key_text(new[j]),
            ) && m[key_text(new[j])] == new[j].1 by {
                if j < n - 1 {
                    assert(key_text(new[j]) != key_text(new[n - 1]));
                }
            }
            assert forall|k: Seq<char>| !updated_before(old, new, n, k) implies (m.dom().contains(k)
                == m0.dom().contains(k) && (m0.dom().contains(k) ==> m[k] == m0[k])) by {
                assert(k != key_text(new[n - 1]));
                if updated_before(old, new, n - 1, k) {
                    let j = choose|j: int|
                        0 <= j < n - 1 && new[j].0 is String && #[trigger] key_text(new[j]) == k && update_for(
                            old,
                            new,
                            j,
                        ) is Some;
                    assert(updated_before(old, new, n, k));
                }
                assert(before.dom().contains(k) == m0.dom().contains(k));
                assert(m.dom().contains(k) == before.dom().contains(k));
                if m0.dom().contains(k) {
                    assert(before[k] == m0[k]);
                    assert(m[k] == before[k]);
                }
            }
        } else {
            assert(p + last =~= p);
            assert(m == before);
            assert forall|k: Seq<char>| !updated_before(old, new, n, k) implies (m.dom().contains(k)
                == m0.dom().contains(k) && (m0.dom().contains(k) ==> m[k] == m0[k])) by {
                if updated_before(old, new, n - 1, k) {
                    let j = choose|j: int|
                        0 <= j < n - 1 && new[j].0 is String && #[trigger] key_text(new[j]) == k && update_for(
                            old,
                            new,
                            j,
                        ) is Some;
                    assert(updated_before(old, new, n, k));
                }
                assert(before.dom().contains(k) == m0.dom().contains(k));
            }
        }
    } else {
        assert(updates(old, new, 0) =~= Seq::<KeyEdit>::empty());
    }
}

/// The mapping plan carries the old mapping to the new one: applied to the
/// old mapping's string-keyed entries, its edits give exactly the new
/// mapping's string keys, each holding a value equal to the new one. Entries
/// whose key is no string stay out of it. The new mapping's string keys are
/// distinct, as those of a parsed mapping are.
pub proof fn lemma_mapping_plan_carries(old: Seq<(Yaml, Yaml)>, new: Seq<(Yaml, Yaml)>)
    requires
        old.len() <= usize::MAX,
        new.len() <= usize::MAX,
        unique_string_keys(new),
    ensures
        apply_key_edits(string_map(old), old, new, mapping_plan(old, new)).dom() == string_map(new).dom(),
        forall|k: Seq<char>|
            #![trigger string_map(new)[k]]
            string_map(new).dom().contains(k) ==> yaml_eq(
                apply_key_edits(string_map(old), old, new, mapping_plan(old, new))[k],
                string_map(new)[k],
            ),
{
    let r = removals(old, new, old.len() as int);
    let u = updates(old, new, new.len() as int);
    lemma_apply_key_edits_concat(string_map(old), old, new, r, u);
    lemma_removals_applied(old, new, old.len() as int);
    let m1 = apply_key_edits(string_map(old), old, new, r);
    lemma_updates_applied(m1, old, new, new.len() as int);
    let out = apply_key_edits(m1, old, new, u);
    let target = string_map(new);
    assert forall|k: Seq<char>| #![trigger out.dom().contains(k)] out.dom().contains(k) == target.dom().contains(k)
        && (target.dom().contains(k) ==> yaml_eq(out[k], target[k])) by {
        if target.dom().contains(k) {
            lemma_string_map_keys(new, k);
            let j = choose|j: int| 0 <= j < new.len() && new[j].0 is String && #[trigger] key_text(new[j]) == k;
            lemma_key_index(new, new[j].0);
            lemma_string_map_lookup(new, new[j].0);
            let jj = key_index(new, new[j].0)->0;
            if jj != j {
                if jj < j {
                    assert(key_text(new[jj]) != key_text(new[j]));
                } else {
                    assert(key_text(new[j]) != key_text(new[jj]));
                }
            }
            assert(target[k] == new[j].1);
            if update_for(old, new, j) is Some {
                lemma_yaml_eq_reflexive(new[j].1);
            } else {
                lemma_key_index(old, new[j].0);
                lemma_string_map_lookup(old, new[j].0);
                assert forall|j2: int|
                    0 <= j2 < new.len() && new[j2].0 is String && #[trigger] key_text(new[j2]) == k implies update_for(
                    old,
                    new,
                    j2,
                ) is None by {
                    if j2 < j {
                        assert(key_text(new[j2]) != key_text(new[j]));
                    } else if j2 > j {
                        assert(key_text(new[j]) != key_text(new[j2]));
                    }
                }
                assert(!updated_before(old, new, new.len() as int, k));
            }
        } else {
            if updated_before(old, new, new.len() as int, k) {
                let j = choose|j: int|
                    0 <= j < new.len() && new[j].0 is String && #[trigger] key_text(new[j]) == k && update_for(
                        old,
                        new,
                        j,
                    ) is Some;
                lemma_string_map_has_key(new, j);
            }
            if string_map(old).dom().contains(k) {
                lemma_string_map_keys(old, k);
                let i = choose|i: int| 0 <= i < old.len() && old[i].0 is String && #[trigger] key_text(old[i]) == k;
                assert(keyed_before(old, old.len() as int, k));
            }
        }
    }
    assert(out.dom() =~= target.dom());
}

} // verus!
