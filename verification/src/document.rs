//! Editable YAML documents: `YamlValue` (untyped) and `YamlObject<T>` (typed).
//!
//! A document holds its value, the lossless edit tree that `yaml_edit` parsed
//! from its text, the tree's current text, and the leading comment block that
//! the tree drops. Setting a new value diffs it against the old one and
//! applies the edits to the tree, so untouched keys keep their comments and
//! layout; when the edited tree does not print back to the new value, the
//! tree is rebuilt from the value's own YAML text.
use vstd::prelude::*;
use yaml_edit::ScalarValue;
use crate::tree::{EditTree, MapRef, SeqRef, BuiltNode, TreeCall, build_node, edit_tree_text, log_text};
use crate::tree::{log_has_root, log_has_sub_map, log_has_sub_seq, map_handles, seq_handles};
use crate::tree::{lemma_handles_concat, lemma_handles_one};
use crate::diff::{KeyEdit, SeqEdit, mapping_plan, plan_mapping, plan_sequence, sequence_plan};
use crate::diff::{removals, updates, removal_for, update_for, opt_seq};
use crate::diff::{common_edits, push_edits, remove_edits, key_text, string_map, unique_string_keys, names_new};
use crate::diff::{lemma_string_map_lookup, lemma_string_map_keys, lemma_string_map_has_key, lemma_plan_removes_missing_keys};
use crate::diff::{apply_seq_edits, lemma_sequence_plan_reconciles, lemma_plan_removes_only_missing_keys, lemma_plan_leaves_unchanged_entries, lemma_plan_edits_changed_entries};
use crate::leading::{leading_block, spec_leading_block, is_comment_block, lemma_comment_block_prefix};
use crate::outside::{parse_value, parsed_yaml, render_value, rendered_yaml};
use crate::outside::{edit_tree_accepts, edit_parse_message, edit_tree_has_entry, float_scalar};
use vstd::string::StringExecFns;
use crate::yaml::{Yaml, Num, yaml_eq, is_scalar, well_tagged, key_index, lemma_key_index};

verus! {

/// Errors from parsing or editing YAML.
#[derive(Debug)]
pub enum Error {
    /// `serde_norway` could not parse (or print) the YAML.
    Yaml(serde_norway::Error),
    /// `yaml_edit` could not parse the YAML into an edit tree.
    Edit(String),
    /// The edited document did not parse back to the requested value.
    RoundTrip,
}

/// The text parses to a value equal to `v`.
pub open spec fn text_matches(text: Seq<char>, v: Yaml) -> bool {
    parsed_yaml(text) matches Some(w) && yaml_eq(w, v)
}

/// The value can be rebuilt from scratch: `serde_norway` prints it, and
/// `yaml_edit` parses what it prints.
pub open spec fn rebuildable(v: Yaml) -> bool {
    &&& well_tagged(v)
    &&& rendered_yaml(v) matches Some(t) && edit_tree_accepts(t)
}

/// The edit tree's text `t` after a change to `v`, behind the leading block:
/// one checked to parse back to `v`, or else the text of a tree rebuilt from
/// `v`'s own YAML text.
pub open spec fn reconciled_text(leading: Seq<char>, t: Seq<char>, v: Yaml) -> bool {
    text_matches(leading + t, v) || t == edit_tree_text(rendered_yaml(v)->0)
}

/// When setting a value whose encoding is `v` is owed success on a document
/// parsed from `t`: when `v` equals what `t` parses to, the document's text
/// (the leading block, then the fresh tree's text) parses back to `v`;
/// otherwise `v` can be rebuilt, and the leading block followed by the text
/// of the tree rebuilt from `v`'s own YAML text parses back to `v`. (The text
/// of an in-place edit is kept only when it parses back to `v`.)
pub open spec fn owed_for(t: Seq<char>, v: Yaml) -> bool {
    if yaml_eq(parsed_yaml(t)->0, v) {
        text_matches(spec_leading_block(t) + edit_tree_text(t), v)
    } else {
        rebuildable(v) && text_matches(spec_leading_block(t) + edit_tree_text(rendered_yaml(v)->0), v)
    }
}

/// When setting a value is owed success: the current text `t` parses and
/// the edit tree accepts it, and whatever `encode` can give for `new` is a
/// value `v` for which success is owed (`owed_for`).
pub open spec fn set_owed<T, F: Fn(&T) -> Result<Yaml, serde_norway::Error>>(t: Seq<char>, encode: F, new: &T) -> bool {
    &&& parsed_yaml(t) is Some
    &&& edit_tree_accepts(t)
    &&& forall|res: Result<Yaml, serde_norway::Error>|
        #[trigger] call_ensures(encode, (new,), res) ==> (res matches Ok(v) && owed_for(t, v))
}

/// What checking that `text` parses back to `expected` gives: `Ok` when it
/// does, `RoundTrip` when it parses to another value or does not parse.
pub open spec fn round_trip_checked(r: Result<(), Error>, text: Seq<char>, expected: Yaml) -> bool {
    match r {
        Ok(()) => text_matches(text, expected),
        Err(Error::RoundTrip) => !text_matches(text, expected),
        Err(_) => false,
    }
}

/// Check that `text` parses back to exactly `expected`.
pub fn check_round_trip(text: &str, expected: &Yaml) -> (r: Result<(), Error>)
    ensures
        round_trip_checked(r, text@, *expected),
{
    match parse_value(text) {
        Ok(v) => if v.equals(expected) {
            Ok(())
        } else {
            Err(Error::RoundTrip)
        },
        Err(_) => Err(Error::RoundTrip),
    }
}

/// A scalar as the edit tree takes it.
pub enum Scalar {
    Bool(bool),
    Int(i64),
    UInt(u64),
    Str(String),
    Float(ScalarValue),
}

/// A scalar value as the edit tree takes it: an integer that fits `i64` as
/// one, a larger one as `u64`.
pub(crate) fn scalar_item(y: &Yaml) -> (r: Scalar)
    requires
        is_scalar(*y),
    ensures
        match *y {
            Yaml::Bool(b) => r == Scalar::Bool(b),
            Yaml::String(s) => r matches Scalar::Str(t) && t@ == s@,
            Yaml::Number(Num::PosInt(u)) => if u <= i64::MAX {
                r == Scalar::Int(u as i64)
            } else {
                r == Scalar::UInt(u)
            },
            Yaml::Number(Num::NegInt(i)) => r == Scalar::Int(i),
            Yaml::Number(Num::Float(_)) => r is Float,
            _ => false,
        },
{
    match y {
        Yaml::Bool(b) => Scalar::Bool(*b),
        Yaml::String(s) => Scalar::Str(s.clone()),
        Yaml::Number(Num::PosInt(u)) => if *u <= 0x7fff_ffff_ffff_ffffu64 {
            Scalar::Int(*u as i64)
        } else {
            Scalar::UInt(*u)
        },
        Yaml::Number(Num::NegInt(i)) => Scalar::Int(*i),
        Yaml::Number(Num::Float(t)) => Scalar::Float(float_scalar(t.as_str())),
        _ => {
            assert(false);
            Scalar::Bool(false)
        },
    }
}

/// Every edit of a sequence plan names an index it may use.
proof fn lemma_sequence_plan_indices(old: Seq<Yaml>, new: Seq<Yaml>)
    requires
        new.len() <= usize::MAX,
    ensures
        forall|k: int|
            0 <= k < sequence_plan(old, new).0.len() ==> match #[trigger] sequence_plan(old, new).0[k] {
                SeqEdit::SetAt(i) => i < new.len() && is_scalar(new[i as int]),
                SeqEdit::Push(i) => i < new.len() && is_scalar(new[i as int]),
                SeqEdit::RemoveAt(i) => true,
            },
{
    let c = if old.len() < new.len() { old.len() as int } else { new.len() as int };
    lemma_common_edits_indices(old, new, c);
    let p = common_edits(old, new, c).0;
    let plan = sequence_plan(old, new).0;
    if common_edits(old, new, c).1 && new.len() > old.len() {
        lemma_push_edits_indices(new, old.len() as int, new.len() as int);
        let q = push_edits(new, old.len() as int, new.len() as int).0;
        assert forall|k: int| 0 <= k < plan.len() implies match #[trigger] plan[k] {
            SeqEdit::SetAt(i) => i < new.len() && is_scalar(new[i as int]),
            SeqEdit::Push(i) => i < new.len() && is_scalar(new[i as int]),
            SeqEdit::RemoveAt(i) => true,
        } by {
            if k < p.len() {
                assert(plan[k] == p[k]);
            } else {
                assert(plan[k] == q[k - p.len()]);
            }
        }
    } else if common_edits(old, new, c).1 {
        let q = remove_edits(new.len() as int, old.len() as int);
        lemma_remove_edits_shape(new.len() as int, old.len() as int);
        assert forall|k: int| 0 <= k < plan.len() implies match #[trigger] plan[k] {
            SeqEdit::SetAt(i) => i < new.len() && is_scalar(new[i as int]),
            SeqEdit::Push(i) => i < new.len() && is_scalar(new[i as int]),
            SeqEdit::RemoveAt(i) => true,
        } by {
            if k < p.len() {
                assert(plan[k] == p[k]);
            } else {
                assert(plan[k] == q[k - p.len()]);
            }
        }
    }
}

proof fn lemma_remove_edits_shape(from: int, to: int)
    ensures
        forall|k: int| 0 <= k < remove_edits(from, to).len() ==> #[trigger] remove_edits(from, to)[k] is RemoveAt,
    decreases to - from,
{
    if to > from {
        lemma_remove_edits_shape(from, to - 1);
        let q = remove_edits(from, to);
        let p = remove_edits(from, to - 1);
        assert forall|k: int| 0 <= k < q.len() implies #[trigger] q[k] is RemoveAt by {
            if k > 0 {
                assert(q[k] == p[k - 1]);
            }
        }
    }
}

proof fn lemma_common_edits_indices(old: Seq<Yaml>, new: Seq<Yaml>, n: int)
    requires
        n <= new.len(),
        new.len() <= usize::MAX,
    ensures
        forall|k: int|
            0 <= k < common_edits(old, new, n).0.len() ==> (#[trigger] common_edits(old, new, n).0[k] matches SeqEdit::SetAt(i) && i < new.len() && is_scalar(new[i as int])),
    decreases n,
{
    if n > 0 {
        lemma_common_edits_indices(old, new, n - 1);
        let p = common_edits(old, new, n - 1).0;
        let q = common_edits(old, new, n).0;
        if common_edits(old, new, n - 1).1 && !yaml_eq(old[n - 1], new[n - 1]) && is_scalar(new[n - 1]) {
            assert(q == p.push(SeqEdit::SetAt((n - 1) as usize)));
        } else {
            assert(q == p);
        }
        assert forall|k: int| 0 <= k < q.len() implies (#[trigger] q[k] matches SeqEdit::SetAt(i) && i < new.len() && is_scalar(new[i as int])) by {
            if k < p.len() {
                assert(q[k] == p[k]);
            }
        }
    }
}

proof fn lemma_push_edits_indices(new: Seq<Yaml>, from: int, n: int)
    requires
        0 <= from,
        n <= new.len(),
        new.len() <= usize::MAX,
    ensures
        forall|k: int|
            0 <= k < push_edits(new, from, n).0.len() ==> (#[trigger] push_edits(new, from, n).0[k] matches SeqEdit::Push(i) && i < new.len() && is_scalar(new[i as int])),
    decreases n - from,
{
    if n > from {
        lemma_push_edits_indices(new, from, n - 1);
        let p = push_edits(new, from, n - 1).0;
        let q = push_edits(new, from, n).0;
        if push_edits(new, from, n - 1).1 && is_scalar(new[n - 1]) {
            assert(q == p.push(SeqEdit::Push((n - 1) as usize)));
        } else {
            assert(q == p);
        }
        assert forall|k: int| 0 <= k < q.len() implies (#[trigger] q[k] matches SeqEdit::Push(i) && i < new.len() && is_scalar(new[i as int])) by {
            if k < p.len() {
                assert(q[k] == p[k]);
            }
        }
    }
}

/// Every edit of a mapping plan names entries that exist, with string keys,
/// and the shapes its kind calls for.
proof fn lemma_mapping_plan_indices(old: Seq<(Yaml, Yaml)>, new: Seq<(Yaml, Yaml)>)
    requires
        old.len() <= usize::MAX,
        new.len() <= usize::MAX,
    ensures
        forall|k: int| 0 <= k < mapping_plan(old, new).len() ==> edit_fits(old, new, #[trigger] mapping_plan(old, new)[k]),
{
    lemma_removals_fit(old, new, old.len() as int);
    lemma_updates_fit(old, new, new.len() as int);
    let r = removals(old, new, old.len() as int);
    let u = updates(old, new, new.len() as int);
    assert forall|k: int| 0 <= k < mapping_plan(old, new).len() implies edit_fits(old, new, #[trigger] mapping_plan(old, new)[k]) by {
        if k < r.len() {
            assert(mapping_plan(old, new)[k] == r[k]);
        } else {
            assert(mapping_plan(old, new)[k] == u[k - r.len()]);
        }
    }
}

/// An edit names entries that exist, with string keys, of the shapes its kind calls for.
pub open spec fn edit_fits(old: Seq<(Yaml, Yaml)>, new: Seq<(Yaml, Yaml)>, e: KeyEdit) -> bool {
    match e {
        KeyEdit::Remove(i) => i < old.len() && old[i as int].0 is String,
        KeyEdit::Write(j) => j < new.len() && new[j as int].0 is String,
        KeyEdit::Descend(i, j) => i < old.len() && j < new.len() && new[j as int].0 is String
            && old[i as int].1 is Mapping && new[j as int].1 is Mapping,
        KeyEdit::Reconcile(i, j) => i < old.len() && j < new.len() && new[j as int].0 is String
            && old[i as int].1 is Sequence && new[j as int].1 is Sequence,
    }
}

proof fn lemma_removals_fit(old: Seq<(Yaml, Yaml)>, new: Seq<(Yaml, Yaml)>, n: int)
    requires
        n <= old.len(),
        old.len() <= usize::MAX,
    ensures
        forall|k: int| 0 <= k < removals(old, new, n).len() ==> edit_fits(old, new, #[trigger] removals(old, new, n)[k]),
    decreases n,
{
    if n > 0 {
        lemma_removals_fit(old, new, n - 1);
        let p = removals(old, new, n - 1);
        let last = opt_seq(removal_for(old, new, n - 1));
        assert(removals(old, new, n) == p + last);
        assert forall|k: int| 0 <= k < removals(old, new, n).len() implies edit_fits(old, new, #[trigger] removals(old, new, n)[k]) by {
            if k < p.len() {
                assert(removals(old, new, n)[k] == p[k]);
            } else {
                assert(removals(old, new, n)[k] == last[k - p.len()]);
            }
        }
    }
}

proof fn lemma_updates_fit(old: Seq<(Yaml, Yaml)>, new: Seq<(Yaml, Yaml)>, n: int)
    requires
        n <= new.len(),
        old.len() <= usize::MAX,
        new.len() <= usize::MAX,
    ensures
        forall|k: int| 0 <= k < updates(old, new, n).len() ==> edit_fits(old, new, #[trigger] updates(old, new, n)[k]),
    decreases n,
{
    if n > 0 {
        lemma_updates_fit(old, new, n - 1);
        let p = updates(old, new, n - 1);
        let last = opt_seq(update_for(old, new, n - 1));
        lemma_key_index(old, new[n - 1].0);
        assert(updates(old, new, n) == p + last);
        assert forall|k: int| 0 <= k < updates(old, new, n).len() implies edit_fits(old, new, #[trigger] updates(old, new, n)[k]) by {
            if k < p.len() {
                assert(updates(old, new, n)[k] == p[k]);
            } else {
                assert(updates(old, new, n)[k] == last[k - p.len()]);
            }
        }
    }
}

/// The one-entry mapping `key: value`, up to YAML equality of the value.
pub open spec fn single_entry(w: Yaml, key: Seq<char>, value: Yaml) -> bool {
    &&& w is Mapping
    &&& w->Mapping_0@.len() == 1
    &&& w->Mapping_0@[0].0 matches Yaml::String(k) && k@ == key
    &&& yaml_eq(w->Mapping_0@[0].1, value)
}

/// A node for `key` can be had from the one-entry mapping `w`: it can be
/// rebuilt from scratch, and the tree of its printed text holds `key`.
pub open spec fn node_built(w: Yaml, key: Seq<char>) -> bool {
    rebuildable(w) && edit_tree_has_entry(rendered_yaml(w)->0, key)
}

/// An edit-tree node for `value`, built by printing the one-entry mapping
/// `key: value` (also handed back) and parsing it back; `None` exactly when
/// that mapping cannot be rebuilt or its tree does not hold `key`.
fn node_for(key: &str, value: &Yaml) -> (r: (Option<BuiltNode>, Ghost<Yaml>))
    ensures
        single_entry(r.1@, key@, *value),
        r.0 is Some <==> node_built(r.1@, key@),
        r.0 matches Some(n) ==> n.text() == rendered_yaml(r.1@)->0 && n.key() == key@,
{
    let wrapper = Yaml::Mapping(vec![(Yaml::String(key.to_owned()), value.clone())]);
    let ghost w = wrapper;
    if !wrapper.is_well_tagged() {
        return (None, Ghost(w));
    }
    let text = match render_value(&wrapper) {
        Some(text) => text,
        None => return (None, Ghost(w)),
    };
    (build_node(text.as_str(), key), Ghost(w))
}

/// Write `value` as the value of `key` in the mapping of handle `m`, if a
/// node for it can be built; the result says whether it was, and which
/// one-entry mapping it came from.
fn write_entry(tree: &mut EditTree, m: MapRef, key: &str, value: &Yaml) -> (r: (bool, Ghost<Yaml>))
    requires
        m.0 < old(tree).map_count(),
    ensures
        single_entry(r.1@, key@, *value),
        r.0 <==> node_built(r.1@, key@),
        final(tree).origin() == old(tree).origin(),
        final(tree).map_count() == old(tree).map_count(),
        final(tree).seq_count() == old(tree).seq_count(),
        final(tree).log() == old(tree).log() + write_calls(m.0 as nat, key@, r.0, r.1@),
{
    let (node, w) = node_for(key, value);
    match node {
        Some(node) => {
            tree.set(m, key, node);
            assert(tree.log() =~= old(tree).log() + write_calls(m.0 as nat, key@, true, w@));
            (true, w)
        },
        None => {
            assert(tree.log() =~= old(tree).log() + write_calls(m.0 as nat, key@, false, w@));
            (false, w)
        },
    }
}

/// The calls that writing a key makes: setting it to the node of the
/// one-entry mapping `w`, if one was built.
pub open spec fn write_calls(m: nat, key: Seq<char>, built: bool, w: Yaml) -> Seq<TreeCall> {
    if built {
        seq![TreeCall::SetKey(m, key, rendered_yaml(w)->0, key)]
    } else {
        seq![]
    }
}

/// What carrying out one mapping edit did to the edit tree.
pub enum TreeEdit {
    /// The key was removed.
    Removed(Seq<char>),
    /// The key was written with the value of this one-entry mapping, if a
    /// node could be built from it (the flag).
    Wrote(Seq<char>, Yaml, bool, Yaml),
    /// The sub-mapping under the key got a handle of this number, and these edits.
    Descended(Seq<char>, nat, Seq<TreeEdit>),
    /// The sequence under the key got a handle of this number and these
    /// element edits, with these new elements; the flag says whether the new
    /// sequence holds only scalars.
    Reconciled(Seq<char>, nat, Seq<SeqEdit>, bool, Seq<Yaml>),
    /// The tree held no sequence under the key, so nothing was done.
    NoSequence(Seq<char>),
}

/// The tree edit writes `value` under `key`.
pub open spec fn wrote(t: TreeEdit, key: Seq<char>, value: Yaml) -> bool {
    t matches TreeEdit::Wrote(k, v, built, w) && k == key && v == value && single_entry(w, key, value) && (
    built <==> node_built(w, key))
}

/// Every element of the sequence is a scalar.
pub open spec fn all_scalar(s: Seq<Yaml>) -> bool {
    forall|i: int| 0 <= i < s.len() ==> is_scalar(#[trigger] s[i])
}

/// The tree call that one sequence edit makes on the sequence of handle `s`.
pub open spec fn seq_call(e: SeqEdit, s: nat, items: Seq<Yaml>) -> TreeCall {
    match e {
        SeqEdit::SetAt(i) => TreeCall::SeqSet(s, i as nat, items[i as int]),
        SeqEdit::Push(i) => TreeCall::SeqPush(s, items[i as int]),
        SeqEdit::RemoveAt(i) => TreeCall::SeqRemove(s, i as nat),
    }
}

/// The tree calls that sequence edits make, in order.
pub open spec fn seq_calls(ops: Seq<SeqEdit>, s: nat, items: Seq<Yaml>) -> Seq<TreeCall> {
    ops.map_values(|e: SeqEdit| seq_call(e, s, items))
}

/// The tree calls that a tree edit made on the mapping of handle `m`.
pub open spec fn edit_calls(t: TreeEdit, m: nat) -> Seq<TreeCall>
    decreases t, 0nat,
{
    match t {
        TreeEdit::Removed(k) => seq![TreeCall::Remove(m, k)],
        TreeEdit::Wrote(k, _, built, w) => write_calls(m, k, built, w),
        TreeEdit::Descended(k, s, sub) => seq![TreeCall::SubMap(m, k)] + calls_upto(sub, s, sub.len()),
        TreeEdit::Reconciled(k, s, ops, _, items) => seq![TreeCall::SubSeq(m, k)] + seq_calls(ops, s, items),
        TreeEdit::NoSequence(_) => seq![],
    }
}

/// The tree calls that the first `n` tree edits made on the mapping of handle `m`.
pub open spec fn calls_upto(trace: Seq<TreeEdit>, m: nat, n: nat) -> Seq<TreeCall>
    decreases trace, n,
{
    if n == 0 || n > trace.len() {
        seq![]
    } else {
        calls_upto(trace, m, (n - 1) as nat) + edit_calls(trace[n - 1], m)
    }
}

/// The tree calls that tree edits made on the mapping of handle `m`, in order.
pub open spec fn trace_calls(trace: Seq<TreeEdit>, m: nat) -> Seq<TreeCall> {
    calls_upto(trace, m, trace.len())
}

/// The tree edit carries out the plan's edit `e` on the mapping of handle `m`
/// of the tree from `origin`, whose calls so far are `prefix`: a removal
/// removes the old entry's key; a write writes the new value; a descent
/// recurses into the sub-mapping with its own plan where the tree holds one
/// under the key, and otherwise writes the new value; a reconciliation makes
/// the sequence plan's element edits where the tree holds a sequence under the
/// key, and otherwise does nothing.
pub open spec fn edit_follows(
    t: TreeEdit,
    old: Seq<(Yaml, Yaml)>,
    new: Seq<(Yaml, Yaml)>,
    e: KeyEdit,
    origin: Seq<char>,
    prefix: Seq<TreeCall>,
    m: nat,
    maps: nat,
    seqs: nat,
) -> bool
    decreases t,
{
    match e {
        KeyEdit::Remove(i) => t == TreeEdit::Removed(key_text(old[i as int])),
        KeyEdit::Write(j) => wrote(t, key_text(new[j as int]), new[j as int].1),
        KeyEdit::Descend(i, j) => match t {
            TreeEdit::Descended(k, s, sub) => k == key_text(new[j as int]) && log_has_sub_map(origin, prefix, m, k)
                && s == maps && trace_follows(
                sub,
                origin,
                prefix.push(TreeCall::SubMap(m, k)),
                s,
                maps + 1,
                seqs,
                old[i as int].1->Mapping_0@,
                new[j as int].1->Mapping_0@,
            ),
            _ => !log_has_sub_map(origin, prefix, m, key_text(new[j as int])) && wrote(
                t,
                key_text(new[j as int]),
                new[j as int].1,
            ),
        },
        KeyEdit::Reconcile(i, j) => match t {
            TreeEdit::Reconciled(k, s, ops, ok, items) => k == key_text(new[j as int]) && log_has_sub_seq(
                origin,
                prefix,
                m,
                k,
            ) && s == seqs && items == new[j as int].1->Sequence_0@ && ops == sequence_plan(
                old[i as int].1->Sequence_0@,
                items,
            ).0 && (ok <==> all_scalar(items)),
            _ => !log_has_sub_seq(origin, prefix, m, key_text(new[j as int])) && t == TreeEdit::NoSequence(
                key_text(new[j as int]),
            ),
        },
    }
}

/// The tree edits carry out the mapping plan from `old` to `new` on the
/// mapping of handle `m` of the tree from `origin`, whose calls before them
/// are `log`: one for each edit of the plan, in order, each made on the tree
/// as the calls before it left it.
pub open spec fn trace_follows(
    trace: Seq<TreeEdit>,
    origin: Seq<char>,
    log: Seq<TreeCall>,
    m: nat,
    maps: nat,
    seqs: nat,
    old: Seq<(Yaml, Yaml)>,
    new: Seq<(Yaml, Yaml)>,
) -> bool
    decreases trace,
{
    trace.len() == mapping_plan(old, new).len() && forall|k: int|
        0 <= k < trace.len() ==> edit_follows(
            #[trigger] trace[k],
            old,
            new,
            mapping_plan(old, new)[k],
            origin,
            log + calls_upto(trace, m, k as nat),
            m,
            maps + map_handles(calls_upto(trace, m, k as nat)),
            seqs + seq_handles(calls_upto(trace, m, k as nat)),
        )
}

proof fn lemma_seq_calls_no_handles(ops: Seq<SeqEdit>, s: nat, items: Seq<Yaml>)
    ensures
        map_handles(seq_calls(ops, s, items)) == 0,
        seq_handles(seq_calls(ops, s, items)) == 0,
    decreases ops.len(),
{
    if ops.len() > 0 {
        lemma_seq_calls_no_handles(ops.drop_last(), s, items);
        let c = seq_call(ops.last(), s, items);
        assert(seq_calls(ops, s, items) =~= seq_calls(ops.drop_last(), s, items) + seq![c]);
        lemma_handles_concat(seq_calls(ops.drop_last(), s, items), seq![c]);
        lemma_handles_one(c);
    } else {
        assert(seq_calls(ops, s, items) =~= Seq::<TreeCall>::empty());
    }
}

proof fn lemma_write_calls_no_handles(m: nat, key: Seq<char>, built: bool, w: Yaml)
    ensures
        map_handles(write_calls(m, key, built, w)) == 0,
        seq_handles(write_calls(m, key, built, w)) == 0,
{
    if built {
        lemma_handles_one(TreeCall::SetKey(m, key, rendered_yaml(w)->0, key));
    }
}

proof fn lemma_calls_upto_push(trace: Seq<TreeEdit>, x: TreeEdit, m: nat, n: nat)
    requires
        n <= trace.len(),
    ensures
        calls_upto(trace.push(x), m, n) == calls_upto(trace, m, n),
    decreases n,
{
    if n > 0 {
        lemma_calls_upto_push(trace, x, m, (n - 1) as nat);
        assert(trace.push(x)[n - 1] == trace[n - 1]);
    }
}

proof fn lemma_nested_decreases(new: Vec<(Yaml, Yaml)>, j: int)
    requires
        0 <= j < new@.len(),
        new@[j].1 is Mapping,
    ensures
        decreases_to!(new => new@[j].1->Mapping_0),
{
    broadcast use vstd::std_specs::vec::axiom_vec_index_decreases;
    assert(decreases_to!(new => new[j]));
    assert(decreases_to!(new[j] => new[j].1));
    assert(decreases_to!(new[j].1 => new[j].1->Mapping_0));
}

/// Apply the differences between mappings `old` and `new` to the mapping of
/// handle `m`, as `mapping_plan` lays them out: keys that are gone are
/// removed, changed sub-mappings are descended into, changed sequences are
/// reconciled element-wise, every other change is written afresh. The
/// result records what was done for each edit of the plan; the tree's calls
/// grow by exactly the calls those edits made.
#[verifier::rlimit(60)]
#[verifier::spinoff_prover]
fn apply_mapping(tree: &mut EditTree, m: MapRef, prev: &Vec<(Yaml, Yaml)>, new: &Vec<(Yaml, Yaml)>) -> (trace: Ghost<
    Seq<TreeEdit>,
>)
    requires
        m.0 < old(tree).map_count(),
    ensures
        trace_follows(
            trace@,
            old(tree).origin(),
            old(tree).log(),
            m.0 as nat,
            old(tree).map_count(),
            old(tree).seq_count(),
            prev@,
            new@,
        ),
        final(tree).origin() == old(tree).origin(),
        final(tree).log() == old(tree).log() + trace_calls(trace@, m.0 as nat),
        final(tree).map_count() == old(tree).map_count() + map_handles(trace_calls(trace@, m.0 as nat)),
        final(tree).seq_count() == old(tree).seq_count() + seq_handles(trace_calls(trace@, m.0 as nat)),
    decreases new,
{
    let plan = plan_mapping(prev, new);
    let old_len = prev.len();
    let new_len = new.len();
    proof {
        lemma_mapping_plan_indices(prev@, new@);
    }
    let ghost origin = tree.origin();
    let ghost log0 = tree.log();
    let ghost maps0 = tree.map_count();
    let ghost seqs0 = tree.seq_count();
    let ghost mm = m.0 as nat;
    let ghost mut done: Seq<TreeEdit> = seq![];
    proof {
        assert(trace_calls(done, mm) =~= Seq::<TreeCall>::empty());
        assert(map_handles(Seq::<TreeCall>::empty()) == 0);
        assert(seq_handles(Seq::<TreeCall>::empty()) == 0);
    }
    let mut p: usize = 0;
    while p < plan.len()
        invariant
            plan@ == mapping_plan(prev@, new@),
            forall|k: int| 0 <= k < plan@.len() ==> edit_fits(prev@, new@, #[trigger] plan@[k]),
            0 <= p <= plan@.len(),
            done.len() == p,
            mm == m.0 as nat,
            m.0 < tree.map_count(),
            tree.origin() == origin,
            tree.log() == log0 + trace_calls(done, mm),
            tree.map_count() == maps0 + map_handles(trace_calls(done, mm)),
            tree.seq_count() == seqs0 + seq_handles(trace_calls(done, mm)),
            forall|k: int|
                0 <= k < p ==> edit_follows(
                    #[trigger] done[k],
                    prev@,
                    new@,
                    plan@[k],
                    origin,
                    log0 + calls_upto(done, mm, k as nat),
                    mm,
                    maps0 + map_handles(calls_upto(done, mm, k as nat)),
                    seqs0 + seq_handles(calls_upto(done, mm, k as nat)),
                ),
        decreases plan@.len() - p,
    {
        assert(edit_fits(prev@, new@, plan@[p as int]));
        let ghost log_before = tree.log();
        let ghost maps_before = tree.map_count();
        let ghost seqs_before = tree.seq_count();
        let ghost step: TreeEdit;
        match plan[p] {
            KeyEdit::Remove(i) => {
                let key = prev[i].0.as_str().unwrap();
                tree.remove(m, key);
                proof {
                    step = TreeEdit::Removed(key@);
                    lemma_handles_one(TreeCall::Remove(mm, key@));
                }
            },
            KeyEdit::Write(j) => {
                let key = new[j].0.as_str().unwrap();
                let (built, w) = write_entry(tree, m, key, &new[j].1);
                proof {
                    step = TreeEdit::Wrote(key@, new@[j as int].1, built, w@);
                    lemma_write_calls_no_handles(mm, key@, built, w@);
                }
            },
            KeyEdit::Descend(i, j) => {
                let key = new[j].0.as_str().unwrap();
                match (tree.sub_mapping(m, key), &prev[i].1, &new[j].1) {
                    (Some(sub), Yaml::Mapping(old_sub), Yaml::Mapping(new_sub)) => {
                        proof {
                            lemma_nested_decreases(*new, j as int);
                        }
                        let sub_trace = apply_mapping(tree, sub, old_sub, new_sub);
                        proof {
                            step = TreeEdit::Descended(key@, sub.0 as nat, sub_trace@);
                            assert(tree.log() =~= log_before + edit_calls(step, mm));
                            lemma_handles_one(TreeCall::SubMap(mm, key@));
                            lemma_handles_concat(seq![TreeCall::SubMap(mm, key@)], trace_calls(sub_trace@, sub.0 as nat));
                        }
                    },
                    _ => {
                        let (built, w) = write_entry(tree, m, key, &new[j].1);
                        proof {
                            step = TreeEdit::Wrote(key@, new@[j as int].1, built, w@);
                            lemma_write_calls_no_handles(mm, key@, built, w@);
                        }
                    },
                }
            },
            KeyEdit::Reconcile(i, j) => {
                let key = new[j].0.as_str().unwrap();
                match (tree.sub_sequence(m, key), &prev[i].1, &new[j].1) {
                    (Some(seq), Yaml::Sequence(old_seq), Yaml::Sequence(new_seq)) => {
                        let (ok, ops) = reconcile_sequence(tree, seq, old_seq, new_seq);
                        proof {
                            step = TreeEdit::Reconciled(key@, seq.0 as nat, ops@, ok, new_seq@);
                            assert(tree.log() =~= log_before + edit_calls(step, mm));
                            lemma_handles_one(TreeCall::SubSeq(mm, key@));
                            lemma_seq_calls_no_handles(ops@, seq.0 as nat, new_seq@);
                            lemma_handles_concat(seq![TreeCall::SubSeq(mm, key@)], seq_calls(ops@, seq.0 as nat, new_seq@));
                        }
                    },
                    _ => {
                        proof {
                            step = TreeEdit::NoSequence(key@);
                        }
                    },
                }
            },
        }
        proof {
            assert(tree.log() =~= log_before + edit_calls(step, mm));
            assert(tree.map_count() == maps_before + map_handles(edit_calls(step, mm)));
            assert(tree.seq_count() == seqs_before + seq_handles(edit_calls(step, mm)));
            assert(edit_follows(step, prev@, new@, plan@[p as int], origin, log_before, mm, maps_before, seqs_before));
            let ghost older = done;
            lemma_calls_upto_push(older, step, mm, older.len());
            done = done.push(step);
            assert forall|k: int| 0 <= k < p + 1 implies edit_follows(
                #[trigger] done[k],
                prev@,
                new@,
                plan@[k],
                origin,
                log0 + calls_upto(done, mm, k as nat),
                mm,
                maps0 + map_handles(calls_upto(done, mm, k as nat)),
                seqs0 + seq_handles(calls_upto(done, mm, k as nat)),
            ) by {
                lemma_calls_upto_push(older, step, mm, k as nat);
                if k < p {
                    assert(done[k] == older[k]);
                }
            }
            assert(done[p as int] == step);
            assert(calls_upto(done, mm, (p + 1) as nat) == calls_upto(done, mm, p as nat) + edit_calls(step, mm));
            lemma_handles_concat(trace_calls(older, mm), edit_calls(step, mm));
            assert(tree.log() =~= log0 + trace_calls(done, mm));
        }
        p = p + 1;
    }
    Ghost(done)
}

/// The key that a tree edit works on.
pub open spec fn edit_key(t: TreeEdit) -> Seq<char> {
    match t {
        TreeEdit::Removed(k) => k,
        TreeEdit::Wrote(k, _, _, _) => k,
        TreeEdit::Descended(k, _, _) => k,
        TreeEdit::Reconciled(k, _, _, _, _) => k,
        TreeEdit::NoSequence(k) => k,
    }
}

/// The value of string key `k` changed: the new mapping holds it, and the
/// old one lacks it or holds a value not equal to the new one.
pub open spec fn key_changed(old: Seq<(Yaml, Yaml)>, new: Seq<(Yaml, Yaml)>, k: Seq<char>) -> bool {
    string_map(new).dom().contains(k) && !(string_map(old).dom().contains(k) && yaml_eq(
        string_map(old)[k],
        string_map(new)[k],
    ))
}

/// The new entry `j` is the one entry of `new` with its string key.
proof fn lemma_unique_entry(new: Seq<(Yaml, Yaml)>, j: int)
    requires
        0 <= j < new.len(),
        new[j].0 is String,
        unique_string_keys(new),
    ensures
        string_map(new).dom().contains(key_text(new[j])),
        string_map(new)[key_text(new[j])] == new[j].1,
        key_index(new, new[j].0) == Some(j),
{
    lemma_key_index(new, new[j].0);
    lemma_string_map_lookup(new, new[j].0);
    let jj = key_index(new, new[j].0)->0;
    if jj != j {
        if jj < j {
            assert(key_text(new[jj]) != key_text(new[j]));
        } else {
            assert(key_text(new[j]) != key_text(new[jj]));
        }
    }
}

/// The tree edits made for a mapping touch exactly the keys that changed:
/// every old string key that the new mapping lacks is removed, every changed
/// key gets an edit that is no removal, and no other key is touched. So keys
/// whose value did not change, and entries whose key is no string, are left
/// alone. The new mapping's string keys are distinct, as a parsed mapping's are.
/// The key and kind of the tree edit for the plan's edit `k`.
proof fn lemma_trace_entry_key(
    trace: Seq<TreeEdit>,
    origin: Seq<char>,
    log: Seq<TreeCall>,
    m: nat,
    maps: nat,
    seqs: nat,
    old: Seq<(Yaml, Yaml)>,
    new: Seq<(Yaml, Yaml)>,
    k: int,
)
    requires
        trace_follows(trace, origin, log, m, maps, seqs, old, new),
        0 <= k < trace.len(),
    ensures
        k < mapping_plan(old, new).len(),
        (trace[k] is Removed) <==> (mapping_plan(old, new)[k] is Remove),
        mapping_plan(old, new)[k] matches KeyEdit::Remove(i) ==> trace[k] == TreeEdit::Removed(key_text(old[i as int])),
        mapping_plan(old, new)[k] matches KeyEdit::Write(j) ==> edit_key(trace[k]) == key_text(new[j as int]),
        mapping_plan(old, new)[k] matches KeyEdit::Descend(_, j) ==> edit_key(trace[k]) == key_text(new[j as int]),
        mapping_plan(old, new)[k] matches KeyEdit::Reconcile(_, j) ==> edit_key(trace[k]) == key_text(new[j as int]),
{
    assert(edit_follows(
        trace[k],
        old,
        new,
        mapping_plan(old, new)[k],
        origin,
        log + calls_upto(trace, m, k as nat),
        m,
        maps + map_handles(calls_upto(trace, m, k as nat)),
        seqs + seq_handles(calls_upto(trace, m, k as nat)),
    ));
}

pub proof fn lemma_tree_edits_touch_changed_keys(
    trace: Seq<TreeEdit>,
    origin: Seq<char>,
    log: Seq<TreeCall>,
    m: nat,
    maps: nat,
    seqs: nat,
    old: Seq<(Yaml, Yaml)>,
    new: Seq<(Yaml, Yaml)>,
)
    requires
        old.len() <= usize::MAX,
        new.len() <= usize::MAX,
        unique_string_keys(new),
        trace_follows(trace, origin, log, m, maps, seqs, old, new),
    ensures
        forall|k: int|
            0 <= k < trace.len() && #[trigger] trace[k] is Removed ==> string_map(old).dom().contains(
                edit_key(trace[k]),
            ) && !string_map(new).dom().contains(edit_key(trace[k])),
        forall|k: int|
            0 <= k < trace.len() && !(#[trigger] trace[k] is Removed) ==> key_changed(old, new, edit_key(trace[k])),
        forall|key: Seq<char>|
            #[trigger] string_map(old).dom().contains(key) && !string_map(new).dom().contains(key)
                ==> trace.contains(TreeEdit::Removed(key)),
        forall|key: Seq<char>|
            #[trigger] key_changed(old, new, key) ==> exists|k: int|
                0 <= k < trace.len() && !(trace[k] is Removed) && #[trigger] edit_key(trace[k]) == key,
{
    let plan = mapping_plan(old, new);
    lemma_mapping_plan_indices(old, new);
    assert forall|k: int| 0 <= k < trace.len() implies (#[trigger] trace[k] is Removed ==> string_map(
        old,
    ).dom().contains(edit_key(trace[k])) && !string_map(new).dom().contains(edit_key(trace[k]))) && (!(
    trace[k] is Removed) ==> key_changed(old, new, edit_key(trace[k]))) by {
        lemma_trace_entry_key(trace, origin, log, m, maps, seqs, old, new, k);
        assert(edit_fits(old, new, plan[k]));
        assert(plan.contains(plan[k]));
        match plan[k] {
            KeyEdit::Remove(i) => {
                lemma_plan_removes_only_missing_keys(old, new, i as int);
                lemma_string_map_lookup(new, old[i as int].0);
                lemma_string_map_has_key(old, i as int);
            },
            KeyEdit::Write(j) => {
                lemma_changed_entry(old, new, j as int, k);
            },
            KeyEdit::Descend(_, j) => {
                lemma_changed_entry(old, new, j as int, k);
            },
            KeyEdit::Reconcile(_, j) => {
                lemma_changed_entry(old, new, j as int, k);
            },
        }
    }
    assert forall|key: Seq<char>|
        #[trigger] string_map(old).dom().contains(key) && !string_map(new).dom().contains(key) implies trace.contains(
        TreeEdit::Removed(key),
    ) by {
        lemma_string_map_keys(old, key);
        let i = choose|i: int| 0 <= i < old.len() && old[i].0 is String && #[trigger] key_text(old[i]) == key;
        lemma_string_map_lookup(new, old[i].0);
        lemma_plan_removes_missing_keys(old, new, i);
        let k = choose|k: int| 0 <= k < plan.len() && plan[k] == KeyEdit::Remove(i as usize);
        lemma_trace_entry_key(trace, origin, log, m, maps, seqs, old, new, k);
        assert(trace[k] == TreeEdit::Removed(key));
    }
    assert forall|key: Seq<char>| #[trigger] key_changed(old, new, key) implies exists|k: int|
        0 <= k < trace.len() && !(trace[k] is Removed) && #[trigger] edit_key(trace[k]) == key by {
        lemma_string_map_keys(new, key);
        let j = choose|j: int| 0 <= j < new.len() && new[j].0 is String && #[trigger] key_text(new[j]) == key;
        lemma_unique_entry(new, j);
        lemma_key_index(old, new[j].0);
        lemma_string_map_lookup(old, new[j].0);
        lemma_plan_edits_changed_entries(old, new, j);
        let e = match key_index(old, new[j].0) {
            Some(i) => if old[i].1 is Mapping && new[j].1 is Mapping {
                KeyEdit::Descend(i as usize, j as usize)
            } else if old[i].1 is Sequence && new[j].1 is Sequence {
                KeyEdit::Reconcile(i as usize, j as usize)
            } else {
                KeyEdit::Write(j as usize)
            },
            None => KeyEdit::Write(j as usize),
        };
        let k = choose|k: int| 0 <= k < plan.len() && plan[k] == e;
        lemma_trace_entry_key(trace, origin, log, m, maps, seqs, old, new, k);
        assert(!(trace[k] is Removed) && edit_key(trace[k]) == key);
    }
}

/// A plan edit that names the new entry `j` names one whose string key changed.
proof fn lemma_changed_entry(old: Seq<(Yaml, Yaml)>, new: Seq<(Yaml, Yaml)>, j: int, k: int)
    requires
        old.len() <= usize::MAX,
        new.len() <= usize::MAX,
        unique_string_keys(new),
        0 <= j < new.len(),
        0 <= k < mapping_plan(old, new).len(),
        names_new(mapping_plan(old, new)[k], j),
    ensures
        new[j].0 is String,
        key_changed(old, new, key_text(new[j])),
{
    if !(new[j].0 is String) || (key_index(old, new[j].0) matches Some(i) && yaml_eq(old[i].1, new[j].1)) {
        lemma_plan_leaves_unchanged_entries(old, new, j);
        assert(!names_new(mapping_plan(old, new)[k], j));
    }
    lemma_unique_entry(new, j);
    lemma_key_index(old, new[j].0);
    lemma_string_map_lookup(old, new[j].0);
}

proof fn lemma_common_edits_complete(old: Seq<Yaml>, new: Seq<Yaml>, n: int)
    requires
        n <= new.len(),
        all_scalar(new),
    ensures
        common_edits(old, new, n).1,
    decreases n,
{
    if n > 0 {
        lemma_common_edits_complete(old, new, n - 1);
        assert(is_scalar(new[n - 1]));
    }
}

proof fn lemma_push_edits_complete(new: Seq<Yaml>, from: int, n: int)
    requires
        0 <= from,
        n <= new.len(),
        all_scalar(new),
    ensures
        push_edits(new, from, n).1,
    decreases n - from,
{
    if n > from {
        lemma_push_edits_complete(new, from, n - 1);
        assert(is_scalar(new[n - 1]));
    }
}

/// A sequence whose new elements are all scalars is reconciled in full: the
/// element edits that a reconciliation makes (the sequence plan's) turn the
/// old elements into the new ones, each equal to the new one at its place.
pub proof fn lemma_scalar_sequence_reconciles(old: Seq<Yaml>, new: Seq<Yaml>)
    requires
        old.len() <= usize::MAX,
        new.len() <= usize::MAX,
        all_scalar(new),
    ensures
        sequence_plan(old, new).1,
        apply_seq_edits(old, new, sequence_plan(old, new).0).len() == new.len(),
        forall|i: int| 0 <= i < new.len() ==> yaml_eq(#[trigger] apply_seq_edits(old, new, sequence_plan(old, new).0)[i], new[i]),
{
    let c = if old.len() < new.len() { old.len() as int } else { new.len() as int };
    lemma_common_edits_complete(old, new, c);
    lemma_push_edits_complete(new, old.len() as int, new.len() as int);
    lemma_sequence_plan_reconciles(old, new);
}

/// Whether every element of `s` is a scalar.
fn all_scalars(s: &Vec<Yaml>) -> (r: bool)
    ensures
        r == all_scalar(s@),
{
    let mut i: usize = 0;
    while i < s.len()
        invariant
            0 <= i <= s@.len(),
            forall|k: int| 0 <= k < i ==> is_scalar(#[trigger] s@[k]),
        decreases s@.len() - i,
    {
        match &s[i] {
            Yaml::Bool(_) | Yaml::String(_) | Yaml::Number(_) => {},
            _ => {
                assert(!is_scalar(s@[i as int]));
                return false;
            },
        }
        i = i + 1;
    }
    true
}

/// Reconcile a sequence element-wise, as `sequence_plan` lays it out, on the
/// sequence of handle `s`: changed elements are overwritten, new tail
/// elements appended, removed tail elements dropped from the end, stopping at
/// the first changed element that is no scalar. The result says whether
/// every new element is a scalar (if not, the caller's check sends the
/// document to a rebuild), and records the element edits made: exactly the
/// plan's, whose calls are all the tree gets.
fn reconcile_sequence(tree: &mut EditTree, s: SeqRef, prev: &Vec<Yaml>, new: &Vec<Yaml>) -> (r: (bool, Ghost<Seq<SeqEdit>>))
    requires
        s.0 < old(tree).seq_count(),
    ensures
        r.0 <==> all_scalar(new@),
        r.1@ == sequence_plan(prev@, new@).0,
        final(tree).origin() == old(tree).origin(),
        final(tree).map_count() == old(tree).map_count(),
        final(tree).seq_count() == old(tree).seq_count(),
        final(tree).log() == old(tree).log() + seq_calls(r.1@, s.0 as nat, new@),
{
    let (plan, complete) = plan_sequence(prev, new);
    let new_len = new.len();
    proof {
        lemma_sequence_plan_indices(prev@, new@);
    }
    let ghost origin = tree.origin();
    let ghost log0 = tree.log();
    let ghost maps0 = tree.map_count();
    let ghost seqs0 = tree.seq_count();
    let ghost mut done: Seq<SeqEdit> = seq![];
    let mut p: usize = 0;
    while p < plan.len()
        invariant
            plan@ == sequence_plan(prev@, new@).0,
            forall|k: int|
                0 <= k < plan@.len() ==> match #[trigger] plan@[k] {
                    SeqEdit::SetAt(i) => i < new@.len() && is_scalar(new@[i as int]),
                    SeqEdit::Push(i) => i < new@.len() && is_scalar(new@[i as int]),
                    SeqEdit::RemoveAt(i) => true,
                },
            0 <= p <= plan@.len(),
            done == plan@.take(p as int),
            s.0 < tree.seq_count(),
            tree.origin() == origin,
            tree.map_count() == maps0,
            tree.seq_count() == seqs0,
            tree.log() == log0 + seq_calls(done, s.0 as nat, new@),
        decreases plan@.len() - p,
    {
        let e = plan[p];
        assert(e == plan@[p as int]);
        match e {
            SeqEdit::SetAt(i) => tree.seq_set(s, i, &new[i]),
            SeqEdit::Push(i) => tree.seq_push(s, &new[i]),
            SeqEdit::RemoveAt(i) => tree.seq_remove(s, i),
        }
        proof {
            let ghost prev = done;
            done = done.push(e);
            assert(done =~= plan@.take(p + 1));
            assert(seq_calls(done, s.0 as nat, new@) =~= seq_calls(prev, s.0 as nat, new@).push(
                seq_call(e, s.0 as nat, new@),
            ));
            assert(tree.log() =~= log0 + seq_calls(done, s.0 as nat, new@));
        }
        p = p + 1;
    }
    proof {
        assert(done =~= plan@);
        let c = if prev@.len() < new@.len() { prev@.len() as int } else { new@.len() as int };
        if all_scalar(new@) {
            lemma_common_edits_complete(prev@, new@, c);
            lemma_push_edits_complete(new@, prev@.len() as int, new@.len() as int);
        }
    }
    let scalars = all_scalars(new);
    (complete && scalars, Ghost(done))
}

/// A parsed YAML document that can be edited as a [`Yaml`] value while
/// keeping the comments and formatting it was parsed with wherever an edit
/// does not reach.
pub struct YamlValue {
    /// The comment-preserving edit tree.
    doc: EditTree,
    /// The leading comment block, which the edit tree drops.
    leading: String,
    /// The current value.
    value: Yaml,
    /// The edit tree's text, as it printed after the last change.
    rendered: String,
}

/// The calls that the in-place step of a change from `before` to `value`
/// makes on the tree from `origin` whose calls so far are `log` and which
/// has given out `count` mapping handles and `seqs` sequence handles: where both values are mappings and
/// the tree's root is one, a lookup of the root, then the calls of tree edits
/// that carry out the mapping plan from `before` to `value` on it; else none.
pub open spec fn in_place_calls(
    calls: Seq<TreeCall>,
    before: Yaml,
    value: Yaml,
    origin: Seq<char>,
    log: Seq<TreeCall>,
    count: nat,
    seqs: nat,
) -> bool {
    if before is Mapping && value is Mapping && log_has_root(origin, log) {
        exists|trace: Seq<TreeEdit>|
            #[trigger] trace_follows(
                trace,
                origin,
                log.push(TreeCall::Root),
                count,
                count + 1,
                seqs,
                before->Mapping_0@,
                value->Mapping_0@,
            ) && calls == seq![TreeCall::Root] + trace_calls(trace, count)
    } else {
        calls == Seq::<TreeCall>::empty()
    }
}

/// Where a change to `v` leaves a document whose tree, from `origin`, got the
/// calls `log` in place and whose leading block is `leading`: the edited tree
/// stays when its text, behind the leading block, parses back to `v`;
/// otherwise the tree is rebuilt from `v`'s own YAML text where `v` can be
/// rebuilt, and the edited tree stays where it cannot.
pub open spec fn settled(d: YamlValue, origin: Seq<char>, log: Seq<TreeCall>, leading: Seq<char>, v: Yaml) -> bool {
    if text_matches(leading + log_text(origin, log), v) {
        d.tree_origin() == origin && d.tree_log() == log
    } else if rebuildable(v) {
        d.tree_origin() == rendered_yaml(v)->0 && d.tree_log() == Seq::<TreeCall>::empty()
    } else {
        d.tree_origin() == origin && d.tree_log() == log
    }
}

impl YamlValue {
    /// The current value.
    pub closed spec fn value(&self) -> Yaml {
        self.value
    }

    /// The leading comment block.
    pub closed spec fn leading(&self) -> Seq<char> {
        self.leading@
    }

    /// The edit tree's text.
    pub closed spec fn rendered(&self) -> Seq<char> {
        self.rendered@
    }

    /// The text the edit tree was parsed from.
    pub closed spec fn tree_origin(&self) -> Seq<char> {
        self.doc.origin()
    }

    /// The calls made on the edit tree since it was parsed.
    pub closed spec fn tree_log(&self) -> Seq<TreeCall> {
        self.doc.log()
    }

    /// How many mapping handles the edit tree gave out.
    pub closed spec fn tree_maps(&self) -> nat {
        self.doc.map_count()
    }

    /// How many sequence handles the edit tree gave out.
    pub closed spec fn tree_seqs(&self) -> nat {
        self.doc.seq_count()
    }

    /// The document's text: the leading comment block, then the edit tree's text.
    pub open spec fn text(&self) -> Seq<char> {
        self.leading() + self.rendered()
    }

    /// Parse `text` into an editable document. It succeeds exactly when both
    /// `serde_norway` and `yaml_edit` accept the text.
    pub fn parse(text: &str) -> (r: Result<YamlValue, Error>)
        ensures
            match r {
                Ok(d) => parsed_yaml(text@) == Some(d.value()) && edit_tree_accepts(text@)
                    && d.leading() == spec_leading_block(text@) && d.rendered() == edit_tree_text(text@)
                    && d.tree_origin() == text@ && d.tree_log() == Seq::<TreeCall>::empty()
                    && d.tree_maps() == 0 && d.tree_seqs() == 0,
                Err(Error::Yaml(_)) => parsed_yaml(text@) is None,
                Err(Error::Edit(m)) => parsed_yaml(text@) is Some && !edit_tree_accepts(text@) && m@ == edit_parse_message(text@),
                Err(Error::RoundTrip) => false,
            },
    {
        let value = match parse_value(text) {
            Ok(v) => v,
            Err(e) => return Err(Error::Yaml(e)),
        };
        let leading = leading_block(text);
        let (doc, rendered) = match EditTree::parse(text) {
            Ok(parsed) => parsed,
            Err(message) => return Err(Error::Edit(message)),
        };
        Ok(YamlValue { doc, leading, value, rendered })
    }

    /// Borrow the current value.
    pub fn get(&self) -> (r: &Yaml)
        ensures
            *r == self.value(),
    {
        &self.value
    }

    /// Replace the whole value, preserving the comments and formatting of
    /// everything that did not change. Setting a value equal to the current
    /// one leaves the tree and its text as they are. Otherwise the tree's
    /// mapping, where both values are mappings, is edited in place as the
    /// mapping plan lays out; the edited tree stays when its text parses back
    /// to the new value, and is rebuilt from the value otherwise.
    pub fn set(&mut self, value: Yaml)
        ensures
            final(self).value() == value,
            final(self).leading() == old(self).leading(),
            old(self).rendered() == log_text(old(self).tree_origin(), old(self).tree_log())
                ==> final(self).rendered() == log_text(final(self).tree_origin(), final(self).tree_log()),
            yaml_eq(old(self).value(), value) ==> final(self).rendered() == old(self).rendered()
                && final(self).tree_origin() == old(self).tree_origin() && final(self).tree_log()
                == old(self).tree_log(),
            !yaml_eq(old(self).value(), value) ==> exists|calls: Seq<TreeCall>|
                #[trigger] in_place_calls(
                    calls,
                    old(self).value(),
                    value,
                    old(self).tree_origin(),
                    old(self).tree_log(),
                    old(self).tree_maps(),
                    old(self).tree_seqs(),
                ) && settled(
                    *final(self),
                    old(self).tree_origin(),
                    old(self).tree_log() + calls,
                    old(self).leading(),
                    value,
                ),
            !yaml_eq(old(self).value(), value) && rebuildable(value) ==> reconciled_text(
                final(self).leading(),
                final(self).rendered(),
                value,
            ),
    {
        let mut before = value;
        std::mem::swap(&mut self.value, &mut before);
        let ghost prior = *self;
        let calls = self.reconcile(&before);
        assert(before == old(self).value());
        assert(prior.doc == old(self).doc && prior.leading == old(self).leading);
        assert(!yaml_eq(old(self).value(), value) ==> in_place_calls(
            calls@,
            old(self).value(),
            value,
            old(self).tree_origin(),
            old(self).tree_log(),
            old(self).tree_maps(),
            old(self).tree_seqs(),
        ) && settled(*self, old(self).tree_origin(), old(self).tree_log() + calls@, old(self).leading(), value));
    }

    /// The current YAML text, comments and formatting preserved.
    pub fn get_string(&self) -> (r: String)
        ensures
            r@ == self.text(),
    {
        let mut out = self.leading.clone();
        out.append(self.rendered.as_str());
        out
    }

    /// Replace the whole document by parsing `text` (its comments are kept).
    /// On an error the document is left as it was.
    pub fn set_string(&mut self, text: &str) -> (r: Result<(), Error>)
        ensures
            match r {
                Ok(()) => parsed_yaml(text@) == Some(final(self).value()) && edit_tree_accepts(text@)
                    && final(self).leading() == spec_leading_block(text@) && final(self).rendered()
                    == edit_tree_text(text@) && final(self).tree_origin() == text@ && final(self).tree_log()
                    == Seq::<TreeCall>::empty(),
                Err(Error::Yaml(_)) => parsed_yaml(text@) is None && *final(self) == *old(self),
                Err(Error::Edit(m)) => parsed_yaml(text@) is Some && !edit_tree_accepts(text@)
                    && m@ == edit_parse_message(text@) && *final(self) == *old(self),
                Err(Error::RoundTrip) => false,
            },
    {
        match YamlValue::parse(text) {
            Ok(d) => {
                *self = d;
                Ok(())
            },
            Err(e) => Err(e),
        }
    }

    /// Bring the edit tree in line with the current value, given the value it
    /// held `before`: in place where it can, otherwise rebuilt from the value.
    /// The result is the calls the in-place step made.
    fn reconcile(&mut self, before: &Yaml) -> (calls: Ghost<Seq<TreeCall>>)
        ensures
            final(self).value() == old(self).value(),
            final(self).leading() == old(self).leading(),
            old(self).rendered() == log_text(old(self).tree_origin(), old(self).tree_log())
                ==> final(self).rendered() == log_text(final(self).tree_origin(), final(self).tree_log()),
            yaml_eq(*before, old(self).value()) ==> final(self).rendered() == old(self).rendered()
                && final(self).tree_origin() == old(self).tree_origin() && final(self).tree_log()
                == old(self).tree_log(),
            !yaml_eq(*before, old(self).value()) ==> in_place_calls(
                calls@,
                *before,
                old(self).value(),
                old(self).tree_origin(),
                old(self).tree_log(),
                old(self).tree_maps(),
                old(self).tree_seqs(),
            ) && settled(
                *final(self),
                old(self).tree_origin(),
                old(self).tree_log() + calls@,
                old(self).leading(),
                old(self).value(),
            ),
            !yaml_eq(*before, old(self).value()) && rebuildable(old(self).value()) ==> reconciled_text(
                final(self).leading(),
                final(self).rendered(),
                old(self).value(),
            ),
    {
        if before.equals(&self.value) {
            return Ghost(Seq::<TreeCall>::empty());
        }
        let ghost origin = self.doc.origin();
        let ghost log0 = self.doc.log();
        let ghost count = self.doc.map_count();
        let ghost seqs = self.doc.seq_count();
        let ghost mut calls: Seq<TreeCall> = seq![];
        if let (Yaml::Mapping(old_map), Yaml::Mapping(new_map)) = (before, &self.value) {
            if let Some(root) = self.doc.root() {
                let trace = apply_mapping(&mut self.doc, root, old_map, new_map);
                proof {
                    calls = seq![TreeCall::Root] + trace_calls(trace@, count);
                    assert(self.doc.log() =~= log0 + calls);
                    assert(trace_follows(
                        trace@,
                        origin,
                        log0.push(TreeCall::Root),
                        count,
                        count + 1,
                        seqs,
                        old_map@,
                        new_map@,
                    ));
                }
            }
        }
        assert(self.doc.log() =~= log0 + calls);
        let text = self.doc.text();
        self.settle(text);
        Ghost(calls)
    }

    /// Settle on the edit tree after an in-place edit, given `text`, what it
    /// prints: keep the edited tree when its text, behind the leading block,
    /// parses back to the value; otherwise rebuild the tree from the value's
    /// own YAML text, or, where the value cannot be rebuilt, keep the edited
    /// tree all the same.
    fn settle(&mut self, text: String)
        requires
            text@ == log_text(old(self).tree_origin(), old(self).tree_log()),
        ensures
            final(self).value() == old(self).value(),
            final(self).leading() == old(self).leading(),
            final(self).rendered() == log_text(final(self).tree_origin(), final(self).tree_log()),
            settled(*final(self), old(self).tree_origin(), old(self).tree_log(), old(self).leading(), old(self).value()),
    {
        let mut whole = self.leading.clone();
        whole.append(text.as_str());
        let in_place_ok = match parse_value(whole.as_str()) {
            Ok(v) => v.equals(&self.value),
            Err(_) => false,
        };
        if in_place_ok {
            self.rendered = text;
            return;
        }
        if self.value.is_well_tagged() {
            if let Some(rebuilt) = render_value(&self.value) {
                if let Ok((doc, printed)) = EditTree::parse(rebuilt.as_str()) {
                    self.rendered = printed;
                    self.doc = doc;
                    return;
                }
            }
        }
        self.rendered = text;
    }
}

impl core::str::FromStr for YamlValue {
    type Err = Error;

    fn from_str(s: &str) -> (r: Result<YamlValue, Error>)
        ensures
            match r {
                Ok(d) => parsed_yaml(s@) == Some(d.value()) && edit_tree_accepts(s@) && d.leading()
                    == spec_leading_block(s@) && d.rendered() == edit_tree_text(s@),
                Err(Error::Yaml(_)) => parsed_yaml(s@) is None,
                Err(Error::Edit(m)) => parsed_yaml(s@) is Some && !edit_tree_accepts(s@) && m@ == edit_parse_message(s@),
                Err(Error::RoundTrip) => false,
            },
    {
        YamlValue::parse(s)
    }
}

/// A YAML document bound to a typed value `T`, editable while preserving
/// comments. The typed value and the text are kept in sync: the value is
/// what the document's value decodes to, and after every change the text is
/// checked to parse back to exactly the value's encoding.
pub struct YamlObject<T> {
    doc: YamlValue,
    value: T,
    text: String,
}

impl<T> YamlObject<T> {
    #[verifier::type_invariant]
    closed spec fn text_in_step(self) -> bool {
        self.text@ == self.doc.text()
    }

    /// The underlying document.
    pub closed spec fn doc(&self) -> YamlValue {
        self.doc
    }

    /// The typed value.
    pub closed spec fn value(&self) -> T {
        self.value
    }

    /// The document's text.
    pub closed spec fn text(&self) -> Seq<char> {
        self.text@
    }

    /// Parse `text` into a document and decode its value with `decode`.
    pub fn parse<F: Fn(&Yaml) -> Result<T, serde_norway::Error>>(text: &str, decode: F) -> (r: Result<
        YamlObject<T>,
        Error,
    >)
        requires
            forall|y: &Yaml| #[trigger] decode.requires((y,)),
        ensures
            match r {
                Ok(o) => parsed_yaml(text@) == Some(o.doc().value()) && edit_tree_accepts(text@)
                    && o.doc().leading() == spec_leading_block(text@) && o.doc().rendered()
                    == edit_tree_text(text@) && call_ensures(
                    decode,
                    (&o.doc().value(),),
                    Ok::<T, serde_norway::Error>(o.value()),
                ) && o.text() == o.doc().text(),
                Err(Error::Yaml(_)) => parsed_yaml(text@) is None || (edit_tree_accepts(text@)
                    && exists|e: serde_norway::Error|
                    call_ensures(decode, (&parsed_yaml(text@)->0,), Err::<T, serde_norway::Error>(e))),
                Err(Error::Edit(m)) => parsed_yaml(text@) is Some && !edit_tree_accepts(text@) && m@ == edit_parse_message(text@),
                Err(Error::RoundTrip) => false,
            },
    {
        let doc = YamlValue::parse(text)?;
        let value = match decode(doc.get()) {
            Ok(v) => v,
            Err(e) => return Err(Error::Yaml(e)),
        };
        let text = doc.get_string();
        Ok(YamlObject { doc, value, text })
    }

    /// Borrow the current value.
    pub fn get(&self) -> (r: &T)
        ensures
            *r == self.value(),
    {
        &self.value
    }

    /// Replace the value with `new`, its encoding given by `encode`,
    /// preserving comments. The edit is made on a fresh parse of the current
    /// text and kept only if the new text parses back to exactly the
    /// encoding; on any error the object is left exactly as it was.
    pub fn set<F: Fn(&T) -> Result<Yaml, serde_norway::Error>>(&mut self, new: T, encode: F) -> (r: Result<(), Error>)
        requires
            encode.requires((&new,)),
        ensures
            r is Err ==> *final(self) == *old(self),
            r is Ok ==> {
                &&& final(self).value() == new
                &&& call_ensures(encode, (&new,), Ok::<Yaml, serde_norway::Error>(final(self).doc().value()))
                &&& parsed_yaml(old(self).text()) is Some && edit_tree_accepts(old(self).text())
                &&& final(self).doc().leading() == spec_leading_block(old(self).text())
                &&& final(self).text() == final(self).doc().text()
                &&& text_matches(final(self).text(), final(self).doc().value())
                &&& is_comment_block(old(self).doc().leading()) ==> final(self).text().take(
                    old(self).doc().leading().len() as int,
                ) == old(self).doc().leading()
                &&& yaml_eq(parsed_yaml(old(self).text())->0, final(self).doc().value())
                    ==> final(self).doc().rendered() == edit_tree_text(old(self).text())
                &&& !yaml_eq(parsed_yaml(old(self).text())->0, final(self).doc().value()) && rebuildable(
                    final(self).doc().value(),
                ) ==> reconciled_text(
                    final(self).doc().leading(),
                    final(self).doc().rendered(),
                    final(self).doc().value(),
                )
            },
            parsed_yaml(old(self).text()) is None ==> r is Err,
            !edit_tree_accepts(old(self).text()) ==> r is Err,
            r matches Err(Error::Edit(_)) ==> parsed_yaml(old(self).text()) is Some && !edit_tree_accepts(
                old(self).text(),
            ),
            r matches Err(Error::RoundTrip) ==> parsed_yaml(old(self).text()) is Some && edit_tree_accepts(
                old(self).text(),
            ),
            r matches Err(Error::Yaml(_)) ==> (exists|e: serde_norway::Error|
                call_ensures(encode, (&new,), Err::<Yaml, serde_norway::Error>(e)))
                || parsed_yaml(old(self).text()) is None,
            (forall|y: Yaml| !call_ensures(encode, (&new,), Ok::<Yaml, serde_norway::Error>(y)))
                ==> r matches Err(Error::Yaml(_)),
            set_owed(old(self).text(), encode, &new) ==> r is Ok,
    {
        let new_value = match encode(&new) {
            Ok(v) => v,
            Err(e) => return Err(Error::Yaml(e)),
        };
        proof {
            use_type_invariant(&*self);
        }
        let mut doc = YamlValue::parse(self.text.as_str())?;
        proof {
            if is_comment_block(self.doc.leading()) {
                lemma_comment_block_prefix(self.doc.leading(), self.doc.rendered());
                assert(doc.leading() == self.doc.leading() + spec_leading_block(self.doc.rendered()));
            }
        }
        doc.set(new_value);
        let text = doc.get_string();
        check_round_trip(text.as_str(), doc.get())?;
        assert(is_comment_block(self.doc.leading()) ==> text@.take(self.doc.leading().len() as int) =~= self.doc.leading());
        *self = YamlObject { doc, value: new, text };
        Ok(())
    }

    /// The current YAML text (comments and formatting preserved).
    pub fn get_string(&self) -> (r: &str)
        ensures
            r@ == self.text(),
            self.text() == self.doc().text(),
    {
        proof {
            use_type_invariant(self);
        }
        self.text.as_str()
    }

    /// Replace the whole document by parsing `text` and decoding its value
    /// with `decode`; on an error the object is left as it was.
    pub fn set_string<F: Fn(&Yaml) -> Result<T, serde_norway::Error>>(&mut self, text: &str, decode: F) -> (r: Result<(), Error>)
        requires
            forall|y: &Yaml| #[trigger] decode.requires((y,)),
        ensures
            r is Err ==> *final(self) == *old(self),
            r is Ok ==> parsed_yaml(text@) == Some(final(self).doc().value()) && edit_tree_accepts(text@)
                && final(self).doc().leading() == spec_leading_block(text@) && final(self).doc().rendered()
                == edit_tree_text(text@) && call_ensures(
                decode,
                (&final(self).doc().value(),),
                Ok::<T, serde_norway::Error>(final(self).value()),
            ) && final(self).text() == final(self).doc().text(),
            parsed_yaml(text@) is None || !edit_tree_accepts(text@) ==> r is Err,
            r matches Err(Error::Yaml(_)) ==> parsed_yaml(text@) is None || (edit_tree_accepts(text@)
                && exists|e: serde_norway::Error|
                call_ensures(decode, (&parsed_yaml(text@)->0,), Err::<T, serde_norway::Error>(e))),
            r matches Err(Error::Edit(_)) ==> parsed_yaml(text@) is Some && !edit_tree_accepts(text@),
            !(r matches Err(Error::RoundTrip)),
    {
        let parsed = YamlObject::parse(text, decode)?;
        *self = parsed;
        Ok(())
    }

    /// The underlying comment-preserving document.
    pub fn document(&self) -> (r: &YamlValue)
        ensures
            *r == self.doc(),
    {
        &self.doc
    }
}

} // verus!
