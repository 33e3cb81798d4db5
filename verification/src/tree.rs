//! The edit tree as the library drives it: a `yaml_edit` document parsed
//! from a text, the handles on its mappings and sequences that lookups gave
//! out, and the record of every call made on it since it was parsed.
//!
//! `yaml_edit` edits a tree in place through shared handles, so the tree has
//! no value that Verus could follow. What the library states instead is how
//! the tree came about: the text it was parsed from and the calls made on it,
//! in order. The tree's printed text, and whether a lookup finds what it
//! looks for, are functions of those alone (named below); every call is made
//! through this module, which records it.
use vstd::prelude::*;
use yaml_edit::{Document, YamlNode};
use crate::document::scalar_item;
use crate::outside::{parse_document, edit_tree_accepts, edit_parse_message, fresh_entry, edit_tree_has_entry};
use crate::outside::{mapping_remove, mapping_set, sequence_set, sequence_push, sequence_remove};
use crate::yaml::{Yaml, is_scalar};

verus! {

/// A handle on a mapping of an edit tree: which of the tree's mapping
/// lookups gave it (the root lookup counts as one).
#[derive(Clone, Copy)]
pub struct MapRef(pub usize);

/// A handle on a sequence of an edit tree: which of the tree's sequence
/// lookups gave it.
#[derive(Clone, Copy)]
pub struct SeqRef(pub usize);

/// One call made on an edit tree, with its handles by number.
pub enum TreeCall {
    /// The root mapping was looked up (and found).
    Root,
    /// The mapping under this key of this mapping was looked up (and found).
    SubMap(nat, Seq<char>),
    /// The sequence under this key of this mapping was looked up (and found).
    SubSeq(nat, Seq<char>),
    /// This key was removed from this mapping.
    Remove(nat, Seq<char>),
    /// This key of this mapping was set to the node that the tree of the text
    /// holds under the key given last.
    SetKey(nat, Seq<char>, Seq<char>, Seq<char>),
    /// The element at this index of this sequence was overwritten with this scalar.
    SeqSet(nat, nat, Yaml),
    /// This scalar was appended to this sequence.
    SeqPush(nat, Yaml),
    /// The element at this index of this sequence was removed.
    SeqRemove(nat, nat),
}

/// How many mapping handles the calls of `log` gave out: one for each root
/// or sub-mapping lookup.
pub open spec fn map_handles(log: Seq<TreeCall>) -> nat
    decreases log.len(),
{
    if log.len() == 0 {
        0
    } else {
        map_handles(log.drop_last()) + if log.last() is Root || log.last() is SubMap {
            1nat
        } else {
            0nat
        }
    }
}

/// How many sequence handles the calls of `log` gave out: one for each
/// sub-sequence lookup.
pub open spec fn seq_handles(log: Seq<TreeCall>) -> nat
    decreases log.len(),
{
    if log.len() == 0 {
        0
    } else {
        seq_handles(log.drop_last()) + if log.last() is SubSeq {
            1nat
        } else {
            0nat
        }
    }
}

/// Handles given out by two runs of calls add up.
pub proof fn lemma_handles_concat(a: Seq<TreeCall>, b: Seq<TreeCall>)
    ensures
        map_handles(a + b) == map_handles(a) + map_handles(b),
        seq_handles(a + b) == seq_handles(a) + seq_handles(b),
    decreases b.len(),
{
    if b.len() == 0 {
        assert(a + b =~= a);
    } else {
        assert((a + b).drop_last() =~= a + b.drop_last());
        assert((a + b).last() == b.last());
        lemma_handles_concat(a, b.drop_last());
    }
}

/// The handles that one call gives out.
pub proof fn lemma_handles_one(c: TreeCall)
    ensures
        map_handles(seq![c]) == (if c is Root || c is SubMap { 1nat } else { 0nat }),
        seq_handles(seq![c]) == (if c is SubSeq { 1nat } else { 0nat }),
{
    let one = seq![c];
    assert(one.drop_last() =~= Seq::<TreeCall>::empty());
    assert(one.last() == c);
    assert(map_handles(one.drop_last()) == 0);
    assert(seq_handles(one.drop_last()) == 0);
}

/// The text that a tree fresh from `Document::from_str(origin)` prints
/// (`to_string`) after the calls of `log`, made in order.
pub uninterp spec fn log_text(origin: Seq<char>, log: Seq<TreeCall>) -> Seq<char>;

/// Whether the tree from `origin`, after the calls of `log`, has a root mapping.
pub uninterp spec fn log_has_root(origin: Seq<char>, log: Seq<TreeCall>) -> bool;

/// Whether, in the tree from `origin` after the calls of `log`, the mapping of
/// handle `m` holds a mapping under `key`.
pub uninterp spec fn log_has_sub_map(origin: Seq<char>, log: Seq<TreeCall>, m: nat, key: Seq<char>) -> bool;

/// Whether, in the tree from `origin` after the calls of `log`, the mapping of
/// handle `m` holds a sequence under `key`.
pub uninterp spec fn log_has_sub_seq(origin: Seq<char>, log: Seq<TreeCall>, m: nat, key: Seq<char>) -> bool;

/// The text that a tree fresh from `Document::from_str(text)` prints.
pub open spec fn edit_tree_text(text: Seq<char>) -> Seq<char> {
    log_text(text, seq![])
}

/// A value node taken from the tree of a text, under a key of its root mapping.
pub struct BuiltNode {
    node: YamlNode,
    text: Ghost<Seq<char>>,
    key: Ghost<Seq<char>>,
}

impl BuiltNode {
    /// The text whose tree the node comes from.
    pub closed spec fn text(&self) -> Seq<char> {
        self.text@
    }

    /// The key the node stands under there.
    pub closed spec fn key(&self) -> Seq<char> {
        self.key@
    }
}

/// The value node under `key` in the root mapping of the tree of `text`;
/// `None` exactly when there is none.
pub fn build_node(text: &str, key: &str) -> (r: Option<BuiltNode>)
    ensures
        r is Some <==> edit_tree_has_entry(text@, key@),
        r is Some ==> edit_tree_accepts(text@),
        r matches Some(n) ==> n.text() == text@ && n.key() == key@,
{
    match fresh_entry(text, key) {
        Some(node) => Some(BuiltNode { node, text: Ghost(text@), key: Ghost(key@) }),
        None => None,
    }
}

/// An edit tree: the document, the handles that lookups gave out, the text
/// it was parsed from and the calls made on it since.
pub struct EditTree {
    doc: Document,
    maps: Vec<yaml_edit::Mapping>,
    seqs: Vec<yaml_edit::Sequence>,
    origin: Ghost<Seq<char>>,
    log: Ghost<Seq<TreeCall>>,
}

impl EditTree {
    /// The text the tree was parsed from.
    pub closed spec fn origin(&self) -> Seq<char> {
        self.origin@
    }

    /// The calls made on the tree since, in order.
    pub closed spec fn log(&self) -> Seq<TreeCall> {
        self.log@
    }

    /// How many mapping handles lookups gave out.
    pub closed spec fn map_count(&self) -> nat {
        self.maps@.len()
    }

    /// How many sequence handles lookups gave out.
    pub closed spec fn seq_count(&self) -> nat {
        self.seqs@.len()
    }

    /// Parse `text` into a fresh tree, with the text the tree prints; or the
    /// message of `yaml_edit`'s error.
    pub fn parse(text: &str) -> (r: Result<(EditTree, String), String>)
        ensures
            r is Ok <==> edit_tree_accepts(text@),
            r matches Err(m) ==> m@ == edit_parse_message(text@),
            r matches Ok((t, s)) ==> t.origin() == text@ && t.log() == Seq::<TreeCall>::empty()
                && t.map_count() == 0 && t.seq_count() == 0 && s@ == edit_tree_text(text@),
    {
        let (doc, printed) = parse_document(text)?;
        let maps: Vec<yaml_edit::Mapping> = Vec::new();
        let seqs: Vec<yaml_edit::Sequence> = Vec::new();
        let origin: Ghost<Seq<char>> = Ghost(text@);
        let log: Ghost<Seq<TreeCall>> = Ghost(Seq::empty());
        Ok((EditTree { doc, maps, seqs, origin, log }, printed))
    }

    /// `Document`'s `to_string`: the text the tree prints now, a function of
    /// the text it was parsed from and the calls made on it, named `log_text`.
    #[verifier::external_body]
    pub fn text(&self) -> (r: String)
        ensures
            r@ == log_text(self.origin(), self.log()),
    {
        self.doc.to_string()
    }

    /// `Document::as_mapping`: the root mapping, if the root is one; whether
    /// it is, is named `log_has_root`.
    #[verifier::external_body]
    fn lookup_root(&self) -> (r: Option<yaml_edit::Mapping>)
        ensures
            r is Some <==> log_has_root(self.origin(), self.log()),
    {
        self.doc.as_mapping()
    }

    /// `Mapping::get_mapping` on the mapping of handle `m`; whether it finds
    /// a mapping under `key` is named `log_has_sub_map`.
    #[verifier::external_body]
    fn lookup_sub_map(&self, m: MapRef, key: &str) -> (r: Option<yaml_edit::Mapping>)
        requires
            m.0 < self.map_count(),
        ensures
            r is Some <==> log_has_sub_map(self.origin(), self.log(), m.0 as nat, key@),
    {
        self.maps[m.0].get_mapping(key)
    }

    /// `Mapping::get_sequence` on the mapping of handle `m`; whether it finds
    /// a sequence under `key` is named `log_has_sub_seq`.
    #[verifier::external_body]
    fn lookup_sub_seq(&self, m: MapRef, key: &str) -> (r: Option<yaml_edit::Sequence>)
        requires
            m.0 < self.map_count(),
        ensures
            r is Some <==> log_has_sub_seq(self.origin(), self.log(), m.0 as nat, key@),
    {
        self.maps[m.0].get_sequence(key)
    }

    /// A handle on the root mapping, if the root is one.
    pub fn root(&mut self) -> (r: Option<MapRef>)
        ensures
            final(self).origin() == old(self).origin(),
            final(self).seq_count() == old(self).seq_count(),
            r is Some <==> log_has_root(old(self).origin(), old(self).log()),
            match r {
                Some(h) => h.0 == old(self).map_count() && final(self).map_count() == old(self).map_count() + 1
                    && final(self).log() == old(self).log().push(TreeCall::Root),
                None => final(self).log() == old(self).log() && final(self).map_count() == old(self).map_count(),
            },
    {
        match self.lookup_root() {
            Some(m) => {
                let i = self.maps.len();
                self.maps.push(m);
                self.log = Ghost(self.log@.push(TreeCall::Root));
                Some(MapRef(i))
            },
            None => None,
        }
    }

    /// A handle on the mapping under `key` of the mapping of handle `m`, if it holds one.
    pub fn sub_mapping(&mut self, m: MapRef, key: &str) -> (r: Option<MapRef>)
        requires
            m.0 < old(self).map_count(),
        ensures
            final(self).origin() == old(self).origin(),
            final(self).seq_count() == old(self).seq_count(),
            r is Some <==> log_has_sub_map(old(self).origin(), old(self).log(), m.0 as nat, key@),
            match r {
                Some(h) => h.0 == old(self).map_count() && final(self).map_count() == old(self).map_count() + 1
                    && final(self).log() == old(self).log().push(TreeCall::SubMap(m.0 as nat, key@)),
                None => final(self).log() == old(self).log() && final(self).map_count() == old(self).map_count(),
            },
    {
        match self.lookup_sub_map(m, key) {
            Some(sub) => {
                let i = self.maps.len();
                self.maps.push(sub);
                self.log = Ghost(self.log@.push(TreeCall::SubMap(m.0 as nat, key@)));
                Some(MapRef(i))
            },
            None => None,
        }
    }

    /// A handle on the sequence under `key` of the mapping of handle `m`, if it holds one.
    pub fn sub_sequence(&mut self, m: MapRef, key: &str) -> (r: Option<SeqRef>)
        requires
            m.0 < old(self).map_count(),
        ensures
            final(self).origin() == old(self).origin(),
            final(self).map_count() == old(self).map_count(),
            r is Some <==> log_has_sub_seq(old(self).origin(), old(self).log(), m.0 as nat, key@),
            match r {
                Some(h) => h.0 == old(self).seq_count() && final(self).seq_count() == old(self).seq_count() + 1
                    && final(self).log() == old(self).log().push(TreeCall::SubSeq(m.0 as nat, key@)),
                None => final(self).log() == old(self).log() && final(self).seq_count() == old(self).seq_count(),
            },
    {
        match self.lookup_sub_seq(m, key) {
            Some(sub) => {
                let i = self.seqs.len();
                self.seqs.push(sub);
                self.log = Ghost(self.log@.push(TreeCall::SubSeq(m.0 as nat, key@)));
                Some(SeqRef(i))
            },
            None => None,
        }
    }

    /// Remove `key` from the mapping of handle `m`.
    pub fn remove(&mut self, m: MapRef, key: &str)
        requires
            m.0 < old(self).map_count(),
        ensures
            final(self).origin() == old(self).origin(),
            final(self).map_count() == old(self).map_count(),
            final(self).seq_count() == old(self).seq_count(),
            final(self).log() == old(self).log().push(TreeCall::Remove(m.0 as nat, key@)),
    {
        mapping_remove(&self.maps[m.0], key);
        self.log = Ghost(self.log@.push(TreeCall::Remove(m.0 as nat, key@)));
    }

    /// Set `key` of the mapping of handle `m` to `node`.
    pub fn set(&mut self, m: MapRef, key: &str, node: BuiltNode)
        requires
            m.0 < old(self).map_count(),
        ensures
            final(self).origin() == old(self).origin(),
            final(self).map_count() == old(self).map_count(),
            final(self).seq_count() == old(self).seq_count(),
            final(self).log() == old(self).log().push(TreeCall::SetKey(m.0 as nat, key@, node.text(), node.key())),
    {
        let ghost (t, k) = (node.text(), node.key());
        mapping_set(&self.maps[m.0], key, node.node);
        self.log = Ghost(self.log@.push(TreeCall::SetKey(m.0 as nat, key@, t, k)));
    }

    /// Overwrite the element at `index` of the sequence of handle `s` with the scalar `y`.
    pub fn seq_set(&mut self, s: SeqRef, index: usize, y: &Yaml)
        requires
            s.0 < old(self).seq_count(),
            is_scalar(*y),
        ensures
            final(self).origin() == old(self).origin(),
            final(self).map_count() == old(self).map_count(),
            final(self).seq_count() == old(self).seq_count(),
            final(self).log() == old(self).log().push(TreeCall::SeqSet(s.0 as nat, index as nat, *y)),
    {
        sequence_set(&self.seqs[s.0], index, &scalar_item(y));
        self.log = Ghost(self.log@.push(TreeCall::SeqSet(s.0 as nat, index as nat, *y)));
    }

    /// Append the scalar `y` to the sequence of handle `s`.
    pub fn seq_push(&mut self, s: SeqRef, y: &Yaml)
        requires
            s.0 < old(self).seq_count(),
            is_scalar(*y),
        ensures
            final(self).origin() == old(self).origin(),
            final(self).map_count() == old(self).map_count(),
            final(self).seq_count() == old(self).seq_count(),
            final(self).log() == old(self).log().push(TreeCall::SeqPush(s.0 as nat, *y)),
    {
        sequence_push(&self.seqs[s.0], &scalar_item(y));
        self.log = Ghost(self.log@.push(TreeCall::SeqPush(s.0 as nat, *y)));
    }

    /// Remove the element at `index` of the sequence of handle `s`.
    pub fn seq_remove(&mut self, s: SeqRef, index: usize)
        requires
            s.0 < old(self).seq_count(),
        ensures
            final(self).origin() == old(self).origin(),
            final(self).map_count() == old(self).map_count(),
            final(self).seq_count() == old(self).seq_count(),
            final(self).log() == old(self).log().push(TreeCall::SeqRemove(s.0 as nat, index as nat)),
    {
        sequence_remove(&self.seqs[s.0], index);
        self.log = Ghost(self.log@.push(TreeCall::SeqRemove(s.0 as nat, index as nat)));
    }
}

} // verus!
