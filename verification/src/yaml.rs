//! The YAML data model: a plain-value picture of a parsed YAML document.
//!
//! `Yaml` holds exactly what a `serde_norway::Value` holds, as plain values:
//! integers as integers, floats as the canonical text `serde_norway` prints
//! for them, tags as their text. Equality is YAML equality as
//! `serde_norway` defines it: mappings compare as unordered key/value sets,
//! the two float zeros are equal, a tag's leading `!` is not significant.
use vstd::prelude::*;

verus! {

/// A YAML number.
#[derive(Debug)]
pub enum Num {
    /// A non-negative integer.
    PosInt(u64),
    /// A negative integer.
    NegInt(i64),
    /// A float, held as the canonical text that `serde_norway` prints for it
    /// (`2.5`, `1e300`, `.nan`, `-.inf`, `-0.0`, ...).
    Float(String),
}

/// A YAML value.
#[derive(Debug)]
pub enum Yaml {
    Null,
    Bool(bool),
    Number(Num),
    String(String),
    Sequence(Vec<Yaml>),
    /// Key/value entries in document order.
    Mapping(Vec<(Yaml, Yaml)>),
    /// A tagged node: the tag text (with or without its leading `!`) and the value.
    Tagged(String, Box<Yaml>),
}

/// The text of a float zero of either sign.
pub open spec fn is_zero_float_text(t: Seq<char>) -> bool {
    t == seq!['0', '.', '0'] || t == seq!['-', '0', '.', '0']
}

/// Two canonical float texts denote equal floats: the same text, or the two zeros.
pub open spec fn float_text_eq(s: Seq<char>, t: Seq<char>) -> bool {
    s == t || (is_zero_float_text(s) && is_zero_float_text(t))
}

pub open spec fn num_eq(a: Num, b: Num) -> bool {
    match a {
        Num::PosInt(x) => b matches Num::PosInt(y) && x == y,
        Num::NegInt(x) => b matches Num::NegInt(y) && x == y,
        Num::Float(x) => b matches Num::Float(y) && float_text_eq(x@, y@),
    }
}

/// A tag without its optional leading `!` (a lone `!` stays as it is).
pub open spec fn unbanged(t: Seq<char>) -> Seq<char> {
    if t.len() > 1 && t[0] == '!' {
        t.drop_first()
    } else {
        t
    }
}

/// Two mapping entries have equal keys and equal values.
pub open spec fn entry_eq(e: (Yaml, Yaml), f: (Yaml, Yaml)) -> bool
    decreases e, 0int,
{
    yaml_eq(e.0, f.0) && yaml_eq(e.1, f.1)
}

/// The first entry of `entries` equal to `e`.
pub open spec fn entry_index(entries: Seq<(Yaml, Yaml)>, e: (Yaml, Yaml)) -> Option<int>
    decreases e, entries.len(),
{
    if entries.len() == 0 {
        None
    } else if entry_eq(e, entries[0]) {
        Some(0)
    } else {
        match entry_index(entries.drop_first(), e) {
            Some(j) => Some(j + 1),
            None => None,
        }
    }
}

/// YAML equality.
pub open spec fn yaml_eq(a: Yaml, b: Yaml) -> bool
    decreases a, 0int,
{
    match a {
        Yaml::Null => b is Null,
        Yaml::Bool(x) => b matches Yaml::Bool(y) && x == y,
        Yaml::Number(x) => b matches Yaml::Number(y) && num_eq(x, y),
        Yaml::String(x) => b matches Yaml::String(y) && x@ == y@,
        Yaml::Sequence(x) => b matches Yaml::Sequence(y) && x@.len() == y@.len() && forall|i: int|
            #![trigger x@[i]]
            0 <= i < x@.len() ==> yaml_eq(x@[i], y@[i]),
        Yaml::Mapping(x) => b matches Yaml::Mapping(y) && x@.len() == y@.len() && forall|i: int|
            #![trigger x@[i]]
            0 <= i < x@.len() ==> entry_index(y@, x@[i]) is Some,
        Yaml::Tagged(t, x) => b matches Yaml::Tagged(u, y) && unbanged(t@) == unbanged(u@)
            && yaml_eq(*x, *y),
    }
}

/// The entry of `entries` that a lookup of `key` finds: the first whose key equals it.
pub open spec fn key_index(entries: Seq<(Yaml, Yaml)>, key: Yaml) -> Option<int>
    decreases entries.len(),
{
    if entries.len() == 0 {
        None
    } else if yaml_eq(key, entries[0].0) {
        Some(0)
    } else {
        match key_index(entries.drop_first(), key) {
            Some(i) => Some(i + 1),
            None => None,
        }
    }
}

/// A value that a sequence element can be set to in place.
pub open spec fn is_scalar(y: Yaml) -> bool {
    y is Bool || y is String || y is Number
}

/// Every tag in `y` is non-empty (YAML has no syntax for an empty tag).
pub open spec fn well_tagged(y: Yaml) -> bool
    decreases y,
{
    match y {
        Yaml::Sequence(x) => forall|i: int| #![trigger x@[i]] 0 <= i < x@.len() ==> well_tagged(x@[i]),
        Yaml::Mapping(x) => forall|i: int|
            #![trigger x@[i]]
            0 <= i < x@.len() ==> well_tagged(x@[i].0) && well_tagged(x@[i].1),
        Yaml::Tagged(t, x) => t@.len() > 0 && well_tagged(*x),
        _ => true,
    }
}

/// What a lookup of a key finds: the first entry whose key equals it.
pub proof fn lemma_key_index(entries: Seq<(Yaml, Yaml)>, key: Yaml)
    ensures
        match key_index(entries, key) {
            Some(i) => 0 <= i < entries.len() && yaml_eq(key, entries[i].0) && forall|k: int|
                0 <= k < i ==> !yaml_eq(key, #[trigger] entries[k].0),
            None => forall|k: int| 0 <= k < entries.len() ==> !yaml_eq(key, #[trigger] entries[k].0),
        },
    decreases entries.len(),
{
    if entries.len() > 0 {
        lemma_key_index(entries.drop_first(), key);
        assert forall|k: int| 1 <= k < entries.len() implies #[trigger] entries[k] == entries.drop_first()[k - 1] by {}
    }
}

/// A lookup of an entry that occurs finds one.
pub proof fn lemma_entry_index_found(entries: Seq<(Yaml, Yaml)>, e: (Yaml, Yaml), k: int)
    requires
        0 <= k < entries.len(),
        entry_eq(e, entries[k]),
    ensures
        entry_index(entries, e) matches Some(j) && 0 <= j <= k && entry_eq(e, entries[j]),
    decreases entries.len(),
{
    if k > 0 && !entry_eq(e, entries[0]) {
        lemma_entry_index_found(entries.drop_first(), e, k - 1);
    }
}

/// What a lookup of an entry finds.
pub proof fn lemma_entry_index(entries: Seq<(Yaml, Yaml)>, e: (Yaml, Yaml))
    ensures
        match entry_index(entries, e) {
            Some(j) => 0 <= j < entries.len() && entry_eq(e, entries[j]) && forall|k: int|
                0 <= k < j ==> !#[trigger] entry_eq(e, entries[k]),
            None => forall|k: int| 0 <= k < entries.len() ==> !#[trigger] entry_eq(e, entries[k]),
        },
    decreases entries.len(),
{
    if entries.len() > 0 {
        lemma_entry_index(entries.drop_first(), e);
        assert forall|k: int| 1 <= k < entries.len() implies #[trigger] entries[k] == entries.drop_first()[k - 1] by {}
    }
}

/// YAML equality on scalars and on the shape of values: `null` equals only
/// `null`; two booleans are equal exactly when they are the same boolean; two
/// integers exactly when they are the same integer of the same sign kind; two
/// strings exactly when they hold the same text; two floats exactly when their
/// canonical texts are the same or both are a zero (`0.0`, `-0.0`); values of
/// different kinds are never equal; equal sequences have equal lengths and
/// equal elements at each place; equal tagged values hold equal values.
pub proof fn lemma_yaml_eq_kinds(a: Yaml, b: Yaml)
    ensures
        a is Null ==> (yaml_eq(a, b) <==> b is Null),
        a is Bool && b is Bool ==> (yaml_eq(a, b) <==> a->Bool_0 == b->Bool_0),
        a is Number && b is Number && a->Number_0 is PosInt && b->Number_0 is PosInt ==> (yaml_eq(a, b)
            <==> a->Number_0->PosInt_0 == b->Number_0->PosInt_0),
        a is Number && b is Number && a->Number_0 is NegInt && b->Number_0 is NegInt ==> (yaml_eq(a, b)
            <==> a->Number_0->NegInt_0 == b->Number_0->NegInt_0),
        a is String && b is String ==> (yaml_eq(a, b) <==> a->String_0@ == b->String_0@),
        a is Number && b is Number && a->Number_0 is Float && b->Number_0 is Float ==> (yaml_eq(a, b) <==> (
        a->Number_0->Float_0@ == b->Number_0->Float_0@ || ((a->Number_0->Float_0@ == seq!['0', '.', '0']
            || a->Number_0->Float_0@ == seq!['-', '0', '.', '0']) && (b->Number_0->Float_0@ == seq!['0', '.', '0']
            || b->Number_0->Float_0@ == seq!['-', '0', '.', '0'])))),
        yaml_eq(a, b) ==> (a is Null <==> b is Null) && (a is Bool <==> b is Bool) && (a is String <==> b is String)
            && (a is Sequence <==> b is Sequence) && (a is Mapping <==> b is Mapping) && (a is Tagged
            <==> b is Tagged) && (a is Number <==> b is Number),
        a is Number && b is Number && yaml_eq(a, b) ==> (a->Number_0 is PosInt <==> b->Number_0 is PosInt) && (
        a->Number_0 is NegInt <==> b->Number_0 is NegInt) && (a->Number_0 is Float <==> b->Number_0 is Float),
        a is Sequence && b is Sequence && yaml_eq(a, b) ==> a->Sequence_0@.len() == b->Sequence_0@.len()
            && forall|i: int|
            0 <= i < a->Sequence_0@.len() ==> yaml_eq(#[trigger] a->Sequence_0@[i], b->Sequence_0@[i]),
        a is Tagged && b is Tagged && yaml_eq(a, b) ==> yaml_eq(*a->Tagged_1, *b->Tagged_1),
{
}

/// Two mappings are YAML-equal exactly when they have as many entries and
/// every entry of the first has an entry of the second with an equal key and
/// an equal value (in any order).
pub proof fn lemma_yaml_eq_mappings(a: Yaml, b: Yaml)
    requires
        a is Mapping,
        b is Mapping,
    ensures
        yaml_eq(a, b) <==> (a->Mapping_0@.len() == b->Mapping_0@.len() && forall|i: int|
            0 <= i < a->Mapping_0@.len() ==> #[trigger] entry_matched(b->Mapping_0@, a->Mapping_0@[i])),
{
    let x = a->Mapping_0@;
    let y = b->Mapping_0@;
    assert forall|i: int| 0 <= i < x.len() implies (entry_index(y, x[i]) is Some <==> #[trigger] entry_matched(
        y,
        x[i],
    )) by {
        lemma_entry_index(y, x[i]);
        if entry_matched(y, x[i]) {
            let j = choose|j: int| 0 <= j < y.len() && yaml_eq(x[i].0, y[j].0) && yaml_eq(x[i].1, y[j].1);
            assert(entry_eq(x[i], y[j]));
            lemma_entry_index_found(y, x[i], j);
        }
        if let Some(j) = entry_index(y, x[i]) {
            assert(entry_eq(x[i], y[j]));
        }
    }
    if x.len() == y.len() && forall|i: int| 0 <= i < x.len() ==> #[trigger] entry_matched(y, x[i]) {
        assert forall|i: int| #![trigger x[i]] 0 <= i < x.len() implies entry_index(y, x[i]) is Some by {
            assert(entry_matched(y, x[i]));
        }
        assert(yaml_eq(a, b));
    }
    if yaml_eq(a, b) {
        assert(x.len() == y.len());
        assert forall|i: int| 0 <= i < x.len() implies #[trigger] entry_matched(y, x[i]) by {
            assert(entry_index(y, x[i]) is Some);
        }
    }
}

/// Some entry of `entries` has a key equal to `e`'s key and a value equal to `e`'s value.
pub open spec fn entry_matched(entries: Seq<(Yaml, Yaml)>, e: (Yaml, Yaml)) -> bool {
    exists|j: int| 0 <= j < entries.len() && yaml_eq(e.0, #[trigger] entries[j].0) && yaml_eq(e.1, entries[j].1)
}

/// YAML equality is reflexive.
pub proof fn lemma_yaml_eq_reflexive(y: Yaml)
    ensures
        yaml_eq(y, y),
    decreases y,
{
    match y {
        Yaml::Sequence(x) => {
            assert forall|i: int| #![trigger x@[i]] 0 <= i < x@.len() implies yaml_eq(x@[i], x@[i]) by {
                lemma_yaml_eq_reflexive(x@[i]);
            }
            assert(y matches Yaml::Sequence(z) && z == x);
            assert(yaml_eq(y, y));
        },
        Yaml::Mapping(x) => {
            assert forall|i: int| #![trigger x@[i]] 0 <= i < x@.len() implies entry_index(x@, x@[i]) is Some by {
                lemma_yaml_eq_reflexive(x@[i].0);
                lemma_yaml_eq_reflexive(x@[i].1);
                lemma_entry_index_found(x@, x@[i], i);
            }
            assert(yaml_eq(y, y));
        },
        Yaml::Tagged(t, x) => {
            lemma_yaml_eq_reflexive(*x);
            assert(yaml_eq(y, y));
        },
        Yaml::Null => {
            assert(yaml_eq(y, y));
        },
        Yaml::Bool(b) => {
            assert(yaml_eq(y, y));
        },
        Yaml::Number(n) => {
            assert(yaml_eq(y, y));
        },
        Yaml::String(t) => {
            assert(yaml_eq(y, y));
        },
    }
}

proof fn lemma_element_decreases(y: Yaml, x: Vec<Yaml>, i: int)
    requires
        y == Yaml::Sequence(x),
        0 <= i < x@.len(),
    ensures
        decreases_to!(y => x@[i]),
{
    broadcast use vstd::std_specs::vec::axiom_vec_index_decreases;
    assert(decreases_to!(y => y->Sequence_0));
    assert(decreases_to!(x => x[i]));
}

proof fn lemma_entry_decreases(y: Yaml, x: Vec<(Yaml, Yaml)>, i: int)
    requires
        y == Yaml::Mapping(x),
        0 <= i < x@.len(),
    ensures
        decreases_to!(y => x@[i]),
        decreases_to!(y => x@[i].0),
        decreases_to!(y => x@[i].1),
{
    broadcast use vstd::std_specs::vec::axiom_vec_index_decreases;
    assert(decreases_to!(y => y->Mapping_0));
    assert(decreases_to!(x => x[i]));
    assert(decreases_to!(x[i] => x[i].0));
    assert(decreases_to!(x[i] => x[i].1));
}

fn text_eq(a: &String, b: &String) -> (r: bool)
    ensures
        r == (a@ == b@),
{
    a.eq(b)
}

fn is_zero_float(t: &String) -> (r: bool)
    ensures
        r == is_zero_float_text(t@),
{
    let s = t.as_str();
    let n = s.unicode_len();
    if n == 3 {
        let r = s.get_char(0) == '0' && s.get_char(1) == '.' && s.get_char(2) == '0';
        assert(r ==> s@ =~= seq!['0', '.', '0']);
        r
    } else if n == 4 {
        let r = s.get_char(0) == '-' && s.get_char(1) == '0' && s.get_char(2) == '.'
            && s.get_char(3) == '0';
        assert(r ==> s@ =~= seq!['-', '0', '.', '0']);
        r
    } else {
        false
    }
}

fn unbanged_eq(a: &String, b: &String) -> (r: bool)
    ensures
        r == (unbanged(a@) == unbanged(b@)),
{
    let sa = a.as_str();
    let sb = b.as_str();
    let na = sa.unicode_len();
    let nb = sb.unicode_len();
    let ka: usize = if na > 1 && sa.get_char(0) == '!' { 1 } else { 0 };
    let kb: usize = if nb > 1 && sb.get_char(0) == '!' { 1 } else { 0 };
    let ghost ua = unbanged(sa@);
    let ghost ub = unbanged(sb@);
    assert(ua =~= sa@.subrange(ka as int, na as int));
    assert(ub =~= sb@.subrange(kb as int, nb as int));
    if na - ka != nb - kb {
        assert(ua.len() != ub.len());
        return false;
    }
    let mut i: usize = 0;
    while i < na - ka
        invariant
            na == sa@.len(),
            nb == sb@.len(),
            ka <= na,
            kb <= nb,
            na - ka == nb - kb,
            0 <= i <= na - ka,
            ua =~= sa@.subrange(ka as int, na as int),
            ub =~= sb@.subrange(kb as int, nb as int),
            sa@ == a@,
            sb@ == b@,
            ua == unbanged(sa@),
            ub == unbanged(sb@),
            forall|k: int| 0 <= k < i ==> ua[k] == ub[k],
        decreases na - ka - i,
    {
        if sa.get_char(ka + i) != sb.get_char(kb + i) {
            assert(ua[i as int] != ub[i as int]);
            assert(ua != ub);
            return false;
        }
        i = i + 1;
    }
    assert(ua =~= ub);
    true
}

/// The position of the first entry of `entries` equal to `e`.
fn entry_position(entries: &Vec<(Yaml, Yaml)>, e: &(Yaml, Yaml)) -> (r: Option<usize>)
    ensures
        match r {
            Some(j) => entry_index(entries@, *e) == Some(j as int),
            None => entry_index(entries@, *e) is None,
        },
    decreases *e, 1int,
{
    let mut j: usize = 0;
    assert(entries@.skip(0) =~= entries@);
    while j < entries.len()
        invariant
            0 <= j <= entries@.len(),
            entry_index(entries@, *e) == (match entry_index(entries@.skip(j as int), *e) {
                Some(k) => Some(k + j),
                None => None,
            }),
        decreases entries@.len() - j,
    {
        assert(entries@.skip(j as int).drop_first() =~= entries@.skip(j + 1));
        assert(entries@.skip(j as int)[0] == entries@[j as int]);
        proof {
            lemma_pair_decreases(*e);
        }
        let found = e.0.equals(&entries[j].0) && e.1.equals(&entries[j].1);
        assert(found == entry_eq(*e, entries@[j as int]));
        if found {
            return Some(j);
        }
        j = j + 1;
    }
    None
}

proof fn lemma_pair_decreases(e: (Yaml, Yaml))
    ensures
        decreases_to!(e => e.0),
        decreases_to!(e => e.1),
{
}

impl Num {
    /// YAML number equality.
    pub fn equals(&self, other: &Num) -> (r: bool)
        ensures
            r == num_eq(*self, *other),
    {
        match (self, other) {
            (Num::PosInt(x), Num::PosInt(y)) => *x == *y,
            (Num::NegInt(x), Num::NegInt(y)) => *x == *y,
            (Num::Float(x), Num::Float(y)) => text_eq(x, y) || (is_zero_float(x) && is_zero_float(
                y,
            )),
            _ => false,
        }
    }
}

impl Yaml {
    /// YAML equality, as `serde_norway` compares values.
    pub fn equals(&self, other: &Yaml) -> (r: bool)
        ensures
            r == yaml_eq(*self, *other),
        decreases self, 0int,
    {
        match (self, other) {
            (Yaml::Null, Yaml::Null) => true,
            (Yaml::Bool(x), Yaml::Bool(y)) => *x == *y,
            (Yaml::Number(x), Yaml::Number(y)) => x.equals(y),
            (Yaml::String(x), Yaml::String(y)) => text_eq(x, y),
            (Yaml::Sequence(x), Yaml::Sequence(y)) => {
                let n = x.len();
                if n != y.len() {
                    return false;
                }
                let mut i: usize = 0;
                while i < n
                    invariant
                        self is Sequence && self->Sequence_0 == *x,
                        other is Sequence && other->Sequence_0 == *y,
                        n == x@.len(),
                        n == y@.len(),
                        0 <= i <= n,
                        forall|k: int| 0 <= k < i ==> yaml_eq(#[trigger] x@[k], y@[k]),
                    decreases n - i,
                {
                    proof {
                        lemma_element_decreases(*self, *x, i as int);
                    }
                    if !x[i].equals(&y[i]) {
                        return false;
                    }
                    i = i + 1;
                }
                true
            },
            (Yaml::Mapping(x), Yaml::Mapping(y)) => {
                let n = x.len();
                if n != y.len() {
                    return false;
                }
                let mut i: usize = 0;
                while i < n
                    invariant
                        self is Mapping && self->Mapping_0 == *x,
                        other is Mapping && other->Mapping_0 == *y,
                        n == x@.len(),
                        n == y@.len(),
                        0 <= i <= n,
                        forall|k: int| #![trigger x@[k]] 0 <= k < i ==> entry_index(y@, x@[k]) is Some,
                    decreases n - i,
                {
                    proof {
                        lemma_entry_decreases(*self, *x, i as int);
                    }
                    if entry_position(y, &x[i]).is_none() {
                        return false;
                    }
                    i = i + 1;
                }
                true
            },
            (Yaml::Tagged(t, x), Yaml::Tagged(u, y)) => unbanged_eq(t, u) && (**x).equals(&**y),
            _ => false,
        }
    }

    /// The string, if this is a string.
    pub fn as_str(&self) -> (r: Option<&str>)
        ensures
            match *self {
                Yaml::String(s) => r is Some && r->0@ == s@,
                _ => r is None,
            },
    {
        match self {
            Yaml::String(s) => Some(s.as_str()),
            _ => None,
        }
    }

    /// Whether every tag in this value is non-empty.
    pub fn is_well_tagged(&self) -> (r: bool)
        ensures
            r == well_tagged(*self),
        decreases self,
    {
        match self {
            Yaml::Sequence(x) => {
                let mut i: usize = 0;
                while i < x.len()
                    invariant
                        self is Sequence && self->Sequence_0 == *x,
                        0 <= i <= x@.len(),
                        forall|k: int| 0 <= k < i ==> well_tagged(#[trigger] x@[k]),
                    decreases x@.len() - i,
                {
                    proof {
                        lemma_element_decreases(*self, *x, i as int);
                    }
                    let ok = x[i].is_well_tagged();
                    if !ok {
                        assert(!well_tagged(x@[i as int]));
                        assert(!well_tagged(*self));
                        return false;
                    }
                    i = i + 1;
                }
                true
            },
            Yaml::Mapping(x) => {
                let mut i: usize = 0;
                while i < x.len()
                    invariant
                        self is Mapping && self->Mapping_0 == *x,
                        0 <= i <= x@.len(),
                        forall|k: int|
                            #![trigger x@[k]]
                            0 <= k < i ==> well_tagged(x@[k].0) && well_tagged(x@[k].1),
                    decreases x@.len() - i,
                {
                    proof {
                        lemma_entry_decreases(*self, *x, i as int);
                    }
                    if !x[i].0.is_well_tagged() || !x[i].1.is_well_tagged() {
                        return false;
                    }
                    i = i + 1;
                }
                true
            },
            Yaml::Tagged(t, x) => t.as_str().unicode_len() > 0 && (**x).is_well_tagged(),
            _ => true,
        }
    }
}

impl Clone for Num {
    /// A copy.
    fn clone(&self) -> (r: Num)
        ensures
            r == *self,
    {
        match self {
            Num::PosInt(u) => Num::PosInt(*u),
            Num::NegInt(i) => Num::NegInt(*i),
            Num::Float(t) => Num::Float(t.clone()),
        }
    }
}

impl Clone for Yaml {
    /// A deep copy, equal to the value copied.
    fn clone(&self) -> (r: Yaml)
        ensures
            yaml_eq(r, *self),
        decreases self,
    {
        match self {
            Yaml::Null => Yaml::Null,
            Yaml::Bool(b) => Yaml::Bool(*b),
            Yaml::Number(n) => Yaml::Number(n.clone()),
            Yaml::String(s) => Yaml::String(s.clone()),
            Yaml::Sequence(x) => {
                let mut out: Vec<Yaml> = Vec::new();
                let mut i: usize = 0;
                while i < x.len()
                    invariant
                        self is Sequence && self->Sequence_0 == *x,
                        0 <= i <= x@.len(),
                        out@.len() == i,
                        forall|k: int| 0 <= k < i ==> yaml_eq(#[trigger] out@[k], x@[k]),
                    decreases x@.len() - i,
                {
                    proof {
                        lemma_element_decreases(*self, *x, i as int);
                    }
                    out.push(x[i].clone());
                    i = i + 1;
                }
                Yaml::Sequence(out)
            },
            Yaml::Mapping(x) => {
                let mut out: Vec<(Yaml, Yaml)> = Vec::new();
                let mut i: usize = 0;
                while i < x.len()
                    invariant
                        self is Mapping && self->Mapping_0 == *x,
                        0 <= i <= x@.len(),
                        out@.len() == i,
                        forall|k: int| 0 <= k < i ==> #[trigger] entry_eq(out@[k], x@[k]),
                    decreases x@.len() - i,
                {
                    proof {
                        lemma_entry_decreases(*self, *x, i as int);
                    }
                    out.push((x[i].0.clone(), x[i].1.clone()));
                    i = i + 1;
                }
                proof {
                    assert forall|k: int| #![trigger out@[k]] 0 <= k < out@.len() implies entry_index(
                        x@,
                        out@[k],
                    ) is Some by {
                        assert(entry_eq(out@[k], x@[k]));
                        lemma_entry_index_found(x@, out@[k], k);
                    }
                }
                Yaml::Mapping(out)
            },
            Yaml::Tagged(t, x) => Yaml::Tagged(t.clone(), Box::new((**x).clone())),
        }
    }
}

/// The index of the entry that a lookup of `key` in `entries` finds.
pub fn find_key(entries: &Vec<(Yaml, Yaml)>, key: &Yaml) -> (r: Option<usize>)
    ensures
        match r {
            Some(i) => key_index(entries@, *key) == Some(i as int) && i < entries@.len(),
            None => key_index(entries@, *key) is None,
        },
{
    let mut i: usize = 0;
    assert(entries@.skip(0) =~= entries@);
    while i < entries.len()
        invariant
            0 <= i <= entries@.len(),
            key_index(entries@, *key) == (match key_index(entries@.skip(i as int), *key) {
                Some(k) => Some(k + i),
                None => None,
            }),
        decreases entries@.len() - i,
    {
        assert(entries@.skip(i as int).drop_first() =~= entries@.skip(i + 1));
        assert(entries@.skip(i as int)[0] == entries@[i as int]);
        if key.equals(&entries[i].0) {
            return Some(i);
        }
        i = i + 1;
    }
    None
}

} // verus!
