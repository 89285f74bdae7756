//! A YAML document as plain values, and the lookups that scene files make in it.

use vstd::prelude::*;

use crate::text::{chars_of, float_text_accepted};
use yaml_rust::Yaml as LoaderNode;

verus! {

broadcast use vstd::std_specs::vec::group_vec_axioms;

/// A YAML node, as the YAML loader produces it: numbers that are not integers keep their text.
#[derive(Debug)]
pub enum Yaml {
    Real(String),
    Integer(i64),
    String(String),
    Boolean(bool),
    Array(Vec<Yaml>),
    /// The entries of a mapping, in the order they were written; no key appears twice.
    Hash(Vec<(Yaml, Yaml)>),
    Alias(usize),
    Null,
    BadValue,
}

/// What a YAML node is, mathematically.
pub enum YamlValue {
    Real(Seq<char>),
    Integer(i64),
    String(Seq<char>),
    Boolean(bool),
    Array(Seq<YamlValue>),
    Hash(Seq<(YamlValue, YamlValue)>),
    Alias(usize),
    Null,
    BadValue,
}

/// A node as the YAML loader builds it.
#[verifier::external_type_specification]
#[verifier::external_body]
pub struct LoadedYaml(LoaderNode);

/// The documents that `YamlLoader::load_from_str` reads from a text, as plain values; none when
/// the loader refuses the text.
pub uninterp spec fn yaml_documents(text: Seq<char>) -> Option<Seq<YamlValue>>;

/// The library's copy of a node of the loader, made variant for variant and child for child.
/// Nothing is claimed of it here; `load_yaml`, whose conversion it does, states the result.
#[verifier::external_body]
fn node_of(y: &LoaderNode) -> Yaml {
    match y {
        LoaderNode::Real(s) => Yaml::Real(s.clone()),
        LoaderNode::Integer(i) => Yaml::Integer(*i),
        LoaderNode::String(s) => Yaml::String(s.clone()),
        LoaderNode::Boolean(b) => Yaml::Boolean(*b),
        LoaderNode::Array(v) => Yaml::Array(v.iter().map(node_of).collect()),
        LoaderNode::Hash(h) => Yaml::Hash(h.iter().map(|(k, v)| (node_of(k), node_of(v))).collect()),
        LoaderNode::Alias(a) => Yaml::Alias(*a),
        LoaderNode::Null => Yaml::Null,
        LoaderNode::BadValue => Yaml::BadValue,
    }
}

/// Reads a text with `YamlLoader::load_from_str` and converts each document, node for node;
/// the contract names the documents, and says that a refused text gives none.
#[verifier::external_body]
pub(crate) fn load_yaml(text: &str) -> (res: Option<Vec<Yaml>>)
    ensures
        match yaml_documents(text@) {
            Some(docs) => res matches Some(r) && values_of(r@) == docs,
            None => res is None,
        },
{
    match yaml_rust::YamlLoader::load_from_str(text) {
        Ok(docs) => Some(docs.iter().map(node_of).collect()),
        Err(_) => None,
    }
}

/// The values of a list of nodes.
pub open spec fn values_of(items: Seq<Yaml>) -> Seq<YamlValue>
    decreases items,
{
    if items.len() == 0 {
        seq![]
    } else {
        values_of(items.drop_last()).push(value_of(items.last()))
    }
}

/// The values of a list of entries.
pub open spec fn entries_of(entries: Seq<(Yaml, Yaml)>) -> Seq<(YamlValue, YamlValue)>
    decreases entries,
{
    if entries.len() == 0 {
        seq![]
    } else {
        entries_of(entries.drop_last()).push(
            (value_of(entries.last().0), value_of(entries.last().1)),
        )
    }
}

/// The value of a node.
pub open spec fn value_of(y: Yaml) -> YamlValue
    decreases y,
{
    match y {
        Yaml::Real(s) => YamlValue::Real(s@),
        Yaml::Integer(i) => YamlValue::Integer(i),
        Yaml::String(s) => YamlValue::String(s@),
        Yaml::Boolean(b) => YamlValue::Boolean(b),
        Yaml::Array(v) => YamlValue::Array(values_of(v@)),
        Yaml::Hash(v) => YamlValue::Hash(entries_of(v@)),
        Yaml::Alias(a) => YamlValue::Alias(a),
        Yaml::Null => YamlValue::Null,
        Yaml::BadValue => YamlValue::BadValue,
    }
}

impl View for Yaml {
    type V = YamlValue;

    open spec fn view(&self) -> YamlValue {
        value_of(*self)
    }
}


/// The values of a list of nodes are those of its elements, one for one.
pub proof fn lemma_values_of(items: Seq<Yaml>)
    ensures
        values_of(items).len() == items.len(),
        forall|i: int| 0 <= i < items.len() ==> #[trigger] values_of(items)[i] == value_of(items[i]),
    decreases items.len(),
{
    if items.len() > 0 {
        lemma_values_of(items.drop_last());
        assert forall|i: int| 0 <= i < items.len() implies #[trigger] values_of(items)[i] == value_of(
            items[i],
        ) by {
            if i < items.len() - 1 {
                assert(items.drop_last()[i] == items[i]);
            }
        }
    }
}

/// The values of a list of entries are those of its elements, one for one.
pub proof fn lemma_entries_of(entries: Seq<(Yaml, Yaml)>)
    ensures
        entries_of(entries).len() == entries.len(),
        forall|i: int|
            0 <= i < entries.len() ==> #[trigger] entries_of(entries)[i] == (
            value_of(entries[i].0),
            value_of(entries[i].1),
        ),
    decreases entries.len(),
{
    if entries.len() > 0 {
        lemma_entries_of(entries.drop_last());
        assert forall|i: int| 0 <= i < entries.len() implies #[trigger] entries_of(entries)[i] == (
            value_of(entries[i].0),
            value_of(entries[i].1),
        ) by {
            if i < entries.len() - 1 {
                assert(entries.drop_last()[i] == entries[i]);
            }
        }
    }
}

/// Whether two nodes have the same value, as `==` on YAML nodes compares them.
#[verifier::loop_isolation(false)]
pub fn same(a: &Yaml, b: &Yaml) -> (res: bool)
    ensures
        res == (a@ == b@),
    decreases a,
{
    match (a, b) {
        (Yaml::Real(x), Yaml::Real(y)) => x.eq(y),
        (Yaml::Integer(x), Yaml::Integer(y)) => *x == *y,
        (Yaml::String(x), Yaml::String(y)) => x.eq(y),
        (Yaml::Boolean(x), Yaml::Boolean(y)) => *x == *y,
        (Yaml::Alias(x), Yaml::Alias(y)) => *x == *y,
        (Yaml::Null, Yaml::Null) => true,
        (Yaml::BadValue, Yaml::BadValue) => true,
        (Yaml::Array(x), Yaml::Array(y)) => {
            proof {
                lemma_values_of(x@);
                lemma_values_of(y@);
            }
            if x.len() != y.len() {
                return false;
            }
            let mut i: usize = 0;
            while i < x.len()
                invariant
                    i <= x.len() == y.len(),
                    values_of(x@).len() == x.len(),
                    values_of(y@).len() == y.len(),
                    forall|k: int| 0 <= k < x.len() ==> #[trigger] values_of(x@)[k] == value_of(x@[k]),
                    forall|k: int| 0 <= k < y.len() ==> #[trigger] values_of(y@)[k] == value_of(y@[k]),
                    forall|k: int| 0 <= k < i ==> values_of(x@)[k] == values_of(y@)[k],
                decreases x.len() - i,
            {
                assert(decreases_to!(*a => *x));
                assert(decreases_to!(*x => x@));
                assert(decreases_to!(x@ => x@[i as int]));
                if !same(&x[i], &y[i]) {
                    assert(values_of(x@)[i as int] != values_of(y@)[i as int]);
                    return false;
                }
                i = i + 1;
            }
            assert(values_of(x@) =~= values_of(y@));
            true
        },
        (Yaml::Hash(x), Yaml::Hash(y)) => {
            proof {
                lemma_entries_of(x@);
                lemma_entries_of(y@);
            }
            if x.len() != y.len() {
                return false;
            }
            let mut i: usize = 0;
            while i < x.len()
                invariant
                    i <= x.len() == y.len(),
                    entries_of(x@).len() == x.len(),
                    entries_of(y@).len() == y.len(),
                    forall|k: int|
                        0 <= k < x.len() ==> #[trigger] entries_of(x@)[k] == (
                        value_of(x@[k].0),
                        value_of(x@[k].1),
                    ),
                    forall|k: int|
                        0 <= k < y.len() ==> #[trigger] entries_of(y@)[k] == (
                        value_of(y@[k].0),
                        value_of(y@[k].1),
                    ),
                    forall|k: int| 0 <= k < i ==> entries_of(x@)[k] == entries_of(y@)[k],
                decreases x.len() - i,
            {
                assert(decreases_to!(*a => *x));
                assert(decreases_to!(*x => x@));
                assert(decreases_to!(x@ => x@[i as int]));
                assert(decreases_to!(x@[i as int] => x@[i as int].0));
                assert(decreases_to!(x@[i as int] => x@[i as int].1));
                if !same(&x[i].0, &y[i].0) || !same(&x[i].1, &y[i].1) {
                    assert(entries_of(x@)[i as int] != entries_of(y@)[i as int]);
                    return false;
                }
                i = i + 1;
            }
            assert(entries_of(x@) =~= entries_of(y@));
            true
        },
        _ => false,
    }
}


/// A copy of a node.
#[verifier::loop_isolation(false)]
pub fn copy_yaml(y: &Yaml) -> (res: Yaml)
    ensures
        res@ == y@,
    decreases y,
{
    match y {
        Yaml::Real(s) => Yaml::Real(s.clone()),
        Yaml::Integer(i) => Yaml::Integer(*i),
        Yaml::String(s) => Yaml::String(s.clone()),
        Yaml::Boolean(b) => Yaml::Boolean(*b),
        Yaml::Alias(a) => Yaml::Alias(*a),
        Yaml::Null => Yaml::Null,
        Yaml::BadValue => Yaml::BadValue,
        Yaml::Array(x) => {
            proof {
                lemma_values_of(x@);
            }
            let mut out: Vec<Yaml> = Vec::new();
            let mut i: usize = 0;
            while i < x.len()
                invariant
                    i <= x.len(),
                    values_of(x@).len() == x.len(),
                    forall|k: int| 0 <= k < x.len() ==> #[trigger] values_of(x@)[k] == value_of(x@[k]),
                    out.len() == i,
                    forall|k: int| 0 <= k < i ==> value_of(#[trigger] out@[k]) == value_of(x@[k]),
                decreases x.len() - i,
            {
                assert(decreases_to!(*y => *x));
                assert(decreases_to!(*x => x@));
                assert(decreases_to!(x@ => x@[i as int]));
                out.push(copy_yaml(&x[i]));
                i = i + 1;
            }
            proof {
                lemma_values_of(out@);
                assert(values_of(out@) =~= values_of(x@));
            }
            Yaml::Array(out)
        },
        Yaml::Hash(x) => {
            proof {
                lemma_entries_of(x@);
            }
            let mut out: Vec<(Yaml, Yaml)> = Vec::new();
            let mut i: usize = 0;
            while i < x.len()
                invariant
                    i <= x.len(),
                    entries_of(x@).len() == x.len(),
                    forall|k: int|
                        0 <= k < x.len() ==> #[trigger] entries_of(x@)[k] == (
                        value_of(x@[k].0),
                        value_of(x@[k].1),
                    ),
                    out.len() == i,
                    forall|k: int|
                        0 <= k < i ==> value_of((#[trigger] out@[k]).0) == value_of(x@[k].0)
                            && value_of(out@[k].1) == value_of(x@[k].1),
                decreases x.len() - i,
            {
                assert(decreases_to!(*y => *x));
                assert(decreases_to!(*x => x@));
                assert(decreases_to!(x@ => x@[i as int]));
                assert(decreases_to!(x@[i as int] => x@[i as int].0));
                assert(decreases_to!(x@[i as int] => x@[i as int].1));
                let k = copy_yaml(&x[i].0);
                let v = copy_yaml(&x[i].1);
                out.push((k, v));
                i = i + 1;
            }
            proof {
                lemma_entries_of(out@);
                assert(entries_of(out@) =~= entries_of(x@));
            }
            Yaml::Hash(out)
        },
    }
}

/// The value of the first entry with the given key.
pub open spec fn lookup(entries: Seq<(YamlValue, YamlValue)>, key: YamlValue) -> Option<YamlValue>
    decreases entries.len(),
{
    if entries.len() == 0 {
        None
    } else if entries[0].0 == key {
        Some(entries[0].1)
    } else {
        lookup(entries.drop_first(), key)
    }
}

/// The value of the last entry with the given key: what a map gives after inserting the entries
/// in order.
pub open spec fn lookup_last(entries: Seq<(YamlValue, YamlValue)>, key: YamlValue) -> Option<YamlValue>
    decreases entries.len(),
{
    if entries.len() == 0 {
        None
    } else if entries.last().0 == key {
        Some(entries.last().1)
    } else {
        lookup_last(entries.drop_last(), key)
    }
}

/// The node of a text key, as `Yaml::from_str` makes it for the keys that scene files use.
pub open spec fn key(name: Seq<char>) -> YamlValue {
    YamlValue::String(name)
}

/// The value stored under a key in the entries of a mapping.
pub fn get<'a>(entries: &'a Vec<(Yaml, Yaml)>, k: &Yaml) -> (res: Option<&'a Yaml>)
    ensures
        match lookup(entries_of(entries@), k@) {
            Some(v) => res matches Some(r) && r@ == v,
            None => res is None,
        },
{
    proof {
        lemma_entries_of(entries@);
    }
    let mut i: usize = 0;
    let ghost es = entries_of(entries@);
    assert(es.skip(0) =~= es);
    while i < entries.len()
        invariant
            i <= entries.len(),
            es == entries_of(entries@),
            es.len() == entries.len(),
            forall|m: int|
                0 <= m < entries.len() ==> #[trigger] es[m] == (
                value_of(entries@[m].0),
                value_of(entries@[m].1),
            ),
            lookup(es, k@) == lookup(es.skip(i as int), k@),
        decreases entries.len() - i,
    {
        assert(es.skip(i as int)[0] == es[i as int]);
        assert(es.skip(i as int).drop_first() =~= es.skip(i + 1));
        if same(&entries[i].0, k) {
            return Some(&entries[i].1);
        }
        i = i + 1;
    }
    None
}

/// A text node holding the given characters.
pub fn text_node(name: &str) -> (res: Yaml)
    ensures
        res@ == key(name@),
{
    Yaml::String(name.to_string())
}

/// The value stored under a text key in the entries of a mapping.
pub fn get_key<'a>(entries: &'a Vec<(Yaml, Yaml)>, name: &str) -> (res: Option<&'a Yaml>)
    ensures
        match lookup(entries_of(entries@), key(name@)) {
            Some(v) => res matches Some(r) && r@ == v,
            None => res is None,
        },
{
    let k = text_node(name);
    get(entries, &k)
}

/// The value stored last under a key in a list of definitions.
pub fn get_last<'a>(entries: &'a Vec<(Yaml, Yaml)>, k: &Yaml) -> (res: Option<&'a Yaml>)
    ensures
        match lookup_last(entries_of(entries@), k@) {
            Some(v) => res matches Some(r) && r@ == v,
            None => res is None,
        },
{
    proof {
        lemma_entries_of(entries@);
    }
    let ghost es = entries_of(entries@);
    let mut i: usize = entries.len();
    assert(es.take(i as int) =~= es);
    while i > 0
        invariant
            i <= entries.len(),
            es == entries_of(entries@),
            es.len() == entries.len(),
            forall|m: int|
                0 <= m < entries.len() ==> #[trigger] es[m] == (
                value_of(entries@[m].0),
                value_of(entries@[m].1),
            ),
            lookup_last(es, k@) == lookup_last(es.take(i as int), k@),
        decreases i,
    {
        assert(es.take(i as int).last() == es[i - 1]);
        assert(es.take(i as int).drop_last() =~= es.take(i - 1));
        if same(&entries[i - 1].0, k) {
            return Some(&entries[i - 1].1);
        }
        i = i - 1;
    }
    None
}

/// Whether a text is one that the YAML loader reads as a real number: the forms of infinity and
/// of not-a-number that the core schema gives, or a text that `f64` accepts.
pub open spec fn real_text_accepted(s: Seq<char>) -> bool {
    ||| s == ".inf"@ || s == ".Inf"@ || s == ".INF"@
    ||| s == "+.inf"@ || s == "+.Inf"@ || s == "+.INF"@
    ||| s == "-.inf"@ || s == "-.Inf"@ || s == "-.INF"@
    ||| s == ".nan"@ || s == "NaN"@ || s == ".NAN"@
    ||| float_text_accepted(s)
}

pub fn is_text(s: &String, lit: &str) -> (res: bool)
    ensures
        res == (s@ == lit@),
{
    let a = chars_of(s.as_str());
    let b = chars_of(lit);
    if a.len() != b.len() {
        return false;
    }
    let mut i: usize = 0;
    while i < a.len()
        invariant
            i <= a.len() == b.len(),
            a@ == s@,
            b@ == lit@,
            forall|m: int| 0 <= m < i ==> a@[m] == b@[m],
        decreases a.len() - i,
    {
        if a[i] != b[i] {
            assert(a@[i as int] != b@[i as int]);
            return false;
        }
        i = i + 1;
    }
    assert(a@ =~= b@);
    true
}

/// Whether a text is one that the YAML loader reads as a real number.
pub fn is_real_text(s: &String) -> (res: bool)
    ensures
        res == real_text_accepted(s@),
{
    loader_reads_real(s)
}

/// Asks yaml-rust's `Yaml::as_f64` whether it reads a number from a real node of this text.
/// The contract states what its source does: the special forms of YAML's core schema are
/// accepted, and any other text as `f64::from_str` accepts it.
#[verifier::external_body]
fn loader_reads_real(s: &String) -> (res: bool)
    ensures
        res == real_text_accepted(s@),
{
    LoaderNode::Real(s.clone()).as_f64().is_some()
}

/// The text of a text node.
pub open spec fn as_text(y: YamlValue) -> Option<Seq<char>> {
    match y {
        YamlValue::String(s) => Some(s),
        _ => None,
    }
}

/// The item at a position, as indexing a node gives it: an element of a sequence, the value
/// under that integer in a mapping, or a bad value.
pub open spec fn item(y: YamlValue, index: usize) -> YamlValue {
    match y {
        YamlValue::Array(items) => if index < items.len() {
            items[index as int]
        } else {
            YamlValue::BadValue
        },
        YamlValue::Hash(entries) => match lookup(entries, YamlValue::Integer(index as i64)) {
            Some(v) => v,
            None => YamlValue::BadValue,
        },
        _ => YamlValue::BadValue,
    }
}

/// The item at a position of a node.
pub fn item_of<'a>(y: &'a Yaml, index: usize) -> (res: Option<&'a Yaml>)
    ensures
        match res {
            Some(r) => r@ == item(y@, index),
            None => item(y@, index) == YamlValue::BadValue,
        },
{
    match y {
        Yaml::Array(items) => {
            proof {
                lemma_values_of(items@);
            }
            if index < items.len() {
                Some(&items[index])
            } else {
                None
            }
        },
        Yaml::Hash(entries) => {
            let k = Yaml::Integer(index as i64);
            get(entries, &k)
        },
        _ => None,
    }
}

} // verus!
