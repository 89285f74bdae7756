//! The description of a scene read from a YAML scene file: its objects, lights and camera.
//!
//! Numbers stay as the file writes them ([`Scalar`]); turning them into floating-point values
//! and building the geometry happens outside this library.

use vstd::prelude::*;

use crate::yaml::{
    item_of,
    copy_yaml, entries_of, value_of, get_key, get_last, is_real_text, item, lemma_entries_of, lemma_values_of,
    lookup, lookup_last, real_text_accepted, values_of, Yaml, YamlValue, key, as_text,
    load_yaml, yaml_documents,
};

verus! {

broadcast use vstd::std_specs::vec::group_vec_axioms;

/// A number of a scene file: the text of a real number, or an integer.
#[derive(Debug)]
pub enum Scalar {
    Real(String),
    Integer(i64),
}

/// What a number of a scene file is.
pub enum ScalarValue {
    Real(Seq<char>),
    Integer(i64),
}

impl View for Scalar {
    type V = ScalarValue;

    open spec fn view(&self) -> ScalarValue {
        match self {
            Scalar::Real(s) => ScalarValue::Real(s@),
            Scalar::Integer(i) => ScalarValue::Integer(*i),
        }
    }
}

/// Three numbers: a color, a point or a vector.
#[derive(Debug)]
pub struct Triple {
    pub x: Scalar,
    pub y: Scalar,
    pub z: Scalar,
}

/// What three numbers are.
pub type TripleValue = (ScalarValue, ScalarValue, ScalarValue);

impl View for Triple {
    type V = TripleValue;

    open spec fn view(&self) -> TripleValue {
        (self.x@, self.y@, self.z@)
    }
}

/// A transformation of a scene file, with its parameters.
#[derive(Debug)]
pub enum Transformation {
    RotateX(Scalar),
    RotateY(Scalar),
    RotateZ(Scalar),
    Scale(Triple),
    Shear(Scalar, Scalar, Scalar, Scalar, Scalar, Scalar),
    Translate(Triple),
}

/// What a transformation is.
pub enum TransformationValue {
    RotateX(ScalarValue),
    RotateY(ScalarValue),
    RotateZ(ScalarValue),
    Scale(TripleValue),
    Shear(ScalarValue, ScalarValue, ScalarValue, ScalarValue, ScalarValue, ScalarValue),
    Translate(TripleValue),
}

impl View for Transformation {
    type V = TransformationValue;

    open spec fn view(&self) -> TransformationValue {
        match self {
            Transformation::RotateX(a) => TransformationValue::RotateX(a@),
            Transformation::RotateY(a) => TransformationValue::RotateY(a@),
            Transformation::RotateZ(a) => TransformationValue::RotateZ(a@),
            Transformation::Scale(t) => TransformationValue::Scale(t@),
            Transformation::Shear(a, b, c, d, e, f) => TransformationValue::Shear(
                a@,
                b@,
                c@,
                d@,
                e@,
                f@,
            ),
            Transformation::Translate(t) => TransformationValue::Translate(t@),
        }
    }
}

/// The number a node holds: a real number the loader accepts, or an integer.
pub open spec fn scalar(y: YamlValue) -> Option<ScalarValue> {
    match y {
        YamlValue::Real(s) => if real_text_accepted(s) {
            Some(ScalarValue::Real(s))
        } else {
            None
        },
        YamlValue::Integer(i) => Some(ScalarValue::Integer(i)),
        _ => None,
    }
}

/// The number a node holds.
pub fn mk_f64(y: &Yaml) -> (res: Option<Scalar>)
    ensures
        match scalar(y@) {
            Some(v) => res matches Some(r) && r@ == v,
            None => res is None,
        },
{
    match y {
        Yaml::Real(s) => if is_real_text(s) {
            Some(Scalar::Real(s.clone()))
        } else {
            None
        },
        Yaml::Integer(i) => Some(Scalar::Integer(*i)),
        _ => None,
    }
}

/// The three numbers a node holds: a sequence of exactly three numbers.
pub open spec fn triple(y: YamlValue) -> Option<TripleValue> {
    match y {
        YamlValue::Array(items) => if items.len() == 3 {
            match (scalar(items[0]), scalar(items[1]), scalar(items[2])) {
                (Some(a), Some(b), Some(c)) => Some((a, b, c)),
                _ => None,
            }
        } else {
            None
        },
        _ => None,
    }
}

/// A number keeps the text or the integer that its node holds.
pub proof fn lemma_scalar_kept(y: YamlValue)
    ensures
        scalar(y) matches Some(ScalarValue::Real(t)) ==> y == YamlValue::Real(t),
        scalar(y) matches Some(ScalarValue::Integer(i)) ==> y == YamlValue::Integer(i),
{
}

/// Three numbers are those of a list of exactly three items, in the order written.
pub proof fn lemma_triple_order(y: YamlValue)
    ensures
        triple(y) matches Some((a, b, c)) ==> y matches YamlValue::Array(items) && items.len() == 3
            && Some(a) == scalar(items[0]) && Some(b) == scalar(items[1]) && Some(c) == scalar(
            items[2],
        ),
{
}

/// The three numbers a node holds.
pub fn mk_triple(y: &Yaml) -> (res: Option<Triple>)
    ensures
        match triple(y@) {
            Some(v) => res matches Some(r) && r@ == v,
            None => res is None,
        },
{
    match y {
        Yaml::Array(items) => {
            proof {
                lemma_values_of(items@);
            }
            if items.len() != 3 {
                return None;
            }
            match (mk_f64(&items[0]), mk_f64(&items[1]), mk_f64(&items[2])) {
                (Some(x), Some(y), Some(z)) => Some(Triple { x, y, z }),
                _ => None,
            }
        },
        _ => None,
    }
}

/// The unsigned integer a node holds, converted as `as usize` converts a signed integer.
pub open spec fn unsigned(y: YamlValue) -> Option<usize> {
    match y {
        YamlValue::Integer(i) => Some(i as usize),
        _ => None,
    }
}

/// The unsigned integer a node holds.
pub fn mk_usize(y: &Yaml) -> (res: Option<usize>)
    ensures
        res == unsigned(y@),
{
    match y {
        Yaml::Integer(i) => Some(*i as usize),
        _ => None,
    }
}

/// The truth value a node holds.
pub open spec fn boolean(y: YamlValue) -> Option<bool> {
    match y {
        YamlValue::Boolean(b) => Some(b),
        _ => None,
    }
}

/// The truth value a node holds.
pub fn mk_bool(y: &Yaml) -> (res: Option<bool>)
    ensures
        res == boolean(y@),
{
    match y {
        Yaml::Boolean(b) => Some(*b),
        _ => None,
    }
}

/// The definitions of a scene file: names, each with the value defined for it last.
pub type Definitions = Vec<(Yaml, Yaml)>;

/// The entries of a mapping node, or of the mapping defined under that name.
pub open spec fn get_hash(defs: Seq<(YamlValue, YamlValue)>, y: YamlValue) -> Option<
    Seq<(YamlValue, YamlValue)>,
> {
    match y {
        YamlValue::Hash(entries) => Some(entries),
        _ => match lookup_last(defs, y) {
            Some(YamlValue::Hash(entries)) => Some(entries),
            _ => None,
        },
    }
}

/// The items of a sequence node, or of the sequence defined under that name.
pub open spec fn get_array(defs: Seq<(YamlValue, YamlValue)>, y: YamlValue) -> Option<Seq<YamlValue>> {
    match y {
        YamlValue::Array(items) => Some(items),
        _ => match lookup_last(defs, y) {
            Some(YamlValue::Array(items)) => Some(items),
            _ => None,
        },
    }
}

/// The entries of a mapping node, or of the mapping defined under that name.
pub fn hash_of<'a>(defs: &'a Definitions, y: &'a Yaml) -> (res: Option<&'a Vec<(Yaml, Yaml)>>)
    ensures
        match get_hash(entries_of(defs@), y@) {
            Some(es) => res matches Some(r) && entries_of(r@) == es,
            None => res is None,
        },
{
    match y {
        Yaml::Hash(entries) => Some(entries),
        _ => match get_last(defs, y) {
            Some(Yaml::Hash(entries)) => Some(entries),
            _ => None,
        },
    }
}

/// The items of a sequence node, or of the sequence defined under that name.
pub fn array_of<'a>(defs: &'a Definitions, y: &'a Yaml) -> (res: Option<&'a Vec<Yaml>>)
    ensures
        match get_array(entries_of(defs@), y@) {
            Some(items) => res matches Some(r) && values_of(r@) == items,
            None => res is None,
        },
{
    match y {
        Yaml::Array(items) => Some(items),
        _ => match get_last(defs, y) {
            Some(Yaml::Array(items)) => Some(items),
            _ => None,
        },
    }
}


/// The result of a later step, after what earlier steps gave.
pub open spec fn prepend<T>(done: Seq<T>, rest: Option<Seq<T>>) -> Option<Seq<T>> {
    match rest {
        Some(r) => Some(done + r),
        None => None,
    }
}

/// The transformations named by a list, with the lists it refers to spliced in. An item whose
/// first element is a text is a transformation; any other item is a list, given in place or by
/// the name of a definition, whose items are read the same way. At most `fuel` definitions are
/// followed along one path: following more means following one twice, and then the reading
/// would never end.
pub open spec fn flatten(defs: Seq<(YamlValue, YamlValue)>, items: Seq<YamlValue>, fuel: nat) -> Option<
    Seq<YamlValue>,
>
    decreases fuel, items,
{
    if items.len() == 0 {
        Some(seq![])
    } else {
        let t = items[0];
        let head = if as_text(item(t, 0)) is Some {
            Some(seq![t])
        } else {
            match t {
                YamlValue::Array(inner) => flatten(defs, inner, fuel),
                _ => if fuel == 0 {
                    None
                } else {
                    match lookup_last(defs, t) {
                        Some(YamlValue::Array(inner)) => flatten(defs, inner, (fuel - 1) as nat),
                        _ => None,
                    }
                },
            }
        };
        match head {
            None => None,
            Some(h) => prepend(h, flatten(defs, items.drop_first(), fuel)),
        }
    }
}

/// A reading of transformations that finishes under some limit on the definitions followed
/// gives the same result under any larger limit.
pub proof fn lemma_flatten_fuel(
    defs: Seq<(YamlValue, YamlValue)>,
    items: Seq<YamlValue>,
    fuel: nat,
    more: nat,
)
    requires
        fuel <= more,
        flatten(defs, items, fuel) is Some,
    ensures
        flatten(defs, items, more) == flatten(defs, items, fuel),
    decreases fuel, items,
{
    if items.len() > 0 {
        let t = items[0];
        if !(as_text(item(t, 0)) is Some) {
            match t {
                YamlValue::Array(inner) => {
                    lemma_flatten_fuel(defs, inner, fuel, more);
                },
                _ => {
                    if let Some(YamlValue::Array(inner)) = lookup_last(defs, t) {
                        lemma_flatten_fuel(defs, inner, (fuel - 1) as nat, (more - 1) as nat);
                    }
                },
            }
        }
        lemma_flatten_fuel(defs, items.drop_first(), fuel, more);
    }
}

/// The names that a list of definitions gives values to.
pub open spec fn defined_names(defs: Seq<(YamlValue, YamlValue)>) -> Set<YamlValue> {
    defs.map_values(|d: (YamlValue, YamlValue)| d.0).to_set()
}

/// Whether the reading of a list of transformations, under a limit, follows the definition of
/// `name` at some depth.
pub open spec fn follows(
    defs: Seq<(YamlValue, YamlValue)>,
    items: Seq<YamlValue>,
    fuel: nat,
    name: YamlValue,
) -> bool
    decreases fuel, items,
{
    if items.len() == 0 {
        false
    } else {
        let t = items[0];
        let in_head = if as_text(item(t, 0)) is Some {
            false
        } else {
            match t {
                YamlValue::Array(inner) => follows(defs, inner, fuel, name),
                _ => if fuel == 0 {
                    false
                } else {
                    t == name || match lookup_last(defs, t) {
                        Some(YamlValue::Array(inner)) => follows(defs, inner, (fuel - 1) as nat, name),
                        _ => false,
                    }
                },
            }
        };
        in_head || follows(defs, items.drop_first(), fuel, name)
    }
}

proof fn lemma_lookup_last_defined(defs: Seq<(YamlValue, YamlValue)>, t: YamlValue)
    requires
        lookup_last(defs, t) is Some,
    ensures
        defined_names(defs).contains(t),
    decreases defs.len(),
{
    let f = |d: (YamlValue, YamlValue)| d.0;
    if defs.last().0 == t {
        assert(defs.map_values(f)[defs.len() - 1] == t);
    } else {
        lemma_lookup_last_defined(defs.drop_last(), t);
        let i = choose|i: int|
            0 <= i < defs.drop_last().len() && defs.drop_last().map_values(f)[i] == t;
        assert(defs.map_values(f)[i] == t);
    }
}

/// A reading that finishes and follows a name has followed it with one definition fewer left
/// to follow, and the reading of its definition finishes under that limit.
proof fn lemma_follows_finishes(
    defs: Seq<(YamlValue, YamlValue)>,
    items: Seq<YamlValue>,
    fuel: nat,
    name: YamlValue,
)
    requires
        flatten(defs, items, fuel) is Some,
        follows(defs, items, fuel, name),
    ensures
        fuel >= 1,
        lookup_last(defs, name) matches Some(YamlValue::Array(inner)) && flatten(
            defs,
            inner,
            (fuel - 1) as nat,
        ) is Some,
    decreases fuel, items,
{
    let t = items[0];
    let head_follows = if as_text(item(t, 0)) is Some {
        false
    } else {
        match t {
            YamlValue::Array(inner) => follows(defs, inner, fuel, name),
            _ => fuel != 0 && (t == name || match lookup_last(defs, t) {
                Some(YamlValue::Array(inner)) => follows(defs, inner, (fuel - 1) as nat, name),
                _ => false,
            }),
        }
    };
    if head_follows {
        match t {
            YamlValue::Array(inner) => {
                lemma_follows_finishes(defs, inner, fuel, name);
            },
            _ => {
                if t != name {
                    if let Some(YamlValue::Array(inner)) = lookup_last(defs, t) {
                        lemma_follows_finishes(defs, inner, (fuel - 1) as nat, name);
                        if let Some(YamlValue::Array(inner_n)) = lookup_last(defs, name) {
                            lemma_flatten_fuel(defs, inner_n, (fuel - 2) as nat, (fuel - 1) as nat);
                        }
                    }
                }
            },
        }
    } else {
        lemma_follows_finishes(defs, items.drop_first(), fuel, name);
    }
}

/// Whether a reading follows a name does not depend on the limit, once the reading finishes.
proof fn lemma_follows_fuel(
    defs: Seq<(YamlValue, YamlValue)>,
    items: Seq<YamlValue>,
    fuel: nat,
    more: nat,
    name: YamlValue,
)
    requires
        fuel <= more,
        flatten(defs, items, fuel) is Some,
    ensures
        follows(defs, items, more, name) == follows(defs, items, fuel, name),
    decreases fuel, items,
{
    if items.len() > 0 {
        let t = items[0];
        if !(as_text(item(t, 0)) is Some) {
            match t {
                YamlValue::Array(inner) => {
                    lemma_follows_fuel(defs, inner, fuel, more, name);
                },
                _ => {
                    if let Some(YamlValue::Array(inner)) = lookup_last(defs, t) {
                        lemma_follows_fuel(defs, inner, (fuel - 1) as nat, (more - 1) as nat, name);
                    }
                },
            }
        }
        lemma_follows_fuel(defs, items.drop_first(), fuel, more, name);
    }
}

/// The reading of a definition that finishes never comes back to that definition.
proof fn lemma_no_return(defs: Seq<(YamlValue, YamlValue)>, name: YamlValue, inner: Seq<YamlValue>, fuel: nat)
    requires
        lookup_last(defs, name) == Some(YamlValue::Array(inner)),
        flatten(defs, inner, fuel) is Some,
    ensures
        !follows(defs, inner, fuel, name),
    decreases fuel,
{
    if follows(defs, inner, fuel, name) {
        lemma_follows_finishes(defs, inner, fuel, name);
        lemma_follows_fuel(defs, inner, (fuel - 1) as nat, fuel, name);
        lemma_no_return(defs, name, inner, (fuel - 1) as nat);
    }
}

/// A reading that finishes and never follows a name of `seen` finishes the same under a limit
/// of the number of defined names outside `seen`.
proof fn lemma_flatten_names(
    defs: Seq<(YamlValue, YamlValue)>,
    items: Seq<YamlValue>,
    fuel: nat,
    seen: Set<YamlValue>,
)
    requires
        flatten(defs, items, fuel) is Some,
        seen.subset_of(defined_names(defs)),
        forall|a: YamlValue| seen.contains(a) ==> !follows(defs, items, fuel, a),
    ensures
        flatten(defs, items, defined_names(defs).difference(seen).len()) == flatten(defs, items, fuel),
    decreases fuel, items,
{
    broadcast use vstd::set::group_set_axioms, vstd::seq_lib::seq_to_set_is_finite;

    let rest = defined_names(defs).difference(seen);
    let n = rest.len();
    if items.len() > 0 {
        let t = items[0];
        if !(as_text(item(t, 0)) is Some) {
            match t {
                YamlValue::Array(inner) => {
                    lemma_flatten_names(defs, inner, fuel, seen);
                },
                _ => {
                    if let Some(YamlValue::Array(inner)) = lookup_last(defs, t) {
                        lemma_lookup_last_defined(defs, t);
                        lemma_no_return(defs, t, inner, (fuel - 1) as nat);
                        let seen2 = seen.insert(t);
                        assert(defined_names(defs).difference(seen2) =~= rest.remove(t));
                        assert(rest.contains(t));
                        lemma_flatten_names(defs, inner, (fuel - 1) as nat, seen2);
                    }
                },
            }
        }
        lemma_flatten_names(defs, items.drop_first(), fuel, seen);
    }
}

/// A limit of as many definitions as there are is enough: a reading of transformations that
/// finishes under some limit gives the same result under that one.
pub proof fn lemma_flatten_enough_fuel(
    defs: Seq<(YamlValue, YamlValue)>,
    items: Seq<YamlValue>,
    fuel: nat,
)
    requires
        flatten(defs, items, fuel) is Some,
    ensures
        flatten(defs, items, defs.len()) == flatten(defs, items, fuel),
{
    broadcast use vstd::set::group_set_axioms, vstd::seq_lib::seq_to_set_is_finite;

    let seen = Set::<YamlValue>::empty();
    assert(defined_names(defs).difference(seen) =~= defined_names(defs));
    lemma_flatten_names(defs, items, fuel, seen);
    let names = defs.map_values(|d: (YamlValue, YamlValue)| d.0);
    names.lemma_cardinality_of_set();
    lemma_flatten_fuel(defs, items, defined_names(defs).len(), defs.len());
}

/// Appends the transformations named by a list, with the lists it refers to spliced in.
#[verifier::loop_isolation(false)]
fn get_transformations(
    defs: &Definitions,
    array: &Vec<Yaml>,
    fuel: usize,
    transformations: &mut Vec<Yaml>,
) -> (ok: bool)
    ensures
        match flatten(entries_of(defs@), values_of(array@), fuel as nat) {
            Some(flat) => ok && values_of(final(transformations)@) == values_of(
                old(transformations)@,
            ) + flat,
            None => !ok,
        },
    decreases fuel, array@,
{
    let ghost ds = entries_of(defs@);
    let ghost vals = values_of(array@);
    let ghost base = values_of(transformations@);
    proof {
        lemma_values_of(array@);
        assert(vals.skip(0) =~= vals);
        assert(base + Seq::<YamlValue>::empty() =~= base);
    }
    let mut i: usize = 0;
    let ghost mut done: Seq<YamlValue> = seq![];
    while i < array.len()
        invariant
            i <= array.len(),
            vals.len() == array.len(),
            values_of(transformations@) == base + done,
            flatten(ds, vals, fuel as nat) == prepend(done, flatten(ds, vals.skip(i as int), fuel as nat)),
        decreases array.len() - i,
    {
        let ghost t = vals[i as int];
        proof {
            assert(vals.skip(i as int)[0] == t);
            assert(vals.skip(i as int).drop_first() =~= vals.skip(i + 1));
            assert(decreases_to!(array@ => array@[i as int]));
        }
        let ghost before = values_of(transformations@);
        let is_transformation = match item_of(&array[i], 0) {
            Some(Yaml::String(_)) => true,
            _ => false,
        };
        if is_transformation {
            let ghost old_seq = transformations@;
            let c = copy_yaml(&array[i]);
            transformations.push(c);
            proof {
                assert(transformations@.drop_last() =~= old_seq);
                assert(value_of(transformations@.last()) == t);
                assert(values_of(transformations@) =~= before.push(t));
                assert(base + (done + seq![t]) =~= (base + done).push(t));
                done = done + seq![t];
            }
        } else {
            match &array[i] {
                Yaml::Array(inner) => {
                    proof {
                        assert(decreases_to!(array@[i as int] => *inner));
                        assert(decreases_to!(*inner => inner@));
                    }
                    if !get_transformations(defs, inner, fuel, transformations) {
                        return false;
                    }
                    proof {
                        let h = flatten(ds, values_of(inner@), fuel as nat)->0;
                        assert(base + (done + h) =~= (base + done) + h);
                        assert(prepend(done, prepend(h, flatten(ds, vals.skip(i + 1), fuel as nat)))
                            == prepend(done + h, flatten(ds, vals.skip(i + 1), fuel as nat))) by {
                            match flatten(ds, vals.skip(i + 1), fuel as nat) {
                                Some(r) => {
                                    assert(done + (h + r) =~= (done + h) + r);
                                },
                                None => {},
                            }
                        }
                        done = done + h;
                    }
                },
                _ => {
                    if fuel == 0 {
                        return false;
                    }
                    match get_last(defs, &array[i]) {
                        Some(Yaml::Array(inner)) => {
                            if !get_transformations(defs, inner, fuel - 1, transformations) {
                                return false;
                            }
                            proof {
                                let h = flatten(ds, values_of(inner@), (fuel - 1) as nat)->0;
                                assert(base + (done + h) =~= (base + done) + h);
                                assert(prepend(
                                    done,
                                    prepend(h, flatten(ds, vals.skip(i + 1), fuel as nat)),
                                ) == prepend(done + h, flatten(ds, vals.skip(i + 1), fuel as nat)))
                                    by {
                                    match flatten(ds, vals.skip(i + 1), fuel as nat) {
                                        Some(r) => {
                                            assert(done + (h + r) =~= (done + h) + r);
                                        },
                                        None => {},
                                    }
                                }
                                done = done + h;
                            }
                        },
                        _ => {
                            return false;
                        },
                    }
                },
            }
        }
        i = i + 1;
    }
    proof {
        assert(vals.skip(i as int) =~= Seq::<YamlValue>::empty());
        assert(done + Seq::<YamlValue>::empty() =~= done);
    }
    true
}


/// The transformation an item describes: the name of an operation and as many numbers as it
/// takes, the item given in place or by the name of a definition.
pub open spec fn transformation(defs: Seq<(YamlValue, YamlValue)>, t: YamlValue) -> Option<
    TransformationValue,
> {
    match get_array(defs, t) {
        None => None,
        Some(a) => if a.len() == 0 {
            None
        } else {
            match as_text(a[0]) {
                None => None,
                Some(op) => if op == "rotate-x"@ || op == "rotate-y"@ || op == "rotate-z"@ {
                    if a.len() < 2 {
                        None
                    } else {
                        match scalar(a[1]) {
                            None => None,
                            Some(angle) => Some(
                                if op == "rotate-x"@ {
                                    TransformationValue::RotateX(angle)
                                } else if op == "rotate-y"@ {
                                    TransformationValue::RotateY(angle)
                                } else {
                                    TransformationValue::RotateZ(angle)
                                },
                            ),
                        }
                    }
                } else if op == "scale"@ || op == "translate"@ {
                    if a.len() < 4 {
                        None
                    } else {
                        match (scalar(a[1]), scalar(a[2]), scalar(a[3])) {
                            (Some(x), Some(y), Some(z)) => Some(
                                if op == "scale"@ {
                                    TransformationValue::Scale((x, y, z))
                                } else {
                                    TransformationValue::Translate((x, y, z))
                                },
                            ),
                            _ => None,
                        }
                    }
                } else if op == "shear"@ {
                    if a.len() < 7 {
                        None
                    } else {
                        match (
                            scalar(a[1]),
                            scalar(a[2]),
                            scalar(a[3]),
                            scalar(a[4]),
                            scalar(a[5]),
                            scalar(a[6]),
                        ) {
                            (Some(p), Some(q), Some(r), Some(u), Some(v), Some(w)) => Some(
                                TransformationValue::Shear(p, q, r, u, v, w),
                            ),
                            _ => None,
                        }
                    }
                } else {
                    None
                },
            }
        },
    }
}

/// The transformations that a list of items describes, if each of them is one.
pub open spec fn transformations(defs: Seq<(YamlValue, YamlValue)>, items: Seq<YamlValue>) -> Option<
    Seq<TransformationValue>,
>
    decreases items.len(),
{
    if items.len() == 0 {
        Some(seq![])
    } else {
        match transformation(defs, items[0]) {
            None => None,
            Some(t) => prepend(seq![t], transformations(defs, items.drop_first())),
        }
    }
}

/// The transformations under the `transform` key of a mapping, in the order they apply; none
/// when the key is absent. Definitions are followed at most as many times as there are.
pub open spec fn transform(defs: Seq<(YamlValue, YamlValue)>, entries: Seq<(YamlValue, YamlValue)>) -> Option<
    Seq<TransformationValue>,
> {
    match lookup(entries, key("transform"@)) {
        None => Some(seq![]),
        Some(YamlValue::Array(items)) => match flatten(defs, items, defs.len()) {
            None => None,
            Some(flat) => transformations(defs, flat),
        },
        Some(_) => None,
    }
}

fn is_op(s: &String, op: &str) -> (res: bool)
    ensures
        res == (s@ == op@),
{
    crate::yaml::is_text(s, op)
}

/// A transformation read from an item is the operation its first element names, with the
/// numbers at the following positions of the item as its arguments, in the order written.
pub proof fn lemma_transformation_arguments(defs: Seq<(YamlValue, YamlValue)>, t: YamlValue)
    ensures
        transformation(defs, t) matches Some(tv) ==> get_array(defs, t) matches Some(a) && a.len()
            > 0 && match tv {
            TransformationValue::RotateX(g) => as_text(a[0]) == Some("rotate-x"@) && Some(g)
                == scalar(a[1]),
            TransformationValue::RotateY(g) => as_text(a[0]) == Some("rotate-y"@) && Some(g)
                == scalar(a[1]),
            TransformationValue::RotateZ(g) => as_text(a[0]) == Some("rotate-z"@) && Some(g)
                == scalar(a[1]),
            TransformationValue::Scale((x, y, z)) => as_text(a[0]) == Some("scale"@) && Some(x)
                == scalar(a[1]) && Some(y) == scalar(a[2]) && Some(z) == scalar(a[3]),
            TransformationValue::Translate((x, y, z)) => as_text(a[0]) == Some("translate"@)
                && Some(x) == scalar(a[1]) && Some(y) == scalar(a[2]) && Some(z) == scalar(a[3]),
            TransformationValue::Shear(p, q, r, u, v, w) => as_text(a[0]) == Some("shear"@) && Some(
                p,
            ) == scalar(a[1]) && Some(q) == scalar(a[2]) && Some(r) == scalar(a[3]) && Some(u)
                == scalar(a[4]) && Some(v) == scalar(a[5]) && Some(w) == scalar(a[6]),
        },
{
}

/// The transformation an item describes.
pub fn mk_transformation(defs: &Definitions, t: &Yaml) -> (res: Option<Transformation>)
    ensures
        match transformation(entries_of(defs@), t@) {
            Some(v) => res matches Some(r) && r@ == v,
            None => res is None,
        },
{
    let a = match array_of(defs, t) {
        Some(a) => a,
        None => {
            return None;
        },
    };
    proof {
        lemma_values_of(a@);
    }
    if a.len() == 0 {
        return None;
    }
    let op = match &a[0] {
        Yaml::String(op) => op,
        _ => {
            return None;
        },
    };
    if is_op(op, "rotate-x") || is_op(op, "rotate-y") || is_op(op, "rotate-z") {
        if a.len() < 2 {
            return None;
        }
        match mk_f64(&a[1]) {
            None => None,
            Some(angle) => Some(
                if is_op(op, "rotate-x") {
                    Transformation::RotateX(angle)
                } else if is_op(op, "rotate-y") {
                    Transformation::RotateY(angle)
                } else {
                    Transformation::RotateZ(angle)
                },
            ),
        }
    } else if is_op(op, "scale") || is_op(op, "translate") {
        if a.len() < 4 {
            return None;
        }
        match (mk_f64(&a[1]), mk_f64(&a[2]), mk_f64(&a[3])) {
            (Some(x), Some(y), Some(z)) => Some(
                if is_op(op, "scale") {
                    Transformation::Scale(Triple { x, y, z })
                } else {
                    Transformation::Translate(Triple { x, y, z })
                },
            ),
            _ => None,
        }
    } else if is_op(op, "shear") {
        if a.len() < 7 {
            return None;
        }
        match (mk_f64(&a[1]), mk_f64(&a[2]), mk_f64(&a[3]), mk_f64(&a[4]), mk_f64(&a[5]), mk_f64(&a[6])) {
            (Some(p), Some(q), Some(r), Some(u), Some(v), Some(w)) => Some(
                Transformation::Shear(p, q, r, u, v, w),
            ),
            _ => None,
        }
    } else {
        None
    }
}

/// The transformations under the `transform` key of a mapping, in the order they apply.
pub fn mk_transform(defs: &Definitions, entries: &Vec<(Yaml, Yaml)>) -> (res: Option<Vec<Transformation>>)
    ensures
        match transform(entries_of(defs@), entries_of(entries@)) {
            Some(v) => res matches Some(r) && r@.map_values(|t: Transformation| t@) == v,
            None => res is None,
        },
{
    let items = match get_key(entries, "transform") {
        None => {
            let out: Vec<Transformation> = Vec::new();
            assert(out@.map_values(|t: Transformation| t@) =~= Seq::<TransformationValue>::empty());
            return Some(out);
        },
        Some(Yaml::Array(items)) => items,
        Some(_) => {
            return None;
        },
    };
    let mut flat: Vec<Yaml> = Vec::new();
    proof {
        lemma_entries_of(defs@);
    }
    if !get_transformations(defs, items, defs.len(), &mut flat) {
        return None;
    }
    let ghost ds = entries_of(defs@);
    let ghost fv = values_of(flat@);
    proof {
        lemma_values_of(flat@);
        assert(Seq::<YamlValue>::empty() + fv =~= fv);
        assert(fv.skip(0) =~= fv);
    }
    let mut out: Vec<Transformation> = Vec::new();
    let mut i: usize = 0;
    while i < flat.len()
        invariant
            i <= flat.len(),
            fv == values_of(flat@),
            fv.len() == flat.len(),
            forall|k: int| 0 <= k < flat.len() ==> #[trigger] fv[k] == value_of(flat@[k]),
            ds == entries_of(defs@),
            transform(ds, entries_of(entries@)) == transformations(ds, fv),
            transformations(ds, fv) == prepend(
                out@.map_values(|t: Transformation| t@),
                transformations(ds, fv.skip(i as int)),
            ),
        decreases flat.len() - i,
    {
        proof {
            assert(fv.skip(i as int)[0] == fv[i as int]);
            assert(fv.skip(i as int).drop_first() =~= fv.skip(i + 1));
        }
        match mk_transformation(defs, &flat[i]) {
            None => {
                return None;
            },
            Some(t) => {
                let ghost before = out@.map_values(|t: Transformation| t@);
                out.push(t);
                proof {
                    let after = out@.map_values(|t: Transformation| t@);
                    assert(after =~= before + seq![t@]);
                    match transformations(ds, fv.skip(i + 1)) {
                        Some(r) => {
                            assert(before + (seq![t@] + r) =~= after + r);
                        },
                        None => {},
                    }
                }
            },
        }
        i = i + 1;
    }
    proof {
        assert(fv.skip(i as int) =~= Seq::<YamlValue>::empty());
        assert(out@.map_values(|t: Transformation| t@) + Seq::<TransformationValue>::empty()
            =~= out@.map_values(|t: Transformation| t@));
    }
    Some(out)
}


/// The number stored under a key of a mapping.
pub open spec fn key_scalar(entries: Seq<(YamlValue, YamlValue)>, name: Seq<char>) -> Option<ScalarValue> {
    match lookup(entries, key(name)) {
        Some(y) => scalar(y),
        None => None,
    }
}

/// The three numbers stored under a key of a mapping.
pub open spec fn key_triple(entries: Seq<(YamlValue, YamlValue)>, name: Seq<char>) -> Option<TripleValue> {
    match lookup(entries, key(name)) {
        Some(y) => triple(y),
        None => None,
    }
}

/// The unsigned integer stored under a key of a mapping.
pub open spec fn key_unsigned(entries: Seq<(YamlValue, YamlValue)>, name: Seq<char>) -> Option<usize> {
    match lookup(entries, key(name)) {
        Some(y) => unsigned(y),
        None => None,
    }
}

/// The number stored under a key of a mapping if the key is there: `Some(None)` when it is
/// absent, `None` when what is there is not a number.
pub open spec fn optional_scalar(entries: Seq<(YamlValue, YamlValue)>, name: Seq<char>) -> Option<
    Option<ScalarValue>,
> {
    match lookup(entries, key(name)) {
        None => Some(None),
        Some(y) => match scalar(y) {
            Some(v) => Some(Some(v)),
            None => None,
        },
    }
}

fn mk_scalar_at(entries: &Vec<(Yaml, Yaml)>, name: &str) -> (res: Option<Scalar>)
    ensures
        match key_scalar(entries_of(entries@), name@) {
            Some(v) => res matches Some(r) && r@ == v,
            None => res is None,
        },
{
    match get_key(entries, name) {
        Some(y) => mk_f64(y),
        None => None,
    }
}

fn mk_triple_at(entries: &Vec<(Yaml, Yaml)>, name: &str) -> (res: Option<Triple>)
    ensures
        match key_triple(entries_of(entries@), name@) {
            Some(v) => res matches Some(r) && r@ == v,
            None => res is None,
        },
{
    match get_key(entries, name) {
        Some(y) => mk_triple(y),
        None => None,
    }
}

fn mk_usize_at(entries: &Vec<(Yaml, Yaml)>, name: &str) -> (res: Option<usize>)
    ensures
        res == key_unsigned(entries_of(entries@), name@),
{
    match get_key(entries, name) {
        Some(y) => mk_usize(y),
        None => None,
    }
}

/// The view of a number that may be absent.
pub open spec fn optional_view(o: Option<Scalar>) -> Option<ScalarValue> {
    match o {
        Some(s) => Some(s@),
        None => None,
    }
}

fn mk_optional_scalar(entries: &Vec<(Yaml, Yaml)>, name: &str) -> (res: Option<Option<Scalar>>)
    ensures
        match optional_scalar(entries_of(entries@), name@) {
            Some(v) => res matches Some(r) && optional_view(r) == v,
            None => res is None,
        },
{
    match get_key(entries, name) {
        None => Some(None),
        Some(y) => match mk_f64(y) {
            Some(v) => Some(Some(v)),
            None => None,
        },
    }
}

/// The kinds of pattern a scene file can name.
#[derive(Clone, Copy, Debug, PartialEq, Eq, Structural)]
pub enum PatternKind {
    Checkers,
    Gradient,
    Ring,
    Stripes,
}

/// A pattern: its kind, its colors and its transformations.
#[derive(Debug)]
pub struct PatternDescription {
    pub kind: PatternKind,
    pub colors: Vec<Triple>,
    pub transformations: Vec<Transformation>,
}

/// What a pattern is.
pub struct PatternValue {
    pub kind: PatternKind,
    pub colors: Seq<TripleValue>,
    pub transformations: Seq<TransformationValue>,
}

/// The colors of a material: one plain color, or a pattern.
#[derive(Debug)]
pub enum PatternSource {
    Plain(Triple),
    Pattern(PatternDescription),
}

/// What the colors of a material are.
pub enum PatternSourceValue {
    Plain(TripleValue),
    Pattern(PatternValue),
}

impl View for PatternSource {
    type V = PatternSourceValue;

    open spec fn view(&self) -> PatternSourceValue {
        match self {
            PatternSource::Plain(t) => PatternSourceValue::Plain(t@),
            PatternSource::Pattern(p) => PatternSourceValue::Pattern(
                PatternValue {
                    kind: p.kind,
                    colors: p.colors@.map_values(|c: Triple| c@),
                    transformations: p.transformations@.map_values(|t: Transformation| t@),
                },
            ),
        }
    }
}

/// The three numbers of each item of a list, if each of them holds three.
pub open spec fn triples(items: Seq<YamlValue>) -> Option<Seq<TripleValue>>
    decreases items.len(),
{
    if items.len() == 0 {
        Some(seq![])
    } else {
        match triple(items[0]) {
            None => None,
            Some(t) => prepend(seq![t], triples(items.drop_first())),
        }
    }
}

/// The pattern kind a text names.
pub open spec fn pattern_kind(name: Seq<char>) -> Option<PatternKind> {
    if name == "checkers"@ {
        Some(PatternKind::Checkers)
    } else if name == "gradient"@ {
        Some(PatternKind::Gradient)
    } else if name == "ring"@ {
        Some(PatternKind::Ring)
    } else if name == "stripes"@ {
        Some(PatternKind::Stripes)
    } else {
        None
    }
}

/// The colors a pattern of some kind takes from its list: the first two for checkers and
/// gradients, all of them for rings and stripes.
pub open spec fn pattern_colors(kind: PatternKind, items: Seq<YamlValue>) -> Option<Seq<TripleValue>> {
    if kind == PatternKind::Checkers || kind == PatternKind::Gradient {
        if items.len() < 2 {
            None
        } else {
            match (triple(items[0]), triple(items[1])) {
                (Some(a), Some(b)) => Some(seq![a, b]),
                _ => None,
            }
        }
    } else {
        triples(items)
    }
}

/// The colors of a material's mapping: a plain `color`, or a `pattern` with a `type`, `colors`
/// and transformations; `Some(None)` when there is neither.
pub open spec fn pattern(defs: Seq<(YamlValue, YamlValue)>, entries: Seq<(YamlValue, YamlValue)>) -> Option<
    Option<PatternSourceValue>,
> {
    match lookup(entries, key("color"@)) {
        Some(c) => match triple(c) {
            Some(t) => Some(Some(PatternSourceValue::Plain(t))),
            None => None,
        },
        None => match lookup(entries, key("pattern"@)) {
            None => Some(None),
            Some(YamlValue::Hash(pe)) => match lookup(pe, key("type"@)) {
                Some(YamlValue::String(name)) => match pattern_kind(name) {
                    None => None,
                    Some(kind) => match lookup(pe, key("colors"@)) {
                        Some(YamlValue::Array(items)) => match (
                            pattern_colors(kind, items),
                            transform(defs, pe),
                        ) {
                            (Some(colors), Some(ts)) => Some(
                                Some(
                                    PatternSourceValue::Pattern(
                                        PatternValue { kind, colors, transformations: ts },
                                    ),
                                ),
                            ),
                            _ => None,
                        },
                        _ => None,
                    },
                },
                _ => None,
            },
            Some(_) => None,
        },
    }
}

proof fn lemma_triples(items: Seq<YamlValue>)
    ensures
        triples(items) matches Some(ts) ==> ts.len() == items.len() && forall|i: int|
            0 <= i < items.len() ==> Some(#[trigger] ts[i]) == triple(items[i]),
    decreases items.len(),
{
    if items.len() > 0 {
        lemma_triples(items.drop_first());
        if let Some(ts) = triples(items) {
            let rest = triples(items.drop_first())->0;
            assert(ts == seq![triple(items[0])->0] + rest);
            assert forall|i: int| 0 <= i < items.len() implies Some(#[trigger] ts[i]) == triple(
                items[i],
            ) by {
                if i > 0 {
                    assert(ts[i] == rest[i - 1]);
                    assert(items.drop_first()[i - 1] == items[i]);
                }
            }
        }
    }
}

/// The colors of a material: a plain `color` is its three numbers; a `pattern` is of the kind
/// that its `type` names ("checkers", "gradient", "ring" or "stripes", one kind for each name),
/// with the first two of its `colors` for checkers and gradients and all of them, in order, for
/// rings and stripes.
pub proof fn lemma_pattern_names(defs: Seq<(YamlValue, YamlValue)>, entries: Seq<(YamlValue, YamlValue)>)
    ensures
        pattern(defs, entries) matches Some(Some(PatternSourceValue::Plain(t))) ==> lookup(
            entries,
            key("color"@),
        ) matches Some(c) && triple(c) == Some(t),
        pattern(defs, entries) matches Some(Some(PatternSourceValue::Pattern(pv))) ==> {
            &&& lookup(entries, key("color"@)) is None
            &&& lookup(entries, key("pattern"@)) matches Some(YamlValue::Hash(pe))
            &&& lookup(pe, key("type"@)) matches Some(YamlValue::String(n))
            &&& (pv.kind == PatternKind::Checkers) == (n == "checkers"@)
            &&& (pv.kind == PatternKind::Gradient) == (n == "gradient"@)
            &&& (pv.kind == PatternKind::Ring) == (n == "ring"@)
            &&& (pv.kind == PatternKind::Stripes) == (n == "stripes"@)
            &&& lookup(pe, key("colors"@)) matches Some(YamlValue::Array(items))
            &&& (pv.kind == PatternKind::Checkers || pv.kind == PatternKind::Gradient) ==> (
                pv.colors.len() == 2 && Some(pv.colors[0]) == triple(items[0]) && Some(pv.colors[1])
                    == triple(items[1]))
            &&& (pv.kind == PatternKind::Ring || pv.kind == PatternKind::Stripes) ==> (
                pv.colors.len() == items.len() && forall|i: int|
                    0 <= i < items.len() ==> Some(#[trigger] pv.colors[i]) == triple(items[i]))
        },
{
    reveal_strlit("checkers");
    reveal_strlit("gradient");
    reveal_strlit("ring");
    reveal_strlit("stripes");
    assert("checkers"@ != "gradient"@) by {
        assert("checkers"@[0] != "gradient"@[0]);
    }
    assert("checkers"@.len() != "ring"@.len() && "checkers"@.len() != "stripes"@.len());
    assert("gradient"@.len() != "ring"@.len() && "gradient"@.len() != "stripes"@.len());
    assert("ring"@.len() != "stripes"@.len());
    if let Some(YamlValue::Hash(pe)) = lookup(entries, key("pattern"@)) {
        if let Some(YamlValue::Array(items)) = lookup(pe, key("colors"@)) {
            lemma_triples(items);
        }
    }
}

fn mk_triples(items: &Vec<Yaml>) -> (res: Option<Vec<Triple>>)
    ensures
        match triples(values_of(items@)) {
            Some(v) => res matches Some(r) && r@.map_values(|c: Triple| c@) == v,
            None => res is None,
        },
{
    let ghost vals = values_of(items@);
    proof {
        lemma_values_of(items@);
        assert(vals.skip(0) =~= vals);
        assert(Seq::<Triple>::empty().map_values(|c: Triple| c@) =~= Seq::<TripleValue>::empty());
    }
    let mut out: Vec<Triple> = Vec::new();
    let mut i: usize = 0;
    while i < items.len()
        invariant
            i <= items.len(),
            vals == values_of(items@),
            vals.len() == items.len(),
            forall|k: int| 0 <= k < items.len() ==> #[trigger] vals[k] == value_of(items@[k]),
            triples(vals) == prepend(out@.map_values(|c: Triple| c@), triples(vals.skip(i as int))),
        decreases items.len() - i,
    {
        proof {
            assert(vals.skip(i as int)[0] == vals[i as int]);
            assert(vals.skip(i as int).drop_first() =~= vals.skip(i + 1));
        }
        match mk_triple(&items[i]) {
            None => {
                return None;
            },
            Some(t) => {
                let ghost before = out@.map_values(|c: Triple| c@);
                out.push(t);
                proof {
                    let after = out@.map_values(|c: Triple| c@);
                    assert(after =~= before + seq![t@]);
                    match triples(vals.skip(i + 1)) {
                        Some(r) => {
                            assert(before + (seq![t@] + r) =~= after + r);
                        },
                        None => {},
                    }
                }
            },
        }
        i = i + 1;
    }
    proof {
        assert(vals.skip(i as int) =~= Seq::<YamlValue>::empty());
        assert(out@.map_values(|c: Triple| c@) + Seq::<TripleValue>::empty() =~= out@.map_values(
            |c: Triple| c@,
        ));
    }
    Some(out)
}

fn mk_pattern_kind(name: &String) -> (res: Option<PatternKind>)
    ensures
        res == pattern_kind(name@),
{
    if is_op(name, "checkers") {
        Some(PatternKind::Checkers)
    } else if is_op(name, "gradient") {
        Some(PatternKind::Gradient)
    } else if is_op(name, "ring") {
        Some(PatternKind::Ring)
    } else if is_op(name, "stripes") {
        Some(PatternKind::Stripes)
    } else {
        None
    }
}

fn mk_pattern_colors(kind: PatternKind, items: &Vec<Yaml>) -> (res: Option<Vec<Triple>>)
    ensures
        match pattern_colors(kind, values_of(items@)) {
            Some(v) => res matches Some(r) && r@.map_values(|c: Triple| c@) == v,
            None => res is None,
        },
{
    proof {
        lemma_values_of(items@);
    }
    match kind {
        PatternKind::Checkers | PatternKind::Gradient => {
            if items.len() < 2 {
                return None;
            }
            match (mk_triple(&items[0]), mk_triple(&items[1])) {
                (Some(a), Some(b)) => {
                    let ghost va = a@;
                    let ghost vb = b@;
                    let mut out: Vec<Triple> = Vec::new();
                    out.push(a);
                    out.push(b);
                    assert(out@.map_values(|c: Triple| c@) =~= seq![va, vb]);
                    Some(out)
                },
                _ => None,
            }
        },
        _ => mk_triples(items),
    }
}

/// The colors of a material's mapping.
pub fn mk_pattern(defs: &Definitions, entries: &Vec<(Yaml, Yaml)>) -> (res: Option<Option<PatternSource>>)
    ensures
        match pattern(entries_of(defs@), entries_of(entries@)) {
            Some(Some(v)) => res matches Some(Some(r)) && r@ == v,
            Some(None) => res matches Some(None),
            None => res is None,
        },
{
    match get_key(entries, "color") {
        Some(c) => match mk_triple(c) {
            Some(t) => Some(Some(PatternSource::Plain(t))),
            None => None,
        },
        None => match get_key(entries, "pattern") {
            None => Some(None),
            Some(Yaml::Hash(pe)) => match get_key(pe, "type") {
                Some(Yaml::String(name)) => match mk_pattern_kind(name) {
                    None => None,
                    Some(kind) => match get_key(pe, "colors") {
                        Some(Yaml::Array(items)) => match (
                            mk_pattern_colors(kind, items),
                            mk_transform(defs, pe),
                        ) {
                            (Some(colors), Some(transformations)) => Some(
                                Some(
                                    PatternSource::Pattern(
                                        PatternDescription { kind, colors, transformations },
                                    ),
                                ),
                            ),
                            _ => None,
                        },
                        _ => None,
                    },
                },
                _ => None,
            },
            Some(_) => None,
        },
    }
}


/// The properties a material's mapping sets; an absent one keeps its default value.
#[derive(Debug)]
pub struct MaterialDescription {
    pub ambient: Option<Scalar>,
    pub diffuse: Option<Scalar>,
    pub reflective: Option<Scalar>,
    pub refractive_index: Option<Scalar>,
    pub shininess: Option<Scalar>,
    pub specular: Option<Scalar>,
    pub transparency: Option<Scalar>,
    pub pattern: Option<PatternSource>,
}

/// What the properties of a material are.
pub struct MaterialValue {
    pub ambient: Option<ScalarValue>,
    pub diffuse: Option<ScalarValue>,
    pub reflective: Option<ScalarValue>,
    pub refractive_index: Option<ScalarValue>,
    pub shininess: Option<ScalarValue>,
    pub specular: Option<ScalarValue>,
    pub transparency: Option<ScalarValue>,
    pub pattern: Option<PatternSourceValue>,
}

impl View for MaterialDescription {
    type V = MaterialValue;

    open spec fn view(&self) -> MaterialValue {
        MaterialValue {
            ambient: optional_view(self.ambient),
            diffuse: optional_view(self.diffuse),
            reflective: optional_view(self.reflective),
            refractive_index: optional_view(self.refractive_index),
            shininess: optional_view(self.shininess),
            specular: optional_view(self.specular),
            transparency: optional_view(self.transparency),
            pattern: match self.pattern {
                Some(p) => Some(p@),
                None => None,
            },
        }
    }
}

/// The material that sets nothing: every property keeps its default.
pub open spec fn default_material() -> MaterialValue {
    MaterialValue {
        ambient: None,
        diffuse: None,
        reflective: None,
        refractive_index: None,
        shininess: None,
        specular: None,
        transparency: None,
        pattern: None,
    }
}

/// The material of an object's mapping: the mapping under `material`, given in place or by the
/// name of a definition, or the default material when there is none.
pub open spec fn material(defs: Seq<(YamlValue, YamlValue)>, entries: Seq<(YamlValue, YamlValue)>) -> Option<
    MaterialValue,
> {
    match lookup(entries, key("material"@)) {
        None => Some(default_material()),
        Some(m) => match get_hash(defs, m) {
            None => None,
            Some(me) => match (
                optional_scalar(me, "ambient"@),
                optional_scalar(me, "diffuse"@),
                optional_scalar(me, "reflective"@),
                optional_scalar(me, "refractive-index"@),
                optional_scalar(me, "shininess"@),
                optional_scalar(me, "specular"@),
                optional_scalar(me, "transparency"@),
                pattern(defs, me),
            ) {
                (
                    Some(ambient),
                    Some(diffuse),
                    Some(reflective),
                    Some(refractive_index),
                    Some(shininess),
                    Some(specular),
                    Some(transparency),
                    Some(pattern),
                ) => Some(
                    MaterialValue {
                        ambient,
                        diffuse,
                        reflective,
                        refractive_index,
                        shininess,
                        specular,
                        transparency,
                        pattern,
                    },
                ),
                _ => None,
            },
        },
    }
}

/// Each property of a material read from an object's mapping is the number that its material
/// mapping stores under that property's own key, and nothing where the key is absent; an
/// object without a material sets no property.
pub proof fn lemma_material_keys(defs: Seq<(YamlValue, YamlValue)>, entries: Seq<(YamlValue, YamlValue)>)
    ensures
        material(defs, entries) matches Some(m) ==> match lookup(entries, key("material"@)) {
            None => m.ambient is None && m.diffuse is None && m.reflective is None
                && m.refractive_index is None && m.shininess is None && m.specular is None
                && m.transparency is None && m.pattern is None,
            Some(mv) => get_hash(defs, mv) matches Some(me) && {
                &&& m.ambient == key_scalar(me, "ambient"@)
                &&& m.diffuse == key_scalar(me, "diffuse"@)
                &&& m.reflective == key_scalar(me, "reflective"@)
                &&& m.refractive_index == key_scalar(me, "refractive-index"@)
                &&& m.shininess == key_scalar(me, "shininess"@)
                &&& m.specular == key_scalar(me, "specular"@)
                &&& m.transparency == key_scalar(me, "transparency"@)
            },
        },
{
}

/// The material of an object's mapping.
pub fn mk_material(defs: &Definitions, entries: &Vec<(Yaml, Yaml)>) -> (res: Option<MaterialDescription>)
    ensures
        match material(entries_of(defs@), entries_of(entries@)) {
            Some(v) => res matches Some(r) && r@ == v,
            None => res is None,
        },
{
    match get_key(entries, "material") {
        None => Some(
            MaterialDescription {
                ambient: None,
                diffuse: None,
                reflective: None,
                refractive_index: None,
                shininess: None,
                specular: None,
                transparency: None,
                pattern: None,
            },
        ),
        Some(m) => match hash_of(defs, m) {
            None => None,
            Some(me) => match (
                mk_optional_scalar(me, "ambient"),
                mk_optional_scalar(me, "diffuse"),
                mk_optional_scalar(me, "reflective"),
                mk_optional_scalar(me, "refractive-index"),
                mk_optional_scalar(me, "shininess"),
                mk_optional_scalar(me, "specular"),
                mk_optional_scalar(me, "transparency"),
                mk_pattern(defs, me),
            ) {
                (
                    Some(ambient),
                    Some(diffuse),
                    Some(reflective),
                    Some(refractive_index),
                    Some(shininess),
                    Some(specular),
                    Some(transparency),
                    Some(pattern),
                ) => Some(
                    MaterialDescription {
                        ambient,
                        diffuse,
                        reflective,
                        refractive_index,
                        shininess,
                        specular,
                        transparency,
                        pattern,
                    },
                ),
                _ => None,
            },
        },
    }
}

/// The cube of side 2 centered on the origin.
#[derive(Clone, Copy, Debug, PartialEq, Eq, Structural)]
pub struct Cube {}

/// The plane `y = 0`.
#[derive(Clone, Copy, Debug, PartialEq, Eq, Structural)]
pub struct Plane {}

/// The sphere of radius 1 centered on the origin.
#[derive(Clone, Copy, Debug, PartialEq, Eq, Structural)]
pub struct Sphere {}

/// The shapes a scene file can add.
#[derive(Clone, Copy, Debug, PartialEq, Eq, Structural)]
pub enum ShapeKind {
    Cube(Cube),
    Plane(Plane),
    Sphere(Sphere),
}

/// The shape a text names.
pub open spec fn shape_named(name: Seq<char>) -> Option<ShapeKind> {
    if name == "cube"@ {
        Some(ShapeKind::Cube(Cube {  }))
    } else if name == "plane"@ {
        Some(ShapeKind::Plane(Plane {  }))
    } else if name == "sphere"@ {
        Some(ShapeKind::Sphere(Sphere {  }))
    } else {
        None
    }
}

fn mk_shape(name: &String) -> (res: Option<ShapeKind>)
    ensures
        res == shape_named(name@),
{
    if is_op(name, "cube") {
        Some(ShapeKind::Cube(Cube {  }))
    } else if is_op(name, "plane") {
        Some(ShapeKind::Plane(Plane {  }))
    } else if is_op(name, "sphere") {
        Some(ShapeKind::Sphere(Sphere {  }))
    } else {
        None
    }
}

/// An object of a scene: its shape, its material, whether it casts a shadow and its
/// transformations in the order they apply.
#[derive(Debug)]
pub struct ObjectDescription {
    pub shape: ShapeKind,
    pub material: MaterialDescription,
    pub shadow: bool,
    pub transformations: Vec<Transformation>,
}

/// What an object of a scene is.
pub struct ObjectValue {
    pub shape: ShapeKind,
    pub material: MaterialValue,
    pub shadow: bool,
    pub transformations: Seq<TransformationValue>,
}

impl View for ObjectDescription {
    type V = ObjectValue;

    open spec fn view(&self) -> ObjectValue {
        ObjectValue {
            shape: self.shape,
            material: self.material@,
            shadow: self.shadow,
            transformations: self.transformations@.map_values(|t: Transformation| t@),
        }
    }
}

/// Whether an object casts a shadow: yes, unless its `shadow` key says otherwise.
pub open spec fn casts_shadow(entries: Seq<(YamlValue, YamlValue)>) -> Option<bool> {
    match lookup(entries, key("shadow"@)) {
        None => Some(true),
        Some(b) => boolean(b),
    }
}

/// The object that the mapping of an `add` of a shape describes.
pub open spec fn object(
    defs: Seq<(YamlValue, YamlValue)>,
    entries: Seq<(YamlValue, YamlValue)>,
    name: Seq<char>,
) -> Option<ObjectValue> {
    match (shape_named(name), material(defs, entries), casts_shadow(entries), transform(defs, entries)) {
        (Some(shape), Some(m), Some(shadow), Some(ts)) => Some(
            ObjectValue { shape, material: m, shadow, transformations: ts },
        ),
        _ => None,
    }
}

/// An object is of the shape its name gives ("cube", "plane" or "sphere", one shape for each
/// name); it casts a shadow unless its `shadow` key says false; its material and its
/// transformations are those its mapping describes.
pub proof fn lemma_object_parts(
    defs: Seq<(YamlValue, YamlValue)>,
    entries: Seq<(YamlValue, YamlValue)>,
    name: Seq<char>,
)
    ensures
        object(defs, entries, name) matches Some(o) ==> {
            &&& (o.shape is Cube) == (name == "cube"@)
            &&& (o.shape is Plane) == (name == "plane"@)
            &&& (o.shape is Sphere) == (name == "sphere"@)
            &&& match lookup(entries, key("shadow"@)) {
                None => o.shadow,
                Some(b) => b == YamlValue::Boolean(o.shadow),
            }
            &&& material(defs, entries) == Some(o.material)
            &&& transform(defs, entries) == Some(o.transformations)
        },
{
    reveal_strlit("cube");
    reveal_strlit("plane");
    reveal_strlit("sphere");
    assert("cube"@.len() != "plane"@.len() && "cube"@.len() != "sphere"@.len());
    assert("plane"@.len() != "sphere"@.len());
}

/// The object that the mapping of an `add` of a shape describes.
pub fn mk_object(defs: &Definitions, entries: &Vec<(Yaml, Yaml)>, name: &String) -> (res: Option<
    ObjectDescription,
>)
    ensures
        match object(entries_of(defs@), entries_of(entries@), name@) {
            Some(v) => res matches Some(r) && r@ == v,
            None => res is None,
        },
{
    let shadow = match get_key(entries, "shadow") {
        None => Some(true),
        Some(b) => mk_bool(b),
    };
    match (mk_shape(name), mk_material(defs, entries), shadow, mk_transform(defs, entries)) {
        (Some(shape), Some(material), Some(shadow), Some(transformations)) => Some(
            ObjectDescription { shape, material, shadow, transformations },
        ),
        _ => None,
    }
}

/// The camera of a scene: the size of the image, the field of view, and where it stands, looks
/// and which way is up.
#[derive(Debug)]
pub struct CameraDescription {
    pub width: usize,
    pub height: usize,
    pub field_of_view: Scalar,
    pub from: Triple,
    pub to: Triple,
    pub up: Triple,
}

/// What the camera of a scene is.
pub struct CameraValue {
    pub width: usize,
    pub height: usize,
    pub field_of_view: ScalarValue,
    pub from: TripleValue,
    pub to: TripleValue,
    pub up: TripleValue,
}

impl View for CameraDescription {
    type V = CameraValue;

    open spec fn view(&self) -> CameraValue {
        CameraValue {
            width: self.width,
            height: self.height,
            field_of_view: self.field_of_view@,
            from: self.from@,
            to: self.to@,
            up: self.up@,
        }
    }
}

/// The camera that the mapping of an `add: camera` describes.
pub open spec fn camera(entries: Seq<(YamlValue, YamlValue)>) -> Option<CameraValue> {
    match (
        key_unsigned(entries, "width"@),
        key_unsigned(entries, "height"@),
        key_scalar(entries, "field-of-view"@),
        key_triple(entries, "from"@),
        key_triple(entries, "to"@),
        key_triple(entries, "up"@),
    ) {
        (Some(width), Some(height), Some(field_of_view), Some(from), Some(to), Some(up)) => Some(
            CameraValue { width, height, field_of_view, from, to, up },
        ),
        _ => None,
    }
}

/// Each field of a camera is read from its own key: `width`, `height`, `field-of-view`, `from`,
/// `to` and `up`.
pub proof fn lemma_camera_keys(entries: Seq<(YamlValue, YamlValue)>)
    ensures
        camera(entries) matches Some(c) ==> {
            &&& lookup(entries, key("width"@)) matches Some(w) && unsigned(w) == Some(c.width)
            &&& lookup(entries, key("height"@)) matches Some(h) && unsigned(h) == Some(c.height)
            &&& lookup(entries, key("field-of-view"@)) matches Some(f) && scalar(f) == Some(
                c.field_of_view,
            )
            &&& lookup(entries, key("from"@)) matches Some(p) && triple(p) == Some(c.from)
            &&& lookup(entries, key("to"@)) matches Some(p) && triple(p) == Some(c.to)
            &&& lookup(entries, key("up"@)) matches Some(p) && triple(p) == Some(c.up)
        },
{
}

/// The camera that the mapping of an `add: camera` describes.
pub fn mk_camera(entries: &Vec<(Yaml, Yaml)>) -> (res: Option<CameraDescription>)
    ensures
        match camera(entries_of(entries@)) {
            Some(v) => res matches Some(r) && r@ == v,
            None => res is None,
        },
{
    match (
        mk_usize_at(entries, "width"),
        mk_usize_at(entries, "height"),
        mk_scalar_at(entries, "field-of-view"),
        mk_triple_at(entries, "from"),
        mk_triple_at(entries, "to"),
        mk_triple_at(entries, "up"),
    ) {
        (Some(width), Some(height), Some(field_of_view), Some(from), Some(to), Some(up)) => Some(
            CameraDescription { width, height, field_of_view, from, to, up },
        ),
        _ => None,
    }
}

/// A light of a scene: an area light, a rectangle sampled `usteps` by `vsteps` times, or a
/// point light.
#[derive(Debug)]
pub enum LightDescription {
    Area { intensity: Triple, corner: Triple, uvec: Triple, usteps: u32, vvec: Triple, vsteps: u32 },
    Point { intensity: Triple, at: Triple },
}

/// What a light of a scene is.
pub enum LightValue {
    Area {
        intensity: TripleValue,
        corner: TripleValue,
        uvec: TripleValue,
        usteps: u32,
        vvec: TripleValue,
        vsteps: u32,
    },
    Point { intensity: TripleValue, at: TripleValue },
}

impl View for LightDescription {
    type V = LightValue;

    open spec fn view(&self) -> LightValue {
        match self {
            LightDescription::Area { intensity, corner, uvec, usteps, vvec, vsteps } => LightValue::Area {
                intensity: intensity@,
                corner: corner@,
                uvec: uvec@,
                usteps: *usteps,
                vvec: vvec@,
                vsteps: *vsteps,
            },
            LightDescription::Point { intensity, at } => LightValue::Point {
                intensity: intensity@,
                at: at@,
            },
        }
    }
}

/// The light that the mapping of an `add: light` describes: an area light when it has a
/// `corner`, otherwise a point light when it has an `at`. Step counts are cut to 32 bits as
/// `as u32` cuts them.
pub open spec fn light(entries: Seq<(YamlValue, YamlValue)>) -> Option<LightValue> {
    if lookup(entries, key("corner"@)) is Some {
        match (
            key_triple(entries, "intensity"@),
            key_triple(entries, "corner"@),
            key_triple(entries, "uvec"@),
            key_unsigned(entries, "usteps"@),
            key_triple(entries, "vvec"@),
            key_unsigned(entries, "vsteps"@),
        ) {
            (Some(intensity), Some(corner), Some(uvec), Some(us), Some(vvec), Some(vs)) => Some(
                LightValue::Area {
                    intensity,
                    corner,
                    uvec,
                    usteps: us as u32,
                    vvec,
                    vsteps: vs as u32,
                },
            ),
            _ => None,
        }
    } else if lookup(entries, key("at"@)) is Some {
        match (key_triple(entries, "intensity"@), key_triple(entries, "at"@)) {
            (Some(intensity), Some(at)) => Some(LightValue::Point { intensity, at }),
            _ => None,
        }
    } else {
        None
    }
}

/// A light with a `corner` is an area light, else one with an `at` is a point light; each of
/// its fields is read from its own key.
pub proof fn lemma_light_keys(entries: Seq<(YamlValue, YamlValue)>)
    ensures
        light(entries) matches Some(LightValue::Area { intensity, corner, uvec, usteps, vvec, vsteps })
            ==> {
            &&& lookup(entries, key("intensity"@)) matches Some(p) && triple(p) == Some(intensity)
            &&& lookup(entries, key("corner"@)) matches Some(p) && triple(p) == Some(corner)
            &&& lookup(entries, key("uvec"@)) matches Some(p) && triple(p) == Some(uvec)
            &&& lookup(entries, key("vvec"@)) matches Some(p) && triple(p) == Some(vvec)
            &&& lookup(entries, key("usteps"@)) matches Some(n) && unsigned(n) matches Some(u) && usteps
                == u as u32
            &&& lookup(entries, key("vsteps"@)) matches Some(n) && unsigned(n) matches Some(u) && vsteps
                == u as u32
        },
        light(entries) matches Some(LightValue::Point { intensity, at }) ==> {
            &&& lookup(entries, key("corner"@)) is None
            &&& lookup(entries, key("intensity"@)) matches Some(p) && triple(p) == Some(intensity)
            &&& lookup(entries, key("at"@)) matches Some(p) && triple(p) == Some(at)
        },
        lookup(entries, key("corner"@)) is None && lookup(entries, key("at"@)) is None ==> light(
            entries,
        ) is None,
{
}

/// The light that the mapping of an `add: light` describes.
pub fn mk_light(entries: &Vec<(Yaml, Yaml)>) -> (res: Option<LightDescription>)
    ensures
        match light(entries_of(entries@)) {
            Some(v) => res matches Some(r) && r@ == v,
            None => res is None,
        },
{
    if get_key(entries, "corner").is_some() {
        match (
            mk_triple_at(entries, "intensity"),
            mk_triple_at(entries, "corner"),
            mk_triple_at(entries, "uvec"),
            mk_usize_at(entries, "usteps"),
            mk_triple_at(entries, "vvec"),
            mk_usize_at(entries, "vsteps"),
        ) {
            (Some(intensity), Some(corner), Some(uvec), Some(us), Some(vvec), Some(vs)) => Some(
                LightDescription::Area {
                    intensity,
                    corner,
                    uvec,
                    usteps: us as u32,
                    vvec,
                    vsteps: vs as u32,
                },
            ),
            _ => None,
        }
    } else if get_key(entries, "at").is_some() {
        match (mk_triple_at(entries, "intensity"), mk_triple_at(entries, "at")) {
            (Some(intensity), Some(at)) => Some(LightDescription::Point { intensity, at }),
            _ => None,
        }
    } else {
        None
    }
}


/// The entries of a mapping without those of key `k`.
pub open spec fn remove_key(entries: Seq<(YamlValue, YamlValue)>, k: YamlValue) -> Seq<(YamlValue, YamlValue)>
    decreases entries.len(),
{
    if entries.len() == 0 {
        seq![]
    } else if entries[0].0 == k {
        remove_key(entries.drop_first(), k)
    } else {
        seq![entries[0]] + remove_key(entries.drop_first(), k)
    }
}

/// The entries of a mapping after inserting `v` under `k`: an ordered map puts the key last,
/// whether or not it held it before.
pub open spec fn insert_entry(entries: Seq<(YamlValue, YamlValue)>, k: YamlValue, v: YamlValue) -> Seq<
    (YamlValue, YamlValue),
> {
    remove_key(entries, k).push((k, v))
}

/// The entries of a mapping after inserting those of another, in order.
pub open spec fn extend_entries(
    base: Seq<(YamlValue, YamlValue)>,
    extra: Seq<(YamlValue, YamlValue)>,
) -> Seq<(YamlValue, YamlValue)>
    decreases extra.len(),
{
    if extra.len() == 0 {
        base
    } else {
        extend_entries(insert_entry(base, extra[0].0, extra[0].1), extra.drop_first())
    }
}

proof fn lemma_lookup_push(s: Seq<(YamlValue, YamlValue)>, x: (YamlValue, YamlValue), k: YamlValue)
    ensures
        lookup(s.push(x), k) == match lookup(s, k) {
            Some(v) => Some(v),
            None => if x.0 == k {
                Some(x.1)
            } else {
                None
            },
        },
    decreases s.len(),
{
    if s.len() > 0 {
        let t = s.push(x);
        assert(t[0] == s[0]);
        assert(t.drop_first() =~= s.drop_first().push(x));
        lemma_lookup_push(s.drop_first(), x, k);
        assert(lookup(t, k) == if s[0].0 == k {
            Some(s[0].1)
        } else {
            lookup(s.drop_first().push(x), k)
        });
    } else {
        let t = s.push(x);
        assert(t[0] == x);
        assert(t.drop_first() =~= Seq::<(YamlValue, YamlValue)>::empty());
        assert(lookup(t.drop_first(), k) is None);
    }
}

proof fn lemma_lookup_remove(s: Seq<(YamlValue, YamlValue)>, k: YamlValue, k2: YamlValue)
    ensures
        lookup(remove_key(s, k), k2) == if k2 == k {
            None
        } else {
            lookup(s, k2)
        },
    decreases s.len(),
{
    if s.len() > 0 {
        lemma_lookup_remove(s.drop_first(), k, k2);
        if s[0].0 != k {
            let r = seq![s[0]] + remove_key(s.drop_first(), k);
            assert(r[0] == s[0]);
            assert(r.drop_first() =~= remove_key(s.drop_first(), k));
        }
    }
}

proof fn lemma_lookup_insert(s: Seq<(YamlValue, YamlValue)>, k: YamlValue, v: YamlValue, k2: YamlValue)
    ensures
        lookup(insert_entry(s, k, v), k2) == if k2 == k {
            Some(v)
        } else {
            lookup(s, k2)
        },
{
    lemma_lookup_remove(s, k, k2);
    lemma_lookup_push(remove_key(s, k), (k, v), k2);
}

proof fn lemma_lookup_last_first(s: Seq<(YamlValue, YamlValue)>, k: YamlValue)
    requires
        s.len() > 0,
    ensures
        lookup_last(s, k) == match lookup_last(s.drop_first(), k) {
            Some(v) => Some(v),
            None => if s[0].0 == k {
                Some(s[0].1)
            } else {
                None
            },
        },
    decreases s.len(),
{
    if s.len() > 1 {
        assert(s.drop_last().drop_first() =~= s.drop_first().drop_last());
        lemma_lookup_last_first(s.drop_last(), k);
        assert(s.drop_first().last() == s.last());
    } else {
        assert(s.drop_first() =~= Seq::<(YamlValue, YamlValue)>::empty());
        assert(s.drop_last() =~= Seq::<(YamlValue, YamlValue)>::empty());
    }
}

/// Extending a mapping: a key among the added entries reads as the value added for it last;
/// any other key reads as before.
pub proof fn lemma_extend_lookup(
    base: Seq<(YamlValue, YamlValue)>,
    extra: Seq<(YamlValue, YamlValue)>,
    k: YamlValue,
)
    ensures
        lookup(extend_entries(base, extra), k) == match lookup_last(extra, k) {
            Some(v) => Some(v),
            None => lookup(base, k),
        },
    decreases extra.len(),
{
    if extra.len() > 0 {
        let next = insert_entry(base, extra[0].0, extra[0].1);
        lemma_extend_lookup(next, extra.drop_first(), k);
        lemma_lookup_insert(base, extra[0].0, extra[0].1, k);
        lemma_lookup_last_first(extra, k);
    }
}

/// The entries of a mapping after inserting `v` under `k`.
fn insert(entries: &Vec<(Yaml, Yaml)>, k: Yaml, v: Yaml) -> (res: Vec<(Yaml, Yaml)>)
    ensures
        entries_of(res@) == insert_entry(entries_of(entries@), k@, v@),
{
    let ghost es = entries_of(entries@);
    proof {
        lemma_entries_of(entries@);
        assert(es.skip(0) =~= es);
    }
    let mut out: Vec<(Yaml, Yaml)> = Vec::new();
    let mut i: usize = 0;
    while i < entries.len()
        invariant
            i <= entries.len(),
            es == entries_of(entries@),
            es.len() == entries.len(),
            forall|m: int|
                0 <= m < entries.len() ==> #[trigger] es[m] == (
                value_of(entries@[m].0),
                value_of(entries@[m].1),
            ),
            remove_key(es, k@) == entries_of(out@) + remove_key(es.skip(i as int), k@),
        decreases entries.len() - i,
    {
        proof {
            assert(es.skip(i as int)[0] == es[i as int]);
            assert(es.skip(i as int).drop_first() =~= es.skip(i + 1));
        }
        if !crate::yaml::same(&entries[i].0, &k) {
            let ghost before = out@;
            let a = copy_yaml(&entries[i].0);
            let b = copy_yaml(&entries[i].1);
            out.push((a, b));
            proof {
                assert(out@.drop_last() =~= before);
                assert(entries_of(out@) =~= entries_of(before).push(es[i as int]));
                assert(entries_of(before) + (seq![es[i as int]] + remove_key(es.skip(i + 1), k@))
                    =~= entries_of(out@) + remove_key(es.skip(i + 1), k@));
            }
        }
        i = i + 1;
    }
    proof {
        assert(es.skip(i as int) =~= Seq::<(YamlValue, YamlValue)>::empty());
        assert(entries_of(out@) + Seq::<(YamlValue, YamlValue)>::empty() =~= entries_of(out@));
    }
    let ghost before = out@;
    let ghost kv = k@;
    let ghost vv = v@;
    out.push((k, v));
    proof {
        assert(out@.drop_last() =~= before);
    }
    out
}

/// A copy of the entries of a mapping.
fn copy_entries(entries: &Vec<(Yaml, Yaml)>) -> (res: Vec<(Yaml, Yaml)>)
    ensures
        entries_of(res@) == entries_of(entries@),
{
    proof {
        lemma_entries_of(entries@);
    }
    let mut out: Vec<(Yaml, Yaml)> = Vec::new();
    let mut i: usize = 0;
    while i < entries.len()
        invariant
            i <= entries.len(),
            entries_of(entries@).len() == entries.len(),
            forall|m: int|
                0 <= m < entries.len() ==> #[trigger] entries_of(entries@)[m] == (
                value_of(entries@[m].0),
                value_of(entries@[m].1),
            ),
            entries_of(out@) == entries_of(entries@).take(i as int),
        decreases entries.len() - i,
    {
        let ghost before = out@;
        let a = copy_yaml(&entries[i].0);
        let b = copy_yaml(&entries[i].1);
        out.push((a, b));
        proof {
            assert(out@.drop_last() =~= before);
            assert(entries_of(out@) =~= entries_of(entries@).take(i + 1));
        }
        i = i + 1;
    }
    assert(entries_of(entries@).take(i as int) =~= entries_of(entries@));
    out
}

/// The entries of a mapping after inserting those of another, in order.
fn extend(base: Vec<(Yaml, Yaml)>, extra: &Vec<(Yaml, Yaml)>) -> (res: Vec<(Yaml, Yaml)>)
    ensures
        entries_of(res@) == extend_entries(entries_of(base@), entries_of(extra@)),
{
    let ghost xs = entries_of(extra@);
    proof {
        lemma_entries_of(extra@);
        assert(xs.skip(0) =~= xs);
    }
    let mut out = base;
    let mut i: usize = 0;
    while i < extra.len()
        invariant
            i <= extra.len(),
            xs == entries_of(extra@),
            xs.len() == extra.len(),
            forall|m: int|
                0 <= m < extra.len() ==> #[trigger] xs[m] == (
                value_of(extra@[m].0),
                value_of(extra@[m].1),
            ),
            extend_entries(entries_of(base@), xs) == extend_entries(entries_of(out@), xs.skip(i as int)),
        decreases extra.len() - i,
    {
        proof {
            assert(xs.skip(i as int)[0] == xs[i as int]);
            assert(xs.skip(i as int).drop_first() =~= xs.skip(i + 1));
        }
        let k = copy_yaml(&extra[i].0);
        let v = copy_yaml(&extra[i].1);
        out = insert(&out, k, v);
        i = i + 1;
    }
    assert(xs.skip(i as int) =~= Seq::<(YamlValue, YamlValue)>::empty());
    out
}

/// The value defined by the mapping of a `define`: its `value`, or, when it `extend`s a
/// mapping given in place or by the name of an earlier definition, that mapping with the
/// entries of its `value` inserted.
pub open spec fn definition_value(
    defs: Seq<(YamlValue, YamlValue)>,
    entries: Seq<(YamlValue, YamlValue)>,
) -> Option<YamlValue> {
    match lookup(entries, key("value"@)) {
        None => None,
        Some(v) => match lookup(entries, key("extend"@)) {
            None => Some(v),
            Some(parent) => match v {
                YamlValue::Hash(ve) => match get_hash(defs, parent) {
                    Some(pe) => Some(YamlValue::Hash(extend_entries(pe, ve))),
                    None => None,
                },
                _ => None,
            },
        },
    }
}

/// The definitions made by a list of items, after those already made.
pub open spec fn definitions_from(
    items: Seq<YamlValue>,
    defs: Seq<(YamlValue, YamlValue)>,
) -> Option<Seq<(YamlValue, YamlValue)>>
    decreases items.len(),
{
    if items.len() == 0 {
        Some(defs)
    } else {
        match items[0] {
            YamlValue::Hash(entries) => match lookup(entries, key("define"@)) {
                None => definitions_from(items.drop_first(), defs),
                Some(name) => match definition_value(defs, entries) {
                    None => None,
                    Some(v) => definitions_from(items.drop_first(), defs.push((name, v))),
                },
            },
            _ => None,
        }
    }
}

/// The definitions of a scene document, a sequence of mappings, in the order they are made.
pub open spec fn definitions(doc: YamlValue) -> Option<Seq<(YamlValue, YamlValue)>> {
    match doc {
        YamlValue::Array(items) => definitions_from(items, seq![]),
        _ => None,
    }
}

/// The mappings among a list of items that define a name, in order.
pub open spec fn defining_items(items: Seq<YamlValue>) -> Seq<Seq<(YamlValue, YamlValue)>>
    decreases items.len(),
{
    if items.len() == 0 {
        seq![]
    } else {
        match items[0] {
            YamlValue::Hash(entries) => if lookup(entries, key("define"@)) is Some {
                seq![entries] + defining_items(items.drop_first())
            } else {
                defining_items(items.drop_first())
            },
            _ => defining_items(items.drop_first()),
        }
    }
}

proof fn lemma_definitions_from(items: Seq<YamlValue>, acc: Seq<(YamlValue, YamlValue)>)
    ensures
        definitions_from(items, acc) matches Some(ds) ==> {
            &&& ds.len() == acc.len() + defining_items(items).len()
            &&& ds.take(acc.len() as int) == acc
            &&& forall|m: int|
                0 <= m < defining_items(items).len() ==> {
                    let e = #[trigger] defining_items(items)[m];
                    &&& Some(ds[acc.len() + m].0) == lookup(e, key("define"@))
                    &&& definition_value(ds.take(acc.len() + m), e) == Some(ds[acc.len() + m].1)
                }
        },
    decreases items.len(),
{
    if items.len() == 0 {
        assert(acc.take(acc.len() as int) =~= acc);
    } else {
        let rest = items.drop_first();
        if let YamlValue::Hash(entries) = items[0] {
            match lookup(entries, key("define"@)) {
                None => {
                    lemma_definitions_from(rest, acc);
                },
                Some(name) => {
                    if let Some(v) = definition_value(acc, entries) {
                        let acc2 = acc.push((name, v));
                        lemma_definitions_from(rest, acc2);
                        if let Some(ds) = definitions_from(rest, acc2) {
                            let d = defining_items(items);
                            assert(d == seq![entries] + defining_items(rest));
                            assert(ds.take(acc2.len() as int).take(acc.len() as int) =~= ds.take(
                                acc.len() as int,
                            ));
                            assert(acc2.take(acc.len() as int) =~= acc);
                            assert forall|m: int| 0 <= m < d.len() implies {
                                let e = #[trigger] d[m];
                                &&& Some(ds[acc.len() + m].0) == lookup(e, key("define"@))
                                &&& definition_value(ds.take(acc.len() + m), e) == Some(
                                    ds[acc.len() + m].1,
                                )
                            } by {
                                if m == 0 {
                                    assert(d[0] == entries);
                                    assert(ds[acc.len() as int] == ds.take(acc2.len() as int)[acc.len() as int]);
                                } else {
                                    assert(d[m] == defining_items(rest)[m - 1]);
                                    assert(acc.len() + m == acc2.len() + (m - 1));
                                }
                            }
                        }
                    }
                },
            }
        }
    }
}

/// What a scene document defines: one definition for each mapping with a `define`, in order and
/// nothing for the other items; each is the name under `define` and the value of the mapping
/// given the definitions made before it (its `value`, or the mapping it `extend`s with the
/// entries of its `value` inserted). Where a name is defined twice, lookups take the later one.
pub proof fn lemma_definitions(items: Seq<YamlValue>)
    ensures
        definitions(YamlValue::Array(items)) matches Some(ds) ==> {
            &&& ds.len() == defining_items(items).len()
            &&& forall|m: int|
                0 <= m < ds.len() ==> {
                    let e = #[trigger] defining_items(items)[m];
                    &&& Some(ds[m].0) == lookup(e, key("define"@))
                    &&& definition_value(ds.take(m), e) == Some(ds[m].1)
                }
        },
{
    lemma_definitions_from(items, seq![]);
}

/// The definitions of a scene document.
pub fn get_definitions(doc: &Yaml) -> (res: Option<Definitions>)
    ensures
        match definitions(doc@) {
            Some(d) => res matches Some(r) && entries_of(r@) == d,
            None => res is None,
        },
{
    let items = match doc {
        Yaml::Array(items) => items,
        _ => {
            return None;
        },
    };
    let ghost vals = values_of(items@);
    proof {
        lemma_values_of(items@);
        assert(vals.skip(0) =~= vals);
    }
    let mut defs: Definitions = Vec::new();
    let mut i: usize = 0;
    while i < items.len()
        invariant
            i <= items.len(),
            vals == values_of(items@),
            vals.len() == items.len(),
            forall|m: int| 0 <= m < items.len() ==> #[trigger] vals[m] == value_of(items@[m]),
            definitions(doc@) == definitions_from(vals, seq![]),
            definitions_from(vals, seq![]) == definitions_from(vals.skip(i as int), entries_of(defs@)),
        decreases items.len() - i,
    {
        proof {
            assert(vals.skip(i as int)[0] == vals[i as int]);
            assert(vals.skip(i as int).drop_first() =~= vals.skip(i + 1));
        }
        let entries = match &items[i] {
            Yaml::Hash(entries) => entries,
            _ => {
                return None;
            },
        };
        match get_key(entries, "define") {
            None => {},
            Some(name) => {
                let v = match get_key(entries, "value") {
                    Some(v) => v,
                    None => {
                        return None;
                    },
                };
                let value = match get_key(entries, "extend") {
                    None => copy_yaml(v),
                    Some(parent) => match v {
                        Yaml::Hash(ve) => match hash_of(&defs, parent) {
                            Some(pe) => {
                                let base = copy_entries(pe);
                                Yaml::Hash(extend(base, ve))
                            },
                            None => {
                                return None;
                            },
                        },
                        _ => {
                            return None;
                        },
                    },
                };
                let n = copy_yaml(name);
                let ghost before = defs@;
                defs.push((n, value));
                proof {
                    assert(defs@.drop_last() =~= before);
                }
            },
        }
        i = i + 1;
    }
    proof {
        assert(vals.skip(i as int) =~= Seq::<YamlValue>::empty());
    }
    Some(defs)
}

/// A scene: its objects and lights, in the order they are added, and its camera.
#[derive(Debug)]
pub struct SceneDescription {
    pub objects: Vec<ObjectDescription>,
    pub lights: Vec<LightDescription>,
    pub camera: CameraDescription,
}

/// What a scene is.
pub struct SceneValue {
    pub objects: Seq<ObjectValue>,
    pub lights: Seq<LightValue>,
    pub camera: CameraValue,
}

impl View for SceneDescription {
    type V = SceneValue;

    open spec fn view(&self) -> SceneValue {
        SceneValue {
            objects: self.objects@.map_values(|o: ObjectDescription| o@),
            lights: self.lights@.map_values(|l: LightDescription| l@),
            camera: self.camera@,
        }
    }
}

/// The scene made by a list of items, after the objects, lights and camera added before. Each
/// item is a mapping; one with an `add` adds a camera (the last one counts), a light or a
/// shape; any other name of `add` is refused. A scene needs a camera.
pub open spec fn scene_from(
    defs: Seq<(YamlValue, YamlValue)>,
    items: Seq<YamlValue>,
    objects: Seq<ObjectValue>,
    lights: Seq<LightValue>,
    cam: Option<CameraValue>,
) -> Option<SceneValue>
    decreases items.len(),
{
    if items.len() == 0 {
        match cam {
            Some(c) => Some(SceneValue { objects, lights, camera: c }),
            None => None,
        }
    } else {
        let rest = items.drop_first();
        match items[0] {
            YamlValue::Hash(entries) => match lookup(entries, key("add"@)) {
                None => scene_from(defs, rest, objects, lights, cam),
                Some(YamlValue::String(name)) => if name == "camera"@ {
                    match camera(entries) {
                        Some(c) => scene_from(defs, rest, objects, lights, Some(c)),
                        None => None,
                    }
                } else if name == "light"@ {
                    match light(entries) {
                        Some(l) => scene_from(defs, rest, objects, lights.push(l), cam),
                        None => None,
                    }
                } else if shape_named(name) is Some {
                    match object(defs, entries, name) {
                        Some(o) => scene_from(defs, rest, objects.push(o), lights, cam),
                        None => None,
                    }
                } else {
                    None
                },
                Some(_) => None,
            },
            _ => None,
        }
    }
}

/// The scene that a scene document describes: a sequence of mappings that define names and
/// add objects, lights and a camera. None when the document is not such a scene.
pub open spec fn scene(doc: YamlValue) -> Option<SceneValue> {
    match (definitions(doc), doc) {
        (Some(defs), YamlValue::Array(items)) => scene_from(defs, items, seq![], seq![], None),
        _ => None,
    }
}

/// The scene that a scene document describes.
pub fn parse(doc: &Yaml) -> (res: Option<SceneDescription>)
    ensures
        match scene(doc@) {
            Some(v) => res matches Some(r) && r@ == v,
            None => res is None,
        },
{
    let defs = match get_definitions(doc) {
        Some(d) => d,
        None => {
            return None;
        },
    };
    let items = match doc {
        Yaml::Array(items) => items,
        _ => {
            return None;
        },
    };
    let ghost ds = entries_of(defs@);
    let ghost vals = values_of(items@);
    proof {
        lemma_values_of(items@);
        assert(vals.skip(0) =~= vals);
        assert(Seq::<ObjectDescription>::empty().map_values(|o: ObjectDescription| o@) =~= Seq::<
            ObjectValue,
        >::empty());
        assert(Seq::<LightDescription>::empty().map_values(|l: LightDescription| l@) =~= Seq::<
            LightValue,
        >::empty());
    }
    let mut objects: Vec<ObjectDescription> = Vec::new();
    let mut lights: Vec<LightDescription> = Vec::new();
    let mut cam: Option<CameraDescription> = None;
    let mut i: usize = 0;
    while i < items.len()
        invariant
            i <= items.len(),
            ds == entries_of(defs@),
            vals == values_of(items@),
            vals.len() == items.len(),
            forall|m: int| 0 <= m < items.len() ==> #[trigger] vals[m] == value_of(items@[m]),
            scene(doc@) == scene_from(
                ds,
                vals.skip(i as int),
                objects@.map_values(|o: ObjectDescription| o@),
                lights@.map_values(|l: LightDescription| l@),
                match cam {
                    Some(c) => Some(c@),
                    None => None,
                },
            ),
        decreases items.len() - i,
    {
        proof {
            assert(vals.skip(i as int)[0] == vals[i as int]);
            assert(vals.skip(i as int).drop_first() =~= vals.skip(i + 1));
        }
        let entries = match &items[i] {
            Yaml::Hash(entries) => entries,
            _ => {
                return None;
            },
        };
        match get_key(entries, "add") {
            None => {},
            Some(Yaml::String(name)) => {
                if is_op(name, "camera") {
                    match mk_camera(entries) {
                        Some(c) => {
                            cam = Some(c);
                        },
                        None => {
                            return None;
                        },
                    }
                } else if is_op(name, "light") {
                    match mk_light(entries) {
                        Some(l) => {
                            let ghost before = lights@.map_values(|l: LightDescription| l@);
                            lights.push(l);
                            assert(lights@.map_values(|l: LightDescription| l@) =~= before.push(l@));
                        },
                        None => {
                            return None;
                        },
                    }
                } else if mk_shape(name).is_some() {
                    match mk_object(&defs, entries, name) {
                        Some(o) => {
                            let ghost before = objects@.map_values(|o: ObjectDescription| o@);
                            objects.push(o);
                            assert(objects@.map_values(|o: ObjectDescription| o@) =~= before.push(o@));
                        },
                        None => {
                            return None;
                        },
                    }
                } else {
                    return None;
                }
            },
            Some(_) => {
                return None;
            },
        }
        i = i + 1;
    }
    proof {
        assert(vals.skip(i as int) =~= Seq::<YamlValue>::empty());
    }
    match cam {
        Some(camera) => Some(SceneDescription { objects, lights, camera }),
        None => None,
    }
}

/// The scene that the first document of a scene file's text describes; none when the loader
/// refuses the text, when it holds no document, or when the document is not a scene.
pub open spec fn scene_text(text: Seq<char>) -> Option<SceneValue> {
    match yaml_documents(text) {
        Some(docs) => if docs.len() > 0 {
            scene(docs[0])
        } else {
            None
        },
        None => None,
    }
}

/// The scene that the text of a scene file describes.
pub fn parse_text(text: &str) -> (res: Option<SceneDescription>)
    ensures
        match scene_text(text@) {
            Some(v) => res matches Some(r) && r@ == v,
            None => res is None,
        },
{
    let docs = match load_yaml(text) {
        Some(d) => d,
        None => {
            return None;
        },
    };
    if docs.len() == 0 {
        return None;
    }
    proof {
        lemma_values_of(docs@);
    }
    parse(&docs[0])
}

} // verus!
