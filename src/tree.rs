//! The walk over a schema tree: each descriptor string is replaced by a
//! generated value, each array directive by an array of generated items, and
//! each object by an object of the entries that were not omitted.

use vstd::prelude::*;

use crate::assoc::{distinct_keys, has_key, key_index, lemma_key_index, lemma_push_distinct, position};
use crate::error::Error;
use crate::json::{same_json, JsonNumber, JsonValue};
use crate::descriptor::{classify_spec, DescriptorView};
use crate::session::{fits, nullable_inner, Data};
use crate::value::{finite_bits, finite_value, is_json_of, DataView, FloatSource, OutputData};

verus! {

/// Whether a key or descriptor ends with `c`.
pub open spec fn ends_with(s: Seq<char>, c: char) -> bool {
    s.len() > 0 && s.last() == c
}

/// The key an object entry has in the output: a trailing `!` (copy the value
/// as it is) or `?` (omit the entry at random) removed.
pub open spec fn entry_name(key: Seq<char>) -> Seq<char> {
    if ends_with(key, '!') || ends_with(key, '?') {
        key.drop_last()
    } else {
        key
    }
}

/// Whether an object entry may be left out of the output: its key ends with
/// `?`, or its value is a nullable descriptor.
pub open spec fn can_omit(key: Seq<char>, value: JsonValue) -> bool {
    !ends_with(key, '!') && (ends_with(key, '?') || (value matches JsonValue::String(d)
        && ends_with(d@, '?')))
}

/// How `out` is built from `entries`, where `kept` tells which entries were
/// generated rather than omitted: its keys are distinct, and are the names of
/// the kept entries; an entry that cannot be omitted is kept.
pub open spec fn assembled(
    entries: Seq<(String, JsonValue)>,
    kept: Seq<bool>,
    out: Seq<(String, JsonValue)>,
) -> bool {
    &&& kept.len() == entries.len()
    &&& distinct_keys(out)
    &&& forall|i: int|
        0 <= i < entries.len() && !can_omit(entries[i].0@, entries[i].1) ==> #[trigger] kept[i]
    &&& forall|k: Seq<char>| #[trigger]
        has_key(out, k) <==> exists|i: int|
            0 <= i < entries.len() && #[trigger] kept[i] && entry_name(entries[i].0@) == k
}

/// The length bounds of an array directive `[item, ...]`: `[lo, hi)`.
pub open spec fn array_bounds(items: Seq<JsonValue>) -> Option<(int, int)> {
    if items.len() == 1 {
        Some((1, 10))
    } else if items.len() == 2 {
        match items[1] {
            JsonValue::Number(a) => match a.as_u64_spec() {
                Some(x) => Some((x as int, x + 1)),
                None => None,
            },
            _ => None,
        }
    } else if items.len() >= 3 {
        match (items[1], items[2]) {
            (JsonValue::Number(a), JsonValue::Number(b)) => match (a.as_u64_spec(), b.as_u64_spec()) {
                (Some(x), Some(y)) => Some((x as int, y as int)),
                _ => None,
            },
            _ => None,
        }
    } else {
        None
    }
}

/// What generating from an array directive gives.
pub open spec fn array_outcome(items: Seq<JsonValue>, r: Result<JsonValue, Error>) -> bool {
    &&& (items.len() == 0 ==> (r matches Err(Error::ArrayMissingDataType)))
    &&& (items.len() >= 2 && !(items[1] is Number) ==> (r matches Err(
        Error::ExpectedInteger(v),
    ) && same_json(v, items[1])))
    &&& (items.len() >= 3 && items[1] is Number && !(items[2] is Number) ==> (r matches Err(
        Error::ExpectedInteger(v),
    ) && same_json(v, items[2])))
    &&& ((items.len() >= 2 && (items.len() == 2 || items[2] is Number) && (items[1] matches JsonValue::Number(
        a,
    ) && a.as_u64_spec() is None)) ==> (r matches Err(Error::NumberNotAnInteger(_))))
    &&& ((array_bounds(items) matches Some((lo, hi)) && lo <= usize::MAX && hi <= usize::MAX && lo
        >= hi) ==> (r matches Err(
        Error::ArrayEmptyRange { .. },
    )))
    &&& (r matches Ok(v) ==> (v matches JsonValue::Array(xs) && array_bounds(items) matches Some(
        (lo, hi),
    ) && lo <= xs.len() < hi))
}

/// What a descriptor leaf gives, from what the session generated for it.
pub open spec fn leaf_outcome(x: Result<OutputData, Error>, r: Result<JsonValue, Error>) -> bool {
    match x {
        Ok(o) => match o@ {
            DataView::Float(b) if !finite_bits(b) => r matches Err(Error::InfinityNotSupported),
            _ => r matches Ok(j) && is_json_of(j, o@),
        },
        Err(e) => r == Err::<JsonValue, Error>(e),
    }
}

/// Whether `out` is the JSON form of a value that descriptor `d` can give
/// in a session now in state `s`: a value that fits `d`, finite, remembered
/// under its name if `d` is a reference, and registered if `d` is unique.
pub open spec fn leaf_fits<F: FloatSource>(d: Seq<char>, out: JsonValue, s: Data<F>) -> bool {
    exists|x: DataView|
        #[trigger] is_json_of(out, x) && fits(d, x, s.user_types()) && finite_value(x) && (
        classify_spec(d) matches DescriptorView::Reference { name, .. } ==> s.ref_of(name) == Some(
            x,
        )) && (classify_spec(d) matches DescriptorView::Unique(inner) ==> s.produced(
            inner,
        ).contains(x))
}

/// Whether `out` is what generating from schema node `node` without
/// omission can give, in a session now in state `s`: a leaf as
/// [`leaf_fits`] has it; an array of a length within its bounds, each item
/// what its item node gives; an object assembled from its kept entries, each
/// output entry holding what its entry gives.
pub open spec fn tree_fits<F: FloatSource>(node: JsonValue, out: JsonValue, s: Data<F>) -> bool
    decreases node,
{
    match node {
        JsonValue::String(d) => leaf_fits(d@, out, s),
        JsonValue::Array(items) => {
            &&& items@.len() > 0
            &&& out matches JsonValue::Array(xs)
            &&& array_bounds(items@) matches Some((lo, hi))
            &&& lo <= xs@.len() < hi
            &&& forall|k: int| 0 <= k < xs@.len() ==> tree_fits(items@[0], #[trigger] xs@[k], s)
        },
        JsonValue::Object(entries) => {
            &&& out matches JsonValue::Object(o)
            &&& exists|kept: Seq<bool>, src: Seq<int>|
                #[trigger] sources_ok(entries@, kept, src, o@) && forall|j: int|
                    0 <= j < o@.len() && 0 <= src[j] < entries@.len() ==> if ends_with(
                        entries@[src[j]].0@,
                        '!',
                    ) {
                        same_json((#[trigger] o@[j]).1, entries@[src[j]].1)
                    } else {
                        match entries@[src[j]].1 {
                            JsonValue::String(d) => leaf_fits(nullable_inner(d@), o@[j].1, s),
                            _ => tree_fits(entries@[src[j]].1, o@[j].1, s),
                        }
                    }
        },
        _ => false,
    }
}

/// Whether `out` is what walking `node` can give: as [`tree_fits`], with a
/// descriptor read without its trailing `?`.
pub open spec fn walk_fits<F: FloatSource>(node: JsonValue, out: JsonValue, s: Data<F>) -> bool {
    match node {
        JsonValue::String(d) => leaf_fits(nullable_inner(d@), out, s),
        _ => tree_fits(node, out, s),
    }
}

/// Whether an output value holds what the object entry `key: value` gives.
pub open spec fn entry_holds<F: FloatSource>(key: Seq<char>, value: JsonValue, out: JsonValue, s: Data<F>) -> bool {
    if ends_with(key, '!') {
        same_json(out, value)
    } else {
        walk_fits(value, out, s)
    }
}

/// Whether `src` maps each entry of `out` to the entry it came from: a
/// kept entry of `entries` with the same name, where `out` is assembled
/// from the kept entries.
pub open spec fn sources_ok(
    entries: Seq<(String, JsonValue)>,
    kept: Seq<bool>,
    src: Seq<int>,
    out: Seq<(String, JsonValue)>,
) -> bool {
    &&& assembled(entries, kept, out)
    &&& src.len() == out.len()
    &&& forall|j: int| #![trigger src[j]]
        0 <= j < out.len() ==> 0 <= src[j] < entries.len() && kept[src[j]] && entry_name(
            entries[src[j]].0@,
        ) == out[j].0@
}

/// Whether generating from `node` without omission cannot fail in state
/// `s`: every descriptor cannot fail, every array has valid bounds with room
/// for at least one length, and no `null`, boolean or number stands where a
/// descriptor is expected (an entry copied with `!` aside).
pub open spec fn tree_never_fails<F: FloatSource>(node: JsonValue, s: Data<F>) -> bool
    decreases node,
{
    match node {
        JsonValue::String(d) => s.never_fails(d@),
        JsonValue::Array(items) => {
            &&& items@.len() > 0
            &&& array_bounds(items@) matches Some((lo, hi))
            &&& lo < hi
            &&& hi <= usize::MAX
            &&& ((lo == 0 && hi == 1) || tree_never_fails(items@[0], s))
        },
        JsonValue::Object(entries) => forall|i: int|
            0 <= i < entries@.len() ==> ends_with((#[trigger] entries@[i]).0@, '!') || match entries@[i].1 {
                JsonValue::String(d) => s.never_fails(nullable_inner(d@)),
                _ => tree_never_fails(entries@[i].1, s),
            },
        _ => false,
    }
}

/// Whether walking `node` cannot fail in state `s`.
pub open spec fn walk_never_fails<F: FloatSource>(node: JsonValue, s: Data<F>) -> bool {
    match node {
        JsonValue::String(d) => s.never_fails(nullable_inner(d@)),
        _ => tree_never_fails(node, s),
    }
}

/// A leaf value stays what its descriptor can give as the session goes on.
pub proof fn lemma_leaf_fits_grows<F: FloatSource>(d: Seq<char>, out: JsonValue, s: Data<F>, t: Data<F>)
    requires
        leaf_fits(d, out, s),
        t.extends(s),
    ensures
        leaf_fits(d, out, t),
{
    let x = choose|x: DataView|
        #[trigger] is_json_of(out, x) && fits(d, x, s.user_types()) && finite_value(x) && (
        classify_spec(d) matches DescriptorView::Reference { name, .. } ==> s.ref_of(name) == Some(
            x,
        )) && (classify_spec(d) matches DescriptorView::Unique(inner) ==> s.produced(
            inner,
        ).contains(x));
    if let DescriptorView::Unique(inner) = classify_spec(d) {
        assert(s.produced(inner).subset_of(t.produced(inner)));
    }
    if let DescriptorView::Reference { name, .. } = classify_spec(d) {
        assert(t.ref_of(name) == s.ref_of(name));
    }
    assert(is_json_of(out, x));
}

/// A generated tree stays what its schema can give as the session goes on.
pub proof fn lemma_tree_fits_grows<F: FloatSource>(node: JsonValue, out: JsonValue, s: Data<F>, t: Data<F>)
    requires
        tree_fits(node, out, s),
        t.extends(s),
    ensures
        tree_fits(node, out, t),
    decreases node,
{
    broadcast use vstd::std_specs::vec::axiom_vec_index_decreases;
    match node {
        JsonValue::String(d) => {
            lemma_leaf_fits_grows(d@, out, s, t);
        },
        JsonValue::Array(items) => {
            let xs = out->Array_0;
            assert(decreases_to!(node => items@[0]));
            assert forall|k: int| 0 <= k < xs@.len() implies tree_fits(items@[0], #[trigger] xs@[k], t) by {
                lemma_tree_fits_grows(items@[0], xs@[k], s, t);
            }
        },
        JsonValue::Object(entries) => {
            let o = out->Object_0;
            let (kept, src) = choose|kept: Seq<bool>, src: Seq<int>|
                #[trigger] sources_ok(entries@, kept, src, o@) && forall|j: int|
                    0 <= j < o@.len() && 0 <= src[j] < entries@.len() ==> if ends_with(
                        entries@[src[j]].0@,
                        '!',
                    ) {
                        same_json((#[trigger] o@[j]).1, entries@[src[j]].1)
                    } else {
                        match entries@[src[j]].1 {
                            JsonValue::String(d) => leaf_fits(nullable_inner(d@), o@[j].1, s),
                            _ => tree_fits(entries@[src[j]].1, o@[j].1, s),
                        }
                    };
            assert forall|j: int|
                0 <= j < o@.len() && 0 <= src[j] < entries@.len() implies if ends_with(
                    entries@[src[j]].0@,
                    '!',
                ) {
                    same_json((#[trigger] o@[j]).1, entries@[src[j]].1)
                } else {
                    match entries@[src[j]].1 {
                        JsonValue::String(d) => leaf_fits(nullable_inner(d@), o@[j].1, t),
                        _ => tree_fits(entries@[src[j]].1, o@[j].1, t),
                    }
                } by {
                let i = src[j];
                if !ends_with(entries@[i].0@, '!') {
                    assert(decreases_to!(node => entries@[i].1));
                    match entries@[i].1 {
                        JsonValue::String(d) => lemma_leaf_fits_grows(nullable_inner(d@), o@[j].1, s, t),
                        _ => lemma_tree_fits_grows(entries@[i].1, o@[j].1, s, t),
                    }
                }
            }
        },
        _ => {},
    }
}

/// A schema that cannot fail stays so as the session goes on.
pub proof fn lemma_tree_never_fails_grows<F: FloatSource>(node: JsonValue, s: Data<F>, t: Data<F>)
    requires
        tree_never_fails(node, s),
        t.extends(s),
    ensures
        tree_never_fails(node, t),
    decreases node,
{
    broadcast use vstd::std_specs::vec::axiom_vec_index_decreases;
    match node {
        JsonValue::String(d) => t.lemma_never_fails_grows(s, d@),
        JsonValue::Array(items) => {
            assert(decreases_to!(node => items@[0]));
            if tree_never_fails(items@[0], s) {
                lemma_tree_never_fails_grows(items@[0], s, t);
            }
        },
        JsonValue::Object(entries) => {
            assert forall|i: int| 0 <= i < entries@.len() implies ends_with(
                (#[trigger] entries@[i]).0@,
                '!',
            ) || match entries@[i].1 {
                JsonValue::String(d) => t.never_fails(nullable_inner(d@)),
                _ => tree_never_fails(entries@[i].1, t),
            } by {
                if !ends_with(entries@[i].0@, '!') {
                    assert(decreases_to!(node => entries@[i].1));
                    match entries@[i].1 {
                        JsonValue::String(d) => t.lemma_never_fails_grows(s, nullable_inner(d@)),
                        _ => lemma_tree_never_fails_grows(entries@[i].1, s, t),
                    }
                }
            }
        },
        _ => {},
    }
}

/// Reads an array bound as a length.
pub fn number_to_int(n: &JsonNumber) -> (r: Result<usize, Error>)
    ensures
        match n.as_u64_spec() {
            None => r matches Err(Error::NumberNotAnInteger(m)) && m == *n,
            Some(x) => if x <= usize::MAX {
                r == Ok::<usize, Error>(x as usize)
            } else {
                r matches Err(Error::ArrayInvalidLength { original }) && original == x
            },
        },
{
    match n.as_u64() {
        None => Err(Error::NumberNotAnInteger(*n)),
        Some(x) => if x <= usize::MAX as u64 {
            Ok(x as usize)
        } else {
            Err(Error::ArrayInvalidLength { original: x })
        },
    }
}

/// Sets `key` to `value` in `out`: the entry of that key is replaced in
/// place, or, where there is none, the entry is appended.
pub fn insert_entry(out: &mut Vec<(String, JsonValue)>, key: String, value: JsonValue)
    requires
        distinct_keys(old(out)@),
    ensures
        distinct_keys(final(out)@),
        forall|k: Seq<char>| #[trigger]
            has_key(final(out)@, k) <==> (has_key(old(out)@, k) || k == key@),
        final(out)@[key_index(final(out)@, key@)].1 == value,
        final(out)@ == old(out)@.push((key, value)) || exists|p: int|
            0 <= p < old(out)@.len() && final(out)@ == old(out)@.update(p, (key, value)),
{
    match position(out, key.as_str()) {
        Some(j) => {
            let ghost before = out@;
            let _ = out.remove(j);
            let e = (key, value);
            out.insert(j, e);
            proof {
                assert(out@ =~= before.update(j as int, e));
                crate::assoc::lemma_update_distinct(before, j as int, e);
                lemma_key_index(out@, j as int);
            }
        },
        None => {
            let ghost before = out@;
            let e = (key, value);
            out.push(e);
            proof {
                lemma_push_distinct(before, e);
                lemma_key_index(out@, before.len() as int);
                assert forall|k: Seq<char>| #[trigger]
                    has_key(out@, k) <==> (has_key(before, k) || k == e.0@) by {
                    if k == e.0@ {
                        assert(has_key(out@, k));
                    }
                }
            }
        },
    }
}

/// The outcome of a nullable walk, as the outcome of a walk that always gives a value.
pub open spec fn lift(r: Result<JsonValue, Error>) -> Result<Option<JsonValue>, Error> {
    match r {
        Ok(v) => Ok(Some(v)),
        Err(e) => Err(e),
    }
}

/// An object fails only through an entry that is walked and can fail.
pub open spec fn object_errors<F: FloatSource>(entries: Seq<(String, JsonValue)>, r: Result<JsonValue, Error>, s: Data<F>) -> bool {
    r is Err ==> exists|i: int|
        0 <= i < entries.len() && !ends_with(entries[i].0@, '!') && !walk_never_fails(
            #[trigger] entries[i].1,
            s,
        )
}

proof fn lemma_leaf<F: FloatSource>(before: Data<F>, d: Seq<char>, x: OutputData, after: Data<F>, j: JsonValue)
    requires
        before.outcome(d, Ok(x), after),
        is_json_of(j, x@),
    ensures
        leaf_fits(d, j, after),
{
    if let DescriptorView::Unique(inner) = classify_spec(d) {
        assert(after.produced(inner) == before.produced(inner).insert(x@));
    }
    if let DescriptorView::Reference { inner, name } = classify_spec(d) {
        if before.ref_of(name) is Some {
            assert(after.ref_of(name) == before.ref_of(name));
        }
    }
    assert(is_json_of(j, x@));
}

proof fn lemma_walk_never_fails_grows<F: FloatSource>(node: JsonValue, s: Data<F>, t: Data<F>)
    requires
        walk_never_fails(node, s),
        t.extends(s),
    ensures
        walk_never_fails(node, t),
{
    match node {
        JsonValue::String(d) => t.lemma_never_fails_grows(s, nullable_inner(d@)),
        _ => lemma_tree_never_fails_grows(node, s, t),
    }
}

proof fn lemma_entry_holds_grows<F: FloatSource>(key: Seq<char>, value: JsonValue, out: JsonValue, s: Data<F>, t: Data<F>)
    requires
        entry_holds(key, value, out, s),
        t.extends(s),
    ensures
        entry_holds(key, value, out, t),
{
    if !ends_with(key, '!') {
        match value {
            JsonValue::String(d) => lemma_leaf_fits_grows(nullable_inner(d@), out, s, t),
            _ => lemma_tree_fits_grows(value, out, s, t),
        }
    }
}

/// Generates from a schema node, without omission: a descriptor string gives
/// a generated value, an array directive an array, an object an object.
pub fn generate_value<F: FloatSource>(node: &JsonValue, data: &mut Data<F>) -> (r: Result<JsonValue, Error>)
    requires
        old(data).wf(),
    ensures
        final(data).wf(),
        final(data).extends(*old(data)),
        r matches Ok(v) ==> tree_fits(*node, v, *final(data)),
        tree_never_fails(*node, *old(data)) ==> r is Ok,
        match node {
            JsonValue::String(d) => exists|x: Result<OutputData, Error>|
                #[trigger] old(data).outcome(d@, x, *final(data)) && leaf_outcome(x, r),
            JsonValue::Array(items) => array_outcome(items@, r) && (array_bounds(items@) is None
                ==> final(data).same_tables(*old(data))),
            JsonValue::Object(entries) => object_errors(entries@, r, *old(data)),
            _ => (r matches Err(Error::InvalidSchemaType(v)) && same_json(v, *node))
                && final(data).same_tables(*old(data)),
        },
    decreases node,
{
    match node {
        JsonValue::String(d) => {
            let ghost before = *data;
            let x = data.generate(d.as_str());
            let ghost xg = x;
            let r = match x {
                Ok(o) => {
                    let ghost og = o;
                    let j = o.into_json();
                    let ghost jg = j;
                    proof {
                        if let Ok(jv) = jg {
                            lemma_leaf(before, d@, og, *data, jv);
                        }
                    }
                    j
                },
                Err(e) => Err(e),
            };
            assert(old(data).outcome(d@, xg, *data) && leaf_outcome(xg, r));
            r
        },
        JsonValue::Array(items) => generate_array(items, data),
        JsonValue::Object(entries) => generate_object(entries, data),
        _ => {
            proof {
                data.lemma_extends_reflexive();
            }
            Err(Error::InvalidSchemaType(node.duplicate()))
        },
    }
}

/// Walks a schema node: as [`generate_value`], except that a nullable
/// descriptor string may give no value.
pub fn walk<F: FloatSource>(node: &JsonValue, data: &mut Data<F>) -> (r: Result<Option<JsonValue>, Error>)
    requires
        old(data).wf(),
    ensures
        final(data).wf(),
        final(data).extends(*old(data)),
        r matches Ok(None) ==> (node matches JsonValue::String(d) && ends_with(d@, '?')),
        r matches Ok(Some(v)) ==> walk_fits(*node, v, *final(data)),
        walk_never_fails(*node, *old(data)) ==> r is Ok,
        match node {
            JsonValue::String(d) => r matches Ok(None) || exists|x: Result<OutputData, Error>, q: Result<JsonValue, Error>|
                #[trigger] old(data).outcome(nullable_inner(d@), x, *final(data)) && leaf_outcome(x, q) && r == #[trigger] lift(q),
            JsonValue::Array(items) => exists|q: Result<JsonValue, Error>|
                array_outcome(items@, q) && r == #[trigger] lift(q),
            JsonValue::Object(entries) => object_errors(entries@, lift_back(r), *old(data)),
            _ => (r matches Err(Error::InvalidSchemaType(v)) && same_json(v, *node))
                && final(data).same_tables(*old(data)),
        },
    decreases node,
{
    match node {
        JsonValue::String(d) => {
            let ghost before = *data;
            let x = data.generate_nullable(d.as_str());
            match x {
                Ok(None) => Ok(None),
                Ok(Some(o)) => {
                    let ghost og = o;
                    let ghost xg = Ok::<OutputData, Error>(o);
                    match o.into_json() {
                        Ok(j) => {
                            proof {
                                lemma_leaf(before, nullable_inner(d@), og, *data, j);
                            }
                            assert(leaf_outcome(xg, Ok(j)) && Ok::<Option<JsonValue>, Error>(Some(j)) == lift(Ok(j)));
                            Ok(Some(j))
                        },
                        Err(e) => {
                            assert(leaf_outcome(xg, Err(e)) && Err::<Option<JsonValue>, Error>(e) == lift(Err(e)));
                            Err(e)
                        },
                    }
                },
                Err(e) => {
                    let ghost xg = Err::<OutputData, Error>(e);
                    assert(leaf_outcome(xg, Err(e)) && Err::<Option<JsonValue>, Error>(e) == lift(Err(e)));
                    Err(e)
                },
            }
        },
        JsonValue::Array(items) => {
            let q = generate_array(items, data);
            let ghost qg = q;
            let r = match q {
                Ok(v) => Ok(Some(v)),
                Err(e) => Err(e),
            };
            assert(array_outcome(items@, qg) && r == lift(qg));
            r
        },
        JsonValue::Object(entries) => {
            let q = generate_object(entries, data);
            match q {
                Ok(v) => Ok(Some(v)),
                Err(e) => Err(e),
            }
        },
        _ => {
            proof {
                data.lemma_extends_reflexive();
            }
            Err(Error::InvalidSchemaType(node.duplicate()))
        },
    }
}

/// The outcome of a walk that gave a value or an error, as a plain outcome.
pub open spec fn lift_back(r: Result<Option<JsonValue>, Error>) -> Result<JsonValue, Error> {
    match r {
        Ok(Some(v)) => Ok(v),
        Ok(None) => Ok(JsonValue::Null),
        Err(e) => Err(e),
    }
}

/// Generates from an array directive `[item]`, `[item, n]` or
/// `[item, min, max]`: as many items as the directive asks for, each
/// generated from `item` without omission. With no bounds, between one and
/// nine items.
pub fn generate_array<F: FloatSource>(items: &Vec<JsonValue>, data: &mut Data<F>) -> (r: Result<JsonValue, Error>)
    requires
        old(data).wf(),
    ensures
        final(data).wf(),
        final(data).extends(*old(data)),
        array_outcome(items@, r),
        array_bounds(items@) is None ==> final(data).same_tables(*old(data)),
        (array_bounds(items@) matches Some((lo, hi)) && lo == 0 && hi == 1) ==> (r matches Ok(
            JsonValue::Array(xs),
        ) && xs@.len() == 0 && final(data).same_tables(*old(data))),
        r matches Ok(v) ==> tree_fits(JsonValue::Array(*items), v, *final(data)),
        tree_never_fails(JsonValue::Array(*items), *old(data)) ==> r is Ok,
    decreases items,
{
    proof {
        data.lemma_extends_reflexive();
    }
    if items.len() == 0 {
        return Err(Error::ArrayMissingDataType);
    }
    let count: usize = if items.len() == 1 {
        data.random_range(1, 10)
    } else {
        match &items[1] {
            JsonValue::Number(a) => {
                if items.len() == 2 {
                    number_to_int(a)?
                } else {
                    match &items[2] {
                        JsonValue::Number(b) => {
                            let lo = number_to_int(a)?;
                            let hi = number_to_int(b)?;
                            if lo < hi {
                                data.random_range(lo, hi)
                            } else {
                                return Err(Error::ArrayEmptyRange { min: lo, max: hi });
                            }
                        },
                        other => {
                            return Err(Error::ExpectedInteger(other.duplicate()));
                        },
                    }
                }
            },
            other => {
                return Err(Error::ExpectedInteger(other.duplicate()));
            },
        }
    };
    let mut out: Vec<JsonValue> = Vec::new();
    let mut i: usize = 0;
    proof {
        broadcast use vstd::std_specs::vec::axiom_vec_index_decreases;
        assert(decreases_to!(items => items[0]));
        assert(array_bounds(items@) matches Some((lo, hi)) && lo <= count < hi);
        assert forall|e: Error| #[trigger] array_outcome(items@, Err(e)) by {
        }
        if tree_never_fails(JsonValue::Array(*items), *old(data)) && count > 0 {
            lemma_tree_never_fails_grows(items@[0], *old(data), *data);
        }
    }
    while i < count
        invariant
            items@.len() > 0,
            decreases_to!(items => items[0]),
            out@.len() == i,
            i <= count,
            array_bounds(items@) matches Some((lo, hi)) && lo <= count < hi,
            forall|e: Error| #[trigger] array_outcome(items@, Err(e)),
            data.wf(),
            data.extends(*old(data)),
            i == 0 ==> data.same_tables(*old(data)),
            forall|k: int| 0 <= k < i ==> tree_fits(items@[0], #[trigger] out@[k], *data),
            tree_never_fails(JsonValue::Array(*items), *old(data)) && count > 0 ==> tree_never_fails(
                items@[0],
                *data,
            ),
        decreases count - i,
    {
        let ghost before = *data;
        let v = match generate_value(&items[0], data) {
            Ok(v) => v,
            Err(e) => {
                proof {
                    data.lemma_extends_transitive(before, *old(data), 0);
                    assert(array_outcome(items@, Err(e)));
                }
                return Err(e);
            },
        };
        proof {
            data.lemma_extends_transitive(before, *old(data), 0);
            assert forall|k: int| 0 <= k < i implies tree_fits(items@[0], #[trigger] out@[k], *data) by {
                lemma_tree_fits_grows(items@[0], out@[k], before, *data);
            }
            if tree_never_fails(JsonValue::Array(*items), *old(data)) && count > 0 {
                lemma_tree_never_fails_grows(items@[0], before, *data);
            }
        }
        let ghost prev = out@;
        out.push(v);
        proof {
            assert forall|k: int| 0 <= k < i + 1 implies tree_fits(items@[0], #[trigger] out@[k], *data) by {
                if k < i {
                    assert(out@[k] == prev[k]);
                }
            }
        }
        i = i + 1;
    }
    let result = JsonValue::Array(out);
    assert(tree_fits(JsonValue::Array(*items), result, *data));
    Ok(result)
}

/// Generates from an object: each entry whose key ends with `!` is copied
/// as it is, under its key without the `!`; an entry whose key ends with `?`
/// is omitted with probability three in ten, and otherwise kept under its
/// key without the `?`; every other entry is walked, and kept unless its
/// value gave no value.
pub fn generate_object<F: FloatSource>(entries: &Vec<(String, JsonValue)>, data: &mut Data<F>) -> (r: Result<JsonValue, Error>)
    requires
        old(data).wf(),
    ensures
        final(data).wf(),
        final(data).extends(*old(data)),
        r matches Ok(v) ==> tree_fits(JsonValue::Object(*entries), v, *final(data)),
        tree_never_fails(JsonValue::Object(*entries), *old(data)) ==> r is Ok,
        object_errors(entries@, r, *old(data)),
    decreases entries,
{
    proof {
        data.lemma_extends_reflexive();
        broadcast use vstd::std_specs::vec::axiom_vec_index_decreases;
        assert forall|k: int| 0 <= k < entries@.len() implies decreases_to!(entries => entries[k].1) by {
        }
    }
    let ghost node = JsonValue::Object(*entries);
    let mut out: Vec<(String, JsonValue)> = Vec::new();
    let ghost mut kept: Seq<bool> = Seq::empty();
    let ghost mut src: Seq<int> = Seq::empty();
    let mut i: usize = 0;
    proof {
        assert(entries@.subrange(0, 0) =~= Seq::<(String, JsonValue)>::empty());
        assert forall|k: Seq<char>| #[trigger] has_key(out@, k) <==> exists|j: int|
            0 <= j < 0 && #[trigger] kept[j] && entry_name(entries@.subrange(0, 0)[j].0@) == k by {
        }
    }
    while i < entries.len()
        invariant
            node == JsonValue::Object(*entries),
            i <= entries@.len(),
            forall|k: int| 0 <= k < entries@.len() ==> decreases_to!(entries => entries[k].1),
            data.wf(),
            data.extends(*old(data)),
            assembled(entries@.subrange(0, i as int), kept, out@),
            src.len() == out@.len(),
            forall|j: int| #![trigger src[j]]
                0 <= j < out@.len() ==> 0 <= src[j] < i && kept[src[j]] && entry_name(
                    entries@[src[j]].0@,
                ) == out@[j].0@ && entry_holds(
                    entries@[src[j]].0@,
                    entries@[src[j]].1,
                    out@[j].1,
                    *data,
                ),
            tree_never_fails(node, *old(data)) ==> tree_never_fails(node, *data),
        decreases entries.len() - i,
    {
        let ghost prev = entries@.subrange(0, i as int);
        let ghost next = entries@.subrange(0, i + 1);
        let ghost before_out = out@;
        let ghost before_data = *data;
        assert(next.drop_last() =~= prev);
        assert(next[i as int] == entries@[i as int]);
        let key = entries[i].0.as_str();
        let value = &entries[i].1;
        let n = key.unicode_len();
        let copy = n > 0 && key.get_char(n - 1) == '!';
        let optional = n > 0 && key.get_char(n - 1) == '?';
        let name: String = if copy || optional {
            key.substring_char(0, n - 1).to_owned()
        } else {
            key.to_owned()
        };
        assert(name@ =~= entry_name(key@));
        let ghost gname = name;
        let mut keep = true;
        let ghost mut held: JsonValue = JsonValue::Null;
        if copy {
            let dup = value.duplicate();
            proof {
                held = dup;
            }
            insert_entry(&mut out, name, dup);
        } else if optional && data.random_null() {
            keep = false;
        } else {
            let ghost mid = *data;
            let walked = match walk(value, data) {
                Ok(w) => w,
                Err(e) => {
                    proof {
                        data.lemma_extends_transitive(mid, before_data, 0);
                        data.lemma_extends_transitive(before_data, *old(data), 0);
                        if walk_never_fails(entries@[i as int].1, *old(data)) {
                            lemma_walk_never_fails_grows(entries@[i as int].1, *old(data), mid);
                        }
                        assert(!ends_with(entries@[i as int].0@, '!'));
                        assert(object_errors(entries@, Err(e), *old(data)));
                    }
                    return Err(e);
                },
            };
            match walked {
                Some(g) => {
                    proof {
                        held = g;
                    }
                    insert_entry(&mut out, name, g);
                },
                None => {
                    keep = false;
                },
            }
            proof {
                data.lemma_extends_transitive(mid, before_data, 0);
            }
        }
        proof {
            data.lemma_extends_transitive(before_data, *old(data), 0);
            if tree_never_fails(node, *old(data)) {
                lemma_tree_never_fails_grows(node, before_data, *data);
            }
            let kept2 = kept.push(keep);
            assert forall|j: int|
                0 <= j < next.len() && !can_omit(next[j].0@, next[j].1) implies #[trigger] kept2[j] by {
                if j < i {
                    assert(next[j] == prev[j]);
                }
            }
            assert forall|k: Seq<char>| #[trigger] has_key(out@, k) <==> exists|j: int|
                0 <= j < next.len() && #[trigger] kept2[j] && entry_name(next[j].0@) == k by {
                if has_key(out@, k) {
                    if keep && k == name@ {
                        assert(kept2[i as int] && entry_name(next[i as int].0@) == k);
                    } else {
                        assert(has_key(before_out, k));
                        let j = choose|j: int| 0 <= j < prev.len() && #[trigger] kept[j] && entry_name(prev[j].0@) == k;
                        assert(kept2[j] && next[j] == prev[j]);
                    }
                }
                if exists|j: int| 0 <= j < next.len() && #[trigger] kept2[j] && entry_name(next[j].0@) == k {
                    let j = choose|j: int| 0 <= j < next.len() && #[trigger] kept2[j] && entry_name(next[j].0@) == k;
                    if j < i {
                        assert(next[j] == prev[j] && kept2[j] == kept[j]);
                        assert(has_key(before_out, k));
                    }
                }
            }
            let entry = (gname, held);
            let old_src = src;
            if keep {
                if out@ == before_out.push(entry) {
                    src = src.push(i as int);
                } else {
                    let p = choose|p: int| 0 <= p < before_out.len() && out@ == before_out.update(p, entry);
                    src = src.update(p, i as int);
                }
            }
            if keep {
                assert(entry_holds(entries@[i as int].0@, entries@[i as int].1, held, *data));
            }
            assert forall|j: int| #![trigger src[j]] 0 <= j < out@.len() implies 0 <= src[j] < i + 1 && kept2[src[j]]
                && entry_name(entries@[src[j]].0@) == out@[j].0@ && entry_holds(
                entries@[src[j]].0@,
                entries@[src[j]].1,
                out@[j].1,
                *data,
            ) by {
                if keep && src[j] == i as int {
                    assert(out@[j] == entry);
                } else {
                    assert(out@[j] == before_out[j]);
                    assert(src[j] == old_src[j]);
                    lemma_entry_holds_grows(
                        entries@[old_src[j]].0@,
                        entries@[old_src[j]].1,
                        before_out[j].1,
                        before_data,
                        *data,
                    );
                }
            }
            kept = kept2;
        }
        i = i + 1;
    }
    proof {
        assert(entries@.subrange(0, entries@.len() as int) =~= entries@);
        assert(assembled(entries@, kept, out@));
        assert(sources_ok(entries@, kept, src, out@));
    }
    proof {
        let o = out@;
        assert forall|j: int|
            0 <= j < o.len() && 0 <= src[j] < entries@.len() implies if ends_with(
                entries@[src[j]].0@,
                '!',
            ) {
                same_json((#[trigger] o[j]).1, entries@[src[j]].1)
            } else {
                match entries@[src[j]].1 {
                    JsonValue::String(d) => leaf_fits(nullable_inner(d@), o[j].1, *data),
                    _ => tree_fits(entries@[src[j]].1, o[j].1, *data),
                }
            } by {
            assert(entry_holds(entries@[src[j]].0@, entries@[src[j]].1, o[j].1, *data));
        }
    }
    let result = JsonValue::Object(out);
    proof {
        let o = result->Object_0;
        assert(o@ == out@);
        assert(sources_ok(entries@, kept, src, o@) && forall|j: int|
            0 <= j < o@.len() && 0 <= src[j] < entries@.len() ==> if ends_with(
                entries@[src[j]].0@,
                '!',
            ) {
                same_json((#[trigger] o@[j]).1, entries@[src[j]].1)
            } else {
                match entries@[src[j]].1 {
                    JsonValue::String(d) => leaf_fits(nullable_inner(d@), o@[j].1, *data),
                    _ => tree_fits(entries@[src[j]].1, o@[j].1, *data),
                }
            });
        assert(tree_fits(JsonValue::Object(*entries), result, *data));
    }
    Ok(result)
}

} // verus!
