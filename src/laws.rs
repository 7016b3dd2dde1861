//! Laws of generation that relate several calls, or all the inputs of one.

use vstd::prelude::*;

use crate::assoc::has_key;
use crate::descriptor::{classify_spec, reference_open, DescriptorView};
use crate::error::Error;
use crate::json::{JsonNumber, JsonValue};
use crate::session::{fits, int_range, Data};
use crate::tree::{array_outcome, assembled, can_omit, entry_name, ends_with, leaf_fits};
use crate::json::same_json;
use crate::value::is_json_of;
use crate::value::{DataView, FloatSource, OutputData};

verus! {

/// Two uses of one reference descriptor `T[r]` in a session give the same
/// value: once the first has given a value, whatever is generated in between,
/// the second gives that value again.
pub proof fn lemma_reference_idempotent<F: FloatSource>(
    d: Seq<char>,
    s0: Data<F>,
    r1: Result<OutputData, Error>,
    s1: Data<F>,
    s2: Data<F>,
    r2: Result<OutputData, Error>,
    s3: Data<F>,
)
    requires
        classify_spec(d) is Reference,
        s0.outcome(d, r1, s1),
        s2.extends(s1),
        s2.outcome(d, r2, s3),
        r1 is Ok,
    ensures
        r2 matches Ok(y) && y@ == r1->Ok_0@,
{
    if let DescriptorView::Reference { inner, name } = classify_spec(d) {
        assert(s1.ref_of(name) == Some(r1->Ok_0@));
        assert(s2.ref_of(name) == s1.ref_of(name));
    }
}

/// A reference whose name has no value yet is generated afresh from its
/// inner descriptor, and leaves the values of the other names as they were.
pub proof fn lemma_reference_names_separate<F: FloatSource>(
    d: Seq<char>,
    s: Data<F>,
    r: Result<OutputData, Error>,
    t: Data<F>,
    other: Seq<char>,
)
    requires
        classify_spec(d) matches DescriptorView::Reference { inner, name } && s.ref_of(name) is None
            && other != name,
        s.outcome(d, r, t),
        s.ref_of(other) is Some,
    ensures
        classify_spec(d) matches DescriptorView::Reference { inner, name } && (r matches Ok(x)
            ==> fits(inner, x@, s.user_types()) && t.ref_of(name) == Some(x@)),
        t.ref_of(other) == s.ref_of(other),
{
}

proof fn lemma_produced_grows<F: FloatSource>(
    d: Seq<char>,
    before: Seq<Data<F>>,
    values: Seq<OutputData>,
    after: Seq<Data<F>>,
    i: int,
    j: int,
)
    requires
        before.len() == values.len(),
        after.len() == values.len(),
        forall|k: int| 0 <= k < values.len() ==> #[trigger] before[k].outcome(d, Ok(values[k]), after[k]),
        forall|k: int| 0 < k < values.len() ==> #[trigger] before[k].extends(after[k - 1]),
        0 <= i < j < values.len(),
    ensures
        forall|key: Seq<char>| #[trigger] after[i].produced(key).subset_of(before[j].produced(key)),
    decreases j - i,
{
    assert(before[j].extends(after[j - 1]));
    if j - 1 > i {
        lemma_produced_grows(d, before, values, after, i, j - 1);
        assert(before[j - 1].outcome(d, Ok(values[j - 1]), after[j - 1]));
        assert forall|key: Seq<char>| #[trigger] after[i].produced(key).subset_of(
            before[j].produced(key),
        ) by {
            assert(after[i].produced(key).subset_of(before[j - 1].produced(key)));
            assert(before[j - 1].produced(key).subset_of(after[j - 1].produced(key)));
            assert(after[j - 1].produced(key).subset_of(before[j].produced(key)));
        }
    }
}

/// The values that successive generations of one unique descriptor `T*`
/// give in a session are pairwise distinct, whatever is generated between them.
pub proof fn lemma_unique_distinct<F: FloatSource>(
    d: Seq<char>,
    before: Seq<Data<F>>,
    values: Seq<OutputData>,
    after: Seq<Data<F>>,
)
    requires
        classify_spec(d) is Unique,
        before.len() == values.len(),
        after.len() == values.len(),
        forall|k: int| 0 <= k < values.len() ==> #[trigger] before[k].outcome(d, Ok(values[k]), after[k]),
        forall|k: int| 0 < k < values.len() ==> #[trigger] before[k].extends(after[k - 1]),
    ensures
        forall|i: int, j: int| 0 <= i < j < values.len() ==> values[i]@ != values[j]@,
{
    if let DescriptorView::Unique(inner) = classify_spec(d) {
        assert forall|i: int, j: int| 0 <= i < j < values.len() implies values[i]@ != values[j]@ by {
            assert(before[i].outcome(d, Ok(values[i]), after[i]));
            assert(before[j].outcome(d, Ok(values[j]), after[j]));
            lemma_produced_grows(d, before, values, after, i, j);
            assert(after[i].produced(inner).contains(values[i]@));
            assert(after[i].produced(inner).subset_of(before[j].produced(inner)));
            assert(before[j].produced(inner).contains(values[i]@));
        }
    }
}

/// Once every value that the inner descriptor of `T*` can produce has been
/// produced, generating `T*` fails rather than repeat a value; when `T`
/// itself cannot fail, the failure is the exhaustion error with the count
/// of values produced.
pub proof fn lemma_unique_exhausted<F: FloatSource>(
    d: Seq<char>,
    s: Data<F>,
    r: Result<OutputData, Error>,
    t: Data<F>,
)
    requires
        classify_spec(d) matches DescriptorView::Unique(inner) && forall|v: DataView|
            fits(inner, v, s.user_types()) ==> #[trigger] s.produced(inner).contains(v),
        s.outcome(d, r, t),
    ensures
        r is Err,
        classify_spec(d) matches DescriptorView::Unique(inner) && (s.never_fails(inner) ==> (
        r matches Err(Error::UniqueFetchFailed { data_type, already_produced }) && data_type@
            == inner && already_produced == s.produced(inner).len())),
{
    if let DescriptorView::Unique(inner) = classify_spec(d) {
        if let Ok(x) = r {
            assert(reference_open(d) is None);
            assert(fits(d, x@, s.user_types()) == fits(inner, x@, s.user_types()));
            assert(s.produced(inner).contains(x@));
        }
    }
}

/// An enumeration `a|b|c` gives one of its non-empty choices, and one with
/// no non-empty choice, such as `|`, fails with the designated error.
pub proof fn lemma_enum_selection<F: FloatSource>(
    d: Seq<char>,
    s: Data<F>,
    r: Result<OutputData, Error>,
    t: Data<F>,
)
    requires
        classify_spec(d) is Choice,
        s.outcome(d, r, t),
    ensures
        classify_spec(d) matches DescriptorView::Choice(cs) && if cs.len() == 0 {
            r matches Err(Error::MissingValueBeforePipe)
        } else {
            r matches Ok(x) && (x@ matches DataView::Text(v) && cs.contains(v))
        },
{
}

/// A range of unsigned integers `min..max` gives an integer `v` with
/// `min <= v < max`, and does so whenever `min < max`; a range of other
/// numbers gives a floating-point value.
pub proof fn lemma_range_semantics<F: FloatSource>(
    d: Seq<char>,
    s: Data<F>,
    r: Result<OutputData, Error>,
    t: Data<F>,
)
    requires
        classify_spec(d) is Range,
        s.outcome(d, r, t),
    ensures
        classify_spec(d) matches DescriptorView::Range { min, max } && match int_range(min, max) {
            Some((lo, hi)) => (r matches Ok(x) ==> (x@ matches DataView::Int(v) && lo <= v < hi)) && (
            lo < hi ==> r is Ok),
            None => r matches Ok(x) ==> x@ is Float,
        },
{
}

/// An array directive `[X, n]` gives exactly `n` items, `[X, a, b]` between
/// `a` and `b - 1`, and `[X]` between one and nine.
pub proof fn lemma_array_cardinality(items: Seq<JsonValue>, r: Result<JsonValue, Error>)
    requires
        array_outcome(items, r),
        r is Ok,
    ensures
        r matches Ok(JsonValue::Array(xs)) && (items.len() == 1 ==> 1 <= xs.len() < 10),
        forall|n: u64|
            items.len() == 2 && items[1] == JsonValue::Number(JsonNumber::PosInt(n)) ==> (r->Ok_0)->Array_0.len()
                == n,
        forall|a: u64, b: u64|
            items.len() >= 3 && items[1] == JsonValue::Number(JsonNumber::PosInt(a)) && items[2]
                == JsonValue::Number(JsonNumber::PosInt(b)) ==> a <= (r->Ok_0)->Array_0.len() < b,
{
}

/// For an object whose keys carry no `?` or `!` and whose values are not
/// nullable descriptors, the output has exactly the keys of the input.
pub proof fn lemma_object_keys_kept(
    entries: Seq<(String, JsonValue)>,
    kept: Seq<bool>,
    out: Seq<(String, JsonValue)>,
)
    requires
        assembled(entries, kept, out),
        forall|i: int|
            0 <= i < entries.len() ==> !ends_with(#[trigger] entries[i].0@, '?') && !ends_with(
                entries[i].0@,
                '!',
            ) && !(entries[i].1 matches JsonValue::String(d) && ends_with(d@, '?')),
    ensures
        forall|k: Seq<char>| #[trigger]
            has_key(out, k) <==> exists|i: int| 0 <= i < entries.len() && #[trigger] entries[i].0@ == k,
{
    assert forall|k: Seq<char>| #[trigger]
        has_key(out, k) <==> exists|i: int| 0 <= i < entries.len() && #[trigger] entries[i].0@ == k by {
        if has_key(out, k) {
            let i = choose|i: int|
                0 <= i < entries.len() && #[trigger] kept[i] && entry_name(entries[i].0@) == k;
            assert(entries[i].0@ == k);
        }
        if exists|i: int| 0 <= i < entries.len() && #[trigger] entries[i].0@ == k {
            let i = choose|i: int| 0 <= i < entries.len() && #[trigger] entries[i].0@ == k;
            assert(!can_omit(entries[i].0@, entries[i].1));
            assert(kept[i] && entry_name(entries[i].0@) == k);
        }
    }
}

/// An entry that was omitted is absent from the output object, never kept
/// with a placeholder: when no other entry has its name, its key is missing
/// and the output has fewer keys than the input has entries.
pub proof fn lemma_omitted_entry_absent(
    entries: Seq<(String, JsonValue)>,
    kept: Seq<bool>,
    out: Seq<(String, JsonValue)>,
    i: int,
)
    requires
        assembled(entries, kept, out),
        0 <= i < entries.len(),
        !kept[i],
        forall|j: int|
            0 <= j < entries.len() && j != i ==> entry_name(#[trigger] entries[j].0@) != entry_name(
                entries[i].0@,
            ),
    ensures
        !has_key(out, entry_name(entries[i].0@)),
        out.len() < entries.len(),
{
    let name = entry_name(entries[i].0@);
    if has_key(out, name) {
        let j = choose|j: int| 0 <= j < entries.len() && #[trigger] kept[j] && entry_name(entries[j].0@) == name;
        assert(j != i);
    }
    let keys = out.map_values(|e: (String, JsonValue)| e.0@);
    let others = entries.remove(i).map_values(|e: (String, JsonValue)| entry_name(e.0@));
    assert(keys.no_duplicates()) by {
        assert forall|a: int, b: int| 0 <= a < keys.len() && 0 <= b < keys.len() && a != b implies keys[a] != keys[b] by {
            assert(keys[a] == out[a].0@ && keys[b] == out[b].0@);
        }
    }
    keys.unique_seq_to_set();
    assert forall|k: Seq<char>| #[trigger] keys.to_set().contains(k) implies others.to_set().contains(k) by {
        let a = choose|a: int| 0 <= a < keys.len() && keys[a] == k;
        assert(out[a].0@ == k);
        assert(has_key(out, k));
        let j = choose|j: int| 0 <= j < entries.len() && #[trigger] kept[j] && entry_name(entries[j].0@) == k;
        assert(j != i);
        if j < i {
            assert(others[j] == k);
        } else {
            assert(others[j - 1] == k);
        }
    }
    others.lemma_cardinality_of_set();
    vstd::set_lib::lemma_len_subset(keys.to_set(), others.to_set());
}

/// Two leaves of one generated tree that use the same reference name, such
/// as two entries `T[r]` of a mapping, hold equal values.
pub proof fn lemma_reference_leaves_agree<F: FloatSource>(
    d1: Seq<char>,
    v1: JsonValue,
    d2: Seq<char>,
    v2: JsonValue,
    s: Data<F>,
)
    requires
        leaf_fits(d1, v1, s),
        leaf_fits(d2, v2, s),
        classify_spec(d1) matches DescriptorView::Reference { name: n1, .. } && classify_spec(
            d2,
        ) matches DescriptorView::Reference { name: n2, .. } && n1 == n2,
    ensures
        same_json(v1, v2),
{
    let x1 = choose|x: DataView|
        #[trigger] is_json_of(v1, x) && fits(d1, x, s.user_types()) && crate::value::finite_value(x) && (
        classify_spec(d1) matches DescriptorView::Reference { name, .. } ==> s.ref_of(name) == Some(
            x,
        )) && (classify_spec(d1) matches DescriptorView::Unique(inner) ==> s.produced(
            inner,
        ).contains(x));
    let x2 = choose|x: DataView|
        #[trigger] is_json_of(v2, x) && fits(d2, x, s.user_types()) && crate::value::finite_value(x) && (
        classify_spec(d2) matches DescriptorView::Reference { name, .. } ==> s.ref_of(name) == Some(
            x,
        )) && (classify_spec(d2) matches DescriptorView::Unique(inner) ==> s.produced(
            inner,
        ).contains(x));
    assert(x1 == x2);
}

} // verus!
