//! The generation session: it owns the random source, the user-defined data
//! types, the registries of values already produced for unique descriptors,
//! and the values remembered for references.

use rand_chacha::ChaCha20Rng;
use vstd::prelude::*;

use crate::assoc::{
    distinct_keys, has_key, key_index, lemma_key_index, lemma_push_distinct,
    lemma_update_distinct, position,
};
use crate::descriptor::{
    classify, classify_spec, parse_user_defined, reference_open, Descriptor, DescriptorView,
};
use crate::error::Error;
use crate::random::{
    catalog_values_of, fresh_seed, is_primitive, primitive_names, primitive_values,
    random_choice, random_in, random_primitive, random_ratio, seeded_generator,
};
use crate::text::{
    join_lines, join_lines_spec, parse_u64, parse_u64_spec, split_spec, str_eq, texts,
};
use crate::value::{finite_value, is_finite_bits, DataView, FloatSource, OutputData};

verus! {

/// Attempts allowed to find a value not produced before for a unique descriptor.
pub const UNIQUE_ATTEMPTS: u32 = 10000;

/// A nullable descriptor produces no value with probability
/// `NULL_NUMERATOR / NULL_DENOMINATOR`.
pub const NULL_NUMERATOR: u32 = 3;

/// See [`NULL_NUMERATOR`].
pub const NULL_DENOMINATOR: u32 = 10;

/// The views of a list of generated values.
pub open spec fn data_views(v: Seq<OutputData>) -> Seq<DataView> {
    v.map_values(|x: OutputData| x@)
}

/// The bounds of an integer range: both bounds read as unsigned integers, an
/// empty upper bound standing for the largest one. The upper bound is excluded.
pub open spec fn int_range(min: Seq<char>, max: Seq<char>) -> Option<(u64, u64)> {
    match parse_u64_spec(min) {
        Some(lo) => if max.len() == 0 {
            Some((lo, u64::MAX))
        } else {
            match parse_u64_spec(max) {
                Some(hi) => Some((lo, hi)),
                None => None,
            }
        },
        None => None,
    }
}

/// The values that a bare name can produce.
pub open spec fn named_fits(n: Seq<char>, v: DataView, users: Map<Seq<char>, Seq<Seq<char>>>) -> bool {
    if users.contains_key(n) {
        v matches DataView::Text(t) && users[n].contains(t)
    } else if n == "Bool"@ {
        v is Bool
    } else if n == "Int"@ {
        v is Int
    } else if n == "Float"@ {
        v is Float
    } else {
        v matches DataView::Text(t) && (catalog_values_of(n) matches Some(vs) ==> vs.contains(t))
    }
}

/// Whether `v` is a value that descriptor `d` can produce. A reference can
/// produce anything, since the value remembered under its name may have come
/// from another descriptor.
pub open spec fn fits(d: Seq<char>, v: DataView, users: Map<Seq<char>, Seq<Seq<char>>>) -> bool
    decreases d.len(),
{
    if reference_open(d) is Some {
        true
    } else if d.len() > 0 && d.last() == '*' {
        fits(d.drop_last(), v, users)
    } else {
        match classify_spec(d) {
            DescriptorView::Range { min, max } => match int_range(min, max) {
                Some((lo, hi)) => v matches DataView::Int(x) && lo <= x < hi,
                None => v is Float,
            },
            DescriptorView::Choice(cs) => v matches DataView::Text(t) && cs.contains(t),
            DescriptorView::Named(n) => named_fits(n, v, users),
            _ => true,
        }
    }
}

/// The state of a generation session.
pub struct Data<F: FloatSource> {
    rng: ChaCha20Rng,
    floats: F,
    /// Values remembered for references, by reference name.
    refs: Vec<(String, OutputData)>,
    /// Values already produced, by unique descriptor (without its `*`).
    uniq_types: Vec<(String, Vec<OutputData>)>,
    /// User-defined data types and their values, in declaration order.
    user_defined: Vec<(String, Vec<String>)>,
}

impl<F: FloatSource> Data<F> {
    /// The user-defined data types and their values.
    pub closed spec fn user_types(self) -> Map<Seq<char>, Seq<Seq<char>>> {
        Map::new(
            |k: Seq<char>| has_key(self.user_defined@, k),
            |k: Seq<char>| texts(self.user_defined@[key_index(self.user_defined@, k)].1@),
        )
    }

    /// The names of the user-defined data types, in declaration order.
    pub closed spec fn user_names(self) -> Seq<Seq<char>> {
        self.user_defined@.map_values(|e: (String, Vec<String>)| e.0@)
    }

    /// The value remembered for a reference name.
    pub closed spec fn ref_of(self, name: Seq<char>) -> Option<DataView> {
        if has_key(self.refs@, name) {
            Some(self.refs@[key_index(self.refs@, name)].1@)
        } else {
            None
        }
    }

    /// The values already produced for a unique descriptor (without its `*`).
    pub closed spec fn produced(self, key: Seq<char>) -> Set<DataView> {
        if has_key(self.uniq_types@, key) {
            data_views(self.uniq_types@[key_index(self.uniq_types@, key)].1@).to_set()
        } else {
            Set::empty()
        }
    }

    /// The tables are consistent: keys are distinct, no registry holds a
    /// value twice, and every remembered value is finite.
    pub closed spec fn wf(self) -> bool {
        &&& distinct_keys(self.refs@)
        &&& distinct_keys(self.uniq_types@)
        &&& distinct_keys(self.user_defined@)
        &&& forall|i: int|
            0 <= i < self.uniq_types@.len() ==> #[trigger] data_views(
                self.uniq_types@[i].1@,
            ).no_duplicates()
        &&& forall|i: int| 0 <= i < self.refs@.len() ==> finite_value(#[trigger] self.refs@[i].1@)
    }

    /// No reference is remembered and no value registered yet.
    pub open spec fn is_fresh(self) -> bool {
        &&& forall|n: Seq<char>| #[trigger] self.ref_of(n) is None
        &&& forall|k: Seq<char>| #[trigger] self.produced(k) == Set::<DataView>::empty()
    }

    /// `self` follows `before` in one session: the same data types, every
    /// remembered reference kept, and every registry grown or kept.
    pub open spec fn extends(self, before: Self) -> bool {
        &&& self.user_types() == before.user_types()
        &&& self.user_names() == before.user_names()
        &&& forall|n: Seq<char>| #[trigger]
            before.ref_of(n) is Some ==> self.ref_of(n) == before.ref_of(n)
        &&& forall|k: Seq<char>| #[trigger] before.produced(k).subset_of(self.produced(k))
    }

    /// The registries of descriptors of at least `n` characters are as in `before`.
    pub open spec fn keeps_registries(self, before: Self, n: int) -> bool {
        forall|k: Seq<char>| k.len() >= n ==> #[trigger] self.produced(k) == before.produced(k)
    }

    /// The references and registries are as in `before`.
    pub open spec fn same_tables(self, before: Self) -> bool {
        &&& forall|n: Seq<char>| #[trigger] self.ref_of(n) == before.ref_of(n)
        &&& forall|k: Seq<char>| #[trigger] self.produced(k) == before.produced(k)
    }

    /// Whether generating `d` in this state cannot fail.
    pub open spec fn never_fails(self, d: Seq<char>) -> bool
        decreases d.len(),
    {
        if let Some(p) = reference_open(d) {
            self.ref_of(d.subrange(p + 1, d.len() - 1)) is Some || (0 <= p < d.len()
                && self.never_fails(d.subrange(0, p)))
        } else if d.len() > 0 && d.last() == '*' {
            false
        } else {
            match classify_spec(d) {
                DescriptorView::Range { min, max } => int_range(min, max) matches Some(
                    (lo, hi),
                ) && lo < hi,
                DescriptorView::Choice(cs) => cs.len() > 0,
                DescriptorView::Named(n) => if self.user_types().contains_key(n) {
                    self.user_types()[n].len() > 0
                } else {
                    n == "Bool"@ || n == "Int"@ || (n != "Float"@ && is_primitive(n))
                },
                _ => false,
            }
        }
    }

    /// What generating `inner*` may give: a value not produced before for
    /// `inner`, which then joins its registry; at a first use, when `inner`
    /// cannot fail, always a value. On failure the registry is unchanged, and
    /// when `inner` cannot fail the failure is the exhaustion error. The
    /// registries of other descriptors at least as long as `inner` are kept.
    pub open spec fn unique_outcome(self, inner: Seq<char>, r: Result<OutputData, Error>, after: Self) -> bool {
        &&& forall|k: Seq<char>|
            k.len() >= inner.len() && k != inner ==> #[trigger] after.produced(k) == self.produced(
                k,
            )
        &&& (self.produced(inner).len() == 0 && self.never_fails(inner) ==> r is Ok)
        &&& match r {
            Ok(x) => fits(inner, x@, self.user_types()) && !self.produced(inner).contains(x@)
                && after.produced(inner) == self.produced(inner).insert(x@),
            Err(e) => after.produced(inner) == self.produced(inner) && (self.never_fails(inner)
                ==> (e matches Error::UniqueFetchFailed { data_type, already_produced }
                && data_type@ == inner && already_produced == self.produced(inner).len())),
        }
    }

    /// What generating `d` from this state may give: `r`, with `after` the
    /// state of the session afterwards.
    pub open spec fn outcome(self, d: Seq<char>, r: Result<OutputData, Error>, after: Self) -> bool {
        &&& after.wf()
        &&& after.extends(self)
        &&& after.keeps_registries(self, d.len() as int)
        &&& (r matches Ok(x) ==> fits(d, x@, self.user_types()) && finite_value(x@))
        &&& (self.never_fails(d) ==> r is Ok)
        &&& match classify_spec(d) {
            DescriptorView::Reference { inner, name } => match self.ref_of(name) {
                Some(v) => (r matches Ok(x) && x@ == v) && after.same_tables(self),
                None => r matches Ok(x) ==> (after.ref_of(name) == Some(x@) && fits(
                    inner,
                    x@,
                    self.user_types(),
                )),
            },
            DescriptorView::Unique(inner) => self.unique_outcome(inner, r, after),
            DescriptorView::Range { min, max } => after.same_tables(self) && match int_range(
                min,
                max,
            ) {
                Some((lo, hi)) => lo >= hi ==> (r matches Err(Error::EmptyRange(t)) && t@ == d),
                None => r matches Err(e) ==> ((e matches Error::InvalidBounds(t) && (t@ == min
                    || t@ == max)) || (e matches Error::EmptyRange(t) && t@ == d)
                    || e is InfinityNotSupported),
            },
            DescriptorView::Choice(cs) => after.same_tables(self) && (cs.len() == 0 ==> r matches Err(
                Error::MissingValueBeforePipe,
            )),
            DescriptorView::Named(n) => after.same_tables(self) && if self.user_types().contains_key(
                n,
            ) {
                self.user_types()[n].len() == 0 ==> r matches Err(Error::FakerDefEmpty)
            } else if n == "Bool"@ || n == "Int"@ || n == "Float"@ {
                true
            } else {
                !is_primitive(n) ==> (r matches Err(Error::InvalidDataType(t)) && t@ == n)
            },
        }
    }

    /// The tables are those of `before`; only the random source moved.
    closed spec fn tables_equal(self, before: Self) -> bool {
        &&& self.refs == before.refs
        &&& self.uniq_types == before.uniq_types
        &&& self.user_defined == before.user_defined
    }

    proof fn lemma_tables_equal(self, before: Self)
        requires
            self.tables_equal(before),
            before.wf(),
        ensures
            self.wf(),
            self.extends(before),
            self.same_tables(before),
            forall|n: int| #[trigger] self.keeps_registries(before, n),
            forall|d: Seq<char>| #[trigger] self.never_fails(d) == before.never_fails(d),
    {
        assert(self.user_types() =~= before.user_types());
        assert forall|d: Seq<char>| #[trigger] self.never_fails(d) == before.never_fails(d) by {
            self.lemma_never_fails_same(before, d);
        }
    }

    proof fn lemma_outcome_same(self, before: Self, d: Seq<char>, r: Result<OutputData, Error>, after: Self)
        requires
            self.tables_equal(before),
            self.outcome(d, r, after),
        ensures
            before.outcome(d, r, after),
    {
        assert(self.user_types() =~= before.user_types());
        self.lemma_never_fails_same(before, d);
        if let DescriptorView::Reference { inner, name } = classify_spec(d) {
            self.lemma_never_fails_same(before, inner);
        }
        if let DescriptorView::Unique(inner) = classify_spec(d) {
            self.lemma_never_fails_same(before, inner);
        }
        assert forall|k: Seq<char>| #[trigger] self.produced(k) == before.produced(k) by {
        }
        assert forall|n: Seq<char>| #[trigger] self.ref_of(n) == before.ref_of(n) by {
        }
        assert(self.user_names() == before.user_names());
        assert(after.extends(self));
        assert forall|n: Seq<char>| #[trigger] before.ref_of(n) is Some implies after.ref_of(n)
            == before.ref_of(n) by {
            assert(self.ref_of(n) == before.ref_of(n));
        }
        assert forall|k: Seq<char>| #[trigger] before.produced(k).subset_of(after.produced(k)) by {
            assert(self.produced(k) == before.produced(k));
            assert(self.produced(k).subset_of(after.produced(k)));
        }
        assert(after.extends(before));
        assert(after.keeps_registries(before, d.len() as int));
    }

    proof fn lemma_never_fails_same(self, before: Self, d: Seq<char>)
        requires
            self.tables_equal(before),
        ensures
            self.never_fails(d) == before.never_fails(d),
        decreases d.len(),
    {
        assert(self.user_types() =~= before.user_types());
        if let Some(p) = reference_open(d) {
            if 0 <= p < d.len() {
                self.lemma_never_fails_same(before, d.subrange(0, p));
            }
        }
    }

    /// Generates a bare data-type name: a user-defined one first, then the
    /// built-in `Bool`, `Int` and `Float`, then the catalog of `random_data`.
    fn generate_named(&mut self, name: &str) -> (r: Result<OutputData, Error>)
        requires
            old(self).wf(),
        ensures
            final(self).tables_equal(*old(self)),
            r matches Ok(x) ==> named_fits(name@, x@, old(self).user_types()) && finite_value(x@),
            old(self).user_types().contains_key(name@) ==> if old(self).user_types()[name@].len()
                == 0 {
                r matches Err(Error::FakerDefEmpty)
            } else {
                r is Ok
            },
            !old(self).user_types().contains_key(name@) ==> if name@ == "Bool"@ || name@ == "Int"@ {
                r is Ok
            } else if name@ == "Float"@ {
                r is Ok || r matches Err(Error::InfinityNotSupported)
            } else {
                (is_primitive(name@) ==> r is Ok) && (!is_primitive(name@) ==> (r matches Err(
                    Error::InvalidDataType(t),
                ) && t@ == name@))
            },
    {
        if let Some(i) = position(&self.user_defined, name) {
            proof {
                lemma_key_index(self.user_defined@, i as int);
            }
            return match random_choice(&mut self.rng, &self.user_defined[i].1) {
                Some(value) => Ok(OutputData::String(value)),
                None => Err(Error::FakerDefEmpty),
            };
        }
        if str_eq(name, "Bool") {
            Ok(OutputData::Bool(random_ratio(&mut self.rng, 1, 2)))
        } else if str_eq(name, "Int") {
            Ok(OutputData::Int(random_in(&mut self.rng, 0, u64::MAX)))
        } else if str_eq(name, "Float") {
            let bits = self.floats.any_float(&mut self.rng);
            if is_finite_bits(bits) {
                Ok(OutputData::Float(bits))
            } else {
                Err(Error::InfinityNotSupported)
            }
        } else {
            match random_primitive(&mut self.rng, name) {
                Some(v) => Ok(OutputData::String(v)),
                None => Err(Error::InvalidDataType(name.to_owned())),
            }
        }
    }

    /// Picks one of the choices of an enumeration.
    fn generate_choice(&mut self, choices: &Vec<String>) -> (r: Result<OutputData, Error>)
        ensures
            final(self).tables_equal(*old(self)),
            choices.len() == 0 ==> r matches Err(Error::MissingValueBeforePipe),
            choices.len() > 0 ==> (r matches Ok(x) && (x@ matches DataView::Text(t) && texts(
                choices@,
            ).contains(t))),
    {
        match random_choice(&mut self.rng, choices) {
            Some(value) => Ok(OutputData::String(value)),
            None => Err(Error::MissingValueBeforePipe),
        }
    }

    /// Draws from a range `min..max`: integers when both bounds are unsigned
    /// integers, floating-point numbers otherwise.
    fn generate_range(&mut self, d: &str, min: &str, max: &str) -> (r: Result<OutputData, Error>)
        ensures
            final(self).tables_equal(*old(self)),
            match int_range(min@, max@) {
                Some((lo, hi)) => if lo < hi {
                    r matches Ok(x) && (x@ matches DataView::Int(v) && lo <= v < hi)
                } else {
                    r matches Err(Error::EmptyRange(t)) && t@ == d@
                },
                None => match r {
                    Ok(x) => x@ is Float && finite_value(x@),
                    Err(e) => (e matches Error::InvalidBounds(t) && (t@ == min@ || t@ == max@)) || (
                    e matches Error::EmptyRange(t) && t@ == d@) || e is InfinityNotSupported,
                },
            },
    {
        let max_empty = max.unicode_len() == 0;
        let low = parse_u64(min);
        let high = if max_empty {
            Some(u64::MAX)
        } else {
            parse_u64(max)
        };
        if let Some(lo) = low {
            if let Some(hi) = high {
                if lo < hi {
                    return Ok(OutputData::Int(random_in(&mut self.rng, lo, hi - 1)));
                } else {
                    return Err(Error::EmptyRange(d.to_owned()));
                }
            }
        }
        let fmin = match self.floats.parse_float(min) {
            Some(b) => b,
            None => return Err(Error::InvalidBounds(min.to_owned())),
        };
        let fmax = if max_empty {
            None
        } else {
            match self.floats.parse_float(max) {
                Some(b) => Some(b),
                None => return Err(Error::InvalidBounds(max.to_owned())),
            }
        };
        match self.floats.float_in(&mut self.rng, fmin, fmax) {
            Some(b) => if is_finite_bits(b) {
                Ok(OutputData::Float(b))
            } else {
                Err(Error::InfinityNotSupported)
            },
            None => Err(Error::EmptyRange(d.to_owned())),
        }
    }

    /// Following in a session is transitive, and so is keeping the
    /// registries of descriptors of at least `n` characters.
    pub proof fn lemma_extends_transitive(self, mid: Self, before: Self, n: int)
        requires
            mid.extends(before),
            self.extends(mid),
        ensures
            self.extends(before),
            mid.keeps_registries(before, n) && self.keeps_registries(mid, n)
                ==> self.keeps_registries(before, n),
    {
        assert forall|k: Seq<char>| #[trigger] before.produced(k).subset_of(self.produced(k)) by {
            assert(before.produced(k).subset_of(mid.produced(k)));
            assert(mid.produced(k).subset_of(self.produced(k)));
        }
        assert forall|m: Seq<char>| #[trigger]
            before.ref_of(m) is Some implies self.ref_of(m) == before.ref_of(m) by {
            assert(mid.ref_of(m) == before.ref_of(m));
        }
        if mid.keeps_registries(before, n) && self.keeps_registries(mid, n) {
            assert forall|k: Seq<char>| k.len() >= n implies #[trigger] self.produced(k)
                == before.produced(k) by {
                assert(mid.produced(k) == before.produced(k));
            }
        }
    }

    /// Once generating `d` cannot fail, it cannot fail later in the session.
    pub proof fn lemma_never_fails_grows(self, before: Self, d: Seq<char>)
        requires
            self.extends(before),
            before.never_fails(d),
        ensures
            self.never_fails(d),
        decreases d.len(),
    {
        if let Some(p) = reference_open(d) {
            let name = d.subrange(p + 1, d.len() - 1);
            if before.ref_of(name) is None {
                self.lemma_never_fails_grows(before, d.subrange(0, p));
            }
        }
    }

    /// Every state follows itself.
    pub proof fn lemma_extends_reflexive(self)
        ensures
            self.extends(self),
    {
    }

    /// Generates `inner[name]`: the value remembered under `name`, or a new
    /// value of `inner`, then remembered.
    fn generate_ref(&mut self, inner: &str, name: &str) -> (r: Result<OutputData, Error>)
        requires
            old(self).wf(),
        ensures
            final(self).wf(),
            final(self).extends(*old(self)),
            final(self).keeps_registries(*old(self), inner@.len() as int),
            r matches Ok(x) ==> finite_value(x@),
            r matches Err(e) ==> old(self).ref_of(name@) is None && old(self).outcome(inner@, Err(e), *final(self)),
            match old(self).ref_of(name@) {
                Some(v) => (r matches Ok(x) && x@ == v) && final(self).same_tables(*old(self)),
                None => (r matches Ok(x) ==> (final(self).ref_of(name@) == Some(x@) && fits(
                    inner@,
                    x@,
                    old(self).user_types(),
                ))) && (old(self).never_fails(inner@) ==> r is Ok),
            },
        decreases inner@.len() + 1, 0int,
    {
        let ghost before = *self;
        if let Some(i) = position(&self.refs, name) {
            proof {
                lemma_key_index(self.refs@, i as int);
            }
            let v = self.refs[i].1.duplicate();
            proof {
                assert(self.user_types() =~= before.user_types());
                assert(finite_value(self.refs@[i as int].1@));
            }
            return Ok(v);
        }
        let v = match self.generate(inner) {
            Ok(v) => v,
            Err(e) => {
                return Err(e);
            },
        };
        let ghost mid = *self;
        let copy = v.duplicate();
        match position(&self.refs, name) {
            Some(j) => {
                let (k, _) = self.refs.remove(j);
                self.refs.insert(j, (k, copy));
                proof {
                    let e = (k, copy);
                    assert(self.refs@ =~= mid.refs@.update(j as int, e));
                    lemma_update_distinct(mid.refs@, j as int, e);
                    lemma_key_index(self.refs@, j as int);
                    assert forall|m: Seq<char>| m != name@ implies #[trigger] self.ref_of(m)
                        == mid.ref_of(m) by {
                        if has_key(mid.refs@, m) {
                            let q = key_index(mid.refs@, m);
                            lemma_key_index(mid.refs@, q);
                            assert(q != j);
                        }
                    }
                }
            },
            None => {
                let e = (name.to_owned(), copy);
                self.refs.push(e);
                proof {
                    lemma_push_distinct(mid.refs@, e);
                    lemma_key_index(self.refs@, mid.refs@.len() as int);
                    assert forall|m: Seq<char>| m != name@ implies #[trigger] self.ref_of(m)
                        == mid.ref_of(m) by {
                        if has_key(mid.refs@, m) {
                            let q = key_index(mid.refs@, m);
                            assert(self.refs@[q] == mid.refs@[q]);
                        }
                    }
                }
            },
        }
        proof {
            assert(self.user_types() =~= mid.user_types());
            assert forall|k: Seq<char>| #[trigger] self.produced(k) == mid.produced(k) by {
            }
            assert forall|m: Seq<char>| #[trigger]
                before.ref_of(m) is Some implies self.ref_of(m) == before.ref_of(m) by {
                assert(mid.ref_of(m) == before.ref_of(m));
            }
            assert forall|k: Seq<char>| #[trigger] before.produced(k).subset_of(self.produced(k)) by {
                assert(before.produced(k).subset_of(mid.produced(k)));
            }
            assert forall|k: Seq<char>| k.len() >= inner@.len() implies #[trigger] self.produced(k)
                == before.produced(k) by {
                assert(mid.produced(k) == before.produced(k));
            }
        }
        Ok(v)
    }

    /// Generates `inner*`: a value of `inner` not produced before for it,
    /// within [`UNIQUE_ATTEMPTS`] attempts.
    fn generate_unique(&mut self, inner: &str) -> (r: Result<OutputData, Error>)
        requires
            old(self).wf(),
        ensures
            final(self).wf(),
            final(self).extends(*old(self)),
            final(self).keeps_registries(*old(self), inner@.len() + 1int),
            r matches Ok(x) ==> finite_value(x@),
            old(self).unique_outcome(inner@, r, *final(self)),
            r matches Err(e) ==> (e is UniqueFetchFailed || exists|mid: Self|
                #[trigger] mid.outcome(inner@, Err(e), *final(self)) && mid.extends(*old(self))),
        decreases inner@.len() + 1, 0int,
    {
        let ghost before = *self;
        let mut attempts: u32 = 0;
        while attempts < UNIQUE_ATTEMPTS
            invariant
                before == *old(self),
                before.wf(),
                self.wf(),
                self.extends(before),
                self.keeps_registries(before, inner@.len() as int),
                before.never_fails(inner@) ==> self.never_fails(inner@),
                before.produced(inner@).len() == 0 && before.never_fails(inner@) ==> attempts == 0,
            decreases UNIQUE_ATTEMPTS - attempts,
        {
            let ghost start = *self;
            let v = match self.generate(inner) {
                Ok(v) => v,
                Err(e) => {
                    proof {
                        self.lemma_extends_transitive(start, before, inner@.len() as int);
                        assert(self.keeps_registries(before, inner@.len() + 1int));
                        if before.never_fails(inner@) {
                            assert(start.never_fails(inner@));
                        }
                        assert(start.outcome(inner@, Err(e), *self) && start.extends(before));
                    }
                    return Err(e);
                },
            };
            let ghost mid = *self;
            proof {
                mid.lemma_extends_transitive(start, before, inner@.len() as int);
            }
            match position(&self.uniq_types, inner) {
                None => {
                    let mut registry: Vec<OutputData> = Vec::new();
                    registry.push(v.duplicate());
                    let e = (inner.to_owned(), registry);
                    self.uniq_types.push(e);
                    proof {
                        lemma_push_distinct(mid.uniq_types@, e);
                        let t = self.uniq_types@;
                        let last = mid.uniq_types@.len() as int;
                        lemma_key_index(t, last);
                        assert(data_views(registry@) =~= Seq::<DataView>::empty().push(v@));
                        Seq::<DataView>::empty().lemma_push_to_set_commute(v@);
                        assert(Seq::<DataView>::empty().to_set() =~= Set::<DataView>::empty());
                        assert(mid.produced(inner@) == before.produced(inner@));
                        assert forall|i: int| 0 <= i < t.len() implies #[trigger] data_views(
                            t[i].1@,
                        ).no_duplicates() by {
                            if i < last {
                                assert(t[i] == mid.uniq_types@[i]);
                            }
                        }
                        assert forall|k: Seq<char>| k != inner@ implies #[trigger] self.produced(k)
                            == mid.produced(k) by {
                            if has_key(mid.uniq_types@, k) {
                                let q = key_index(mid.uniq_types@, k);
                                assert(t[q] == mid.uniq_types@[q]);
                            }
                        }
                        assert(self.user_types() =~= mid.user_types());
                        assert forall|m: Seq<char>| #[trigger] self.ref_of(m) == mid.ref_of(m) by {
                        }
                        assert forall|k: Seq<char>| #[trigger] mid.produced(k).subset_of(
                            self.produced(k),
                        ) by {
                        }
                    }
                    return Ok(v);
                },
                Some(p) => {
                    proof {
                        lemma_key_index(self.uniq_types@, p as int);
                    }
                    if !contains_value(&self.uniq_types[p].1, &v) {
                        let (k, mut registry) = self.uniq_types.remove(p);
                        let ghost old_registry = registry@;
                        registry.push(v.duplicate());
                        let e = (k, registry);
                        self.uniq_types.insert(p, e);
                        proof {
                            let t = self.uniq_types@;
                            assert(t =~= mid.uniq_types@.update(p as int, e));
                            lemma_update_distinct(mid.uniq_types@, p as int, e);
                            lemma_key_index(t, p as int);
                            assert(data_views(registry@) =~= data_views(old_registry).push(v@));
                            data_views(old_registry).lemma_push_to_set_commute(v@);
                            assert(mid.produced(inner@) == before.produced(inner@));
                            let sq = data_views(old_registry);
                            assert(sq == data_views(mid.uniq_types@[p as int].1@));
                            assert(!sq.contains(v@));
                            assert(mid.wf());
                            assert(sq.no_duplicates());
                            let sq2 = sq.push(v@);
                            assert forall|a: int, b: int|
                                0 <= a < sq2.len() && 0 <= b < sq2.len() && a != b implies sq2[a]
                                != sq2[b] by {
                                if a == sq.len() as int {
                                    assert(sq2[b] == sq[b]);
                                    assert(sq.contains(sq[b]));
                                } else if b == sq.len() as int {
                                    assert(sq2[a] == sq[a]);
                                    assert(sq.contains(sq[a]));
                                } else {
                                    assert(sq2[a] == sq[a] && sq2[b] == sq[b]);
                                }
                            }
                            assert(sq2.no_duplicates());
                            assert forall|i: int| 0 <= i < t.len() implies #[trigger] data_views(
                                t[i].1@,
                            ).no_duplicates() by {
                                if i != p {
                                    assert(t[i] == mid.uniq_types@[i]);
                                } else {
                                    assert(data_views(t[i].1@) == sq2);
                                }
                            }
                            assert forall|k2: Seq<char>| k2 != inner@ implies #[trigger] self.produced(
                                k2,
                            ) == mid.produced(k2) by {
                                if has_key(mid.uniq_types@, k2) {
                                    let q = key_index(mid.uniq_types@, k2);
                                    lemma_key_index(mid.uniq_types@, q);
                                    assert(q != p);
                                    assert(t[q] == mid.uniq_types@[q]);
                                }
                            }
                            assert(self.user_types() =~= mid.user_types());
                            assert forall|m: Seq<char>| #[trigger] self.ref_of(m) == mid.ref_of(m) by {
                            }
                            assert forall|k2: Seq<char>| #[trigger] mid.produced(k2).subset_of(
                                self.produced(k2),
                            ) by {
                            }
                        }
                        return Ok(v);
                    }
                    proof {
                        let st = data_views(self.uniq_types@[p as int].1@).to_set();
                        assert(st.contains(v@));
                        assert(self.produced(inner@) == before.produced(inner@));
                        if before.produced(inner@).len() == 0 {
                            st.lemma_len0_is_empty();
                        }
                    }
                },
            }
            attempts = attempts + 1;
        }
        let count: usize = match position(&self.uniq_types, inner) {
            Some(p) => {
                proof {
                    lemma_key_index(self.uniq_types@, p as int);
                    data_views(self.uniq_types@[p as int].1@).unique_seq_to_set();
                }
                self.uniq_types[p].1.len()
            },
            None => 0,
        };
        proof {
            assert(self.produced(inner@) == before.produced(inner@));
            assert(self.keeps_registries(before, inner@.len() + 1int));
        }
        Err(Error::UniqueFetchFailed { data_type: inner.to_owned(), already_produced: count })
    }

    /// Generates a value of the data type that `d` describes, without
    /// omission: a trailing `?` is not read here.
    pub fn generate(&mut self, d: &str) -> (r: Result<OutputData, Error>)
        requires
            old(self).wf(),
        ensures
            old(self).outcome(d@, r, *final(self)),
        decreases d@.len(), 1int,
    {
        let ghost before = *self;
        let desc = classify(d);
        match desc {
            Descriptor::Reference { inner, name } => {
                proof {
                    crate::text::lemma_last_index(d@.drop_last(), '[');
                }
                self.generate_ref(inner.as_str(), name.as_str())
            },
            Descriptor::Unique(inner) => self.generate_unique(inner.as_str()),
            Descriptor::Range { min, max } => {
                let r = self.generate_range(d, min.as_str(), max.as_str());
                proof {
                    self.lemma_tables_equal(before);
                }
                r
            },
            Descriptor::Choice(choices) => {
                let r = self.generate_choice(&choices);
                proof {
                    self.lemma_tables_equal(before);
                }
                r
            },
            Descriptor::Named(name) => {
                let r = self.generate_named(name.as_str());
                proof {
                    self.lemma_tables_equal(before);
                }
                r
            },
        }
    }
}

/// The parts of a declaration `Name:Value1|Value2`, split at `:`.
pub open spec fn decl_parts(x: Seq<char>) -> Seq<Seq<char>> {
    split_spec(x, ':')
}

/// Whether a declaration has exactly one `:`.
pub open spec fn decl_ok(x: Seq<char>) -> bool {
    decl_parts(x).len() == 2
}

/// The name a declaration declares.
pub open spec fn decl_name(x: Seq<char>) -> Seq<char> {
    decl_parts(x)[0]
}

/// The values a declaration gives its data type.
pub open spec fn decl_values(x: Seq<char>) -> Seq<Seq<char>> {
    split_spec(decl_parts(x)[1], '|')
}

/// Whether all declarations are well formed and declare distinct names.
pub open spec fn decls_valid(ds: Seq<Seq<char>>) -> bool {
    &&& forall|i: int| 0 <= i < ds.len() ==> decl_ok(#[trigger] ds[i])
    &&& forall|i: int, j: int|
        0 <= i < j < ds.len() ==> decl_name(#[trigger] ds[i]) != decl_name(#[trigger] ds[j])
}

/// Whether `e` is the error for declaration `x` after the valid declarations `earlier`.
pub open spec fn decl_error(earlier: Seq<Seq<char>>, x: Seq<char>, e: Error) -> bool {
    if decl_parts(x).len() == 1 {
        e is FakerDefMissingColon
    } else if decl_parts(x).len() > 2 {
        e is FakerDefTooManyColons
    } else {
        earlier.map_values(|y: Seq<char>| decl_name(y)).contains(decl_name(x)) && (
        e matches Error::DuplicateDataType(t) && t@ == x)
    }
}

impl<F: FloatSource> Data<F> {
    /// Builds a session from user-defined data-type declarations
    /// `Name:Value1|Value2|...`, with a random source seeded from `seed`.
    pub fn new_with_seed(input_data: Vec<String>, seed: u64, floats: F) -> (r: Result<Self, Error>)
        ensures
            r is Ok <==> decls_valid(texts(input_data@)),
            r matches Ok(s) ==> {
                &&& s.wf()
                &&& s.is_fresh()
                &&& s.user_names() == texts(input_data@).map_values(|x: Seq<char>| decl_name(x))
                &&& forall|i: int|
                    0 <= i < input_data@.len() ==> #[trigger] s.user_types()[decl_name(
                        input_data@[i]@,
                    )] == decl_values(input_data@[i]@)
                &&& forall|n: Seq<char>| #[trigger]
                    s.user_types().contains_key(n) <==> s.user_names().contains(n)
            },
            r matches Err(e) ==> exists|i: int|
                0 <= i < input_data@.len() && decls_valid(texts(input_data@).subrange(0, i))
                    && #[trigger] decl_error(texts(input_data@).subrange(0, i), input_data@[i]@, e),
    {
        let mut user_defined: Vec<(String, Vec<String>)> = Vec::new();
        let mut i: usize = 0;
        let ghost ds = texts(input_data@);
        while i < input_data.len()
            invariant
                ds == texts(input_data@),
                i <= input_data@.len(),
                user_defined@.len() == i,
                distinct_keys(user_defined@),
                decls_valid(ds.subrange(0, i as int)),
                forall|j: int|
                    0 <= j < i ==> (#[trigger] user_defined@[j]).0@ == decl_name(ds[j]) && texts(
                        user_defined@[j].1@,
                    ) == decl_values(ds[j]),
            decreases input_data.len() - i,
        {
            let ghost earlier = ds.subrange(0, i as int);
            assert(input_data@[i as int]@ == ds[i as int]);
            proof {
                crate::text::lemma_split_nonempty(ds[i as int], ':');
            }
            let (name, values) = match parse_user_defined(input_data[i].as_str()) {
                Ok(parsed) => parsed,
                Err(e) => {
                    proof {
                        crate::text::lemma_split_nonempty(ds[i as int], ':');
                    }
                    assert(decl_error(earlier, ds[i as int], e));
                    return Err(e);
                },
            };
            if let Some(j) = position(&user_defined, name.as_str()) {
                proof {
                    assert(earlier[j as int] == ds[j as int]);
                    assert(user_defined@[j as int].0@ == decl_name(ds[j as int]));
                    assert(earlier.map_values(|y: Seq<char>| decl_name(y))[j as int] == decl_name(
                        ds[i as int],
                    ));
                    assert(decl_error(earlier, ds[i as int], Error::DuplicateDataType(input_data@[i as int])));
                }
                return Err(Error::DuplicateDataType(input_data[i].clone()));
            }
            let ghost before = user_defined@;
            assert(name@ == decl_name(ds[i as int]));
            let e = (name, values);
            user_defined.push(e);
            proof {
                lemma_push_distinct(before, e);
                let next = ds.subrange(0, i + 1);
                assert(next.drop_last() =~= earlier);
                assert forall|a: int, b: int|
                    0 <= a < b < next.len() implies decl_name(#[trigger] next[a]) != decl_name(
                        #[trigger] next[b],
                    ) by {
                    if b == i as int {
                        assert(before[a].0@ == decl_name(ds[a]));
                        assert(next[a] == ds[a]);
                        assert(next[b] == ds[i as int]);
                        if before[a].0@ == e.0@ {
                            assert(has_key(before, e.0@));
                        }
                    } else {
                        assert(next[a] == earlier[a] && next[b] == earlier[b]);
                    }
                }
                assert forall|a: int| 0 <= a < next.len() implies decl_ok(#[trigger] next[a]) by {
                    if a < i {
                        assert(next[a] == earlier[a]);
                    }
                }
            }
            i = i + 1;
        }
        let rng = seeded_generator(seed);
        let data = Data {
            rng,
            floats,
            refs: Vec::new(),
            uniq_types: Vec::new(),
            user_defined,
        };
        proof {
            assert(ds.subrange(0, ds.len() as int) =~= ds);
            assert forall|j: int| 0 <= j < input_data@.len() implies #[trigger] data.user_types()[
                decl_name(input_data@[j]@)] == decl_values(input_data@[j]@) by {
                lemma_key_index(data.user_defined@, j);
            }
            assert(data.user_names() =~= ds.map_values(|x: Seq<char>| decl_name(x)));
            assert forall|n: Seq<char>| #[trigger]
                data.user_types().contains_key(n) <==> data.user_names().contains(n) by {
                if data.user_types().contains_key(n) {
                    let j = key_index(data.user_defined@, n);
                    assert(data.user_names()[j] == n);
                }
                if data.user_names().contains(n) {
                    let j = choose|j: int| 0 <= j < data.user_names().len() && data.user_names()[j] == n;
                    assert(data.user_defined@[j].0@ == n);
                }
            }
        }
        Ok(data)
    }

    /// Builds a session as [`Data::new_with_seed`] does, with a seed drawn
    /// from the thread-local random generator.
    pub fn new(input_data: Vec<String>, floats: F) -> (r: Result<Self, Error>)
        ensures
            r is Ok <==> decls_valid(texts(input_data@)),
            r matches Ok(s) ==> {
                &&& s.wf()
                &&& s.is_fresh()
                &&& s.user_names() == texts(input_data@).map_values(|x: Seq<char>| decl_name(x))
                &&& forall|i: int|
                    0 <= i < input_data@.len() ==> #[trigger] s.user_types()[decl_name(
                        input_data@[i]@,
                    )] == decl_values(input_data@[i]@)
                &&& forall|n: Seq<char>| #[trigger]
                    s.user_types().contains_key(n) <==> s.user_names().contains(n)
            },
            r matches Err(e) ==> exists|i: int|
                0 <= i < input_data@.len() && decls_valid(texts(input_data@).subrange(0, i))
                    && #[trigger] decl_error(texts(input_data@).subrange(0, i), input_data@[i]@, e),
    {
        Self::new_with_seed(input_data, fresh_seed(), floats)
    }

    /// Generates a value of the data type that `d` describes, given the
    /// omission draw `omit`: a descriptor with a trailing `?` gives no value
    /// exactly when `omit` holds, and the session is then left as it was;
    /// otherwise the descriptor without its `?` is generated.
    pub fn generate_nullable_with(&mut self, d: &str, omit: bool) -> (r: Result<Option<OutputData>, Error>)
        requires
            old(self).wf(),
        ensures
            (r matches Ok(None)) <==> (d@.len() > 0 && d@.last() == '?' && omit),
            match r {
                Ok(None) => final(self).wf() && final(self).extends(*old(self)) && final(self).same_tables(*old(self)),
                Ok(Some(x)) => old(self).outcome(nullable_inner(d@), Ok(x), *final(self)),
                Err(e) => old(self).outcome(nullable_inner(d@), Err(e), *final(self)),
            },
    {
        let n = d.unicode_len();
        let nullable = n > 0 && d.get_char(n - 1) == '?';
        if nullable && omit {
            proof {
                self.lemma_extends_transitive(*self, *self, 0);
                assert forall|m: Seq<char>| #[trigger] self.ref_of(m) == self.ref_of(m) by {
                }
            }
            return Ok(None);
        }
        let inner = if nullable {
            d.substring_char(0, n - 1)
        } else {
            d
        };
        assert(inner@ =~= nullable_inner(d@));
        match self.generate(inner) {
            Ok(x) => Ok(Some(x)),
            Err(e) => Err(e),
        }
    }

    /// Generates a value of the data type that `d` describes. A trailing `?`
    /// makes it nullable: then with probability three in ten no value is
    /// produced, and the session is left as it was.
    pub fn generate_nullable(&mut self, d: &str) -> (r: Result<Option<OutputData>, Error>)
        requires
            old(self).wf(),
        ensures
            r matches Ok(None) ==> d@.len() > 0 && d@.last() == '?',
            match r {
                Ok(None) => final(self).wf() && final(self).extends(*old(self)) && final(self).same_tables(*old(self)),
                Ok(Some(x)) => old(self).outcome(nullable_inner(d@), Ok(x), *final(self)),
                Err(e) => old(self).outcome(nullable_inner(d@), Err(e), *final(self)),
            },
    {
        let ghost before = *self;
        let n = d.unicode_len();
        let omit = if n > 0 && d.get_char(n - 1) == '?' {
            random_ratio(&mut self.rng, NULL_NUMERATOR, NULL_DENOMINATOR)
        } else {
            false
        };
        proof {
            self.lemma_tables_equal(before);
        }
        let ghost mid = *self;
        let r = self.generate_nullable_with(d, omit);
        let ghost rg = r;
        proof {
            match rg {
                Ok(None) => {
                    self.lemma_extends_transitive(mid, before, 0);
                },
                Ok(Some(x)) => {
                    mid.lemma_outcome_same(before, nullable_inner(d@), Ok(x), *self);
                },
                Err(e) => {
                    mid.lemma_outcome_same(before, nullable_inner(d@), Err(e), *self);
                },
            }
        }
        r
    }

    /// Draws whether a nullable value is omitted: true with probability three in ten.
    pub fn random_null(&mut self) -> (r: bool)
        requires
            old(self).wf(),
        ensures
            final(self).wf(),
            final(self).extends(*old(self)),
            final(self).same_tables(*old(self)),
    {
        let ghost before = *self;
        let r = random_ratio(&mut self.rng, NULL_NUMERATOR, NULL_DENOMINATOR);
        proof {
            self.lemma_tables_equal(before);
        }
        r
    }

    /// Draws a number in `[low, high)`.
    pub fn random_range(&mut self, low: usize, high: usize) -> (r: usize)
        requires
            old(self).wf(),
            low < high,
        ensures
            low <= r < high,
            final(self).wf(),
            final(self).extends(*old(self)),
            final(self).same_tables(*old(self)),
    {
        let ghost before = *self;
        let r = random_in(&mut self.rng, low as u64, (high - 1) as u64) as usize;
        proof {
            self.lemma_tables_equal(before);
        }
        r
    }

    /// The names of the user-defined data types, then those of `catalog`.
    pub fn list_with(&self, catalog: Vec<String>) -> (r: Vec<String>)
        ensures
            texts(r@) == self.user_names() + texts(catalog@),
    {
        let mut list: Vec<String> = Vec::new();
        let mut i: usize = 0;
        while i < self.user_defined.len()
            invariant
                i <= self.user_defined@.len(),
                texts(list@) == self.user_names().subrange(0, i as int),
            decreases self.user_defined.len() - i,
        {
            let ghost before = list@;
            list.push(self.user_defined[i].0.clone());
            assert(texts(list@) =~= texts(before).push(self.user_defined@[i as int].0@));
            assert(self.user_names()[i as int] == self.user_defined@[i as int].0@);
            assert(texts(list@) =~= self.user_names().subrange(0, i + 1));
            i = i + 1;
        }
        let mut j: usize = 0;
        let n = self.user_defined.len();
        while j < catalog.len()
            invariant
                n == self.user_names().len(),
                j <= catalog@.len(),
                texts(list@) == self.user_names() + texts(catalog@).subrange(0, j as int),
            decreases catalog.len() - j,
        {
            let ghost before = list@;
            list.push(catalog[j].clone());
            assert(texts(list@) =~= texts(before).push(catalog@[j as int]@));
            assert(texts(list@) =~= self.user_names() + texts(catalog@).subrange(0, j + 1));
            j = j + 1;
        }
        assert(texts(catalog@).subrange(0, catalog@.len() as int) =~= texts(catalog@));
        list
    }

    /// Lists all the data types: the user-defined ones, then those of the
    /// `random_data` catalog.
    pub fn list(&self) -> (r: Vec<String>)
        ensures
            texts(r@).subrange(0, self.user_names().len() as int) == self.user_names(),
            forall|i: int|
                self.user_names().len() <= i < r@.len() ==> is_primitive(#[trigger] r@[i]@),
            forall|n: Seq<char>| #[trigger] is_primitive(n) ==> texts(r@).contains(n),
    {
        let catalog = primitive_names();
        let r = self.list_with(catalog);
        proof {
            assert(texts(r@).subrange(0, self.user_names().len() as int) =~= self.user_names());
            assert forall|i: int|
                self.user_names().len() <= i < r@.len() implies is_primitive(#[trigger] r@[i]@) by {
                let k = i - self.user_names().len();
                assert(texts(r@).len() == r@.len());
                assert((self.user_names() + texts(catalog@))[i] == texts(catalog@)[k]);
                assert(texts(r@)[i] == r@[i]@);
                assert(texts(catalog@)[k] == catalog@[k]@);
            }
            assert forall|n: Seq<char>| #[trigger] is_primitive(n) implies texts(r@).contains(n) by {
                let k = choose|k: int| 0 <= k < texts(catalog@).len() && texts(catalog@)[k] == n;
                assert(texts(r@)[self.user_names().len() + k] == n);
            }
        }
        r
    }

    /// The values of a data type, one per line, given what the catalog holds
    /// for it: `None` for a name it does not know, `Some(None)` for a data
    /// type that has no list of values.
    pub fn values_with(&self, data_type: &str, catalog: Option<Option<Vec<String>>>) -> (r: Result<String, Error>)
        requires
            self.wf(),
        ensures
            self.user_types().contains_key(data_type@) ==> (r matches Ok(t) && t@ == join_lines_spec(
                self.user_types()[data_type@],
            )),
            !self.user_types().contains_key(data_type@) ==> match catalog {
                None => r matches Err(Error::InvalidDataType(t)) && t@ == data_type@,
                Some(None) => r matches Err(Error::NonEnumerableDataType(t)) && t@ == data_type@,
                Some(Some(vs)) => r matches Ok(t) && t@ == join_lines_spec(texts(vs@)),
            },
    {
        if let Some(i) = position(&self.user_defined, data_type) {
            proof {
                lemma_key_index(self.user_defined@, i as int);
            }
            return Ok(join_lines(&self.user_defined[i].1));
        }
        match catalog {
            None => Err(Error::InvalidDataType(data_type.to_owned())),
            Some(None) => Err(Error::NonEnumerableDataType(data_type.to_owned())),
            Some(Some(vs)) => Ok(join_lines(&vs)),
        }
    }

    /// The values of a data type, one per line: a user-defined one, or one of
    /// the `random_data` catalog that has a list of values.
    pub fn values(&self, data_type: &str) -> (r: Result<String, Error>)
        requires
            self.wf(),
        ensures
            self.user_types().contains_key(data_type@) ==> (r matches Ok(t) && t@ == join_lines_spec(
                self.user_types()[data_type@],
            )),
            !self.user_types().contains_key(data_type@) ==> if !is_primitive(data_type@) {
                r matches Err(Error::InvalidDataType(t)) && t@ == data_type@
            } else {
                match catalog_values_of(data_type@) {
                    None => r matches Err(Error::NonEnumerableDataType(t)) && t@ == data_type@,
                    Some(vs) => r matches Ok(t) && t@ == join_lines_spec(vs),
                }
            },
    {
        if let Some(i) = position(&self.user_defined, data_type) {
            proof {
                lemma_key_index(self.user_defined@, i as int);
            }
            return Ok(join_lines(&self.user_defined[i].1));
        }
        self.values_with(data_type, primitive_values(data_type))
    }
}

/// A nullable descriptor without its trailing `?`.
pub open spec fn nullable_inner(d: Seq<char>) -> Seq<char> {
    if d.len() > 0 && d.last() == '?' {
        d.drop_last()
    } else {
        d
    }
}

/// Whether `values` holds a value equal to `x`.
fn contains_value(values: &Vec<OutputData>, x: &OutputData) -> (r: bool)
    ensures
        r == data_views(values@).contains(x@),
{
    let mut i: usize = 0;
    while i < values.len()
        invariant
            i <= values@.len(),
            forall|j: int| 0 <= j < i ==> values@[j]@ != x@,
        decreases values.len() - i,
    {
        if values[i].eq(x) {
            assert(data_views(values@)[i as int] == x@);
            return true;
        }
        i = i + 1;
    }
    proof {
        if data_views(values@).contains(x@) {
            let j = choose|j: int| 0 <= j < values@.len() && data_views(values@)[j] == x@;
            assert(values@[j]@ == x@);
        }
    }
    false
}

} // verus!
