//! The descriptor grammar: how a data-type descriptor such as `Int[id]`,
//! `Email*`, `1..10` or `a|b|c` is read, and how a user-defined data type
//! `Name:Value1|Value2` is declared.

use vstd::prelude::*;

use crate::error::Error;
use crate::text::{
    dots_from, find_dots, last_index, lemma_dots_from, lemma_last_index, rfind_char, split_char,
    split_spec, texts,
};

verus! {

/// A descriptor, classified by its outermost modifier.
pub enum Descriptor {
    /// `inner[name]`: generated once per name, then reused.
    Reference { inner: String, name: String },
    /// `inner*`: never the same value twice for this descriptor.
    Unique(String),
    /// `min..max`, or `min..` for the largest upper bound.
    Range { min: String, max: String },
    /// `a|b|c`: one of the non-empty choices.
    Choice(Vec<String>),
    /// A bare data-type name.
    Named(String),
}

/// The mathematical value of a [`Descriptor`].
pub enum DescriptorView {
    Reference { inner: Seq<char>, name: Seq<char> },
    Unique(Seq<char>),
    Range { min: Seq<char>, max: Seq<char> },
    Choice(Seq<Seq<char>>),
    Named(Seq<char>),
}

impl View for Descriptor {
    type V = DescriptorView;

    open spec fn view(&self) -> DescriptorView {
        match self {
            Descriptor::Reference { inner, name } => DescriptorView::Reference {
                inner: inner@,
                name: name@,
            },
            Descriptor::Unique(inner) => DescriptorView::Unique(inner@),
            Descriptor::Range { min, max } => DescriptorView::Range { min: min@, max: max@ },
            Descriptor::Choice(choices) => DescriptorView::Choice(texts(choices@)),
            Descriptor::Named(name) => DescriptorView::Named(name@),
        }
    }
}

/// The pieces of `ps` that are not empty, in order.
pub open spec fn nonempty_pieces(ps: Seq<Seq<char>>) -> Seq<Seq<char>>
    decreases ps.len(),
{
    if ps.len() == 0 {
        Seq::empty()
    } else if ps.last().len() > 0 {
        nonempty_pieces(ps.drop_last()).push(ps.last())
    } else {
        nonempty_pieces(ps.drop_last())
    }
}

/// Where the reference name of `d` opens, if `d` has the form `inner[name]`.
pub open spec fn reference_open(d: Seq<char>) -> Option<int> {
    if d.len() > 0 && d.last() == ']' {
        last_index(d.drop_last(), '[')
    } else {
        None
    }
}

/// The upper bound of a range: what follows the first `..`, up to a second one.
pub open spec fn range_max(rest: Seq<char>) -> Seq<char> {
    match dots_from(rest, 0) {
        Some(j) => rest.subrange(0, j),
        None => rest,
    }
}

/// How a descriptor is read. A reference is tried first, then uniqueness, a
/// range, an enumeration, and last a bare name.
pub open spec fn classify_spec(d: Seq<char>) -> DescriptorView {
    if let Some(p) = reference_open(d) {
        DescriptorView::Reference { inner: d.subrange(0, p), name: d.subrange(p + 1, d.len() - 1) }
    } else if d.len() > 0 && d.last() == '*' {
        DescriptorView::Unique(d.drop_last())
    } else if let Some(i) = dots_from(d, 0) {
        DescriptorView::Range {
            min: d.subrange(0, i),
            max: range_max(d.subrange(i + 2, d.len() as int)),
        }
    } else if last_index(d, '|') is Some {
        DescriptorView::Choice(nonempty_pieces(split_spec(d, '|')))
    } else {
        DescriptorView::Named(d)
    }
}

/// Keeps the non-empty strings of `pieces`.
fn keep_nonempty(pieces: Vec<String>) -> (r: Vec<String>)
    ensures
        texts(r@) == nonempty_pieces(texts(pieces@)),
{
    let mut kept: Vec<String> = Vec::new();
    let mut i: usize = 0;
    let n = pieces.len();
    assert(texts(pieces@).subrange(0, 0) =~= Seq::<Seq<char>>::empty());
    assert(texts(kept@) =~= Seq::<Seq<char>>::empty());
    while i < n
        invariant
            n == pieces.len(),
            i <= n,
            texts(kept@) == nonempty_pieces(texts(pieces@).subrange(0, i as int)),
        decreases n - i,
    {
        let ghost prefix = texts(pieces@).subrange(0, i + 1);
        assert(prefix.drop_last() =~= texts(pieces@).subrange(0, i as int));
        assert(prefix.last() == pieces@[i as int]@);
        if pieces[i].as_str().unicode_len() > 0 {
            let ghost before = kept@;
            kept.push(pieces[i].clone());
            assert(texts(kept@) =~= texts(before).push(pieces@[i as int]@));
        }
        i = i + 1;
    }
    assert(texts(pieces@).subrange(0, n as int) =~= texts(pieces@));
    kept
}

/// Classifies a descriptor by its outermost modifier.
pub fn classify(d: &str) -> (r: Descriptor)
    ensures
        r@ == classify_spec(d@),
{
    let n = d.unicode_len();
    if n > 0 && d.get_char(n - 1) == ']' {
        let body = d.substring_char(0, n - 1);
        assert(body@ =~= d@.drop_last());
        if let Some(p) = rfind_char(body, '[') {
            proof {
                lemma_last_index(d@.drop_last(), '[');
            }
            let inner = d.substring_char(0, p).to_owned();
            let name = d.substring_char(p + 1, n - 1).to_owned();
            return Descriptor::Reference { inner, name };
        }
    }
    if n > 0 && d.get_char(n - 1) == '*' {
        let inner = d.substring_char(0, n - 1).to_owned();
        assert(inner@ =~= d@.drop_last());
        return Descriptor::Unique(inner);
    }
    if let Some(i) = find_dots(d) {
        proof {
            lemma_dots_from(d@, 0);
        }
        let min = d.substring_char(0, i).to_owned();
        let rest = d.substring_char(i + 2, n);
        let max = match find_dots(rest) {
            Some(j) => {
                proof {
                    lemma_dots_from(rest@, 0);
                }
                rest.substring_char(0, j).to_owned()
            },
            None => rest.to_owned(),
        };
        return Descriptor::Range { min, max };
    }
    if rfind_char(d, '|').is_some() {
        let pieces = split_char(d, '|');
        return Descriptor::Choice(keep_nonempty(pieces));
    }
    Descriptor::Named(d.to_owned())
}

/// Reads a user-defined data type declared as `Name:Value1|Value2|...`: the
/// name before the one `:`, and the values between the `|` after it.
pub fn parse_user_defined(input: &str) -> (r: Result<(String, Vec<String>), Error>)
    ensures
        split_spec(input@, ':').len() == 1 ==> r matches Err(Error::FakerDefMissingColon),
        split_spec(input@, ':').len() > 2 ==> r matches Err(Error::FakerDefTooManyColons),
        split_spec(input@, ':').len() == 2 ==> (r matches Ok((name, values)) && name@
            == split_spec(input@, ':')[0] && texts(values@) == split_spec(
            split_spec(input@, ':')[1],
            '|',
        )),
{
    proof {
        crate::text::lemma_split_nonempty(input@, ':');
    }
    let parts = split_char(input, ':');
    assert(parts@[0]@ == texts(parts@)[0]);
    if parts.len() == 1 {
        return Err(Error::FakerDefMissingColon);
    }
    if parts.len() > 2 {
        return Err(Error::FakerDefTooManyColons);
    }
    assert(parts@[1]@ == texts(parts@)[1]);
    let values = split_char(parts[1].as_str(), '|');
    Ok((parts[0].clone(), values))
}

} // verus!
