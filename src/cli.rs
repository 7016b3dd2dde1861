//! The decisions of the command line: which options were given, which of
//! them conflict, what the invocation asks for, and how a typed number reads.

use vstd::prelude::*;

use crate::error::Error;
use crate::text::{parse_u64, parse_u64_spec, str_eq};

verus! {

/// The command-line options.
pub struct CliArgs {
    /// Number of times to repeat the JSON generation.
    pub count: u32,
    /// String to print before every JSON generation.
    pub before: Option<String>,
    /// String to print after every JSON generation.
    pub after: Option<String>,
    /// Path to the JSON schema.
    pub schema_file: String,
    /// JSON schema given inline instead of in a file.
    pub json: Option<String>,
    /// Data type to generate a single value of.
    pub data_type: Option<String>,
    /// User-defined data types, `Type:Value1|Value2`.
    pub user_defined: Vec<String>,
    /// Select the data type interactively.
    pub interactive: bool,
    /// List the available data types.
    pub list: bool,
    /// List the values of a data type.
    pub values: Option<String>,
    /// Report errors with more detail.
    pub debug: bool,
}

/// What an invocation asks for, in the order the options are looked at.
pub enum Command {
    /// List the values of a data type.
    Values(String),
    /// List the data types.
    List,
    /// Generate one value of a data type.
    Generate(String),
    /// Choose a data type interactively, then generate one value of it.
    Interactive,
    /// Generate documents from the schema.
    Schema,
}

/// The name of the default schema file.
pub open spec fn default_schema() -> Seq<char> {
    "schema.json"@
}

/// `name` when `given`, else nothing.
pub open spec fn flag(given: bool, name: Seq<char>) -> Seq<Seq<char>> {
    if given {
        seq![name]
    } else {
        Seq::empty()
    }
}

/// The views of a sequence of string slices.
pub open spec fn strs(v: Seq<&str>) -> Seq<Seq<char>> {
    v.map_values(|s: &str| s@)
}

/// The first element of `list` that `allowed` does not hold.
pub open spec fn first_other(list: Seq<Seq<char>>, allowed: Seq<Seq<char>>) -> Option<Seq<char>>
    decreases list.len(),
{
    if list.len() == 0 {
        None
    } else if !allowed.contains(list[0]) {
        Some(list[0])
    } else {
        first_other(list.drop_first(), allowed)
    }
}

/// Finds an element of `list` that `allowed` does not hold: the first one.
pub fn find_other_than(list: &[&'static str], allowed: &[&'static str]) -> (r: Option<&'static str>)
    ensures
        match first_other(strs(list@), strs(allowed@)) {
            Some(x) => r matches Some(y) && y@ == x,
            None => r is None,
        },
{
    let mut i: usize = 0;
    assert(strs(list@).subrange(0, list@.len() as int) =~= strs(list@));
    while i < list.len()
        invariant
            i <= list@.len(),
            first_other(strs(list@), strs(allowed@)) == first_other(
                strs(list@).subrange(i as int, list@.len() as int),
                strs(allowed@),
            ),
        decreases list.len() - i,
    {
        let ghost rest = strs(list@).subrange(i as int, list@.len() as int);
        assert(rest[0] == list@[i as int]@);
        assert(rest.drop_first() =~= strs(list@).subrange(i + 1, list@.len() as int));
        let mut found = false;
        let mut j: usize = 0;
        while j < allowed.len()
            invariant
                i < list@.len(),
                j <= allowed@.len(),
                found ==> strs(allowed@).contains(list@[i as int]@),
                !found ==> forall|k: int| 0 <= k < j ==> allowed@[k]@ != list@[i as int]@,
            decreases allowed.len() - j,
        {
            if str_eq(allowed[j], list[i]) {
                assert(strs(allowed@)[j as int] == list@[i as int]@);
                found = true;
            }
            j = j + 1;
        }
        if !found {
            proof {
                if strs(allowed@).contains(list@[i as int]@) {
                    let k = choose|k: int| 0 <= k < strs(allowed@).len() && strs(allowed@)[k] == list@[i as int]@;
                    assert(allowed@[k]@ == list@[i as int]@);
                }
            }
            return Some(list[i]);
        }
        i = i + 1;
    }
    assert(strs(list@).subrange(list@.len() as int, list@.len() as int) =~= Seq::<Seq<char>>::empty());
    None
}

fn push_if(names: &mut Vec<&'static str>, given: bool, name: &'static str)
    ensures
        strs(final(names)@) == strs(old(names)@) + flag(given, name@),
{
    if given {
        names.push(name);
    }
    assert(strs(names@) =~= strs(old(names)@) + flag(given, name@));
}

impl CliArgs {
    /// The options that were given, in a fixed order.
    pub open spec fn provided_spec(&self) -> Seq<Seq<char>> {
        flag(self.count != 1, "count"@) + flag(self.before is Some, "before"@) + flag(
            self.after is Some,
            "after"@,
        ) + flag(self.schema_file@ != default_schema(), "schema"@) + flag(
            self.json is Some,
            "json"@,
        ) + flag(self.data_type is Some, "type"@) + flag(self.user_defined@.len() > 0, "user"@)
            + flag(self.interactive, "interactive"@) + flag(self.list, "list"@) + flag(
            self.values is Some,
            "values"@,
        )
    }

    /// Lists the options that were given.
    pub fn list_provided(&self) -> (r: Vec<&'static str>)
        ensures
            strs(r@) == self.provided_spec(),
    {
        let mut provided: Vec<&'static str> = Vec::new();
        push_if(&mut provided, self.count != 1, "count");
        push_if(&mut provided, self.before.is_some(), "before");
        push_if(&mut provided, self.after.is_some(), "after");
        push_if(&mut provided, !str_eq(self.schema_file.as_str(), "schema.json"), "schema");
        push_if(&mut provided, self.json.is_some(), "json");
        push_if(&mut provided, self.data_type.is_some(), "type");
        push_if(&mut provided, self.user_defined.len() > 0, "user");
        push_if(&mut provided, self.interactive, "interactive");
        push_if(&mut provided, self.list, "list");
        push_if(&mut provided, self.values.is_some(), "values");
        assert(Seq::<Seq<char>>::empty() + flag(self.count != 1, "count"@) =~= flag(
            self.count != 1,
            "count"@,
        ));
        provided
    }

    /// The first conflict among the options: an option and another given with it.
    pub open spec fn conflict_spec(&self) -> Option<(Seq<char>, Seq<char>)> {
        let p = self.provided_spec();
        if self.list && first_other(p, seq!["list"@, "user"@, "type"@]) is Some {
            Some(("list"@, first_other(p, seq!["list"@, "user"@, "type"@])->0))
        } else if self.interactive && first_other(p, seq!["interactive"@, "user"@, "type"@]) is Some {
            Some(("interactive"@, first_other(p, seq!["interactive"@, "user"@, "type"@])->0))
        } else if self.values is Some && first_other(p, seq!["values"@, "user"@, "type"@]) is Some {
            Some(("values"@, first_other(p, seq!["values"@, "user"@, "type"@])->0))
        } else if self.json is Some && self.schema_file@ != default_schema() {
            Some(("json"@, "schema"@))
        } else {
            None
        }
    }

    /// Checks that the options given make sense together: `list`,
    /// `interactive` and `values` go with `user` and `type` only, and an
    /// inline schema excludes a schema file.
    pub fn check_arguments(&self) -> (r: Result<(), Error>)
        ensures
            match self.conflict_spec() {
                None => r is Ok,
                Some((a, b)) => r matches Err(Error::ConflictingArgs(x, y)) && x@ == a && y@ == b,
            },
    {
        let provided = self.list_provided();
        if self.list {
            let allowed = vec!["list", "user", "type"];
            assert(strs(allowed@) =~= seq!["list"@, "user"@, "type"@]);
            if let Some(other) = find_other_than(provided.as_slice(), allowed.as_slice()) {
                return Err(Error::ConflictingArgs("list", other));
            }
        }
        if self.interactive {
            let allowed = vec!["interactive", "user", "type"];
            assert(strs(allowed@) =~= seq!["interactive"@, "user"@, "type"@]);
            if let Some(other) = find_other_than(provided.as_slice(), allowed.as_slice()) {
                return Err(Error::ConflictingArgs("interactive", other));
            }
        }
        if self.values.is_some() {
            let allowed = vec!["values", "user", "type"];
            assert(strs(allowed@) =~= seq!["values"@, "user"@, "type"@]);
            if let Some(other) = find_other_than(provided.as_slice(), allowed.as_slice()) {
                return Err(Error::ConflictingArgs("values", other));
            }
        }
        if self.json.is_some() && !str_eq(self.schema_file.as_str(), "schema.json") {
            return Err(Error::ConflictingArgs("json", "schema"));
        }
        Ok(())
    }

    /// What the invocation asks for: the values of a data type, the list of
    /// data types, one value of a data type, an interactive choice, or
    /// documents from the schema, the first that applies.
    pub fn command(&self) -> (r: Command)
        ensures
            match self.values {
                Some(v) => r matches Command::Values(t) && t@ == v@,
                None => if self.list {
                    r is List
                } else {
                    match self.data_type {
                        Some(d) => r matches Command::Generate(t) && t@ == d@,
                        None => if self.interactive {
                            r is Interactive
                        } else {
                            r is Schema
                        },
                    }
                },
            },
    {
        if let Some(v) = &self.values {
            return Command::Values(v.clone());
        }
        if self.list {
            return Command::List;
        }
        if let Some(d) = &self.data_type {
            return Command::Generate(d.clone());
        }
        if self.interactive {
            Command::Interactive
        } else {
            Command::Schema
        }
    }
}

/// Whether `c` is white space as `char::is_whitespace` has it: the Unicode
/// `White_Space` characters.
pub open spec fn is_white_space(c: char) -> bool {
    ('\u{9}' <= c && c <= '\u{d}') || c == ' ' || c == '\u{85}' || c == '\u{a0}' || c == '\u{1680}'
        || ('\u{2000}' <= c && c <= '\u{200a}') || c == '\u{2028}' || c == '\u{2029}' || c
        == '\u{202f}' || c == '\u{205f}' || c == '\u{3000}'
}

fn white_space(c: char) -> (r: bool)
    ensures
        r == is_white_space(c),
{
    ('\u{9}' <= c && c <= '\u{d}') || c == ' ' || c == '\u{85}' || c == '\u{a0}' || c == '\u{1680}'
        || ('\u{2000}' <= c && c <= '\u{200a}') || c == '\u{2028}' || c == '\u{2029}' || c
        == '\u{202f}' || c == '\u{205f}' || c == '\u{3000}'
}

/// `s` without its leading and trailing white space, as `str::trim` gives it.
pub open spec fn trim_spec(s: Seq<char>) -> Seq<char> {
    let start = if exists|i: int| 0 <= i < s.len() && !is_white_space(s[i]) {
        choose|i: int|
            0 <= i < s.len() && !is_white_space(s[i]) && forall|k: int|
                0 <= k < i ==> is_white_space(s[k])
    } else {
        s.len() as int
    };
    let end = if exists|i: int| 0 <= i < s.len() && !is_white_space(s[i]) {
        choose|j: int|
            0 <= j < s.len() && !is_white_space(s[j]) && forall|k: int|
                j < k < s.len() ==> is_white_space(s[k])
    } else {
        s.len() - 1
    };
    s.subrange(start, end + 1)
}

/// Reads a line typed by the user as a length: the number between the white
/// space, as `str::trim` then `str::parse::<usize>` read it.
pub fn read_int(line: &str) -> (r: Option<usize>)
    ensures
        match parse_u64_spec(trim_spec(line@)) {
            Some(x) => if x <= usize::MAX {
                r == Some(x as usize)
            } else {
                r is None
            },
            None => r is None,
        },
{
    let n = line.unicode_len();
    let mut start: usize = 0;
    while start < n && white_space(line.get_char(start))
        invariant
            n == line@.len(),
            start <= n,
            forall|k: int| 0 <= k < start ==> is_white_space(line@[k]),
        decreases n - start,
    {
        start = start + 1;
    }
    let mut end: usize = n;
    while end > start && white_space(line.get_char(end - 1))
        invariant
            n == line@.len(),
            start <= end <= n,
            forall|k: int| end <= k < n ==> is_white_space(line@[k]),
        decreases end,
    {
        end = end - 1;
    }
    let trimmed = line.substring_char(start, end);
    proof {
        let s = line@;
        if start < n {
            assert(!is_white_space(s[start as int]));
            let i0 = choose|i: int|
                0 <= i < s.len() && !is_white_space(s[i]) && forall|k: int|
                    0 <= k < i ==> is_white_space(s[k]);
            assert(i0 == start) by {
                if i0 < start {
                } else if i0 > start {
                }
            }
            assert(end > start);
            assert(!is_white_space(s[end - 1]));
            let j0 = choose|j: int|
                0 <= j < s.len() && !is_white_space(s[j]) && forall|k: int|
                    j < k < s.len() ==> is_white_space(s[k]);
            assert(j0 == end - 1) by {
                if j0 < end - 1 {
                } else if j0 > end - 1 {
                }
            }
        } else {
            assert(!(exists|i: int| 0 <= i < s.len() && !is_white_space(s[i])));
            assert(trimmed@ =~= trim_spec(s));
        }
        assert(trimmed@ =~= trim_spec(s));
    }
    match parse_u64(trimmed) {
        Some(x) => if x <= usize::MAX as u64 {
            Some(x as usize)
        } else {
            None
        },
        None => None,
    }
}

} // verus!
