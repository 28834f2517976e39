use crate::hex::chars_of;
use crate::linker::{chars_eq, Object};
use crate::source_map::{split, split_ranges};
use vstd::prelude::*;

verus! {

/// An expected value matches when nothing is expected, or when the actual value is there
/// and equal to it.
pub open spec fn expect_matches(expected: Option<Seq<char>>, actual: Option<Seq<char>>) -> bool {
    match expected {
        None => true,
        Some(e) => actual == Some(e),
    }
}

pub open spec fn object_path(object: Option<&Object>) -> Option<Seq<char>> {
    match object {
        Some(o) => Some(o.path@),
        None => None,
    }
}

pub open spec fn object_item(object: Option<&Object>) -> Option<Seq<char>> {
    match object {
        Some(o) => Some(o.item@),
        None => None,
    }
}

pub open spec fn str_view(s: Option<&str>) -> Option<Seq<char>> {
    match s {
        Some(t) => Some(t@),
        None => None,
    }
}

/// A location matches when path, item and function each match what is expected of them.
pub open spec fn location_matches(
    path: Option<Seq<char>>,
    item: Option<Seq<char>>,
    function: Option<Seq<char>>,
    object: Option<&Object>,
    actual_function: Option<&str>,
) -> bool {
    &&& expect_matches(path, object_path(object))
    &&& expect_matches(item, object_item(object))
    &&& expect_matches(function, str_view(actual_function))
}

/// What a pattern `function`, `item:function` or `path:item:function` expects.
pub open spec fn pattern_parts(p: Seq<char>) -> (Option<Seq<char>>, Option<Seq<char>>, Option<Seq<char>>) {
    let parts = split(p, ':');
    if parts.len() == 1 {
        (None, None, Some(parts[0]))
    } else if parts.len() == 2 {
        (None, Some(parts[0]), Some(parts[1]))
    } else {
        (Some(parts[0]), Some(parts[1]), Some(parts[2]))
    }
}

/// Matches a specific location in a solidity file.
pub trait LocationMatcher: Copy {
    /// What the matcher expects of path, item and function; `None` matches anything.
    spec fn expectation(&self) -> (Option<Seq<char>>, Option<Seq<char>>, Option<Seq<char>>);

    /// Test if the given location matches.
    fn matches_location(&self, object: Option<&Object>, function: Option<&str>) -> (r: bool)
        ensures
            r == location_matches(
                self.expectation().0,
                self.expectation().1,
                self.expectation().2,
                object,
                function,
            );
}

/// Matches a specific statement in a solidity file.
pub trait StatementMatcher: Copy {
    /// Test if the given lines hold the statement.
    fn matches_lines(&self, lines: &Vec<String>) -> bool;
}

/// A matcher of locations, by path, item and function; each one left out matches anything.
#[derive(Debug, Clone, Copy)]
pub struct Matcher {
    path: Option<&'static str>,
    item: Option<&'static str>,
    function: Option<&'static str>,
}

impl Matcher {
    pub closed spec fn expected(&self) -> (Option<Seq<char>>, Option<Seq<char>>, Option<Seq<char>>) {
        (str_view(self.path), str_view(self.item), str_view(self.function))
    }

    pub fn new() -> (r: Self)
        ensures
            r.expected() == (None::<Seq<char>>, None::<Seq<char>>, None::<Seq<char>>),
    {
        Self { path: None, item: None, function: None }
    }

    /// Set the expected path.
    pub fn path(self, path: &'static str) -> (r: Self)
        ensures
            r.expected() == (Some(path@), self.expected().1, self.expected().2),
    {
        Self { path: Some(path), ..self }
    }

    /// Set the expected item.
    pub fn item(self, item: &'static str) -> (r: Self)
        ensures
            r.expected() == (self.expected().0, Some(item@), self.expected().2),
    {
        Self { item: Some(item), ..self }
    }

    /// Set the expected function.
    pub fn function(self, function: &'static str) -> (r: Self)
        ensures
            r.expected() == (self.expected().0, self.expected().1, Some(function@)),
    {
        Self { function: Some(function), ..self }
    }

    /// Test if the given location matches.
    pub fn matches(&self, object: Option<&Object>, function: Option<&str>) -> (r: bool)
        ensures
            r == location_matches(
                self.expected().0,
                self.expected().1,
                self.expected().2,
                object,
                function,
            ),
    {
        if let Some(expected) = self.path {
            let ok = match object {
                Some(o) => str_eq(o.path.as_str(), expected),
                None => false,
            };
            if !ok {
                return false;
            }
        }
        if let Some(expected) = self.item {
            let ok = match object {
                Some(o) => str_eq(o.item.as_str(), expected),
                None => false,
            };
            if !ok {
                return false;
            }
        }
        if let Some(expected) = self.function {
            let ok = match function {
                Some(f) => str_eq(f, expected),
                None => false,
            };
            if !ok {
                return false;
            }
        }
        true
    }
}

/// Do `a` and `b` hold the same characters?
pub fn str_eq(a: &str, b: &str) -> (r: bool)
    ensures
        r == (a@ == b@),
{
    let x = chars_of(a);
    let y = chars_of(b);
    chars_eq(&x, &y)
}

/// Do `s[from..to]` and `b` hold the same characters?
fn range_eq(s: &Vec<char>, from: usize, to: usize, b: &str) -> (r: bool)
    requires
        from <= to <= s@.len(),
    ensures
        r == (s@.subrange(from as int, to as int) == b@),
{
    let a = crate::linker::copy_range(s, from, to);
    let y = chars_of(b);
    chars_eq(&a, &y)
}

/// Test a location against a pattern `function`, `item:function` or `path:item:function`.
pub fn matches_pattern(pattern: &str, object: Option<&Object>, function: Option<&str>) -> (r: bool)
    ensures
        r == location_matches(
            pattern_parts(pattern@).0,
            pattern_parts(pattern@).1,
            pattern_parts(pattern@).2,
            object,
            function,
        ),
{
    let p = chars_of(pattern);
    let parts = split_ranges(&p, 0, p.len(), ':');
    assert(p@.subrange(0, p@.len() as int) =~= pattern@);
    proof {
        crate::source_map::lemma_split_nonempty(pattern@, ':');
    }
    let n = parts.len();
    let (fp, fi, ff): (Option<(usize, usize)>, Option<(usize, usize)>, (usize, usize)) = if n == 1 {
        (None, None, parts[0])
    } else if n == 2 {
        (None, Some(parts[0]), parts[1])
    } else {
        (Some(parts[0]), Some(parts[1]), parts[2])
    };
    let path_ok = match fp {
        None => true,
        Some((a, b)) => match object {
            Some(o) => range_eq(&p, a, b, o.path.as_str()),
            None => false,
        },
    };
    let item_ok = match fi {
        None => true,
        Some((a, b)) => match object {
            Some(o) => range_eq(&p, a, b, o.item.as_str()),
            None => false,
        },
    };
    let function_ok = match function {
        Some(f) => range_eq(&p, ff.0, ff.1, f),
        None => false,
    };
    path_ok && item_ok && function_ok
}

impl LocationMatcher for Matcher {
    open spec fn expectation(&self) -> (Option<Seq<char>>, Option<Seq<char>>, Option<Seq<char>>) {
        self.expected()
    }

    fn matches_location(&self, object: Option<&Object>, function: Option<&str>) -> (r: bool) {
        self.matches(object, function)
    }
}

impl LocationMatcher for &'static str {
    open spec fn expectation(&self) -> (Option<Seq<char>>, Option<Seq<char>>, Option<Seq<char>>) {
        pattern_parts((*self)@)
    }

    fn matches_location(&self, object: Option<&Object>, function: Option<&str>) -> (r: bool) {
        matches_pattern(*self, object, function)
    }
}

/// The characters with the Unicode `White_Space` property.
pub open spec fn is_white(c: char) -> bool {
    let u = c as u32;
    ||| 0x09 <= u && u <= 0x0d
    ||| u == 0x20
    ||| u == 0x85
    ||| u == 0xa0
    ||| u == 0x1680
    ||| 0x2000 <= u && u <= 0x200a
    ||| u == 0x2028
    ||| u == 0x2029
    ||| u == 0x202f
    ||| u == 0x205f
    ||| u == 0x3000
}

pub(crate) fn is_white_exec(c: char) -> (r: bool)
    ensures
        r == is_white(c),
{
    let u = c as u32;
    (0x09 <= u && u <= 0x0d) || u == 0x20 || u == 0x85 || u == 0xa0 || u == 0x1680 || (0x2000
        <= u && u <= 0x200a) || u == 0x2028 || u == 0x2029 || u == 0x202f || u == 0x205f || u
        == 0x3000
}

/// `s` without the white space at its start.
pub open spec fn trim_white_start(s: Seq<char>) -> Seq<char>
    decreases s.len(),
{
    if s.len() > 0 && is_white(s[0]) {
        trim_white_start(s.skip(1))
    } else {
        s
    }
}

/// `s` without the white space at its end.
pub open spec fn trim_white_end(s: Seq<char>) -> Seq<char>
    decreases s.len(),
{
    if s.len() > 0 && is_white(s.last()) {
        trim_white_end(s.drop_last())
    } else {
        s
    }
}

/// `s` without the white space around it.
pub open spec fn trim_white(s: Seq<char>) -> Seq<char> {
    trim_white_end(trim_white_start(s))
}

/// The characters of `s` without the white space around them.
pub fn trimmed(s: &str) -> (r: Vec<char>)
    ensures
        r@ == trim_white(s@),
{
    let v = chars_of(s);
    let mut i: usize = 0;
    assert(v@.skip(0) =~= v@);
    while i < v.len() && is_white_exec(v[i])
        invariant
            i <= v@.len(),
            v@ == s@,
            trim_white_start(s@) == trim_white_start(v@.skip(i as int)),
        decreases v@.len() - i,
    {
        assert(v@.skip(i as int).skip(1) =~= v@.skip(i + 1));
        i += 1;
    }
    let mut j: usize = v.len();
    assert(v@.skip(i as int) =~= v@.subrange(i as int, j as int));
    while j > i && is_white_exec(v[j - 1])
        invariant
            i <= j <= v@.len(),
            trim_white(s@) == trim_white_end(v@.subrange(i as int, j as int)),
        decreases j,
    {
        assert(v@.subrange(i as int, j as int).drop_last() =~= v@.subrange(i as int, j - 1));
        j -= 1;
    }
    crate::linker::copy_range(&v, i, j)
}

/// Does one of `lines`, without the white space around it, read exactly `statement`?
pub fn lines_hold(statement: &str, lines: &Vec<String>) -> (r: bool)
    ensures
        r == exists|k: int| 0 <= k < lines@.len() && trim_white((#[trigger] lines@[k])@) == statement@,
{
    let want = chars_of(statement);
    let mut k: usize = 0;
    while k < lines.len()
        invariant
            k <= lines@.len(),
            want@ == statement@,
            forall|j: int| 0 <= j < k ==> trim_white((#[trigger] lines@[j])@) != statement@,
        decreases lines@.len() - k,
    {
        let t = trimmed(lines[k].as_str());
        if chars_eq(&t, &want) {
            return true;
        }
        k += 1;
    }
    false
}

impl StatementMatcher for &'static str {
    fn matches_lines(&self, lines: &Vec<String>) -> bool {
        lines_hold(*self, lines)
    }
}

} // verus!
