use vstd::prelude::*;
use crate::version::{SemVer, parse_semver, semver_text};
use crate::error::ModDataErr;

verus! {

/// The strength of a declared relation between two mods.
#[derive(Clone, Copy, Debug, PartialEq, Eq, Structural)]
pub enum ModDependencyType {
    Required,
    Optional,
    OptionalHidden,
    Incompatible,
    OrderIndependent,
}

impl ModDependencyType {
    /// Relations that place their target before the declaring mod.
    pub open spec fn orders_spec(&self) -> bool {
        self is Required || self is Optional || self is OptionalHidden
    }

    #[verifier::when_used_as_spec(orders_spec)]
    pub fn orders(&self) -> (r: bool)
        ensures
            r == self.orders_spec(),
    {
        match self {
            ModDependencyType::Required | ModDependencyType::Optional
            | ModDependencyType::OptionalHidden => true,
            _ => false,
        }
    }
}

/// Comparison operator of a version constraint.
#[derive(Clone, Copy, Debug, PartialEq, Eq, Structural)]
pub enum ComparatorOp {
    Eq,
    Greater,
    GreaterEq,
    Less,
    LessEq,
}

/// One declared relation: target mod, kind, and optional version constraint.
#[derive(Clone, Debug)]
pub struct ModDependency {
    pub name: String,
    pub dep_type: ModDependencyType,
    pub version: Option<(ComparatorOp, SemVer)>,
}


pub open spec fn is_blank(c: char) -> bool {
    c == ' ' || c == '\t'
}

pub open spec fn is_op_char(c: char) -> bool {
    c == '<' || c == '>' || c == '='
}

/// First position at or after `i` that does not hold a blank.
pub open spec fn skip_blank(s: Seq<char>, i: int) -> int
    decreases s.len() - i,
{
    if i < 0 || i >= s.len() {
        i
    } else if is_blank(s[i]) {
        skip_blank(s, i + 1)
    } else {
        i
    }
}

/// First position at or after `i` that holds a comparison character, or the end.
pub open spec fn name_end(s: Seq<char>, i: int) -> int
    decreases s.len() - i,
{
    if i < 0 || i >= s.len() {
        i
    } else if is_op_char(s[i]) {
        i
    } else {
        name_end(s, i + 1)
    }
}

/// End of `s[lo..hi]` once trailing blanks are dropped.
pub open spec fn trim_end(s: Seq<char>, lo: int, hi: int) -> int
    decreases hi - lo,
{
    if hi <= lo {
        lo
    } else if is_blank(s[hi - 1]) {
        trim_end(s, lo, hi - 1)
    } else {
        hi
    }
}

/// The relation kind selected by the prefix at `i`, and where the prefix ends.
pub open spec fn prefix_at(s: Seq<char>, i: int) -> (ModDependencyType, int) {
    if i < s.len() && s[i] == '!' {
        (ModDependencyType::Incompatible, i + 1)
    } else if i < s.len() && s[i] == '?' {
        (ModDependencyType::Optional, i + 1)
    } else if i < s.len() && s[i] == '~' {
        (ModDependencyType::OrderIndependent, i + 1)
    } else if i + 2 < s.len() && s[i] == '(' && s[i + 1] == '?' && s[i + 2] == ')' {
        (ModDependencyType::OptionalHidden, i + 3)
    } else {
        (ModDependencyType::Required, i)
    }
}

/// The comparator that starts at `i` (which holds a comparison character), and
/// where it ends.
pub open spec fn comparator_at(s: Seq<char>, i: int) -> (ComparatorOp, int) {
    if s[i] == '>' {
        if i + 1 < s.len() && s[i + 1] == '=' {
            (ComparatorOp::GreaterEq, i + 2)
        } else {
            (ComparatorOp::Greater, i + 1)
        }
    } else if s[i] == '<' {
        if i + 1 < s.len() && s[i + 1] == '=' {
            (ComparatorOp::LessEq, i + 2)
        } else {
            (ComparatorOp::Less, i + 1)
        }
    } else {
        (ComparatorOp::Eq, i + 1)
    }
}

/// The parts of a dependency string: kind, target name, and the comparator with the
/// text of the version after it; `None` where the target name is empty.
pub open spec fn dependency_parts(s: Seq<char>) -> Option<
    (ModDependencyType, Seq<char>, Option<(ComparatorOp, Seq<char>)>),
> {
    let (kind, b) = prefix_at(s, skip_blank(s, 0));
    let c = skip_blank(s, b);
    let e = name_end(s, c);
    let ne = trim_end(s, c, e);
    if ne == c {
        None
    } else if e == s.len() {
        Some((kind, s.subrange(c, ne), None))
    } else {
        let (op, f) = comparator_at(s, e);
        let g = skip_blank(s, f);
        let h = trim_end(s, g, s.len() as int);
        Some((kind, s.subrange(c, ne), Some((op, s.subrange(g, h)))))
    }
}

/// What parsing `s` yields: the relation, or `None` where `s` is malformed.
pub open spec fn parsed_dependency(s: Seq<char>) -> Option<
    (ModDependencyType, Seq<char>, Option<(ComparatorOp, SemVer)>),
> {
    match dependency_parts(s) {
        None => None,
        Some((kind, name, None)) => Some((kind, name, None)),
        Some((kind, name, Some((op, text)))) => match semver_text(text) {
            None => None,
            Some((major, minor, patch)) => Some(
                (kind, name, Some((op, SemVer { major, minor, patch }))),
            ),
        },
    }
}

fn skip_blank_exec(s: &str, n: usize, i: usize) -> (r: usize)
    requires
        n == s@.len(),
        i <= n,
    ensures
        r == skip_blank(s@, i as int),
        i <= r <= n,
{
    let mut j = i;
    while j < n && (s.get_char(j) == ' ' || s.get_char(j) == '\t')
        invariant
            n == s@.len(),
            i <= j <= n,
            skip_blank(s@, i as int) == skip_blank(s@, j as int),
        decreases n - j,
    {
        j += 1;
    }
    j
}

fn name_end_exec(s: &str, n: usize, i: usize) -> (r: usize)
    requires
        n == s@.len(),
        i <= n,
    ensures
        r == name_end(s@, i as int),
        i <= r <= n,
{
    let mut j = i;
    while j < n && !(s.get_char(j) == '<' || s.get_char(j) == '>' || s.get_char(j) == '=')
        invariant
            n == s@.len(),
            i <= j <= n,
            name_end(s@, i as int) == name_end(s@, j as int),
        decreases n - j,
    {
        j += 1;
    }
    j
}

fn trim_end_exec(s: &str, lo: usize, hi: usize) -> (r: usize)
    requires
        lo <= hi <= s@.len(),
    ensures
        r == trim_end(s@, lo as int, hi as int),
        lo <= r <= hi,
{
    let mut j = hi;
    while j > lo && (s.get_char(j - 1) == ' ' || s.get_char(j - 1) == '\t')
        invariant
            lo <= j <= hi,
            hi <= s@.len(),
            trim_end(s@, lo as int, hi as int) == trim_end(s@, lo as int, j as int),
        decreases j - lo,
    {
        j -= 1;
    }
    j
}

impl ModDependency {
    /// Parses a dependency string: an optional prefix (`!` incompatible, `?`
    /// optional, `(?)` hidden optional, `~` order independent, none for required),
    /// the target name, then optionally a comparator and a version. Blanks between
    /// the parts do not matter.
    pub fn new(raw: &String) -> (r: Result<ModDependency, ModDataErr>)
        ensures
            match parsed_dependency(raw@) {
                None => r is Err && r->Err_0 is MalformedDependency && r->Err_0->MalformedDependency_0@
                    == raw@,
                Some((kind, name, version)) => r is Ok && r->Ok_0.dep_type == kind
                    && r->Ok_0.name@ == name && r->Ok_0.version == version,
            },
    {
        let s = raw.as_str();
        let n = s.unicode_len();
        let a = skip_blank_exec(s, n, 0);
        let (dep_type, b) = if a < n && s.get_char(a) == '!' {
            (ModDependencyType::Incompatible, a + 1)
        } else if a < n && s.get_char(a) == '?' {
            (ModDependencyType::Optional, a + 1)
        } else if a < n && s.get_char(a) == '~' {
            (ModDependencyType::OrderIndependent, a + 1)
        } else if n >= 3 && a < n - 2 && s.get_char(a) == '(' && s.get_char(a + 1) == '?' && s.get_char(a + 2)
            == ')' {
            (ModDependencyType::OptionalHidden, a + 3)
        } else {
            (ModDependencyType::Required, a)
        };
        assert((dep_type, b as int) == prefix_at(s@, a as int));
        let c = skip_blank_exec(s, n, b);
        let e = name_end_exec(s, n, c);
        let ne = trim_end_exec(s, c, e);
        if ne == c {
            return Err(ModDataErr::MalformedDependency(raw.clone()));
        }
        let name = String::from_str(s.substring_char(c, ne));
        if e == n {
            return Ok(ModDependency { name, dep_type, version: None });
        }
        let (op, f) = if s.get_char(e) == '>' {
            if e + 1 < n && s.get_char(e + 1) == '=' {
                (ComparatorOp::GreaterEq, e + 2)
            } else {
                (ComparatorOp::Greater, e + 1)
            }
        } else if s.get_char(e) == '<' {
            if e + 1 < n && s.get_char(e + 1) == '=' {
                (ComparatorOp::LessEq, e + 2)
            } else {
                (ComparatorOp::Less, e + 1)
            }
        } else {
            (ComparatorOp::Eq, e + 1)
        };
        assert((op, f as int) == comparator_at(s@, e as int));
        let g = skip_blank_exec(s, n, f);
        let h = trim_end_exec(s, g, n);
        match parse_semver(s.substring_char(g, h)) {
            Some(v) => Ok(ModDependency { name, dep_type, version: Some((op, v)) }),
            None => Err(ModDataErr::MalformedDependency(raw.clone())),
        }
    }
}

} // verus!
