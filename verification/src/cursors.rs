//! Named log cursors: validated cursor names with their blob paths, and the
//! cursor / witness value types the cursor store trades in.

use vstd::prelude::*;
use vstd::string::StrSliceExecFns;

verus! {

/// A character a cursor name may hold: ASCII alphanumeric or underscore.
pub open spec fn is_name_char(c: char) -> bool {
    ('a' <= c && c <= 'z') || ('A' <= c && c <= 'Z') || ('0' <= c && c <= '9') || c == '_'
}

/// A valid cursor name: non-empty, every character alphanumeric or
/// underscore.
pub open spec fn valid_name(s: Seq<char>) -> bool {
    s.len() > 0 && forall|i: int| 0 <= i < s.len() ==> is_name_char(#[trigger] s[i])
}

/// The blob path a cursor name maps to.
pub open spec fn path_of(name: Seq<char>) -> Seq<char> {
    "cursor/"@ + name + ".json"@
}

/// True when `p` is the path of some valid cursor name.
pub open spec fn path_parses(p: Seq<char>) -> bool {
    &&& p.len() >= 12
    &&& p.subrange(0, 7) == "cursor/"@
    &&& p.subrange(p.len() - 5, p.len() as int) == ".json"@
    &&& valid_name(p.subrange(7, p.len() - 5))
}

/// Law: rendering a valid name to its path and parsing the path back yields
/// the name itself.
pub proof fn lemma_path_round_trip(name: Seq<char>)
    requires
        valid_name(name),
    ensures
        path_parses(path_of(name)),
        path_of(name).subrange(7, path_of(name).len() - 5) == name,
{
    reveal_strlit("cursor/");
    reveal_strlit(".json");
    let p = path_of(name);
    assert(p.len() == name.len() + 12);
    assert(p.subrange(0, 7) =~= "cursor/"@);
    assert(p.subrange(p.len() - 5, p.len() as int) =~= ".json"@);
    assert(p.subrange(7, p.len() - 5) =~= name);
}

/// A validated cursor name, mapping bijectively to the blob path
/// `cursor/<name>.json`.
pub struct CursorName {
    name: String,
}

impl View for CursorName {
    type V = Seq<char>;

    closed spec fn view(&self) -> Seq<char> {
        self.name@
    }
}

impl CursorName {
    /// Checks one character of a name.
    fn check_name_char(c: char) -> (r: bool)
        ensures
            r == is_name_char(c),
    {
        (c >= 'a' && c <= 'z') || (c >= 'A' && c <= 'Z') || (c >= '0' && c <= '9') || c == '_'
    }

    /// The validation predicate: non-empty, ASCII alphanumeric or
    /// underscore throughout.
    pub fn validate(name: &str) -> (r: bool)
        ensures
            r == valid_name(name@),
    {
        let n = name.unicode_len();
        if n == 0 {
            return false;
        }
        let mut i: usize = 0;
        while i < n
            invariant
                0 <= i <= n,
                n == name@.len(),
                forall|j: int| 0 <= j < i ==> is_name_char(#[trigger] name@[j]),
            decreases n - i,
        {
            let c = name.get_char(i);
            if !Self::check_name_char(c) {
                return false;
            }
            i = i + 1;
        }
        true
    }

    /// Validates and wraps a name; none if the name is not a valid cursor
    /// name.
    pub fn new(name: &str) -> (r: Option<CursorName>)
        ensures
            r is Some <==> valid_name(name@),
            r is Some ==> r->Some_0@ == name@,
    {
        if Self::validate(name) {
            Some(CursorName { name: name.to_owned() })
        } else {
            None
        }
    }

    /// Wraps a name without checking it. The caller guarantees validity;
    /// reserved for call sites that can establish it structurally.
    pub fn from_string_unchecked(name: &str) -> (r: CursorName)
        requires
            valid_name(name@),
        ensures
            r@ == name@,
    {
        CursorName { name: name.to_owned() }
    }

    pub fn is_valid(&self) -> (r: bool)
        ensures
            r == valid_name(self@),
    {
        Self::validate(self.name.as_str())
    }

    /// The wrapped name.
    pub fn as_str(&self) -> (r: &str)
        ensures
            r@ == self@,
    {
        self.name.as_str()
    }

    /// The blob path of this cursor: `cursor/<name>.json`.
    pub fn path(&self) -> (r: String)
        ensures
            r@ == path_of(self@),
    {
        let mut p = String::from_str("cursor/");
        p.append(self.name.as_str());
        p.append(".json");
        proof {
            assert(p@ =~= path_of(self@));
        }
        p
    }

    /// The exact inverse of `path`: parses `cursor/<name>.json` back to the
    /// validated name, none when the shape or the name is wrong.
    pub fn from_path(path: &str) -> (r: Option<CursorName>)
        ensures
            r is Some <==> path_parses(path@),
            r is Some ==> r->Some_0@ == path@.subrange(7, path@.len() - 5),
    {
        proof {
            reveal_strlit("cursor/");
            reveal_strlit(".json");
        }
        let n = path.unicode_len();
        if n < 12 {
            return None;
        }
        let prefix = "cursor/";
        let mut i: usize = 0;
        while i < 7
            invariant
                0 <= i <= 7,
                n == path@.len(),
                n >= 12,
                prefix@ == "cursor/"@,
                prefix@.len() == 7,
                forall|j: int| 0 <= j < i ==> path@[j] == prefix@[j],
            decreases 7 - i,
        {
            if path.get_char(i) != prefix.get_char(i) {
                proof {
                    assert(path@.subrange(0, 7)[i as int] != "cursor/"@[i as int]);
                }
                return None;
            }
            i = i + 1;
        }
        let suffix = ".json";
        let mut j: usize = 0;
        while j < 5
            invariant
                0 <= j <= 5,
                n == path@.len(),
                n >= 12,
                suffix@ == ".json"@,
                suffix@.len() == 5,
                forall|m: int| 0 <= m < j ==> path@[n - 5 + m] == suffix@[m],
            decreases 5 - j,
        {
            if path.get_char(n - 5 + j) != suffix.get_char(j) {
                proof {
                    assert(path@.subrange(n - 5, n as int)[j as int] != ".json"@[j as int]);
                }
                return None;
            }
            j = j + 1;
        }
        proof {
            assert(path@.subrange(0, 7) =~= "cursor/"@);
            assert(path@.subrange(n - 5, n as int) =~= ".json"@);
        }
        let middle = path.substring_char(7, n - 5);
        let r = Self::new(middle);
        proof {
            assert(middle@ == path@.subrange(7, n - 5));
        }
        r
    }
}

/// An opaque, totally ordered, monotonic log offset.
#[derive(Clone, Copy, PartialEq, Eq, Debug)]
pub struct LogPosition {
    pub offset: u64,
}

/// A durable cursor value: a log position, the wall-clock time of the write
/// in microseconds, and the identity of the writer that performed it.
#[derive(Debug)]
pub struct Cursor {
    pub position: LogPosition,
    pub epoch_us: u64,
    pub writer: String,
}

impl Cursor {
    /// A copy with the same fields.
    pub fn duplicate(&self) -> (r: Self)
        ensures
            r.position == self.position,
            r.epoch_us == self.epoch_us,
            r.writer@ == self.writer@,
    {
        Cursor {
            position: self.position,
            epoch_us: self.epoch_us,
            writer: self.writer.clone(),
        }
    }
}

/// A version token reported by the blob backend: identifies the exact
/// content version of a stored blob, opaque beyond equality.
#[derive(Clone, Debug)]
pub struct ETag {
    pub tag: String,
}

/// A cursor paired with the version token observed when it was read or
/// written: the capability required for a subsequent conditional update.
#[derive(Debug)]
pub struct Witness {
    pub e_tag: ETag,
    pub cursor: Cursor,
}

impl Witness {
    pub fn cursor(&self) -> (r: &Cursor)
        ensures
            r == &self.cursor,
    {
        &self.cursor
    }
}

} // verus!
