//! Prefixed ULID identifiers: `task_<ulid>` for tasks and `lrn_<ulid>` for
//! learnings.

use vstd::prelude::*;
use vstd::std_specs::cmp::PartialEqSpecImpl;

verus! {

/// A character of the Crockford base-32 alphabet, in either case.
pub open spec fn is_crockford(c: char) -> bool {
    ||| '0' <= c <= '9'
    ||| ('A' <= c <= 'Z' && c != 'I' && c != 'L' && c != 'O' && c != 'U')
    ||| ('a' <= c <= 'z' && c != 'i' && c != 'l' && c != 'o' && c != 'u')
}

/// The text of a ULID: 26 Crockford characters.
pub open spec fn is_ulid_text(s: Seq<char>) -> bool {
    &&& s.len() == 26
    &&& forall|i: int| 0 <= i < s.len() ==> is_crockford(#[trigger] s[i])
}

/// The prefix of a task identifier.
pub open spec fn task_prefix() -> Seq<char> {
    seq!['t', 'a', 's', 'k', '_']
}

/// The prefix of a learning identifier.
pub open spec fn learning_prefix() -> Seq<char> {
    seq!['l', 'r', 'n', '_']
}

/// What is left of `s` once `prefix` is taken off its front; `s` itself
/// where it does not start with `prefix`.
pub open spec fn without_prefix(s: Seq<char>, prefix: Seq<char>) -> Seq<char> {
    if prefix.is_prefix_of(s) {
        s.skip(prefix.len() as int)
    } else {
        s
    }
}

/// Why a string is not an identifier.
#[derive(Debug, Clone)]
pub enum IdParseError {
    /// The part after the prefix is not a ULID.
    InvalidUlid(String),
    /// The string does not start with the expected prefix.
    MissingPrefix { expected: &'static str, actual: String },
}

impl IdParseError {
    /// The message for the user.
    pub fn message(&self) -> (r: String)
        ensures
            r@ == match *self {
                IdParseError::InvalidUlid(text) => "Invalid ULID format: "@ + text@,
                IdParseError::MissingPrefix { expected, actual } => "Missing prefix: expected '"@
                    + expected@ + "', got '"@ + actual@ + "'"@,
            },
    {
        match self {
            IdParseError::InvalidUlid(text) => String::from_str("Invalid ULID format: ").concat(
                text.as_str(),
            ),
            IdParseError::MissingPrefix { expected, actual } => String::from_str(
                "Missing prefix: expected '",
            ).concat(expected).concat("', got '").concat(actual.as_str()).concat("'"),
        }
    }
}

/// Calls `ulid::Ulid::from_string` and reports whether it accepted the text.
/// The decoder accepts exactly the strings of 26 bytes that are all Crockford
/// base-32 digits, upper or lower case; it does not look at the value.
#[verifier::external_body]
fn validate_ulid(s: &str) -> (ok: bool)
    ensures
        ok == is_ulid_text(s@),
{
    ulid::Ulid::from_string(s).is_ok()
}

/// Calls `ulid::Ulid::new` and renders the result. Whatever value was
/// generated, its text is 26 characters of the upper-case Crockford alphabet.
#[verifier::external_body]
fn fresh_ulid() -> (s: String)
    ensures
        is_ulid_text(s@),
{
    ulid::Ulid::new().to_string()
}

/// Whether `s` starts with `prefix`.
fn starts_with(s: &str, prefix: &str) -> (r: bool)
    ensures
        r == prefix@.is_prefix_of(s@),
{
    let n = prefix.unicode_len();
    if s.unicode_len() < n {
        return false;
    }
    let mut i: usize = 0;
    while i < n
        invariant
            i <= n,
            n == prefix@.len(),
            n <= s@.len(),
            forall|j: int| 0 <= j < i ==> s@[j] == prefix@[j],
        decreases n - i,
    {
        if s.get_char(i) != prefix.get_char(i) {
            assert(s@.subrange(0, n as int)[i as int] != prefix@[i as int]);
            return false;
        }
        i += 1;
    }
    assert(s@.subrange(0, n as int) =~= prefix@);
    true
}

/// The text of `s` after its first `n` characters.
fn skip_chars(s: &str, n: usize) -> (r: &str)
    requires
        n <= s@.len(),
    ensures
        r@ == s@.skip(n as int),
{
    let len = s.unicode_len();
    s.substring_char(n, len)
}

/// Identifier of a task: the prefix `task_` followed by a ULID.
#[derive(Debug, Hash)]
pub struct TaskId(String);

impl View for TaskId {
    type V = Seq<char>;

    closed spec fn view(&self) -> Seq<char> {
        self.0@
    }
}

impl TaskId {
    /// Whether `s` has the shape of a task identifier.
    pub open spec fn is_well_formed(s: Seq<char>) -> bool {
        &&& task_prefix().is_prefix_of(s)
        &&& is_ulid_text(s.skip(task_prefix().len() as int))
    }

    /// A fresh identifier.
    pub fn new() -> (id: TaskId)
        ensures
            TaskId::is_well_formed(id@),
    {
        let ulid = fresh_ulid();
        TaskId::from_raw_ulid(ulid)
    }

    /// The identifier with the given ULID text.
    pub fn from_raw_ulid(ulid: String) -> (id: TaskId)
        ensures
            id@ == task_prefix() + ulid@,
    {
        proof {
            reveal_strlit("task_");
        }
        let s = String::from_str("task_").concat(ulid.as_str());
        assert(s@ =~= task_prefix() + ulid@);
        TaskId(s)
    }

    /// The identifier that holds `s` as it stands, whatever its shape.
    pub fn from_stored(s: String) -> (id: TaskId)
        ensures
            id@ == s@,
    {
        TaskId(s)
    }

    /// The ULID part, without the prefix.
    pub fn ulid_part(&self) -> (r: &str)
        ensures
            r@ == without_prefix(self@, task_prefix()),
    {
        proof {
            reveal_strlit("task_");
        }
        assert("task_"@ =~= task_prefix());
        if starts_with(self.0.as_str(), "task_") {
            skip_chars(self.0.as_str(), 5)
        } else {
            self.0.as_str()
        }
    }

    /// The full text, with the prefix.
    pub fn as_str(&self) -> (r: &str)
        ensures
            r@ == self@,
    {
        self.0.as_str()
    }

    /// The full text as an owned string.
    pub fn to_string(&self) -> (r: String)
        ensures
            r@ == self@,
    {
        self.0.clone()
    }

    /// Reads an identifier: `Ok` exactly for the prefix followed by a ULID.
    pub fn parse(s: &str) -> (r: Result<TaskId, IdParseError>)
        ensures
            TaskId::is_well_formed(s@) <==> r is Ok,
            r matches Ok(id) ==> id@ == s@,
            r matches Err(e) ==> ((e is MissingPrefix) <==> !task_prefix().is_prefix_of(s@)),
            r matches Err(IdParseError::MissingPrefix { expected, actual }) ==> expected@
                == task_prefix() && actual@ == s@,
            r matches Err(IdParseError::InvalidUlid(text)) ==> text@ == s@.skip(5),
    {
        proof {
            reveal_strlit("task_");
        }
        assert("task_"@ =~= task_prefix());
        if !starts_with(s, "task_") {
            return Err(
                IdParseError::MissingPrefix { expected: "task_", actual: String::from_str(s) },
            );
        }
        let ulid = skip_chars(s, 5);
        if !validate_ulid(ulid) {
            return Err(IdParseError::InvalidUlid(String::from_str(ulid)));
        }
        let id = TaskId::from_raw_ulid(String::from_str(ulid));
        assert(id@ =~= s@);
        Ok(id)
    }
}

impl Clone for TaskId {
    fn clone(&self) -> (r: Self)
        ensures
            r == *self,
    {
        TaskId(self.0.clone())
    }
}

impl PartialEq for TaskId {
    fn eq(&self, other: &Self) -> (r: bool) {
        self.0 == other.0
    }
}

impl Eq for TaskId {}

impl PartialEqSpecImpl for TaskId {
    open spec fn obeys_eq_spec() -> bool {
        true
    }

    open spec fn eq_spec(&self, other: &Self) -> bool {
        self@ == other@
    }
}

/// Identifier of a learning: the prefix `lrn_` followed by a ULID.
#[derive(Debug, Hash)]
pub struct LearningId(String);

impl View for LearningId {
    type V = Seq<char>;

    closed spec fn view(&self) -> Seq<char> {
        self.0@
    }
}

impl LearningId {
    /// Whether `s` has the shape of a learning identifier.
    pub open spec fn is_well_formed(s: Seq<char>) -> bool {
        &&& learning_prefix().is_prefix_of(s)
        &&& is_ulid_text(s.skip(learning_prefix().len() as int))
    }

    /// A fresh identifier.
    pub fn new() -> (id: LearningId)
        ensures
            LearningId::is_well_formed(id@),
    {
        let ulid = fresh_ulid();
        LearningId::from_raw_ulid(ulid)
    }

    /// The identifier with the given ULID text.
    pub fn from_raw_ulid(ulid: String) -> (id: LearningId)
        ensures
            id@ == learning_prefix() + ulid@,
    {
        proof {
            reveal_strlit("lrn_");
        }
        let s = String::from_str("lrn_").concat(ulid.as_str());
        assert(s@ =~= learning_prefix() + ulid@);
        LearningId(s)
    }

    /// The identifier that holds `s` as it stands, whatever its shape.
    pub fn from_stored(s: String) -> (id: LearningId)
        ensures
            id@ == s@,
    {
        LearningId(s)
    }

    /// The ULID part, without the prefix.
    pub fn ulid_part(&self) -> (r: &str)
        ensures
            r@ == without_prefix(self@, learning_prefix()),
    {
        proof {
            reveal_strlit("lrn_");
        }
        assert("lrn_"@ =~= learning_prefix());
        if starts_with(self.0.as_str(), "lrn_") {
            skip_chars(self.0.as_str(), 4)
        } else {
            self.0.as_str()
        }
    }

    /// The full text, with the prefix.
    pub fn as_str(&self) -> (r: &str)
        ensures
            r@ == self@,
    {
        self.0.as_str()
    }

    /// The full text as an owned string.
    pub fn to_string(&self) -> (r: String)
        ensures
            r@ == self@,
    {
        self.0.clone()
    }

    /// Reads an identifier: `Ok` exactly for the prefix followed by a ULID.
    pub fn parse(s: &str) -> (r: Result<LearningId, IdParseError>)
        ensures
            LearningId::is_well_formed(s@) <==> r is Ok,
            r matches Ok(id) ==> id@ == s@,
            r matches Err(e) ==> ((e is MissingPrefix) <==> !learning_prefix().is_prefix_of(s@)),
            r matches Err(IdParseError::MissingPrefix { expected, actual }) ==> expected@
                == learning_prefix() && actual@ == s@,
            r matches Err(IdParseError::InvalidUlid(text)) ==> text@ == s@.skip(4),
    {
        proof {
            reveal_strlit("lrn_");
        }
        assert("lrn_"@ =~= learning_prefix());
        if !starts_with(s, "lrn_") {
            return Err(
                IdParseError::MissingPrefix { expected: "lrn_", actual: String::from_str(s) },
            );
        }
        let ulid = skip_chars(s, 4);
        if !validate_ulid(ulid) {
            return Err(IdParseError::InvalidUlid(String::from_str(ulid)));
        }
        let id = LearningId::from_raw_ulid(String::from_str(ulid));
        assert(id@ =~= s@);
        Ok(id)
    }
}

impl Clone for LearningId {
    fn clone(&self) -> (r: Self)
        ensures
            r == *self,
    {
        LearningId(self.0.clone())
    }
}

impl PartialEq for LearningId {
    fn eq(&self, other: &Self) -> (r: bool) {
        self.0 == other.0
    }
}

impl Eq for LearningId {}

impl PartialEqSpecImpl for LearningId {
    open spec fn obeys_eq_spec() -> bool {
        true
    }

    open spec fn eq_spec(&self, other: &Self) -> bool {
        self@ == other@
    }
}

impl Default for TaskId {
    /// A fresh identifier.
    fn default() -> (id: TaskId)
        ensures
            TaskId::is_well_formed(id@),
    {
        TaskId::new()
    }
}

impl Default for LearningId {
    /// A fresh identifier.
    fn default() -> (id: LearningId)
        ensures
            LearningId::is_well_formed(id@),
    {
        LearningId::new()
    }
}

impl std::str::FromStr for TaskId {
    type Err = IdParseError;

    /// Reads an identifier as `TaskId::parse` does.
    fn from_str(s: &str) -> (r: Result<TaskId, IdParseError>)
        ensures
            TaskId::is_well_formed(s@) <==> r is Ok,
            r matches Ok(id) ==> id@ == s@,
            r matches Err(e) ==> ((e is MissingPrefix) <==> !task_prefix().is_prefix_of(s@)),
            r matches Err(IdParseError::MissingPrefix { expected, actual }) ==> expected@
                == task_prefix() && actual@ == s@,
            r matches Err(IdParseError::InvalidUlid(text)) ==> text@ == s@.skip(5),
    {
        TaskId::parse(s)
    }
}

impl std::str::FromStr for LearningId {
    type Err = IdParseError;

    /// Reads an identifier as `LearningId::parse` does.
    fn from_str(s: &str) -> (r: Result<LearningId, IdParseError>)
        ensures
            LearningId::is_well_formed(s@) <==> r is Ok,
            r matches Ok(id) ==> id@ == s@,
            r matches Err(e) ==> ((e is MissingPrefix) <==> !learning_prefix().is_prefix_of(s@)),
            r matches Err(IdParseError::MissingPrefix { expected, actual }) ==> expected@
                == learning_prefix() && actual@ == s@,
            r matches Err(IdParseError::InvalidUlid(text)) ==> text@ == s@.skip(4),
    {
        LearningId::parse(s)
    }
}

} // verus!
