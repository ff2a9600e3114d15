use vstd::prelude::*;
use vstd::string::StringSliceAdditionalSpecFns;
use vstd::utf8::encode_utf8;

verus! {

/// Longest read name allowed.
pub const MAX_LENGTH: usize = 254;

/// A printable ASCII character other than `@`.
pub open spec fn is_valid_name_char_spec(b: u8) -> bool {
    0x21 <= b <= 0x7e && b != 0x40
}

/// Between 1 and 254 valid characters, and not the lone `*` that marks a
/// missing name.
pub open spec fn is_valid_name_spec(buf: Seq<u8>) -> bool {
    &&& buf != seq![0x2au8]
    &&& buf.len() <= MAX_LENGTH
    &&& forall|i: int| 0 <= i < buf.len() ==> is_valid_name_char_spec(#[trigger] buf[i])
}

/// A SAM record read name (also called a query name).
#[derive(Clone, Debug, PartialEq, Eq)]
pub struct ReadName(String);

/// The error returned when a raw read name fails to parse.
#[derive(Clone, Copy, Debug, PartialEq, Eq, Structural)]
pub enum ParseError {
    /// The input is empty.
    Empty,
    /// The input is invalid.
    Invalid,
}

impl ParseError {
    /// A short description of the error.
    pub fn as_str(&self) -> (r: &'static str)
        ensures
            *self == ParseError::Empty ==> r@ == "empty input"@,
            *self == ParseError::Invalid ==> r@ == "invalid input"@,
    {
        match self {
            ParseError::Empty => "empty input",
            ParseError::Invalid => "invalid input",
        }
    }
}

/// Whether `b` may stand in a read name.
pub fn is_valid_name_char(b: u8) -> (r: bool)
    ensures
        r == is_valid_name_char_spec(b),
{
    0x21 <= b && b <= 0x7e && b != 0x40
}

/// Whether `buf` is a valid read name.
pub fn is_valid_name(buf: &[u8]) -> (r: bool)
    ensures
        r == is_valid_name_spec(buf@),
{
    if buf.len() > MAX_LENGTH {
        return false;
    }
    if buf.len() == 1 && buf[0] == 0x2a {
        assert(buf@ =~= seq![0x2au8]);
        return false;
    }
    let mut i: usize = 0;
    while i < buf.len()
        invariant
            i <= buf@.len(),
            forall|j: int| 0 <= j < i ==> is_valid_name_char_spec(#[trigger] buf@[j]),
        decreases buf@.len() - i,
    {
        if !is_valid_name_char(buf[i]) {
            return false;
        }
        i = i + 1;
    }
    true
}

impl ReadName {
    pub closed spec fn view(&self) -> Seq<char> {
        self.0@
    }

    /// Parses a read name: an empty input is `Empty`, one that is not a
    /// valid name is `Invalid`.
    pub fn from_name(s: &str) -> (r: Result<ReadName, ParseError>)
        ensures
            s@.len() == 0 ==> r == Err::<ReadName, ParseError>(ParseError::Empty),
            s@.len() > 0 && !is_valid_name_spec(s.spec_bytes()) ==> r == Err::<
                ReadName,
                ParseError,
            >(ParseError::Invalid),
            s@.len() > 0 && is_valid_name_spec(s.spec_bytes()) ==> r is Ok,
            r matches Ok(n) ==> n.view() == s@,
    {
        if s.is_empty() {
            Err(ParseError::Empty)
        } else if !is_valid_name(s.as_bytes()) {
            Err(ParseError::Invalid)
        } else {
            Ok(ReadName(s.to_owned()))
        }
    }

    /// The name as text.
    pub fn as_str(&self) -> (r: &str)
        ensures
            r@ == self.view(),
    {
        self.0.as_str()
    }

    /// The name's bytes.
    pub fn as_bytes(&self) -> (r: &[u8])
        ensures
            r@ == encode_utf8(self.view()),
    {
        self.0.as_str().as_bytes()
    }

    /// The name, owned.
    pub fn to_string(&self) -> (r: String)
        ensures
            r@ == self.view(),
    {
        self.0.clone()
    }
}

impl std::str::FromStr for ReadName {
    type Err = ParseError;

    fn from_str(s: &str) -> (r: Result<ReadName, ParseError>)
        ensures
            s@.len() == 0 ==> r == Err::<ReadName, ParseError>(ParseError::Empty),
            s@.len() > 0 && !is_valid_name_spec(s.spec_bytes()) ==> r == Err::<
                ReadName,
                ParseError,
            >(ParseError::Invalid),
            s@.len() > 0 && is_valid_name_spec(s.spec_bytes()) ==> r is Ok,
            r matches Ok(n) ==> n.view() == s@,
    {
        ReadName::from_name(s)
    }
}

} // verus!
