use vstd::prelude::*;

verus! {

/// The value type of a VCF header information field.
#[derive(Clone, Copy, Debug, PartialEq, Eq, Hash, Structural)]
pub enum Type {
    /// A 32-bit integer.
    Integer,
    /// A single-precision floating-point number.
    Float,
    /// A boolean.
    Flag,
    /// A character.
    Character,
    /// A string.
    String,
}

/// The error returned for a name that is not one of the five types; it
/// holds the name that was given.
#[derive(Clone, Debug, PartialEq, Eq)]
pub struct ParseError(pub String);

/// The type whose name is `s`, if any.
pub open spec fn type_named(s: Seq<char>) -> Option<Type> {
    if s == "Integer"@ {
        Some(Type::Integer)
    } else if s == "Float"@ {
        Some(Type::Float)
    } else if s == "Flag"@ {
        Some(Type::Flag)
    } else if s == "Character"@ {
        Some(Type::Character)
    } else if s == "String"@ {
        Some(Type::String)
    } else {
        None
    }
}

impl Type {
    /// The name of the type as it stands in a header.
    pub open spec fn name(self) -> Seq<char> {
        match self {
            Type::Integer => "Integer"@,
            Type::Float => "Float"@,
            Type::Flag => "Flag"@,
            Type::Character => "Character"@,
            Type::String => "String"@,
        }
    }

    /// The name of the type as it stands in a header.
    pub fn as_str(&self) -> (r: &'static str)
        ensures
            r@ == self.name(),
    {
        match self {
            Type::Integer => "Integer",
            Type::Float => "Float",
            Type::Flag => "Flag",
            Type::Character => "Character",
            Type::String => "String",
        }
    }

    /// The name of the type, owned.
    pub fn to_string(&self) -> (r: String)
        ensures
            r@ == self.name(),
    {
        self.as_str().to_owned()
    }

    /// The type with the given name; any other text is an error that holds it.
    pub fn from_name(s: &str) -> (r: Result<Type, ParseError>)
        ensures
            type_named(s@) matches Some(t) ==> r == Ok::<Type, ParseError>(t),
            type_named(s@) is None ==> (r matches Err(e) && e.0@ == s@),
    {
        let given = s.to_owned();
        if given == "Integer".to_owned() {
            Ok(Type::Integer)
        } else if given == "Float".to_owned() {
            Ok(Type::Float)
        } else if given == "Flag".to_owned() {
            Ok(Type::Flag)
        } else if given == "Character".to_owned() {
            Ok(Type::Character)
        } else if given == "String".to_owned() {
            Ok(Type::String)
        } else {
            Err(ParseError(given))
        }
    }
}

impl Default for Type {
    fn default() -> (r: Type)
        ensures
            r == Type::String,
    {
        Type::String
    }
}

impl std::str::FromStr for Type {
    type Err = ParseError;

    fn from_str(s: &str) -> (r: Result<Type, ParseError>)
        ensures
            type_named(s@) matches Some(t) ==> r == Ok::<Type, ParseError>(t),
            type_named(s@) is None ==> (r matches Err(e) && e.0@ == s@),
    {
        Type::from_name(s)
    }
}

} // verus!
