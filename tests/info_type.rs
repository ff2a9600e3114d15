use noodles::info_type::{ParseError, Type};

#[test]
fn test_default() {
    assert_eq!(Type::default(), Type::String);
}

#[test]
fn ty_test_fmt() {
    assert_eq!(Type::Integer.to_string(), "Integer");
    assert_eq!(Type::Float.to_string(), "Float");
    assert_eq!(Type::Flag.to_string(), "Flag");
    assert_eq!(Type::Character.to_string(), "Character");
    assert_eq!(Type::String.to_string(), "String");
}

#[test]
fn ty_test_from_str() {
    assert_eq!("Integer".parse::<Type>(), Ok(Type::Integer));
    assert_eq!("Float".parse(), Ok(Type::Float));
    assert_eq!("Flag".parse(), Ok(Type::Flag));
    assert_eq!("Character".parse(), Ok(Type::Character));
    assert_eq!("String".parse(), Ok(Type::String));

    assert_eq!("".parse::<Type>(), Err(ParseError(String::new())));
    assert_eq!(
        "Noodles".parse::<Type>(),
        Err(ParseError(String::from("Noodles")))
    );
}

#[test]
fn info_type_names_are_case_sensitive() {
    assert_eq!(Type::from_name("integer"), Err(ParseError(String::from("integer"))));
    assert_eq!(Type::Flag.as_str(), "Flag");
}
