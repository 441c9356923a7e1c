use ironcc::types::{pointee_of, size_of, Type};

#[test]
fn size_of_scalars() {
    assert_eq!(size_of(&Type::Int), Some(4));
    assert_eq!(size_of(&Type::Ptr(Box::new(Type::Int))), Some(8));
}

#[test]
fn size_of_arrays_multiplies() {
    let a = Type::Array(Box::new(Type::Int), 3);
    assert_eq!(size_of(&a), Some(12));
    let b = Type::Array(Box::new(Type::Array(Box::new(Type::Int), 3)), 2);
    assert_eq!(size_of(&b), Some(24));
    let empty = Type::Array(Box::new(Type::Int), 0);
    assert_eq!(size_of(&empty), Some(0));
}

#[test]
fn size_of_function_has_none() {
    let f = Type::Func(Box::new(Type::Int), vec![Type::Int], vec!["x".to_string()]);
    assert_eq!(size_of(&f), None);
    let arr = Type::Array(Box::new(f), 2);
    assert_eq!(size_of(&arr), None);
}

#[test]
fn size_of_too_large_is_none() {
    let big = Type::Array(Box::new(Type::Array(Box::new(Type::Int), u32::MAX)), u32::MAX);
    assert_eq!(size_of(&big), None);
}

#[test]
fn duplicate_keeps_type() {
    let f = Type::Func(
        Box::new(Type::Ptr(Box::new(Type::Int))),
        vec![Type::Int, Type::Array(Box::new(Type::Int), 4)],
        vec!["a".to_string(), "b".to_string()],
    );
    assert_eq!(f.duplicate(), f);
}

#[test]
fn equals_is_structural_and_ignores_parameter_names() {
    let f1 = Type::Func(Box::new(Type::Int), vec![Type::Int], vec!["a".to_string()]);
    let f2 = Type::Func(Box::new(Type::Int), vec![Type::Int], vec!["b".to_string()]);
    let f3 = Type::Func(Box::new(Type::Int), vec![Type::Ptr(Box::new(Type::Int))], vec!["a".to_string()]);
    assert!(f1.equals(&f2));
    assert!(!f1.equals(&f3));
    assert!(Type::Array(Box::new(Type::Int), 3).equals(&Type::Array(Box::new(Type::Int), 3)));
    assert!(!Type::Array(Box::new(Type::Int), 3).equals(&Type::Array(Box::new(Type::Int), 4)));
    assert!(!Type::Int.equals(&Type::Ptr(Box::new(Type::Int))));
    assert_eq!(pointee_of(&Type::Ptr(Box::new(Type::Int))), Some(Type::Int));
    assert_eq!(pointee_of(&Type::Array(Box::new(Type::Ptr(Box::new(Type::Int))), 2)), Some(Type::Ptr(Box::new(Type::Int))));
    assert_eq!(pointee_of(&Type::Int), None);
}
