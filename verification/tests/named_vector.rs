use compilation::code_size::CodeVector;

fn ops(entries: &[(&str, usize)]) -> Vec<(String, usize)> {
    entries.iter().map(|(k, v)| (String::from(*k), *v)).collect()
}

#[test]
fn constant_attribute_test() {
    assert_eq!(CodeVector::new(), CodeVector::new());
    assert_ne!(CodeVector::builtin_bool(), CodeVector::new());
    assert_eq!(CodeVector::builtin_bool(), CodeVector::builtin_bool());
}

#[test]
fn multiple_constant_attributes_test() {
    assert_eq!(CodeVector::new(), CodeVector::new());
    assert_eq!(CodeVector::builtin_bool(), CodeVector::builtin_bool());
    assert_eq!(CodeVector::builtin_int(), CodeVector::builtin_int());
    assert_eq!(
        CodeVector::operator(String::from("-")),
        CodeVector::operator(String::from("-"))
    );
    assert_eq!(
        CodeVector::operator(String::from("<")),
        CodeVector::operator(String::from("<"))
    );

    assert_ne!(CodeVector::new(), CodeVector::builtin_bool());
    assert_ne!(CodeVector::builtin_bool(), CodeVector::builtin_int());
    assert_ne!(
        CodeVector::operator(String::from("-")),
        CodeVector::operator(String::from("<"))
    );
    assert_ne!(CodeVector::operator(String::from("-")), CodeVector::new());
    assert_ne!(CodeVector::builtin_bool(), CodeVector::operator(String::from("<")));
    assert_ne!(CodeVector::builtin_int(), CodeVector::new());
}

#[test]
fn test_constant_add() {
    let a = CodeVector {
        builtin_bool: 1,
        builtin_int: 2,
        builtin_fn: 3,
        operators: ops(&[("+", 8), ("*", 12), ("--", 2)]),
        ..CodeVector::new()
    };
    let b = CodeVector {
        builtin_bool: 4,
        builtin_int: 5,
        builtin_fn: 6,
        operators: ops(&[("+", 6), ("<=>", 1)]),
        ..CodeVector::new()
    };
    let c = CodeVector {
        builtin_bool: 5,
        builtin_int: 7,
        builtin_fn: 9,
        operators: ops(&[("+", 14), ("*", 12), ("--", 2), ("<=>", 1)]),
        ..CodeVector::new()
    };
    assert_eq!(a.add(b), c)
}

#[test]
fn test_multiplication() {
    let a = CodeVector {
        builtin_bool: 8,
        builtin_int: 6,
        operators: ops(&[("<=>", 3), ("--", 2)]),
        ..CodeVector::new()
    };
    let b = 2;
    let c = CodeVector {
        builtin_bool: 16,
        builtin_int: 12,
        operators: ops(&[("<=>", 6), ("--", 4)]),
        ..CodeVector::new()
    };
    assert_eq!(a.scale(b), c)
}

#[test]
fn test_dot_product() {
    let a = CodeVector {
        builtin_bool: 8,
        builtin_int: 6,
        operators: ops(&[("<=>", 3), ("--", 2)]),
        ..CodeVector::new()
    };
    let b = CodeVector {
        builtin_bool: 3,
        builtin_int: 5,
        operators: ops(&[("+", 14), ("*", 12), ("--", 2), ("<=>", 1)]),
        ..CodeVector::new()
    };
    let c = 61;
    assert_eq!(a.dot(b), c)
}

#[test]
fn test_sum() {
    let a = CodeVector {
        builtin_bool: 8,
        builtin_int: 6,
        operators: ops(&[("<=>", 3), ("--", 2)]),
        ..CodeVector::new()
    };
    let b = CodeVector {
        builtin_bool: 3,
        builtin_int: 5,
        operators: ops(&[("+", 14), ("*", 12), ("--", 2), ("<=>", 1)]),
        ..CodeVector::new()
    };
    let c = CodeVector {
        builtin_bool: 5,
        builtin_int: 7,
        operators: ops(&[("<>", 14), ("--", 2)]),
        ..CodeVector::new()
    };
    assert_eq!(
        CodeVector::sum(vec![a.copy(), b.copy(), c.copy()]),
        a.add(b).add(c)
    )
}

#[test]
fn sum_of_nothing_is_the_zero_vector() {
    assert_eq!(CodeVector::sum(Vec::new()), CodeVector::new());
}

#[test]
fn equality_ignores_the_order_of_operators() {
    let a = CodeVector { operators: ops(&[("+", 1), ("-", 2)]), ..CodeVector::new() };
    let b = CodeVector { operators: ops(&[("-", 2), ("+", 1)]), ..CodeVector::new() };
    assert_eq!(a, b);
    let c = CodeVector { operators: ops(&[("-", 2), ("+", 1), ("*", 0)]), ..CodeVector::new() };
    assert_ne!(a, c);
}

#[test]
fn test_to_string() {
    let mut vector = CodeVector::new();
    vector.builtin_bool = 3;
    vector.builtin_int = 9;
    vector.operators = ops(&[("j", 10), ("a", 12), ("c", 10)]);
    assert_eq!(
        vector.to_string(),
        "builtin_bool\tbuiltin_int\tbuiltin_fn\tmemory_access\ttuple_expression\telement_access\tvalue_expression\tfn_call\tctor_call\tlambda\tassignment\tif_statement\tmatch_statement\ta\tc\tj\n3\t9\t0\t0\t0\t0\t0\t0\t0\t0\t0\t0\t0\t12\t10\t10"
    )
}

#[test]
fn operators_are_sorted_by_their_characters() {
    let sorted = compilation::code_size::sorted_operators(&ops(&[("<=", 1), ("<", 2), ("**", 3), ("*", 4), ("!=", 5)]));
    let names: Vec<&str> = sorted.iter().map(|(k, _)| k.as_str()).collect();
    assert_eq!(names, vec!["!=", "*", "**", "<", "<="]);
}
