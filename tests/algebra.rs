use expr_eval::values::Value;

#[test]
fn lift_to_complex() {
    assert_eq!(Value::Natural(5).complex(), Value::Complex(5, 0));
    assert_eq!(Value::Imaginary(5).complex(), Value::Complex(0, 5));
    assert_eq!(Value::Complex(1, 2).complex(), Value::Complex(1, 2));
    assert_eq!(Value::Undefined.complex(), Value::Undefined);
}

#[test]
fn canonical_form() {
    assert_eq!(Value::Complex(5, 0).simple(), Value::Natural(5));
    assert_eq!(Value::Complex(0, 5).simple(), Value::Imaginary(5));
    assert_eq!(Value::Complex(0, 0).simple(), Value::Natural(0));
    assert_eq!(Value::Complex(1, 2).simple(), Value::Complex(1, 2));
    assert_eq!(Value::Imaginary(3).simple(), Value::Imaginary(3));
}

#[test]
fn addition_and_subtraction() {
    assert_eq!(Value::Natural(1) + Value::Imaginary(1), Value::Complex(1, 1));
    assert_eq!(Value::Complex(1, 1) - Value::Imaginary(1), Value::Natural(1));
    assert_eq!(Value::Complex(1, 1) - Value::Natural(1), Value::Imaginary(1));
    assert_eq!(Value::Natural(i32::MAX) + Value::Natural(1), Value::Undefined);
    assert_eq!(Value::Natural(i32::MIN) - Value::Natural(1), Value::Undefined);
}

#[test]
fn multiplication() {
    assert_eq!(Value::Imaginary(2) * Value::Imaginary(3), Value::Natural(-6));
    assert_eq!(Value::Complex(1, 2) * Value::Complex(3, 4), Value::Complex(-5, 10));
    assert_eq!(Value::Complex(1, 1) * Value::Complex(1, -1), Value::Natural(2));
    assert_eq!(
        Value::Complex(i32::MIN, i32::MIN) * Value::Complex(i32::MIN, i32::MIN),
        Value::Undefined
    );
}

#[test]
fn division() {
    assert_eq!(Value::Complex(7, -9) / Value::Natural(2), Value::Complex(3, -4));
    assert_eq!(Value::Imaginary(9) / Value::Natural(-3), Value::Imaginary(-3));
    assert_eq!(Value::Natural(1) / Value::Natural(0), Value::Undefined);
    assert_eq!(Value::Natural(4) / Value::Imaginary(2), Value::Undefined);
    assert_eq!(Value::Natural(4) / Value::Complex(1, 1), Value::Undefined);
    assert_eq!(Value::Natural(i32::MIN) / Value::Natural(-1), Value::Undefined);
}

#[test]
fn value_negation() {
    assert_eq!(-Value::Natural(5), Value::Natural(-5));
    assert_eq!(-Value::Natural(0), Value::Natural(0));
    assert_eq!(-Value::Complex(2, -3), Value::Complex(-2, 3));
    assert_eq!(-Value::Natural(i32::MIN), Value::Undefined);
}

#[test]
fn undefined_absorbs() {
    assert_eq!(Value::Undefined + Value::Natural(1), Value::Undefined);
    assert_eq!(Value::Natural(1) * Value::Undefined, Value::Undefined);
    assert_eq!(Value::Undefined / Value::Natural(1), Value::Undefined);
    assert_eq!(-Value::Undefined, Value::Undefined);
}

#[test]
fn value_text_forms() {
    assert_eq!(Value::Natural(3).to_string(), "3");
    assert_eq!(Value::Natural(-42).to_string(), "-42");
    assert_eq!(Value::Natural(i32::MIN).to_string(), "-2147483648");
    assert_eq!(Value::Imaginary(-3).to_string(), "-3i");
    assert_eq!(Value::Complex(1, -2).to_string(), "1 + -2i");
    assert_eq!(Value::Undefined.to_string(), "undefined");
}
