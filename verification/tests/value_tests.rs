use ayurox::memory::{Gc, Heap};
use ayurox::value::{is_falsey, num_equal, num_greater, num_is_nan, num_is_zero, num_less, num_negate, Obj, Value};
use ayurox::vm::usize_to_string;

fn bits(x: f64) -> u64 {
    x.to_bits()
}

#[test]
fn number_comparisons_follow_ieee() {
    let cases = [0.0, -0.0, 1.0, -1.0, 2.5, f64::INFINITY, f64::NEG_INFINITY, f64::NAN, 1e-300, -7.25];
    for &x in &cases {
        for &y in &cases {
            assert_eq!(num_equal(bits(x), bits(y)), x == y, "{} == {}", x, y);
            assert_eq!(num_less(bits(x), bits(y)), x < y, "{} < {}", x, y);
            assert_eq!(num_greater(bits(x), bits(y)), x > y, "{} > {}", x, y);
        }
        assert_eq!(num_negate(bits(x)), (-x).to_bits());
        assert_eq!(num_is_nan(bits(x)), x.is_nan());
        assert_eq!(num_is_zero(bits(x)), x == 0.0);
    }
}

#[test]
fn negating_twice_gives_the_number_back() {
    for &x in &[0.0, 3.5, -2.0, f64::NAN] {
        assert_eq!(num_negate(num_negate(bits(x))), bits(x));
    }
}

#[test]
fn only_nil_and_false_are_falsey() {
    assert!(is_falsey(&Value::Nil));
    assert!(is_falsey(&Value::Bool(false)));
    assert!(!is_falsey(&Value::Bool(true)));
    assert!(!is_falsey(&Value::Number(bits(0.0))));
    assert!(!is_falsey(&Value::Obj(Gc { index: 0 })));
}

#[test]
fn value_equality() {
    let one = Value::Number(bits(1.0));
    assert!(one.is_equal(&Value::Number(bits(1.0))));
    assert!(Value::Number(bits(0.0)).is_equal(&Value::Number(bits(-0.0))));
    assert!(!Value::Number(bits(f64::NAN)).is_equal(&Value::Number(bits(f64::NAN))));
    assert!(!one.is_equal(&Value::Bool(true)));
    assert!(Value::Nil.is_equal(&Value::Nil));
    assert!(Value::Obj(Gc { index: 3 }).is_equal(&Value::Obj(Gc { index: 3 })));
    assert!(!Value::Obj(Gc { index: 3 }).is_equal(&Value::Obj(Gc { index: 4 })));
}

#[test]
fn object_predicates_look_at_the_heap() {
    let mut heap = Heap::new();
    let g = Gc::new(&mut heap, Obj::new_string("s".to_string()));
    let v = Value::new_obj(g);
    assert!(v.is_obj_string(&heap));
    assert!(!v.is_obj_function(&heap));
    assert_eq!(v.as_string(&heap), "s");
}

#[test]
fn decimal_text_of_counts() {
    assert_eq!(usize_to_string(0), "0");
    assert_eq!(usize_to_string(7), "7");
    assert_eq!(usize_to_string(1204), "1204");
    assert_eq!(usize_to_string(usize::MAX), usize::MAX.to_string());
}

#[test]
fn negation_mirrors_the_order() {
    let cases = [0.0, -0.0, 1.0, -1.0, 2.5, f64::INFINITY, f64::NEG_INFINITY, f64::NAN, -7.25];
    for &x in &cases {
        assert_eq!(num_is_nan(num_negate(bits(x))), num_is_nan(bits(x)));
        for &y in &cases {
            assert_eq!(num_less(bits(x), bits(y)), num_less(num_negate(bits(y)), num_negate(bits(x))));
        }
    }
}
