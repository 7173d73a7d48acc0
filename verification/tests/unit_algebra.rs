use unit_algebra::algebra::ExponentMap;
use unit_algebra::env::Environment;
use unit_algebra::fmt::decimal_string;
use unit_algebra::formula::{Formula, Symbol, Value};
use unit_algebra::unit::{CompositeUnit, CompositeUnitClass};

fn ratio_of(env: &Environment, unit: &CompositeUnit) -> f64 {
    let mut ratio = 1.0f64;
    for (id, power) in unit.components.components().iter() {
        let base_ratio = f64::from_bits(env.borrow_unit(*id).base_ratio_bits);
        ratio *= base_ratio.powi(*power as i32);
    }
    ratio
}

fn length_meter_env() -> (Environment, u64, u64) {
    let mut env = Environment::new();
    let length = env.register_unit_class("Length".to_string());
    let meter = env.register_unit(
        "Meter".to_string(),
        CompositeUnitClass::single(length, 1),
        1.0f64.to_bits(),
    );
    (env, length, meter)
}

#[test]
fn group_law_identity() {
    let a = ExponentMap::single(3, 2).multiply(&ExponentMap::single(7, -1));
    let id = ExponentMap::unitless();
    assert!(a.multiply(&id) == a);
}

#[test]
fn group_law_commutative() {
    let a = ExponentMap::single(1, 2);
    let b = ExponentMap::single(4, -3).multiply(&ExponentMap::single(1, 1));
    assert!(a.multiply(&b) == b.multiply(&a));
}

#[test]
fn group_law_associative() {
    let a = ExponentMap::single(1, 2);
    let b = ExponentMap::single(2, -5);
    let c = ExponentMap::single(3, 1).multiply(&ExponentMap::single(1, -1));
    assert!(a.multiply(&b).multiply(&c) == a.multiply(&b.multiply(&c)));
}

#[test]
fn group_law_divide_multiply() {
    let a = ExponentMap::single(1, 2).multiply(&ExponentMap::single(9, 4));
    let b = ExponentMap::single(9, -1).multiply(&ExponentMap::single(5, 3));
    assert!(a.multiply(&b).divide(&b) == a);
}

#[test]
fn normalization_cancels_to_no_entry() {
    let up = ExponentMap::single(11, 1);
    let down = ExponentMap::single(11, -1);
    let product = up.multiply(&down);
    assert_eq!(product.len(), 0);
    assert!(product == ExponentMap::unitless());
}

#[test]
fn decimal_rendering() {
    assert_eq!(decimal_string(0).as_str(), "0");
    assert_eq!(decimal_string(7).as_str(), "7");
    assert_eq!(decimal_string(10).as_str(), "10");
    assert_eq!(decimal_string(90210).as_str(), "90210");
    assert_eq!(
        decimal_string(u64::MAX).as_str(),
        "18446744073709551615"
    );
}

#[test]
fn conversion_round_trip() {
    let (mut env, length, _meter) = length_meter_env();
    let foot = env.register_unit(
        "Foot".to_string(),
        CompositeUnitClass::single(length, 1),
        0.3048f64.to_bits(),
    );
    let unit = CompositeUnit::single(foot, 1);
    let ratio = ratio_of(&env, &unit);
    let scalar = env.make_scalar_from_base((1.0 * ratio).to_bits(), unit, 4);
    let base_value = f64::from_bits(scalar.base_value_bits);
    assert!((base_value - 0.3048).abs() < 1e-12);
    let back = base_value / ratio_of(&env, &scalar.display_unit);
    assert!((back - 1.0).abs() < 1e-12);
}

#[test]
fn dimensional_consistency() {
    let (mut env, _length, meter) = length_meter_env();
    let time = env.register_unit_class("Time".to_string());
    let second = env.register_unit(
        "Second".to_string(),
        CompositeUnitClass::single(time, 1),
        1.0f64.to_bits(),
    );
    let u1 = CompositeUnit::single(meter, 2);
    let u2 = CompositeUnit::single(second, -1);
    let u12 = u1.multiply(&u2);
    let lhs = env.base_unit_of(&u12);
    let rhs = env.base_unit_of(&u1).multiply(&env.base_unit_of(&u2));
    assert!(lhs == rhs);
    let inv = CompositeUnit::unitless().divide(&u1);
    let lhs_inv = env.base_unit_of(&inv);
    let rhs_inv = CompositeUnitClass::unitless().divide(&env.base_unit_of(&u1));
    assert!(lhs_inv == rhs_inv);
}

#[test]
fn formatting_deterministic() {
    let (mut env, _length, meter) = length_meter_env();
    let time = env.register_unit_class("Time".to_string());
    let second = env.register_unit(
        "Second".to_string(),
        CompositeUnitClass::single(time, 1),
        1.0f64.to_bits(),
    );
    let a = CompositeUnit::single(meter, 1).multiply(&CompositeUnit::single(second, -1));
    let b = CompositeUnit::single(second, -1).multiply(&CompositeUnit::single(meter, 1));
    assert!(a == b);
    assert_eq!(env.format_unit(&a), env.format_unit(&b));
}

#[test]
fn scenario_meter_scalar() {
    let (env, _length, meter) = length_meter_env();
    let unit = CompositeUnit::single(meter, 1);
    let ratio = ratio_of(&env, &unit);
    let scalar = env.make_scalar_from_base((5.0 * ratio).to_bits(), unit, 3);
    let base_value = f64::from_bits(scalar.base_value_bits);
    assert_eq!(base_value, 5.0);
    let shown = format!("{:.*e}", 2, base_value / ratio);
    let base_shown = format!("{:.*e}", 2, base_value);
    let text = env.format_scalar_detailed(&scalar, &shown, &base_shown);
    assert_eq!(text.as_str(), "5.00e0 Meter^1 /  (5.00e0 Length^1 / )");
}

#[test]
fn scenario_foot_base_value() {
    let (mut env, length, _meter) = length_meter_env();
    let foot = env.register_unit(
        "Foot".to_string(),
        CompositeUnitClass::single(length, 1),
        0.3048f64.to_bits(),
    );
    let unit = CompositeUnit::single(foot, 1);
    let ratio = ratio_of(&env, &unit);
    let scalar = env.make_scalar_from_base((1.0 * ratio).to_bits(), unit, 4);
    let base_value = f64::from_bits(scalar.base_value_bits);
    assert!((base_value - 0.3048).abs() < 1e-12);
}

#[test]
fn scenario_velocity() {
    let (mut env, _length, meter) = length_meter_env();
    let time = env.register_unit_class("Time".to_string());
    let second = env.register_unit(
        "Second".to_string(),
        CompositeUnitClass::single(time, 1),
        1.0f64.to_bits(),
    );
    let velocity = CompositeUnit::single(meter, 1).multiply(&CompositeUnit::single(second, -1));
    let base = env.base_unit_of(&velocity);
    assert_eq!(env.format_base_unit(&base).as_str(), "Length^1 / Time^1");
    assert_eq!(env.format_unit(&velocity).as_str(), "Meter^1 / Second^1");
}

#[test]
fn scenario_formula_rendering() {
    let env = Environment::new();
    let formula: Formula<String> = Formula::PlainFunction {
        fun: "add".to_string(),
        args: vec![
            Formula::Symbol(Symbol { name: "x".to_string() }),
            Formula::Value("3.00e0 Meter^1 /  (3.00e0 Length^1 / )".to_string()),
        ],
    };
    let text = env.format_formula_detailed(&formula);
    assert_eq!(
        text.as_str(),
        "add[\n    Symbol(\"x\"),\n    3.00e0 Meter^1 /  (3.00e0 Length^1 / ),\n]"
    );
}

#[test]
fn nested_formula_indentation() {
    let env = Environment::new();
    let inner: Formula<String> = Formula::PlainFunction {
        fun: "neg".to_string(),
        args: vec![Formula::Symbol(Symbol { name: "y".to_string() })],
    };
    let formula: Formula<String> = Formula::PlainFunction {
        fun: "add".to_string(),
        args: vec![Formula::Symbol(Symbol { name: "x".to_string() }), inner],
    };
    let text = env.format_formula_detailed(&formula);
    assert_eq!(
        text.as_str(),
        "add[\n    Symbol(\"x\"),\n    neg[\n        Symbol(\"y\"),\n    ],\n]"
    );
}

#[test]
fn symbol_table_insert_overwrite_find() {
    let mut env = Environment::new();
    assert!(env.find_global_symbol(&Symbol { name: "x".to_string() }).is_none());
    env.add_global_symbol(Symbol { name: "x".to_string() }, Value::Vector);
    assert!(matches!(
        env.find_global_symbol(&Symbol { name: "x".to_string() }),
        Some(Value::Vector)
    ));
    let (env2, _length, meter) = length_meter_env();
    let unit = CompositeUnit::single(meter, 1);
    let scalar = env2.make_scalar_from_base(2.0f64.to_bits(), unit, 2);
    env.add_global_symbol(Symbol { name: "x".to_string() }, Value::Scalar(scalar));
    match env.find_global_symbol(&Symbol { name: "x".to_string() }) {
        Some(Value::Scalar(s)) => {
            assert_eq!(f64::from_bits(s.base_value_bits), 2.0);
            assert_eq!(s.precision, 2);
        }
        other => panic!("expected the overwritten scalar binding, got {:?}", other.is_some()),
    }
    assert_eq!(env.borrow_global_symbols().len(), 1);
    assert!(env.find_global_symbol(&Symbol { name: "y".to_string() }).is_none());
}

#[test]
fn identity_lookup() {
    let (mut env, length, meter) = length_meter_env();
    assert_eq!(env.borrow_unit_class(length).name.as_str(), "Length");
    assert_eq!(env.borrow_unit(meter).name.as_str(), "Meter");
    assert_eq!(env.unit_class_count(), 1);
    assert_eq!(env.unit_count(), 1);
    let mass = env.register_unit_class("Mass".to_string());
    assert_ne!(length, mass);
    assert_eq!(env.borrow_unit_class(mass).name.as_str(), "Mass");
}
