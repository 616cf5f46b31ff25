use weval_core::lattice::{AbstractValue, ValueTags, WasmVal};

fn tags(bits: u64) -> ValueTags {
    ValueTags { bits }
}

fn conc(v: u64, t: u64) -> AbstractValue {
    AbstractValue::Concrete(WasmVal::I64(v), tags(t))
}

fn rt(t: u64) -> AbstractValue {
    AbstractValue::Runtime(tags(t))
}

#[test]
fn meet_commutative_on_samples() {
    let samples = [conc(1, 0b11), conc(2, 0b01), rt(0b10), rt(0), conc(1, 0)];
    for a in &samples {
        for b in &samples {
            assert_eq!(AbstractValue::meet(a, b), AbstractValue::meet(b, a));
        }
    }
}

#[test]
fn meet_associative_on_samples() {
    let samples = [conc(1, 0b111), conc(2, 0b011), rt(0b110), conc(3, 0b101)];
    for a in &samples {
        for b in &samples {
            for c in &samples {
                let left = AbstractValue::meet(a, &AbstractValue::meet(b, c));
                let right = AbstractValue::meet(&AbstractValue::meet(a, b), c);
                assert_eq!(left, right);
            }
        }
    }
}

#[test]
fn meet_idempotent_on_samples() {
    for a in [conc(7, 0b101), rt(0b11), conc(0, 0)] {
        assert_eq!(AbstractValue::meet(&a, &a), a);
    }
}

#[test]
fn meet_with_unknown_is_unknown() {
    let unknown = AbstractValue::unknown();
    for a in [conc(7, 0b101), rt(0b11), unknown] {
        assert_eq!(AbstractValue::meet(&a, &unknown), unknown);
    }
}

#[test]
fn meet_of_equal_constants_keeps_constant() {
    let a = conc(42, 0b110);
    let b = conc(42, 0b011);
    assert_eq!(
        AbstractValue::meet(&a, &b),
        AbstractValue::Concrete(WasmVal::I64(42), tags(0b010))
    );
}

#[test]
fn meet_of_distinct_constants_is_runtime() {
    let a = conc(1, 0b11);
    let b = conc(2, 0b11);
    assert_eq!(AbstractValue::meet(&a, &b), rt(0b11));
}

#[test]
fn meet_of_distinct_width_constants_is_runtime() {
    let a = AbstractValue::Concrete(WasmVal::I32(1), tags(0));
    let b = AbstractValue::Concrete(WasmVal::I64(1), tags(0));
    assert_eq!(AbstractValue::meet(&a, &b), rt(0));
}

#[test]
fn tag_meet_is_intersection() {
    assert_eq!(tags(0b1100).meet(tags(0b0110)), tags(0b0100));
    assert_eq!(ValueTags::empty(), tags(0));
}
