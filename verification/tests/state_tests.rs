use weval_core::assoc::{map_meet_with, set_union, AssocMap, AssocSet};
use weval_core::ctx::{ContextElem, Contexts};
use weval_core::image::Image;
use weval_core::ir::Type;
use weval_core::lattice::{AbstractValue, ValueTags, WasmVal};
use weval_core::state::{FunctionState, MemValue, ParamSource, ProgPointState, SymbolicAddr};

fn rt0() -> AbstractValue {
    AbstractValue::unknown()
}

fn conc(v: u32) -> AbstractValue {
    AbstractValue::Concrete(WasmVal::I32(v), ValueTags { bits: 0 })
}

fn addr(token: u32, ty: Type, offset: i64) -> SymbolicAddr {
    SymbolicAddr { token, element_ty: ty, offset }
}

fn cell(data: usize, ty: Type, a: usize, abs: AbstractValue) -> MemValue {
    MemValue::Value { data, ty, addr: a, dirty: false, abs }
}

#[test]
fn mem_meet_same_type_values_fold_to_typed_merge() {
    let a = cell(1, Type::I32, 10, conc(4));
    let b = cell(2, Type::I32, 11, conc(5));
    assert_eq!(
        MemValue::meet(&a, &b),
        MemValue::TypedMerge(Type::I32, AbstractValue::meet(&conc(4), &conc(5)))
    );
}

#[test]
fn mem_meet_type_mismatch_is_conflict() {
    let a = cell(1, Type::I32, 10, rt0());
    let b = cell(2, Type::I64, 11, rt0());
    assert_eq!(MemValue::meet(&a, &b), MemValue::Conflict);
    let m = MemValue::TypedMerge(Type::I64, rt0());
    assert_eq!(MemValue::meet(&a, &m), MemValue::Conflict);
}

#[test]
fn mem_meet_is_idempotent_per_variant() {
    let samples = [
        cell(1, Type::I32, 10, conc(4)),
        MemValue::TypedMerge(Type::I64, rt0()),
        MemValue::Flushed { ty: Type::I32, addr: 3 },
        MemValue::Conflict,
    ];
    for s in &samples {
        assert_eq!(MemValue::meet(s, s), *s);
    }
}

#[test]
fn mem_meet_value_with_typed_merge_folds() {
    let a = cell(1, Type::I32, 10, conc(4));
    let m = MemValue::TypedMerge(Type::I32, conc(4));
    assert_eq!(
        MemValue::meet(&a, &m),
        MemValue::TypedMerge(Type::I32, conc(4))
    );
    let flushed = MemValue::Flushed { ty: Type::I32, addr: 10 };
    assert_eq!(MemValue::meet(&a, &flushed), MemValue::Conflict);
}

#[test]
fn mem_value_accessors() {
    let a = cell(7, Type::I64, 9, rt0());
    assert_eq!(a.to_addr_and_value(), Some((9, 7)));
    assert_eq!(a.to_type(), Some(Type::I64));
    let m = MemValue::TypedMerge(Type::I32, rt0());
    assert_eq!(m.to_addr_and_value(), None);
    assert_eq!(m.to_type(), Some(Type::I32));
    assert_eq!(MemValue::Conflict.to_type(), None);
}

#[test]
fn symbolic_addr_offsets() {
    let a = addr(3, Type::I32, 8);
    let b = a.add_offset(4);
    assert_eq!(b, addr(3, Type::I32, 12));
    let c = b.sub_offset(12);
    assert_eq!(c, addr(3, Type::I32, 0));
}

#[test]
fn context_interning_returns_same_id() {
    let mut ctxs = Contexts::new();
    let root = ctxs.create(None, ContextElem::Root);
    let l1 = ctxs.create(Some(root), ContextElem::Loop(100));
    let l1_again = ctxs.create(Some(root), ContextElem::Loop(100));
    assert_eq!(l1, l1_again);
    let l2 = ctxs.create(Some(root), ContextElem::Loop(200));
    assert_ne!(l1, l2);
    let p = ctxs.create(Some(l1), ContextElem::PendingSpecialize(5, 1, 0));
    let p_again = ctxs.create(Some(l1), ContextElem::PendingSpecialize(5, 1, 0));
    assert_eq!(p, p_again);
    assert_ne!(p, l1);
    assert_eq!(ctxs.parent(l1), Some(root));
    assert_eq!(ctxs.leaf_element(l1), ContextElem::Loop(100));
}

#[test]
fn pop_one_loop_on_root_is_fixed_point() {
    let mut ctxs = Contexts::new();
    let root = ctxs.create(None, ContextElem::Root);
    assert_eq!(ctxs.pop_one_loop(root), root);
}

#[test]
fn pop_one_loop_chain_terminates_at_non_loop_ancestor() {
    let mut ctxs = Contexts::new();
    let root = ctxs.create(None, ContextElem::Root);
    let mut cur = root;
    for pc in 0..5u32 {
        cur = ctxs.create(Some(cur), ContextElem::Loop(pc));
    }
    for _ in 0..5 {
        assert_ne!(cur, root);
        cur = ctxs.pop_one_loop(cur);
    }
    assert_eq!(cur, root);
}

#[test]
fn pop_one_loop_skips_specialization_elements() {
    let mut ctxs = Contexts::new();
    let root = ctxs.create(None, ContextElem::Root);
    let l = ctxs.create(Some(root), ContextElem::Loop(7));
    let s = ctxs.create(Some(l), ContextElem::Specialized(3, 1));
    assert_eq!(ctxs.pop_one_loop(s), root);
}

fn image_with_globals(globals: Vec<(usize, WasmVal)>) -> Image {
    Image {
        memories: Vec::new(),
        globals: AssocMap { entries: globals },
        stack_pointer: None,
        main_heap: None,
    }
}

#[test]
fn entry_state_maps_every_global_to_unknown() {
    let im = image_with_globals(vec![(0, WasmVal::I32(7)), (2, WasmVal::I64(9))]);
    let st = ProgPointState::entry(&im);
    assert_eq!(st.mem_overlay.len(), 0);
    assert_eq!(st.globals.get(&0), Some(rt0()));
    assert_eq!(st.globals.get(&2), Some(rt0()));
    assert_eq!(st.globals.get(&1), None);
}

#[test]
fn meet_with_deletes_one_sided_overlay_cells() {
    let im = image_with_globals(vec![]);
    let mut a = ProgPointState::entry(&im);
    let b = ProgPointState::entry(&im);
    let k = addr(1, Type::I32, 0);
    a.mem_overlay.entries.push((k, cell(1, Type::I32, 2, rt0())));
    let changed = a.meet_with(&b);
    assert!(changed);
    assert_eq!(a.mem_overlay.get(&k), None);
    let changed_again = a.meet_with(&b);
    assert!(!changed_again);
}

#[test]
fn meet_with_globals_default_to_unknown() {
    let im = image_with_globals(vec![(0, WasmVal::I32(7))]);
    let mut a = ProgPointState::entry(&im);
    let mut b = ProgPointState::entry(&im);
    a.globals.entries.push((5, conc(1)));
    b.globals.entries.push((6, conc(2)));
    let changed = a.meet_with(&b);
    assert!(changed);
    // present on one side only: both meet toward the opaque value
    assert_eq!(a.globals.get(&5), Some(rt0()));
    assert_eq!(a.globals.get(&6), Some(rt0()));
    assert_eq!(a.globals.get(&0), Some(rt0()));
}

#[test]
fn update_across_edge_turns_values_into_merges() {
    let im = image_with_globals(vec![]);
    let mut a = ProgPointState::entry(&im);
    let k1 = addr(1, Type::I32, 0);
    let k2 = addr(2, Type::I64, 8);
    a.mem_overlay.entries.push((k1, cell(1, Type::I32, 2, conc(3))));
    a.mem_overlay
        .entries
        .push((k2, MemValue::Flushed { ty: Type::I64, addr: 4 }));
    a.update_across_edge();
    assert_eq!(
        a.mem_overlay.get(&k1),
        Some(MemValue::TypedMerge(Type::I32, conc(3)))
    );
    assert_eq!(
        a.mem_overlay.get(&k2),
        Some(MemValue::Flushed { ty: Type::I64, addr: 4 })
    );
}

struct Driver {
    next: usize,
    removed: Vec<SymbolicAddr>,
}

impl ParamSource for Driver {
    fn get_blockparam(&mut self, _addr: SymbolicAddr, _ty: Type) -> (usize, usize) {
        let p = self.next;
        self.next += 1;
        (p, p + 100)
    }

    fn remove_blockparam(&mut self, addr: SymbolicAddr) {
        self.removed.push(addr);
    }
}

#[test]
fn conflicting_writes_end_as_evicted_cells() {
    // Two predecessors write cells of different element types to the same
    // symbolic address: after the meet the slot is a conflict, and after
    // block entry resolution it is gone from the overlay.
    let im = image_with_globals(vec![]);
    let mut a = ProgPointState::entry(&im);
    let mut b = ProgPointState::entry(&im);
    let k = addr(1, Type::I32, 0);
    a.mem_overlay.entries.push((k, cell(1, Type::I32, 2, rt0())));
    b.mem_overlay.entries.push((k, cell(3, Type::I64, 4, rt0())));
    let changed = a.meet_with(&b);
    assert!(changed);
    assert_eq!(a.mem_overlay.get(&k), Some(MemValue::Conflict));
    let mut drv = Driver { next: 0, removed: Vec::new() };
    a.update_at_block_entry(&mut drv);
    assert_eq!(a.mem_overlay.get(&k), None);
    assert_eq!(drv.removed, vec![k]);
}

#[test]
fn block_entry_materializes_merged_cells_dirty() {
    let im = image_with_globals(vec![]);
    let mut a = ProgPointState::entry(&im);
    let k = addr(9, Type::I32, 4);
    a.mem_overlay
        .entries
        .push((k, MemValue::TypedMerge(Type::I32, conc(5))));
    let mut drv = Driver { next: 7, removed: Vec::new() };
    a.update_at_block_entry(&mut drv);
    match a.mem_overlay.get(&k) {
        Some(MemValue::Value { data, ty, addr: av, dirty, abs }) => {
            assert_eq!(data, 107);
            assert_eq!(ty, Type::I32);
            assert_eq!(av, 7);
            assert!(dirty);
            assert_eq!(abs, conc(5));
        }
        other => panic!("expected a materialized cell, got {:?}", other),
    }
    assert!(drv.removed.is_empty());
}

#[test]
fn map_meet_with_reports_changes_exactly() {
    let mut m1: AssocMap<usize, AbstractValue> = AssocMap {
        entries: vec![(1, conc(5)), (2, conc(6))],
    };
    let m2: AssocMap<usize, AbstractValue> = AssocMap {
        entries: vec![(1, conc(5)), (2, conc(7))],
    };
    let changed = map_meet_with(&mut m1, &m2, None);
    assert!(changed);
    assert_eq!(m1.get(&1), Some(conc(5)));
    assert_eq!(m1.get(&2), Some(rt0()));
    let m3 = m1.clone();
    let changed_again = map_meet_with(&mut m1, &m3, None);
    assert!(!changed_again);
}

#[test]
fn block_state_tables_grow_with_empty_states() {
    let im = image_with_globals(vec![(0, WasmVal::I32(1))]);
    let mut fs = FunctionState::new();
    fs.block_entry.grow(2);
    assert_eq!(fs.block_entry.get(0).mem_overlay.len(), 0);
    assert_eq!(fs.block_entry.get(1).globals.get(&0), None);
    let st = ProgPointState::entry(&im);
    fs.block_entry.set(1, st);
    assert_eq!(fs.block_entry.get(1).globals.get(&0), Some(rt0()));
    assert_eq!(fs.block_entry.get(0).globals.get(&0), None);
}

#[test]
fn set_union_reports_growth() {
    let empty: AssocSet<usize> = AssocSet::new();
    assert!(!empty.contains(&1));
    let mut s1: AssocSet<usize> = AssocSet { items: vec![1, 2] };
    let s2: AssocSet<usize> = AssocSet { items: vec![2, 3] };
    assert!(set_union(&mut s1, &s2));
    assert!(s1.contains(&1) && s1.contains(&2) && s1.contains(&3));
    assert!(!set_union(&mut s1, &s2));
}
