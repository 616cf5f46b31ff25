use weval_core::assoc::AssocMap;
use weval_core::dce::{op_can_be_removed, run};
use weval_core::image::Image;
use weval_core::ir::{
    BlockDef, BranchTarget, CFGInfo, FunctionBody, Opcode, Operator, SideEffect, Terminator,
    Type, ValueDef,
};
use weval_core::lattice::{AbstractValue, ValueTags, WasmVal};
use weval_core::state::{FunctionState, SpecSite};

fn pure_op() -> Operator {
    Operator { opcode: Opcode::Other, effects: vec![], is_pure: true, is_load: false }
}

fn load_op() -> Operator {
    Operator {
        opcode: Opcode::Other,
        effects: vec![SideEffect::Trap, SideEffect::ReadMem],
        is_pure: false,
        is_load: true,
    }
}

fn store_op() -> Operator {
    Operator {
        opcode: Opcode::Other,
        effects: vec![SideEffect::Trap, SideEffect::WriteMem],
        is_pure: false,
        is_load: false,
    }
}

fn trap_only_op() -> Operator {
    Operator {
        opcode: Opcode::Other,
        effects: vec![SideEffect::Trap],
        is_pure: false,
        is_load: false,
    }
}

#[test]
fn removability_policy() {
    assert!(op_can_be_removed(&load_op()));
    assert!(op_can_be_removed(&trap_only_op()));
    assert!(op_can_be_removed(&pure_op()));
    for opcode in [Opcode::TableSize, Opcode::MemorySize, Opcode::GlobalGet, Opcode::TableGet] {
        let op = Operator {
            opcode,
            effects: vec![SideEffect::ReadTable],
            is_pure: false,
            is_load: false,
        };
        assert!(op_can_be_removed(&op));
    }
    assert!(!op_can_be_removed(&store_op()));
    let call_like = Operator {
        opcode: Opcode::Other,
        effects: vec![SideEffect::Trap, SideEffect::Other],
        is_pure: false,
        is_load: false,
    };
    assert!(!op_can_be_removed(&call_like));
}

/// An unused pure addition chain is removed; a used load and its address
/// chain stay.
#[test]
fn unused_pure_chain_removed_used_load_stays() {
    // v0: entry param (the address), v1, v2: pure constants, v3 = add(v1, v2),
    // v4 = load(v0), return v4.
    let values = vec![
        ValueDef::BlockParam(0, 0, Type::I32),
        ValueDef::Operator(pure_op(), vec![], vec![Type::I32]),
        ValueDef::Operator(pure_op(), vec![], vec![Type::I32]),
        ValueDef::Operator(pure_op(), vec![1, 2], vec![Type::I32]),
        ValueDef::Operator(load_op(), vec![0], vec![Type::I32]),
    ];
    let blocks = vec![BlockDef {
        params: vec![(Type::I32, 0)],
        insts: vec![1, 2, 3, 4],
        terminator: Terminator::Return { values: vec![4] },
    }];
    let mut func = FunctionBody { entry: 0, blocks, values };
    let cfg = CFGInfo { rpo: vec![0], rpo_pos: vec![Some(0)] };
    let r = run(&mut func, &cfg);
    assert!(r.is_ok());
    assert_eq!(func.blocks[0].insts, vec![4]);
    assert_eq!(func.blocks[0].params, vec![(Type::I32, 0)]);
    assert_eq!(func.blocks[0].terminator, Terminator::Return { values: vec![4] });
}

#[test]
fn stores_are_never_removed() {
    // v0: param; v1 = pure const; store(v0, v1); nothing returned.
    let values = vec![
        ValueDef::BlockParam(0, 0, Type::I32),
        ValueDef::Operator(pure_op(), vec![], vec![Type::I32]),
        ValueDef::Operator(store_op(), vec![0, 1], vec![]),
    ];
    let blocks = vec![BlockDef {
        params: vec![(Type::I32, 0)],
        insts: vec![1, 2],
        terminator: Terminator::Return { values: vec![] },
    }];
    let mut func = FunctionBody { entry: 0, blocks, values };
    let cfg = CFGInfo { rpo: vec![0], rpo_pos: vec![Some(0)] };
    assert!(run(&mut func, &cfg).is_ok());
    // the store and its operand chain survive
    assert_eq!(func.blocks[0].insts, vec![1, 2]);
}

#[test]
fn alias_chains_keep_their_targets_alive() {
    // v1 = load(v0); v2 = alias(v1); return v2.
    let values = vec![
        ValueDef::BlockParam(0, 0, Type::I32),
        ValueDef::Operator(load_op(), vec![0], vec![Type::I32]),
        ValueDef::Alias(1),
    ];
    let blocks = vec![BlockDef {
        params: vec![(Type::I32, 0)],
        insts: vec![1, 2],
        terminator: Terminator::Return { values: vec![2] },
    }];
    let mut func = FunctionBody { entry: 0, blocks, values };
    let cfg = CFGInfo { rpo: vec![0], rpo_pos: vec![Some(0)] };
    assert!(run(&mut func, &cfg).is_ok());
    assert_eq!(func.blocks[0].insts, vec![1, 2]);
}

#[test]
fn unreachable_blocks_are_cleared() {
    let values = vec![
        ValueDef::BlockParam(0, 0, Type::I32),
        ValueDef::BlockParam(1, 0, Type::I64),
        ValueDef::Operator(pure_op(), vec![], vec![Type::I32]),
    ];
    let blocks = vec![
        BlockDef {
            params: vec![(Type::I32, 0)],
            insts: vec![],
            terminator: Terminator::Return { values: vec![] },
        },
        BlockDef {
            params: vec![(Type::I64, 1)],
            insts: vec![2],
            terminator: Terminator::Unreachable,
        },
    ];
    let mut func = FunctionBody { entry: 0, blocks, values };
    let cfg = CFGInfo { rpo: vec![0], rpo_pos: vec![Some(0), None] };
    assert!(run(&mut func, &cfg).is_ok());
    assert!(func.blocks[1].insts.is_empty());
    assert!(func.blocks[1].params.is_empty());
    assert_eq!(func.blocks[1].terminator, Terminator::Unreachable);
}

fn two_block_body(second_param_ty: Type) -> (FunctionBody, CFGInfo) {
    // Block 0: params (I32 v0); v1 = load(v0); v2 = pure const (unused as
    // branch arg 1); br block1(v1, v2).
    // Block 1: params (I32 p3, ty p4); return p3. p4 is unused.
    let values = vec![
        ValueDef::BlockParam(0, 0, Type::I32),
        ValueDef::Operator(load_op(), vec![0], vec![Type::I32]),
        ValueDef::Operator(pure_op(), vec![], vec![second_param_ty]),
        ValueDef::BlockParam(1, 0, Type::I32),
        ValueDef::BlockParam(1, 1, second_param_ty),
    ];
    let blocks = vec![
        BlockDef {
            params: vec![(Type::I32, 0)],
            insts: vec![1, 2],
            terminator: Terminator::Br {
                target: BranchTarget { block: 1, args: vec![1, 2] },
            },
        },
        BlockDef {
            params: vec![(Type::I32, 3), (second_param_ty, 4)],
            insts: vec![],
            terminator: Terminator::Return { values: vec![3] },
        },
    ];
    let func = FunctionBody { entry: 0, blocks, values };
    let cfg = CFGInfo { rpo: vec![0, 1], rpo_pos: vec![Some(0), Some(1)] };
    (func, cfg)
}

#[test]
fn dead_params_and_branch_args_are_removed_together() {
    let (mut func, cfg) = two_block_body(Type::I64);
    assert!(run(&mut func, &cfg).is_ok());
    // the unused second parameter and its branch argument are gone
    assert_eq!(func.blocks[1].params, vec![(Type::I32, 3)]);
    match &func.blocks[0].terminator {
        Terminator::Br { target } => {
            assert_eq!(target.block, 1);
            assert_eq!(target.args, vec![1]);
        }
        other => panic!("expected a br terminator, got {:?}", other),
    }
    // the unused pure constant feeding the dropped argument is gone too
    assert_eq!(func.blocks[0].insts, vec![1]);
}

#[test]
fn type_mismatch_is_reported_as_fatal() {
    // Block 1's first (used) parameter claims I64 but the branch argument
    // is the I32 load result: the re-validation must fail.
    let values = vec![
        ValueDef::BlockParam(0, 0, Type::I32),
        ValueDef::Operator(load_op(), vec![0], vec![Type::I32]),
        ValueDef::BlockParam(1, 0, Type::I64),
    ];
    let blocks = vec![
        BlockDef {
            params: vec![(Type::I32, 0)],
            insts: vec![1],
            terminator: Terminator::Br {
                target: BranchTarget { block: 1, args: vec![1] },
            },
        },
        BlockDef {
            params: vec![(Type::I64, 2)],
            insts: vec![],
            terminator: Terminator::Return { values: vec![2] },
        },
    ];
    let mut func = FunctionBody { entry: 0, blocks, values };
    let cfg = CFGInfo { rpo: vec![0, 1], rpo_pos: vec![Some(0), Some(1)] };
    let r = run(&mut func, &cfg);
    let err = r.unwrap_err();
    assert_eq!(err.block, 0);
    assert_eq!(err.target_block, 1);
    assert_eq!(err.arg, 1);
    assert_eq!(err.param, 2);
}

#[test]
fn dce_is_idempotent() {
    let (mut once, cfg) = two_block_body(Type::I64);
    assert!(run(&mut once, &cfg).is_ok());
    let mut twice = once.clone();
    assert!(run(&mut twice, &cfg).is_ok());
    assert_eq!(once, twice);
}

#[test]
fn cond_br_keeps_its_condition_alive() {
    let values = vec![
        ValueDef::BlockParam(0, 0, Type::I32),
        ValueDef::Operator(load_op(), vec![0], vec![Type::I32]),
    ];
    let blocks = vec![
        BlockDef {
            params: vec![(Type::I32, 0)],
            insts: vec![1],
            terminator: Terminator::CondBr {
                cond: 1,
                if_true: BranchTarget { block: 1, args: vec![] },
                if_false: BranchTarget { block: 1, args: vec![] },
            },
        },
        BlockDef {
            params: vec![],
            insts: vec![],
            terminator: Terminator::Return { values: vec![] },
        },
    ];
    let mut func = FunctionBody { entry: 0, blocks, values };
    let cfg = CFGInfo { rpo: vec![0, 1], rpo_pos: vec![Some(0), Some(1)] };
    assert!(run(&mut func, &cfg).is_ok());
    // the load feeds the condition, so it stays
    assert_eq!(func.blocks[0].insts, vec![1]);
}

#[test]
fn select_terminators_and_projections_are_scanned() {
    // v1 = multi-result op (not removable); v2 = pick v1.0 (selector);
    // v3 = pick v1.1 (unused projection); select on v2 over two targets
    // plus a default, passing v4 (pure) to block 1's used parameter.
    let multi = Operator {
        opcode: Opcode::Other,
        effects: vec![SideEffect::Other],
        is_pure: false,
        is_load: false,
    };
    let values = vec![
        ValueDef::BlockParam(0, 0, Type::I32),
        ValueDef::Operator(multi, vec![0], vec![Type::I32, Type::I64]),
        ValueDef::PickOutput(1, 0, Type::I32),
        ValueDef::PickOutput(1, 1, Type::I64),
        ValueDef::Operator(pure_op(), vec![], vec![Type::I32]),
        ValueDef::BlockParam(1, 0, Type::I32),
    ];
    let blocks = vec![
        BlockDef {
            params: vec![(Type::I32, 0)],
            insts: vec![1, 2, 3, 4],
            terminator: Terminator::Select {
                value: 2,
                targets: vec![BranchTarget { block: 1, args: vec![4] }],
                default: BranchTarget { block: 1, args: vec![4] },
            },
        },
        BlockDef {
            params: vec![(Type::I32, 5)],
            insts: vec![],
            terminator: Terminator::Return { values: vec![5] },
        },
    ];
    let mut func = FunctionBody { entry: 0, blocks, values };
    let cfg = CFGInfo { rpo: vec![0, 1], rpo_pos: vec![Some(0), Some(1)] };
    assert!(run(&mut func, &cfg).is_ok());
    // the unused projection v3 goes; the selector chain and arg stay
    assert_eq!(func.blocks[0].insts, vec![1, 2, 4]);
    assert_eq!(func.blocks[1].params, vec![(Type::I32, 5)]);
    match &func.blocks[0].terminator {
        Terminator::Select { value, targets, default } => {
            assert_eq!(*value, 2);
            assert_eq!(targets[0].args, vec![4]);
            assert_eq!(default.args, vec![4]);
        }
        other => panic!("expected a select terminator, got {:?}", other),
    }
}

#[test]
fn function_state_binds_entry_arguments() {
    let values = vec![
        ValueDef::BlockParam(0, 0, Type::I32),
        ValueDef::BlockParam(0, 1, Type::I64),
    ];
    let blocks = vec![BlockDef {
        params: vec![(Type::I32, 0), (Type::I64, 1)],
        insts: vec![],
        terminator: Terminator::Return { values: vec![] },
    }];
    let body = FunctionBody { entry: 0, blocks, values };
    let im = Image {
        memories: Vec::new(),
        globals: AssocMap { entries: vec![(0, WasmVal::I32(3))] },
        stack_pointer: Some(0),
        main_heap: None,
    };
    let mut fs = FunctionState::new();
    let (ctx, entry_state) = fs.init(&im);
    assert_eq!(entry_state.globals.get(&0), Some(AbstractValue::unknown()));
    let value_map: AssocMap<SpecSite, usize> = AssocMap {
        entries: vec![
            (SpecSite { ctx, orig: 0 }, 10),
            (SpecSite { ctx, orig: 1 }, 11),
        ],
    };
    let args = vec![
        AbstractValue::Concrete(WasmVal::I32(42), ValueTags { bits: 0 }),
        AbstractValue::unknown(),
    ];
    fs.set_args(&body, &args, ctx, &value_map);
    assert_eq!(
        fs.values.get(10),
        AbstractValue::Concrete(WasmVal::I32(42), ValueTags { bits: 0 })
    );
    assert_eq!(fs.values.get(11), AbstractValue::unknown());
    assert_eq!(fs.values.get(12), AbstractValue::unknown());
    // interning: a second init reuses the root context
    let (ctx2, _) = fs.init(&im);
    assert_eq!(ctx, ctx2);
}
