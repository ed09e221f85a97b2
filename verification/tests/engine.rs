use bytecode_engine::engine::{ByteCodeEngine, Instruction, VmFault};

#[test]
fn test_basic() {
    let ixs: Vec<Instruction> = vec![
        Instruction::LoadVal { val: 1 },
        Instruction::WriteVar {
            name: "x".to_string(),
        },
        Instruction::LoadVal { val: 2 },
        Instruction::WriteVar {
            name: "y".to_string(),
        },
        Instruction::ReadVar {
            name: "x".to_string(),
        },
        Instruction::LoadVal { val: 1 },
        Instruction::Add,
        Instruction::ReadVar {
            name: "y".to_string(),
        },
        Instruction::Multiply,
        Instruction::ReturnValue,
    ];
    let mut engine = ByteCodeEngine::default();
    engine.ixs = ixs;
    for idx in 0..engine.ixs.len() {
        let result = engine.run().unwrap();
        if idx == engine.ixs.len() - 1 {
            assert_eq!(result.unwrap(), 4);
        }
    }
}

#[test]
fn test_loop() {
    let ixs: Vec<Instruction> = vec![
        Instruction::LoadVal { val: 1 },
        Instruction::WriteVar {
            name: "x".to_string(),
        },
        Instruction::ReadVar {
            name: "x".to_string(),
        },
        Instruction::LoadVal { val: 1 },
        Instruction::Add,
        Instruction::WriteVar {
            name: "x".to_string(),
        },
        Instruction::ReadVar {
            name: "x".to_string(),
        },
        Instruction::LoadVal { val: 5 },
        Instruction::CmpNe,
        Instruction::ConditionLoop { offset: 8 },
        Instruction::ReadVar {
            name: "x".to_string(),
        },
        Instruction::ReturnValue,
    ];
    let mut engine = ByteCodeEngine::default();
    engine.ixs = ixs;
    let mut total_runs = 0;
    loop {
        total_runs += 1;
        if let Some(return_value) = engine.run().unwrap() {
            assert_eq!(return_value, 5);
            assert_eq!(total_runs, 36);
            break;
        }
    }
}

#[test]
fn test_loop_free_first_reset_after_program_length() {
    // A loop-free program resets exactly after as many steps as it has
    // instructions: the pointer returns to 0 only on the last call.
    let ixs: Vec<Instruction> = vec![
        Instruction::LoadVal { val: 3 },
        Instruction::LoadVal { val: 4 },
        Instruction::Add,
        Instruction::ReturnValue,
    ];
    let len = ixs.len();
    let mut engine = ByteCodeEngine::default();
    engine.load_program(ixs);
    let mut calls = 0;
    loop {
        engine.run().unwrap();
        calls += 1;
        if engine.ip() == 0 {
            break;
        }
    }
    assert_eq!(calls, len);
}

#[test]
fn test_reset_clears_everything() {
    // After a completed pass the machine is fresh again: empty stack, both
    // registers zero, empty variable frame.
    let ixs: Vec<Instruction> = vec![
        Instruction::LoadVal { val: 9 },
        Instruction::WriteVar {
            name: "a".to_string(),
        },
        Instruction::ReadVar {
            name: "a".to_string(),
        },
        Instruction::ReturnValue,
    ];
    let mut engine = ByteCodeEngine::default();
    engine.ixs = ixs;
    for _ in 0..4 {
        engine.run().unwrap();
    }
    assert_eq!(engine.ip(), 0);
    assert_eq!(engine.sp(), 0);
    assert_eq!(engine.stack_len(), 0);
    assert!(engine.frame_is_empty());
    // The same program re-runs from fresh state and yields the same value.
    let mut last = None;
    for _ in 0..4 {
        last = engine.run().unwrap();
    }
    assert_eq!(last, Some(9));
}

#[test]
fn test_read_before_write_yields_zero() {
    // A variable written anywhere in the program exists, holding 0, before
    // the first instruction executes.
    let ixs: Vec<Instruction> = vec![
        Instruction::ReadVar {
            name: "x".to_string(),
        },
        Instruction::ReturnValue,
        Instruction::LoadVal { val: 7 },
        Instruction::WriteVar {
            name: "x".to_string(),
        },
    ];
    let mut engine = ByteCodeEngine::default();
    engine.ixs = ixs;
    assert_eq!(engine.run(), Ok(None));
    assert_eq!(engine.run(), Ok(Some(0)));
}

#[test]
fn test_add_wraps_at_16_bits() {
    let ixs: Vec<Instruction> = vec![
        Instruction::LoadVal { val: 65535 },
        Instruction::LoadVal { val: 2 },
        Instruction::Add,
        Instruction::ReturnValue,
    ];
    let mut engine = ByteCodeEngine::default();
    engine.ixs = ixs;
    let mut last = None;
    for _ in 0..4 {
        last = engine.run().unwrap();
    }
    assert_eq!(last, Some(1));
}

#[test]
fn test_multiply_wraps_at_16_bits() {
    let ixs: Vec<Instruction> = vec![
        Instruction::LoadVal { val: 256 },
        Instruction::LoadVal { val: 256 },
        Instruction::Multiply,
        Instruction::ReturnValue,
    ];
    let mut engine = ByteCodeEngine::default();
    engine.ixs = ixs;
    let mut last = None;
    for _ in 0..4 {
        last = engine.run().unwrap();
    }
    assert_eq!(last, Some(0));
}

#[test]
fn test_cmp_ne_pushes_one_and_zero() {
    let differ: Vec<Instruction> = vec![
        Instruction::LoadVal { val: 1 },
        Instruction::LoadVal { val: 2 },
        Instruction::CmpNe,
        Instruction::ReturnValue,
    ];
    let mut engine = ByteCodeEngine::default();
    engine.ixs = differ;
    let mut last = None;
    for _ in 0..4 {
        last = engine.run().unwrap();
    }
    assert_eq!(last, Some(1));

    let equal: Vec<Instruction> = vec![
        Instruction::LoadVal { val: 3 },
        Instruction::LoadVal { val: 3 },
        Instruction::CmpNe,
        Instruction::ReturnValue,
    ];
    let mut engine = ByteCodeEngine::default();
    engine.ixs = equal;
    let mut last = None;
    for _ in 0..4 {
        last = engine.run().unwrap();
    }
    assert_eq!(last, Some(0));
}

#[test]
fn test_invalid_jump_faults() {
    // A taken ConditionLoop whose offset exceeds ip + 1 must raise the
    // designated fault, not silently underflow the pointer.
    let ixs: Vec<Instruction> = vec![
        Instruction::LoadVal { val: 1 },
        Instruction::ConditionLoop { offset: 5 },
    ];
    let mut engine = ByteCodeEngine::default();
    engine.ixs = ixs;
    assert_eq!(engine.run(), Ok(None));
    assert_eq!(engine.run(), Err(VmFault::InvalidJump));
}

#[test]
fn test_jump_of_exactly_ip_plus_one_is_legal() {
    // offset == ip + 1 lands the pointer back on instruction 0; only a
    // greater offset faults. x counts 1, 2: the second pass ends the loop.
    let ixs: Vec<Instruction> = vec![
        Instruction::ReadVar {
            name: "x".to_string(),
        },
        Instruction::LoadVal { val: 1 },
        Instruction::Add,
        Instruction::WriteVar {
            name: "x".to_string(),
        },
        Instruction::ReadVar {
            name: "x".to_string(),
        },
        Instruction::LoadVal { val: 2 },
        Instruction::CmpNe,
        Instruction::ConditionLoop { offset: 8 },
        Instruction::ReadVar {
            name: "x".to_string(),
        },
        Instruction::ReturnValue,
    ];
    let mut engine = ByteCodeEngine::default();
    engine.ixs = ixs;
    let mut result = None;
    for _ in 0..18 {
        result = engine.run().unwrap();
        if result.is_some() {
            break;
        }
    }
    assert_eq!(result, Some(2));
}

#[test]
fn test_stack_underflow_faults() {
    let ixs: Vec<Instruction> = vec![Instruction::Add];
    let mut engine = ByteCodeEngine::default();
    engine.ixs = ixs;
    assert_eq!(engine.run(), Err(VmFault::StackUnderflow));
}

#[test]
fn test_return_on_empty_stack_faults() {
    let ixs: Vec<Instruction> = vec![Instruction::ReturnValue];
    let mut engine = ByteCodeEngine::default();
    engine.ixs = ixs;
    assert_eq!(engine.run(), Err(VmFault::StackUnderflow));
}

#[test]
fn test_write_consuming_own_slot_faults() {
    // The only value on the stack is the variable's own backing slot; popping
    // it for the write underflows the frame's storage.
    let ixs: Vec<Instruction> = vec![Instruction::WriteVar {
        name: "x".to_string(),
    }];
    let mut engine = ByteCodeEngine::default();
    engine.ixs = ixs;
    assert_eq!(engine.run(), Err(VmFault::StackUnderflow));
}

#[test]
fn test_unresolved_variable_faults() {
    // No WriteVar for "z" anywhere, so the pre-scan gives it no slot.
    let ixs: Vec<Instruction> = vec![
        Instruction::ReadVar {
            name: "z".to_string(),
        },
        Instruction::ReturnValue,
    ];
    let mut engine = ByteCodeEngine::default();
    engine.ixs = ixs;
    assert_eq!(engine.run(), Err(VmFault::UnresolvedVariable));
}

#[test]
fn test_fault_leaves_pre_scan_state() {
    // A faulting step leaves the machine as the pre-scan left it: the
    // pointer has not advanced and the scanned frame is still in place.
    let ixs: Vec<Instruction> = vec![
        Instruction::Add,
        Instruction::WriteVar {
            name: "x".to_string(),
        },
    ];
    let mut engine = ByteCodeEngine::default();
    engine.ixs = ixs;
    assert_eq!(engine.run(), Err(VmFault::StackUnderflow));
    assert_eq!(engine.ip(), 0);
    assert_eq!(engine.sp(), 1);
    assert_eq!(engine.stack_len(), 1);
    assert!(!engine.frame_is_empty());
}
