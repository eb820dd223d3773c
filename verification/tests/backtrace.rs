use tifflin::backtrace::{
    data_abort_handler, frame_symbol_addr, frame_symbol_offset, fsr_name, prefetch_abort_handler,
    print_backtrace, print_backtrace_unwindstate, AbortRegs, BacktraceAction, UnwindEvent,
};

fn regs() -> AbortRegs {
    AbortRegs {
        sp: 0x100,
        lr: 0x200,
        gprs: [0, 1, 2, 3, 4, 5, 6, 7, 8, 9, 10, 11, 12],
        _unused: 0xdead,
        ret_pc: 0x300,
        spsr: 0x1f,
    }
}

#[test]
fn fsr_names() {
    assert_eq!(fsr_name(0x001), "Alignment fault");
    assert_eq!(fsr_name(0x005), "Translation fault lvl1");
    assert_eq!(fsr_name(0x807), "Translation fault lvl2");
    assert_eq!(fsr_name(0x40C), "Sync Ext pairity walk lvl1");
    assert_eq!(fsr_name(0x00F), "Permissions fault lvl2");
    assert_eq!(fsr_name(0x002), "undefined");
    assert_eq!(fsr_name(0x40F), "undefined");
}

#[test]
fn abort_registers() {
    let r = regs();
    let d = data_abort_handler(0x1234, &r, 0, 0);
    assert_eq!(d.regs, [0, 1, 2, 3, 4, 5, 6, 7, 8, 9, 10, 11, 12, 0x100, 0x200, 0x300]);
    assert_eq!(d.start, 0x1234);
    let p = prefetch_abort_handler(0x4444, &r, 5);
    assert_eq!(p.regs, d.regs);
    assert_eq!(p.start, 0x4444);
}

#[test]
fn walk_decisions() {
    assert_eq!(print_backtrace_unwindstate(0x100, UnwindEvent::NoInfo), BacktraceAction::Finish);
    assert_eq!(print_backtrace_unwindstate(0x100, UnwindEvent::StepFailed), BacktraceAction::Abort);
    assert_eq!(
        print_backtrace_unwindstate(0x100, UnwindEvent::Stepped { lr: 0x100 }),
        BacktraceAction::SameFrame
    );
    assert_eq!(
        print_backtrace_unwindstate(0x100, UnwindEvent::Stepped { lr: 0x204 }),
        BacktraceAction::Continue { addr: 0x204 }
    );
    assert_eq!(frame_symbol_addr(0x204), 0x203);
    assert_eq!(frame_symbol_offset(0x10), 0x11);
    assert_eq!(print_backtrace(0x8000_1234), 0x8000_1234);
}
