//! Abort handling: naming fault status codes, the register state an abort leaves,
//! and the decisions of the backtrace walk over the unwinder's results.
use vstd::prelude::*;

verus! {

/// The registers saved on entry to an abort handler.
pub struct AbortRegs {
    pub sp: u32,
    pub lr: u32,
    /// R0-R12.
    pub gprs: [u32; 13],
    /// Padding (actually R0).
    pub _unused: u32,
    /// Return PC (SRSFD/RFEFD state).
    pub ret_pc: u32,
    pub spsr: u32,
}

/// The sixteen core registers R0-R15 that unwinding starts from after an abort: the
/// saved R0-R12, SP, LR, and the return PC.
pub open spec fn unwind_regs(r: &AbortRegs) -> Seq<u32> {
    r.gprs@ + seq![r.sp, r.lr, r.ret_pc]
}

/// The register state to start unwinding from, and the address to start at.
pub struct AbortUnwind {
    pub regs: [u32; 16],
    pub start: usize,
}

fn regs_from_abort(reg_state: &AbortRegs) -> (r: [u32; 16])
    ensures
        r@ == unwind_regs(reg_state),
{
    let r = [
        reg_state.gprs[0],
        reg_state.gprs[1],
        reg_state.gprs[2],
        reg_state.gprs[3],
        reg_state.gprs[4],
        reg_state.gprs[5],
        reg_state.gprs[6],
        reg_state.gprs[7],
        reg_state.gprs[8],
        reg_state.gprs[9],
        reg_state.gprs[10],
        reg_state.gprs[11],
        reg_state.gprs[12],
        reg_state.sp,
        reg_state.lr,
        reg_state.ret_pc,
    ];
    proof {
        assert(r@ =~= unwind_regs(reg_state));
    }
    r
}

/// A data abort at `pc`: the backtrace starts at `pc` from the saved registers.
pub fn data_abort_handler(pc: u32, reg_state: &AbortRegs, _dfar: u32, _dfsr: u32) -> (r: AbortUnwind)
    ensures
        r.regs@ == unwind_regs(reg_state),
        r.start == pc,
{
    AbortUnwind { regs: regs_from_abort(reg_state), start: pc as usize }
}

/// A prefetch abort at `pc`: the backtrace starts at `pc` from the saved registers.
pub fn prefetch_abort_handler(pc: u32, reg_state: &AbortRegs, _ifsr: u32) -> (r: AbortUnwind)
    ensures
        r.regs@ == unwind_regs(reg_state),
        r.start == pc,
{
    AbortUnwind { regs: regs_from_abort(reg_state), start: pc as usize }
}

/// The name of a fault status code, by its status bits (bits 10 and 3:0).
pub open spec fn fsr_text(status: u32) -> Seq<char> {
    if status == 0x001 {
        "Alignment fault"@
    } else if status == 0x004 {
        "Instruction cache maintainence"@
    } else if status == 0x00C {
        "Sync Ext abort walk lvl1"@
    } else if status == 0x00E {
        "Sync Ext abort walk lvl2"@
    } else if status == 0x40C {
        "Sync Ext pairity walk lvl1"@
    } else if status == 0x40E {
        "Sync Ext pairity walk lvl2"@
    } else if status == 0x005 {
        "Translation fault lvl1"@
    } else if status == 0x007 {
        "Translation fault lvl2"@
    } else if status == 0x003 {
        "Access flag fault lvl1"@
    } else if status == 0x006 {
        "Access flag fault lvl2"@
    } else if status == 0x009 {
        "Domain fault lvl1"@
    } else if status == 0x00B {
        "Domain fault lvl2"@
    } else if status == 0x00D {
        "Permissions fault lvl1"@
    } else if status == 0x00F {
        "Permissions fault lvl2"@
    } else {
        "undefined"@
    }
}

/// The name of the fault that a fault status register value reports.
pub fn fsr_name(ifsr: u32) -> (r: &'static str)
    ensures
        r@ == fsr_text(ifsr & 0x40F),
{
    match ifsr & 0x40F {
        0x001 => "Alignment fault",
        0x004 => "Instruction cache maintainence",
        0x00C => "Sync Ext abort walk lvl1",
        0x00E => "Sync Ext abort walk lvl2",
        0x40C => "Sync Ext pairity walk lvl1",
        0x40E => "Sync Ext pairity walk lvl2",
        0x005 => "Translation fault lvl1",
        0x007 => "Translation fault lvl2",
        0x003 => "Access flag fault lvl1",
        0x006 => "Access flag fault lvl2",
        0x009 => "Domain fault lvl1",
        0x00B => "Domain fault lvl2",
        0x00D => "Permissions fault lvl1",
        0x00F => "Permissions fault lvl2",
        _ => "undefined",
    }
}

/// What the unwinder reported for the address the walk is at.
pub enum UnwindEvent {
    /// No unwind information covers the address.
    NoInfo,
    /// Unwinding the frame failed.
    StepFailed,
    /// The frame was unwound, leaving `lr` in the link register.
    Stepped { lr: u32 },
}

/// What the backtrace walk does next.
#[derive(PartialEq, Eq, Structural, Debug)]
pub enum BacktraceAction {
    /// Report the frame at `addr` and walk on from there.
    Continue { addr: usize },
    /// The unwound frame is the one just reported: warn, then report the final LR.
    SameFrame,
    /// Report the final LR.
    Finish,
    /// Report the unwinding error and stop, without the final LR.
    Abort,
}

/// The walk's next move at `addr` (whose frame has just been reported when the
/// unwinder got as far as stepping it) given what the unwinder reported.
pub open spec fn next_action(addr: usize, ev: UnwindEvent) -> BacktraceAction {
    match ev {
        UnwindEvent::NoInfo => BacktraceAction::Finish,
        UnwindEvent::StepFailed => BacktraceAction::Abort,
        UnwindEvent::Stepped { lr } => if addr == lr as usize {
            BacktraceAction::SameFrame
        } else {
            BacktraceAction::Continue { addr: lr as usize }
        },
    }
}

/// One step of the backtrace walk: decides from the unwinder's report at `addr`
/// whether to go on (to the new link register's address), or how to stop.
pub fn print_backtrace_unwindstate(addr: usize, ev: UnwindEvent) -> (r: BacktraceAction)
    ensures
        r == next_action(addr, ev),
        r matches BacktraceAction::Continue { addr: next } ==> next != addr,
        ev matches UnwindEvent::Stepped { lr } ==> (lr as usize != addr ==> r == (BacktraceAction::Continue {
            addr: lr as usize,
        })),
{
    match ev {
        UnwindEvent::NoInfo => BacktraceAction::Finish,
        UnwindEvent::StepFailed => BacktraceAction::Abort,
        UnwindEvent::Stepped { lr } => {
            if addr == lr as usize {
                BacktraceAction::SameFrame
            } else {
                BacktraceAction::Continue { addr: lr as usize }
            }
        },
    }
}

/// The walk goes on exactly while the unwinder steps to a frame other than the one
/// just reported, and then at the new link register, whether it lies above or below
/// the current address; it finishes (with the final LR) when no unwind information
/// covers the address or the step leads back to it, and aborts when a step fails.
pub proof fn lemma_walk_continues_at_new_lr(addr: usize, ev: UnwindEvent)
    ensures
        next_action(addr, ev) is Continue <==> (ev matches UnwindEvent::Stepped { lr } && lr as usize != addr),
        ev matches UnwindEvent::Stepped { lr } ==> (lr as usize != addr ==> next_action(addr, ev) == (
        BacktraceAction::Continue { addr: lr as usize })),
        ev matches UnwindEvent::Stepped { lr } ==> (lr as usize == addr ==> next_action(addr, ev)
            == BacktraceAction::SameFrame),
        ev is NoInfo ==> next_action(addr, ev) == BacktraceAction::Finish,
        ev is StepFailed ==> next_action(addr, ev) == BacktraceAction::Abort,
{
}

/// The address whose symbol names the frame at return address `addr`: one before
/// it, so that a call at the very end of a function is not taken for the next one.
pub fn frame_symbol_addr(addr: usize) -> (r: usize)
    requires
        addr > 0,
    ensures
        r == addr - 1,
{
    addr - 1
}

/// The offset reported for a frame whose symbol lookup (one byte before the return
/// address) found offset `ofs` into its symbol.
pub fn frame_symbol_offset(ofs: usize) -> (r: usize)
    requires
        ofs < usize::MAX,
    ensures
        r == ofs + 1,
{
    ofs + 1
}

/// A backtrace of the current call chain starts at the current link register.
pub fn print_backtrace(lr: u32) -> (r: usize)
    ensures
        r == lr,
{
    lr as usize
}

} // verus!
