use vstd::prelude::*;

verus! {

/// What the machine-mode trap handler does for a trap.
#[derive(Clone, Copy, Debug, PartialEq, Eq, Structural)]
pub enum TrapAction {
    /// Machine software interrupt: log it.
    MachineSoftware,
    /// Machine timer interrupt: rearm `mtimecmp`.
    Timer,
    /// Machine external interrupt: claim and complete through the PLIC.
    External,
    /// Environment call from user mode: log it and step past it.
    UserEcall,
    /// Environment call from supervisor mode: log it and step past it.
    SupervisorEcall,
    /// Page faults: log them and step past the faulting instruction.
    InstructionPageFault,
    LoadPageFault,
    StorePageFault,
    /// Fatal: the kernel stops.
    IllegalInstruction,
    MachineEcall,
    UnhandledAsync,
    UnhandledSync,
}

/// The handler's decision: the action and where execution resumes.
#[derive(Clone, Copy, Debug, PartialEq, Eq, Structural)]
pub struct TrapDecision {
    pub action: TrapAction,
    pub return_pc: u64,
}

/// Bit 63 of `mcause`: the trap is an interrupt.
pub open spec fn is_interrupt(cause: u64) -> bool {
    (cause >> 63u64) & 1u64 == 1u64
}

/// The cause number: the low 12 bits of `mcause`.
pub open spec fn cause_code(cause: u64) -> u64 {
    cause & 0xfffu64
}

pub open spec fn spec_action(cause: u64) -> TrapAction {
    let code = cause_code(cause);
    if is_interrupt(cause) {
        if code == 3 {
            TrapAction::MachineSoftware
        } else if code == 7 {
            TrapAction::Timer
        } else if code == 11 {
            TrapAction::External
        } else {
            TrapAction::UnhandledAsync
        }
    } else {
        if code == 2 {
            TrapAction::IllegalInstruction
        } else if code == 8 {
            TrapAction::UserEcall
        } else if code == 9 {
            TrapAction::SupervisorEcall
        } else if code == 11 {
            TrapAction::MachineEcall
        } else if code == 12 {
            TrapAction::InstructionPageFault
        } else if code == 13 {
            TrapAction::LoadPageFault
        } else if code == 15 {
            TrapAction::StorePageFault
        } else {
            TrapAction::UnhandledSync
        }
    }
}

/// The action steps past the trapping instruction.
pub open spec fn steps_past(a: TrapAction) -> bool {
    match a {
        TrapAction::UserEcall | TrapAction::SupervisorEcall | TrapAction::InstructionPageFault
        | TrapAction::LoadPageFault | TrapAction::StorePageFault => true,
        _ => false,
    }
}

impl TrapAction {
    pub open spec fn spec_is_fatal(&self) -> bool {
        match self {
            TrapAction::IllegalInstruction | TrapAction::MachineEcall
            | TrapAction::UnhandledAsync | TrapAction::UnhandledSync => true,
            _ => false,
        }
    }

    /// The kernel cannot go on after this trap.
    pub fn is_fatal(&self) -> (r: bool)
        ensures
            r == self.spec_is_fatal(),
    {
        match self {
            TrapAction::IllegalInstruction | TrapAction::MachineEcall
            | TrapAction::UnhandledAsync | TrapAction::UnhandledSync => true,
            _ => false,
        }
    }
}

/// `x + d` modulo 2^64.
pub open spec fn wrap_add(x: u64, d: u64) -> u64 {
    ((x as int + d as int) % 0x1_0000_0000_0000_0000int) as u64
}

fn add_wrapping(x: u64, d: u64) -> (r: u64)
    ensures
        r == wrap_add(x, d),
{
    if x <= u64::MAX - d {
        x + d
    } else {
        x - (u64::MAX - d) - 1
    }
}

/// Decide what a trap with cause `cause` taken at `epc` calls for: environment
/// calls from user or supervisor mode and page faults resume past the
/// instruction, everything else at `epc`.
pub fn decide_trap(cause: u64, epc: u64) -> (r: TrapDecision)
    ensures
        r.action == spec_action(cause),
        r.return_pc == if steps_past(spec_action(cause)) {
            wrap_add(epc, 4)
        } else {
            epc
        },
{
    let code = cause & 0xfff;
    let action = if (cause >> 63) & 1 == 1 {
        if code == 3 {
            TrapAction::MachineSoftware
        } else if code == 7 {
            TrapAction::Timer
        } else if code == 11 {
            TrapAction::External
        } else {
            TrapAction::UnhandledAsync
        }
    } else {
        if code == 2 {
            TrapAction::IllegalInstruction
        } else if code == 8 {
            TrapAction::UserEcall
        } else if code == 9 {
            TrapAction::SupervisorEcall
        } else if code == 11 {
            TrapAction::MachineEcall
        } else if code == 12 {
            TrapAction::InstructionPageFault
        } else if code == 13 {
            TrapAction::LoadPageFault
        } else if code == 15 {
            TrapAction::StorePageFault
        } else {
            TrapAction::UnhandledSync
        }
    };
    let return_pc = match action {
        TrapAction::UserEcall | TrapAction::SupervisorEcall | TrapAction::InstructionPageFault
        | TrapAction::LoadPageFault | TrapAction::StorePageFault => add_wrapping(epc, 4),
        _ => epc,
    };
    TrapDecision { action, return_pc }
}

/// Ticks of `mtime` in one second at the platform's 10 MHz.
pub const TIMER_INTERVAL: u64 = 10_000_000;

/// The `mtimecmp` value that fires one second after `mtime`.
pub fn next_timer(mtime: u64) -> (r: u64)
    ensures
        r == wrap_add(mtime, TIMER_INTERVAL),
{
    add_wrapping(mtime, TIMER_INTERVAL)
}

/// How a byte received from the UART is echoed.
#[derive(Clone, Copy, Debug, PartialEq, Eq, Structural)]
pub enum Echo {
    /// Backspace: erase the last character on the terminal.
    Erase,
    /// Newline or carriage return: end the line.
    NewLine,
    /// Anything else: show the character.
    Show(u8),
}

/// Backspace (8) erases, newline (10) and carriage return (13) end the line,
/// every other byte is shown.
pub fn echo_for(c: u8) -> (r: Echo)
    ensures
        c == 8 ==> r == Echo::Erase,
        (c == 10 || c == 13) ==> r == Echo::NewLine,
        c != 8 && c != 10 && c != 13 ==> r == Echo::Show(c),
{
    if c == 8 {
        Echo::Erase
    } else if c == 10 || c == 13 {
        Echo::NewLine
    } else {
        Echo::Show(c)
    }
}

} // verus!
