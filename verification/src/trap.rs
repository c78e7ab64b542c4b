//! Decoding of the RISC-V supervisor trap cause register (`scause`).
use vstd::prelude::*;
use vstd::std_specs::convert::TryFromSpecImpl;

use crate::text::{lemma_prefixed_hex_len, prefixed_hex, push_prefixed_hex};

verus! {

/// Interrupt causes, as `scause` numbers them when its top bit is set.
#[derive(Debug, Clone, Copy, PartialEq, Eq)]
pub enum InterruptCause {
    Software,
    Timer,
    External,
    CounterOverflow,
}

/// Exception causes, as `scause` numbers them when its top bit is clear.
#[derive(Debug, Clone, Copy, PartialEq, Eq)]
pub enum ExceptionCause {
    InstructionAddressMisaligned,
    InstructionAccessFault,
    IllegalInstruction,
    Breakpoint,
    LoadAddressMisaligned,
    LoadAccessFault,
    StoreAddressMisaligned,
    StoreAccessFault,
    EnviornmentCallFromSupervisor,
    EnviornmentCallFromUser,
    InstructionPageFault,
    LoadPageFault,
    StorePageFault,
    SoftwareCheck,
    HardwareError,
}

/// A number that names no cause.
#[derive(Debug, Clone, Copy, PartialEq, Eq)]
pub struct InvalidConversion;

/// The interrupt cause that `code` numbers, if any.
pub open spec fn interrupt_from_code(code: usize) -> Result<InterruptCause, InvalidConversion> {
    match code {
        1 => Ok(InterruptCause::Software),
        5 => Ok(InterruptCause::Timer),
        9 => Ok(InterruptCause::External),
        13 => Ok(InterruptCause::CounterOverflow),
        _ => Err(InvalidConversion),
    }
}

/// The exception cause that `code` numbers, if any.
pub open spec fn exception_from_code(code: usize) -> Result<ExceptionCause, InvalidConversion> {
    match code {
        0 => Ok(ExceptionCause::InstructionAddressMisaligned),
        1 => Ok(ExceptionCause::InstructionAccessFault),
        2 => Ok(ExceptionCause::IllegalInstruction),
        3 => Ok(ExceptionCause::Breakpoint),
        4 => Ok(ExceptionCause::LoadAddressMisaligned),
        5 => Ok(ExceptionCause::LoadAccessFault),
        6 => Ok(ExceptionCause::StoreAddressMisaligned),
        7 => Ok(ExceptionCause::StoreAccessFault),
        8 => Ok(ExceptionCause::EnviornmentCallFromSupervisor),
        9 => Ok(ExceptionCause::EnviornmentCallFromUser),
        12 => Ok(ExceptionCause::InstructionPageFault),
        13 => Ok(ExceptionCause::LoadPageFault),
        15 => Ok(ExceptionCause::StorePageFault),
        18 => Ok(ExceptionCause::SoftwareCheck),
        19 => Ok(ExceptionCause::HardwareError),
        _ => Err(InvalidConversion),
    }
}

impl InterruptCause {
    /// The number that `scause` gives this cause.
    pub open spec fn spec_code(self) -> usize {
        match self {
            InterruptCause::Software => 1,
            InterruptCause::Timer => 5,
            InterruptCause::External => 9,
            InterruptCause::CounterOverflow => 13,
        }
    }

    /// The number that `scause` gives this cause.
    pub fn code(&self) -> (r: usize)
        ensures
            r == self.spec_code(),
    {
        match self {
            InterruptCause::Software => 1,
            InterruptCause::Timer => 5,
            InterruptCause::External => 9,
            InterruptCause::CounterOverflow => 13,
        }
    }
}

impl ExceptionCause {
    /// The number that `scause` gives this cause.
    pub open spec fn spec_code(self) -> usize {
        match self {
            ExceptionCause::InstructionAddressMisaligned => 0,
            ExceptionCause::InstructionAccessFault => 1,
            ExceptionCause::IllegalInstruction => 2,
            ExceptionCause::Breakpoint => 3,
            ExceptionCause::LoadAddressMisaligned => 4,
            ExceptionCause::LoadAccessFault => 5,
            ExceptionCause::StoreAddressMisaligned => 6,
            ExceptionCause::StoreAccessFault => 7,
            ExceptionCause::EnviornmentCallFromSupervisor => 8,
            ExceptionCause::EnviornmentCallFromUser => 9,
            ExceptionCause::InstructionPageFault => 12,
            ExceptionCause::LoadPageFault => 13,
            ExceptionCause::StorePageFault => 15,
            ExceptionCause::SoftwareCheck => 18,
            ExceptionCause::HardwareError => 19,
        }
    }

    /// The number that `scause` gives this cause.
    pub fn code(&self) -> (r: usize)
        ensures
            r == self.spec_code(),
    {
        match self {
            ExceptionCause::InstructionAddressMisaligned => 0,
            ExceptionCause::InstructionAccessFault => 1,
            ExceptionCause::IllegalInstruction => 2,
            ExceptionCause::Breakpoint => 3,
            ExceptionCause::LoadAddressMisaligned => 4,
            ExceptionCause::LoadAccessFault => 5,
            ExceptionCause::StoreAddressMisaligned => 6,
            ExceptionCause::StoreAccessFault => 7,
            ExceptionCause::EnviornmentCallFromSupervisor => 8,
            ExceptionCause::EnviornmentCallFromUser => 9,
            ExceptionCause::InstructionPageFault => 12,
            ExceptionCause::LoadPageFault => 13,
            ExceptionCause::StorePageFault => 15,
            ExceptionCause::SoftwareCheck => 18,
            ExceptionCause::HardwareError => 19,
        }
    }
}

impl TryFrom<usize> for ExceptionCause {
    type Error = InvalidConversion;

    fn try_from(value: usize) -> (r: Result<Self, Self::Error>) {
        let value = match value {
            0 => Self::InstructionAddressMisaligned,
            1 => Self::InstructionAccessFault,
            2 => Self::IllegalInstruction,
            3 => Self::Breakpoint,
            4 => Self::LoadAddressMisaligned,
            5 => Self::LoadAccessFault,
            6 => Self::StoreAddressMisaligned,
            7 => Self::StoreAccessFault,
            8 => Self::EnviornmentCallFromSupervisor,
            9 => Self::EnviornmentCallFromUser,
            12 => Self::InstructionPageFault,
            13 => Self::LoadPageFault,
            15 => Self::StorePageFault,
            18 => Self::SoftwareCheck,
            19 => Self::HardwareError,
            _ => return Err(InvalidConversion),
        };
        Ok(value)
    }
}

impl TryFromSpecImpl<usize> for ExceptionCause {
    open spec fn obeys_try_from_spec() -> bool {
        true
    }

    open spec fn try_from_spec(v: usize) -> Result<Self, Self::Error> {
        exception_from_code(v)
    }
}

impl TryFrom<usize> for InterruptCause {
    type Error = InvalidConversion;

    fn try_from(value: usize) -> (r: Result<Self, Self::Error>) {
        let value = match value {
            1 => Self::Software,
            5 => Self::Timer,
            9 => Self::External,
            13 => Self::CounterOverflow,
            _ => return Err(InvalidConversion),
        };
        Ok(value)
    }
}

impl TryFromSpecImpl<usize> for InterruptCause {
    open spec fn obeys_try_from_spec() -> bool {
        true
    }

    open spec fn try_from_spec(v: usize) -> Result<Self, Self::Error> {
        interrupt_from_code(v)
    }
}

/// The cause of a trap.
#[derive(Debug, Clone, Copy, PartialEq, Eq)]
pub enum Cause {
    Interrupt(InterruptCause),
    Exception(ExceptionCause),
}

/// Whether `scause` says that the trap is an interrupt: its bit 63 is set.
pub open spec fn scause_is_interrupt(scause: usize) -> bool {
    ((scause as u64) >> 63u64) & 1u64 == 1u64
}

/// The cause number that `scause` holds: all its bits but bit 63.
pub open spec fn scause_code(scause: usize) -> usize {
    ((scause as u64) & 0x7fff_ffff_ffff_ffffu64) as usize
}

/// The cause that `scause` stands for, if it names one.
pub open spec fn cause_of_scause(scause: usize) -> Result<Cause, InvalidConversion> {
    if scause_is_interrupt(scause) {
        match interrupt_from_code(scause_code(scause)) {
            Ok(c) => Ok(Cause::Interrupt(c)),
            Err(e) => Err(e),
        }
    } else {
        match exception_from_code(scause_code(scause)) {
            Ok(c) => Ok(Cause::Exception(c)),
            Err(e) => Err(e),
        }
    }
}

impl Cause {
    /// Decodes the value of the `scause` register.
    pub fn from_scause(scause: usize) -> (r: Result<Self, InvalidConversion>)
        ensures
            r == cause_of_scause(scause),
    {
        let raw = scause as u64;
        let interrupt = ((raw >> 63u64) & 1u64) == 1u64;
        let masked = raw & 0x7fff_ffff_ffff_ffffu64;
        assert(masked <= raw) by (bit_vector)
            requires
                masked == raw & 0x7fff_ffff_ffff_ffffu64,
        ;
        let cause = masked as usize;
        if interrupt {
            match InterruptCause::try_from(cause) {
                Ok(c) => Ok(Self::Interrupt(c)),
                Err(e) => Err(e),
            }
        } else {
            match ExceptionCause::try_from(cause) {
                Ok(c) => Ok(Self::Exception(c)),
                Err(e) => Err(e),
            }
        }
    }
}

/// The registers that the trap entry code saves before it calls the kernel.
#[derive(Debug, Clone, Copy)]
pub struct TrapFrame {
    pub ra: usize,
    pub sp: usize,
    pub gp: usize,
    pub tp: usize,
    pub t0: usize,
    pub t1: usize,
    pub t2: usize,
    pub s0: usize,
    pub s1: usize,
    pub a0: usize,
    pub a1: usize,
    pub a2: usize,
    pub a3: usize,
    pub a4: usize,
    pub a5: usize,
    pub a6: usize,
    pub a7: usize,
    pub s2: usize,
    pub s3: usize,
    pub s4: usize,
    pub s5: usize,
    pub s6: usize,
    pub s7: usize,
    pub s8: usize,
    pub s9: usize,
    pub s10: usize,
    pub s11: usize,
    pub t3: usize,
    pub t4: usize,
    pub t5: usize,
    pub t6: usize,
}

/// Decoding the number of an interrupt cause gives back that cause, and a
/// number decodes to an interrupt cause only if it is that cause's number.
pub proof fn law_interrupt_code_roundtrip(c: InterruptCause, n: usize)
    ensures
        interrupt_from_code(c.spec_code()) == Ok::<InterruptCause, InvalidConversion>(c),
        interrupt_from_code(n) matches Ok(d) ==> d.spec_code() == n,
{
}

/// Decoding the number of an exception cause gives back that cause, and a
/// number decodes to an exception cause only if it is that cause's number.
pub proof fn law_exception_code_roundtrip(c: ExceptionCause, n: usize)
    ensures
        exception_from_code(c.spec_code()) == Ok::<ExceptionCause, InvalidConversion>(c),
        exception_from_code(n) matches Ok(d) ==> d.spec_code() == n,
{
}

/// An `scause` value that holds an exception's number, with bit 63 clear,
/// decodes to that exception.
pub proof fn law_scause_of_exception(c: ExceptionCause)
    ensures
        cause_of_scause(c.spec_code()) == Ok::<Cause, InvalidConversion>(Cause::Exception(c)),
{
    let n = c.spec_code();
    let raw = n as u64;
    assert(raw < 20 ==> (raw >> 63u64) & 1u64 == 0u64 && raw & 0x7fff_ffff_ffff_ffffu64 == raw)
        by (bit_vector);
}

/// An `scause` value with bit 63 set and an interrupt's number in its other
/// bits decodes to that interrupt.
pub proof fn law_scause_of_interrupt(c: InterruptCause, scause: usize)
    requires
        scause as u64 == 0x8000_0000_0000_0000u64 | (c.spec_code() as u64),
    ensures
        cause_of_scause(scause) == Ok::<Cause, InvalidConversion>(Cause::Interrupt(c)),
{
    let raw = scause as u64;
    let n = c.spec_code() as u64;
    assert(n < 16 && raw == 0x8000_0000_0000_0000u64 | n ==> (raw >> 63u64) & 1u64 == 1u64 && raw
        & 0x7fff_ffff_ffff_ffffu64 == n) by (bit_vector);
}

/// Whether `scause` decodes, and to what, depends only on its bit 63 and its
/// cause number; no value decodes to both an interrupt and an exception.
pub proof fn law_scause_kind(scause: usize)
    ensures
        cause_of_scause(scause) matches Ok(Cause::Interrupt(c)) ==> scause_is_interrupt(scause)
            && c.spec_code() == scause_code(scause),
        cause_of_scause(scause) matches Ok(Cause::Exception(c)) ==> !scause_is_interrupt(scause)
            && c.spec_code() == scause_code(scause),
{
}

/// A register's label, then its value in hexadecimal with `0x` and 16 digits.
pub open spec fn frame_field(label: Seq<char>, v: nat) -> Seq<char> {
    label + prefixed_hex(v, 16)
}

/// The saved registers as text: a blank line, then eight lines of
/// `name=value` pairs, each value in hexadecimal with `0x` and 16 digits.
pub open spec fn frame_text(f: TrapFrame) -> Seq<char> {
    "\n"@
        + (frame_field("t0="@, f.t0 as nat) + frame_field("  a0="@, f.a0 as nat) + frame_field("  s0="@, f.s0 as nat) + frame_field("   s8="@, f.s8 as nat) + "\n"@)
        + (frame_field("t1="@, f.t1 as nat) + frame_field("  a1="@, f.a1 as nat) + frame_field("  s1="@, f.s1 as nat) + frame_field("   s9="@, f.s9 as nat) + "\n"@)
        + (frame_field("t2="@, f.t2 as nat) + frame_field("  a2="@, f.a2 as nat) + frame_field("  s2="@, f.s2 as nat) + frame_field("  s10="@, f.s10 as nat) + "\n"@)
        + (frame_field("t3="@, f.t3 as nat) + frame_field("  a3="@, f.a3 as nat) + frame_field("  s3="@, f.s3 as nat) + frame_field("  s11="@, f.s11 as nat) + "\n"@)
        + (frame_field("t4="@, f.t4 as nat) + frame_field("  a4="@, f.a4 as nat) + frame_field("  s4="@, f.s4 as nat) + frame_field("   ra="@, f.ra as nat) + "\n"@)
        + (frame_field("t5="@, f.t5 as nat) + frame_field("  a5="@, f.a5 as nat) + frame_field("  s5="@, f.s5 as nat) + frame_field("   sp="@, f.sp as nat) + "\n"@)
        + (frame_field("t6="@, f.t6 as nat) + frame_field("  a6="@, f.a6 as nat) + frame_field("  s6="@, f.s6 as nat) + frame_field("   gp="@, f.gp as nat) + "\n"@)
        + (frame_field("tp="@, f.tp as nat) + frame_field("  a7="@, f.a7 as nat) + frame_field("  s7="@, f.s7 as nat) + "\n"@)
}

/// Each label of the frame text is followed by the value of that same
/// register: the text is 713 characters long, and for every register the
/// characters from its fixed place on are its label, then its value in
/// hexadecimal with `0x` and 16 digits.
pub proof fn law_frame_text_labels_values(f: TrapFrame)
    ensures
        frame_text(f).len() == 713,
        frame_text(f).subrange(1, 22) == "t0="@ + prefixed_hex(f.t0 as nat, 16),
        frame_text(f).subrange(22, 45) == "  a0="@ + prefixed_hex(f.a0 as nat, 16),
        frame_text(f).subrange(45, 68) == "  s0="@ + prefixed_hex(f.s0 as nat, 16),
        frame_text(f).subrange(68, 92) == "   s8="@ + prefixed_hex(f.s8 as nat, 16),
        frame_text(f).subrange(93, 114) == "t1="@ + prefixed_hex(f.t1 as nat, 16),
        frame_text(f).subrange(114, 137) == "  a1="@ + prefixed_hex(f.a1 as nat, 16),
        frame_text(f).subrange(137, 160) == "  s1="@ + prefixed_hex(f.s1 as nat, 16),
        frame_text(f).subrange(160, 184) == "   s9="@ + prefixed_hex(f.s9 as nat, 16),
        frame_text(f).subrange(185, 206) == "t2="@ + prefixed_hex(f.t2 as nat, 16),
        frame_text(f).subrange(206, 229) == "  a2="@ + prefixed_hex(f.a2 as nat, 16),
        frame_text(f).subrange(229, 252) == "  s2="@ + prefixed_hex(f.s2 as nat, 16),
        frame_text(f).subrange(252, 276) == "  s10="@ + prefixed_hex(f.s10 as nat, 16),
        frame_text(f).subrange(277, 298) == "t3="@ + prefixed_hex(f.t3 as nat, 16),
        frame_text(f).subrange(298, 321) == "  a3="@ + prefixed_hex(f.a3 as nat, 16),
        frame_text(f).subrange(321, 344) == "  s3="@ + prefixed_hex(f.s3 as nat, 16),
        frame_text(f).subrange(344, 368) == "  s11="@ + prefixed_hex(f.s11 as nat, 16),
        frame_text(f).subrange(369, 390) == "t4="@ + prefixed_hex(f.t4 as nat, 16),
        frame_text(f).subrange(390, 413) == "  a4="@ + prefixed_hex(f.a4 as nat, 16),
        frame_text(f).subrange(413, 436) == "  s4="@ + prefixed_hex(f.s4 as nat, 16),
        frame_text(f).subrange(436, 460) == "   ra="@ + prefixed_hex(f.ra as nat, 16),
        frame_text(f).subrange(461, 482) == "t5="@ + prefixed_hex(f.t5 as nat, 16),
        frame_text(f).subrange(482, 505) == "  a5="@ + prefixed_hex(f.a5 as nat, 16),
        frame_text(f).subrange(505, 528) == "  s5="@ + prefixed_hex(f.s5 as nat, 16),
        frame_text(f).subrange(528, 552) == "   sp="@ + prefixed_hex(f.sp as nat, 16),
        frame_text(f).subrange(553, 574) == "t6="@ + prefixed_hex(f.t6 as nat, 16),
        frame_text(f).subrange(574, 597) == "  a6="@ + prefixed_hex(f.a6 as nat, 16),
        frame_text(f).subrange(597, 620) == "  s6="@ + prefixed_hex(f.s6 as nat, 16),
        frame_text(f).subrange(620, 644) == "   gp="@ + prefixed_hex(f.gp as nat, 16),
        frame_text(f).subrange(645, 666) == "tp="@ + prefixed_hex(f.tp as nat, 16),
        frame_text(f).subrange(666, 689) == "  a7="@ + prefixed_hex(f.a7 as nat, 16),
        frame_text(f).subrange(689, 712) == "  s7="@ + prefixed_hex(f.s7 as nat, 16),
{
    reveal_strlit("   gp=");
    reveal_strlit("   ra=");
    reveal_strlit("   s8=");
    reveal_strlit("   s9=");
    reveal_strlit("   sp=");
    reveal_strlit("  a0=");
    reveal_strlit("  a1=");
    reveal_strlit("  a2=");
    reveal_strlit("  a3=");
    reveal_strlit("  a4=");
    reveal_strlit("  a5=");
    reveal_strlit("  a6=");
    reveal_strlit("  a7=");
    reveal_strlit("  s0=");
    reveal_strlit("  s10=");
    reveal_strlit("  s11=");
    reveal_strlit("  s1=");
    reveal_strlit("  s2=");
    reveal_strlit("  s3=");
    reveal_strlit("  s4=");
    reveal_strlit("  s5=");
    reveal_strlit("  s6=");
    reveal_strlit("  s7=");
    reveal_strlit("\n");
    reveal_strlit("t0=");
    reveal_strlit("t1=");
    reveal_strlit("t2=");
    reveal_strlit("t3=");
    reveal_strlit("t4=");
    reveal_strlit("t5=");
    reveal_strlit("t6=");
    reveal_strlit("tp=");
    lemma_prefixed_hex_len(f.t0 as nat);
    lemma_prefixed_hex_len(f.a0 as nat);
    lemma_prefixed_hex_len(f.s0 as nat);
    lemma_prefixed_hex_len(f.s8 as nat);
    lemma_prefixed_hex_len(f.t1 as nat);
    lemma_prefixed_hex_len(f.a1 as nat);
    lemma_prefixed_hex_len(f.s1 as nat);
    lemma_prefixed_hex_len(f.s9 as nat);
    lemma_prefixed_hex_len(f.t2 as nat);
    lemma_prefixed_hex_len(f.a2 as nat);
    lemma_prefixed_hex_len(f.s2 as nat);
    lemma_prefixed_hex_len(f.s10 as nat);
    lemma_prefixed_hex_len(f.t3 as nat);
    lemma_prefixed_hex_len(f.a3 as nat);
    lemma_prefixed_hex_len(f.s3 as nat);
    lemma_prefixed_hex_len(f.s11 as nat);
    lemma_prefixed_hex_len(f.t4 as nat);
    lemma_prefixed_hex_len(f.a4 as nat);
    lemma_prefixed_hex_len(f.s4 as nat);
    lemma_prefixed_hex_len(f.ra as nat);
    lemma_prefixed_hex_len(f.t5 as nat);
    lemma_prefixed_hex_len(f.a5 as nat);
    lemma_prefixed_hex_len(f.s5 as nat);
    lemma_prefixed_hex_len(f.sp as nat);
    lemma_prefixed_hex_len(f.t6 as nat);
    lemma_prefixed_hex_len(f.a6 as nat);
    lemma_prefixed_hex_len(f.s6 as nat);
    lemma_prefixed_hex_len(f.gp as nat);
    lemma_prefixed_hex_len(f.tp as nat);
    lemma_prefixed_hex_len(f.a7 as nat);
    lemma_prefixed_hex_len(f.s7 as nat);
    let t = frame_text(f);
    assert(t.subrange(1, 22) =~= "t0="@ + prefixed_hex(f.t0 as nat, 16));
    assert(t.subrange(22, 45) =~= "  a0="@ + prefixed_hex(f.a0 as nat, 16));
    assert(t.subrange(45, 68) =~= "  s0="@ + prefixed_hex(f.s0 as nat, 16));
    assert(t.subrange(68, 92) =~= "   s8="@ + prefixed_hex(f.s8 as nat, 16));
    assert(t.subrange(93, 114) =~= "t1="@ + prefixed_hex(f.t1 as nat, 16));
    assert(t.subrange(114, 137) =~= "  a1="@ + prefixed_hex(f.a1 as nat, 16));
    assert(t.subrange(137, 160) =~= "  s1="@ + prefixed_hex(f.s1 as nat, 16));
    assert(t.subrange(160, 184) =~= "   s9="@ + prefixed_hex(f.s9 as nat, 16));
    assert(t.subrange(185, 206) =~= "t2="@ + prefixed_hex(f.t2 as nat, 16));
    assert(t.subrange(206, 229) =~= "  a2="@ + prefixed_hex(f.a2 as nat, 16));
    assert(t.subrange(229, 252) =~= "  s2="@ + prefixed_hex(f.s2 as nat, 16));
    assert(t.subrange(252, 276) =~= "  s10="@ + prefixed_hex(f.s10 as nat, 16));
    assert(t.subrange(277, 298) =~= "t3="@ + prefixed_hex(f.t3 as nat, 16));
    assert(t.subrange(298, 321) =~= "  a3="@ + prefixed_hex(f.a3 as nat, 16));
    assert(t.subrange(321, 344) =~= "  s3="@ + prefixed_hex(f.s3 as nat, 16));
    assert(t.subrange(344, 368) =~= "  s11="@ + prefixed_hex(f.s11 as nat, 16));
    assert(t.subrange(369, 390) =~= "t4="@ + prefixed_hex(f.t4 as nat, 16));
    assert(t.subrange(390, 413) =~= "  a4="@ + prefixed_hex(f.a4 as nat, 16));
    assert(t.subrange(413, 436) =~= "  s4="@ + prefixed_hex(f.s4 as nat, 16));
    assert(t.subrange(436, 460) =~= "   ra="@ + prefixed_hex(f.ra as nat, 16));
    assert(t.subrange(461, 482) =~= "t5="@ + prefixed_hex(f.t5 as nat, 16));
    assert(t.subrange(482, 505) =~= "  a5="@ + prefixed_hex(f.a5 as nat, 16));
    assert(t.subrange(505, 528) =~= "  s5="@ + prefixed_hex(f.s5 as nat, 16));
    assert(t.subrange(528, 552) =~= "   sp="@ + prefixed_hex(f.sp as nat, 16));
    assert(t.subrange(553, 574) =~= "t6="@ + prefixed_hex(f.t6 as nat, 16));
    assert(t.subrange(574, 597) =~= "  a6="@ + prefixed_hex(f.a6 as nat, 16));
    assert(t.subrange(597, 620) =~= "  s6="@ + prefixed_hex(f.s6 as nat, 16));
    assert(t.subrange(620, 644) =~= "   gp="@ + prefixed_hex(f.gp as nat, 16));
    assert(t.subrange(645, 666) =~= "tp="@ + prefixed_hex(f.tp as nat, 16));
    assert(t.subrange(666, 689) =~= "  a7="@ + prefixed_hex(f.a7 as nat, 16));
    assert(t.subrange(689, 712) =~= "  s7="@ + prefixed_hex(f.s7 as nat, 16));
}

/// Appends `label`, then `v` in hexadecimal with `0x` and 16 digits.
fn push_field(out: &mut String, label: &str, v: usize)
    ensures
        final(out)@ == old(out)@ + frame_field(label@, v as nat),
{
    out.append(label);
    push_prefixed_hex(out, v as u64, 16);
    assert(out@ =~= old(out)@ + frame_field(label@, v as nat));
}

/// Appends a line of four registers, each as `frame_field` gives it, then a newline.
fn push_line4(
    out: &mut String,
    l1: &str,
    v1: usize,
    l2: &str,
    v2: usize,
    l3: &str,
    v3: usize,
    l4: &str,
    v4: usize,
)
    ensures
        final(out)@ == old(out)@ + (frame_field(l1@, v1 as nat) + frame_field(l2@, v2 as nat)
            + frame_field(l3@, v3 as nat) + frame_field(l4@, v4 as nat) + "\n"@),
{
    push_field(out, l1, v1);
    push_field(out, l2, v2);
    push_field(out, l3, v3);
    push_field(out, l4, v4);
    out.append("\n");
    assert(out@ =~= old(out)@ + (frame_field(l1@, v1 as nat) + frame_field(l2@, v2 as nat)
        + frame_field(l3@, v3 as nat) + frame_field(l4@, v4 as nat) + "\n"@));
}

/// Appends a line of three registers, each as `frame_field` gives it, then a newline.
fn push_line3(out: &mut String, l1: &str, v1: usize, l2: &str, v2: usize, l3: &str, v3: usize)
    ensures
        final(out)@ == old(out)@ + (frame_field(l1@, v1 as nat) + frame_field(l2@, v2 as nat)
            + frame_field(l3@, v3 as nat) + "\n"@),
{
    push_field(out, l1, v1);
    push_field(out, l2, v2);
    push_field(out, l3, v3);
    out.append("\n");
    assert(out@ =~= old(out)@ + (frame_field(l1@, v1 as nat) + frame_field(l2@, v2 as nat)
        + frame_field(l3@, v3 as nat) + "\n"@));
}

impl TrapFrame {
    /// The saved registers as text, laid out in four columns.
    pub fn to_string(&self) -> (r: String)
        ensures
            r@ == frame_text(*self),
    {
        let mut out = String::from_str("\n");
        push_line4(&mut out, "t0=", self.t0, "  a0=", self.a0, "  s0=", self.s0, "   s8=", self.s8);
        push_line4(&mut out, "t1=", self.t1, "  a1=", self.a1, "  s1=", self.s1, "   s9=", self.s9);
        push_line4(&mut out, "t2=", self.t2, "  a2=", self.a2, "  s2=", self.s2, "  s10=", self.s10);
        push_line4(&mut out, "t3=", self.t3, "  a3=", self.a3, "  s3=", self.s3, "  s11=", self.s11);
        push_line4(&mut out, "t4=", self.t4, "  a4=", self.a4, "  s4=", self.s4, "   ra=", self.ra);
        push_line4(&mut out, "t5=", self.t5, "  a5=", self.a5, "  s5=", self.s5, "   sp=", self.sp);
        push_line4(&mut out, "t6=", self.t6, "  a6=", self.a6, "  s6=", self.s6, "   gp=", self.gp);
        push_line3(&mut out, "tp=", self.tp, "  a7=", self.a7, "  s7=", self.s7);
        out
    }
}

} // verus!
