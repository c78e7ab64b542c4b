//! Calls into the RISC-V Supervisor Binary Interface (SBI).
use vstd::prelude::*;

verus! {

/// Extension ID of the SBI debug console extension ("DBCN").
pub const DBCN_EID: usize = 0x4442434E;

/// Function ID of the debug console's write function.
pub const DBCN_WRITE_FID: usize = 0x0;

/// Extension ID of the SBI timer extension ("TIME").
pub const TIME_EID: usize = 0x54494D45;

/// Function ID of the timer's `set_timer` function.
pub const TIME_SET_TIMER_FID: usize = 0x0;

/// The registers of one SBI call: `a0`..`a5` carry its arguments, `a6` the
/// function ID and `a7` the extension ID.
#[derive(Debug)]
pub struct Sbi {
    /// First argument for the SBI call
    a0: usize,
    /// Second argument for the SBI call
    a1: usize,
    /// Third argument for the SBI call
    a2: usize,
    /// Fourth argument for the SBI call
    a3: usize,
    /// Fifth argument for the SBI call
    a4: usize,
    /// Sixth argument for the SBI call
    a5: usize,
    /// Function ID for the SBI call
    fid: usize,
    /// Extension ID for the SBI call
    eid: usize,
}

impl View for Sbi {
    type V = Seq<usize>;

    /// The values of `a0` to `a7`, in that order.
    closed spec fn view(&self) -> Seq<usize> {
        seq![self.a0, self.a1, self.a2, self.a3, self.a4, self.a5, self.fid, self.eid]
    }
}

impl Sbi {
    /// The call that writes `num_bytes` bytes, found at physical address
    /// `base_addr`, to the debug console. The address fits in `a1`, so its
    /// high half, in `a2`, is 0.
    pub fn dbcn_console_write(num_bytes: usize, base_addr: usize) -> (r: Sbi)
        ensures
            r@ == seq![num_bytes, base_addr, 0usize, 0usize, 0usize, 0usize, DBCN_WRITE_FID, DBCN_EID],
    {
        let (base_addr_lo, base_addr_hi) = (base_addr, 0);
        Self {
            a0: num_bytes,
            a1: base_addr_lo,
            a2: base_addr_hi,
            a3: 0,
            a4: 0,
            a5: 0,
            fid: DBCN_WRITE_FID,
            eid: DBCN_EID,
        }
    }

    /// The call that programs the next timer event for `stime_value`.
    pub fn time_set_timer(stime_value: usize) -> (r: Sbi)
        ensures
            r@ == seq![stime_value, 0usize, 0usize, 0usize, 0usize, 0usize, TIME_SET_TIMER_FID, TIME_EID],
    {
        Self { a0: stime_value, a1: 0, a2: 0, a3: 0, a4: 0, a5: 0, fid: TIME_SET_TIMER_FID, eid: TIME_EID }
    }

    /// The values to load into `a0` to `a7` for the call.
    pub fn registers(&self) -> (r: [usize; 8])
        ensures
            r@ == self@,
    {
        [self.a0, self.a1, self.a2, self.a3, self.a4, self.a5, self.fid, self.eid]
    }
}

} // verus!
