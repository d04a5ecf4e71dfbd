//! The plain data of the rewrite engine that the library holds: the
//! conservation and emergence modes, defect log entries, and the header of
//! the interaction table the engine streams out.
use vstd::prelude::*;

verus! {

/// A time step at which a defect was injected.
#[derive(Clone, Copy, Debug, PartialEq, Eq, Structural)]
pub struct DefectLogEntry {
    pub time: usize,
}

/// Which conservation patch the engine applies.
#[derive(Clone, Copy, Debug, PartialEq, Eq, Structural)]
pub enum ConservationMode {
    Baseline,
    Pairwise,
    StabilityScaled,
    FluxCompensated,
    MassCoupled,
    TimeSymmetry,
    Hybrid,
}

/// The emergence regime of the engine.
#[derive(Clone, Copy, Debug, PartialEq, Eq, Structural)]
pub enum EmergenceMode {
    /// No stability bonus, hard threshold.
    Control,
    /// Inherited stability and a sigmoid threshold.
    Assisted,
    /// Constant bonus, hard threshold.
    Forced,
}

/// The seventeen column names of the interaction table, comma separated.
pub const INTERACTION_HEADER: &'static str = "pre_px,pre_py,post_px,post_py,pre_p_mag,post_p_mag,pre_mass,post_mass,pre_s_sum,post_s_sum,pre_s_mean,post_s_mean,chi,duration,stability_bin,pre_E_total,post_E_total";

/// Streaming of the engine's interaction table.
pub struct Persistence;

impl Persistence {
    /// The header line of the interaction table (without the line break).
    pub fn write_header() -> (line: String)
        ensures
            line@ == INTERACTION_HEADER@,
    {
        INTERACTION_HEADER.to_owned()
    }
}

} // verus!
