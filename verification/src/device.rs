//! Per-model quirks, isolated behind a trait.
//!
//! The SVD envelope differs between Roland models (Fantom-0 series vs Fantom 6/7/8, and cousins
//! like the Jupiter-X). Model-specific offsets and counts live behind [`Device`], so adding an
//! instrument is a new `impl` rather than a change to the parser.

use vstd::prelude::*;

verus! {

/// Model-specific constants and layout knowledge for a Roland instrument family.
pub trait Device {
    /// Human-readable model name, e.g. `"Fantom-08"`.
    fn name(&self) -> &'static str;

    /// Maximum number of zones a scene can hold on this device (typically 16).
    fn zones_per_scene(&self) -> (n: u8)
        default_ensures
            n == 16,
    {
        16
    }
}

/// The Fantom-0 series (FANTOM-06 / 07 / 08).
#[derive(Debug, Clone, Copy, Default)]
pub struct Fantom0;

impl Device for Fantom0 {
    fn name(&self) -> (s: &'static str)
        ensures
            s@ == "Fantom-0"@,
    {
        "Fantom-0"
    }
}

} // verus!
