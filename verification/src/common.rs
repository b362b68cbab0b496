use vstd::prelude::*;

verus! {

/// The largest ray parameter; it stands for "no limit".
pub const INFINITY: i64 = 0x7fff_ffff_ffff_ffff;

/// How many units of the fixed-point ray parameter make one whole step of the
/// ray's direction vector.
pub const PARAM_SCALE: i64 = 65536;

/// Which quantity a path carries.
#[derive(Clone, Copy, PartialEq, Eq, Structural, Debug)]
pub enum TransportMode {
    Radiance,
    Importance,
}

} // verus!
