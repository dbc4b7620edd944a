//! The antenna types the operator can pick, and which inputs each one uses.
use vstd::prelude::*;

verus! {

/// The antenna types the UI offers today.
#[derive(Clone, Copy, PartialEq, Eq, Debug, Structural)]
pub enum AntennaKind {
    Isotropic,
    HorizontalDipole,
    VerticalMonopole,
    Efhw,
}

/// The name each antenna type is shown under.
pub open spec fn kind_label(kind: AntennaKind) -> Seq<char> {
    match kind {
        AntennaKind::Isotropic => "isotropic (0 dBi)"@,
        AntennaKind::HorizontalDipole => "horizontal half-wave dipole"@,
        AntennaKind::VerticalMonopole => "ground-mounted vertical (1/4 wave)"@,
        AntennaKind::Efhw => "end-fed half-wave (EFHW)"@,
    }
}

impl AntennaKind {
    /// Every type, in the order the picker lists them.
    pub const ALL: [Self; 4] = [
        Self::HorizontalDipole,
        Self::VerticalMonopole,
        Self::Efhw,
        Self::Isotropic,
    ];

    pub fn label(self) -> (r: &'static str)
        ensures
            r@ == kind_label(self),
    {
        match self {
            Self::Isotropic => "isotropic (0 dBi)",
            Self::HorizontalDipole => "horizontal half-wave dipole",
            Self::VerticalMonopole => "ground-mounted vertical (1/4 wave)",
            Self::Efhw => "end-fed half-wave (EFHW)",
        }
    }

    /// Does this type use the height-above-ground input? All three real types
    /// do; only the isotropic reference ignores it.
    pub fn uses_height(self) -> (r: bool)
        ensures
            r == (self != AntennaKind::Isotropic),
    {
        !matches!(self, Self::Isotropic)
    }

    /// Does this type use the EFHW design-frequency input?
    pub fn uses_design_freq(self) -> (r: bool)
        ensures
            r == (self == AntennaKind::Efhw),
    {
        matches!(self, Self::Efhw)
    }
}

} // verus!
