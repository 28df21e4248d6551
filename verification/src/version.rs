//! Java edition release numbers and the protocol changes keyed on them.

use vstd::prelude::*;

verus! {

/// A Java edition release, such as 1.21.11 or 26.1, ordered by release.
#[derive(Clone, Copy, Debug, PartialEq, Eq, Structural)]
pub struct JavaMinecraftVersion {
    pub major: u16,
    pub minor: u16,
    pub patch: u16,
}

/// Release 26.1, the first that numbers data components the current way and
/// knows the newer spawn-point message.
pub open spec fn spec_v26_1() -> JavaMinecraftVersion {
    JavaMinecraftVersion { major: 26, minor: 1, patch: 0 }
}

/// The release this server speaks natively.
pub open spec fn spec_current() -> JavaMinecraftVersion {
    JavaMinecraftVersion { major: 26, minor: 2, patch: 0 }
}

/// Clients before 26.1 use the older data-component numbering.
pub open spec fn uses_legacy_ids(v: JavaMinecraftVersion) -> bool {
    v.precedes(spec_v26_1())
}

impl JavaMinecraftVersion {
    /// `self` is an earlier release than `other`.
    pub open spec fn precedes(self, other: JavaMinecraftVersion) -> bool {
        ||| self.major < other.major
        ||| self.major == other.major && self.minor < other.minor
        ||| self.major == other.major && self.minor == other.minor && self.patch < other.patch
    }

    /// The release `major.minor.patch`.
    pub fn new(major: u16, minor: u16, patch: u16) -> (v: Self)
        ensures
            v == (JavaMinecraftVersion { major, minor, patch }),
    {
        JavaMinecraftVersion { major, minor, patch }
    }

    /// Release 1.21.11, the last to use the older data-component numbering.
    pub fn v1_21_11() -> (v: Self)
        ensures
            v == (JavaMinecraftVersion { major: 1, minor: 21, patch: 11 }),
    {
        JavaMinecraftVersion { major: 1, minor: 21, patch: 11 }
    }

    /// Release 26.1.
    pub fn v26_1() -> (v: Self)
        ensures
            v == spec_v26_1(),
    {
        JavaMinecraftVersion { major: 26, minor: 1, patch: 0 }
    }

    /// Release 26.2.
    pub fn v26_2() -> (v: Self)
        ensures
            v == (JavaMinecraftVersion { major: 26, minor: 2, patch: 0 }),
    {
        JavaMinecraftVersion { major: 26, minor: 2, patch: 0 }
    }

    /// The release this server speaks natively.
    pub fn current() -> (v: Self)
        ensures
            v == spec_current(),
    {
        JavaMinecraftVersion { major: 26, minor: 2, patch: 0 }
    }

    /// Whether `self` is an earlier release than `other`.
    pub fn is_before(&self, other: &Self) -> (b: bool)
        ensures
            b == self.precedes(*other),
    {
        self.major < other.major || (self.major == other.major && self.minor < other.minor) || (
        self.major == other.major && self.minor == other.minor && self.patch < other.patch)
    }

    /// Whether a client on this release numbers data components the older
    /// way.
    pub fn uses_legacy_component_ids(&self) -> (b: bool)
        ensures
            b == uses_legacy_ids(*self),
    {
        self.is_before(&Self::v26_1())
    }
}

} // verus!
