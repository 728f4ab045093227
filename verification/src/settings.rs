use vstd::prelude::*;

verus! {

/// How the packages are scanned.
pub struct ScanSettings {
    pub recursive: bool,
}

impl Default for ScanSettings {
    fn default() -> (out: Self)
        ensures
            out.recursive,
    {
        ScanSettings { recursive: true }
    }
}

/// How the packages are rebuilt.
pub struct RebuildSettings {
    pub automatic: bool,
}

impl Default for RebuildSettings {
    fn default() -> (out: Self)
        ensures
            out.automatic,
    {
        RebuildSettings { automatic: true }
    }
}

/// All settings.
pub struct Settings {
    pub scan: ScanSettings,
    pub rebuild: RebuildSettings,
}

impl Default for Settings {
    fn default() -> (out: Self)
        ensures
            out.scan.recursive,
            out.rebuild.automatic,
    {
        Settings { scan: ScanSettings::default(), rebuild: RebuildSettings::default() }
    }
}

} // verus!
