//! The configuration that fingerprints are made and compared with.

use rusty_chromaprint::Configuration;
use vstd::prelude::*;

verus! {

/// `rusty_chromaprint::Configuration`, which says how fingerprints are made.
#[verifier::external_type_specification]
#[verifier::external_body]
pub struct ExConfiguration(Configuration);

/// Whether a configuration is the preset of this library.
pub uninterp spec fn is_preset(configuration: Configuration) -> bool;

/// `Configuration::preset_test1`: the one configuration that this library uses. It takes frames of
/// 4096 samples, each 1365 samples after the one before, at 11025 samples in a second.
#[verifier::external_body]
pub(crate) fn preset() -> (r: Configuration)
    ensures
        is_preset(r),
{
    Configuration::preset_test1()
}

} // verus!
