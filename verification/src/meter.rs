//! Meters, their identifiers and the registry that resolves an identifier to
//! the kind of meter it stands for.
//!
//! A meter is referred to by a symbolic name in configuration and by the
//! 64-bit hash of that name everywhere else.

use vstd::prelude::*;
use vstd::string::StringSliceAdditionalSpecFns;

verus! {

/// The XXH3 64-bit hash, with seed 0 and the default secret, of a sequence of
/// bytes.
pub uninterp spec fn xxh3_64_hash(bytes: Seq<u8>) -> u64;

/// `xxhash_rust::const_xxh3::xxh3_64` returns the XXH3 64-bit hash of the bytes
/// it is given. The result depends on those bytes alone, and the function
/// accepts every input.
pub assume_specification[ xxhash_rust::const_xxh3::xxh3_64 ](input: &[u8]) -> (hash: u64)
    ensures
        hash == xxh3_64_hash(input@),
;

/// The kinds of meter that the registry can construct.
#[derive(Clone, Copy, Debug, PartialEq, Eq, Structural)]
pub enum MeterKind {
    CpuPercentage,
    CpuTemperature,
}

/// Why a meter could not be had or did not yield a value.
#[derive(Clone, Copy, Debug, PartialEq, Eq, Structural)]
pub enum MeterError {
    /// No meter is registered under the identifier.
    UnknownMeter,
    /// The meter is registered, but the host cannot provide it.
    Unavailable,
    /// One sampling of the meter failed.
    MeasurementFailed,
}

impl MeterError {
    /// The words of `message`.
    pub open spec fn message_text(self) -> Seq<char> {
        match self {
            MeterError::UnknownMeter => "invalid meter"@,
            MeterError::Unavailable => "meter unavailable"@,
            MeterError::MeasurementFailed => "measurement failed"@,
        }
    }

    /// A short description for a log line.
    pub fn message(&self) -> (text: &'static str)
        ensures
            text@ == self.message_text(),
    {
        match self {
            MeterError::UnknownMeter => "invalid meter",
            MeterError::Unavailable => "meter unavailable",
            MeterError::MeasurementFailed => "measurement failed",
        }
    }
}

impl MeterKind {
    /// The symbolic name under which configuration refers to the kind.
    pub open spec fn symbol(self) -> &'static str {
        match self {
            MeterKind::CpuPercentage => "CPU:PERCENTAGE",
            MeterKind::CpuTemperature => "CPU:TEMPERATURE",
        }
    }

    /// The identifier of the kind: the hash of its symbolic name.
    pub open spec fn ident(self) -> u64 {
        xxh3_64_hash(self.symbol().spec_bytes())
    }

    /// The symbolic name of the kind.
    pub fn name(&self) -> (name: &'static str)
        ensures
            name == self.symbol(),
    {
        match self {
            MeterKind::CpuPercentage => "CPU:PERCENTAGE",
            MeterKind::CpuTemperature => "CPU:TEMPERATURE",
        }
    }

    /// The identifier of the kind.
    pub fn id(&self) -> (id: u64)
        ensures
            id == self.ident(),
    {
        meter_id(self.name())
    }
}

/// The identifier of the meter with the symbolic name `name`.
pub fn meter_id(name: &str) -> (id: u64)
    ensures
        id == xxh3_64_hash(name.spec_bytes()),
{
    xxhash_rust::const_xxh3::xxh3_64(name.as_bytes())
}

/// The kind registered under `id`, if any. Were two names to share a hash, the
/// identifier would stand for the kind listed first.
pub open spec fn registered(id: u64) -> Option<MeterKind> {
    if id == MeterKind::CpuPercentage.ident() {
        Some(MeterKind::CpuPercentage)
    } else if id == MeterKind::CpuTemperature.ident() {
        Some(MeterKind::CpuTemperature)
    } else {
        None
    }
}

/// What `create_meter` answers for an identifier, given the kinds of meter
/// that the host provides.
pub open spec fn created(id: u64, available: Seq<MeterKind>) -> Result<MeterKind, MeterError> {
    match registered(id) {
        None => Err(MeterError::UnknownMeter),
        Some(kind) => if available.contains(kind) {
            Ok(kind)
        } else {
            Err(MeterError::Unavailable)
        },
    }
}

/// Looks `id` up in the registry.
pub fn resolve(id: u64) -> (kind: Option<MeterKind>)
    ensures
        kind == registered(id),
{
    if id == MeterKind::CpuPercentage.id() {
        Some(MeterKind::CpuPercentage)
    } else if id == MeterKind::CpuTemperature.id() {
        Some(MeterKind::CpuTemperature)
    } else {
        None
    }
}

/// Whether `kind` is among `kinds`.
pub fn provides(kinds: &Vec<MeterKind>, kind: MeterKind) -> (found: bool)
    ensures
        found == kinds@.contains(kind),
{
    let mut i: usize = 0;
    while i < kinds.len()
        invariant
            i <= kinds.len(),
            forall|j: int| 0 <= j < i ==> kinds@[j] != kind,
        decreases kinds.len() - i,
    {
        if kinds[i] == kind {
            return true;
        }
        i = i + 1;
    }
    false
}

/// The meter for `id`: its kind where the registry knows the identifier and
/// the host provides that kind (`available`), `UnknownMeter` where the
/// registry does not know it, `Unavailable` where the host lacks it.
pub fn create_meter(id: u64, available: &Vec<MeterKind>) -> (meter: Result<MeterKind, MeterError>)
    ensures
        meter == created(id, available@),
{
    match resolve(id) {
        None => Err(MeterError::UnknownMeter),
        Some(kind) => {
            if provides(available, kind) {
                Ok(kind)
            } else {
                Err(MeterError::Unavailable)
            }
        },
    }
}

} // verus!
