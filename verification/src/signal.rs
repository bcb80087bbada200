//! Identifier newtypes, typed blade indices and domain consolidation signals.
use core::marker::PhantomData;

use vstd::prelude::*;
use vstd::string::StringSliceAdditionalSpecFns;

use crate::error::{domain_code, fnv1a, GenesisError};

mod domain_sealed;
mod state_sealed;

pub use domain_sealed::Sealed;

verus! {

/// Unique identifier for a node in the cognitive manifold.
///
/// The only value that is not a valid identifier is the sentinel
/// [`NodeId::invalid`] (`u64::MAX`).
#[derive(Clone, Copy, Debug, PartialEq, Eq, Hash, PartialOrd, Ord, Structural)]
pub struct NodeId(u64);

/// Largest raw value accepted by [`NodeId::try_new`].
pub const NODE_ID_MAX_VALID: u64 = 0xffff_ffff_ffff_fffeu64;

impl NodeId {
    /// Maximum valid `NodeId` value accepted by [`NodeId::try_new`].
    pub const MAX_VALID: u64 = 0xffff_ffff_ffff_fffeu64;

    /// Sentinel value used to fill empty slots (never a valid node identifier).
    pub fn invalid() -> (r: NodeId)
        ensures
            r.raw() == u64::MAX,
    {
        NodeId(u64::MAX)
    }

    /// The raw value of this identifier.
    pub closed spec fn raw(self) -> u64 {
        self.0
    }

    /// Two identifiers are equal exactly when their raw values are.
    pub proof fn lemma_raw_injective(a: NodeId, b: NodeId)
        ensures
            (a == b) == (a.raw() == b.raw()),
    {
    }

    /// Attempts to construct a `NodeId` from a raw `u64`.
    ///
    /// Fails with `NodeIdOutOfRange` exactly for the sentinel `u64::MAX`.
    pub fn try_new(raw: u64) -> (r: Result<NodeId, GenesisError>)
        ensures
            raw <= NODE_ID_MAX_VALID ==> r is Ok && r->Ok_0.raw() == raw,
            raw > NODE_ID_MAX_VALID ==> r == Err::<NodeId, GenesisError>(
                GenesisError::NodeIdOutOfRange { raw },
            ),
    {
        if raw <= Self::MAX_VALID {
            Ok(NodeId(raw))
        } else {
            Err(GenesisError::NodeIdOutOfRange { raw })
        }
    }

    /// Creates a `NodeId` from any raw value, the sentinel included.
    ///
    /// Callers are expected to pass `raw <= NodeId::MAX_VALID` or the sentinel.
    pub fn from_raw_unchecked(raw: u64) -> (r: NodeId)
        ensures
            r.raw() == raw,
    {
        NodeId(raw)
    }

    /// Returns the underlying `u64`.
    pub fn get(self) -> (r: u64)
        ensures
            r == self.raw(),
    {
        self.0
    }
}

/// Monotonic nanosecond timestamp local to the originating processing unit.
#[derive(Clone, Copy, Debug, PartialEq, Eq, Hash, PartialOrd, Ord, Structural)]
pub struct Timestamp(u64);

impl Timestamp {
    /// Zero timestamp (epoch origin of a local processing unit).
    pub fn zero() -> (t: Timestamp)
        ensures
            t.ns() == 0,
    {
        Timestamp(0)
    }

    /// The raw nanosecond count.
    pub closed spec fn ns(self) -> u64 {
        self.0
    }

    /// Constructs a `Timestamp` from a raw nanosecond count.
    pub fn new(ns: u64) -> (t: Timestamp)
        ensures
            t.ns() == ns,
    {
        Timestamp(ns)
    }

    /// Returns the underlying nanosecond value.
    pub fn nanoseconds(self) -> (r: u64)
        ensures
            r == self.ns(),
    {
        self.0
    }

    /// Age of this timestamp relative to `now_ns`; 0 for a future timestamp.
    pub fn saturating_age_ns(self, now_ns: u64) -> (age: u64)
        ensures
            now_ns >= self.ns() ==> age == now_ns - self.ns(),
            now_ns < self.ns() ==> age == 0,
    {
        now_ns.saturating_sub(self.0)
    }
}

/// Layout version of the spike event binary contract.
pub const SPIKE_EVENT_LAYOUT_VERSION: u32 = 2u32;

/// Maximum number of blades transported in a single spike (top-K sparse).
pub const SPIKE_MAX_COMPONENTS: usize = 16usize;

/// Typed blade index for a Clifford basis of dimension `D`: `index < 2^D`.
#[derive(Clone, Copy, Debug, PartialEq, Eq, Hash, PartialOrd, Ord)]
pub struct BladeIndex<const D: usize>(u16);

/// Errors produced while validating blade indices.
#[derive(Clone, Copy, Debug, PartialEq, Eq)]
pub enum SpikeComponentsError {
    /// The requested basis dimension is not supported (`D >= 32`).
    DimensionUnsupported {
        /// Requested basis dimension.
        dimension: usize,
    },
    /// A raw blade index is not valid for the requested dimension `D`.
    InvalidBladeIndex {
        /// Invalid raw index.
        index: u16,
        /// Requested basis dimension.
        dimension: usize,
        /// Exclusive upper bound (`2^D`) for valid indices.
        upper_bound: u32,
    },
}

/// `2^d` for a dimension that fits a `u32` shift, `0` otherwise.
pub open spec fn spec_upper_bound(d: usize) -> u32 {
    if d < 32 {
        vstd::arithmetic::power2::pow2(d as nat) as u32
    } else {
        0
    }
}

impl<const D: usize> BladeIndex<D> {
    /// The raw blade index.
    pub closed spec fn raw(self) -> u16 {
        self.0
    }

    /// Returns the maximum exclusive value for this dimension (`2^D`), or 0 when `D >= 32`.
    pub fn upper_bound() -> (r: u32)
        ensures
            r == spec_upper_bound(D),
    {
        if D < 32 {
            let r: u32 = 1u32 << (D as u32);
            proof {
                vstd::arithmetic::power2::lemma2_to64();
                vstd::arithmetic::power2::lemma_pow2_strictly_increases(D as nat, 32);
                vstd::bits::lemma_u32_shl_is_mul(1u32, D as u32);
            }
            r
        } else {
            0
        }
    }

    /// Fallible constructor enforcing `index < 2^D`.
    pub fn new(index: u16) -> (r: Result<BladeIndex<D>, SpikeComponentsError>)
        ensures
            D >= 32 ==> r == Err::<BladeIndex<D>, SpikeComponentsError>(
                SpikeComponentsError::DimensionUnsupported { dimension: D },
            ),
            D < 32 && index >= spec_upper_bound(D) ==> r == Err::<
                BladeIndex<D>,
                SpikeComponentsError,
            >(
                SpikeComponentsError::InvalidBladeIndex {
                    index,
                    dimension: D,
                    upper_bound: spec_upper_bound(D),
                },
            ),
            D < 32 && index < spec_upper_bound(D) ==> r is Ok && r->Ok_0.raw() == index,
    {
        if D >= 32 {
            return Err(SpikeComponentsError::DimensionUnsupported { dimension: D });
        }
        let upper = Self::upper_bound();
        if (index as u32) >= upper {
            return Err(
                SpikeComponentsError::InvalidBladeIndex { index, dimension: D, upper_bound: upper },
            );
        }
        Ok(BladeIndex(index))
    }

    /// Same as [`BladeIndex::new`]; the `TryFrom<u16>` entry point.
    pub fn try_from(value: u16) -> (r: Result<BladeIndex<D>, SpikeComponentsError>)
        ensures
            D >= 32 ==> r == Err::<BladeIndex<D>, SpikeComponentsError>(
                SpikeComponentsError::DimensionUnsupported { dimension: D },
            ),
            D < 32 && value >= spec_upper_bound(D) ==> r == Err::<
                BladeIndex<D>,
                SpikeComponentsError,
            >(
                SpikeComponentsError::InvalidBladeIndex {
                    index: value,
                    dimension: D,
                    upper_bound: spec_upper_bound(D),
                },
            ),
            D < 32 && value < spec_upper_bound(D) ==> r is Ok && r->Ok_0.raw() == value,
    {
        Self::new(value)
    }

    /// Returns the raw blade index.
    pub fn get(self) -> (r: u16)
        ensures
            r == self.raw(),
    {
        self.0
    }
}

/// Marker trait for valid cognitive domains (sealed).
pub trait CognitiveDomain: domain_sealed::Sealed {}

/// Marker type for physics domain events.
#[derive(Clone, Copy, Debug, PartialEq, Eq, Hash)]
pub struct PhysicsDomain;

impl domain_sealed::Sealed for PhysicsDomain {}

impl CognitiveDomain for PhysicsDomain {}

/// Marker type for topology domain events.
#[derive(Clone, Copy, Debug, PartialEq, Eq, Hash)]
pub struct TopologyDomain;

impl domain_sealed::Sealed for TopologyDomain {}

impl CognitiveDomain for TopologyDomain {}

/// Marker type for dynamics domain events.
#[derive(Clone, Copy, Debug, PartialEq, Eq, Hash)]
pub struct DynamicsDomain;

impl domain_sealed::Sealed for DynamicsDomain {}

impl CognitiveDomain for DynamicsDomain {}

/// Marker type for consciousness domain events.
#[derive(Clone, Copy, Debug, PartialEq, Eq, Hash)]
pub struct ConsciousnessDomain;

impl domain_sealed::Sealed for ConsciousnessDomain {}

impl CognitiveDomain for ConsciousnessDomain {}

/// Restriction on the consolidation-state markers (sealed: only
/// [`Saturated`] and [`Certified`]).
pub trait ConsolidationState: state_sealed::Sealed {}

/// Marker: the domain is saturated (reversible by a reset).
#[derive(Clone, Copy, Debug, PartialEq, Eq, Hash)]
pub struct Saturated;

impl state_sealed::Sealed for Saturated {}

impl ConsolidationState for Saturated {}

/// Marker: the domain is certified (irrevocable; no reset path exists).
#[derive(Clone, Copy, Debug, PartialEq, Eq, Hash)]
pub struct Certified;

impl state_sealed::Sealed for Certified {}

impl ConsolidationState for Certified {}

/// Signal emitted when a domain reaches satiation or certification.
///
/// Only `DomainConsolidationSignal<Saturated>` can be passed to
/// [`DomainResetSignal::validate_against`]; a certified signal has no reset path.
/// The Fisher gradient is carried as its IEEE-754 bit pattern, so equality
/// and hashing are bit-exact.
#[derive(Debug, PartialEq, Eq, Hash)]
pub struct DomainConsolidationSignal<State: ConsolidationState> {
    /// Hierarchical domain identifier, e.g. `"physics::electromagnetism"`.
    pub domain: &'static str,
    /// Monotonic timestamp.
    pub timestamp_ns: Timestamp,
    /// Bit pattern of the Fisher metric gradient magnitude (0 for certified signals).
    pub fisher_delta_g_bits: u64,
    /// Consolidation state marker.
    pub state: PhantomData<State>,
}

impl<State: ConsolidationState> Clone for DomainConsolidationSignal<State> {
    fn clone(&self) -> (c: Self)
        ensures
            c == *self,
    {
        DomainConsolidationSignal {
            domain: self.domain,
            timestamp_ns: self.timestamp_ns,
            fisher_delta_g_bits: self.fisher_delta_g_bits,
            state: PhantomData,
        }
    }
}

impl<State: ConsolidationState> Copy for DomainConsolidationSignal<State> {}

impl DomainConsolidationSignal<Saturated> {
    /// Constructs a `Saturated` consolidation signal.
    pub fn saturated(domain: &'static str, timestamp_ns: Timestamp, fisher_delta_g_bits: u64) -> (s:
        DomainConsolidationSignal<Saturated>)
        ensures
            s.domain == domain,
            s.timestamp_ns == timestamp_ns,
            s.fisher_delta_g_bits == fisher_delta_g_bits,
    {
        DomainConsolidationSignal { domain, timestamp_ns, fisher_delta_g_bits, state: PhantomData }
    }

    /// Elevates this signal to `Certified`: a one-way transition that zeroes the gradient.
    pub fn certify(self) -> (c: DomainConsolidationSignal<Certified>)
        ensures
            c.domain == self.domain,
            c.timestamp_ns == self.timestamp_ns,
            c.fisher_delta_g_bits == 0,
    {
        DomainConsolidationSignal {
            domain: self.domain,
            timestamp_ns: self.timestamp_ns,
            fisher_delta_g_bits: 0,
            state: PhantomData,
        }
    }
}

impl DomainConsolidationSignal<Certified> {
    /// Constructs a `Certified` consolidation signal directly.
    pub fn certified(domain: &'static str, timestamp_ns: Timestamp) -> (c:
        DomainConsolidationSignal<Certified>)
        ensures
            c.domain == domain,
            c.timestamp_ns == timestamp_ns,
            c.fisher_delta_g_bits == 0,
    {
        DomainConsolidationSignal { domain, timestamp_ns, fisher_delta_g_bits: 0, state: PhantomData }
    }
}

/// Re-opens a previously saturated domain for ingestion.
#[derive(Debug, Clone, Copy, PartialEq, Eq, Hash)]
pub struct DomainResetSignal {
    /// Domain to re-open.
    pub domain: &'static str,
    /// Monotonic timestamp of the reset authorisation.
    pub timestamp_ns: Timestamp,
    /// Audit-trail justification.
    pub justification: &'static str,
}

/// Byte-wise equality of two string slices.
fn str_bytes_eq(a: &str, b: &str) -> (r: bool)
    ensures
        r == (a.spec_bytes() == b.spec_bytes()),
{
    let x = a.as_bytes();
    let y = b.as_bytes();
    if x.len() != y.len() {
        return false;
    }
    let mut i: usize = 0;
    while i < x.len()
        invariant
            x@ == a.spec_bytes(),
            y@ == b.spec_bytes(),
            x@.len() == y@.len(),
            i <= x@.len(),
            forall|k: int| 0 <= k < i ==> x@[k] == y@[k],
        decreases x@.len() - i,
    {
        if x[i] != y[i] {
            return false;
        }
        i += 1;
    }
    proof {
        assert(x@ =~= y@);
    }
    true
}

impl DomainResetSignal {
    /// Validates this reset against a saturated consolidation signal.
    ///
    /// `Ok(())` when both name the same domain; otherwise `DomainMismatch`
    /// carrying the FNV-1a codes of both domain names.
    pub fn validate_against(&self, signal: &DomainConsolidationSignal<Saturated>) -> (r: Result<
        (),
        GenesisError,
    >)
        ensures
            self.domain.spec_bytes() == signal.domain.spec_bytes() ==> r == Ok::<(), GenesisError>(()),
            self.domain.spec_bytes() != signal.domain.spec_bytes() ==> r == Err::<(), GenesisError>(
                GenesisError::DomainMismatch {
                    reset: fnv1a(self.domain.spec_bytes()),
                    signal: fnv1a(signal.domain.spec_bytes()),
                },
            ),
    {
        if str_bytes_eq(self.domain, signal.domain) {
            Ok(())
        } else {
            Err(
                GenesisError::DomainMismatch {
                    reset: domain_code(self.domain),
                    signal: domain_code(signal.domain),
                },
            )
        }
    }
}

} // verus!
