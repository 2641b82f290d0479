//! Interarrival schedules: a target request rate plus a distribution kind
//! become an ordered sequence of interarrival times in nanoseconds.

use vstd::prelude::*;
use vstd::string::StrSliceExecFns;

verus! {

/// Nanoseconds in one second; the unit conversions below divide by it.
pub const NANOS_PER_SEC: u64 = 1_000_000_000;

/// Mean interarrival time in nanoseconds for a target rate in requests per
/// second, rounded down.
pub fn rate_pps_to_interarrival_nanos(rate: u64) -> (r: u64)
    requires
        rate > 0,
    ensures
        r == NANOS_PER_SEC / rate,
{
    NANOS_PER_SEC / rate
}

/// Number of ticks of a clock running at `hz` ticks per second that elapse
/// in `nanos` nanoseconds, rounded down.
pub fn nanos_to_hz(hz: u64, nanos: u64) -> (r: u64)
    requires
        hz * nanos / (NANOS_PER_SEC as int) <= u64::MAX,
    ensures
        r == hz * nanos / (NANOS_PER_SEC as int),
{
    let wide: u128 = (hz as u128) * (nanos as u128) / (NANOS_PER_SEC as u128);
    wide as u64
}

/// The two supported interarrival processes.
#[derive(Debug, Eq, PartialEq, Copy, Clone, Structural)]
pub enum DistributionType {
    Uniform,
    Exponential,
}

/// Why a schedule or distribution could not be built.
#[derive(Debug, PartialEq, Eq, Clone)]
pub enum SamplerError {
    /// The target rate was zero, so no interarrival time exists.
    ZeroRate,
    /// An exponential schedule was asked for with the wrong number of draws.
    DrawCountMismatch { expected: usize, actual: usize },
    /// The distribution name did not match any known kind.
    UnknownDistribution { name: String },
}

/// A character folded to ASCII lower case: the code points of `A` through
/// `Z` gain 32; every other character is untouched.
pub open spec fn ascii_lower_char(c: char) -> char {
    if 65 <= c as u32 && c as u32 <= 90 {
        (((c as u32) + 32) as u8) as char
    } else {
        c
    }
}

/// A character sequence folded to ASCII lower case.
pub open spec fn ascii_lower(s: Seq<char>) -> Seq<char> {
    s.map_values(|c: char| ascii_lower_char(c))
}

/// Folds one character to ASCII lower case.
fn lower_char(c: char) -> (r: char)
    ensures
        r == ascii_lower_char(c),
{
    let x = c as u32;
    if 65 <= x && x <= 90 {
        ((x + 32) as u8) as char
    } else {
        c
    }
}

/// True when `s`, folded to ASCII lower case, equals `lit`; `lit` is
/// expected to be lower case already.
fn eq_folded(s: &str, lit: &str) -> (r: bool)
    ensures
        r == (ascii_lower(s@) == lit@),
{
    let n = s.unicode_len();
    let m = lit.unicode_len();
    if n != m {
        proof {
            assert(ascii_lower(s@).len() == s@.len());
        }
        return false;
    }
    let mut i: usize = 0;
    while i < n
        invariant
            n == s@.len(),
            n == lit@.len(),
            i <= n,
            forall|j: int| 0 <= j < i ==> ascii_lower(s@)[j] == lit@[j],
        decreases n - i,
    {
        let c = lower_char(s.get_char(i));
        let d = lit.get_char(i);
        if c != d {
            proof {
                assert(ascii_lower(s@)[i as int] != lit@[i as int]);
            }
            return false;
        }
        i = i + 1;
    }
    proof {
        assert(ascii_lower(s@) =~= lit@);
    }
    true
}

impl DistributionType {
    /// Parses a distribution name. The match ignores ASCII case, so any
    /// casing of `uniform`, `exponential` or `exp` is accepted.
    pub fn from_str(s: &str) -> (r: Result<DistributionType, SamplerError>)
        ensures
            r == Ok::<DistributionType, SamplerError>(DistributionType::Uniform) <==> ascii_lower(
                s@,
            ) == "uniform"@,
            r == Ok::<DistributionType, SamplerError>(DistributionType::Exponential) <==> (
            ascii_lower(s@) == "exponential"@ || ascii_lower(s@) == "exp"@),
            r is Err ==> (r matches Err(SamplerError::UnknownDistribution { name }) && name@
                == s@),
    {
        proof {
            reveal_strlit("uniform");
            reveal_strlit("exponential");
            reveal_strlit("exp");
            assert("uniform"@.len() == 7);
            assert("exponential"@.len() == 11);
            assert("exp"@.len() == 3);
        }
        if eq_folded(s, "uniform") {
            Ok(DistributionType::Uniform)
        } else if eq_folded(s, "exponential") || eq_folded(s, "exp") {
            Ok(DistributionType::Exponential)
        } else {
            Err(SamplerError::UnknownDistribution { name: s.to_owned() })
        }
    }
}

/// A distribution over interarrival times, fixed by its mean in nanoseconds.
#[derive(Debug, Eq, PartialEq, Copy, Clone, Structural)]
pub enum PacketDistribution {
    /// Every interarrival equals the mean.
    Uniform(u64),
    /// Interarrivals are independent exponential draws with the given mean.
    Exponential(u64),
}

impl PacketDistribution {
    /// Builds the distribution for a target rate; the mean interarrival is
    /// `NANOS_PER_SEC / rate_pps`. A zero rate cannot be represented.
    pub fn new(typ: DistributionType, rate_pps: u64) -> (r: Result<
        PacketDistribution,
        SamplerError,
    >)
        ensures
            rate_pps == 0 ==> r == Err::<PacketDistribution, SamplerError>(SamplerError::ZeroRate),
            rate_pps > 0 && typ == DistributionType::Uniform ==> r == Ok::<
                PacketDistribution,
                SamplerError,
            >(PacketDistribution::Uniform(NANOS_PER_SEC / rate_pps)),
            rate_pps > 0 && typ == DistributionType::Exponential ==> r == Ok::<
                PacketDistribution,
                SamplerError,
            >(PacketDistribution::Exponential(NANOS_PER_SEC / rate_pps)),
    {
        if rate_pps == 0 {
            return Err(SamplerError::ZeroRate);
        }
        let interarrival_nanos = rate_pps_to_interarrival_nanos(rate_pps);
        match typ {
            DistributionType::Uniform => Ok(PacketDistribution::Uniform(interarrival_nanos)),
            DistributionType::Exponential => Ok(
                PacketDistribution::Exponential(interarrival_nanos),
            ),
        }
    }

    /// The mean interarrival time in nanoseconds.
    pub fn get_interarrival_avg(&self) -> (r: u64)
        ensures
            self matches PacketDistribution::Uniform(x) ==> r == x,
            self matches PacketDistribution::Exponential(x) ==> r == x,
    {
        match self {
            PacketDistribution::Uniform(x) => *x,
            PacketDistribution::Exponential(x) => *x,
        }
    }
}

/// An ordered sequence of interarrival times in nanoseconds, fixed at
/// construction, plus the scheduled mean interarrival.
#[derive(Debug, PartialEq, Eq, Clone, Default)]
pub struct RequestSchedule {
    pub interarrivals: Vec<u64>,
    pub avg_interarrival: u64,
}

impl RequestSchedule {
    /// Builds a schedule of `num_requests` interarrivals for the given rate.
    ///
    /// For a uniform distribution every interarrival equals the mean
    /// exactly. For an exponential distribution the caller passes the draws
    /// in `exp_draws`, one per request, so that sampling stays an explicit,
    /// replayable input; they are taken over unchanged. Fails on a zero rate
    /// and on a draw count that does not match `num_requests`.
    pub fn new(
        num_requests: usize,
        rate_pps: u64,
        dist_type: DistributionType,
        exp_draws: Vec<u64>,
    ) -> (r: Result<RequestSchedule, SamplerError>)
        ensures
            r is Ok <==> rate_pps > 0 && (dist_type == DistributionType::Uniform
                || exp_draws@.len() == num_requests),
            r matches Ok(s) ==> s.avg_interarrival == NANOS_PER_SEC / rate_pps,
            r matches Ok(s) ==> (dist_type == DistributionType::Uniform ==> s.interarrivals@
                == Seq::new(num_requests as nat, |i: int| NANOS_PER_SEC / rate_pps)),
            r matches Ok(s) ==> (dist_type == DistributionType::Exponential ==> s.interarrivals@
                == exp_draws@),
            rate_pps == 0 ==> r == Err::<RequestSchedule, SamplerError>(SamplerError::ZeroRate),
            rate_pps > 0 && dist_type == DistributionType::Exponential && exp_draws@.len()
                != num_requests ==> r == Err::<RequestSchedule, SamplerError>(
                SamplerError::DrawCountMismatch { expected: num_requests, actual: exp_draws.len() },
            ),
    {
        let distribution = PacketDistribution::new(dist_type, rate_pps)?;
        let avg = distribution.get_interarrival_avg();
        match distribution {
            PacketDistribution::Uniform(mean) => {
                let mut interarrivals: Vec<u64> = Vec::new();
                let mut i: usize = 0;
                while i < num_requests
                    invariant
                        i <= num_requests,
                        interarrivals@ == Seq::new(i as nat, |j: int| mean),
                    decreases num_requests - i,
                {
                    interarrivals.push(mean);
                    i = i + 1;
                    proof {
                        assert(interarrivals@ =~= Seq::new(i as nat, |j: int| mean));
                    }
                }
                proof {
                    assert(interarrivals@ =~= Seq::new(num_requests as nat, |j: int| mean));
                }
                Ok(RequestSchedule { interarrivals, avg_interarrival: avg })
            },
            PacketDistribution::Exponential(_mean) => {
                if exp_draws.len() != num_requests {
                    return Err(
                        SamplerError::DrawCountMismatch {
                            expected: num_requests,
                            actual: exp_draws.len(),
                        },
                    );
                }
                Ok(RequestSchedule { interarrivals: exp_draws, avg_interarrival: avg })
            },
        }
    }

    /// The scheduled mean interarrival in nanoseconds.
    pub fn get_avg_interarrival(&self) -> (r: u64)
        ensures
            r == self.avg_interarrival,
    {
        self.avg_interarrival
    }

    /// How many interarrivals the schedule holds.
    pub fn len(&self) -> (r: usize)
        ensures
            r == self.interarrivals@.len(),
    {
        self.interarrivals.len()
    }

    /// The interarrival at position `idx`; out of range is a caller error.
    pub fn get(&self, idx: usize) -> (r: u64)
        requires
            idx < self.interarrivals@.len(),
        ensures
            r == self.interarrivals@[idx as int],
    {
        self.interarrivals[idx]
    }
}

} // verus!
