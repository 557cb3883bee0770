//! The options of the forwarder: a mask of ports written in hexadecimal
//! digits, the number of queues per core, and the period of the
//! statistics.

use vstd::prelude::*;
use vstd::string::StringSliceAdditionalSpecFns;

verus! {

/// Why a string is not a hexadecimal number that fits in 64 bits.
#[derive(Debug, Clone, Copy, PartialEq, Eq, Structural)]
pub enum ParseHexError {
    /// The string is empty.
    Empty,
    /// The string holds something that is no hexadecimal digit, or is a
    /// sign alone.
    InvalidDigit,
    /// The number does not fit.
    PosOverflow,
}

/// The value of the hexadecimal digit `b`, if it is one.
pub open spec fn hex_digit(b: u8) -> Option<u8> {
    if 0x30 <= b <= 0x39 {
        Some((b - 0x30) as u8)
    } else if 0x41 <= b <= 0x46 {
        Some((b - 0x41 + 10) as u8)
    } else if 0x61 <= b <= 0x66 {
        Some((b - 0x61 + 10) as u8)
    } else {
        None
    }
}

/// The number that the digits `digits` write, read from the left. The
/// first place that holds no digit, or at which the number no longer fits
/// in 64 bits, decides the error.
pub open spec fn hex_value(digits: Seq<u8>) -> Result<u64, ParseHexError>
    decreases digits.len(),
{
    if digits.len() == 0 {
        Ok(0)
    } else {
        match hex_value(digits.drop_last()) {
            Err(e) => Err(e),
            Ok(acc) => match hex_digit(digits.last()) {
                None => Err(ParseHexError::InvalidDigit),
                Some(d) => if acc * 16 > u64::MAX {
                    Err(ParseHexError::PosOverflow)
                } else {
                    Ok((acc * 16 + d) as u64)
                },
            },
        }
    }
}

/// What the bytes `src` parse to: an optional `+` and then hexadecimal
/// digits, at least one, in either case, and nothing else.
pub open spec fn spec_parse_hex(src: Seq<u8>) -> Result<u64, ParseHexError> {
    if src.len() == 0 {
        Err(ParseHexError::Empty)
    } else if src.len() == 1 && (src[0] == 0x2b || src[0] == 0x2d) {
        Err(ParseHexError::InvalidDigit)
    } else if src[0] == 0x2b {
        hex_value(src.subrange(1, src.len() as int))
    } else {
        hex_value(src)
    }
}

/// The value of the hexadecimal digit `b`, if it is one.
fn digit_of(b: u8) -> (d: Option<u8>)
    ensures
        d == hex_digit(b),
        d is Some ==> d->Some_0 < 16,
{
    if 0x30 <= b && b <= 0x39 {
        Some(b - 0x30)
    } else if 0x41 <= b && b <= 0x46 {
        Some(b - 0x41 + 10)
    } else if 0x61 <= b && b <= 0x66 {
        Some(b - 0x61 + 10)
    } else {
        None
    }
}

/// Parses a number written in hexadecimal digits, with an optional `+` in
/// front of them.
pub fn parse_hex(src: &str) -> (r: Result<u64, ParseHexError>)
    ensures
        r == spec_parse_hex(src.spec_bytes()),
{
    let bytes = src.as_bytes();
    let n = bytes.len();
    if n == 0 {
        return Err(ParseHexError::Empty);
    }
    if n == 1 && (bytes[0] == 0x2b || bytes[0] == 0x2d) {
        return Err(ParseHexError::InvalidDigit);
    }
    let first: usize = if bytes[0] == 0x2b {
        1
    } else {
        0
    };
    let ghost digits = bytes@.subrange(first as int, n as int);
    let mut acc: u64 = 0;
    let mut i: usize = first;
    proof {
        assert(digits.subrange(0, 0) =~= Seq::<u8>::empty());
        if first == 0 {
            assert(digits =~= bytes@);
        }
        assert(spec_parse_hex(bytes@) == hex_value(digits));
    }
    while i < n
        invariant
            first <= i <= n,
            n == bytes@.len(),
            digits == bytes@.subrange(first as int, n as int),
            bytes@ == src.spec_bytes(),
            spec_parse_hex(bytes@) == hex_value(digits),
            hex_value(digits.subrange(0, i - first)) == Ok::<u64, ParseHexError>(acc),
        decreases n - i,
    {
        proof {
            let upto = digits.subrange(0, i + 1 - first);
            assert(upto.drop_last() =~= digits.subrange(0, i - first));
            assert(upto.last() == bytes@[i as int]);
        }
        match digit_of(bytes[i]) {
            None => {
                proof {
                    assert(hex_value(digits.subrange(0, i + 1 - first)) == Err::<
                        u64,
                        ParseHexError,
                    >(ParseHexError::InvalidDigit));
                    lemma_hex_error_stays(digits, i + 1 - first);
                }
                return Err(ParseHexError::InvalidDigit);
            },
            Some(d) => {
                if acc > u64::MAX / 16 {
                    proof {
                        assert(hex_value(digits.subrange(0, i + 1 - first)) == Err::<
                            u64,
                            ParseHexError,
                        >(ParseHexError::PosOverflow));
                        lemma_hex_error_stays(digits, i + 1 - first);
                    }
                    return Err(ParseHexError::PosOverflow);
                }
                acc = acc * 16 + d as u64;
            },
        }
        i += 1;
    }
    proof {
        assert(digits.subrange(0, n - first) =~= digits);
    }
    Ok(acc)
}

/// An error in the first `k` digits is the error of all.
proof fn lemma_hex_error_stays(digits: Seq<u8>, k: int)
    requires
        0 <= k <= digits.len(),
        hex_value(digits.subrange(0, k)) is Err,
    ensures
        hex_value(digits) == hex_value(digits.subrange(0, k)),
    decreases digits.len() - k,
{
    if k < digits.len() {
        assert(digits.subrange(0, k + 1).drop_last() =~= digits.subrange(0, k));
        lemma_hex_error_stays(digits, k + 1);
    } else {
        assert(digits.subrange(0, k) =~= digits);
    }
}

/// Whether the port `port_id` passes the mask: every port passes where
/// there is none, else the ports whose bit is set in it.
pub open spec fn spec_port_enabled(portmask: Option<u64>, port_id: u16) -> bool {
    match portmask {
        None => true,
        Some(mask) => port_id < 64 && (mask >> (port_id as u64)) & 1 == 1,
    }
}

/// Whether the port `port_id` passes the mask.
pub fn port_enabled(portmask: Option<u64>, port_id: u16) -> (r: bool)
    ensures
        r == spec_port_enabled(portmask, port_id),
{
    match portmask {
        None => true,
        Some(mask) => port_id < 64 && (mask >> (port_id as u64)) & 1 == 1,
    }
}

/// The statistics period is below this number of seconds: one day.
pub const MAX_TIMER_PERIOD: u32 = 86400;

/// The default number of queues per core.
pub const DEFAULT_QUEUES_PER_LCORE: usize = 1;

/// The default statistics period, in seconds.
pub const DEFAULT_STATS_PERIOD: u32 = 10;

/// Why a set of options is refused.
#[derive(Debug, Clone, Copy, PartialEq, Eq, Structural)]
pub enum ConfigurationError {
    /// A core cannot take zero queues.
    NoQueuesPerLcore,
}

/// The options of the forwarder.
#[derive(Debug, Clone, Copy, PartialEq, Eq, Structural)]
pub struct Opt {
    /// The mask of the ports to use; all ports where there is none.
    pub portmask: Option<u64>,
    /// The number of queues that one core takes.
    pub queues_per_lcore: usize,
    /// The period of the statistics in seconds; none are shown at 0.
    pub stats_period: u32,
}

impl Opt {
    /// The options as given, with the statistics period held below
    /// `MAX_TIMER_PERIOD`. Zero queues per core are refused.
    pub fn new(portmask: Option<u64>, queues_per_lcore: usize, stats_period: u32) -> (r: Result<
        Opt,
        ConfigurationError,
    >)
        ensures
            queues_per_lcore == 0 ==> r == Err::<Opt, ConfigurationError>(
                ConfigurationError::NoQueuesPerLcore,
            ),
            queues_per_lcore > 0 ==> r == Ok::<Opt, ConfigurationError>(
                Opt {
                    portmask,
                    queues_per_lcore,
                    stats_period: if stats_period < MAX_TIMER_PERIOD {
                        stats_period
                    } else {
                        (MAX_TIMER_PERIOD - 1) as u32
                    },
                },
            ),
    {
        if queues_per_lcore == 0 {
            return Err(ConfigurationError::NoQueuesPerLcore);
        }
        let stats_period = if stats_period < MAX_TIMER_PERIOD {
            stats_period
        } else {
            MAX_TIMER_PERIOD - 1
        };
        Ok(Opt { portmask, queues_per_lcore, stats_period })
    }
}

} // verus!
