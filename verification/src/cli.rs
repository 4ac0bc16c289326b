//! Command-line values: the parsed arguments, which of them came from the
//! command line, and the parsers of the numeric options.

use vstd::prelude::*;
use vstd::string::StringExecFns;
use vstd::string::StringSliceAdditionalSpecFns;

verus! {

/// Which settings were given on the command line rather than taken from a
/// default.
#[derive(Clone, Copy, Debug, PartialEq, Eq, Structural)]
pub struct CliSources {
    pub detection_sps_from_cli: bool,
    pub decoder_channel_capacity_from_cli: bool,
    pub detector_target_from_cli: bool,
    pub detector_delta_from_cli: bool,
    pub comparator_from_cli: bool,
}

impl Default for CliSources {
    fn default() -> (s: Self)
        ensures
            s == (CliSources {
                detection_sps_from_cli: false,
                decoder_channel_capacity_from_cli: false,
                detector_target_from_cli: false,
                detector_delta_from_cli: false,
                comparator_from_cli: false,
            }),
    {
        CliSources {
            detection_sps_from_cli: false,
            decoder_channel_capacity_from_cli: false,
            detector_target_from_cli: false,
            detector_delta_from_cli: false,
            comparator_from_cli: false,
        }
    }
}

/// The command-line arguments.
#[derive(Clone, Debug)]
pub struct CliArgs {
    pub backend: Option<String>,
    pub config: Option<String>,
    pub list_backends: bool,
    pub detection_samples_per_second: u32,
    pub decoder_channel_capacity: Option<usize>,
    pub detector_target: Option<u8>,
    pub detector_delta: Option<u8>,
    pub comparator: Option<String>,
    pub output: Option<String>,
    pub input: Option<String>,
}

/// The value of a sequence of ASCII decimal digits.
pub open spec fn digits_value(b: Seq<u8>) -> nat
    decreases b.len(),
{
    if b.len() == 0 {
        0
    } else {
        digits_value(b.drop_last()) * 10 + (b.last() - 48) as nat
    }
}

/// Every byte is an ASCII decimal digit.
pub open spec fn all_digits(b: Seq<u8>) -> bool {
    forall|i: int| 0 <= i < b.len() ==> 48 <= #[trigger] b[i] <= 57
}

/// The digits of an unsigned decimal number: the bytes after an optional
/// leading `+`.
pub open spec fn unsigned_digits(b: Seq<u8>) -> Seq<u8> {
    if b.len() > 0 && b[0] == 43 {
        b.drop_first()
    } else {
        b
    }
}

/// The value of an unsigned decimal number at most `max`, written as an
/// optional `+` and at least one ASCII digit; none for any other text.
pub open spec fn parse_unsigned(b: Seq<u8>, max: nat) -> Option<nat> {
    let d = unsigned_digits(b);
    if d.len() > 0 && all_digits(d) && digits_value(d) <= max {
        Some(digits_value(d))
    } else {
        None
    }
}

/// Parses an unsigned decimal number at most `max`.
fn parse_bounded(value: &str, max: u64) -> (r: Option<u64>)
    requires
        max >= 9,
    ensures
        r == (match parse_unsigned(value.spec_bytes(), max as nat) {
            Some(v) => Some(v as u64),
            None => None::<u64>,
        }),
{
    let bytes = value.as_bytes();
    let ghost b = bytes@;
    let n = bytes.len();
    if n == 0 {
        return None;
    }
    let start: usize = if bytes[0] == 43 { 1 } else { 0 };
    let ghost d = unsigned_digits(b);
    proof {
        assert(d == b.subrange(start as int, n as int));
    }
    if start == n {
        return None;
    }
    let mut acc: u64 = 0;
    let mut i = start;
    while i < n
        invariant
            b == bytes@,
            n == b.len(),
            start <= i <= n,
            d == b.subrange(start as int, n as int),
            d == unsigned_digits(b),
            b == value.spec_bytes(),
            d.len() > 0,
            all_digits(b.subrange(start as int, i as int)),
            acc == digits_value(b.subrange(start as int, i as int)),
            acc <= max,
            max >= 9,
        decreases n - i,
    {
        let c = bytes[i];
        proof {
            assert(b.subrange(start as int, i + 1).drop_last() == b.subrange(start as int, i as int));
        }
        if c < 48 || c > 57 {
            proof {
                assert(d[i - start] == c);
            }
            return None;
        }
        let digit = (c - 48) as u64;
        if acc > (max - digit) / 10 {
            proof {
                assert(acc * 10 + digit > max) by (nonlinear_arith)
                    requires
                        acc > (max - digit) / 10,
                        max >= digit,
                ;
                assert(d.subrange(0, i - start + 1) == b.subrange(start as int, i + 1));
                if all_digits(d) {
                    lemma_digits_value_prefix(d, i - start + 1);
                }
            }
            return None;
        }
        proof {
            assert(acc * 10 + digit <= max) by (nonlinear_arith)
                requires
                    acc <= (max - digit) / 10,
                    max >= digit,
            ;
        }
        acc = acc * 10 + digit;
        i += 1;
    }
    proof {
        assert(b.subrange(start as int, n as int) == d);
    }
    Some(acc)
}

/// A prefix of a digit sequence has no larger value.
proof fn lemma_digits_value_prefix(d: Seq<u8>, k: int)
    requires
        0 <= k <= d.len(),
        all_digits(d),
    ensures
        digits_value(d.subrange(0, k)) <= digits_value(d),
    decreases d.len() - k,
{
    if k < d.len() {
        lemma_digits_value_prefix(d, k + 1);
        assert(d.subrange(0, k + 1).drop_last() == d.subrange(0, k));
        assert(all_digits(d.subrange(0, k + 1)));
    } else {
        assert(d.subrange(0, k) == d);
    }
}

/// Parses a value of 0 to 255.
pub fn parse_u8_byte(value: &str) -> (r: Result<u8, String>)
    ensures
        parse_unsigned(value.spec_bytes(), 255) matches Some(v) ==> r == Ok::<u8, String>(v as u8),
        parse_unsigned(value.spec_bytes(), 255) is None ==> (r matches Err(message) && message@ == "'"@ + value@
            + "' is not a valid 0-255 value"@),
{
    match parse_bounded(value, 255) {
        Some(v) => Ok(v as u8),
        None => {
            let mut message = <String as StringExecFns>::from_str("'");
            message.append(value);
            message.append("' is not a valid 0-255 value");
            Err(message)
        },
    }
}

/// Parses a positive `u32`.
pub fn parse_positive_u32(value: &str) -> (r: Result<u32, String>)
    ensures
        parse_unsigned(value.spec_bytes(), u32::MAX as nat) is None ==> (r matches Err(message) && message@ == "'"@
            + value@ + "' is not a valid number"@),
        parse_unsigned(value.spec_bytes(), u32::MAX as nat) == Some(0nat) ==> (r matches Err(message) && message@
            == "value must be at least 1"@),
        parse_unsigned(value.spec_bytes(), u32::MAX as nat) matches Some(v) ==> (v == 0 || r == Ok::<u32, String>(
            v as u32,
        )),
{
    match parse_bounded(value, 0xffff_ffff) {
        Some(v) => {
            if v == 0 {
                Err("value must be at least 1".to_owned())
            } else {
                Ok(v as u32)
            }
        },
        None => {
            let mut message = <String as StringExecFns>::from_str("'");
            message.append(value);
            message.append("' is not a valid number");
            Err(message)
        },
    }
}

} // verus!
