//! The remote control API's version gate.
//!
//! The remote endpoint reports its API version as a dotted string of
//! decimal components, such as `2.8.3`. The monitor requires at least
//! version 2.3: a string that does not parse as dotted decimal numbers is
//! a fatal configuration error, and a version below the floor is refused
//! outright.

use vstd::prelude::*;
use crate::net::all_dec_digits;
use crate::net::dec_val;
use crate::net::find_char;
use crate::net::find_first;
use crate::net::is_dec_digit;

verus! {

use vstd::string::StrSliceExecFns;

/// Largest value accepted for a single version component.
pub const VERSION_COMPONENT_MAX: u32 = 0x7fff_ffff;

/// One dotted component: at least one decimal digit (leading zeros are
/// fine), with a value that fits the accepted range.
pub open spec fn is_version_component(t: Seq<char>) -> bool {
    t.len() >= 1 && all_dec_digits(t) && dec_val(t) <= VERSION_COMPONENT_MAX as int
}

/// Meaning of a dotted version string: the values of its components, or
/// nothing if any part is not a decimal number in range.
pub open spec fn spec_version_numbers(s: Seq<char>) -> Option<Seq<int>>
    decreases s.len(),
{
    let i = find_char(s, '.');
    if 0 <= i < s.len() {
        let head = s.take(i);
        let tail = s.skip(i + 1);
        if is_version_component(head) {
            match spec_version_numbers(tail) {
                Some(ns) => Some(seq![dec_val(head)] + ns),
                None => None,
            }
        } else {
            None
        }
    } else {
        if is_version_component(s) {
            Some(seq![dec_val(s)])
        } else {
            None
        }
    }
}

/// The version floor: major at least 2, and within major 2 a minor of at
/// least 3.
pub open spec fn version_supported(ns: Seq<int>) -> bool {
    ns.len() >= 2 && ns[0] >= 2 && (ns[0] > 2 || ns[1] >= 3)
}

/// Outcome of the version gate.
#[derive(Clone, Copy, Debug, PartialEq, Eq, Structural)]
pub enum VersionVerdict {
    /// The reported version meets the floor; monitoring may start.
    Supported,
    /// The version string parsed but the version is below the floor.
    TooOld,
    /// The version string is not dotted decimal numbers.
    Malformed,
}

proof fn lemma_dec_val_nonneg(s: Seq<char>)
    requires
        all_dec_digits(s),
    ensures
        dec_val(s) >= 0,
    decreases s.len(),
{
    if s.len() > 0 {
        let t = s.drop_last();
        assert forall|i: int| 0 <= i < t.len() implies is_dec_digit(#[trigger] t[i]) by {
            assert(t[i] == s[i]);
        }
        lemma_dec_val_nonneg(t);
    }
}

proof fn lemma_dec_val_prefix_le(s: Seq<char>, k: int)
    requires
        all_dec_digits(s),
        0 <= k <= s.len(),
    ensures
        dec_val(s.take(k)) <= dec_val(s),
    decreases s.len(),
{
    if k == s.len() {
        assert(s.take(k) =~= s);
    } else {
        let t = s.drop_last();
        assert forall|i: int| 0 <= i < t.len() implies is_dec_digit(#[trigger] t[i]) by {
            assert(t[i] == s[i]);
        }
        lemma_dec_val_prefix_le(t, k);
        lemma_dec_val_nonneg(t);
        assert(s.take(k) =~= t.take(k));
    }
}

/// Reads one dotted component as a decimal number.
fn parse_component(s: &str) -> (r: Option<u32>)
    ensures
        match r {
            Some(v) => is_version_component(s@) && v as int == dec_val(s@) && v
                <= VERSION_COMPONENT_MAX,
            None => !is_version_component(s@),
        },
{
    let n = s.unicode_len();
    if n == 0 {
        return None;
    }
    let mut val: u64 = 0;
    let mut i: usize = 0;
    while i < n
        invariant
            i <= n,
            n == s@.len(),
            1 <= n,
            val as int == dec_val(s@.take(i as int)),
            val <= VERSION_COMPONENT_MAX as u64,
            forall|j: int| 0 <= j < i ==> is_dec_digit(#[trigger] s@[j]),
        decreases n - i,
    {
        let c = s.get_char(i);
        let u = c as u32;
        if u < '0' as u32 || u > '9' as u32 {
            assert(!is_dec_digit(s@[i as int]));
            return None;
        }
        proof {
            assert(s@.take(i + 1).drop_last() =~= s@.take(i as int));
            assert(s@.take(i + 1).last() == s@[i as int]);
        }
        val = val * 10 + ((u - '0' as u32) as u64);
        i = i + 1;
        if val > VERSION_COMPONENT_MAX as u64 {
            if all_digits(s) {
                proof {
                    lemma_dec_val_prefix_le(s@, i as int);
                }
            }
            return None;
        }
    }
    proof {
        assert(s@.take(n as int) =~= s@);
    }
    Some(val as u32)
}

/// Whether every character of `s` is a decimal digit.
fn all_digits(s: &str) -> (r: bool)
    ensures
        r == all_dec_digits(s@),
{
    let n = s.unicode_len();
    let mut i: usize = 0;
    while i < n
        invariant
            i <= n,
            n == s@.len(),
            forall|j: int| 0 <= j < i ==> is_dec_digit(#[trigger] s@[j]),
        decreases n - i,
    {
        let u = s.get_char(i) as u32;
        if u < '0' as u32 || u > '9' as u32 {
            assert(!is_dec_digit(s@[i as int]));
            return false;
        }
        i = i + 1;
    }
    true
}

/// View of a component vector as the mathematical component values.
pub open spec fn nums_view(v: Seq<u32>) -> Seq<int> {
    v.map_values(|x: u32| x as int)
}

/// Reads a dotted version string into its component values.
pub fn parse_version_numbers(s: &str) -> (r: Option<Vec<u32>>)
    ensures
        match r {
            Some(v) => spec_version_numbers(s@) == Some(nums_view(v@)),
            None => spec_version_numbers(s@) is None,
        },
    decreases s@.len(),
{
    let n = s.unicode_len();
    match find_first(s, '.') {
        Some(i) => {
            let head = s.substring_char(0, i);
            let tail = s.substring_char(i + 1, n);
            let h = match parse_component(head) {
                Some(h) => h,
                None => {
                    return None;
                },
            };
            let mut rest = match parse_version_numbers(tail) {
                Some(v) => v,
                None => {
                    return None;
                },
            };
            let ghost rest_view = rest@;
            let mut out: Vec<u32> = Vec::new();
            out.push(h);
            out.append(&mut rest);
            proof {
                assert(nums_view(out@) =~= seq![h as int] + nums_view(rest_view));
            }
            Some(out)
        },
        None => {
            match parse_component(s) {
                Some(h) => {
                    let out: Vec<u32> = vec![h];
                    proof {
                        assert(nums_view(out@) =~= seq![h as int]);
                    }
                    Some(out)
                },
                None => None,
            }
        },
    }
}

/// Applies the version gate to the version string the remote endpoint
/// reported.
pub fn check_api_version(s: &str) -> (v: VersionVerdict)
    ensures
        match spec_version_numbers(s@) {
            Some(ns) => v == (if version_supported(ns) {
                VersionVerdict::Supported
            } else {
                VersionVerdict::TooOld
            }),
            None => v == VersionVerdict::Malformed,
        },
{
    match parse_version_numbers(s) {
        None => VersionVerdict::Malformed,
        Some(nums) => {
            proof {
                if nums@.len() >= 2 {
                    assert(nums_view(nums@)[0] == nums@[0] as int);
                    assert(nums_view(nums@)[1] == nums@[1] as int);
                }
            }
            if nums.len() >= 2 && nums[0] >= 2 && (nums[0] > 2 || nums[1] >= 3) {
                VersionVerdict::Supported
            } else {
                VersionVerdict::TooOld
            }
        },
    }
}

} // verus!
