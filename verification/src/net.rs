//! Textual IP addresses and the network prefixes used to group peers.
//!
//! A peer is grouped by the /24 block of its IPv4 address or the /64 block of
//! its IPv6 address. The address grammar accepted here is the usual textual
//! form: dotted decimal octets for IPv4 (no leading zeros, each at most 255),
//! and colon-separated groups of one to four hex digits for IPv6, with at
//! most one `::` gap and an optional embedded IPv4 tail.

use vstd::prelude::*;

verus! {

use vstd::string::StrSliceExecFns;

/// Network block that a peer belongs to for ban-throttling purposes:
/// the first three octets of an IPv4 address (a /24 block) or the first
/// four groups of an IPv6 address (a /64 block).
#[derive(Clone, Copy, Debug, PartialEq, Eq, Structural)]
pub enum NetworkPrefix {
    V4 { o1: u8, o2: u8, o3: u8 },
    V6 { g1: u16, g2: u16, g3: u16, g4: u16 },
}

/// Position of the first occurrence of `c` in `s`, or -1 if absent.
pub open spec fn find_char(s: Seq<char>, c: char) -> int
    decreases s.len(),
{
    if s.len() == 0 {
        -1
    } else if s[0] == c {
        0
    } else {
        let r = find_char(s.drop_first(), c);
        if r < 0 {
            -1
        } else {
            r + 1
        }
    }
}

proof fn lemma_find_char_at(s: Seq<char>, c: char, k: int)
    requires
        0 <= k < s.len(),
        s[k] == c,
        forall|j: int| 0 <= j < k ==> s[j] != c,
    ensures
        find_char(s, c) == k,
    decreases s.len(),
{
    if k > 0 {
        lemma_find_char_at(s.drop_first(), c, k - 1);
    }
}

proof fn lemma_find_char_none(s: Seq<char>, c: char)
    requires
        forall|j: int| 0 <= j < s.len() ==> s[j] != c,
    ensures
        find_char(s, c) == -1,
    decreases s.len(),
{
    if s.len() > 0 {
        lemma_find_char_none(s.drop_first(), c);
    }
}

/// First position where `s` holds two adjacent colons, or -1 if none.
pub open spec fn find_double_colon(s: Seq<char>) -> int
    decreases s.len(),
{
    if s.len() < 2 {
        -1
    } else if s[0] == ':' && s[1] == ':' {
        0
    } else {
        let r = find_double_colon(s.drop_first());
        if r < 0 {
            -1
        } else {
            r + 1
        }
    }
}

proof fn lemma_find_double_colon_at(s: Seq<char>, k: int)
    requires
        0 <= k,
        k + 1 < s.len(),
        s[k] == ':' && s[k + 1] == ':',
        forall|j: int| 0 <= j < k ==> !(#[trigger] s[j] == ':' && s[j + 1] == ':'),
    ensures
        find_double_colon(s) == k,
    decreases s.len(),
{
    if k > 0 {
        let t = s.drop_first();
        assert forall|j: int| 0 <= j < k - 1 implies !(#[trigger] t[j] == ':' && t[j + 1]
            == ':') by {
            assert(t[j] == s[j + 1]);
            assert(t[j + 1] == s[j + 2]);
            assert(!(s[j + 1] == ':' && s[j + 2] == ':'));
        }
        assert(!(s[0] == ':' && s[1] == ':'));
        lemma_find_double_colon_at(t, k - 1);
    }
}

proof fn lemma_find_double_colon_none(s: Seq<char>)
    requires
        forall|j: int| 0 <= j && j + 1 < s.len() ==> !(#[trigger] s[j] == ':' && s[j + 1] == ':'),
    ensures
        find_double_colon(s) == -1,
    decreases s.len(),
{
    if s.len() >= 2 {
        let t = s.drop_first();
        assert forall|j: int| 0 <= j && j + 1 < t.len() implies !(#[trigger] t[j] == ':' && t[j + 1]
            == ':') by {
            assert(t[j] == s[j + 1]);
            assert(t[j + 1] == s[j + 2]);
            assert(!(s[j + 1] == ':' && s[j + 2] == ':'));
        }
        lemma_find_double_colon_none(t);
    }
}

/// Decimal digit.
pub open spec fn is_dec_digit(c: char) -> bool {
    '0' as u32 <= c as u32 && c as u32 <= '9' as u32
}

pub open spec fn dec_digit_val(c: char) -> int {
    c as u32 - '0' as u32
}

/// Hexadecimal digit, either case.
pub open spec fn is_hex_digit(c: char) -> bool {
    ('0' as u32 <= c as u32 && c as u32 <= '9' as u32) || ('a' as u32 <= c as u32 && c as u32
        <= 'f' as u32) || ('A' as u32 <= c as u32 && c as u32 <= 'F' as u32)
}

pub open spec fn hex_digit_val(c: char) -> int {
    if '0' as u32 <= c as u32 && c as u32 <= '9' as u32 {
        c as u32 - '0' as u32
    } else if 'a' as u32 <= c as u32 && c as u32 <= 'f' as u32 {
        c as u32 - 'a' as u32 + 10
    } else {
        c as u32 - 'A' as u32 + 10
    }
}

pub open spec fn all_dec_digits(s: Seq<char>) -> bool {
    forall|i: int| 0 <= i < s.len() ==> is_dec_digit(#[trigger] s[i])
}

pub open spec fn all_hex_digits(s: Seq<char>) -> bool {
    forall|i: int| 0 <= i < s.len() ==> is_hex_digit(#[trigger] s[i])
}

/// Value of a string of decimal digits, most significant first.
pub open spec fn dec_val(s: Seq<char>) -> int
    decreases s.len(),
{
    if s.len() == 0 {
        0
    } else {
        10 * dec_val(s.drop_last()) + dec_digit_val(s.last())
    }
}

/// Value of a string of hex digits, most significant first.
pub open spec fn hex_val(s: Seq<char>) -> int
    decreases s.len(),
{
    if s.len() == 0 {
        0
    } else {
        16 * hex_val(s.drop_last()) + hex_digit_val(s.last())
    }
}

/// Text of one IPv4 octet: one to three decimal digits, no leading zero,
/// value at most 255.
pub open spec fn is_octet_text(s: Seq<char>) -> bool {
    &&& 1 <= s.len() <= 3
    &&& all_dec_digits(s)
    &&& (s.len() > 1 ==> s[0] != '0')
    &&& dec_val(s) <= 255
}

/// Text of one IPv6 group: one to four hex digits.
pub open spec fn is_h16_text(s: Seq<char>) -> bool {
    1 <= s.len() <= 4 && all_hex_digits(s)
}

proof fn lemma_dec_val_small(s: Seq<char>)
    requires
        all_dec_digits(s),
        s.len() <= 3,
    ensures
        0 <= dec_val(s) <= 999,
        s.len() <= 2 ==> dec_val(s) <= 99,
        s.len() <= 1 ==> dec_val(s) <= 9,
    decreases s.len(),
{
    if s.len() > 0 {
        let t = s.drop_last();
        assert forall|i: int| 0 <= i < t.len() implies is_dec_digit(#[trigger] t[i]) by {
            assert(t[i] == s[i]);
        }
        lemma_dec_val_small(t);
    }
}

proof fn lemma_hex_val_small(s: Seq<char>)
    requires
        all_hex_digits(s),
        s.len() <= 4,
    ensures
        0 <= hex_val(s) <= 0xffff,
        s.len() <= 3 ==> hex_val(s) <= 0xfff,
        s.len() <= 2 ==> hex_val(s) <= 0xff,
        s.len() <= 1 ==> hex_val(s) <= 0xf,
    decreases s.len(),
{
    if s.len() > 0 {
        let t = s.drop_last();
        assert forall|i: int| 0 <= i < t.len() implies is_hex_digit(#[trigger] t[i]) by {
            assert(t[i] == s[i]);
        }
        lemma_hex_val_small(t);
    }
}

/// Position of the first `c` in `s`, if any.
pub(crate) fn find_first(s: &str, c: char) -> (r: Option<usize>)
    ensures
        match r {
            Some(i) => i < s@.len() && find_char(s@, c) == i as int,
            None => find_char(s@, c) == -1,
        },
{
    let n = s.unicode_len();
    let mut i: usize = 0;
    while i < n
        invariant
            i <= n,
            n == s@.len(),
            forall|j: int| 0 <= j < i ==> s@[j] != c,
        decreases n - i,
    {
        if s.get_char(i) == c {
            proof {
                lemma_find_char_at(s@, c, i as int);
            }
            return Some(i);
        }
        i = i + 1;
    }
    proof {
        lemma_find_char_none(s@, c);
    }
    None
}

/// Position of the first `::` in `s`, if any.
fn find_first_double_colon(s: &str) -> (r: Option<usize>)
    ensures
        match r {
            Some(i) => i + 1 < s@.len() && find_double_colon(s@) == i as int,
            None => find_double_colon(s@) == -1,
        },
{
    let n = s.unicode_len();
    if n < 2 {
        return None;
    }
    let mut i: usize = 0;
    while i + 1 < n
        invariant
            i + 1 <= n,
            2 <= n == s@.len(),
            forall|j: int| 0 <= j < i ==> !(#[trigger] s@[j] == ':' && s@[j + 1] == ':'),
        decreases n - i,
    {
        if s.get_char(i) == ':' && s.get_char(i + 1) == ':' {
            proof {
                lemma_find_double_colon_at(s@, i as int);
            }
            return Some(i);
        }
        i = i + 1;
    }
    proof {
        lemma_find_double_colon_none(s@);
    }
    None
}

/// Reads one IPv4 octet from its text form.
fn parse_octet(s: &str) -> (r: Option<u8>)
    ensures
        match r {
            Some(v) => is_octet_text(s@) && v as int == dec_val(s@),
            None => !is_octet_text(s@),
        },
{
    let n = s.unicode_len();
    if n == 0 || n > 3 {
        return None;
    }
    if n > 1 && s.get_char(0) == '0' {
        return None;
    }
    let mut val: u32 = 0;
    let mut i: usize = 0;
    while i < n
        invariant
            i <= n,
            n == s@.len(),
            1 <= n <= 3,
            val as int == dec_val(s@.take(i as int)),
            val <= 999,
            forall|j: int| 0 <= j < i ==> is_dec_digit(#[trigger] s@[j]),
        decreases n - i,
    {
        let c = s.get_char(i);
        let u = c as u32;
        if u < '0' as u32 || u > '9' as u32 {
            assert(!is_dec_digit(s@[i as int]));
            return None;
        }
        proof {
            let p = s@.take(i as int);
            assert forall|j: int| 0 <= j < p.len() implies is_dec_digit(#[trigger] p[j]) by {
                assert(p[j] == s@[j]);
            }
            lemma_dec_val_small(p);
            assert(s@.take(i + 1).drop_last() =~= s@.take(i as int));
            assert(s@.take(i + 1).last() == s@[i as int]);
        }
        val = val * 10 + (u - '0' as u32);
        i = i + 1;
    }
    proof {
        assert(s@.take(n as int) =~= s@);
    }
    if val > 255 {
        return None;
    }
    Some(val as u8)
}

/// Reads one IPv6 group of one to four hex digits.
fn parse_h16(s: &str) -> (r: Option<u16>)
    ensures
        match r {
            Some(v) => is_h16_text(s@) && v as int == hex_val(s@),
            None => !is_h16_text(s@),
        },
{
    let n = s.unicode_len();
    if n == 0 || n > 4 {
        return None;
    }
    let mut val: u32 = 0;
    let mut i: usize = 0;
    while i < n
        invariant
            i <= n,
            n == s@.len(),
            1 <= n <= 4,
            val as int == hex_val(s@.take(i as int)),
            val <= 0xffff,
            forall|j: int| 0 <= j < i ==> is_hex_digit(#[trigger] s@[j]),
        decreases n - i,
    {
        let c = s.get_char(i);
        let u = c as u32;
        let d: u32 = if u >= '0' as u32 && u <= '9' as u32 {
            u - '0' as u32
        } else if u >= 'a' as u32 && u <= 'f' as u32 {
            u - 'a' as u32 + 10
        } else if u >= 'A' as u32 && u <= 'F' as u32 {
            u - 'A' as u32 + 10
        } else {
            assert(!is_hex_digit(s@[i as int]));
            return None;
        };
        proof {
            let p = s@.take(i as int);
            assert forall|j: int| 0 <= j < p.len() implies is_hex_digit(#[trigger] p[j]) by {
                assert(p[j] == s@[j]);
            }
            lemma_hex_val_small(p);
            assert(s@.take(i + 1).drop_last() =~= s@.take(i as int));
            assert(s@.take(i + 1).last() == s@[i as int]);
        }
        val = val * 16 + d;
        i = i + 1;
    }
    proof {
        assert(s@.take(n as int) =~= s@);
    }
    Some(val as u16)
}

/// Meaning of an IPv4 address literal: the four octet values of
/// `a.b.c.d`, where each part is an octet text, or nothing.
pub open spec fn spec_ipv4(s: Seq<char>) -> Option<(int, int, int, int)> {
    let i1 = find_char(s, '.');
    if i1 < 0 {
        None
    } else {
        let t0 = s.take(i1);
        let r1 = s.skip(i1 + 1);
        let i2 = find_char(r1, '.');
        if i2 < 0 {
            None
        } else {
            let t1 = r1.take(i2);
            let r2 = r1.skip(i2 + 1);
            let i3 = find_char(r2, '.');
            if i3 < 0 {
                None
            } else {
                let t2 = r2.take(i3);
                let t3 = r2.skip(i3 + 1);
                if is_octet_text(t0) && is_octet_text(t1) && is_octet_text(t2) && is_octet_text(
                    t3,
                ) {
                    Some((dec_val(t0), dec_val(t1), dec_val(t2), dec_val(t3)))
                } else {
                    None
                }
            }
        }
    }
}

/// Reads an IPv4 address literal.
pub fn parse_ipv4(s: &str) -> (r: Option<(u8, u8, u8, u8)>)
    ensures
        match r {
            Some(o) => spec_ipv4(s@) == Some((o.0 as int, o.1 as int, o.2 as int, o.3 as int)),
            None => spec_ipv4(s@) is None,
        },
{
    let n = s.unicode_len();
    let i1 = match find_first(s, '.') {
        Some(i) => i,
        None => {
            return None;
        },
    };
    let p0 = s.substring_char(0, i1);
    let r1 = s.substring_char(i1 + 1, n);
    let i2 = match find_first(r1, '.') {
        Some(i) => i,
        None => {
            return None;
        },
    };
    let n1 = r1.unicode_len();
    let p1 = r1.substring_char(0, i2);
    let r2 = r1.substring_char(i2 + 1, n1);
    let i3 = match find_first(r2, '.') {
        Some(i) => i,
        None => {
            return None;
        },
    };
    let n2 = r2.unicode_len();
    let p2 = r2.substring_char(0, i3);
    let p3 = r2.substring_char(i3 + 1, n2);
    let o0 = match parse_octet(p0) {
        Some(v) => v,
        None => {
            return None;
        },
    };
    let o1 = match parse_octet(p1) {
        Some(v) => v,
        None => {
            return None;
        },
    };
    let o2 = match parse_octet(p2) {
        Some(v) => v,
        None => {
            return None;
        },
    };
    let o3 = match parse_octet(p3) {
        Some(v) => v,
        None => {
            return None;
        },
    };
    Some((o0, o1, o2, o3))
}

/// View of a group vector as the mathematical group values.
pub open spec fn group_vals(v: Seq<u16>) -> Seq<int> {
    v.map_values(|x: u16| x as int)
}

/// Meaning of a colon-separated list of IPv6 groups read left to right:
/// each part before a colon is one hex group, and the final part is either
/// a hex group or, where `allow_v4` holds, an embedded IPv4 address that
/// stands for the last two groups.
pub open spec fn spec_group_list(s: Seq<char>, allow_v4: bool) -> Option<Seq<int>>
    decreases s.len(),
{
    let i = find_char(s, ':');
    if 0 <= i < s.len() {
        let head = s.take(i);
        let tail = s.skip(i + 1);
        if is_h16_text(head) {
            match spec_group_list(tail, allow_v4) {
                Some(g) => Some(seq![hex_val(head)] + g),
                None => None,
            }
        } else {
            None
        }
    } else if allow_v4 && find_char(s, '.') >= 0 {
        match spec_ipv4(s) {
            Some(o) => Some(seq![o.0 * 256 + o.1, o.2 * 256 + o.3]),
            None => None,
        }
    } else if is_h16_text(s) {
        Some(seq![hex_val(s)])
    } else {
        None
    }
}

/// Reads a colon-separated list of IPv6 groups.
fn parse_group_list(s: &str, allow_v4: bool) -> (r: Option<Vec<u16>>)
    ensures
        match r {
            Some(v) => spec_group_list(s@, allow_v4) == Some(group_vals(v@)),
            None => spec_group_list(s@, allow_v4) is None,
        },
    decreases s@.len(),
{
    let n = s.unicode_len();
    match find_first(s, ':') {
        Some(i) => {
            let head = s.substring_char(0, i);
            let tail = s.substring_char(i + 1, n);
            let h = match parse_h16(head) {
                Some(h) => h,
                None => {
                    return None;
                },
            };
            let mut rest = match parse_group_list(tail, allow_v4) {
                Some(v) => v,
                None => {
                    return None;
                },
            };
            let ghost rest_view = rest@;
            let mut out: Vec<u16> = Vec::new();
            out.push(h);
            out.append(&mut rest);
            proof {
                assert(group_vals(out@) =~= seq![h as int] + group_vals(rest_view));
            }
            Some(out)
        },
        None => {
            let has_dot = match find_first(s, '.') {
                Some(_) => true,
                None => false,
            };
            if allow_v4 && has_dot {
                match parse_ipv4(s) {
                    Some((a, b, c, d)) => {
                        let g0: u16 = (a as u16) * 256 + (b as u16);
                        let g1: u16 = (c as u16) * 256 + (d as u16);
                        let out: Vec<u16> = vec![g0, g1];
                        proof {
                            assert(group_vals(out@) =~= seq![
                                a as int * 256 + b as int,
                                c as int * 256 + d as int,
                            ]);
                        }
                        Some(out)
                    },
                    None => None,
                }
            } else {
                match parse_h16(s) {
                    Some(h) => {
                        let out: Vec<u16> = vec![h];
                        proof {
                            assert(group_vals(out@) =~= seq![h as int]);
                        }
                        Some(out)
                    },
                    None => None,
                }
            }
        },
    }
}

/// Meaning of an IPv6 address literal: its eight group values. The address
/// either lists all eight groups, or holds one `::` that stands for the
/// missing all-zero groups.
pub open spec fn spec_ipv6(s: Seq<char>) -> Option<Seq<int>> {
    let d = find_double_colon(s);
    if 0 <= d && d + 1 < s.len() {
        let left = s.take(d);
        let right = s.skip(d + 2);
        let lg = if left.len() == 0 {
            Some(Seq::<int>::empty())
        } else {
            spec_group_list(left, false)
        };
        let rg = if right.len() == 0 {
            Some(Seq::<int>::empty())
        } else {
            spec_group_list(right, true)
        };
        match (lg, rg) {
            (Some(l), Some(t)) => if l.len() + t.len() <= 7 {
                Some(l + Seq::new((8 - l.len() - t.len()) as nat, |j: int| 0int) + t)
            } else {
                None
            },
            _ => None,
        }
    } else {
        match spec_group_list(s, true) {
            Some(g) => if g.len() == 8 {
                Some(g)
            } else {
                None
            },
            None => None,
        }
    }
}

/// Reads an IPv6 address literal into its eight groups.
pub fn parse_ipv6(s: &str) -> (r: Option<Vec<u16>>)
    ensures
        match r {
            Some(v) => v@.len() == 8 && spec_ipv6(s@) == Some(group_vals(v@)),
            None => spec_ipv6(s@) is None,
        },
{
    let n = s.unicode_len();
    match find_first_double_colon(s) {
        Some(d) => {
            let left = s.substring_char(0, d);
            let right = s.substring_char(d + 2, n);
            let mut lg: Vec<u16> = if left.unicode_len() == 0 {
                Vec::new()
            } else {
                match parse_group_list(left, false) {
                    Some(v) => v,
                    None => {
                        return None;
                    },
                }
            };
            let mut rg: Vec<u16> = if right.unicode_len() == 0 {
                Vec::new()
            } else {
                match parse_group_list(right, true) {
                    Some(v) => v,
                    None => {
                        return None;
                    },
                }
            };
            let ghost left_groups = lg@;
            let ghost right_groups = rg@;
            if lg.len() > 7 || rg.len() > 7 || lg.len() + rg.len() > 7 {
                return None;
            }
            let fill: usize = 8 - lg.len() - rg.len();
            let mut zeros: Vec<u16> = vec![0u16; fill];
            let mut out = lg;
            out.append(&mut zeros);
            out.append(&mut rg);
            proof {
                assert(group_vals(out@) =~= group_vals(left_groups) + Seq::new(
                    (8 - left_groups.len() - right_groups.len()) as nat,
                    |j: int| 0int,
                ) + group_vals(right_groups));
            }
            Some(out)
        },
        None => {
            match parse_group_list(s, true) {
                Some(v) => {
                    if v.len() == 8 {
                        Some(v)
                    } else {
                        None
                    }
                },
                None => None,
            }
        },
    }
}

/// Meaning of a peer address string: the /24 block of an IPv4 literal, or
/// the /64 block of an IPv6 literal, or nothing for any other text.
pub open spec fn spec_network_prefix(s: Seq<char>) -> Option<NetworkPrefix> {
    match spec_ipv4(s) {
        Some(o) => Some(
            NetworkPrefix::V4 { o1: o.0 as u8, o2: o.1 as u8, o3: o.2 as u8 },
        ),
        None => match spec_ipv6(s) {
            Some(g) => Some(
                NetworkPrefix::V6 {
                    g1: g[0] as u16,
                    g2: g[1] as u16,
                    g3: g[2] as u16,
                    g4: g[3] as u16,
                },
            ),
            None => None,
        },
    }
}

/// Computes the network block of a textual peer address: IPv4 addresses are
/// truncated to their /24 block, IPv6 addresses to their /64 block.
pub fn network_prefix_of(ip: &str) -> (r: Option<NetworkPrefix>)
    ensures
        r == spec_network_prefix(ip@),
{
    match parse_ipv4(ip) {
        Some((a, b, c, _d)) => Some(NetworkPrefix::V4 { o1: a, o2: b, o3: c }),
        None => match parse_ipv6(ip) {
            Some(v) => Some(
                NetworkPrefix::V6 { g1: v[0], g2: v[1], g3: v[2], g4: v[3] },
            ),
            None => None,
        },
    }
}

} // verus!
