//! IP addresses as plain values: a syntactic model of IPv4/IPv6 address text,
//! a verified parser and formatter, and the reserved-range policy predicate.

use vstd::prelude::*;

verus! {

/// A parsed IP address in canonical form: four octets for IPv4, eight
/// 16-bit groups for IPv6.
#[derive(Clone, Copy, Debug, PartialEq, Eq, Structural)]
pub enum IpAddress {
    V4(u8, u8, u8, u8),
    V6(u16, u16, u16, u16, u16, u16, u16, u16),
}

/// ASCII decimal digit.
pub open spec fn is_digit(b: u8) -> bool {
    48 <= b && b <= 57
}

pub open spec fn all_digits(s: Seq<u8>) -> bool {
    forall|i: int| 0 <= i < s.len() ==> is_digit(#[trigger] s[i])
}

/// Value of a decimal digit string (0 for the empty string).
pub open spec fn dec_val(s: Seq<u8>) -> int
    decreases s.len(),
{
    if s.len() == 0 {
        0
    } else {
        dec_val(s.drop_last()) * 10 + s.last() - 48
    }
}

pub open spec fn pow10(n: nat) -> int
    decreases n,
{
    if n == 0 {
        1
    } else {
        10 * pow10((n - 1) as nat)
    }
}

proof fn lemma_dec_val_bound(s: Seq<u8>)
    requires
        all_digits(s),
    ensures
        0 <= dec_val(s) < pow10(s.len()),
    decreases s.len(),
{
    if s.len() > 0 {
        assert(all_digits(s.drop_last()));
        lemma_dec_val_bound(s.drop_last());
    }
}

/// The text of one IPv4 octet: one to three decimal digits, no leading
/// zero (except "0" itself), value at most 255.
pub open spec fn is_octet_text(s: Seq<u8>) -> bool {
    &&& 1 <= s.len() <= 3
    &&& all_digits(s)
    &&& s.len() > 1 ==> s[0] != 48
    &&& dec_val(s) <= 255
}

/// `s` is four octet texts joined by dots, the dots standing at `i`, `j`, `k`.
pub open spec fn ipv4_split_at(s: Seq<u8>, i: int, j: int, k: int) -> bool {
    &&& 0 <= i < j < k < s.len()
    &&& s[i] == 46
    &&& s[j] == 46
    &&& s[k] == 46
    &&& is_octet_text(s.subrange(0, i))
    &&& is_octet_text(s.subrange(i + 1, j))
    &&& is_octet_text(s.subrange(j + 1, k))
    &&& is_octet_text(s.subrange(k + 1, s.len() as int))
}

/// `s` is the text of an IPv4 address in dotted-decimal form.
pub open spec fn is_ipv4_text(s: Seq<u8>) -> bool {
    exists|i: int, j: int, k: int| ipv4_split_at(s, i, j, k)
}

/// The four octet values of a valid IPv4 text (meaningful only when
/// `is_ipv4_text(s)`; the split is unique by `lemma_ipv4_split_unique`).
pub open spec fn ipv4_octets(s: Seq<u8>) -> (u8, u8, u8, u8) {
    let (i, j, k) = choose|i: int, j: int, k: int| ipv4_split_at(s, i, j, k);
    (
        dec_val(s.subrange(0, i)) as u8,
        dec_val(s.subrange(i + 1, j)) as u8,
        dec_val(s.subrange(j + 1, k)) as u8,
        dec_val(s.subrange(k + 1, s.len() as int)) as u8,
    )
}

/// Every byte of a split string that is no digit stands at one of the
/// three split positions: the four parts consist of digits only. In
/// particular every dot does.
proof fn lemma_dot_position(s: Seq<u8>, i: int, j: int, k: int, p: int)
    requires
        ipv4_split_at(s, i, j, k),
        0 <= p < s.len(),
        !is_digit(s[p]),
    ensures
        p == i || p == j || p == k,
{
    if p < i {
        assert(s.subrange(0, i)[p] == s[p]);
    } else if i < p < j {
        assert(s.subrange(i + 1, j)[p - i - 1] == s[p]);
    } else if j < p < k {
        assert(s.subrange(j + 1, k)[p - j - 1] == s[p]);
    } else if k < p {
        assert(s.subrange(k + 1, s.len() as int)[p - k - 1] == s[p]);
    }
}

/// A valid IPv4 text splits at exactly one triple of dot positions.
pub proof fn lemma_ipv4_split_unique(
    s: Seq<u8>,
    i1: int,
    j1: int,
    k1: int,
    i2: int,
    j2: int,
    k2: int,
)
    requires
        ipv4_split_at(s, i1, j1, k1),
        ipv4_split_at(s, i2, j2, k2),
    ensures
        i1 == i2 && j1 == j2 && k1 == k2,
{
    lemma_dot_position(s, i1, j1, k1, i2);
    lemma_dot_position(s, i1, j1, k1, j2);
    lemma_dot_position(s, i1, j1, k1, k2);
    lemma_dot_position(s, i2, j2, k2, i1);
    lemma_dot_position(s, i2, j2, k2, j1);
    lemma_dot_position(s, i2, j2, k2, k1);
}

/// Parses the digit run `s[lo..hi]` as one IPv4 octet.
fn parse_octet(s: &[u8], lo: usize, hi: usize) -> (r: Option<u8>)
    requires
        lo <= hi <= s@.len(),
    ensures
        match r {
            Some(v) => is_octet_text(s@.subrange(lo as int, hi as int)) && v == dec_val(
                s@.subrange(lo as int, hi as int),
            ),
            None => !is_octet_text(s@.subrange(lo as int, hi as int)),
        },
{
    let ghost t = s@.subrange(lo as int, hi as int);
    let n = hi - lo;
    if n == 0 || n > 3 {
        return None;
    }
    if n > 1 && s[lo] == 48 {
        return None;
    }
    let mut val: u32 = 0;
    let mut m: usize = 0;
    while m < n
        invariant
            lo + n == hi,
            hi <= s@.len(),
            n <= 3,
            m <= n,
            t == s@.subrange(lo as int, hi as int),
            all_digits(t.subrange(0, m as int)),
            val == dec_val(t.subrange(0, m as int)),
            0 <= val < 1000,
        decreases n - m,
    {
        let b = s[lo + m];
        if !(48 <= b && b <= 57) {
            assert(t[m as int] == b);
            assert(!all_digits(t));
            return None;
        }
        proof {
            assert(t.subrange(0, m + 1).drop_last() =~= t.subrange(0, m as int));
            assert(t.subrange(0, m + 1).last() == b);
            assert forall|q: int| 0 <= q < m + 1 implies is_digit(#[trigger] t.subrange(0, m + 1)[q]) by {
                if q < m {
                    assert(is_digit(t.subrange(0, m as int)[q]));
                }
            }
            assert(all_digits(t.subrange(0, m + 1)));
            lemma_dec_val_bound(t.subrange(0, m + 1));
            assert(pow10((m + 1) as nat) <= 1000) by {
                reveal_with_fuel(pow10, 4);
            }
        }
        val = val * 10 + (b - 48) as u32;
        m = m + 1;
    }
    assert(t =~= t.subrange(0, m as int));
    if val > 255 {
        return None;
    }
    let v = val as u8;
    assert(is_octet_text(t));
    Some(v)
}

/// Parses `s[lo..]` as an IPv4 address text; returns its four octets.
/// Succeeds exactly on valid dotted-decimal texts.
#[verifier::rlimit(60)]
fn parse_ipv4_from(s: &[u8], lo: usize) -> (r: Option<(u8, u8, u8, u8)>)
    requires
        lo <= s@.len(),
    ensures
        ({
            let t = s@.subrange(lo as int, s@.len() as int);
            r == if is_ipv4_text(t) {
                Some(ipv4_octets(t))
            } else {
                None::<(u8, u8, u8, u8)>
            }
        }),
{
    let ghost t = s@.subrange(lo as int, s@.len() as int);
    let len = s.len();
    let mut dots: Vec<usize> = Vec::new();
    let mut p: usize = lo;
    while p < len
        invariant
            lo <= p <= len,
            len == s@.len(),
            t == s@.subrange(lo as int, s@.len() as int),
            dots@.len() <= 3,
            forall|q: int|
                0 <= q < dots@.len() ==> lo <= #[trigger] dots@[q] < p && t[dots@[q] - lo] == 46,
            forall|q: int| 0 <= q < dots@.len() - 1 ==> #[trigger] dots@[q] < dots@[q + 1],
            forall|w: int|
                0 <= w < p - lo && #[trigger] t[w] == 46 ==> exists|q: int|
                    0 <= q < dots@.len() && dots@[q] == w + lo,
        decreases len - p,
    {
        assert(t[p - lo] == s@[p as int]);
        if s[p] == 46 {
            if dots.len() == 3 {
                proof {
                    if exists|i: int, j: int, k: int| ipv4_split_at(t, i, j, k) {
                        let (i, j, k) = choose|i: int, j: int, k: int| ipv4_split_at(t, i, j, k);
                        let d0 = dots@[0] - lo;
                        let d1 = dots@[1] - lo;
                        let d2 = dots@[2] - lo;
                        lemma_dot_position(t, i, j, k, d0);
                        lemma_dot_position(t, i, j, k, d1);
                        lemma_dot_position(t, i, j, k, d2);
                        lemma_dot_position(t, i, j, k, p - lo);
                        assert(d0 < d1 < d2 < p - lo);
                        assert(false);
                    }
                }
                return None;
            }
            let ghost pre = dots@;
            dots.push(p);
            proof {
                assert forall|w: int|
                    0 <= w < p + 1 - lo && #[trigger] t[w] == 46 implies exists|q: int|
                    0 <= q < dots@.len() && dots@[q] == w + lo by {
                    if w == p - lo {
                        assert(dots@[pre.len() as int] == w + lo);
                    } else {
                        let q = choose|q: int| 0 <= q < pre.len() && pre[q] == w + lo;
                        assert(dots@[q] == w + lo);
                    }
                }
            }
        }
        p = p + 1;
    }
    if dots.len() != 3 {
        proof {
            if exists|i: int, j: int, k: int| ipv4_split_at(t, i, j, k) {
                let (i, j, k) = choose|i: int, j: int, k: int| ipv4_split_at(t, i, j, k);
                assert(t[i] == 46 && t[j] == 46 && t[k] == 46);
                assert(exists|q: int| 0 <= q < dots@.len() && dots@[q] == i + lo);
                assert(exists|q: int| 0 <= q < dots@.len() && dots@[q] == j + lo);
                assert(exists|q: int| 0 <= q < dots@.len() && dots@[q] == k + lo);
                let qi = choose|q: int| 0 <= q < dots@.len() && dots@[q] == i + lo;
                let qj = choose|q: int| 0 <= q < dots@.len() && dots@[q] == j + lo;
                let qk = choose|q: int| 0 <= q < dots@.len() && dots@[q] == k + lo;
                assert(qi != qj && qj != qk && qi != qk);
                assert(false);
            }
        }
        return None;
    }
    let di = dots[0];
    let dj = dots[1];
    let dk = dots[2];
    assert(di < dj && dj < dk && dk < len);
    let r0 = parse_octet(s, lo, di);
    let r1 = parse_octet(s, di + 1, dj);
    let r2 = parse_octet(s, dj + 1, dk);
    let r3 = parse_octet(s, dk + 1, len);
    proof {
        assert(t.subrange(0, di - lo) =~= s@.subrange(lo as int, di as int));
        assert(t.subrange(di - lo + 1, dj - lo) =~= s@.subrange(di + 1, dj as int));
        assert(t.subrange(dj - lo + 1, dk - lo) =~= s@.subrange(dj + 1, dk as int));
        assert(t.subrange(dk - lo + 1, t.len() as int) =~= s@.subrange(dk + 1, len as int));
    }
    match (r0, r1, r2, r3) {
        (Some(a), Some(b), Some(c), Some(d)) => {
            proof {
                assert(ipv4_split_at(t, di - lo, dj - lo, dk - lo));
                let (i, j, k) = choose|i: int, j: int, k: int| ipv4_split_at(t, i, j, k);
                lemma_ipv4_split_unique(t, i, j, k, di - lo, dj - lo, dk - lo);
            }
            Some((a, b, c, d))
        },
        _ => {
            proof {
                if exists|i: int, j: int, k: int| ipv4_split_at(t, i, j, k) {
                    let (i, j, k) = choose|i: int, j: int, k: int| ipv4_split_at(t, i, j, k);
                    assert(t[i] == 46 && t[j] == 46 && t[k] == 46);
                    lemma_dot_position(t, i, j, k, di - lo);
                    lemma_dot_position(t, i, j, k, dj - lo);
                    lemma_dot_position(t, i, j, k, dk - lo);
                    assert(i == di - lo && j == dj - lo && k == dk - lo);
                    assert(false);
                }
            }
            None
        },
    }
}

/// Parses a whole byte string as an IPv4 address.
pub fn parse_ipv4(s: &[u8]) -> (r: Option<(u8, u8, u8, u8)>)
    ensures
        r == if is_ipv4_text(s@) {
            Some(ipv4_octets(s@))
        } else {
            None::<(u8, u8, u8, u8)>
        },
{
    let r = parse_ipv4_from(s, 0);
    proof {
        assert(s@.subrange(0, s@.len() as int) =~= s@);
    }
    r
}

/// ASCII hexadecimal digit (both cases).
pub open spec fn is_hex(b: u8) -> bool {
    is_digit(b) || (97 <= b && b <= 102) || (65 <= b && b <= 70)
}

/// Value of a hexadecimal digit (0 for a byte that is none).
pub open spec fn hex_val(b: u8) -> int {
    if 48 <= b && b <= 57 {
        b - 48
    } else if 97 <= b && b <= 102 {
        b - 87
    } else if 65 <= b && b <= 70 {
        b - 55
    } else {
        0
    }
}

/// Value of a hexadecimal digit string (0 for the empty string).
pub open spec fn hexgroup_val(s: Seq<u8>) -> int
    decreases s.len(),
{
    if s.len() == 0 {
        0
    } else {
        hexgroup_val(s.drop_last()) * 16 + hex_val(s.last())
    }
}

/// The first position at or after `i` that holds no hex digit.
pub open spec fn hex_run_end(s: Seq<u8>, i: int) -> int
    decreases s.len() - i,
{
    if 0 <= i < s.len() && is_hex(s[i]) {
        hex_run_end(s, i + 1)
    } else {
        i
    }
}

/// The two 16-bit groups that four IPv4 octets embed at the end of an
/// IPv6 address.
pub open spec fn v4_groups(o: (u8, u8, u8, u8)) -> Seq<u16> {
    seq![
        ((o.0 as int * 256 + o.1 as int) as u16),
        ((o.2 as int * 256 + o.3 as int) as u16),
    ]
}

/// The group values of a colon-separated list of IPv6 pieces running from
/// `i` to the end of `s`, with no "::" inside; the final piece may be an
/// embedded IPv4 address text (two groups).
pub open spec fn spec_v6_elems(s: Seq<u8>, i: int) -> Option<Seq<u16>>
    decreases s.len() - i,
{
    let j = hex_run_end(s, i);
    if j < s.len() && s[j] == 46 {
        if is_ipv4_text(s.subrange(i, s.len() as int)) {
            Some(v4_groups(ipv4_octets(s.subrange(i, s.len() as int))))
        } else {
            None
        }
    } else if i < j && j <= i + 4 {
        let g = hexgroup_val(s.subrange(i, j)) as u16;
        if j == s.len() {
            Some(seq![g])
        } else if j < s.len() && s[j] == 58 {
            match spec_v6_elems(s, j + 1) {
                Some(rest) => Some(seq![g] + rest),
                None => None,
            }
        } else {
            None
        }
    } else {
        None
    }
}

/// The groups standing after a "::": nothing at all, or a plain list.
pub open spec fn spec_v6_tail(s: Seq<u8>, i: int) -> Option<Seq<u16>> {
    if i == s.len() {
        Some(Seq::<u16>::empty())
    } else {
        spec_v6_elems(s, i)
    }
}

/// The leading part of an IPv6 text from `i` on: its group values, and,
/// where a "::" follows, the group values standing after it.
pub open spec fn spec_v6_head(s: Seq<u8>, i: int) -> Option<(Seq<u16>, Option<Seq<u16>>)>
    decreases s.len() - i,
{
    let j = hex_run_end(s, i);
    if j < s.len() && s[j] == 46 {
        if is_ipv4_text(s.subrange(i, s.len() as int)) {
            Some((v4_groups(ipv4_octets(s.subrange(i, s.len() as int))), None))
        } else {
            None
        }
    } else if i < j && j <= i + 4 {
        let g = hexgroup_val(s.subrange(i, j)) as u16;
        if j == s.len() {
            Some((seq![g], None))
        } else if j < s.len() && s[j] == 58 {
            if j + 1 < s.len() && s[j + 1] == 58 {
                match spec_v6_tail(s, j + 2) {
                    Some(tl) => Some((seq![g], Some(tl))),
                    None => None,
                }
            } else {
                match spec_v6_head(s, j + 1) {
                    Some(ht) => Some((seq![g] + ht.0, ht.1)),
                    None => None,
                }
            }
        } else {
            None
        }
    } else {
        None
    }
}

pub open spec fn zero_groups(n: int) -> Seq<u16> {
    Seq::new(n as nat, |q: int| 0u16)
}

/// The eight group values of an IPv6 address text: eight colon-separated
/// pieces, or fewer with one "::" standing for the missing zero groups;
/// the last piece may be an embedded IPv4 address text.
pub open spec fn parse_ipv6_groups(s: Seq<u8>) -> Option<Seq<u16>> {
    if s.len() >= 2 && s[0] == 58 && s[1] == 58 {
        match spec_v6_tail(s, 2) {
            Some(tl) => if tl.len() <= 7 {
                Some(zero_groups(8 - tl.len()) + tl)
            } else {
                None
            },
            None => None,
        }
    } else {
        match spec_v6_head(s, 0) {
            Some((h, None)) => if h.len() == 8 {
                Some(h)
            } else {
                None
            },
            Some((h, Some(tl))) => if h.len() + tl.len() <= 7 {
                Some(h + zero_groups(8 - h.len() - tl.len()) + tl)
            } else {
                None
            },
            None => None,
        }
    }
}

fn hex_run_end_x(s: &[u8], i: usize) -> (r: usize)
    requires
        i <= s@.len(),
    ensures
        r == hex_run_end(s@, i as int),
        i <= r <= s@.len(),
    decreases s@.len() - i,
{
    if i < s.len() {
        let b = s[i];
        if (48 <= b && b <= 57) || (97 <= b && b <= 102) || (65 <= b && b <= 70) {
            return hex_run_end_x(s, i + 1);
        }
    }
    i
}

fn hex_group_at(s: &[u8], i: usize, j: usize) -> (g: u16)
    requires
        i <= j <= s@.len(),
        j - i <= 4,
    ensures
        g == hexgroup_val(s@.subrange(i as int, j as int)) as u16,
{
    let ghost t = s@.subrange(i as int, j as int);
    let n = j - i;
    let mut val: u32 = 0;
    let mut m: usize = 0;
    while m < n
        invariant
            i + n == j,
            j <= s@.len(),
            n <= 4,
            m <= n,
            t == s@.subrange(i as int, j as int),
            val == hexgroup_val(t.subrange(0, m as int)),
            0 <= val < 0x10000,
            m < 4 ==> val < 0x1000,
            m < 3 ==> val < 0x100,
            m < 2 ==> val < 0x10,
            m < 1 ==> val == 0,
        decreases n - m,
    {
        let b = s[i + m];
        let d: u32 = if 48 <= b && b <= 57 {
            (b - 48) as u32
        } else if 97 <= b && b <= 102 {
            (b - 87) as u32
        } else if 65 <= b && b <= 70 {
            (b - 55) as u32
        } else {
            0
        };
        proof {
            assert(d == hex_val(b));
            assert(t.subrange(0, m + 1).drop_last() =~= t.subrange(0, m as int));
            assert(t.subrange(0, m + 1).last() == b);
        }
        val = val * 16 + d;
        m = m + 1;
    }
    proof {
        assert(t =~= t.subrange(0, m as int));
    }
    val as u16
}

fn v6_elems_x(s: &[u8], i: usize) -> (r: Option<Vec<u16>>)
    requires
        i <= s@.len(),
    ensures
        match r {
            Some(v) => spec_v6_elems(s@, i as int) == Some(v@),
            None => spec_v6_elems(s@, i as int) is None,
        },
    decreases s@.len() - i,
{
    let j = hex_run_end_x(s, i);
    if j < s.len() && s[j] == 46 {
        match parse_ipv4_from(s, i) {
            Some((a, b, c, d)) => {
                let g0: u16 = (a as u16) * 256 + (b as u16);
                let g1: u16 = (c as u16) * 256 + (d as u16);
                let mut v: Vec<u16> = Vec::new();
                v.push(g0);
                v.push(g1);
                proof {
                    assert(v@ =~= v4_groups((a, b, c, d)));
                }
                Some(v)
            },
            None => None,
        }
    } else if i < j && j - i <= 4 {
        let g = hex_group_at(s, i, j);
        if j == s.len() {
            let mut v: Vec<u16> = Vec::new();
            v.push(g);
            proof {
                assert(v@ =~= seq![g]);
            }
            Some(v)
        } else if s[j] == 58 {
            match v6_elems_x(s, j + 1) {
                Some(rest) => {
                    let ghost prev = rest@;
                    let mut out = rest;
                    out.insert(0, g);
                    proof {
                        assert(out@ =~= seq![g] + prev);
                    }
                    Some(out)
                },
                None => None,
            }
        } else {
            None
        }
    } else {
        None
    }
}

fn v6_tail_x(s: &[u8], i: usize) -> (r: Option<Vec<u16>>)
    requires
        i <= s@.len(),
    ensures
        match r {
            Some(v) => spec_v6_tail(s@, i as int) == Some(v@),
            None => spec_v6_tail(s@, i as int) is None,
        },
{
    if i == s.len() {
        let v: Vec<u16> = Vec::new();
        proof {
            assert(v@ =~= Seq::<u16>::empty());
        }
        Some(v)
    } else {
        v6_elems_x(s, i)
    }
}

fn v6_head_x(s: &[u8], i: usize) -> (r: Option<(Vec<u16>, Option<Vec<u16>>)>)
    requires
        i <= s@.len(),
    ensures
        match r {
            Some(p) => (match p.1 {
                Some(tl) => spec_v6_head(s@, i as int) == Some((p.0@, Some(tl@))),
                None => spec_v6_head(s@, i as int) == Some((p.0@, Option::<Seq<u16>>::None)),
            }),
            None => spec_v6_head(s@, i as int) is None,
        },
    decreases s@.len() - i,
{
    let j = hex_run_end_x(s, i);
    if j < s.len() && s[j] == 46 {
        match parse_ipv4_from(s, i) {
            Some((a, b, c, d)) => {
                let g0: u16 = (a as u16) * 256 + (b as u16);
                let g1: u16 = (c as u16) * 256 + (d as u16);
                let mut v: Vec<u16> = Vec::new();
                v.push(g0);
                v.push(g1);
                proof {
                    assert(v@ =~= v4_groups((a, b, c, d)));
                }
                Some((v, None))
            },
            None => None,
        }
    } else if i < j && j - i <= 4 {
        let g = hex_group_at(s, i, j);
        if j == s.len() {
            let mut v: Vec<u16> = Vec::new();
            v.push(g);
            proof {
                assert(v@ =~= seq![g]);
            }
            Some((v, None))
        } else if s[j] == 58 {
            if j + 1 < s.len() && s[j + 1] == 58 {
                match v6_tail_x(s, j + 2) {
                    Some(tl) => {
                        let mut v: Vec<u16> = Vec::new();
                        v.push(g);
                        proof {
                            assert(v@ =~= seq![g]);
                        }
                        Some((v, Some(tl)))
                    },
                    None => None,
                }
            } else {
                match v6_head_x(s, j + 1) {
                    Some((h, tl)) => {
                        let ghost prev = h@;
                        let mut out = h;
                        out.insert(0, g);
                        proof {
                            assert(out@ =~= seq![g] + prev);
                        }
                        Some((out, tl))
                    },
                    None => None,
                }
            }
        } else {
            None
        }
    } else {
        None
    }
}

/// Joins head groups, the zero groups a "::" stands for, and tail groups
/// into the eight groups of an address.
fn assemble_groups(h: &Vec<u16>, tl: &Vec<u16>) -> (v: Vec<u16>)
    requires
        h@.len() + tl@.len() <= 8,
    ensures
        v@ == h@ + zero_groups(8 - h@.len() - tl@.len()) + tl@,
        v@.len() == 8,
{
    let ghost zn = 8 - h@.len() - tl@.len();
    let mut v: Vec<u16> = Vec::new();
    let mut a: usize = 0;
    while a < h.len()
        invariant
            a <= h@.len(),
            v@ == h@.subrange(0, a as int),
        decreases h@.len() - a,
    {
        v.push(h[a]);
        proof {
            assert(v@ =~= h@.subrange(0, a + 1));
        }
        a = a + 1;
    }
    proof {
        assert(h@.subrange(0, h@.len() as int) =~= h@);
    }
    let z = 8 - h.len() - tl.len();
    let mut b: usize = 0;
    while b < z
        invariant
            z == zn,
            b <= z,
            v@ == h@ + zero_groups(b as int),
        decreases z - b,
    {
        v.push(0);
        proof {
            assert(v@ =~= h@ + zero_groups(b + 1));
        }
        b = b + 1;
    }
    let mut c: usize = 0;
    while c < tl.len()
        invariant
            c <= tl@.len(),
            v@ == h@ + zero_groups(zn) + tl@.subrange(0, c as int),
        decreases tl@.len() - c,
    {
        v.push(tl[c]);
        proof {
            assert(v@ =~= h@ + zero_groups(zn) + tl@.subrange(0, c + 1));
        }
        c = c + 1;
    }
    proof {
        assert(tl@.subrange(0, tl@.len() as int) =~= tl@);
    }
    v
}

/// Parses a whole byte string as an IPv6 address; returns its eight groups.
pub fn parse_ipv6(s: &[u8]) -> (r: Option<Vec<u16>>)
    ensures
        match r {
            Some(v) => parse_ipv6_groups(s@) == Some(v@) && v@.len() == 8,
            None => parse_ipv6_groups(s@) is None,
        },
{
    if s.len() >= 2 && s[0] == 58 && s[1] == 58 {
        match v6_tail_x(s, 2) {
            Some(tl) => {
                if tl.len() <= 7 {
                    let empty: Vec<u16> = Vec::new();
                    let v = assemble_groups(&empty, &tl);
                    proof {
                        assert(empty@ + zero_groups(8 - tl@.len()) + tl@ =~= zero_groups(8 - tl@.len())
                            + tl@);
                    }
                    Some(v)
                } else {
                    None
                }
            },
            None => None,
        }
    } else {
        match v6_head_x(s, 0) {
            Some((h, None)) => {
                if h.len() == 8 {
                    Some(h)
                } else {
                    None
                }
            },
            Some((h, Some(tl))) => {
                if h.len() <= 7 && tl.len() <= 7 - h.len() {
                    Some(assemble_groups(&h, &tl))
                } else {
                    None
                }
            },
            None => None,
        }
    }
}

/// The address a byte string denotes: an IPv4 dotted-decimal text, or an
/// IPv6 text; `None` where it is neither.
pub open spec fn parse_ip_spec(s: Seq<u8>) -> Option<IpAddress> {
    if is_ipv4_text(s) {
        Some(
            IpAddress::V4(
                ipv4_octets(s).0,
                ipv4_octets(s).1,
                ipv4_octets(s).2,
                ipv4_octets(s).3,
            ),
        )
    } else {
        match parse_ipv6_groups(s) {
            Some(g) => Some(IpAddress::V6(g[0], g[1], g[2], g[3], g[4], g[5], g[6], g[7])),
            None => None,
        }
    }
}

/// Parses a byte string as an IP address, IPv4 or IPv6.
pub fn parse_ip(s: &[u8]) -> (r: Option<IpAddress>)
    ensures
        r == parse_ip_spec(s@),
{
    match parse_ipv4(s) {
        Some((a, b, c, d)) => Some(IpAddress::V4(a, b, c, d)),
        None => match parse_ipv6(s) {
            Some(v) => Some(IpAddress::V6(v[0], v[1], v[2], v[3], v[4], v[5], v[6], v[7])),
            None => None,
        },
    }
}

/// Addresses that the gateway's optional policy treats as reserved and
/// refuses to forward: for IPv4 the loopback (127/8), private (10/8,
/// 172.16/12, 192.168/16), link-local (169.254/16) ranges and the
/// unspecified address; for IPv6 the loopback and unspecified addresses,
/// unique-local (fc00::/7) and link-local (fe80::/10) ranges.
pub open spec fn spec_is_reserved(ip: IpAddress) -> bool {
    match ip {
        IpAddress::V4(a, b, c, d) => a == 127 || a == 10 || (a == 172 && 16 <= b && b <= 31) || (
        a == 192 && b == 168) || (a == 169 && b == 254) || (a == 0 && b == 0 && c == 0 && d == 0),
        IpAddress::V6(g0, g1, g2, g3, g4, g5, g6, g7) => (g0 == 0 && g1 == 0 && g2 == 0 && g3 == 0
            && g4 == 0 && g5 == 0 && g6 == 0 && (g7 == 0 || g7 == 1)) || (0xfc00 <= g0 && g0
            <= 0xfdff) || (0xfe80 <= g0 && g0 <= 0xfebf),
    }
}

/// Decides the reserved-range policy for an address.
pub fn is_reserved(ip: IpAddress) -> (r: bool)
    ensures
        r == spec_is_reserved(ip),
{
    match ip {
        IpAddress::V4(a, b, c, d) => a == 127 || a == 10 || (a == 172 && 16 <= b && b <= 31) || (
        a == 192 && b == 168) || (a == 169 && b == 254) || (a == 0 && b == 0 && c == 0 && d == 0),
        IpAddress::V6(g0, g1, g2, g3, g4, g5, g6, g7) => (g0 == 0 && g1 == 0 && g2 == 0 && g3 == 0
            && g4 == 0 && g5 == 0 && g6 == 0 && (g7 == 0 || g7 == 1)) || (0xfc00 <= g0 && g0
            <= 0xfdff) || (0xfe80 <= g0 && g0 <= 0xfebf),
    }
}

/// Decimal text of a non-negative number, most significant digit first.
pub open spec fn dec_text(n: int) -> Seq<u8>
    decreases n,
{
    if n < 10 {
        seq![(48 + n) as u8]
    } else {
        dec_text(n / 10).push((48 + n % 10) as u8)
    }
}

/// Lowercase hexadecimal digit for a value below 16.
pub open spec fn hex_digit(d: int) -> u8 {
    if d < 10 {
        (48 + d) as u8
    } else {
        (87 + d) as u8
    }
}

/// Lowercase hexadecimal text of a non-negative number, no leading zeros.
pub open spec fn hex_text(n: int) -> Seq<u8>
    decreases n,
{
    if n < 16 {
        seq![hex_digit(n)]
    } else {
        hex_text(n / 16).push(hex_digit(n % 16))
    }
}

fn push_dec(out: &mut Vec<u8>, n: u8)
    ensures
        final(out)@ == old(out)@ + dec_text(n as int),
    decreases n,
{
    if n < 10 {
        out.push(48 + n);
        proof {
            assert(out@ =~= old(out)@ + dec_text(n as int));
        }
    } else {
        push_dec(out, n / 10);
        out.push(48 + n % 10);
        proof {
            assert(out@ =~= old(out)@ + dec_text(n as int));
        }
    }
}

fn push_hex(out: &mut Vec<u8>, n: u16)
    ensures
        final(out)@ == old(out)@ + hex_text(n as int),
    decreases n,
{
    if n < 16 {
        let d = n as u8;
        out.push(if d < 10 {
            48 + d
        } else {
            87 + d
        });
        proof {
            assert(out@ =~= old(out)@ + hex_text(n as int));
        }
    } else {
        push_hex(out, n / 16);
        let d = (n % 16) as u8;
        out.push(if d < 10 {
            48 + d
        } else {
            87 + d
        });
        proof {
            assert(out@ =~= old(out)@ + hex_text(n as int));
        }
    }
}

/// The canonical text this gateway writes for an address: dotted decimal
/// for IPv4; for IPv6 all eight groups in lowercase hexadecimal without
/// zero compression.
pub open spec fn ip_text(ip: IpAddress) -> Seq<u8> {
    match ip {
        IpAddress::V4(a, b, c, d) => dec_text(a as int) + seq![46u8] + dec_text(b as int)
            + seq![46u8] + dec_text(c as int) + seq![46u8] + dec_text(d as int),
        IpAddress::V6(g0, g1, g2, g3, g4, g5, g6, g7) => hex_text(g0 as int) + seq![58u8]
            + hex_text(g1 as int) + seq![58u8] + hex_text(g2 as int) + seq![58u8] + hex_text(
            g3 as int,
        ) + seq![58u8] + hex_text(g4 as int) + seq![58u8] + hex_text(g5 as int) + seq![58u8]
            + hex_text(g6 as int) + seq![58u8] + hex_text(g7 as int),
    }
}

/// Appends the canonical text of an address.
pub fn push_ip_text(out: &mut Vec<u8>, ip: IpAddress)
    ensures
        final(out)@ == old(out)@ + ip_text(ip),
{
    match ip {
        IpAddress::V4(a, b, c, d) => {
            push_dec(out, a);
            out.push(46);
            push_dec(out, b);
            out.push(46);
            push_dec(out, c);
            out.push(46);
            push_dec(out, d);
            proof {
                assert(out@ =~= old(out)@ + ip_text(ip));
            }
        },
        IpAddress::V6(g0, g1, g2, g3, g4, g5, g6, g7) => {
            push_hex(out, g0);
            out.push(58);
            push_hex(out, g1);
            out.push(58);
            push_hex(out, g2);
            out.push(58);
            push_hex(out, g3);
            out.push(58);
            push_hex(out, g4);
            out.push(58);
            push_hex(out, g5);
            out.push(58);
            push_hex(out, g6);
            out.push(58);
            push_hex(out, g7);
            proof {
                assert(out@ =~= old(out)@ + ip_text(ip));
            }
        },
    }
}

proof fn lemma_dec_text_props(n: int)
    requires
        0 <= n,
    ensures
        all_digits(dec_text(n)),
        dec_val(dec_text(n)) == n,
        dec_text(n).len() >= 1,
        n < 10 ==> dec_text(n).len() == 1,
        n < 100 ==> dec_text(n).len() <= 2,
        n < 1000 ==> dec_text(n).len() <= 3,
        dec_text(n).len() > 1 ==> dec_text(n)[0] != 48,
    decreases n,
{
    if n < 10 {
        let t = dec_text(n);
        assert(t == seq![(48 + n) as u8]);
        assert(t.len() == 1);
        assert(t.last() == (48 + n) as u8);
        assert(t.drop_last() =~= Seq::<u8>::empty());
        assert(dec_val(Seq::<u8>::empty()) == 0);
        assert(dec_val(t) == t.last() - 48);
        assert(is_digit(t[0]));
    } else {
        lemma_dec_text_props(n / 10);
        let h = dec_text(n / 10);
        let t = dec_text(n);
        assert(t == h.push((48 + n % 10) as u8));
        assert(t.drop_last() =~= h);
        assert(t.last() == (48 + n % 10) as u8);
        assert(dec_val(t) == dec_val(h) * 10 + n % 10);
        assert forall|q: int| 0 <= q < t.len() implies is_digit(#[trigger] t[q]) by {
            if q < h.len() {
                assert(is_digit(h[q]));
            }
        }
        assert(t[0] == h[0]);
        if n / 10 < 10 {
            assert(h == seq![(48 + n / 10) as u8]);
            assert(n / 10 >= 1);
            assert(h[0] == (48 + n / 10) as u8);
            assert(h[0] != 48);
        } else {
            assert(h == dec_text(n / 10 / 10).push((48 + (n / 10) % 10) as u8));
            assert(dec_text(n / 10 / 10).len() >= 1);
            assert(h.len() > 1);
        }
    }
}

/// The canonical IPv4 text of an address parses back to that very
/// address: the formatter writes nothing the validator would refuse or
/// read otherwise.
pub proof fn lemma_ipv4_round_trip(a: u8, b: u8, c: u8, d: u8)
    ensures
        parse_ip_spec(ip_text(IpAddress::V4(a, b, c, d))) == Some(IpAddress::V4(a, b, c, d)),
{
    let ta = dec_text(a as int);
    let tb = dec_text(b as int);
    let tc = dec_text(c as int);
    let td = dec_text(d as int);
    lemma_dec_text_props(a as int);
    lemma_dec_text_props(b as int);
    lemma_dec_text_props(c as int);
    lemma_dec_text_props(d as int);
    let t = ip_text(IpAddress::V4(a, b, c, d));
    let i = ta.len() as int;
    let j = i + 1 + tb.len();
    let k = j + 1 + tc.len();
    assert(t.len() == ta.len() + 1 + tb.len() + 1 + tc.len() + 1 + td.len());
    assert(t[i] == 46);
    assert(t[j] == 46);
    assert(t[k] == 46);
    assert(t.subrange(0, i) =~= ta);
    assert(t.subrange(i + 1, j) =~= tb);
    assert(t.subrange(j + 1, k) =~= tc);
    assert(t.subrange(k + 1, t.len() as int) =~= td);
    assert(is_octet_text(ta));
    assert(is_octet_text(tb));
    assert(is_octet_text(tc));
    assert(is_octet_text(td));
    assert(ipv4_split_at(t, i, j, k));
    assert(is_ipv4_text(t));
    let (i2, j2, k2) = choose|i2: int, j2: int, k2: int| ipv4_split_at(t, i2, j2, k2);
    lemma_ipv4_split_unique(t, i2, j2, k2, i, j, k);
    assert(ipv4_octets(t) == (a, b, c, d));
}

proof fn lemma_hex_text_props(n: int)
    requires
        0 <= n,
    ensures
        forall|q: int| 0 <= q < hex_text(n).len() ==> is_hex(#[trigger] hex_text(n)[q]),
        hexgroup_val(hex_text(n)) == n,
        hex_text(n).len() >= 1,
        n < 16 ==> hex_text(n).len() == 1,
        n < 0x100 ==> hex_text(n).len() <= 2,
        n < 0x1000 ==> hex_text(n).len() <= 3,
        n < 0x10000 ==> hex_text(n).len() <= 4,
    decreases n,
{
    if n < 16 {
        let t = hex_text(n);
        assert(t == seq![hex_digit(n)]);
        assert(t.len() == 1);
        assert(t.drop_last() =~= Seq::<u8>::empty());
        assert(hexgroup_val(Seq::<u8>::empty()) == 0);
        assert(hex_val(hex_digit(n)) == n);
        assert(is_hex(t[0]));
    } else {
        lemma_hex_text_props(n / 16);
        let h = hex_text(n / 16);
        let t = hex_text(n);
        assert(t == h.push(hex_digit(n % 16)));
        assert(t.drop_last() =~= h);
        assert(t.last() == hex_digit(n % 16));
        assert(hex_val(hex_digit(n % 16)) == n % 16);
        assert(hexgroup_val(t) == hexgroup_val(h) * 16 + n % 16);
        assert forall|q: int| 0 <= q < t.len() implies is_hex(#[trigger] t[q]) by {
            if q < h.len() {
                assert(is_hex(h[q]));
            }
        }
    }
}

/// Where the bytes from `i` up to `j` are hex digits and `j` stands at the
/// end or at a byte that is none, the hex run from `i` ends exactly at `j`.
proof fn lemma_hex_run_end_concat(s: Seq<u8>, i: int, j: int)
    requires
        0 <= i <= j <= s.len(),
        forall|p: int| i <= p < j ==> is_hex(#[trigger] s[p]),
        j == s.len() || !is_hex(s[j]),
    ensures
        hex_run_end(s, i) == j,
    decreases j - i,
{
    if i < j {
        assert(is_hex(s[i]));
        lemma_hex_run_end_concat(s, i + 1, j);
    }
}

/// The text of a non-empty group list joined by single colons.
spec fn groups_text(gs: Seq<u16>) -> Seq<u8>
    decreases gs.len(),
{
    if gs.len() <= 1 {
        hex_text(gs[0] as int)
    } else {
        hex_text(gs[0] as int) + seq![58u8] + groups_text(gs.skip(1))
    }
}

/// A colon-joined group list standing at the end of `s` reads back as
/// exactly those groups, with no "::" seen.
proof fn lemma_v6_head_of_groups(s: Seq<u8>, i: int, gs: Seq<u16>)
    requires
        0 <= i <= s.len(),
        gs.len() >= 1,
        s.subrange(i, s.len() as int) == groups_text(gs),
    ensures
        spec_v6_head(s, i) == Some((gs, Option::<Seq<u16>>::None)),
    decreases gs.len(),
{
    let rest = s.subrange(i, s.len() as int);
    let x = hex_text(gs[0] as int);
    lemma_hex_text_props(gs[0] as int);
    let j = i + x.len();
    assert forall|p: int| i <= p < j implies is_hex(#[trigger] s[p]) by {
        assert(s[p] == rest[p - i]);
        assert(rest[p - i] == x[p - i]);
    }
    if gs.len() == 1 {
        assert(rest == x);
        assert(j == s.len());
        lemma_hex_run_end_concat(s, i, j);
        assert(s.subrange(i, j) =~= x);
        assert(hexgroup_val(s.subrange(i, j)) as u16 == gs[0]);
        assert(seq![gs[0]] =~= gs);
    } else {
        assert(rest[x.len() as int] == 58);
        assert(s[j] == 58);
        assert(!is_hex(s[j]));
        assert(j < s.len());
        lemma_hex_run_end_concat(s, i, j);
        assert(s.subrange(i, j) =~= x);
        assert(hexgroup_val(s.subrange(i, j)) as u16 == gs[0]);
        let tail_gs = gs.skip(1);
        assert(tail_gs.len() >= 1);
        let gt = groups_text(tail_gs);
        assert(rest == x + seq![58u8] + gt);
        assert(s.len() - (j + 1) == gt.len());
        assert forall|q: int| 0 <= q < gt.len() implies s.subrange(j + 1, s.len() as int)[q] == gt[q] by {
            assert(s.subrange(j + 1, s.len() as int)[q] == s[j + 1 + q]);
            assert(s[j + 1 + q] == rest[x.len() + 1 + q]);
            assert(rest[x.len() + 1 + q] == gt[q]);
        }
        assert(s.subrange(j + 1, s.len() as int) =~= groups_text(tail_gs));
        assert(groups_text(tail_gs).len() >= 1) by {
            lemma_hex_text_props(tail_gs[0] as int);
        }
        assert(j + 1 < s.len());
        assert(s[j + 1] == groups_text(tail_gs)[0]);
        assert(is_hex(s[j + 1])) by {
            lemma_hex_text_props(tail_gs[0] as int);
            if tail_gs.len() > 1 {
                assert(groups_text(tail_gs)[0] == hex_text(tail_gs[0] as int)[0]);
            }
        }
        assert(s[j + 1] != 58);
        lemma_v6_head_of_groups(s, j + 1, tail_gs);
        assert(seq![gs[0]] + tail_gs =~= gs);
    }
}

/// The flat concatenation `ip_text` writes for an IPv6 address is the
/// colon-joined text of its eight groups.
#[verifier::rlimit(100)]
proof fn lemma_v6_text_as_groups(
    g0: u16,
    g1: u16,
    g2: u16,
    g3: u16,
    g4: u16,
    g5: u16,
    g6: u16,
    g7: u16,
)
    ensures
        ip_text(IpAddress::V6(g0, g1, g2, g3, g4, g5, g6, g7)) == groups_text(
            seq![g0, g1, g2, g3, g4, g5, g6, g7],
        ),
{
    let t = ip_text(IpAddress::V6(g0, g1, g2, g3, g4, g5, g6, g7));
    let gs = seq![g0, g1, g2, g3, g4, g5, g6, g7];
    assert(seq![g7].skip(1) =~= Seq::<u16>::empty());
    let t7 = groups_text(seq![g7]);
    assert(t7 == hex_text(g7 as int));
    assert(seq![g6, g7].skip(1) =~= seq![g7]);
    let t6 = groups_text(seq![g6, g7]);
    assert(t6 == hex_text(g6 as int) + seq![58u8] + t7);
    assert(seq![g5, g6, g7].skip(1) =~= seq![g6, g7]);
    let t5 = groups_text(seq![g5, g6, g7]);
    assert(t5 == hex_text(g5 as int) + seq![58u8] + t6);
    assert(seq![g4, g5, g6, g7].skip(1) =~= seq![g5, g6, g7]);
    let t4 = groups_text(seq![g4, g5, g6, g7]);
    assert(t4 == hex_text(g4 as int) + seq![58u8] + t5);
    assert(seq![g3, g4, g5, g6, g7].skip(1) =~= seq![g4, g5, g6, g7]);
    let t3 = groups_text(seq![g3, g4, g5, g6, g7]);
    assert(t3 == hex_text(g3 as int) + seq![58u8] + t4);
    assert(seq![g2, g3, g4, g5, g6, g7].skip(1) =~= seq![g3, g4, g5, g6, g7]);
    let t2 = groups_text(seq![g2, g3, g4, g5, g6, g7]);
    assert(t2 == hex_text(g2 as int) + seq![58u8] + t3);
    assert(seq![g1, g2, g3, g4, g5, g6, g7].skip(1) =~= seq![g2, g3, g4, g5, g6, g7]);
    let t1 = groups_text(seq![g1, g2, g3, g4, g5, g6, g7]);
    assert(t1 == hex_text(g1 as int) + seq![58u8] + t2);
    assert(gs.skip(1) =~= seq![g1, g2, g3, g4, g5, g6, g7]);
    assert(groups_text(gs) == hex_text(g0 as int) + seq![58u8] + t1);
    let c = seq![58u8];
    let h0 = hex_text(g0 as int);
    let h1 = hex_text(g1 as int);
    let h2 = hex_text(g2 as int);
    let h3 = hex_text(g3 as int);
    let h4 = hex_text(g4 as int);
    let h5 = hex_text(g5 as int);
    let h6 = hex_text(g6 as int);
    let h7 = hex_text(g7 as int);
    let l1 = h0 + c + h1;
    let l2 = l1 + c + h2;
    let l3 = l2 + c + h3;
    let l4 = l3 + c + h4;
    let l5 = l4 + c + h5;
    let l6 = l5 + c + h6;
    assert(t == l6 + c + h7);
    assert(l6 + c + t7 =~= l5 + c + t6);
    assert(l5 + c + t6 =~= l4 + c + t5);
    assert(l4 + c + t5 =~= l3 + c + t4);
    assert(l3 + c + t4 =~= l2 + c + t3);
    assert(l2 + c + t3 =~= l1 + c + t2);
    assert(l1 + c + t2 =~= h0 + c + t1);
    assert(t == groups_text(gs));
}

/// The canonical IPv6 text of an address parses back to that very
/// address, just as the IPv4 text does.
pub proof fn lemma_ipv6_round_trip(
    g0: u16,
    g1: u16,
    g2: u16,
    g3: u16,
    g4: u16,
    g5: u16,
    g6: u16,
    g7: u16,
)
    ensures
        parse_ip_spec(ip_text(IpAddress::V6(g0, g1, g2, g3, g4, g5, g6, g7))) == Some(
            IpAddress::V6(g0, g1, g2, g3, g4, g5, g6, g7),
        ),
{
    let t = ip_text(IpAddress::V6(g0, g1, g2, g3, g4, g5, g6, g7));
    let gs = seq![g0, g1, g2, g3, g4, g5, g6, g7];
    lemma_v6_text_as_groups(g0, g1, g2, g3, g4, g5, g6, g7);
    lemma_hex_text_props(g0 as int);
    assert(t[0] == hex_text(g0 as int)[0]);
    assert(is_hex(t[0]));
    assert(t[0] != 58);
    assert(t.subrange(0, t.len() as int) =~= t);
    lemma_v6_head_of_groups(t, 0, gs);
    assert(!is_ipv4_text(t)) by {
        if exists|i: int, j: int, k: int| ipv4_split_at(t, i, j, k) {
            let (i, j, k) = choose|i: int, j: int, k: int| ipv4_split_at(t, i, j, k);
            let p = hex_text(g0 as int).len() as int;
            assert(t[p] == 58);
            assert(!is_digit(t[p]));
            lemma_dot_position(t, i, j, k, p);
            assert(false);
        }
    }
    assert(parse_ipv6_groups(t) == Some(gs));
    assert(gs[0] == g0 && gs[1] == g1 && gs[2] == g2 && gs[3] == g3 && gs[4] == g4 && gs[5] == g5
        && gs[6] == g6 && gs[7] == g7);
}

/// The canonical text of an address, as fresh bytes.
pub fn format_ip(ip: IpAddress) -> (r: Vec<u8>)
    ensures
        r@ == ip_text(ip),
{
    let mut out: Vec<u8> = Vec::new();
    push_ip_text(&mut out, ip);
    proof {
        assert(Seq::<u8>::empty() + ip_text(ip) =~= ip_text(ip));
    }
    out
}

} // verus!
