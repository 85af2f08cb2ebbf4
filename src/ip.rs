//! IP addresses and the textual forms accepted in descriptors.
use vstd::prelude::*;
use crate::text::{split, split_chars, pieces_view};

verus! {

/// An IPv4 address as its 32-bit big-endian value, or an IPv6 address as its
/// 128-bit big-endian value.
#[derive(Clone, Copy, Debug, PartialEq, Eq, Structural, Hash)]
pub enum IpAddress {
    V4(u32),
    V6(u128),
}

impl IpAddress {
    pub open spec fn is_v4(self) -> bool {
        self is V4
    }

    pub fn is_ipv4(&self) -> (r: bool)
        ensures
            r == self.is_v4(),
    {
        match self {
            IpAddress::V4(_) => true,
            IpAddress::V6(_) => false,
        }
    }
}

pub open spec fn is_digit(c: char) -> bool {
    '0' <= c <= '9'
}

pub open spec fn is_hex_digit(c: char) -> bool {
    ('0' <= c <= '9') || ('a' <= c <= 'f') || ('A' <= c <= 'F')
}

pub open spec fn hex_digit_value(c: char) -> nat {
    if '0' <= c <= '9' {
        (c as nat - '0' as nat) as nat
    } else if 'a' <= c <= 'f' {
        (c as nat - 'a' as nat + 10) as nat
    } else {
        (c as nat - 'A' as nat + 10) as nat
    }
}

/// Value of a string of decimal digits.
pub open spec fn dec_value(s: Seq<char>) -> nat
    decreases s.len(),
{
    if s.len() == 0 {
        0
    } else {
        dec_value(s.drop_last()) * 10 + (s.last() as nat - '0' as nat) as nat
    }
}

/// Value of a string of hexadecimal digits.
pub open spec fn hex_value(s: Seq<char>) -> nat
    decreases s.len(),
{
    if s.len() == 0 {
        0
    } else {
        hex_value(s.drop_last()) * 16 + hex_digit_value(s.last())
    }
}

/// One dotted-quad component: one to three decimal digits, no leading zero, at most 255.
pub open spec fn octet_of(s: Seq<char>) -> Option<u8> {
    if 1 <= s.len() <= 3 && (forall|i: int| 0 <= i < s.len() ==> is_digit(#[trigger] s[i]))
        && (s.len() == 1 || s[0] != '0') && dec_value(s) <= 255 {
        Some(dec_value(s) as u8)
    } else {
        None
    }
}

/// One IPv6 group: one to four hexadecimal digits.
pub open spec fn group_of(s: Seq<char>) -> Option<u16> {
    if 1 <= s.len() <= 4 && (forall|i: int| 0 <= i < s.len() ==> is_hex_digit(#[trigger] s[i])) {
        Some(hex_value(s) as u16)
    } else {
        None
    }
}

/// An IPv4 address in dotted-quad form.
pub open spec fn ipv4_of(s: Seq<char>) -> Option<u32> {
    let p = split(s, '.');
    if p.len() == 4 && (forall|i: int| 0 <= i < 4 ==> (#[trigger] octet_of(p[i])) is Some) {
        Some(
            (octet_of(p[0])->0 as nat * 0x1000000 + octet_of(p[1])->0 as nat * 0x10000
                + octet_of(p[2])->0 as nat * 0x100 + octet_of(p[3])->0 as nat) as u32,
        )
    } else {
        None
    }
}

/// Groups in order as a big-endian number.
pub open spec fn groups_value(g: Seq<u16>) -> nat
    decreases g.len(),
{
    if g.len() == 0 {
        0
    } else {
        groups_value(g.drop_last()) * 0x10000 + g.last() as nat
    }
}

/// The groups of a colon-separated list, each of which must be a valid group;
/// an empty list stands for no groups.
pub open spec fn groups_of(s: Seq<char>) -> Option<Seq<u16>> {
    if s.len() == 0 {
        Some(Seq::<u16>::empty())
    } else {
        let p = split(s, ':');
        if forall|i: int| 0 <= i < p.len() ==> (#[trigger] group_of(p[i])) is Some {
            Some(p.map_values(|q: Seq<char>| group_of(q)->0))
        } else {
            None
        }
    }
}

/// Whether `s` holds `::` starting at `k`.
pub open spec fn double_colon_at(s: Seq<char>, k: int) -> bool {
    0 <= k && k + 1 < s.len() && s[k] == ':' && s[k + 1] == ':'
}

/// An IPv6 address: eight groups, or fewer around one `::` that stands for the
/// missing zero groups.
pub open spec fn ipv6_of(s: Seq<char>) -> Option<u128> {
    if exists|k: int| double_colon_at(s, k) {
        let k = choose|k: int| double_colon_at(s, k) && forall|j: int| 0 <= j < k ==> !double_colon_at(s, j);
        let head = groups_of(s.take(k));
        let tail = groups_of(s.skip(k + 2));
        if head is Some && tail is Some && head->0.len() + tail->0.len() <= 7 {
            let zeros = Seq::new((8 - head->0.len() - tail->0.len()) as nat, |i: int| 0u16);
            Some(groups_value(head->0 + zeros + tail->0) as u128)
        } else {
            None
        }
    } else {
        let g = groups_of(s);
        if g is Some && g->0.len() == 8 {
            Some(groups_value(g->0) as u128)
        } else {
            None
        }
    }
}

/// An address of either family, as written in a descriptor.
pub open spec fn ip_of(s: Seq<char>) -> Option<IpAddress> {
    if ipv4_of(s) is Some {
        Some(IpAddress::V4(ipv4_of(s)->0))
    } else if ipv6_of(s) is Some {
        Some(IpAddress::V6(ipv6_of(s)->0))
    } else {
        None
    }
}


/// Powers of 0x10000.
pub open spec fn pow_group(n: nat) -> nat
    decreases n,
{
    if n == 0 {
        1
    } else {
        pow_group((n - 1) as nat) * 0x10000
    }
}

proof fn lemma_pow_group_mono(a: nat, b: nat)
    requires
        a <= b,
    ensures
        pow_group(a) <= pow_group(b),
    decreases b,
{
    if a < b {
        lemma_pow_group_mono(a, (b - 1) as nat);
        assert(pow_group((b - 1) as nat) <= pow_group((b - 1) as nat) * 0x10000) by (nonlinear_arith);
    }
}

proof fn lemma_pow_group_8()
    ensures
        pow_group(8) == 0x1_0000_0000_0000_0000_0000_0000_0000_0000,
{
    reveal_with_fuel(pow_group, 9);
}

/// The characters of `s` from `lo` up to `hi`.
pub fn sub_chars(s: &Vec<char>, lo: usize, hi: usize) -> (r: Vec<char>)
    requires
        lo <= hi <= s.len(),
    ensures
        r@ == s@.subrange(lo as int, hi as int),
{
    let mut out: Vec<char> = Vec::new();
    let mut i: usize = lo;
    while i < hi
        invariant
            lo <= i <= hi <= s.len(),
            out@ == s@.subrange(lo as int, i as int),
        decreases hi - i,
    {
        out.push(s[i]);
        i += 1;
        assert(out@ =~= s@.subrange(lo as int, i as int));
    }
    out
}

/// Reads one dotted-quad component.
pub fn parse_octet(p: &Vec<char>) -> (r: Option<u8>)
    ensures
        r == octet_of(p@),
{
    if p.len() < 1 || p.len() > 3 {
        return None;
    }
    if p.len() > 1 && p[0] == '0' {
        return None;
    }
    let mut v: u32 = 0;
    let mut i: usize = 0;
    while i < p.len()
        invariant
            1 <= p.len() <= 3,
            i <= p.len(),
            v as nat == dec_value(p@.take(i as int)),
            v < (if i == 0 { 1int } else if i == 1 { 10int } else if i == 2 { 100int } else { 1000int }),
            forall|j: int| 0 <= j < i ==> is_digit(#[trigger] p@[j]),
        decreases p.len() - i,
    {
        let c = p[i];
        if !('0' <= c && c <= '9') {
            assert(!is_digit(p@[i as int]));
            return None;
        }
        assert(p@.take(i + 1).drop_last() =~= p@.take(i as int));
        v = v * 10 + (c as u32 - '0' as u32);
        i += 1;
    }
    assert(p@.take(p.len() as int) =~= p@);
    if v > 255 {
        None
    } else {
        Some(v as u8)
    }
}

/// Reads one IPv6 group.
pub fn parse_group(p: &Vec<char>) -> (r: Option<u16>)
    ensures
        r == group_of(p@),
{
    if p.len() < 1 || p.len() > 4 {
        return None;
    }
    let mut v: u32 = 0;
    let mut i: usize = 0;
    while i < p.len()
        invariant
            1 <= p.len() <= 4,
            i <= p.len(),
            v as nat == hex_value(p@.take(i as int)),
            v < (if i == 0 { 1int } else if i == 1 { 16int } else if i == 2 { 256int } else if i
                == 3 { 4096int } else { 65536int }),
            forall|j: int| 0 <= j < i ==> is_hex_digit(#[trigger] p@[j]),
        decreases p.len() - i,
    {
        let c = p[i];
        let d: u32;
        if '0' <= c && c <= '9' {
            d = c as u32 - '0' as u32;
        } else if 'a' <= c && c <= 'f' {
            d = c as u32 - 'a' as u32 + 10;
        } else if 'A' <= c && c <= 'F' {
            d = c as u32 - 'A' as u32 + 10;
        } else {
            assert(!is_hex_digit(p@[i as int]));
            return None;
        }
        assert(p@.take(i + 1).drop_last() =~= p@.take(i as int));
        v = v * 16 + d;
        i += 1;
    }
    assert(p@.take(p.len() as int) =~= p@);
    Some(v as u16)
}

/// Reads an IPv4 address in dotted-quad form.
pub fn parse_ipv4(s: &Vec<char>) -> (r: Option<u32>)
    ensures
        r == ipv4_of(s@),
{
    let parts = split_chars(s, '.');
    let ghost p = split(s@, '.');
    if parts.len() != 4 {
        return None;
    }
    assert(parts@[0]@ == p[0] && parts@[1]@ == p[1] && parts@[2]@ == p[2] && parts@[3]@ == p[3]);
    let a = match parse_octet(&parts[0]) {
        Some(x) => x,
        None => return None,
    };
    let b = match parse_octet(&parts[1]) {
        Some(x) => x,
        None => return None,
    };
    let c = match parse_octet(&parts[2]) {
        Some(x) => x,
        None => return None,
    };
    let d = match parse_octet(&parts[3]) {
        Some(x) => x,
        None => return None,
    };
    assert(forall|i: int| 0 <= i < 4 ==> (#[trigger] octet_of(p[i])) is Some) by {
        assert(octet_of(p[0]) is Some && octet_of(p[1]) is Some && octet_of(p[2]) is Some);
    }
    Some(a as u32 * 0x1000000 + b as u32 * 0x10000 + c as u32 * 0x100 + d as u32)
}

/// Reads a colon-separated list of groups; the empty list reads as no groups.
pub fn parse_groups(s: &Vec<char>) -> (r: Option<Vec<u16>>)
    ensures
        match r {
            Some(g) => groups_of(s@) == Some(g@),
            None => groups_of(s@) is None,
        },
{
    if s.len() == 0 {
        let out: Vec<u16> = Vec::new();
        assert(out@ =~= Seq::<u16>::empty());
        return Some(out);
    }
    let parts = split_chars(s, ':');
    let ghost p = split(s@, ':');
    let mut out: Vec<u16> = Vec::new();
    let mut i: usize = 0;
    while i < parts.len()
        invariant
            s.len() > 0,
            pieces_view(parts@) == p,
            p == split(s@, ':'),
            i <= parts.len(),
            out@ == p.take(i as int).map_values(|q: Seq<char>| group_of(q)->0),
            forall|j: int| 0 <= j < i ==> (#[trigger] group_of(p[j])) is Some,
        decreases parts.len() - i,
    {
        assert(parts@[i as int]@ == p[i as int]);
        match parse_group(&parts[i]) {
            Some(g) => {
                out.push(g);
            },
            None => {
                assert(!(group_of(p[i as int]) is Some));
                return None;
            },
        }
        i += 1;
        assert(out@ =~= p.take(i as int).map_values(|q: Seq<char>| group_of(q)->0));
    }
    assert(p.take(p.len() as int) =~= p);
    Some(out)
}

/// The big-endian number made of the given groups.
pub fn groups_to_u128(g: &Vec<u16>) -> (r: u128)
    requires
        g.len() <= 8,
    ensures
        r as nat == groups_value(g@),
{
    let mut v: u128 = 0;
    let mut i: usize = 0;
    while i < g.len()
        invariant
            g.len() <= 8,
            i <= g.len(),
            v as nat == groups_value(g@.take(i as int)),
            (v as nat) < pow_group(i as nat),
        decreases g.len() - i,
    {
        proof {
            lemma_pow_group_mono((i + 1) as nat, 8);
            lemma_pow_group_8();
            let p = pow_group(i as nat);
            assert(pow_group((i + 1) as nat) == p * 0x10000);
            let x = g@[i as int] as nat;
            assert((v as nat) * 0x10000 + x < p * 0x10000) by (nonlinear_arith)
                requires
                    (v as nat) < p,
                    x < 0x10000,
            ;
        }
        assert(g@.take(i + 1).drop_last() =~= g@.take(i as int));
        v = v * 0x10000 + g[i] as u128;
        i += 1;
    }
    assert(g@.take(g.len() as int) =~= g@);
    v
}

/// The full eight groups: `hg`, then zero groups, then `tg`.
fn fill_groups(hg: &Vec<u16>, tg: &Vec<u16>) -> (r: Vec<u16>)
    requires
        hg.len() + tg.len() <= 7,
    ensures
        r@ == hg@ + Seq::new((8 - hg.len() - tg.len()) as nat, |i: int| 0u16) + tg@,
        r.len() == 8,
{
    let mut all: Vec<u16> = Vec::new();
    let mut i: usize = 0;
    while i < hg.len()
        invariant
            i <= hg.len(),
            all@ == hg@.take(i as int),
        decreases hg.len() - i,
    {
        all.push(hg[i]);
        i += 1;
        assert(all@ =~= hg@.take(i as int));
    }
    assert(hg@.take(hg.len() as int) =~= hg@);
    let nz: usize = 8 - hg.len() - tg.len();
    let mut z: usize = 0;
    assert(all@ =~= hg@ + Seq::new(0 as nat, |i: int| 0u16));
    while z < nz
        invariant
            z <= nz,
            all@ == hg@ + Seq::new(z as nat, |i: int| 0u16),
        decreases nz - z,
    {
        all.push(0);
        z += 1;
        assert(all@ =~= hg@ + Seq::new(z as nat, |i: int| 0u16));
    }
    let ghost mid = all@;
    let mut j: usize = 0;
    assert(all@ =~= mid + tg@.take(0));
    while j < tg.len()
        invariant
            j <= tg.len(),
            all@ == mid + tg@.take(j as int),
        decreases tg.len() - j,
    {
        all.push(tg[j]);
        j += 1;
        assert(all@ =~= mid + tg@.take(j as int));
    }
    assert(tg@.take(tg.len() as int) =~= tg@);
    all
}

/// Index of the first `::` in `s`, if any.
fn find_double_colon(s: &Vec<char>) -> (r: Option<usize>)
    ensures
        match r {
            Some(k) => double_colon_at(s@, k as int) && forall|j: int|
                0 <= j < k ==> !double_colon_at(s@, j),
            None => !exists|k: int| double_colon_at(s@, k),
        },
{
    let mut k: usize = 0;
    while s.len() > 1 && k < s.len() - 1
        invariant
            forall|j: int| 0 <= j < k ==> !double_colon_at(s@, j),
        decreases s.len() - k,
    {
        if s[k] == ':' && s[k + 1] == ':' {
            return Some(k);
        }
        k += 1;
    }
    None
}

proof fn lemma_first_double_colon(s: Seq<char>, k: int)
    requires
        double_colon_at(s, k),
        forall|j: int| 0 <= j < k ==> !double_colon_at(s, j),
    ensures
        (choose|k: int| double_colon_at(s, k) && forall|j: int| 0 <= j < k ==> !double_colon_at(s, j)) == k,
{
    let kk = choose|k: int| double_colon_at(s, k) && forall|j: int| 0 <= j < k ==> !double_colon_at(s, j);
    assert(double_colon_at(s, kk) && forall|j: int| 0 <= j < kk ==> !double_colon_at(s, j));
    if kk < k {
        assert(!double_colon_at(s, kk));
    } else if kk > k {
        assert(!double_colon_at(s, k));
    }
}

/// Reads an IPv6 address.
pub fn parse_ipv6(s: &Vec<char>) -> (r: Option<u128>)
    ensures
        r == ipv6_of(s@),
{
    match find_double_colon(s) {
        Some(k) => {
            proof {
                lemma_first_double_colon(s@, k as int);
            }
            assert(k + 1 < s@.len());
            let head = sub_chars(s, 0, k);
            let tail = sub_chars(s, k + 2, s.len());
            assert(head@ =~= s@.take(k as int));
            assert(tail@ =~= s@.skip(k + 2));
            let hg = match parse_groups(&head) {
                Some(g) => g,
                None => return None,
            };
            let tg = match parse_groups(&tail) {
                Some(g) => g,
                None => return None,
            };
            if hg.len() > 7 || tg.len() > 7 - hg.len() {
                return None;
            }
            let all = fill_groups(&hg, &tg);
            Some(groups_to_u128(&all))
        },
        None => {
            let g = match parse_groups(s) {
                Some(g) => g,
                None => return None,
            };
            if g.len() != 8 {
                return None;
            }
            Some(groups_to_u128(&g))
        },
    }
}

/// Reads an address of either family.
pub fn parse_ip(s: &Vec<char>) -> (r: Option<IpAddress>)
    ensures
        r == ip_of(s@),
{
    match parse_ipv4(s) {
        Some(a) => Some(IpAddress::V4(a)),
        None => match parse_ipv6(s) {
            Some(a) => Some(IpAddress::V6(a)),
            None => None,
        },
    }
}

/// Reads an address from a string slice.
pub fn parse_ip_str(s: &str) -> (r: Option<IpAddress>)
    ensures
        r == ip_of(s@),
{
    let cs = crate::text::chars_of(s);
    parse_ip(&cs)
}

} // verus!
