//! IPv4 addresses and subnets as plain machine integers: dotted-quad
//! and CIDR text, the network base, and the capacity a prefix leaves
//! for clients.

use vstd::prelude::*;
use vstd::arithmetic::div_mod::{lemma_fundamental_div_mod, lemma_mod_breakdown};
use vstd::arithmetic::power2::{lemma2_to64, lemma_pow2_adds, pow2};
use vstd::bits::lemma_u64_shl_is_mul;
use crate::num::{
    dec, is_digit, lemma_parse_dec_of_dec, parse_dec_at, scan_dec, u64_to_dec,
};
use crate::Error;

verus! {

/// An IPv4 address, most significant octet first.
#[derive(Clone, Copy, PartialEq, Eq, Structural, Debug)]
pub struct Ipv4Address {
    pub bits: u32,
}

pub open spec fn octet0(bits: u32) -> int {
    bits as int / 0x1000000
}

pub open spec fn octet1(bits: u32) -> int {
    (bits as int / 0x10000) % 256
}

pub open spec fn octet2(bits: u32) -> int {
    (bits as int / 256) % 256
}

pub open spec fn octet3(bits: u32) -> int {
    bits as int % 256
}

/// Dotted-quad text of an address.
pub open spec fn ip_chars(bits: u32) -> Seq<char> {
    dec(octet0(bits) as nat) + seq!['.'] + dec(octet1(bits) as nat) + seq!['.'] + dec(
        octet2(bits) as nat,
    ) + seq!['.'] + dec(octet3(bits) as nat)
}

impl Ipv4Address {
    pub fn from_octets(a: u8, b: u8, c: u8, d: u8) -> (r: Self)
        ensures
            r.bits == a as int * 0x1000000 + b as int * 0x10000 + c as int * 256 + d as int,
    {
        Ipv4Address {
            bits: (a as u32) * 0x1000000 + (b as u32) * 0x10000 + (c as u32) * 256 + (d as u32),
        }
    }

    /// Dotted-quad text, e.g. `10.0.0.2`.
    pub fn render(&self) -> (r: String)
        ensures
            r@ == ip_chars(self.bits),
    {
        let o0 = self.bits / 0x1000000;
        let o1 = (self.bits / 0x10000) % 256;
        let o2 = (self.bits / 256) % 256;
        let o3 = self.bits % 256;
        let mut out = u64_to_dec(o0 as u64);
        out.append(".");
        out.append(u64_to_dec(o1 as u64).as_str());
        out.append(".");
        out.append(u64_to_dec(o2 as u64).as_str());
        out.append(".");
        out.append(u64_to_dec(o3 as u64).as_str());
        proof {
            reveal_strlit(".");
            assert("."@ =~= seq!['.']);
            assert(out@ =~= ip_chars(self.bits));
        }
        out
    }
}

/// An IPv4 network: a base address and a prefix length.
#[derive(Clone, Copy, PartialEq, Eq, Structural, Debug)]
pub struct Subnet {
    pub addr: u32,
    pub prefix: u8,
}

/// How many addresses the prefix spans.
pub open spec fn host_span(prefix: u8) -> int
    recommends
        prefix <= 32,
{
    pow2((32 - prefix) as nat) as int
}

/// The network base address: `addr` with its host bits cleared.
pub open spec fn spec_network(sn: Subnet) -> int {
    (sn.addr as int / host_span(sn.prefix)) * host_span(sn.prefix)
}

/// The `k`-th address of the subnet, counted from the network base.
pub open spec fn spec_nth(sn: Subnet, k: int) -> int {
    spec_network(sn) + k
}

/// How many clients the subnet can hold: the span minus the network
/// address, the server's own address, and one reserved slot.
pub open spec fn spec_max_clients(sn: Subnet) -> int {
    if host_span(sn.prefix) >= 3 {
        host_span(sn.prefix) - 3
    } else {
        0
    }
}

/// CIDR text of a subnet, e.g. `10.0.0.0/24`.
pub open spec fn subnet_chars(sn: Subnet) -> Seq<char> {
    ip_chars(sn.addr) + seq!['/'] + dec(sn.prefix as nat)
}

/// A CIDR expression at position `i`: four octets up to 255 separated
/// by dots, a slash, and a prefix length up to 32.
pub open spec fn parse_subnet_at(s: Seq<char>, i: int) -> Option<(Subnet, int)> {
    match parse_dec_at(s, i, 255) {
        None => None,
        Some((a, i1)) => if i1 < s.len() && s[i1] == '.' {
            match parse_dec_at(s, i1 + 1, 255) {
                None => None,
                Some((b, i2)) => if i2 < s.len() && s[i2] == '.' {
                    match parse_dec_at(s, i2 + 1, 255) {
                        None => None,
                        Some((c, i3)) => if i3 < s.len() && s[i3] == '.' {
                            match parse_dec_at(s, i3 + 1, 255) {
                                None => None,
                                Some((d, i4)) => if i4 < s.len() && s[i4] == '/' {
                                    match parse_dec_at(s, i4 + 1, 32) {
                                        None => None,
                                        Some((p, i5)) => Some(
                                            (
                                                Subnet {
                                                    addr: (a * 0x1000000 + b * 0x10000 + c * 256
                                                        + d) as u32,
                                                    prefix: p as u8,
                                                },
                                                i5,
                                            ),
                                        ),
                                    }
                                } else {
                                    None
                                },
                            }
                        } else {
                            None
                        },
                    }
                } else {
                    None
                },
            }
        } else {
            None
        },
    }
}

impl Subnet {
    /// The number of addresses the prefix spans, as a machine integer.
    fn span(&self) -> (r: u64)
        requires
            self.prefix <= 32,
        ensures
            r == host_span(self.prefix),
            r >= 1,
    {
        let sh: u64 = (32 - self.prefix) as u64;
        proof {
            lemma2_to64();
            lemma_u64_shl_is_mul(1, sh);
        }
        1u64 << sh
    }

    /// How many clients fit in this subnet.
    pub fn max_clients(&self) -> (r: usize)
        requires
            self.prefix <= 32,
        ensures
            r == spec_max_clients(*self),
    {
        let size = self.span();
        proof {
            lemma2_to64();
            assert(size <= 0x100000000);
            assert(usize::BITS == 32 || usize::BITS == 64);
            assert(size >= 3 ==> size - 3 <= usize::MAX);
        }
        if size >= 3 {
            (size - 3) as usize
        } else {
            0
        }
    }

    /// The `k`-th address counted from the network base.
    pub fn nth(&self, k: u64) -> (r: Ipv4Address)
        requires
            self.prefix <= 32,
            k < host_span(self.prefix),
        ensures
            r.bits == spec_nth(*self, k as int),
    {
        let h = self.span();
        let q = (self.addr as u64) / h;
        proof {
            lemma_fundamental_div_mod(self.addr as int, h as int);
            lemma_pow2_adds((32 - self.prefix) as nat, self.prefix as nat);
            lemma2_to64();
            assert(pow2(32) == 0x100000000);
            assert(q == self.addr as int / h as int);
            assert(self.addr as int == h as int * (self.addr as int / h as int) + (self.addr as int)
                % (h as int));
            assert((self.addr as int) % (h as int) >= 0);
            assert(h as int * q as int == q as int * h as int) by (nonlinear_arith);
            assert(q * h <= self.addr as int);
            assert(h as int * pow2(self.prefix as nat) == 0x100000000);
            assert(q < pow2(self.prefix as nat)) by (nonlinear_arith)
                requires
                    q * h < h as int * pow2(self.prefix as nat),
                    h >= 1,
            ;
            assert((q + 1) * h <= pow2(self.prefix as nat) * h) by (nonlinear_arith)
                requires
                    q + 1 <= pow2(self.prefix as nat),
                    h >= 1,
            ;
            assert((q + 1) * h == q * h + h) by (nonlinear_arith);
            assert(pow2(self.prefix as nat) * h == h as int * pow2(self.prefix as nat))
                by (nonlinear_arith);
            assert(q * h + h <= 0x100000000);
        }
        let net = q * h;
        Ipv4Address { bits: (net + k) as u32 }
    }

    /// CIDR text, e.g. `10.0.0.0/24`.
    pub fn render(&self) -> (r: String)
        ensures
            r@ == subnet_chars(*self),
    {
        let mut out = Ipv4Address { bits: self.addr }.render();
        out.append("/");
        out.append(u64_to_dec(self.prefix as u64).as_str());
        proof {
            reveal_strlit("/");
            assert("/"@ =~= seq!['/']);
            assert(out@ =~= subnet_chars(*self));
        }
        out
    }

    /// Scans a CIDR expression at position `i` of `s`.
    pub fn scan(s: &str, n: usize, i: usize) -> (r: Option<(Subnet, usize)>)
        requires
            n == s@.len(),
            i <= n,
        ensures
            ({
                let sp = parse_subnet_at(s@, i as int);
                match r {
                    Some(p) => sp == Some((p.0, p.1 as int)) && i <= p.1 <= n && p.0.prefix <= 32,
                    None => sp is None,
                }
            }),
    {
        let (a, i1) = match scan_dec(s, n, i, 255) {
            Some(p) => p,
            None => { return None; },
        };
        if i1 >= n || s.get_char(i1) != '.' {
            return None;
        }
        let (b, i2) = match scan_dec(s, n, i1 + 1, 255) {
            Some(p) => p,
            None => { return None; },
        };
        if i2 >= n || s.get_char(i2) != '.' {
            return None;
        }
        let (c, i3) = match scan_dec(s, n, i2 + 1, 255) {
            Some(p) => p,
            None => { return None; },
        };
        if i3 >= n || s.get_char(i3) != '.' {
            return None;
        }
        let (d, i4) = match scan_dec(s, n, i3 + 1, 255) {
            Some(p) => p,
            None => { return None; },
        };
        if i4 >= n || s.get_char(i4) != '/' {
            return None;
        }
        let (p, i5) = match scan_dec(s, n, i4 + 1, 32) {
            Some(p) => p,
            None => { return None; },
        };
        let addr: u32 = (a as u32) * 0x1000000 + (b as u32) * 0x10000 + (c as u32) * 256
            + (d as u32);
        Some((Subnet { addr, prefix: p as u8 }, i5))
    }

    /// Parses a whole string as a CIDR expression.
    pub fn parse(s: &str) -> (r: Result<Subnet, Error>)
        ensures
            match r {
                Ok(sn) => parse_subnet_at(s@, 0) == Some((sn, s@.len() as int)) && sn.prefix <= 32,
                Err(e) => e is ParseError && !(parse_subnet_at(s@, 0) matches Some((_, j)) && j
                    == s@.len()),
            },
    {
        let n = s.unicode_len();
        match Self::scan(s, n, 0) {
            Some((sn, j)) => if j == n {
                Ok(sn)
            } else {
                Err(Error::ParseError)
            },
            None => Err(Error::ParseError),
        }
    }
}

/// Splitting a known subrange of `s` at a seam: if `s` carries `a + b`
/// at position `i`, it carries `a` at `i` and `b` right after.
pub proof fn lemma_subrange_split(s: Seq<char>, i: int, a: Seq<char>, b: Seq<char>)
    requires
        0 <= i,
        i + a.len() + b.len() <= s.len(),
        s.subrange(i, i + a.len() + b.len()) == a + b,
    ensures
        s.subrange(i, i + a.len()) == a,
        s.subrange(i + a.len(), i + a.len() + b.len()) == b,
{
    let ab = a + b;
    assert forall|t: int| 0 <= t < ab.len() implies s[i + t] == ab[t] by {
        assert(s.subrange(i, i + ab.len())[t] == s[i + t]);
    }
    assert(s.subrange(i, i + a.len()) =~= a) by {
        assert forall|t: int| 0 <= t < a.len() implies s.subrange(i, i + a.len())[t] == a[t] by {
            assert(s[i + t] == ab[t]);
            assert(ab[t] == a[t]);
        }
    }
    assert(s.subrange(i + a.len(), i + a.len() + b.len()) =~= b) by {
        assert forall|t: int| 0 <= t < b.len() implies s.subrange(
            i + a.len(),
            i + a.len() + b.len(),
        )[t] == b[t] by {
            assert(s[i + a.len() + t] == ab[a.len() + t]);
            assert(ab[a.len() + t] == b[t]);
        }
    }
}

/// Every address is rebuilt exactly from its four octets.
pub proof fn lemma_octet_recompose(bits: u32)
    ensures
        bits as int == octet0(bits) * 0x1000000 + octet1(bits) * 0x10000 + octet2(bits) * 256
            + octet3(bits),
{
    let x = bits as int;
    lemma_fundamental_div_mod(x, 0x1000000);
    lemma_mod_breakdown(x, 0x10000, 256);
    lemma_mod_breakdown(x, 256, 256);
    // x % 0x1000000 relates to the middle octets
    lemma_fundamental_div_mod(x, 0x10000);
    lemma_fundamental_div_mod(x, 256);
    assert(x % 0x1000000 == 0x10000 * ((x / 0x10000) % 256) + x % 0x10000) by {
        assert(0x10000 * 256 == 0x1000000);
    }
    assert(x % 0x10000 == 256 * ((x / 256) % 256) + x % 256) by {
        assert(256 * 256 == 0x10000);
    }
}

/// Round trip for CIDR text: scanning the rendering of `sn`, followed
/// by a non-digit or the end, yields `sn` again.
#[verifier::rlimit(100)]
pub proof fn lemma_parse_subnet_of_render(s: Seq<char>, i: int, sn: Subnet)
    requires
        0 <= i,
        sn.prefix <= 32,
        i + subnet_chars(sn).len() <= s.len(),
        s.subrange(i, i + subnet_chars(sn).len()) == subnet_chars(sn),
        i + subnet_chars(sn).len() == s.len() || !is_digit(s[i + subnet_chars(sn).len()]),
    ensures
        parse_subnet_at(s, i) == Some((sn, i + subnet_chars(sn).len())),
{
    let o0 = octet0(sn.addr) as nat;
    let o1 = octet1(sn.addr) as nat;
    let o2 = octet2(sn.addr) as nat;
    let o3 = octet3(sn.addr) as nat;
    let d0 = dec(o0);
    let d1 = dec(o1);
    let d2 = dec(o2);
    let d3 = dec(o3);
    let dp = dec(sn.prefix as nat);
    let dot = seq!['.'];
    let slash = seq!['/'];
    let full = subnet_chars(sn);
    let fin = i + full.len();

    // peel the pieces off the rendered text, left to right
    let r1 = dot + d1 + dot + d2 + dot + d3 + slash + dp;
    assert(full =~= d0 + r1);
    lemma_subrange_split(s, i, d0, r1);
    let j0 = i + d0.len();

    let r2 = d1 + dot + d2 + dot + d3 + slash + dp;
    assert(r1 =~= dot + r2);
    lemma_subrange_split(s, j0, dot, r2);
    assert(s[j0] == '.') by {
        assert(s.subrange(j0, j0 + 1)[0] == s[j0]);
    }

    let r3 = dot + d2 + dot + d3 + slash + dp;
    assert(r2 =~= d1 + r3);
    lemma_subrange_split(s, j0 + 1, d1, r3);
    let j1 = j0 + 1 + d1.len();

    let r4 = d2 + dot + d3 + slash + dp;
    assert(r3 =~= dot + r4);
    lemma_subrange_split(s, j1, dot, r4);
    assert(s[j1] == '.') by {
        assert(s.subrange(j1, j1 + 1)[0] == s[j1]);
    }

    let r5 = dot + d3 + slash + dp;
    assert(r4 =~= d2 + r5);
    lemma_subrange_split(s, j1 + 1, d2, r5);
    let j2 = j1 + 1 + d2.len();

    let r6 = d3 + slash + dp;
    assert(r5 =~= dot + r6);
    lemma_subrange_split(s, j2, dot, r6);
    assert(s[j2] == '.') by {
        assert(s.subrange(j2, j2 + 1)[0] == s[j2]);
    }

    let r7 = slash + dp;
    assert(r6 =~= d3 + r7);
    lemma_subrange_split(s, j2 + 1, d3, r7);
    let j3 = j2 + 1 + d3.len();

    assert(r7 =~= slash + dp);
    lemma_subrange_split(s, j3, slash, dp);
    assert(s[j3] == '/') by {
        assert(s.subrange(j3, j3 + 1)[0] == s[j3]);
    }
    let j4 = j3 + 1;
    assert(j4 + dp.len() == fin);

    // each decimal block parses back to its octet
    lemma_parse_dec_of_dec(s, i, o0, 255);
    lemma_parse_dec_of_dec(s, j0 + 1, o1, 255);
    lemma_parse_dec_of_dec(s, j1 + 1, o2, 255);
    lemma_parse_dec_of_dec(s, j2 + 1, o3, 255);
    lemma_parse_dec_of_dec(s, j4, sn.prefix as nat, 32);

    lemma_octet_recompose(sn.addr);
    let rebuilt = o0 as int * 0x1000000 + o1 as int * 0x10000 + o2 as int * 256 + o3 as int;
    assert(rebuilt == sn.addr as int);
    assert(rebuilt as u32 == sn.addr);
    assert((sn.prefix as int) as u8 == sn.prefix);
}

} // verus!
