//! IP and socket addresses, and their conventional text forms.
//!
//! An IPv4 address is written as four decimal octets separated by dots.
//! An IPv6 address is written as eight lowercase hexadecimal groups separated
//! by colons, with the first longest run of two or more zero groups replaced by
//! `::`, except that an IPv4-mapped address (`::ffff:0:0/96`) is written as
//! `::ffff:` followed by the IPv4 text of its last 32 bits. A socket address
//! appends `:port`; an IPv6 one is bracketed, with `%scope` when the scope id
//! is not zero.

use vstd::prelude::*;
use crate::text::{decimal, hexadecimal, push_char, push_decimal, push_hexadecimal};

verus! {

/// An IP address.
#[derive(Clone, Copy, Debug)]
pub enum IpAddress {
    /// Four octets, most significant first.
    V4([u8; 4]),
    /// Eight 16-bit groups, most significant first.
    V6([u16; 8]),
}

/// A socket address: an IP address with a port.
#[allow(inconsistent_fields)]
#[derive(Clone, Copy, Debug)]
pub enum SocketAddress {
    V4 { ip: [u8; 4], port: u16 },
    V6 { ip: [u16; 8], port: u16, flowinfo: u32, scope_id: u32 },
}

/// Dotted-decimal text of four octets.
pub open spec fn ipv4_text(o: Seq<u8>) -> Seq<char> {
    decimal(o[0] as nat) + seq!['.'] + decimal(o[1] as nat) + seq!['.'] + decimal(o[2] as nat)
        + seq!['.'] + decimal(o[3] as nat)
}

/// The groups in hexadecimal, separated by colons.
pub open spec fn hex_groups(g: Seq<u16>) -> Seq<char>
    decreases g.len(),
{
    if g.len() == 0 {
        seq![]
    } else if g.len() == 1 {
        hexadecimal(g[0] as nat)
    } else {
        hex_groups(g.drop_last()) + seq![':'] + hexadecimal(g.last() as nat)
    }
}

/// The `len` groups starting at `start` are all zero.
pub open spec fn zero_run(g: Seq<u16>, start: int, len: int) -> bool {
    &&& 0 <= start
    &&& 0 <= len
    &&& start + len <= g.len()
    &&& forall|i: int| start <= i < start + len ==> g[i] == 0
}

/// `(start, len)` is the longest run of zero groups, and the first of the
/// longest ones.
pub open spec fn first_longest_zero_run(g: Seq<u16>, start: int, len: int) -> bool {
    &&& zero_run(g, start, len)
    &&& forall|b: int, l: int| #[trigger] zero_run(g, b, l) ==> l <= len
    &&& forall|b: int| #[trigger] zero_run(g, b, len) ==> start <= b
}

/// The address lies in `::ffff:0:0/96`.
pub open spec fn is_ipv4_mapped(g: Seq<u16>) -> bool {
    g[0] == 0 && g[1] == 0 && g[2] == 0 && g[3] == 0 && g[4] == 0 && g[5] == 0xffff
}

/// The four octets of the last 32 bits.
pub open spec fn mapped_octets(g: Seq<u16>) -> Seq<u8> {
    seq![(g[6] / 256) as u8, (g[6] % 256) as u8, (g[7] / 256) as u8, (g[7] % 256) as u8]
}

/// Text of an IPv6 address given by its eight groups.
pub open spec fn ipv6_text(g: Seq<u16>) -> Seq<char> {
    if is_ipv4_mapped(g) {
        seq![':', ':', 'f', 'f', 'f', 'f', ':'] + ipv4_text(mapped_octets(g))
    } else {
        let (start, len) = choose|start: int, len: int| first_longest_zero_run(g, start, len);
        if len > 1 {
            hex_groups(g.subrange(0, start)) + seq![':', ':'] + hex_groups(
                g.subrange(start + len, g.len() as int),
            )
        } else {
            hex_groups(g)
        }
    }
}

/// Text of an IP address.
pub open spec fn ip_text(a: IpAddress) -> Seq<char> {
    match a {
        IpAddress::V4(o) => ipv4_text(o@),
        IpAddress::V6(g) => ipv6_text(g@),
    }
}

/// Text of a socket address.
pub open spec fn socket_text(a: SocketAddress) -> Seq<char> {
    match a {
        SocketAddress::V4 { ip, port, .. } => ipv4_text(ip@) + seq![':'] + decimal(port as nat),
        SocketAddress::V6 { ip, port, scope_id, .. } => seq!['['] + ipv6_text(ip@) + (if scope_id
            == 0 {
            seq![]
        } else {
            seq!['%'] + decimal(scope_id as nat)
        }) + seq![']', ':'] + decimal(port as nat),
    }
}

/// There is one first longest run of zero groups.
pub proof fn lemma_first_longest_zero_run_unique(g: Seq<u16>, s1: int, l1: int, s2: int, l2: int)
    requires
        first_longest_zero_run(g, s1, l1),
        first_longest_zero_run(g, s2, l2),
    ensures
        s1 == s2,
        l1 == l2,
{
    assert(zero_run(g, s2, l2));
    assert(zero_run(g, s1, l1));
}

/// Appends the dotted-decimal text of `o`.
fn push_ipv4(s: &mut String, o: &[u8; 4])
    ensures
        final(s)@ == old(s)@ + ipv4_text(o@),
{
    push_decimal(s, o[0] as u64);
    push_char(s, '.');
    push_decimal(s, o[1] as u64);
    push_char(s, '.');
    push_decimal(s, o[2] as u64);
    push_char(s, '.');
    push_decimal(s, o[3] as u64);
    proof {
        assert(s@ =~= old(s)@ + ipv4_text(o@));
    }
}

/// Appends the groups `lo..hi` of `g` in hexadecimal, separated by colons.
fn push_hex_groups(s: &mut String, g: &[u16; 8], lo: usize, hi: usize)
    requires
        lo <= hi <= 8,
    ensures
        final(s)@ == old(s)@ + hex_groups(g@.subrange(lo as int, hi as int)),
{
    let ghost start = s@;
    let mut i = lo;
    assert(g@.subrange(lo as int, lo as int) =~= Seq::<u16>::empty());
    assert(start + hex_groups(Seq::<u16>::empty()) =~= start);
    while i < hi
        invariant
            lo <= i <= hi <= 8,
            g@.len() == 8,
            s@ == start + hex_groups(g@.subrange(lo as int, i as int)),
        decreases hi - i,
    {
        if i > lo {
            push_char(s, ':');
        }
        push_hexadecimal(s, g[i] as u64);
        proof {
            let sub = g@.subrange(lo as int, i + 1);
            assert(sub.drop_last() =~= g@.subrange(lo as int, i as int));
            assert(sub.last() == g@[i as int]);
            if i == lo {
                assert(sub.len() == 1);
                assert(hex_groups(g@.subrange(lo as int, i as int)) =~= Seq::<char>::empty());
                assert(s@ =~= start + hex_groups(sub));
            } else {
                assert(s@ =~= start + hex_groups(sub));
            }
        }
        i += 1;
    }
}

/// Finds the first longest run of zero groups.
fn longest_zero_run(g: &[u16; 8]) -> (r: (usize, usize))
    ensures
        first_longest_zero_run(g@, r.0 as int, r.1 as int),
{
    let mut best_start: usize = 0;
    let mut best_len: usize = 0;
    let mut cur_start: usize = 0;
    let mut cur_len: usize = 0;
    let mut i: usize = 0;
    while i < 8
        invariant
            g@.len() == 8,
            i <= 8,
            cur_start + cur_len == i,
            zero_run(g@, cur_start as int, cur_len as int),
            cur_start == 0 || g@[cur_start - 1] != 0,
            zero_run(g@, best_start as int, best_len as int),
            best_start + best_len <= i,
            forall|b: int, l: int| #[trigger] zero_run(g@, b, l) && b + l <= i ==> l <= best_len,
            forall|b: int|
                #[trigger] zero_run(g@, b, best_len as int) && b + best_len <= i ==> best_start <= b,
        decreases 8 - i,
    {
        let ghost old_cur_start = cur_start as int;
        let ghost gi = i as int;
        if g[i] == 0 {
            cur_len += 1;
            if cur_len > best_len {
                best_start = cur_start;
                best_len = cur_len;
            }
            proof {
                assert forall|b: int, l: int| #[trigger]
                    zero_run(g@, b, l) && b + l <= gi + 1 implies l <= best_len by {
                    if b + l == gi + 1 && l > 0 && b < old_cur_start {
                        assert(g@[old_cur_start - 1] == 0);
                    }
                }
                assert forall|b: int| #[trigger]
                    zero_run(g@, b, best_len as int) && b + best_len <= gi + 1 implies best_start
                    <= b by {
                    if b + best_len == gi + 1 && best_len > 0 && b < old_cur_start {
                        assert(g@[old_cur_start - 1] == 0);
                    }
                    if b + best_len <= gi {
                        assert(zero_run(g@, b, best_len as int) && b + best_len <= gi);
                    }
                }
            }
        } else {
            cur_start = i + 1;
            cur_len = 0;
            proof {
                assert forall|b: int, l: int| #[trigger]
                    zero_run(g@, b, l) && b + l <= gi + 1 implies l <= best_len by {
                    if b + l == gi + 1 && l > 0 {
                        assert(g@[gi] == 0);
                    }
                }
                assert forall|b: int| #[trigger]
                    zero_run(g@, b, best_len as int) && b + best_len <= gi + 1 implies best_start
                    <= b by {
                    if b + best_len == gi + 1 && best_len > 0 {
                        assert(g@[gi] == 0);
                    }
                }
            }
        }
        i += 1;
    }
    (best_start, best_len)
}

/// Appends the text of an IPv6 address.
fn push_ipv6(s: &mut String, g: &[u16; 8])
    ensures
        final(s)@ == old(s)@ + ipv6_text(g@),
{
    if g[0] == 0 && g[1] == 0 && g[2] == 0 && g[3] == 0 && g[4] == 0 && g[5] == 0xffff {
        push_char(s, ':');
        push_char(s, ':');
        push_char(s, 'f');
        push_char(s, 'f');
        push_char(s, 'f');
        push_char(s, 'f');
        push_char(s, ':');
        let octets: [u8; 4] = [(g[6] / 256) as u8, (g[6] % 256) as u8, (g[7] / 256) as u8, (g[7]
            % 256) as u8];
        push_ipv4(s, &octets);
        proof {
            assert(octets@ =~= mapped_octets(g@));
            assert(s@ =~= old(s)@ + ipv6_text(g@));
        }
    } else {
        let (start, len) = longest_zero_run(g);
        proof {
            let (c0, c1) = choose|c0: int, c1: int| first_longest_zero_run(g@, c0, c1);
            assert(first_longest_zero_run(g@, start as int, len as int));
            lemma_first_longest_zero_run_unique(g@, c0, c1, start as int, len as int);
        }
        if len > 1 {
            push_hex_groups(s, g, 0, start);
            push_char(s, ':');
            push_char(s, ':');
            push_hex_groups(s, g, start + len, 8);
            proof {
                assert(s@ =~= old(s)@ + ipv6_text(g@));
            }
        } else {
            push_hex_groups(s, g, 0, 8);
            proof {
                assert(g@.subrange(0, 8) =~= g@);
            }
        }
    }
}

/// Appends the text of an IP address.
pub fn push_ip(s: &mut String, a: &IpAddress)
    ensures
        final(s)@ == old(s)@ + ip_text(*a),
{
    match a {
        IpAddress::V4(o) => push_ipv4(s, o),
        IpAddress::V6(g) => push_ipv6(s, g),
    }
}

/// Appends the text of a socket address.
pub fn push_socket(s: &mut String, a: &SocketAddress)
    ensures
        final(s)@ == old(s)@ + socket_text(*a),
{
    match a {
        SocketAddress::V4 { ip, port } => {
            push_ipv4(s, ip);
            push_char(s, ':');
            push_decimal(s, *port as u64);
            proof {
                assert(s@ =~= old(s)@ + socket_text(*a));
            }
        },
        SocketAddress::V6 { ip, port, scope_id, .. } => {
            push_char(s, '[');
            push_ipv6(s, ip);
            if *scope_id != 0 {
                push_char(s, '%');
                push_decimal(s, *scope_id as u64);
            }
            push_char(s, ']');
            push_char(s, ':');
            push_decimal(s, *port as u64);
            proof {
                assert(s@ =~= old(s)@ + socket_text(*a));
            }
        },
    }
}

/// The text of an IP address.
pub fn ip_address_text(a: &IpAddress) -> (r: String)
    ensures
        r@ == ip_text(*a),
{
    let mut s = String::new();
    push_ip(&mut s, a);
    proof {
        assert(s@ =~= ip_text(*a));
    }
    s
}

/// The text of a socket address.
pub fn socket_address_text(a: &SocketAddress) -> (r: String)
    ensures
        r@ == socket_text(*a),
{
    let mut s = String::new();
    push_socket(&mut s, a);
    proof {
        assert(s@ =~= socket_text(*a));
    }
    s
}

} // verus!
