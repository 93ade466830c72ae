//! A VPN client: an identifier that doubles as its address slot, a
//! free-form name, and its own key pair.

use vstd::prelude::*;
use crate::crypto::{keypair_consistent, KeyPair, KeyPairView};
use crate::ip::{host_span, ip_chars, spec_nth, Ipv4Address, Subnet};
use crate::model::server::{Server, ServerView};
use crate::num::dec;

verus! {

pub struct Client {
    pub id: usize,
    pub name: String,
    pub keys: KeyPair,
}

pub ghost struct ClientView {
    pub id: int,
    pub name: Seq<char>,
    pub keys: KeyPairView,
}

impl View for Client {
    type V = ClientView;

    open spec fn view(&self) -> ClientView {
        ClientView { id: self.id as int, name: self.name@, keys: self.keys@ }
    }
}

impl Clone for Client {
    fn clone(&self) -> (r: Self)
        ensures
            r@ == self@,
    {
        Client { id: self.id, name: self.name.clone(), keys: self.keys.clone() }
    }
}

/// The configuration text handed to a single client: its own address
/// and private key, then the server as the sole peer with a default
/// route.
pub open spec fn spec_client_conf(c: ClientView, sv: ServerView) -> Seq<char> {
    "[Interface]\nAddress = "@ + ip_chars(spec_nth(sv.subnet, c.id + 2) as u32)
        + "\nPrivateKey = "@ + c.keys.private + "\nDNS = 8.8.8.8\n\n[Peer]\nPublicKey = "@
        + sv.keys.public + "\nEndpoint = "@ + sv.endpoint + ":"@ + dec(sv.port as nat)
        + "\nAllowedIPs = 0.0.0.0/0\nPersistentKeepalive = 25\n"@
}

/// Determinism of addressing: under the subnet `10.0.0.0/24`, the
/// client with id `i` always receives the address `10.0.0.(i+2)`.
pub proof fn lemma_address_under_ten_net(sn: Subnet, id: int)
    requires
        sn.addr == 0x0A000000,
        sn.prefix == 24,
        0 <= id < 253,
    ensures
        spec_nth(sn, id + 2) == 0x0A000000 + id + 2,
        ip_chars((0x0A000000 + id + 2) as u32) == dec(10) + seq!['.'] + dec(0) + seq!['.'] + dec(0)
            + seq!['.'] + dec((id + 2) as nat),
{
    vstd::arithmetic::power2::lemma2_to64();
    assert(host_span(sn.prefix) == 256);
    let y = 0x0A000000 + id + 2;
    let x = id + 2;
    assert(spec_nth(sn, id + 2) == y) by {
        assert(0x0A000000int / 256 == 655360);
    }
    vstd::arithmetic::div_mod::lemma_fundamental_div_mod_converse_div(y, 0x1000000, 10, x);
    vstd::arithmetic::div_mod::lemma_fundamental_div_mod_converse_div(y, 0x10000, 2560, x);
    vstd::arithmetic::div_mod::lemma_fundamental_div_mod_converse_div(y, 256, 655360, x);
    vstd::arithmetic::div_mod::lemma_fundamental_div_mod_converse_mod(y, 256, 655360, x);
    let b = y as u32;
    assert(b == y);
    assert(crate::ip::octet0(b) == 10);
    assert(crate::ip::octet1(b) == 0);
    assert(crate::ip::octet2(b) == 0);
    assert(crate::ip::octet3(b) == x);
}

impl Client {
    /// A new client under the given id, with a fresh key pair.
    pub fn new(id: usize, name: String) -> (r: Self)
        ensures
            r@.id == id as int,
            r@.name == name@,
            keypair_consistent(r@.keys),
            r@.keys.private.len() == 44,
            r@.keys.public.len() == 44,
    {
        Client { id, name, keys: KeyPair::generate() }
    }

    /// The client's address: slot `id + 2` of the subnet, past the
    /// network address and the server's own address.
    pub fn get_ip_address(&self, subnet: &Subnet) -> (r: Ipv4Address)
        requires
            subnet.prefix <= 32,
            self.id as int + 2 < host_span(subnet.prefix),
        ensures
            r.bits == spec_nth(*subnet, self.id as int + 2),
    {
        proof {
            vstd::arithmetic::power2::lemma2_to64();
            if (32 - subnet.prefix) < 32 {
                vstd::arithmetic::power2::lemma_pow2_strictly_increases(
                    (32 - subnet.prefix) as nat,
                    32,
                );
            }
        }
        subnet.nth(self.id as u64 + 2)
    }

    /// Renders the client's own configuration text.
    pub fn get_wg_config(&self, server: &Server) -> (r: String)
        requires
            server@.subnet.prefix <= 32,
            self.id as int + 2 < host_span(server@.subnet.prefix),
        ensures
            r@ == spec_client_conf(self@, server@),
    {
        let mut out = String::new();
        out.append("[Interface]\nAddress = ");
        out.append(self.get_ip_address(&server.subnet).render().as_str());
        out.append("\nPrivateKey = ");
        out.append(self.keys.private.as_str());
        out.append("\nDNS = 8.8.8.8\n\n[Peer]\nPublicKey = ");
        out.append(server.keys.public.as_str());
        out.append("\nEndpoint = ");
        out.append(server.endpoint.as_str());
        out.append(":");
        out.append(crate::num::u64_to_dec(server.port as u64).as_str());
        out.append("\nAllowedIPs = 0.0.0.0/0\nPersistentKeepalive = 25\n");
        proof {
            assert(out@ =~= spec_client_conf(self@, server@));
        }
        out
    }
}

} // verus!
