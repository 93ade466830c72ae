//! The server model: network parameters, the server's own key pair,
//! and the client roster, kept sorted by id. Ids are assigned
//! first-fit from zero, so a freed id is reused at the next addition.

use vstd::prelude::*;
use vstd::set_lib::{lemma_int_range, lemma_len_subset, set_int_range};
use crate::crypto::{keypair_consistent, KeyPair, KeyPairView};
use crate::ip::{host_span, ip_chars, spec_max_clients, spec_nth, Subnet};
use crate::model::client::{Client, ClientView};
use crate::num::dec;
use crate::Error;

verus! {

pub struct Server {
    pub subnet: Subnet,
    pub endpoint: String,
    pub port: u16,
    pub network_interface: String,
    pub keys: KeyPair,
    pub clients: Vec<Client>,
}

pub ghost struct ServerView {
    pub subnet: Subnet,
    pub endpoint: Seq<char>,
    pub port: u16,
    pub network_interface: Seq<char>,
    pub keys: KeyPairView,
    pub clients: Seq<ClientView>,
}

impl View for Server {
    type V = ServerView;

    open spec fn view(&self) -> ServerView {
        ServerView {
            subnet: self.subnet,
            endpoint: self.endpoint@,
            port: self.port,
            network_interface: self.network_interface@,
            keys: self.keys@,
            clients: self.clients@.map_values(|c: Client| c@),
        }
    }
}

/// Some roster entry carries this id.
pub open spec fn has_id(cs: Seq<ClientView>, id: int) -> bool {
    exists|i: int| 0 <= i < cs.len() && #[trigger] cs[i].id == id
}

/// No two roster entries share an id.
pub open spec fn distinct_ids(cs: Seq<ClientView>) -> bool {
    forall|i: int, j: int|
        #![trigger cs[i].id, cs[j].id]
        0 <= i < j < cs.len() ==> cs[i].id != cs[j].id
}

/// The roster invariant: ids strictly increase along the vector and
/// every id fits the subnet's capacity.
pub open spec fn wf_clients(cs: Seq<ClientView>, sn: Subnet) -> bool {
    &&& forall|i: int| 0 <= i < cs.len() ==> 0 <= (#[trigger] cs[i].id) < spec_max_clients(sn)
    &&& forall|i: int, j: int|
        #![trigger cs[i].id, cs[j].id]
        0 <= i < j < cs.len() ==> cs[i].id < cs[j].id
}

/// The server invariant: the subnet leaves room for the network
/// address, the server's address and at least one client, and the
/// roster is well formed for it.
pub open spec fn wf_server(sv: ServerView) -> bool {
    &&& sv.subnet.prefix <= 30
    &&& wf_clients(sv.clients, sv.subnet)
}

/// The roster as a map from id to client.
pub open spec fn map_of(cs: Seq<ClientView>) -> Map<int, ClientView>
    decreases cs.len(),
{
    if cs.len() == 0 {
        Map::empty()
    } else {
        map_of(cs.drop_last()).insert(cs.last().id, cs.last())
    }
}

/// The lowest id in `[k, max)` that the roster map leaves free.
pub open spec fn first_free_at(m: Map<int, ClientView>, k: int, max: int) -> Option<int>
    decreases max - k,
{
    if k < max {
        if !m.contains_key(k) {
            Some(k)
        } else {
            first_free_at(m, k + 1, max)
        }
    } else {
        None
    }
}

/// The lowest free id overall, if the capacity leaves one.
pub open spec fn spec_lowest_free(m: Map<int, ClientView>, max: int) -> Option<int> {
    first_free_at(m, 0, max)
}

pub proof fn lemma_map_of_contains(cs: Seq<ClientView>, id: int)
    ensures
        map_of(cs).contains_key(id) <==> has_id(cs, id),
    decreases cs.len(),
{
    if cs.len() > 0 {
        lemma_map_of_contains(cs.drop_last(), id);
        if cs.last().id == id {
            assert(cs[cs.len() - 1].id == id);
        } else {
            if has_id(cs, id) {
                let i = choose|i: int| 0 <= i < cs.len() && #[trigger] cs[i].id == id;
                assert(cs.drop_last()[i].id == id);
                assert(has_id(cs.drop_last(), id));
            }
            if has_id(cs.drop_last(), id) {
                let i = choose|i: int|
                    0 <= i < cs.drop_last().len() && #[trigger] cs.drop_last()[i].id == id;
                assert(cs[i].id == id);
            }
        }
    }
}

pub proof fn lemma_map_of_index(cs: Seq<ClientView>, i: int)
    requires
        distinct_ids(cs),
        0 <= i < cs.len(),
    ensures
        map_of(cs).contains_key(cs[i].id),
        map_of(cs)[cs[i].id] == cs[i],
    decreases cs.len(),
{
    if i == cs.len() - 1 {
        assert(cs.last() == cs[i]);
    } else {
        assert(distinct_ids(cs.drop_last())) by {
            assert(forall|a: int, b: int|
                0 <= a < b < cs.drop_last().len() ==> #[trigger] cs.drop_last()[a].id
                    != #[trigger] cs.drop_last()[b].id) by {
                assert(forall|a: int, b: int|
                    #![trigger cs[a].id, cs[b].id]
                    0 <= a < b < cs.len() ==> cs[a].id != cs[b].id);
            }
        }
        lemma_map_of_index(cs.drop_last(), i);
        assert(cs.drop_last()[i] == cs[i]);
        assert(cs[i].id != cs.last().id) by {
            assert(cs[cs.len() - 1] == cs.last());
        }
    }
}

pub proof fn lemma_map_of_insert(cs: Seq<ClientView>, pos: int, c: ClientView)
    requires
        0 <= pos <= cs.len(),
        !has_id(cs, c.id),
    ensures
        map_of(cs.insert(pos, c)) == map_of(cs).insert(c.id, c),
    decreases cs.len(),
{
    if pos == cs.len() {
        assert(cs.insert(pos, c) =~= cs.push(c));
        assert(cs.push(c).drop_last() =~= cs);
        assert(cs.push(c).last() == c);
    } else {
        let cs2 = cs.insert(pos, c);
        assert(cs2.drop_last() =~= cs.drop_last().insert(pos, c));
        assert(cs2.last() == cs.last()) by {
            assert(cs2[cs2.len() - 1] == cs[cs.len() - 1]);
        }
        assert(!has_id(cs.drop_last(), c.id)) by {
            if has_id(cs.drop_last(), c.id) {
                let i = choose|i: int|
                    0 <= i < cs.drop_last().len() && #[trigger] cs.drop_last()[i].id == c.id;
                assert(cs[i].id == c.id);
            }
        }
        lemma_map_of_insert(cs.drop_last(), pos, c);
        assert(c.id != cs.last().id) by {
            assert(cs[cs.len() - 1].id != c.id);
        }
        assert(map_of(cs.drop_last()).insert(c.id, c).insert(cs.last().id, cs.last()) =~= map_of(
            cs.drop_last(),
        ).insert(cs.last().id, cs.last()).insert(c.id, c));
    }
}

pub proof fn lemma_map_of_remove(cs: Seq<ClientView>, pos: int)
    requires
        distinct_ids(cs),
        0 <= pos < cs.len(),
    ensures
        map_of(cs.remove(pos)) == map_of(cs).remove(cs[pos].id),
    decreases cs.len(),
{
    assert(distinct_ids(cs.drop_last())) by {
        assert(forall|a: int, b: int|
            0 <= a < b < cs.drop_last().len() ==> #[trigger] cs.drop_last()[a].id
                != #[trigger] cs.drop_last()[b].id) by {
            assert(forall|a: int, b: int|
                #![trigger cs[a].id, cs[b].id]
                0 <= a < b < cs.len() ==> cs[a].id != cs[b].id);
        }
    }
    if pos == cs.len() - 1 {
        assert(cs.remove(pos) =~= cs.drop_last());
        assert(!has_id(cs.drop_last(), cs[pos].id)) by {
            if has_id(cs.drop_last(), cs[pos].id) {
                let i = choose|i: int|
                    0 <= i < cs.drop_last().len() && #[trigger] cs.drop_last()[i].id == cs[pos].id;
                assert(cs[i].id == cs[pos].id);
            }
        }
        lemma_map_of_contains(cs.drop_last(), cs[pos].id);
        assert(map_of(cs.drop_last()).insert(cs.last().id, cs.last()).remove(cs[pos].id)
            =~= map_of(cs.drop_last()));
    } else {
        let cs2 = cs.remove(pos);
        assert(cs2.drop_last() =~= cs.drop_last().remove(pos));
        assert(cs2.last() == cs.last()) by {
            assert(cs2[cs2.len() - 2 + 1] == cs[cs.len() - 1]);
        }
        lemma_map_of_remove(cs.drop_last(), pos);
        assert(cs.drop_last()[pos] == cs[pos]);
        assert(cs[pos].id != cs.last().id) by {
            assert(cs[cs.len() - 1] == cs.last());
        }
        assert(map_of(cs.drop_last()).remove(cs[pos].id).insert(cs.last().id, cs.last())
            =~= map_of(cs.drop_last()).insert(cs.last().id, cs.last()).remove(cs[pos].id));
    }
}

pub proof fn lemma_map_of_len(cs: Seq<ClientView>)
    requires
        distinct_ids(cs),
    ensures
        map_of(cs).dom().finite(),
        map_of(cs).dom().len() == cs.len(),
    decreases cs.len(),
{
    if cs.len() > 0 {
        assert(distinct_ids(cs.drop_last())) by {
            assert(forall|a: int, b: int|
                0 <= a < b < cs.drop_last().len() ==> #[trigger] cs.drop_last()[a].id
                    != #[trigger] cs.drop_last()[b].id) by {
                assert(forall|a: int, b: int|
                    #![trigger cs[a].id, cs[b].id]
                    0 <= a < b < cs.len() ==> cs[a].id != cs[b].id);
            }
        }
        lemma_map_of_len(cs.drop_last());
        lemma_map_of_contains(cs.drop_last(), cs.last().id);
        assert(!has_id(cs.drop_last(), cs.last().id)) by {
            if has_id(cs.drop_last(), cs.last().id) {
                let i = choose|i: int|
                    0 <= i < cs.drop_last().len() && #[trigger] cs.drop_last()[i].id
                        == cs.last().id;
                assert(cs[i].id == cs[cs.len() - 1].id);
            }
        }
        assert(map_of(cs).dom() =~= map_of(cs.drop_last()).dom().insert(cs.last().id));
    } else {
        assert(map_of(cs).dom() =~= Set::<int>::empty());
    }
}

/// If everything below `i` is taken and `i` itself is free, then `i`
/// is the first free id.
pub proof fn lemma_first_free_prefix(m: Map<int, ClientView>, k: int, i: int, max: int)
    requires
        0 <= k <= i < max,
        forall|j: int| k <= j < i ==> m.contains_key(j),
        !m.contains_key(i),
    ensures
        first_free_at(m, k, max) == Some(i),
    decreases i - k,
{
    if k < i {
        lemma_first_free_prefix(m, k + 1, i, max);
    }
}

/// If everything in `[k, max)` is taken, no free id exists.
pub proof fn lemma_first_free_full(m: Map<int, ClientView>, k: int, max: int)
    requires
        forall|j: int| k <= j < max ==> m.contains_key(j),
    ensures
        first_free_at(m, k, max) is None,
    decreases max - k,
{
    if k < max {
        lemma_first_free_full(m, k + 1, max);
    }
}

/// A found free id lies in range and is indeed free.
pub proof fn lemma_first_free_bounds(m: Map<int, ClientView>, k: int, max: int)
    requires
        first_free_at(m, k, max) is Some,
    ensures
        k <= first_free_at(m, k, max).unwrap() < max,
        !m.contains_key(first_free_at(m, k, max).unwrap()),
    decreases max - k,
{
    if k < max && m.contains_key(k) {
        lemma_first_free_bounds(m, k + 1, max);
    }
}

/// If some id in `[k, max)` is free, a first free id exists.
pub proof fn lemma_first_free_exists(m: Map<int, ClientView>, k: int, max: int)
    requires
        exists|j: int| k <= j < max && !(#[trigger] m.contains_key(j)),
    ensures
        first_free_at(m, k, max) is Some,
    decreases max - k,
{
    let j = choose|j: int| k <= j < max && !(#[trigger] m.contains_key(j));
    if m.contains_key(k) {
        assert(k + 1 <= j < max && !m.contains_key(j));
        lemma_first_free_exists(m, k + 1, max);
    }
}

/// Capacity law: a well-formed roster has a free id exactly while it
/// holds fewer clients than the subnet's capacity, so additions
/// succeed exactly `spec_max_clients` times before the roster is full.
pub proof fn lemma_capacity(cs: Seq<ClientView>, sn: Subnet)
    requires
        wf_clients(cs, sn),
    ensures
        spec_lowest_free(map_of(cs), spec_max_clients(sn)) is Some <==> cs.len() < spec_max_clients(
            sn,
        ),
{
    let m = map_of(cs);
    let max = spec_max_clients(sn);
    assert(distinct_ids(cs));
    lemma_map_of_len(cs);
    let range = set_int_range(0, max);
    lemma_int_range(0, max);
    assert(forall|k: int| #[trigger] m.dom().contains(k) ==> 0 <= k < max) by {
        assert forall|k: int| #[trigger] m.dom().contains(k) implies 0 <= k < max by {
            lemma_map_of_contains(cs, k);
            let i = choose|i: int| 0 <= i < cs.len() && #[trigger] cs[i].id == k;
            assert(0 <= cs[i].id < max);
        }
    }
    if spec_lowest_free(m, max) is Some {
        let id = first_free_at(m, 0, max).unwrap();
        lemma_first_free_bounds(m, 0, max);
        assert(m.dom().subset_of(range.remove(id)));
        lemma_len_subset(m.dom(), range.remove(id));
        assert(range.remove(id).len() == max - 1);
        assert(cs.len() < max);
    }
    if cs.len() < max {
        if forall|j: int| 0 <= j < max ==> #[trigger] m.contains_key(j) {
            assert(range.subset_of(m.dom())) by {
                assert forall|k: int| range.contains(k) implies m.dom().contains(k) by {
                    assert(m.contains_key(k));
                }
            }
            lemma_len_subset(range, m.dom());
            assert(false);
        }
        assert(exists|j: int| 0 <= j < max && !(#[trigger] m.contains_key(j)));
        lemma_first_free_exists(m, 0, max);
    }
}

/// Id-reuse law: if every id below `k` is taken, then after removing
/// client `k` the lowest free id is `k` again, whatever the names
/// involved — so the next addition receives id `k`.
pub proof fn lemma_id_reuse(m: Map<int, ClientView>, k: int, max: int)
    requires
        0 <= k < max,
        m.contains_key(k),
        forall|j: int| 0 <= j < k ==> m.contains_key(j),
    ensures
        spec_lowest_free(m.remove(k), max) == Some(k),
{
    lemma_first_free_prefix(m.remove(k), 0, k, max);
}

/// The capacity of a well-formed subnet follows the advertised
/// formula: two to the count of host bits, minus the three reserved
/// slots.
pub proof fn lemma_max_clients_formula(sn: Subnet)
    requires
        sn.prefix <= 30,
    ensures
        spec_max_clients(sn) == vstd::arithmetic::power2::pow2((32 - sn.prefix) as nat) - 3,
        host_span(sn.prefix) >= 4,
{
    vstd::arithmetic::power2::lemma2_to64();
    if (32 - sn.prefix) > 2 {
        vstd::arithmetic::power2::lemma_pow2_strictly_increases(2, (32 - sn.prefix) as nat);
    }
}

/// One rendered peer section of the server's configuration.
pub open spec fn spec_peer_section(c: ClientView, sn: Subnet) -> Seq<char> {
    "[Peer]\nPublicKey = "@ + c.keys.public + "\nAllowedIPs = "@ + ip_chars(
        spec_nth(sn, c.id + 2) as u32,
    ) + "/32\n\n"@
}

/// All peer sections, in roster order.
pub open spec fn spec_peer_sections(cs: Seq<ClientView>, sn: Subnet) -> Seq<char>
    decreases cs.len(),
{
    if cs.len() == 0 {
        Seq::empty()
    } else {
        spec_peer_section(cs.first(), sn) + spec_peer_sections(cs.drop_first(), sn)
    }
}

pub proof fn lemma_peer_sections_push(cs: Seq<ClientView>, c: ClientView, sn: Subnet)
    ensures
        spec_peer_sections(cs.push(c), sn) == spec_peer_sections(cs, sn) + spec_peer_section(
            c,
            sn,
        ),
    decreases cs.len(),
{
    assert(cs.push(c).len() > 0);
    assert(cs.push(c).first() == c || cs.push(c).first() == cs.first());
    assert(spec_peer_sections(cs.push(c), sn) == spec_peer_section(cs.push(c).first(), sn)
        + spec_peer_sections(cs.push(c).drop_first(), sn));
    if cs.len() == 0 {
        assert(cs.push(c).drop_first() =~= Seq::<ClientView>::empty());
        assert(cs.push(c).first() == c);
        assert(spec_peer_sections(Seq::<ClientView>::empty(), sn) == Seq::<char>::empty());
        assert(spec_peer_sections(cs, sn) == Seq::<char>::empty());
        assert(spec_peer_sections(cs.push(c), sn) =~= spec_peer_sections(cs, sn)
            + spec_peer_section(c, sn));
    } else {
        assert(cs.push(c).drop_first() =~= cs.drop_first().push(c));
        assert(cs.push(c).first() == cs.first());
        lemma_peer_sections_push(cs.drop_first(), c, sn);
        assert(spec_peer_sections(cs, sn) == spec_peer_section(cs.first(), sn)
            + spec_peer_sections(cs.drop_first(), sn));
        assert(spec_peer_sections(cs.push(c), sn) =~= spec_peer_sections(cs, sn)
            + spec_peer_section(c, sn));
    }
}

/// The interface section of the server's configuration.
pub open spec fn spec_interface_section(sv: ServerView) -> Seq<char> {
    "[Interface]\nAddress = "@ + ip_chars(spec_nth(sv.subnet, 1) as u32) + "/"@ + dec(
        sv.subnet.prefix as nat,
    ) + "\nPostUp = iptables -A FORWARD -i %i -j ACCEPT; iptables -t nat -A POSTROUTING -o "@
        + sv.network_interface
        + " -j MASQUERADE\nPostDown = iptables -D FORWARD -i %i -j ACCEPT; iptables -t nat -D POSTROUTING -o "@
        + sv.network_interface + " -j MASQUERADE\nListenPort = "@ + dec(sv.port as nat)
        + "\nPrivateKey = "@ + sv.keys.private + "\n\n"@
}

/// The whole configuration text the VPN driver consumes: one interface
/// section, then one peer section per client in roster order. A pure
/// function of the model state, so rendering is deterministic.
pub open spec fn spec_server_conf(sv: ServerView) -> Seq<char> {
    spec_interface_section(sv) + spec_peer_sections(sv.clients, sv.subnet)
}

impl Server {
    pub open spec fn wf(&self) -> bool {
        wf_server(self@)
    }

    /// A fresh server: given network parameters, a generated key pair,
    /// and an empty roster.
    pub fn new(subnet: Subnet, endpoint: String, port: u16, network_interface: String) -> (r:
        Self)
        requires
            subnet.prefix <= 30,
        ensures
            r.wf(),
            r@.subnet == subnet,
            r@.endpoint == endpoint@,
            r@.port == port,
            r@.network_interface == network_interface@,
            r@.clients == Seq::<ClientView>::empty(),
            keypair_consistent(r@.keys),
    {
        let r = Server {
            subnet,
            endpoint,
            port,
            network_interface,
            keys: KeyPair::generate(),
            clients: Vec::new(),
        };
        proof {
            assert(r@.clients =~= Seq::<ClientView>::empty());
        }
        r
    }

    /// Capacity of the subnet: its size minus the three reserved
    /// addresses.
    pub fn max_number_of_clients(&self) -> (r: usize)
        requires
            self@.subnet.prefix <= 32,
        ensures
            r == spec_max_clients(self@.subnet),
    {
        self.subnet.max_clients()
    }

    /// The lowest id not yet taken, scanning from zero; `None` when
    /// the roster is at capacity.
    fn find_free_id(&self) -> (r: Option<usize>)
        requires
            self.wf(),
        ensures
            match r {
                Some(id) => {
                    &&& id <= self@.clients.len()
                    &&& 0 <= (id as int) < spec_max_clients(self@.subnet)
                    &&& forall|j: int| 0 <= j < id ==> (#[trigger] self@.clients[j].id) == j
                    &&& forall|j: int|
                        id <= j < self@.clients.len() ==> (#[trigger] self@.clients[j].id) > id
                    &&& spec_lowest_free(map_of(self@.clients), spec_max_clients(self@.subnet))
                        == Some(id as int)
                },
                None => spec_lowest_free(map_of(self@.clients), spec_max_clients(self@.subnet))
                    is None,
            },
    {
        let ghost cs = self@.clients;
        let ghost m = map_of(cs);
        let ghost max = spec_max_clients(self@.subnet);
        let max_clients = self.max_number_of_clients();
        let len = self.clients.len();
        let mut i: usize = 0;
        while i < len
            invariant
                self.wf(),
                cs == self@.clients,
                m == map_of(cs),
                max == spec_max_clients(self@.subnet),
                max_clients == max,
                len == cs.len(),
                i <= len,
                forall|j: int| 0 <= j < i ==> (#[trigger] cs[j].id) == j,
            decreases len - i,
        {
            if self.clients[i].id != i {
                proof {
                    assert(wf_clients(cs, self@.subnet));
                    assert(0 <= cs[i as int].id < spec_max_clients(self@.subnet));
                    if i > 0 {
                        assert(cs[i as int - 1].id == i - 1);
                        assert(cs[i as int].id > cs[i as int - 1].id);
                    }
                    assert(cs[i as int].id >= i);
                    assert(cs[i as int].id > i);
                    assert(i < max) by {
                        assert(cs[i as int].id < max);
                    }
                    assert(forall|j: int|
                        i <= j < cs.len() ==> (#[trigger] cs[j].id) > i) by {
                        assert(forall|j: int|
                            i < j < cs.len() ==> cs[i as int].id < (#[trigger] cs[j].id));
                    }
                    assert forall|k: int| 0 <= k < i implies m.contains_key(k) by {
                        lemma_map_of_contains(cs, k);
                        assert(cs[k].id == k);
                    }
                    assert(!has_id(cs, i as int)) by {
                        if has_id(cs, i as int) {
                            let j = choose|j: int|
                                0 <= j < cs.len() && (#[trigger] cs[j].id) == i as int;
                        }
                    }
                    lemma_map_of_contains(cs, i as int);
                    lemma_first_free_prefix(m, 0, i as int, max);
                }
                return Some(i);
            }
            i += 1;
        }
        if len < max_clients {
            proof {
                assert forall|k: int| 0 <= k < len implies m.contains_key(k) by {
                    lemma_map_of_contains(cs, k);
                    assert(cs[k].id == k);
                }
                assert(!has_id(cs, len as int)) by {
                    if has_id(cs, len as int) {
                        let j = choose|j: int|
                            0 <= j < cs.len() && (#[trigger] cs[j].id) == len as int;
                        assert(cs[j].id == j);
                    }
                }
                lemma_map_of_contains(cs, len as int);
                lemma_first_free_prefix(m, 0, len as int, max);
            }
            Some(len)
        } else {
            proof {
                assert forall|k: int| 0 <= k < max implies m.contains_key(k) by {
                    lemma_map_of_contains(cs, k);
                    assert(cs[k].id == k);
                }
                lemma_first_free_full(m, 0, max);
            }
            None
        }
    }

    /// Adds a client under the given name. The new client receives the
    /// lowest free id and a fresh key pair; with no id free, the
    /// roster is left untouched and the addition fails.
    pub fn add_client(&mut self, name: String) -> (r: Result<usize, Error>)
        requires
            old(self).wf(),
        ensures
            final(self).wf(),
            final(self)@.subnet == old(self)@.subnet,
            final(self)@.endpoint == old(self)@.endpoint,
            final(self)@.port == old(self)@.port,
            final(self)@.network_interface == old(self)@.network_interface,
            final(self)@.keys == old(self)@.keys,
            match r {
                Ok(id) => {
                    &&& spec_lowest_free(
                        map_of(old(self)@.clients),
                        spec_max_clients(old(self)@.subnet),
                    ) == Some(id as int)
                    &&& map_of(final(self)@.clients).contains_key(id as int)
                    &&& map_of(final(self)@.clients)[id as int].id == id as int
                    &&& map_of(final(self)@.clients)[id as int].name == name@
                    &&& map_of(final(self)@.clients).remove(id as int) == map_of(
                        old(self)@.clients,
                    )
                    &&& final(self)@.clients.len() == old(self)@.clients.len() + 1
                    &&& crate::crypto::keypair_consistent(
                        map_of(final(self)@.clients)[id as int].keys,
                    )
                    &&& map_of(final(self)@.clients)[id as int].keys.private.len() == 44
                    &&& map_of(final(self)@.clients)[id as int].keys.public.len() == 44
                },
                Err(e) => {
                    &&& e is CapacityExceeded
                    &&& spec_lowest_free(
                        map_of(old(self)@.clients),
                        spec_max_clients(old(self)@.subnet),
                    ) is None
                    &&& *final(self) == *old(self)
                },
            },
    {
        let ghost cs0 = self@.clients;
        let ghost max = spec_max_clients(self@.subnet);
        let id = match self.find_free_id() {
            Some(v) => v,
            None => {
                return Err(Error::CapacityExceeded);
            },
        };
        let ghost nm = name@;
        let c = Client::new(id, name);
        let ghost cv = c@;
        proof {
            assert(!has_id(cs0, id as int)) by {
                if has_id(cs0, id as int) {
                    let j = choose|j: int| 0 <= j < cs0.len() && (#[trigger] cs0[j].id) == id as int;
                }
            }
            lemma_map_of_insert(cs0, id as int, cv);
            lemma_map_of_contains(cs0, id as int);
        }
        self.clients.insert(id, c);
        proof {
            let cs1 = self@.clients;
            assert(cs1 =~= cs0.insert(id as int, cv)) by {
                assert forall|k: int| 0 <= k < cs1.len() implies cs1[k] == cs0.insert(
                    id as int,
                    cv,
                )[k] by {}
            }
            // the inserted roster is still sorted and in range
            assert(wf_clients(cs1, self@.subnet)) by {
                assert forall|a: int, b: int|
                    0 <= a < b < cs1.len() implies (#[trigger] cs1[a].id) < (#[trigger] cs1[b].id) by {
                    if b < id {
                        assert(cs1[a] == cs0[a] && cs1[b] == cs0[b]);
                    } else if b == id {
                        assert(cs1[a] == cs0[a]);
                        assert(cs0[a].id == a);
                    } else {
                        assert(cs1[b] == cs0[b - 1]);
                        assert(cs0[b - 1].id > id);
                        if a < id {
                            assert(cs1[a] == cs0[a]);
                            assert(cs0[a].id == a);
                        } else if a == id {
                        } else {
                            assert(cs1[a] == cs0[a - 1]);
                        }
                    }
                }
                assert forall|a: int| 0 <= a < cs1.len() implies 0 <= (#[trigger] cs1[a].id)
                    < max by {
                    if a < id {
                        assert(cs1[a] == cs0[a]);
                    } else if a == id {
                    } else {
                        assert(cs1[a] == cs0[a - 1]);
                    }
                }
            }
            assert(map_of(cs1).remove(id as int) =~= map_of(cs0));
        }
        Ok(id)
    }

    /// Removes the client with the given id and hands it back, so a
    /// caller can un-apply it from a live interface.
    pub fn remove_client(&mut self, id: usize) -> (r: Result<Client, Error>)
        requires
            old(self).wf(),
        ensures
            final(self).wf(),
            final(self)@.subnet == old(self)@.subnet,
            final(self)@.endpoint == old(self)@.endpoint,
            final(self)@.port == old(self)@.port,
            final(self)@.network_interface == old(self)@.network_interface,
            final(self)@.keys == old(self)@.keys,
            match r {
                Ok(c) => {
                    &&& map_of(old(self)@.clients).contains_key(id as int)
                    &&& c@ == map_of(old(self)@.clients)[id as int]
                    &&& map_of(final(self)@.clients) == map_of(old(self)@.clients).remove(
                        id as int,
                    )
                    &&& final(self)@.clients.len() == old(self)@.clients.len() - 1
                },
                Err(e) => {
                    &&& e is NotFound
                    &&& !map_of(old(self)@.clients).contains_key(id as int)
                    &&& *final(self) == *old(self)
                },
            },
    {
        let ghost cs0 = self@.clients;
        let len = self.clients.len();
        let mut i: usize = 0;
        while i < len
            invariant
                old(self) == self,
                self.wf(),
                cs0 == self@.clients,
                len == cs0.len(),
                i <= len,
                forall|j: int| 0 <= j < i ==> (#[trigger] cs0[j].id) != id as int,
            decreases len - i,
        {
            if self.clients[i].id == id {
                proof {
                    assert(distinct_ids(cs0));
                    lemma_map_of_index(cs0, i as int);
                    lemma_map_of_remove(cs0, i as int);
                }
                let c = self.clients.remove(i);
                proof {
                    let cs1 = self@.clients;
                    assert(cs1 =~= cs0.remove(i as int)) by {
                        assert forall|k: int| 0 <= k < cs1.len() implies cs1[k] == cs0.remove(
                            i as int,
                        )[k] by {}
                    }
                    assert(wf_clients(cs1, self@.subnet)) by {
                        assert forall|a: int, b: int|
                            0 <= a < b < cs1.len() implies (#[trigger] cs1[a].id) < (#[trigger] cs1[b].id) by {
                            let a0: int = if a < i { a } else { a + 1 };
                            let b0: int = if b < i { b } else { b + 1 };
                            assert(cs1[a] == cs0[a0] && cs1[b] == cs0[b0]);
                        }
                        assert forall|a: int|
                            0 <= a < cs1.len() implies 0 <= (#[trigger] cs1[a].id)
                            < spec_max_clients(self@.subnet) by {
                            let a0: int = if a < i { a } else { a + 1 };
                            assert(cs1[a] == cs0[a0]);
                        }
                    }
                }
                return Ok(c);
            }
            i += 1;
        }
        proof {
            assert(!has_id(cs0, id as int)) by {
                if has_id(cs0, id as int) {
                    let j = choose|j: int| 0 <= j < cs0.len() && (#[trigger] cs0[j].id) == id as int;
                }
            }
            lemma_map_of_contains(cs0, id as int);
        }
        Err(Error::NotFound)
    }

    /// Fetches the client with the given id.
    pub fn get_client(&self, id: usize) -> (r: Result<&Client, Error>)
        requires
            self.wf(),
        ensures
            match r {
                Ok(c) => {
                    &&& map_of(self@.clients).contains_key(id as int)
                    &&& c@ == map_of(self@.clients)[id as int]
                    &&& c@.id == id as int
                },
                Err(e) => {
                    &&& e is NotFound
                    &&& !map_of(self@.clients).contains_key(id as int)
                },
            },
    {
        let ghost cs = self@.clients;
        let len = self.clients.len();
        let mut i: usize = 0;
        while i < len
            invariant
                self.wf(),
                cs == self@.clients,
                len == cs.len(),
                i <= len,
                forall|j: int| 0 <= j < i ==> (#[trigger] cs[j].id) != id as int,
            decreases len - i,
        {
            if self.clients[i].id == id {
                proof {
                    assert(distinct_ids(cs));
                    lemma_map_of_index(cs, i as int);
                }
                return Ok(&self.clients[i]);
            }
            i += 1;
        }
        proof {
            assert(!has_id(cs, id as int)) by {
                if has_id(cs, id as int) {
                    let j = choose|j: int| 0 <= j < cs.len() && (#[trigger] cs[j].id) == id as int;
                }
            }
            lemma_map_of_contains(cs, id as int);
        }
        Err(Error::NotFound)
    }

    /// Renders the interface configuration the VPN driver consumes:
    /// the interface section, then one peer section per client in
    /// ascending id order. A pure function of the model state: equal
    /// states render byte-for-byte equal text.
    pub fn get_wg_config(&self) -> (r: String)
        requires
            self.wf(),
        ensures
            r@ == spec_server_conf(self@),
    {
        proof {
            lemma_max_clients_formula(self@.subnet);
        }
        let mut out = String::new();
        out.append("[Interface]\nAddress = ");
        out.append(self.subnet.nth(1).render().as_str());
        out.append("/");
        out.append(crate::num::u64_to_dec(self.subnet.prefix as u64).as_str());
        out.append(
            "\nPostUp = iptables -A FORWARD -i %i -j ACCEPT; iptables -t nat -A POSTROUTING -o ",
        );
        out.append(self.network_interface.as_str());
        out.append(
            " -j MASQUERADE\nPostDown = iptables -D FORWARD -i %i -j ACCEPT; iptables -t nat -D POSTROUTING -o ",
        );
        out.append(self.network_interface.as_str());
        out.append(" -j MASQUERADE\nListenPort = ");
        out.append(crate::num::u64_to_dec(self.port as u64).as_str());
        out.append("\nPrivateKey = ");
        out.append(self.keys.private.as_str());
        out.append("\n\n");
        proof {
            assert(out@ =~= spec_interface_section(self@));
        }
        let ghost cs = self@.clients;
        let len = self.clients.len();
        let mut i: usize = 0;
        while i < len
            invariant
                self.wf(),
                cs == self@.clients,
                len == cs.len(),
                i <= len,
                host_span(self@.subnet.prefix) >= 4,
                out@ == spec_interface_section(self@) + spec_peer_sections(
                    cs.subrange(0, i as int),
                    self@.subnet,
                ),
            decreases len - i,
        {
            let c = &self.clients[i];
            out.append("[Peer]\nPublicKey = ");
            out.append(c.keys.public.as_str());
            out.append("\nAllowedIPs = ");
            proof {
                assert(cs[i as int].id < spec_max_clients(self@.subnet));
            }
            out.append(c.get_ip_address(&self.subnet).render().as_str());
            out.append("/32\n\n");
            proof {
                lemma_peer_sections_push(cs.subrange(0, i as int), cs[i as int], self@.subnet);
                assert(cs.subrange(0, i as int).push(cs[i as int]) =~= cs.subrange(
                    0,
                    i as int + 1,
                ));
                assert(out@ =~= spec_interface_section(self@) + spec_peer_sections(
                    cs.subrange(0, i as int + 1),
                    self@.subnet,
                ));
            }
            i += 1;
        }
        proof {
            assert(cs.subrange(0, len as int) =~= cs);
        }
        out
    }

    /// Renders the configuration text for one client.
    pub fn get_client_wg_config(&self, id: usize) -> (r: Result<String, Error>)
        requires
            self.wf(),
        ensures
            match r {
                Ok(s) => {
                    &&& map_of(self@.clients).contains_key(id as int)
                    &&& s@ == crate::model::client::spec_client_conf(
                        map_of(self@.clients)[id as int],
                        self@,
                    )
                },
                Err(e) => {
                    &&& e is NotFound
                    &&& !map_of(self@.clients).contains_key(id as int)
                },
            },
    {
        proof {
            lemma_max_clients_formula(self@.subnet);
        }
        match self.get_client(id) {
            Ok(c) => {
                proof {
                    lemma_map_of_contains(self@.clients, id as int);
                    let i = choose|i: int|
                        0 <= i < self@.clients.len() && (#[trigger] self@.clients[i].id)
                            == id as int;
                    assert(distinct_ids(self@.clients));
                    lemma_map_of_index(self@.clients, i);
                    assert(c@.id < spec_max_clients(self@.subnet));
                }
                Ok(c.get_wg_config(self))
            },
            Err(e) => Err(e),
        }
    }
}

} // verus!
