//! The client-status report: the roster joined with the live
//! per-peer metrics by public key. The transport around the library
//! only moves the result; the join itself is verified.

use vstd::prelude::*;
use crate::ip::{host_span, spec_max_clients, spec_nth, Ipv4Address, Subnet};
use crate::metrics::{ClientMetrics, ClientMetricsView};
use crate::model::client::ClientView;
use crate::model::server::Server;

verus! {

/// The payload of a request to add a client: just the name.
pub struct AddClient {
    pub name: String,
}

/// One row of the status report: roster data joined with counters.
pub struct Client {
    pub id: usize,
    pub name: String,
    pub ip: Ipv4Address,
    pub last_connected: u64,
    pub uploaded: u128,
    pub downloaded: u128,
}

pub ghost struct StatusView {
    pub id: int,
    pub name: Seq<char>,
    pub ip: Ipv4Address,
    pub last_connected: u64,
    pub uploaded: u128,
    pub downloaded: u128,
}

impl View for Client {
    type V = StatusView;

    open spec fn view(&self) -> StatusView {
        StatusView {
            id: self.id as int,
            name: self.name@,
            ip: self.ip,
            last_connected: self.last_connected,
            uploaded: self.uploaded,
            downloaded: self.downloaded,
        }
    }
}

/// The first roster entry carrying this public key.
pub open spec fn find_by_key(cs: Seq<ClientView>, pk: Seq<char>) -> Option<ClientView>
    decreases cs.len(),
{
    if cs.len() == 0 {
        None
    } else if cs.first().keys.public == pk {
        Some(cs.first())
    } else {
        find_by_key(cs.drop_first(), pk)
    }
}

/// One joined row, built from a roster entry and its counters.
pub open spec fn spec_row(c: ClientView, m: ClientMetricsView, sn: Subnet) -> StatusView {
    StatusView {
        id: c.id,
        name: c.name,
        ip: Ipv4Address { bits: spec_nth(sn, c.id + 2) as u32 },
        last_connected: m.latest_handshake,
        uploaded: m.received_bytes,
        downloaded: m.sent_bytes,
    }
}

/// The join: every metrics row whose public key belongs to a roster
/// entry becomes a report row, in metrics order; unknown keys are
/// dropped.
pub open spec fn spec_join(
    ms: Seq<ClientMetricsView>,
    cs: Seq<ClientView>,
    sn: Subnet,
) -> Seq<StatusView>
    decreases ms.len(),
{
    if ms.len() == 0 {
        Seq::empty()
    } else {
        let rest = spec_join(ms.drop_first(), cs, sn);
        match find_by_key(cs, ms.first().public_key) {
            Some(c) => seq![spec_row(c, ms.first(), sn)] + rest,
            None => rest,
        }
    }
}

/// Looks a public key up in the roster.
fn find_client_by_key(server: &Server, pk: &String) -> (r: Option<usize>)
    ensures
        match r {
            Some(i) => i < server@.clients.len() && find_by_key(server@.clients, pk@) == Some(
                server@.clients[i as int],
            ),
            None => find_by_key(server@.clients, pk@) is None,
        },
{
    let ghost cs = server@.clients;
    let len = server.clients.len();
    let mut i: usize = 0;
    proof {
        assert(cs.subrange(0, len as int) =~= cs);
    }
    while i < len
        invariant
            cs == server@.clients,
            len == cs.len(),
            i <= len,
            find_by_key(cs, pk@) == find_by_key(cs.subrange(i as int, len as int), pk@),
        decreases len - i,
    {
        proof {
            let tail = cs.subrange(i as int, len as int);
            assert(tail.first() == cs[i as int]);
            assert(tail.drop_first() =~= cs.subrange(i as int + 1, len as int));
        }
        if server.clients[i].keys.public.eq(pk) {
            return Some(i);
        }
        i += 1;
    }
    proof {
        assert(cs.subrange(len as int, len as int) =~= Seq::<ClientView>::empty());
    }
    None
}

/// Joins the live metrics with the roster: one report row per metrics
/// line whose public key belongs to a client.
pub fn get_clients_impl(server: &Server, metrics: &Vec<ClientMetrics>) -> (r: Vec<Client>)
    requires
        server.wf(),
    ensures
        r@.map_values(|c: Client| c@) == spec_join(
            metrics@.map_values(|m: ClientMetrics| m@),
            server@.clients,
            server@.subnet,
        ),
{
    let ghost msv = metrics@.map_values(|m: ClientMetrics| m@);
    let ghost cs = server@.clients;
    let ghost sn = server@.subnet;
    let mut out: Vec<Client> = Vec::new();
    let len = metrics.len();
    let mut k: usize = 0;
    proof {
        crate::model::server::lemma_max_clients_formula(sn);
        assert(out@.map_values(|c: Client| c@) =~= Seq::<StatusView>::empty());
        assert(msv.subrange(0, 0) =~= Seq::<ClientMetricsView>::empty());
        assert(spec_join(msv.subrange(0, 0), cs, sn) == Seq::<StatusView>::empty());
    }
    while k < len
        invariant
            server.wf(),
            msv == metrics@.map_values(|m: ClientMetrics| m@),
            cs == server@.clients,
            sn == server@.subnet,
            host_span(sn.prefix) >= 4,
            len == metrics@.len(),
            k <= len,
            out@.map_values(|c: Client| c@) == spec_join(msv.subrange(0, k as int), cs, sn),
        decreases len - k,
    {
        let m = &metrics[k];
        let found = find_client_by_key(server, &m.public_key);
        let ghost out0 = out@;
        match found {
            Some(i) => {
                let c = &server.clients[i];
                proof {
                    assert(cs[i as int].id < spec_max_clients(sn));
                }
                let row = Client {
                    id: c.id,
                    name: c.name.clone(),
                    ip: c.get_ip_address(&server.subnet),
                    last_connected: m.latest_handshake,
                    uploaded: m.received_bytes,
                    downloaded: m.sent_bytes,
                };
                let ghost rv = row@;
                out.push(row);
                proof {
                    assert(rv == spec_row(cs[i as int], msv[k as int], sn));
                    assert(out@.map_values(|c: Client| c@) =~= out0.map_values(
                        |c: Client| c@,
                    ).push(rv));
                }
            },
            None => {},
        }
        proof {
            // one unfolding step of the join over the next metrics row
            lemma_join_step(msv, k as int, cs, sn);
        }
        k += 1;
    }
    proof {
        assert(msv.subrange(0, len as int) =~= msv);
    }
    out
}

/// Extending the processed prefix by one metrics row extends the join
/// by that row's result.
proof fn lemma_join_step(ms: Seq<ClientMetricsView>, k: int, cs: Seq<ClientView>, sn: Subnet)
    requires
        0 <= k < ms.len(),
    ensures
        spec_join(ms.subrange(0, k + 1), cs, sn) == match find_by_key(cs, ms[k].public_key) {
            Some(c) => spec_join(ms.subrange(0, k), cs, sn) + seq![spec_row(c, ms[k], sn)],
            None => spec_join(ms.subrange(0, k), cs, sn),
        },
{
    lemma_join_push(ms.subrange(0, k), ms[k], cs, sn);
    assert(ms.subrange(0, k).push(ms[k]) =~= ms.subrange(0, k + 1));
}

proof fn lemma_join_push(ms: Seq<ClientMetricsView>, m: ClientMetricsView, cs: Seq<ClientView>, sn: Subnet)
    ensures
        spec_join(ms.push(m), cs, sn) == match find_by_key(cs, m.public_key) {
            Some(c) => spec_join(ms, cs, sn) + seq![spec_row(c, m, sn)],
            None => spec_join(ms, cs, sn),
        },
    decreases ms.len(),
{
    if ms.len() == 0 {
        assert(ms.push(m).drop_first() =~= Seq::<ClientMetricsView>::empty());
        assert(ms.push(m).first() == m);
        assert(spec_join(Seq::<ClientMetricsView>::empty(), cs, sn) == Seq::<StatusView>::empty());
        assert(spec_join(ms, cs, sn) == Seq::<StatusView>::empty());
        match find_by_key(cs, m.public_key) {
            Some(c) => {
                assert(spec_join(ms.push(m), cs, sn) =~= spec_join(ms, cs, sn) + seq![
                    spec_row(c, m, sn),
                ]);
            },
            None => {
                assert(spec_join(ms.push(m), cs, sn) =~= spec_join(ms, cs, sn));
            },
        }
    } else {
        assert(ms.push(m).drop_first() =~= ms.drop_first().push(m));
        assert(ms.push(m).first() == ms.first());
        lemma_join_push(ms.drop_first(), m, cs, sn);
        match find_by_key(cs, m.public_key) {
            Some(c) => {
                assert(spec_join(ms.push(m), cs, sn) =~= spec_join(ms, cs, sn) + seq![
                    spec_row(c, m, sn),
                ]);
            },
            None => {
                assert(spec_join(ms.push(m), cs, sn) =~= spec_join(ms, cs, sn));
            },
        }
    }
}

} // verus!
