//! The interface reconciler: every operation is planned here as a
//! sequence of host commands, pinned down exactly by the contracts;
//! the unverified driver around the library carries the commands out
//! and reports failures by exit status.
//!
//! The planner is a pure function of the model state and the observed
//! interface state, so planning the same operation twice on unchanged
//! state yields the same commands — and in particular byte-for-byte
//! identical configuration text.

use vstd::prelude::*;
use crate::ip::{ip_chars, spec_max_clients, spec_nth};
use crate::model::client::Client;
use crate::model::client::ClientView;
use crate::model::server::{
    lemma_first_free_bounds, lemma_max_clients_formula, map_of, spec_lowest_free,
    spec_server_conf, Server,
};
use crate::Error;

verus! {

/// One instruction to the host, carried out by the unverified driver.
pub enum Command {
    /// Write the interface configuration text to the driver's file.
    WriteConfig { path: String, contents: String },
    /// Enable IPv4 forwarding in the kernel.
    EnableForwarding,
    /// Bring the interface up from its configuration file.
    InterfaceUp { device: String },
    /// Tear the interface down.
    InterfaceDown { device: String },
    /// Add or update one peer on the running interface.
    AddPeer { device: String, public_key: String, allowed_ips: String },
    /// Remove one peer from the running interface by its public key.
    RemovePeer { device: String, public_key: String },
}

pub ghost enum CommandView {
    WriteConfig { path: Seq<char>, contents: Seq<char> },
    EnableForwarding,
    InterfaceUp { device: Seq<char> },
    InterfaceDown { device: Seq<char> },
    AddPeer { device: Seq<char>, public_key: Seq<char>, allowed_ips: Seq<char> },
    RemovePeer { device: Seq<char>, public_key: Seq<char> },
}

impl View for Command {
    type V = CommandView;

    open spec fn view(&self) -> CommandView {
        match self {
            Command::WriteConfig { path, contents } => CommandView::WriteConfig {
                path: path@,
                contents: contents@,
            },
            Command::EnableForwarding => CommandView::EnableForwarding,
            Command::InterfaceUp { device } => CommandView::InterfaceUp { device: device@ },
            Command::InterfaceDown { device } => CommandView::InterfaceDown { device: device@ },
            Command::AddPeer { device, public_key, allowed_ips } => CommandView::AddPeer {
                device: device@,
                public_key: public_key@,
                allowed_ips: allowed_ips@,
            },
            Command::RemovePeer { device, public_key } => CommandView::RemovePeer {
                device: device@,
                public_key: public_key@,
            },
        }
    }
}

/// Where the driver expects the interface's configuration file.
pub open spec fn spec_conf_path(device: Seq<char>) -> Seq<char> {
    "/etc/wireguard/"@ + device + ".conf"@
}

/// The configuration file path for a device.
pub fn wg_config_path(device: &str) -> (r: String)
    ensures
        r@ == spec_conf_path(device@),
{
    let mut out = String::from_str("/etc/wireguard/");
    out.append(device);
    out.append(".conf");
    proof {
        assert(out@ =~= spec_conf_path(device@));
    }
    out
}

/// Plan for bringing the interface up: write the rendered
/// configuration, enable forwarding, start the interface.
pub fn up(server: &Server, device: &str) -> (r: Vec<Command>)
    requires
        server.wf(),
    ensures
        r@.len() == 3,
        r@[0]@ == (CommandView::WriteConfig {
            path: spec_conf_path(device@),
            contents: spec_server_conf(server@),
        }),
        r@[1]@ == CommandView::EnableForwarding,
        r@[2]@ == (CommandView::InterfaceUp { device: device@ }),
{
    let mut plan: Vec<Command> = Vec::new();
    plan.push(
        Command::WriteConfig { path: wg_config_path(device), contents: server.get_wg_config() },
    );
    plan.push(Command::EnableForwarding);
    plan.push(Command::InterfaceUp { device: String::from_str(device) });
    plan
}

/// Plan for tearing the interface down.
pub fn down(device: &str) -> (r: Vec<Command>)
    ensures
        r@.len() == 1,
        r@[0]@ == (CommandView::InterfaceDown { device: device@ }),
{
    let mut plan: Vec<Command> = Vec::new();
    plan.push(Command::InterfaceDown { device: String::from_str(device) });
    plan
}

/// Plan for an unconditional restart: write the configuration, tear
/// down, then bring up again.
pub fn reboot(server: &Server, device: &str) -> (r: Vec<Command>)
    requires
        server.wf(),
    ensures
        r@.len() == 4,
        r@[0]@ == (CommandView::WriteConfig {
            path: spec_conf_path(device@),
            contents: spec_server_conf(server@),
        }),
        r@[1]@ == (CommandView::InterfaceDown { device: device@ }),
        r@[2]@ == CommandView::EnableForwarding,
        r@[3]@ == (CommandView::InterfaceUp { device: device@ }),
{
    let mut plan: Vec<Command> = Vec::new();
    plan.push(
        Command::WriteConfig { path: wg_config_path(device), contents: server.get_wg_config() },
    );
    plan.push(Command::InterfaceDown { device: String::from_str(device) });
    plan.push(Command::EnableForwarding);
    plan.push(Command::InterfaceUp { device: String::from_str(device) });
    plan
}

/// Plan for starting the interface from an already-written
/// configuration file.
pub fn start_wg(device: &str) -> (r: Vec<Command>)
    ensures
        r@.len() == 2,
        r@[0]@ == CommandView::EnableForwarding,
        r@[1]@ == (CommandView::InterfaceUp { device: device@ }),
{
    let mut plan: Vec<Command> = Vec::new();
    plan.push(Command::EnableForwarding);
    plan.push(Command::InterfaceUp { device: String::from_str(device) });
    plan
}

/// Plan for stopping the interface.
pub fn stop_wg(device: &str) -> (r: Vec<Command>)
    ensures
        r@.len() == 1,
        r@[0]@ == (CommandView::InterfaceDown { device: device@ }),
{
    let mut plan: Vec<Command> = Vec::new();
    plan.push(Command::InterfaceDown { device: String::from_str(device) });
    plan
}

/// Plan for stopping and starting the interface again.
pub fn restart_wg(device: &str) -> (r: Vec<Command>)
    ensures
        r@.len() == 3,
        r@[0]@ == (CommandView::InterfaceDown { device: device@ }),
        r@[1]@ == CommandView::EnableForwarding,
        r@[2]@ == (CommandView::InterfaceUp { device: device@ }),
{
    let mut plan: Vec<Command> = Vec::new();
    plan.push(Command::InterfaceDown { device: String::from_str(device) });
    plan.push(Command::EnableForwarding);
    plan.push(Command::InterfaceUp { device: String::from_str(device) });
    plan
}

/// Adds a client to the model and plans the minimal live update: if
/// the interface is running, one hot peer addition; otherwise nothing,
/// the change waits for the next start.
pub fn add_client(server: &mut Server, device: &str, name: String, interface_running: bool) -> (r:
    Result<(usize, Vec<Command>), Error>)
    requires
        old(server).wf(),
    ensures
        final(server).wf(),
        final(server)@.subnet == old(server)@.subnet,
        final(server)@.endpoint == old(server)@.endpoint,
        final(server)@.port == old(server)@.port,
        final(server)@.network_interface == old(server)@.network_interface,
        final(server)@.keys == old(server)@.keys,
        match r {
            Ok(p) => {
                let (id, plan) = p;
                &&& spec_lowest_free(
                    map_of(old(server)@.clients),
                    spec_max_clients(old(server)@.subnet),
                ) == Some(id as int)
                &&& map_of(final(server)@.clients).contains_key(id as int)
                &&& map_of(final(server)@.clients)[id as int].id == id as int
                &&& map_of(final(server)@.clients)[id as int].name == name@
                &&& map_of(final(server)@.clients).remove(id as int) == map_of(
                    old(server)@.clients,
                )
                &&& final(server)@.clients.len() == old(server)@.clients.len() + 1
                &&& crate::crypto::keypair_consistent(
                    map_of(final(server)@.clients)[id as int].keys,
                )
                &&& (interface_running ==> plan@.len() == 1 && plan@[0]@ == (CommandView::AddPeer {
                    device: device@,
                    public_key: map_of(final(server)@.clients)[id as int].keys.public,
                    allowed_ips: ip_chars(
                        spec_nth(old(server)@.subnet, id as int + 2) as u32,
                    ) + "/32"@,
                }))
                &&& (!interface_running ==> plan@.len() == 0)
            },
            Err(e) => {
                &&& e is CapacityExceeded
                &&& spec_lowest_free(
                    map_of(old(server)@.clients),
                    spec_max_clients(old(server)@.subnet),
                ) is None
                &&& *final(server) == *old(server)
            },
        },
{
    let ghost nm = name@;
    let id = match server.add_client(name) {
        Ok(v) => v,
        Err(e) => {
            return Err(e);
        },
    };
    let mut plan: Vec<Command> = Vec::new();
    if interface_running {
        proof {
            lemma_first_free_bounds(
                map_of(old(server)@.clients),
                0,
                spec_max_clients(old(server)@.subnet),
            );
            lemma_max_clients_formula(server@.subnet);
        }
        let c = match server.get_client(id) {
            Ok(c) => c,
            Err(e) => {
                proof {
                    assert(false);
                }
                return Err(e);
            },
        };
        let mut allowed = c.get_ip_address(&server.subnet).render();
        allowed.append("/32");
        plan.push(
            Command::AddPeer {
                device: String::from_str(device),
                public_key: c.keys.public.clone(),
                allowed_ips: allowed,
            },
        );
        proof {
            assert(allowed@ =~= ip_chars(spec_nth(server@.subnet, id as int + 2) as u32)
                + "/32"@);
        }
    }
    Ok((id, plan))
}

/// Removes a client from the model and plans the minimal live update:
/// if the interface is running, one hot peer removal by public key.
pub fn remove_client(server: &mut Server, device: &str, id: usize, interface_running: bool) -> (r:
    Result<Vec<Command>, Error>)
    requires
        old(server).wf(),
    ensures
        final(server).wf(),
        final(server)@.subnet == old(server)@.subnet,
        final(server)@.endpoint == old(server)@.endpoint,
        final(server)@.port == old(server)@.port,
        final(server)@.network_interface == old(server)@.network_interface,
        final(server)@.keys == old(server)@.keys,
        match r {
            Ok(plan) => {
                &&& map_of(old(server)@.clients).contains_key(id as int)
                &&& map_of(final(server)@.clients) == map_of(old(server)@.clients).remove(
                    id as int,
                )
                &&& final(server)@.clients.len() == old(server)@.clients.len() - 1
                &&& (interface_running ==> plan@.len() == 1 && plan@[0]@
                    == (CommandView::RemovePeer {
                    device: device@,
                    public_key: map_of(old(server)@.clients)[id as int].keys.public,
                }))
                &&& (!interface_running ==> plan@.len() == 0)
            },
            Err(e) => {
                &&& e is NotFound
                &&& !map_of(old(server)@.clients).contains_key(id as int)
                &&& *final(server) == *old(server)
            },
        },
{
    let c = match server.remove_client(id) {
        Ok(v) => v,
        Err(e) => {
            return Err(e);
        },
    };
    let mut plan: Vec<Command> = Vec::new();
    if interface_running {
        plan.push(
            Command::RemovePeer {
                device: String::from_str(device),
                public_key: c.keys.public,
            },
        );
    }
    Ok(plan)
}

/// Does a client pass the optional name filter?
pub open spec fn matches_filter(c: ClientView, name: Option<Seq<char>>) -> bool {
    match name {
        Some(n) => c.name == n,
        None => true,
    }
}

/// The roster entries passing the filter, in roster order.
pub open spec fn spec_filtered(cs: Seq<ClientView>, name: Option<Seq<char>>) -> Seq<ClientView>
    decreases cs.len(),
{
    if cs.len() == 0 {
        Seq::empty()
    } else if matches_filter(cs.last(), name) {
        spec_filtered(cs.drop_last(), name).push(cs.last())
    } else {
        spec_filtered(cs.drop_last(), name)
    }
}

/// The clients of the roster, optionally only those with the given
/// name, in ascending id order.
pub fn list_clients(server: &Server, name: Option<&String>) -> (r: Vec<Client>)
    ensures
        r@.map_values(|c: Client| c@) == spec_filtered(
            server@.clients,
            match name {
                Some(n) => Some(n@),
                None => None,
            },
        ),
{
    let ghost cs = server@.clients;
    let ghost nv: Option<Seq<char>> = match name {
        Some(n) => Some(n@),
        None => None,
    };
    let mut out: Vec<Client> = Vec::new();
    let len = server.clients.len();
    let mut i: usize = 0;
    proof {
        assert(cs.subrange(0, 0) =~= Seq::<ClientView>::empty());
        assert(out@.map_values(|c: Client| c@) =~= spec_filtered(cs.subrange(0, 0), nv));
    }
    while i < len
        invariant
            len == server.clients@.len(),
            cs == server@.clients,
            nv == (match name {
                Some(n) => Some(n@),
                None => None,
            }),
            i <= len,
            out@.map_values(|c: Client| c@) == spec_filtered(cs.subrange(0, i as int), nv),
        decreases len - i,
    {
        let keep = match name {
            Some(n) => (*n).eq(&server.clients[i].name),
            None => true,
        };
        let ghost out0 = out@;
        if keep {
            out.push(server.clients[i].clone());
        }
        proof {
            assert(cs.subrange(0, i as int + 1).drop_last() =~= cs.subrange(0, i as int));
            assert(cs.subrange(0, i as int + 1).last() == cs[i as int]);
            assert(keep == matches_filter(cs[i as int], nv));
            if keep {
                assert(out@.map_values(|c: Client| c@) =~= out0.map_values(|c: Client| c@).push(
                    cs[i as int],
                ));
            }
        }
        i += 1;
    }
    proof {
        assert(cs.subrange(0, len as int) =~= cs);
    }
    out
}

/// The configuration text for one client, from the roster.
pub fn get_client_wg_config(server: &Server, id: usize) -> (r: Result<String, Error>)
    requires
        server.wf(),
    ensures
        match r {
            Ok(s) => {
                &&& map_of(server@.clients).contains_key(id as int)
                &&& s@ == crate::model::client::spec_client_conf(
                    map_of(server@.clients)[id as int],
                    server@,
                )
            },
            Err(e) => {
                &&& e is NotFound
                &&& !map_of(server@.clients).contains_key(id as int)
            },
        },
{
    server.get_client_wg_config(id)
}

} // verus!
