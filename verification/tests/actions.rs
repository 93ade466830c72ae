use wglib::actions::{self, Command};
use wglib::crypto::KeyPair;
use wglib::ip::Subnet;
use wglib::Error;
use wglib::Server;

fn sample_server() -> Server {
    let mut server = Server::new(
        Subnet::parse("10.0.0.0/24").unwrap(),
        "vpn.example.com".to_string(),
        51820,
        "eth0".to_string(),
    );
    server.keys = KeyPair {
        private: "priv-server".to_string(),
        public: "pub-server".to_string(),
    };
    server
}

#[test]
fn wg_config_path_is_under_etc_wireguard() {
    assert_eq!(actions::wg_config_path("wg0"), "/etc/wireguard/wg0.conf");
    assert_eq!(actions::wg_config_path("tun1"), "/etc/wireguard/tun1.conf");
}

#[test]
fn up_plan_writes_enables_and_starts() {
    let server = sample_server();
    let plan = actions::up(&server, "wg0");
    assert_eq!(plan.len(), 3);
    if let Command::WriteConfig { path, contents } = &plan[0] {
        assert_eq!(path, "/etc/wireguard/wg0.conf");
        assert_eq!(contents, &server.get_wg_config());
    } else {
        panic!("expected a config write first");
    }
    assert!(matches!(&plan[1], Command::EnableForwarding));
    if let Command::InterfaceUp { device } = &plan[2] {
        assert_eq!(device, "wg0");
    } else {
        panic!("expected a bring-up last");
    }
}

#[test]
fn up_twice_renders_identical_text() {
    // bringing an interface up twice on unchanged state writes the
    // same bytes both times
    let server = sample_server();
    let first = actions::up(&server, "wg0");
    let second = actions::up(&server, "wg0");
    match (&first[0], &second[0]) {
        (
            Command::WriteConfig { contents: a, .. },
            Command::WriteConfig { contents: b, .. },
        ) => assert_eq!(a, b),
        _ => panic!("expected config writes"),
    }
}

#[test]
fn down_and_stop_plans() {
    let plan = actions::down("wg0");
    assert_eq!(plan.len(), 1);
    assert!(matches!(&plan[0], Command::InterfaceDown { .. }));
    let plan = actions::stop_wg("wg0");
    assert_eq!(plan.len(), 1);
    assert!(matches!(&plan[0], Command::InterfaceDown { .. }));
}

#[test]
fn reboot_plan_tears_down_then_starts() {
    let server = sample_server();
    let plan = actions::reboot(&server, "wg0");
    assert_eq!(plan.len(), 4);
    assert!(matches!(&plan[0], Command::WriteConfig { .. }));
    assert!(matches!(&plan[1], Command::InterfaceDown { .. }));
    assert!(matches!(&plan[2], Command::EnableForwarding));
    assert!(matches!(&plan[3], Command::InterfaceUp { .. }));
}

#[test]
fn start_and_restart_plans() {
    let plan = actions::start_wg("wg0");
    assert_eq!(plan.len(), 2);
    assert!(matches!(&plan[0], Command::EnableForwarding));
    assert!(matches!(&plan[1], Command::InterfaceUp { .. }));
    let plan = actions::restart_wg("wg0");
    assert_eq!(plan.len(), 3);
    assert!(matches!(&plan[0], Command::InterfaceDown { .. }));
    assert!(matches!(&plan[1], Command::EnableForwarding));
    assert!(matches!(&plan[2], Command::InterfaceUp { .. }));
}

#[test]
fn add_client_hot_update_only_while_running() {
    let mut server = sample_server();
    // interface down: nothing to do live
    let (id, plan) = actions::add_client(&mut server, "wg0", "alice".to_string(), false).unwrap();
    assert_eq!(id, 0);
    assert!(plan.is_empty());
    // interface up: one hot peer addition with the fresh key
    let (id, plan) = actions::add_client(&mut server, "wg0", "bob".to_string(), true).unwrap();
    assert_eq!(id, 1);
    assert_eq!(plan.len(), 1);
    if let Command::AddPeer { device, public_key, allowed_ips } = &plan[0] {
        assert_eq!(device, "wg0");
        assert_eq!(public_key, &server.get_client(1).unwrap().keys.public);
        assert_eq!(allowed_ips, "10.0.0.3/32");
    } else {
        panic!("expected a hot peer addition");
    }
}

#[test]
fn remove_client_hot_update_carries_the_key() {
    let mut server = sample_server();
    actions::add_client(&mut server, "wg0", "alice".to_string(), false).unwrap();
    let removed_key = server.get_client(0).unwrap().keys.public.clone();
    let plan = actions::remove_client(&mut server, "wg0", 0, true).unwrap();
    assert_eq!(plan.len(), 1);
    if let Command::RemovePeer { device, public_key } = &plan[0] {
        assert_eq!(device, "wg0");
        assert_eq!(public_key, &removed_key);
    } else {
        panic!("expected a hot peer removal");
    }
    assert!(matches!(
        actions::remove_client(&mut server, "wg0", 0, true),
        Err(Error::NotFound)
    ));
}

#[test]
fn add_client_fails_cleanly_at_capacity() {
    let mut server = Server::new(
        Subnet::parse("10.0.0.0/30").unwrap(),
        "e".to_string(),
        1,
        "eth0".to_string(),
    );
    actions::add_client(&mut server, "wg0", "only".to_string(), false).unwrap();
    assert!(matches!(
        actions::add_client(&mut server, "wg0", "more".to_string(), true),
        Err(Error::CapacityExceeded)
    ));
    assert_eq!(server.clients.len(), 1);
}

#[test]
fn list_clients_with_and_without_filter() {
    let mut server = sample_server();
    server.add_client("alice".to_string()).unwrap();
    server.add_client("bob".to_string()).unwrap();
    server.add_client("alice".to_string()).unwrap();
    let all = actions::list_clients(&server, None);
    assert_eq!(all.len(), 3);
    assert_eq!(all[0].id, 0);
    assert_eq!(all[1].id, 1);
    assert_eq!(all[2].id, 2);
    let name = "alice".to_string();
    let alices = actions::list_clients(&server, Some(&name));
    assert_eq!(alices.len(), 2);
    assert_eq!(alices[0].id, 0);
    assert_eq!(alices[1].id, 2);
    let nobody = actions::list_clients(&server, Some(&"nobody".to_string()));
    assert!(nobody.is_empty());
}

#[test]
fn free_function_matches_method() {
    let mut server = sample_server();
    server.add_client("alice".to_string()).unwrap();
    assert_eq!(
        actions::get_client_wg_config(&server, 0).unwrap(),
        server.get_client_wg_config(0).unwrap()
    );
    assert!(matches!(
        actions::get_client_wg_config(&server, 5),
        Err(Error::NotFound)
    ));
}
