use wglib::ip::{Ipv4Address, Subnet};
use wglib::crypto::KeyPair;
use wglib::model::client::Client;
use wglib::Error;
use wglib::Server;

fn subnet(text: &str) -> Subnet {
    Subnet::parse(text).unwrap()
}

fn fixed_keys(tag: &str) -> KeyPair {
    KeyPair {
        private: format!("priv-{}", tag),
        public: format!("pub-{}", tag),
    }
}

#[test]
fn subnet_parse_and_render() {
    let sn = subnet("10.0.0.0/24");
    assert_eq!(sn.addr, 0x0A000000);
    assert_eq!(sn.prefix, 24);
    assert_eq!(sn.render(), "10.0.0.0/24");
    let sn2 = subnet("192.168.1.5/30");
    assert_eq!(sn2.addr, 0xC0A80105);
    assert_eq!(sn2.prefix, 30);
    assert_eq!(sn2.render(), "192.168.1.5/30");
}

#[test]
fn subnet_parse_rejects_malformed() {
    assert!(matches!(Subnet::parse("10.0.0.0"), Err(Error::ParseError)));
    assert!(matches!(Subnet::parse("10.0.0/24"), Err(Error::ParseError)));
    assert!(matches!(Subnet::parse("10.0.0.256/24"), Err(Error::ParseError)));
    assert!(matches!(Subnet::parse("10.0.0.0/33"), Err(Error::ParseError)));
    assert!(matches!(Subnet::parse("10.0.0.0/24x"), Err(Error::ParseError)));
    assert!(matches!(Subnet::parse(""), Err(Error::ParseError)));
}

#[test]
fn max_clients_follows_formula() {
    // 2^(32-prefix) - 3 for every prefix that leaves room
    let s24 = Server::new(subnet("10.0.0.0/24"), "e".to_string(), 1, "eth0".to_string());
    assert_eq!(s24.max_number_of_clients(), 253);
    let s29 = Server::new(subnet("10.0.0.0/29"), "e".to_string(), 1, "eth0".to_string());
    assert_eq!(s29.max_number_of_clients(), 5);
    let s30 = Server::new(subnet("10.0.0.0/30"), "e".to_string(), 1, "eth0".to_string());
    assert_eq!(s30.max_number_of_clients(), 1);
    let s16 = Server::new(subnet("172.16.0.0/16"), "e".to_string(), 1, "eth0".to_string());
    assert_eq!(s16.max_number_of_clients(), 65533);
}

#[test]
fn add_client_succeeds_exactly_capacity_times() {
    // a /29 leaves room for exactly five clients
    let mut server = Server::new(subnet("10.0.0.0/29"), "e".to_string(), 1, "eth0".to_string());
    for expected in 0..5usize {
        let id = server.add_client(format!("c{}", expected)).unwrap();
        assert_eq!(id, expected);
    }
    assert!(matches!(
        server.add_client("one-too-many".to_string()),
        Err(Error::CapacityExceeded)
    ));
    assert_eq!(server.clients.len(), 5);
}

#[test]
fn slash_thirty_holds_one_client() {
    let mut server = Server::new(subnet("10.0.0.0/30"), "e".to_string(), 1, "eth0".to_string());
    assert_eq!(server.add_client("first".to_string()).unwrap(), 0);
    assert!(matches!(
        server.add_client("second".to_string()),
        Err(Error::CapacityExceeded)
    ));
}

#[test]
fn client_addresses_are_deterministic() {
    // under 10.0.0.0/24, client id i sits at 10.0.0.(i+2)
    let sn = subnet("10.0.0.0/24");
    for id in [0usize, 1, 7, 252] {
        let c = Client {
            id,
            name: "n".to_string(),
            keys: fixed_keys("x"),
        };
        let ip = c.get_ip_address(&sn);
        assert_eq!(ip, Ipv4Address::from_octets(10, 0, 0, (id + 2) as u8));
    }
}

#[test]
fn id_reuse_takes_lowest_free_id() {
    let mut server = Server::new(subnet("10.0.0.0/24"), "e".to_string(), 1, "eth0".to_string());
    assert_eq!(server.add_client("alice".to_string()).unwrap(), 0);
    assert_eq!(server.add_client("bob".to_string()).unwrap(), 1);
    assert_eq!(server.add_client("carol".to_string()).unwrap(), 2);
    let removed = server.remove_client(1).unwrap();
    assert_eq!(removed.id, 1);
    assert_eq!(removed.name, "bob");
    // 1 is now the lowest free id, whatever the new name is
    assert_eq!(server.add_client("dave".to_string()).unwrap(), 1);
    assert_eq!(server.add_client("erin".to_string()).unwrap(), 3);
}

#[test]
fn add_remove_add_scenario() {
    // the documented walk-through under 10.0.0.0/24
    let mut server = Server::new(
        subnet("10.0.0.0/24"),
        "vpn.example.com".to_string(),
        51820,
        "eth0".to_string(),
    );
    assert_eq!(server.max_number_of_clients(), 253);
    let a = server.add_client("alice".to_string()).unwrap();
    assert_eq!(a, 0);
    assert_eq!(
        server.get_client(a).unwrap().get_ip_address(&server.subnet),
        Ipv4Address::from_octets(10, 0, 0, 2)
    );
    let b = server.add_client("bob".to_string()).unwrap();
    assert_eq!(b, 1);
    assert_eq!(
        server.get_client(b).unwrap().get_ip_address(&server.subnet),
        Ipv4Address::from_octets(10, 0, 0, 3)
    );
    server.remove_client(0).unwrap();
    let c = server.add_client("carol".to_string()).unwrap();
    assert_eq!(c, 0);
    assert_eq!(
        server.get_client(c).unwrap().get_ip_address(&server.subnet),
        Ipv4Address::from_octets(10, 0, 0, 2)
    );
}

#[test]
fn remove_and_get_report_missing_ids() {
    let mut server = Server::new(subnet("10.0.0.0/24"), "e".to_string(), 1, "eth0".to_string());
    assert!(matches!(server.remove_client(0), Err(Error::NotFound)));
    assert!(matches!(server.get_client(7), Err(Error::NotFound)));
    server.add_client("a".to_string()).unwrap();
    assert!(matches!(server.get_client(0), Ok(_)));
    assert!(matches!(server.get_client_wg_config(9), Err(Error::NotFound)));
}

#[test]
fn generated_keys_look_like_keys() {
    let kp = KeyPair::generate();
    assert_eq!(kp.private.chars().count(), 44);
    assert_eq!(kp.public.chars().count(), 44);
    assert_ne!(kp.private, kp.public);
    // both halves decode to 32 raw bytes
    assert_eq!(wglib::crypto::decode_base64(&kp.private).unwrap().len(), 32);
    assert_eq!(wglib::crypto::decode_base64(&kp.public).unwrap().len(), 32);
}

#[test]
fn decode_base64_known_value() {
    assert_eq!(wglib::crypto::decode_base64("AQID").unwrap(), vec![1u8, 2, 3]);
    assert!(matches!(
        wglib::crypto::decode_base64("not base64!"),
        Err(Error::ParseError)
    ));
}

#[test]
fn server_config_text_is_exact() {
    let server = Server {
        subnet: subnet("10.0.0.0/24"),
        endpoint: "vpn.example.com".to_string(),
        port: 51820,
        network_interface: "eth0".to_string(),
        keys: fixed_keys("server"),
        clients: vec![Client {
            id: 0,
            name: "alice".to_string(),
            keys: fixed_keys("a"),
        }],
    };
    let expected = "[Interface]\nAddress = 10.0.0.1/24\nPostUp = iptables -A FORWARD -i %i -j ACCEPT; iptables -t nat -A POSTROUTING -o eth0 -j MASQUERADE\nPostDown = iptables -D FORWARD -i %i -j ACCEPT; iptables -t nat -D POSTROUTING -o eth0 -j MASQUERADE\nListenPort = 51820\nPrivateKey = priv-server\n\n[Peer]\nPublicKey = pub-a\nAllowedIPs = 10.0.0.2/32\n\n";
    assert_eq!(server.get_wg_config(), expected);
}

#[test]
fn client_config_text_is_exact() {
    let server = Server {
        subnet: subnet("10.0.0.0/24"),
        endpoint: "vpn.example.com".to_string(),
        port: 51820,
        network_interface: "eth0".to_string(),
        keys: fixed_keys("server"),
        clients: vec![Client {
            id: 0,
            name: "alice".to_string(),
            keys: fixed_keys("a"),
        }],
    };
    let expected = "[Interface]\nAddress = 10.0.0.2\nPrivateKey = priv-a\nDNS = 8.8.8.8\n\n[Peer]\nPublicKey = pub-server\nEndpoint = vpn.example.com:51820\nAllowedIPs = 0.0.0.0/0\nPersistentKeepalive = 25\n";
    assert_eq!(server.get_client_wg_config(0).unwrap(), expected);
}

#[test]
fn config_text_sections_after_removal() {
    // after add/add/remove/add, exactly one interface section and two
    // peer sections remain
    let mut server = Server::new(
        subnet("10.0.0.0/24"),
        "vpn.example.com".to_string(),
        51820,
        "eth0".to_string(),
    );
    server.add_client("alice".to_string()).unwrap();
    server.add_client("bob".to_string()).unwrap();
    server.remove_client(0).unwrap();
    server.add_client("carol".to_string()).unwrap();
    let text = server.get_wg_config();
    assert_eq!(text.matches("[Interface]").count(), 1);
    assert_eq!(text.matches("[Peer]").count(), 2);
    assert!(text.starts_with("[Interface]\n"));
}

#[test]
fn rendering_is_deterministic() {
    let mut server = Server::new(subnet("10.0.0.0/24"), "e".to_string(), 1, "eth0".to_string());
    server.add_client("a".to_string()).unwrap();
    let first = server.get_wg_config();
    let second = server.get_wg_config();
    assert_eq!(first, second);
}

#[test]
fn error_descriptions_are_informative() {
    assert_eq!(
        Error::CapacityExceeded.describe(),
        "no enough space for new clients"
    );
    assert_eq!(
        Error::NotFound.describe(),
        "client with the given id doesn't exist"
    );
    assert_eq!(Error::ParseError.describe(), "config file is not well-formed");
    assert_eq!(Error::IoError.describe(), "filesystem read or write failed");
    let err = Error::ExternalCommandError {
        command: "wg-quick".to_string(),
        code: 3,
    };
    assert_eq!(err.describe(), "wg-quick failed with exit code: 3");
    let err = Error::ExternalCommandError {
        command: "wg".to_string(),
        code: -1,
    };
    assert_eq!(err.describe(), "wg failed with exit code: -1");
}
