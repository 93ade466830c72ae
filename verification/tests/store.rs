use wglib::crypto::KeyPair;
use wglib::ip::Subnet;
use wglib::model::client::Client;
use wglib::Error;
use wglib::Server;

fn sample_server() -> Server {
    Server {
        subnet: Subnet::parse("10.0.0.0/24").unwrap(),
        endpoint: "vpn.example.com".to_string(),
        port: 51820,
        network_interface: "eth0".to_string(),
        keys: KeyPair {
            private: "priv-server".to_string(),
            public: "pub-server".to_string(),
        },
        clients: vec![
            Client {
                id: 0,
                name: "alice".to_string(),
                keys: KeyPair {
                    private: "priv-a".to_string(),
                    public: "pub-a".to_string(),
                },
            },
            Client {
                id: 2,
                name: "carol".to_string(),
                keys: KeyPair {
                    private: "priv-c".to_string(),
                    public: "pub-c".to_string(),
                },
            },
        ],
    }
}

fn assert_servers_equal(a: &Server, b: &Server) {
    assert_eq!(a.subnet, b.subnet);
    assert_eq!(a.endpoint, b.endpoint);
    assert_eq!(a.port, b.port);
    assert_eq!(a.network_interface, b.network_interface);
    assert_eq!(a.keys.private, b.keys.private);
    assert_eq!(a.keys.public, b.keys.public);
    assert_eq!(a.clients.len(), b.clients.len());
    for (x, y) in a.clients.iter().zip(b.clients.iter()) {
        assert_eq!(x.id, y.id);
        assert_eq!(x.name, y.name);
        assert_eq!(x.keys.private, y.keys.private);
        assert_eq!(x.keys.public, y.keys.public);
    }
}

#[test]
fn dump_is_exact_canonical_json() {
    let server = sample_server();
    let expected = "{\"subnetCidr\":\"10.0.0.0/24\",\"endpoint\":\"vpn.example.com\",\"port\":51820,\"networkInterface\":\"eth0\",\"keys\":{\"private\":\"priv-server\",\"public\":\"pub-server\"},\"clients\":{\"0\":{\"id\":0,\"name\":\"alice\",\"keys\":{\"private\":\"priv-a\",\"public\":\"pub-a\"}},\"2\":{\"id\":2,\"name\":\"carol\",\"keys\":{\"private\":\"priv-c\",\"public\":\"pub-c\"}}}}";
    assert_eq!(server.dump_config(), expected);
}

#[test]
fn load_of_dump_restores_every_field() {
    let server = sample_server();
    let text = server.dump_config();
    let loaded = Server::from_config(&text).unwrap();
    assert_servers_equal(&server, &loaded);
}

#[test]
fn round_trip_survives_awkward_names() {
    let mut server = sample_server();
    server.clients[0].name = "quote \" backslash \\ and \u{00fc}nicode".to_string();
    server.endpoint = "host \"quoted\"".to_string();
    let text = server.dump_config();
    let loaded = Server::from_config(&text).unwrap();
    assert_servers_equal(&server, &loaded);
}

#[test]
fn round_trip_of_empty_roster() {
    let mut server = sample_server();
    server.clients.clear();
    let text = server.dump_config();
    let loaded = Server::from_config(&text).unwrap();
    assert_servers_equal(&server, &loaded);
}

#[test]
fn round_trip_after_mutations() {
    let mut server = Server::new(
        Subnet::parse("10.0.0.0/28").unwrap(),
        "host".to_string(),
        4242,
        "eno1".to_string(),
    );
    server.add_client("alice".to_string()).unwrap();
    server.add_client("bob".to_string()).unwrap();
    server.remove_client(0).unwrap();
    let text = server.dump_config();
    let loaded = Server::from_config(&text).unwrap();
    assert_servers_equal(&server, &loaded);
}

#[test]
fn load_rejects_malformed_documents() {
    assert!(matches!(Server::from_config(""), Err(Error::ParseError)));
    assert!(matches!(Server::from_config("garbage"), Err(Error::ParseError)));
    assert!(matches!(Server::from_config("{}"), Err(Error::ParseError)));
    // trailing garbage
    let mut text = sample_server().dump_config();
    text.push('x');
    assert!(matches!(Server::from_config(&text), Err(Error::ParseError)));
}

#[test]
fn load_rejects_out_of_range_ids() {
    // id 300 does not fit a /24 roster
    let text = "{\"subnetCidr\":\"10.0.0.0/24\",\"endpoint\":\"e\",\"port\":1,\"networkInterface\":\"eth0\",\"keys\":{\"private\":\"p\",\"public\":\"q\"},\"clients\":{\"300\":{\"id\":300,\"name\":\"n\",\"keys\":{\"private\":\"a\",\"public\":\"b\"}}}}";
    assert!(matches!(Server::from_config(text), Err(Error::ParseError)));
}

#[test]
fn load_rejects_unordered_ids() {
    let text = "{\"subnetCidr\":\"10.0.0.0/24\",\"endpoint\":\"e\",\"port\":1,\"networkInterface\":\"eth0\",\"keys\":{\"private\":\"p\",\"public\":\"q\"},\"clients\":{\"2\":{\"id\":2,\"name\":\"x\",\"keys\":{\"private\":\"a\",\"public\":\"b\"}},\"1\":{\"id\":1,\"name\":\"y\",\"keys\":{\"private\":\"c\",\"public\":\"d\"}}}}";
    assert!(matches!(Server::from_config(text), Err(Error::ParseError)));
}

#[test]
fn load_rejects_tight_subnets() {
    // a /31 leaves no room for the server and a client
    let text = "{\"subnetCidr\":\"10.0.0.0/31\",\"endpoint\":\"e\",\"port\":1,\"networkInterface\":\"eth0\",\"keys\":{\"private\":\"p\",\"public\":\"q\"},\"clients\":{}}";
    assert!(matches!(Server::from_config(text), Err(Error::ParseError)));
}
