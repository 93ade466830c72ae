use wglib::clients::get_clients_impl;
use wglib::crypto::KeyPair;
use wglib::ip::{Ipv4Address, Subnet};
use wglib::metrics::{get_metrics, get_seconds_from_now, parse_line};
use wglib::model::client::Client;
use wglib::num::u64_to_dec;
use wglib::Error;
use wglib::Server;

#[test]
fn decimal_rendering_is_canonical() {
    assert_eq!(u64_to_dec(0), "0");
    assert_eq!(u64_to_dec(7), "7");
    assert_eq!(u64_to_dec(51820), "51820");
    assert_eq!(u64_to_dec(u64::MAX), "18446744073709551615");
}

#[test]
fn parse_line_reads_the_four_columns() {
    let line = "pk1\t(none)\t1.2.3.4:51820\t10.0.0.2/32\t1700000000\t1000\t2000\t25";
    let (pk, handshake, rx, tx) = parse_line(line).unwrap();
    assert_eq!(pk, "pk1");
    assert_eq!(handshake, 1700000000);
    assert_eq!(rx, 1000);
    assert_eq!(tx, 2000);
}

#[test]
fn parse_line_handles_large_counters() {
    // byte counters may exceed 64 bits
    let line = "k a b c 5 340282366920938463463374607431768211455 7 0";
    let (_, _, rx, tx) = parse_line(line).unwrap();
    assert_eq!(rx, u128::MAX);
    assert_eq!(tx, 7);
}

#[test]
fn parse_line_rejects_malformed_lines() {
    assert!(matches!(parse_line(""), Err(Error::ParseError)));
    assert!(matches!(parse_line("one two three"), Err(Error::ParseError)));
    assert!(matches!(
        parse_line("k a b c notanumber 1 2"),
        Err(Error::ParseError)
    ));
    assert!(matches!(
        parse_line("k a b c 12x 1 2"),
        Err(Error::ParseError)
    ));
}

#[test]
fn seconds_from_now_clamps_at_zero() {
    assert_eq!(get_seconds_from_now(100, 40), 60);
    assert_eq!(get_seconds_from_now(100, 100), 0);
    assert_eq!(get_seconds_from_now(100, 200), 0);
}

#[test]
fn get_metrics_drops_the_header_line() {
    let dump = "srvpriv\tsrvpub\t51820\toff\n\
                pk1\t(none)\t1.2.3.4:5\t10.0.0.2/32\t1700000000\t10\t20\t25\n\
                pk2\t(none)\t5.6.7.8:9\t10.0.0.3/32\t1700000050\t30\t40\t25\n";
    let metrics = get_metrics(dump, 1700000100).unwrap();
    assert_eq!(metrics.len(), 2);
    assert_eq!(metrics[0].public_key, "pk1");
    assert_eq!(metrics[0].latest_handshake, 100);
    assert_eq!(metrics[0].received_bytes, 10);
    assert_eq!(metrics[0].sent_bytes, 20);
    assert_eq!(metrics[1].public_key, "pk2");
    assert_eq!(metrics[1].latest_handshake, 50);
    assert_eq!(metrics[1].received_bytes, 30);
    assert_eq!(metrics[1].sent_bytes, 40);
}

#[test]
fn get_metrics_of_header_only_dump_is_empty() {
    assert!(get_metrics("srvpriv\tsrvpub\t51820\toff\n", 1000).unwrap().is_empty());
    assert!(get_metrics("", 1000).unwrap().is_empty());
}

#[test]
fn get_metrics_fails_on_a_malformed_peer_line() {
    let dump = "header\npk1 a b c nonsense 1 2\n";
    assert!(matches!(get_metrics(dump, 0), Err(Error::ParseError)));
}

#[test]
fn status_join_matches_by_public_key() {
    let server = Server {
        subnet: Subnet::parse("10.0.0.0/24").unwrap(),
        endpoint: "e".to_string(),
        port: 1,
        network_interface: "eth0".to_string(),
        keys: KeyPair { private: "sp".to_string(), public: "sq".to_string() },
        clients: vec![
            Client {
                id: 0,
                name: "alice".to_string(),
                keys: KeyPair { private: "a".to_string(), public: "pk-a".to_string() },
            },
            Client {
                id: 1,
                name: "bob".to_string(),
                keys: KeyPair { private: "b".to_string(), public: "pk-b".to_string() },
            },
        ],
    };
    let dump = "header\n\
                pk-b x x x 50 500 600 25\n\
                pk-unknown x x x 60 1 2 25\n\
                pk-a x x x 70 700 800 25\n";
    let metrics = get_metrics(dump, 100).unwrap();
    let rows = get_clients_impl(&server, &metrics);
    // rows come in metrics order; the unknown key is dropped
    assert_eq!(rows.len(), 2);
    assert_eq!(rows[0].id, 1);
    assert_eq!(rows[0].name, "bob");
    assert_eq!(rows[0].ip, Ipv4Address::from_octets(10, 0, 0, 3));
    assert_eq!(rows[0].last_connected, 50);
    assert_eq!(rows[0].uploaded, 500);
    assert_eq!(rows[0].downloaded, 600);
    assert_eq!(rows[1].id, 0);
    assert_eq!(rows[1].name, "alice");
    assert_eq!(rows[1].ip, Ipv4Address::from_octets(10, 0, 0, 2));
    assert_eq!(rows[1].last_connected, 30);
    assert_eq!(rows[1].uploaded, 700);
    assert_eq!(rows[1].downloaded, 800);
}
