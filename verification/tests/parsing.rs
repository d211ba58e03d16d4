use localhosting::command;
use localhosting::command::test::TestResolution;
use localhosting::{Connection, HostFile, HostingError, Ipv4, NetSH, ProxyBridge};

#[test]
fn connection_from_str_reads_endpoint_text() {
    let c = Connection::from_str("127.0.0.1:8080").unwrap();
    assert_eq!(Ipv4 { o0: 127, o1: 0, o2: 0, o3: 1 }, c.address);
    assert_eq!(8080, c.port);

    let c = Connection::from_str("10.20.30.40:65535").unwrap();
    assert_eq!(Ipv4 { o0: 10, o1: 20, o2: 30, o3: 40 }, c.address);
    assert_eq!(65535, c.port);
}

#[test]
fn connection_text_round_trip() {
    for text in ["127.0.0.1:8080", "0.0.0.0:1", "255.255.255.255:65535", "10.2.0.30:80"] {
        let c = Connection::from_str(text).unwrap();
        assert_eq!(text, c.to_text());
        assert_eq!(Ok(c), Connection::from_str(&c.to_text()));
    }
}

#[test]
fn connection_from_str_rejects_malformed_text() {
    assert_eq!(Err(HostingError::Parse), Connection::from_str("nocolon"));
    assert_eq!(Err(HostingError::Parse), Connection::from_str("1.2.3:80"));
    assert_eq!(Err(HostingError::Parse), Connection::from_str("1.2.3.4.5:80"));
    assert_eq!(Err(HostingError::Parse), Connection::from_str("256.0.0.1:80"));
    assert_eq!(Err(HostingError::Parse), Connection::from_str("127.0.0.1:99999"));
    assert_eq!(Err(HostingError::Parse), Connection::from_str("127.0.0.1:"));
    assert_eq!(Err(HostingError::Parse), Connection::from_str(":80"));
    assert_eq!(Err(HostingError::Parse), Connection::from_str("127.0.O.1:80"));
}

#[test]
fn host_file_read_parses_records() {
    let text = "# comment line\n\n127.0.0.5 one.test\n127.0.0.6 two.test#trailing\n127.0.0.7 three.test # managed\nlonetoken\n";
    let hf = HostFile::read(text).unwrap();
    assert!(hf.uses_host_file);
    assert_eq!(3, hf.items.len());
    assert_eq!(Ipv4 { o0: 127, o1: 0, o2: 0, o3: 5 }, hf.items[0].address);
    assert_eq!("one.test", hf.items[0].host);
    assert_eq!("two.test", hf.items[1].host);
    assert_eq!("three.test", hf.items[2].host);
}

#[test]
fn host_file_read_rejects_bad_address() {
    assert_eq!(
        Err(HostingError::Parse),
        HostFile::read("badaddr one.test\n").map(|hf| hf.items.len())
    );
}

#[test]
fn netsh_new_parses_list_output() {
    let out = "Listen on ipv4:             Connect to ipv4:\r\n\r\nAddress         Port        Address         Port\r\n--------------- ----------  --------------- ----------\r\n127.0.0.5       80          127.0.0.1       8080\r\n127.0.0.9       80          127.0.0.1       8081\r\n";
    let n = NetSH::new(out).unwrap();
    assert_eq!(2, n.bridges.len());
    assert_eq!(Connection::from_str("127.0.0.5:80").unwrap(), n.bridges[0].listen_to);
    assert_eq!(Connection::from_str("127.0.0.1:8080").unwrap(), n.bridges[0].connect_to);
    assert_eq!(Connection::from_str("127.0.0.9:80").unwrap(), n.bridges[1].listen_to);
    assert_eq!(Connection::from_str("127.0.0.1:8081").unwrap(), n.bridges[1].connect_to);
}

#[test]
fn netsh_new_without_separator_is_empty() {
    let n = NetSH::new("no separator line here\njust words\n").unwrap();
    assert_eq!(0, n.bridges.len());
}

#[test]
fn netsh_new_rejects_malformed_data_line() {
    let r = NetSH::new("----\n127.0.0.5 80 127.0.0.1\n").map(|n| n.bridges.len());
    assert_eq!(Err(HostingError::Parse), r);
}

#[test]
fn proxy_bridge_command_word() {
    assert_eq!("v4tov4", ProxyBridge::V4ToV4.into_str());
}

#[test]
fn allocate_gives_up_without_attempts() {
    let netsh = NetSH::default();
    assert_eq!(Err(HostingError::AddressSpaceExhausted), netsh.allocate(0));
}

#[test]
fn allocate_avoids_reserved_block_and_existing_bridges() {
    let (mut netsh, mut hosts) = (NetSH::default(), HostFile::default());
    command::add::process("127.0.0.1:8080", "one.test", &mut netsh, &mut hosts).unwrap();
    command::add::process("127.0.0.1:8081", "two.example", &mut netsh, &mut hosts).unwrap();

    for _ in 0..32 {
        let a = netsh.allocate(4096).unwrap();
        assert_eq!(127, a.o0);
        assert!(!(a.o1 == 0 && a.o2 == 0));
        for b in &netsh.bridges {
            assert_ne!(b.listen_to.address, a);
        }
    }
}

#[test]
fn list_pairs_bridges_with_their_entries() {
    let (mut netsh, mut hosts) = (NetSH::default(), HostFile::default());
    command::add::process("127.0.0.1:8080", "one.test", &mut netsh, &mut hosts).unwrap();
    command::add::process("127.0.0.1:8080", "a.one.test", &mut netsh, &mut hosts).unwrap();
    command::add::process("127.0.0.1:8081", "two.example", &mut netsh, &mut hosts).unwrap();

    let rows = command::list::process(&netsh, &hosts);
    assert_eq!(2, rows.len());
    assert_eq!(Connection::from_str("127.0.0.1:8080").unwrap(), rows[0].bridge.connect_to);
    assert_eq!(2, rows[0].hosts.len());
    assert_eq!("one.test", rows[0].hosts[0].host);
    assert_eq!("a.one.test", rows[0].hosts[1].host);
    assert_eq!(Connection::from_str("127.0.0.1:8081").unwrap(), rows[1].bridge.connect_to);
    assert_eq!(1, rows[1].hosts.len());
    assert_eq!("two.example", rows[1].hosts[0].host);
}

#[test]
fn probe_resolves_by_endpoint_and_by_host() {
    let (mut netsh, mut hosts) = (NetSH::default(), HostFile::default());
    command::add::process("127.0.0.1:8080", "one.test", &mut netsh, &mut hosts).unwrap();
    command::add::process("127.0.0.1:8080", "a.one.test", &mut netsh, &mut hosts).unwrap();

    match command::test::process("127.0.0.1:8080", &netsh, &hosts).unwrap() {
        TestResolution::Found(items, bridge) => {
            assert_eq!(2, items.len());
            assert_eq!("one.test", items[0].host);
            assert_eq!(Connection::from_str("127.0.0.1:8080").unwrap(), bridge.connect_to);
        },
        _ => panic!("expected a resolution"),
    }

    match command::test::process("one.test", &netsh, &hosts).unwrap() {
        TestResolution::Found(items, bridge) => {
            assert_eq!(1, items.len());
            assert_eq!("one.test", items[0].host);
            assert_eq!(Connection::from_str("127.0.0.1:8080").unwrap(), bridge.connect_to);
        },
        _ => panic!("expected a resolution"),
    }
}

#[test]
fn probe_reports_each_missing_piece() {
    let (mut netsh, mut hosts) = (NetSH::default(), HostFile::default());
    command::add::process("127.0.0.1:8080", "one.test", &mut netsh, &mut hosts).unwrap();

    assert!(matches!(
        command::test::process("127.0.0.9:7777", &netsh, &hosts).unwrap(),
        TestResolution::AddressNotFound
    ));
    assert!(matches!(
        command::test::process("absent.test", &netsh, &hosts).unwrap(),
        TestResolution::HostNotFound
    ));

    hosts
        .add(Ipv4 { o0: 127, o1: 9, o2: 9, o3: 9 }, String::from("dangling.test"))
        .unwrap();
    assert!(matches!(
        command::test::process("dangling.test", &netsh, &hosts).unwrap(),
        TestResolution::BridgeNotFound
    ));

    hosts.items.clear();
    assert!(matches!(
        command::test::process("127.0.0.1:8080", &netsh, &hosts).unwrap(),
        TestResolution::NoHosts
    ));

    assert_eq!(
        Err(HostingError::Parse),
        command::test::process("127.0.0.1:x", &netsh, &hosts).map(|_| ())
    );
}
