use localhosting::command;
use localhosting::command::add::AddOutcome;
use localhosting::{Connection, HostFile, HostingError, NetSH};

fn combos() -> Vec<(&'static str, &'static str)> {
    vec![
        ("127.0.0.1:8080", "one.test"),
        ("127.0.0.1:8080", "a.one.test"),
        ("127.0.0.1:8080", "b.one.test"),
        ("127.0.0.1:8081", "two.test"),
        ("127.0.0.1:8081", "a.two.test"),
        ("127.0.0.1:8082", "three.test"),
    ]
}

#[test]
fn add_successes() {
    let (mut netsh, mut hosts) = (NetSH::default(), HostFile::default());

    for (addr, host) in combos() {
        command::add::process(addr, host, &mut netsh, &mut hosts).unwrap();
    }

    // Attempt to add a duplicate (Should not add anything)
    let last = *combos().last().unwrap();
    command::add::process(last.0, last.1, &mut netsh, &mut hosts).unwrap();

    // Compare bridge listeners against ones which were attempted to add.
    for bridge in &netsh.bridges {
        let combo_count = combos()
            .iter()
            .filter(|(v, _)| bridge.connect_to == Connection::from_str(v).unwrap())
            .count();

        let registered_count = hosts.count_addresses(bridge.listen_to.address);

        assert_eq!(combo_count, registered_count, "Unique Bridge Listeners");
    }

    assert_eq!(3, netsh.bridges.len(), "Bridges Count (Unique addresses)");
    assert_eq!(6, hosts.items.len(), "Hosts Length (Unique Connections in Hosts File)");
}

// Host-name removal matches by substring, so removing "two.test" takes
// "a.two.test" with it and leaves nothing referencing that bridge.
#[test]
fn remove_successes() {
    let (mut netsh, mut hosts) = (NetSH::default(), HostFile::default());

    for (addr, host) in combos() {
        command::add::process(addr, host, &mut netsh, &mut hosts).unwrap();
    }

    // Start off with initial state. Should be correct.
    assert_eq!(3, netsh.bridges.len(), "[Initial] Bridges Count (Unique addresses)");
    assert_eq!(6, hosts.items.len(), "[Initial] Hosts Length (Unique Connections in Hosts File)");

    // Remove single host only
    command::remove::process("a.one.test", &mut netsh, &mut hosts).unwrap();

    assert_eq!(3, netsh.bridges.len(), "[1 Host Removal] Bridges Count (Unique addresses)");
    assert_eq!(
        5,
        hosts.items.len(),
        "[1 Host Removal] Hosts Length (Unique Connections in Hosts File)"
    );

    // Removes "two.test" and "a.two.test" (substring match), and with them
    // the bridge nothing references any more.
    command::remove::process("two.test", &mut netsh, &mut hosts).unwrap();

    assert_eq!(2, netsh.bridges.len(), "[2 Hosts Removal] Bridges Count (Unique addresses)");
    assert_eq!(
        3,
        hosts.items.len(),
        "[2 Hosts Removal] Hosts Length (Unique Connections in Hosts File)"
    );

    // Remove multiple hosts and bridge
    command::remove::process("127.0.0.1:8080", &mut netsh, &mut hosts).unwrap();

    assert_eq!(
        1,
        netsh.bridges.len(),
        "[2 Hosts + Bridge Removal] Bridges Count (Unique addresses)"
    );
    assert_eq!(
        1,
        hosts.items.len(),
        "[2 Hosts + Bridge Removal] Hosts Length (Unique Connections in Hosts File)"
    );
}

#[test]
fn add_failures() {
    //
}

#[test]
fn remove_failures() {
    //
}

// The reference-counted removal policy: a bridge goes only once its last
// registry entry does.
#[test]
fn scenario_reference_counted_removal() {
    let (mut netsh, mut hosts) = (NetSH::default(), HostFile::default());

    for (addr, host) in combos() {
        command::add::process(addr, host, &mut netsh, &mut hosts).unwrap();
    }
    assert_eq!(3, netsh.bridges.len());
    assert_eq!(6, hosts.items.len());

    // "a.two.test" goes, but "two.test" still references the bridge.
    command::remove::process("a.two.test", &mut netsh, &mut hosts).unwrap();
    assert_eq!(3, netsh.bridges.len());
    assert_eq!(5, hosts.items.len());

    // Now "two.test" alone matches, and its bridge follows it.
    command::remove::process("two.test", &mut netsh, &mut hosts).unwrap();
    assert_eq!(2, netsh.bridges.len());
    assert_eq!(4, hosts.items.len());

    // Removal by endpoint takes every entry on the bridge's listen address.
    command::remove::process("127.0.0.1:8080", &mut netsh, &mut hosts).unwrap();
    assert_eq!(1, netsh.bridges.len());
    assert_eq!(1, hosts.items.len());
    assert_eq!("three.test", hosts.items[0].host);
}

#[test]
fn add_idempotent_pair() {
    let (mut netsh, mut hosts) = (NetSH::default(), HostFile::default());

    let r1 = command::add::process("127.0.0.1:8080", "one.test", &mut netsh, &mut hosts).unwrap();
    assert_eq!(AddOutcome::AddedNew, r1);
    assert_eq!(1, netsh.bridges.len());
    assert_eq!(1, hosts.items.len());

    let r2 = command::add::process("127.0.0.1:8080", "one.test", &mut netsh, &mut hosts).unwrap();
    assert_eq!(AddOutcome::AlreadyExists, r2);
    assert_eq!(1, netsh.bridges.len());
    assert_eq!(1, hosts.items.len());
}

#[test]
fn add_shares_bridge() {
    let (mut netsh, mut hosts) = (NetSH::default(), HostFile::default());

    let r1 = command::add::process("127.0.0.1:8080", "one.test", &mut netsh, &mut hosts).unwrap();
    assert_eq!(AddOutcome::AddedNew, r1);
    let r2 =
        command::add::process("127.0.0.1:8080", "other.test", &mut netsh, &mut hosts).unwrap();
    assert_eq!(AddOutcome::AddedExisting, r2);

    assert_eq!(1, netsh.bridges.len());
    assert_eq!(2, hosts.items.len());
    let listen = netsh.bridges[0].listen_to.address;
    assert_eq!(listen, hosts.items[0].address);
    assert_eq!(listen, hosts.items[1].address);
}

#[test]
fn add_compensation_on_registry_fault() {
    let (mut netsh, mut hosts) = (NetSH::default(), HostFile::default());
    hosts.uses_host_file = true;
    hosts.write_fault = true;

    let r = command::add::process("127.0.0.1:9000", "fault.test", &mut netsh, &mut hosts);
    assert_eq!(Err(HostingError::Io), r);

    // The bridge created inside the failed call was compensated away.
    assert_eq!(0, netsh.bridges.len());
    assert_eq!(0, hosts.items.len());
}

#[test]
fn add_fault_keeps_preexisting_bridge() {
    let (mut netsh, mut hosts) = (NetSH::default(), HostFile::default());
    command::add::process("127.0.0.1:9000", "first.test", &mut netsh, &mut hosts).unwrap();
    assert_eq!(1, netsh.bridges.len());

    hosts.uses_host_file = true;
    hosts.write_fault = true;
    let r = command::add::process("127.0.0.1:9000", "second.test", &mut netsh, &mut hosts);
    assert_eq!(Err(HostingError::Io), r);

    // Only the bridge a failing call itself created may be dropped.
    assert_eq!(1, netsh.bridges.len());
    assert_eq!(1, hosts.items.len());
}

#[test]
fn remove_fault_changes_nothing() {
    let (mut netsh, mut hosts) = (NetSH::default(), HostFile::default());
    command::add::process("127.0.0.1:9000", "first.test", &mut netsh, &mut hosts).unwrap();

    hosts.uses_host_file = true;
    hosts.write_fault = true;
    let r = command::remove::process("first.test", &mut netsh, &mut hosts);
    assert_eq!(Err(HostingError::Io), r);
    assert_eq!(1, netsh.bridges.len());
    assert_eq!(1, hosts.items.len());
}

#[test]
fn add_rejects_malformed_address() {
    let (mut netsh, mut hosts) = (NetSH::default(), HostFile::default());
    let r = command::add::process("127.0.0.1", "one.test", &mut netsh, &mut hosts);
    assert_eq!(Err(HostingError::Parse), r);
    let r = command::remove::process("127.0.0.1:", &mut netsh, &mut hosts);
    assert_eq!(Err(HostingError::Parse), r);
    assert_eq!(0, netsh.bridges.len());
    assert_eq!(0, hosts.items.len());
}

#[test]
fn remove_missing_endpoint_is_benign() {
    let (mut netsh, mut hosts) = (NetSH::default(), HostFile::default());
    command::add::process("127.0.0.1:9000", "first.test", &mut netsh, &mut hosts).unwrap();
    command::remove::process("127.0.0.1:9001", &mut netsh, &mut hosts).unwrap();
    command::remove::process("absent.test", &mut netsh, &mut hosts).unwrap();
    assert_eq!(1, netsh.bridges.len());
    assert_eq!(1, hosts.items.len());
}
