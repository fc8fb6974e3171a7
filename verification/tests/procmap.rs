use curb::addr::{IpAddr, Ipv4Addr, Ipv6Addr};
use curb::monitor::connections::{describe, list_connections};
use curb::monitor::procmap::{
    parse_hex_endpoint, parse_net_row, process_id, read_exe, socket_inode, ProcMap, Proto,
    SocketOwners,
};

#[test]
fn parses_ipv4_endpoint_little_endian() {
    let (ip, port) = parse_hex_endpoint("0100007F:0050").unwrap();
    assert_eq!(ip, IpAddr::V4(Ipv4Addr::new(127, 0, 0, 1)));
    assert_eq!(port, 80);
}

#[test]
fn parses_ipv6_loopback() {
    let (ip, port) = parse_hex_endpoint("00000000000000000000000001000000:1F90").unwrap();
    assert_eq!(ip, IpAddr::V6(Ipv6Addr { bits: 1 }));
    assert_eq!(port, 8080);
}

#[test]
fn endpoints_that_are_not_addresses() {
    assert!(parse_hex_endpoint("0100007F").is_none());
    assert!(parse_hex_endpoint("0100007F:10000").is_none());
    assert!(parse_hex_endpoint("0100007:0050").is_none());
    assert!(parse_hex_endpoint("0100007G:0050").is_none());
    assert!(parse_hex_endpoint("ééééééééééééééééééééééééééééééé1:0050").is_none());
}

#[test]
fn process_tree_names() {
    assert_eq!(process_id("4711"), Some(4711));
    assert_eq!(process_id("self"), None);
    assert_eq!(process_id("4294967296"), None);
    assert_eq!(read_exe("/usr/bin/app (deleted)".to_string()), "/usr/bin/app");
    assert_eq!(read_exe("/usr/bin/app".to_string()), "/usr/bin/app");
    assert_eq!(socket_inode("socket:[12345]"), Some(12345));
    assert_eq!(socket_inode("pipe:[12345]"), None);
    assert_eq!(socket_inode("socket:[12345"), None);
    assert_eq!(socket_inode("socket:[x]"), None);
}

const HEAD: &str = "  sl  local_address rem_address   st tx_queue rx_queue tr tm->when retrnsmt   uid  timeout inode\n";

fn line(local: &str, remote: &str, state: &str, inode: u64) -> String {
    format!("   0: {local} {remote} {state} 00000000:00000000 00:00000000 00000000  1000        0 {inode} 1 0 100 0\n")
}

fn owners() -> SocketOwners {
    let mut o = SocketOwners::new();
    o.add(11, "/usr/bin/firefox", 100);
    o.add(12, "/usr/bin/firefox", 101);
    o.add(13, "/usr/bin/firefox", 100);
    o.add(14, "/usr/bin/curl", 200);
    o.add(14, "/usr/bin/other", 201);
    o.add(15, "", 300);
    o
}

fn ip(a: u8, b: u8, c: u8, d: u8) -> IpAddr {
    IpAddr::V4(Ipv4Addr::new(a, b, c, d))
}

#[test]
fn lookup_goes_from_the_exact_flow_to_the_port() {
    // 192.168.0.5 and 1.1.1.1, written as the kernel does.
    let tcp = format!(
        "{HEAD}{}{}{}{}",
        line("0500A8C0:C350", "01010101:01BB", "01", 11),
        line("0500A8C0:C350", "00000000:0000", "0A", 14),
        line("0500A8C0:C351", "01010101:01BB", "01", 99),
        line("0500A8C0:C352", "01010101:01BB", "01", 0),
    );
    let pm = ProcMap::build(&owners(), &vec![(Proto::Tcp, tcp)]);
    let exact = pm.lookup(Proto::Tcp, ip(192, 168, 0, 5), 50000, ip(1, 1, 1, 1), 443).unwrap();
    assert_eq!((exact.exe.as_str(), exact.pid), ("/usr/bin/firefox", 100));
    let listening = pm.lookup(Proto::Tcp, ip(192, 168, 0, 5), 50000, ip(0, 0, 0, 0), 0).unwrap();
    assert_eq!(listening.exe, "/usr/bin/curl");
    // The first row of a local endpoint counts.
    let endpoint = pm.lookup(Proto::Tcp, ip(192, 168, 0, 5), 50000, ip(9, 9, 9, 9), 1).unwrap();
    assert_eq!(endpoint.exe, "/usr/bin/firefox");
    let port = pm.lookup(Proto::Tcp, ip(10, 0, 0, 1), 50000, ip(9, 9, 9, 9), 1).unwrap();
    assert_eq!(port.exe, "/usr/bin/firefox");
    assert!(pm.lookup(Proto::Udp, ip(192, 168, 0, 5), 50000, ip(1, 1, 1, 1), 443).is_none());
    assert!(pm.lookup(Proto::Tcp, ip(192, 168, 0, 5), 50001, ip(1, 1, 1, 1), 443).is_none());
    assert!(pm.lookup(Proto::Tcp, ip(192, 168, 0, 5), 50002, ip(1, 1, 1, 1), 443).is_none());
}

#[test]
fn processes_are_counted_once() {
    let pm = ProcMap::build(&owners(), &Vec::new());
    assert_eq!(pm.pids_for("/usr/bin/firefox"), 2);
    assert_eq!(pm.pids_for("/usr/bin/curl"), 1);
    assert_eq!(pm.pids_for("/usr/bin/other"), 0);
    assert_eq!(pm.pids_for(""), 0);
}

#[test]
fn rows_need_ten_fields() {
    assert!(parse_net_row("0: 0500A8C0:C350 01010101:01BB 01 0 0 0 0 0").is_none());
    let row = parse_net_row("0: 0500A8C0:C350 01010101:01BB 01 0 0 0 0 0 77").unwrap();
    assert_eq!((row.local_port, row.rem_port, row.inode), (50000, 443, 77));
}

#[test]
fn connections_carry_owner_and_state() {
    let tcp = format!(
        "{HEAD}{}{}",
        line("0500A8C0:C350", "01010101:01BB", "01", 11),
        line("0500A8C0:C352", "01010101:01BB", "06", 0),
    );
    let udp = format!("{HEAD}{}", line("00000000:0035", "00000000:0000", "07", 14));
    let list = list_connections(&owners(), &vec![(Proto::Tcp, tcp), (Proto::Udp, udp)]);
    assert_eq!(list.len(), 3);
    let a = describe(&list[0], "192.168.0.5", "1.1.1.1");
    assert_eq!(a.exe, "/usr/bin/firefox");
    assert_eq!(a.name, "firefox");
    assert_eq!(a.pid, 100);
    assert_eq!(a.proto, "TCP");
    assert_eq!(a.local_addr, "192.168.0.5:50000");
    assert_eq!(a.remote_addr, "1.1.1.1:443");
    assert_eq!(a.state, "ESTABLISHED");
    let b = describe(&list[1], "192.168.0.5", "1.1.1.1");
    assert_eq!((b.exe.as_str(), b.name.as_str(), b.pid), ("", "?", 0));
    assert_eq!(b.state, "TIME_WAIT");
    let c = describe(&list[2], "0.0.0.0", "0.0.0.0");
    assert_eq!((c.proto.as_str(), c.state.as_str(), c.pid), ("UDP", "UDP", 200));
}
