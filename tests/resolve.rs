use get_ip::{
    find_ip_by_regex, first_non_loopback, local_ip_from_output, parse_ip_address, parse_ipv4,
    parse_ipv6, public_ip_from_output, IpAddr, IpError, Ipv4Addr, Ipv6Addr, Platform, UNIX_PATTERN,
    WINDOWS_PATTERN,
};

const IFCONFIG: &str = "eth0: flags=4163<UP,BROADCAST,RUNNING,MULTICAST>  mtu 1500
        inet 172.17.0.2  netmask 255.255.0.0  broadcast 0.0.0.0
        inet6 fe80::42:acff:fe11:2  prefixlen 64  scopeid 0x20<link>
        ether 02:42:ac:11:00:02  txqueuelen 0  (Ethernet)
        RX packets 20775  bytes 151512533 (144.4 MiB)

lo: flags=73<UP,LOOPBACK,RUNNING>  mtu 65536
        inet 127.0.0.1  netmask 255.0.0.0
        inet6 ::1  prefixlen 128  scopeid 0x10<host>
        loop  txqueuelen 1000  (Local Loopback)
";

const IPCONFIG: &str = "Windows IP Configuration
Ethernet adapter Ethernet:
   Media State . . . . . . . . . . . : Media disconnected
   Connection-specific DNS Suffix  . : home

Wireless LAN adapter Wi-Fi:
   Connection-specific DNS Suffix  . : home
   Link-local IPv6 Address . . . . . : fe80::9091:50fe:cf97:9af6%11
   IPv4 Address. . . . . . . . . . . : 192.168.1.47
   Subnet Mask . . . . . . . . . . . : 255.255.255.0
   Default Gateway . . . . . . . . . : 192.168.1.1
";

fn v4(a: u8, b: u8, c: u8, d: u8) -> IpAddr {
    IpAddr::V4(Ipv4Addr::new(a, b, c, d))
}

fn local(text: &str) -> Result<Option<IpAddr>, IpError> {
    local_ip_from_output(text.as_bytes().to_vec(), Platform::Unix)
}

#[test]
fn ifconfig_output_gives_first_non_loopback() {
    assert_eq!(local(IFCONFIG), Ok(Some(v4(172, 17, 0, 2))));
}

#[test]
fn ifconfig_loopback_first_is_skipped() {
    let text = "lo: flags=73<UP,LOOPBACK,RUNNING>  mtu 65536
        inet 127.0.0.1  netmask 255.0.0.0
wlan0: flags=4163<UP,BROADCAST,RUNNING,MULTICAST>  mtu 1500
        inet 192.168.1.124  netmask 255.255.255.0  broadcast 192.168.1.255
";
    assert_eq!(local(text), Ok(Some(v4(192, 168, 1, 124))));
}

#[test]
fn old_ifconfig_addr_prefix() {
    let text = "eth0      Link encap:Ethernet
          inet addr:10.0.2.15  Bcast:10.0.2.255  Mask:255.255.255.0
";
    assert_eq!(local(text), Ok(Some(v4(10, 0, 2, 15))));
}

#[test]
fn ipconfig_output_gives_ipv4_address() {
    let r = local_ip_from_output(IPCONFIG.as_bytes().to_vec(), Platform::Windows);
    assert_eq!(r, Ok(Some(v4(192, 168, 1, 47))));
}

#[test]
fn only_loopback_gives_nothing() {
    assert_eq!(local("inet 127.0.0.1 netmask 255.0.0.0\n"), Ok(None));
}

#[test]
fn loopback_then_lan_address() {
    let text = "inet 127.0.0.1 netmask 255.0.0.0\ninet 192.168.1.47 netmask 255.255.255.0\n";
    assert_eq!(local(text), Ok(Some(v4(192, 168, 1, 47))));
}

#[test]
fn whole_loopback_block_is_skipped() {
    let text = "inet 127.0.1.1 x\ninet 10.1.2.3 y\n";
    assert_eq!(local(text), Ok(Some(v4(10, 1, 2, 3))));
}

#[test]
fn empty_output_gives_nothing() {
    assert_eq!(local(""), Ok(None));
    assert_eq!(local_ip_from_output(Vec::new(), Platform::Windows), Ok(None));
}

#[test]
fn malformed_output_gives_nothing() {
    assert_eq!(local("inet 999.1.1.1 netmask\ninet 1.2.3 x\ninet ...\n"), Ok(None));
    assert_eq!(local("garbage without addresses"), Ok(None));
}

#[test]
fn non_utf8_output_is_an_error() {
    let r = local_ip_from_output(vec![0x69, 0x6e, 0xff, 0xfe], Platform::Unix);
    assert_eq!(r, Err(IpError::InvalidUtf8));
}

#[test]
fn invalid_pattern_is_an_error() {
    assert_eq!(find_ip_by_regex("inet (", "inet 1.2.3.4"), Err(IpError::InvalidPattern));
}

#[test]
fn find_with_given_patterns() {
    assert_eq!(find_ip_by_regex(UNIX_PATTERN, IFCONFIG), Ok(Some(v4(172, 17, 0, 2))));
    assert_eq!(find_ip_by_regex(WINDOWS_PATTERN, IPCONFIG), Ok(Some(v4(192, 168, 1, 47))));
    assert_eq!(find_ip_by_regex(WINDOWS_PATTERN, IFCONFIG), Ok(None));
}

#[test]
fn first_non_loopback_in_order() {
    let hosts = vec![
        None,
        Some("127.0.0.1".to_string()),
        Some("300.1.1.1".to_string()),
        Some("172.16.0.9".to_string()),
        Some("10.0.0.1".to_string()),
    ];
    assert_eq!(first_non_loopback(&hosts), Some(v4(172, 16, 0, 9)));
    assert_eq!(first_non_loopback(&Vec::new()), None);
    assert_eq!(first_non_loopback(&vec![Some("127.0.0.1".to_string())]), None);
}

#[test]
fn parse_dotted_quads() {
    assert_eq!(parse_ipv4("192.168.1.124"), Some(Ipv4Addr::new(192, 168, 1, 124)));
    assert_eq!(parse_ipv4("0.0.0.0"), Some(Ipv4Addr::new(0, 0, 0, 0)));
    assert_eq!(parse_ipv4("255.255.255.255"), Some(Ipv4Addr::new(255, 255, 255, 255)));
    assert_eq!(parse_ipv4("8.80.200.9"), Some(Ipv4Addr::new(8, 80, 200, 9)));
}

#[test]
fn reject_malformed_dotted_quads() {
    for s in [
        "", "1.2.3", "1.2.3.4.", ".1.2.3", "1.2.3.4.5", "256.1.1.1", "1.2.3.300", "01.2.3.4",
        "1.2.3.00", "1..3.4", " 1.2.3.4", "1.2.3.4 ", "1.2.3.a", "1234.1.1.1", "+1.2.3.4",
    ] {
        assert_eq!(parse_ipv4(s), None, "{}", s);
    }
}

fn v6(g: [u16; 8]) -> Ipv6Addr {
    Ipv6Addr { s0: g[0], s1: g[1], s2: g[2], s3: g[3], s4: g[4], s5: g[5], s6: g[6], s7: g[7] }
}

#[test]
fn parse_ip_address_v4_and_v6() {
    assert_eq!(parse_ip_address("176.42.134.158"), Some(v4(176, 42, 134, 158)));
    assert_eq!(parse_ip_address("176.42.134.158\n"), None);
    assert_eq!(parse_ip_address("::1"), Some(IpAddr::V6(v6([0, 0, 0, 0, 0, 0, 0, 1]))));
    assert_eq!(parse_ip_address("not an address"), None);
}

#[test]
fn parse_ipv6_forms() {
    let cases: [(&str, [u16; 8]); 10] = [
        ("::", [0; 8]),
        ("::1", [0, 0, 0, 0, 0, 0, 0, 1]),
        ("1::", [1, 0, 0, 0, 0, 0, 0, 0]),
        ("2001:db8::8a2e:370:7334", [0x2001, 0xdb8, 0, 0, 0, 0x8a2e, 0x370, 0x7334]),
        (
            "2001:0DB8:0000:0000:0000:ff00:0042:8329",
            [0x2001, 0xdb8, 0, 0, 0, 0xff00, 0x42, 0x8329],
        ),
        ("::ffff:192.168.1.1", [0, 0, 0, 0, 0, 0xffff, 0xc0a8, 0x0101]),
        ("1:2:3:4:5:6:1.2.3.4", [1, 2, 3, 4, 5, 6, 0x0102, 0x0304]),
        ("1:2:3:4:5:6:7::", [1, 2, 3, 4, 5, 6, 7, 0]),
        ("::2:3:4:5:6:7:8", [0, 2, 3, 4, 5, 6, 7, 8]),
        ("fe80::9091:50fe:cf97:9af6", [0xfe80, 0, 0, 0, 0x9091, 0x50fe, 0xcf97, 0x9af6]),
    ];
    for (text, segs) in cases {
        assert_eq!(parse_ipv6(text), Some(v6(segs)), "{}", text);
        assert_eq!(parse_ipv6(text).unwrap().segments(), segs);
    }
}

#[test]
fn reject_malformed_ipv6() {
    for s in [
        "", ":", ":::", "1:::2", "1::2::3", ":1::2", "1:2:3:4:5:6:7", "1:2:3:4:5:6:7:8:9",
        "1:2:3:4:5:6:7:8::", "12345::", "1.2.3.4::", "1:2:3:4:5:6::1.2.3.4", "g::", "::1.2.3",
        "::01.2.3.4", "1:2:3:4:5:6:7:1.2.3.4", "::1 ", "1.2.3.4",
    ] {
        assert_eq!(parse_ipv6(s), None, "{}", s);
    }
}

#[test]
fn address_methods() {
    let ip = Ipv4Addr::new(127, 0, 0, 1);
    assert!(ip.is_loopback());
    assert!(Ipv4Addr::new(127, 255, 3, 4).is_loopback());
    assert!(!Ipv4Addr::new(128, 0, 0, 1).is_loopback());
    assert_eq!(Ipv4Addr::new(1, 2, 3, 4).octets(), [1, 2, 3, 4]);
}

#[test]
fn public_body_is_the_address() {
    let r = public_ip_from_output(b"176.42.134.158".to_vec());
    assert_eq!(r, Ok(v4(176, 42, 134, 158)));
}

#[test]
fn public_body_is_trimmed() {
    let r = public_ip_from_output(b"  176.42.134.158\r\n".to_vec());
    assert_eq!(r, Ok(v4(176, 42, 134, 158)));
}

#[test]
fn public_body_ipv6() {
    let r = public_ip_from_output(b"2001:db8::1\n".to_vec());
    assert_eq!(r, Ok(IpAddr::V6(v6([0x2001, 0xdb8, 0, 0, 0, 0, 0, 1]))));
}

#[test]
fn public_body_errors() {
    assert_eq!(public_ip_from_output(Vec::new()), Err(IpError::NotAnAddress));
    assert_eq!(public_ip_from_output(b"<html>busy</html>".to_vec()), Err(IpError::NotAnAddress));
    assert_eq!(public_ip_from_output(b"1.2.3.4 5.6.7.8".to_vec()), Err(IpError::NotAnAddress));
    assert_eq!(public_ip_from_output(vec![0x31, 0xc0, 0x80]), Err(IpError::InvalidUtf8));
}
