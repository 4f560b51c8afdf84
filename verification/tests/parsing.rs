use swarmban::net::{network_prefix_of, NetworkPrefix};
use swarmban::text::join_keys;
use swarmban::version::{check_api_version, VersionVerdict};
use swarmban::progress_in_range;

fn v4(o1: u8, o2: u8, o3: u8) -> NetworkPrefix {
    NetworkPrefix::V4 { o1, o2, o3 }
}

fn v6(g1: u16, g2: u16, g3: u16, g4: u16) -> NetworkPrefix {
    NetworkPrefix::V6 { g1, g2, g3, g4 }
}

#[test]
fn ipv4_truncates_to_slash_24() {
    assert_eq!(network_prefix_of("1.2.3.4"), Some(v4(1, 2, 3)));
    assert_eq!(network_prefix_of("255.255.255.255"), Some(v4(255, 255, 255)));
    assert_eq!(network_prefix_of("0.0.0.0"), Some(v4(0, 0, 0)));
    assert_eq!(network_prefix_of("192.168.1.77"), Some(v4(192, 168, 1)));
}

#[test]
fn bad_ipv4_is_rejected() {
    assert_eq!(network_prefix_of("256.1.1.1"), None);
    assert_eq!(network_prefix_of("01.2.3.4"), None);
    assert_eq!(network_prefix_of("1.2.3"), None);
    assert_eq!(network_prefix_of("1.2.3.4.5"), None);
    assert_eq!(network_prefix_of("1.2.3."), None);
    assert_eq!(network_prefix_of(".1.2.3.4"), None);
    assert_eq!(network_prefix_of("1.2.3.x"), None);
    assert_eq!(network_prefix_of(""), None);
    assert_eq!(network_prefix_of("not-an-ip"), None);
}

#[test]
fn ipv6_truncates_to_slash_64() {
    assert_eq!(
        network_prefix_of("2001:db8:1:2:3:4:5:6"),
        Some(v6(0x2001, 0xdb8, 1, 2))
    );
    assert_eq!(network_prefix_of("::1"), Some(v6(0, 0, 0, 0)));
    assert_eq!(network_prefix_of("::"), Some(v6(0, 0, 0, 0)));
    assert_eq!(network_prefix_of("fe80::1"), Some(v6(0xfe80, 0, 0, 0)));
    assert_eq!(network_prefix_of("1:2::3"), Some(v6(1, 2, 0, 0)));
    assert_eq!(network_prefix_of("1:2:3:4:5:6:7::"), Some(v6(1, 2, 3, 4)));
    assert_eq!(network_prefix_of("::1:2:3:4:5:6:7"), Some(v6(0, 1, 2, 3)));
    assert_eq!(network_prefix_of("1::"), Some(v6(1, 0, 0, 0)));
    assert_eq!(network_prefix_of("0:0:0:0:0:0:0:1"), Some(v6(0, 0, 0, 0)));
    assert_eq!(network_prefix_of("ABCD:ef01::"), Some(v6(0xabcd, 0xef01, 0, 0)));
}

#[test]
fn ipv6_with_embedded_ipv4() {
    assert_eq!(network_prefix_of("::ffff:192.168.1.1"), Some(v6(0, 0, 0, 0)));
    assert_eq!(
        network_prefix_of("1:2:3:4:5:6:7.8.9.10"),
        Some(v6(1, 2, 3, 4))
    );
    assert_eq!(network_prefix_of("64:ff9b::1.2.3.4"), Some(v6(0x64, 0xff9b, 0, 0)));
}

#[test]
fn bad_ipv6_is_rejected() {
    assert_eq!(network_prefix_of(":::"), None);
    assert_eq!(network_prefix_of("1::2::3"), None);
    assert_eq!(network_prefix_of("12345::"), None);
    assert_eq!(network_prefix_of("g::1"), None);
    assert_eq!(network_prefix_of("1:2:3:4:5:6:7"), None);
    assert_eq!(network_prefix_of("1:2:3:4:5:6:7:8:9"), None);
    assert_eq!(network_prefix_of("1:2:3:4:5:6:7:8::"), None);
    assert_eq!(network_prefix_of("1:2:3:4:5:6:7::8"), None);
    assert_eq!(network_prefix_of("1:2:3:1.2.3.4::"), None);
    assert_eq!(network_prefix_of("::ffff:1.2.3.4.5"), None);
    assert_eq!(network_prefix_of("1:"), None);
}

#[test]
fn version_gate_accepts_the_floor() {
    assert_eq!(check_api_version("2.3.0"), VersionVerdict::Supported);
    assert_eq!(check_api_version("2.3"), VersionVerdict::Supported);
    assert_eq!(check_api_version("2.8.3"), VersionVerdict::Supported);
    assert_eq!(check_api_version("3.0.0"), VersionVerdict::Supported);
    assert_eq!(check_api_version("02.03"), VersionVerdict::Supported);
}

#[test]
fn version_gate_refuses_old_versions() {
    assert_eq!(check_api_version("2.2.9"), VersionVerdict::TooOld);
    assert_eq!(check_api_version("1.9.9"), VersionVerdict::TooOld);
    assert_eq!(check_api_version("0.1"), VersionVerdict::TooOld);
    // a single component cannot meet the floor
    assert_eq!(check_api_version("2"), VersionVerdict::TooOld);
}

#[test]
fn version_gate_refuses_malformed_strings() {
    assert_eq!(check_api_version(""), VersionVerdict::Malformed);
    assert_eq!(check_api_version("abc"), VersionVerdict::Malformed);
    assert_eq!(check_api_version("2.x.0"), VersionVerdict::Malformed);
    assert_eq!(check_api_version("2..3"), VersionVerdict::Malformed);
    assert_eq!(check_api_version("2.3."), VersionVerdict::Malformed);
    assert_eq!(check_api_version(".2.3"), VersionVerdict::Malformed);
    assert_eq!(check_api_version("2.3.0\n"), VersionVerdict::Malformed);
    assert_eq!(check_api_version("2.-3"), VersionVerdict::Malformed);
    assert_eq!(check_api_version("99999999999.0"), VersionVerdict::Malformed);
}

#[test]
fn join_keys_uses_pipe_separator() {
    assert_eq!(join_keys(&vec![]), "");
    assert_eq!(join_keys(&vec!["1.2.3.4:80".to_string()]), "1.2.3.4:80");
    assert_eq!(
        join_keys(&vec![
            "a:1".to_string(),
            "b:2".to_string(),
            "c:3".to_string()
        ]),
        "a:1|b:2|c:3"
    );
}

#[test]
fn progress_fraction_bound_is_one() {
    assert!(progress_in_range(0));
    assert!(progress_in_range(1_000_000));
    assert!(!progress_in_range(1_000_001));
}
