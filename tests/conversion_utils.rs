use notiplogger::{ip_to_u32, u32_to_ip};

#[test]
fn test_localhost() {
    let ip_str = String::from("127.0.0.1");

    let ip_dec = ip_to_u32(ip_str.clone()).unwrap();

    assert_eq!(ip_dec, 2130706433);
    assert_eq!(u32_to_ip(ip_dec), ip_str);
}

#[test]
fn test_ignores_port() {
    let ip_str = String::from("127.0.0.1:8080");

    let ip_dec = ip_to_u32(ip_str.clone()).unwrap();

    assert_eq!(ip_dec, 2130706433);
}

#[test]
fn test_private_ip() {
    let ip_str = String::from("192.168.66.133");

    let ip_dec = ip_to_u32(ip_str.clone()).unwrap();

    assert_eq!(ip_dec, 3232252549);
    assert_eq!(u32_to_ip(ip_dec), ip_str);
}

#[test]
fn round_trip_of_extremes() {
    for k in [0u32, 1, 255, 256, 65535, 16777216, 4294967295, 167772161] {
        let text = u32_to_ip(k);
        assert_eq!(ip_to_u32(text), Some(k));
    }
    assert_eq!(u32_to_ip(0), "0.0.0.0");
    assert_eq!(u32_to_ip(4294967295), "255.255.255.255");
    assert_eq!(u32_to_ip(167772161), "10.0.0.1");
}

#[test]
fn text_round_trip() {
    for s in ["8.8.4.4", "255.0.255.0", "1.22.133.4", "0.0.0.0"] {
        let k = ip_to_u32(s.to_string()).unwrap();
        assert_eq!(u32_to_ip(k), s);
    }
}

#[test]
fn rejects_too_few_octets() {
    assert_eq!(ip_to_u32("127.0.1".to_string()), None);
    assert_eq!(ip_to_u32("".to_string()), None);
    assert_eq!(ip_to_u32(":8080".to_string()), None);
}

#[test]
fn rejects_too_many_octets() {
    assert_eq!(ip_to_u32("1.2.3.4.5".to_string()), None);
}

#[test]
fn rejects_non_numeric_octets() {
    assert_eq!(ip_to_u32("127.0.0.a".to_string()), None);
    assert_eq!(ip_to_u32("127..0.1".to_string()), None);
    assert_eq!(ip_to_u32("127.0.0.".to_string()), None);
    assert_eq!(ip_to_u32("+1.0.0.1".to_string()), None);
    assert_eq!(ip_to_u32("::1".to_string()), None);
}

#[test]
fn rejects_octets_above_255() {
    assert_eq!(ip_to_u32("256.0.0.1".to_string()), None);
    assert_eq!(ip_to_u32("1.2.3.1000".to_string()), None);
    assert_eq!(ip_to_u32("99999999999.0.0.1".to_string()), None);
}

#[test]
fn accepts_leading_zeros_and_port() {
    assert_eq!(ip_to_u32("010.000.000.001".to_string()), Some(167772161));
    assert_eq!(ip_to_u32("192.168.66.133:443".to_string()), Some(3232252549));
}

#[test]
fn rejects_empty_octets() {
    assert_eq!(ip_to_u32("1..3.4".to_string()), None);
    assert_eq!(ip_to_u32(".1.2.3".to_string()), None);
    assert_eq!(ip_to_u32("1.2.3.4.".to_string()), None);
    assert_eq!(ip_to_u32("1.a.3.4".to_string()), None);
    assert_eq!(ip_to_u32("-1.2.3.4".to_string()), None);
}
