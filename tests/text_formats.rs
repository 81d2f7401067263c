use neko_dns::display::format_rdata;
use neko_dns::hints::{parse_root_hints, root_addresses, HintsError};
use neko_dns::name::encode_name;
use neko_dns::types::RecordType;

#[test]
fn rdata_is_formatted_per_type() {
    assert_eq!(format_rdata(&RecordType::A, &[93, 184, 216, 34], &[]), "93.184.216.34");
    let v6 = [0x20, 0x01, 0x0d, 0xb8, 0, 0, 0, 0, 0, 0, 0, 0, 0, 0, 0, 1];
    assert_eq!(format_rdata(&RecordType::AAAA, &v6, &[]), "2001:db8:0:0:0:0:0:1");
    assert_eq!(format_rdata(&RecordType::NS, &encode_name("ns1.example.net"), &[]), "ns1.example.net");
    assert_eq!(format_rdata(&RecordType::CNAME, &[0xC0, 0x0C], &[]), "(binary 2 bytes)");
    let mut mx = vec![0, 10];
    mx.extend_from_slice(&encode_name("mail.example.com"));
    assert_eq!(format_rdata(&RecordType::MX, &mx, &[]), "10 mail.example.com");
    assert_eq!(format_rdata(&RecordType::MX, &[0, 5, 0xC0, 0x0C], &[]), "5 (binary)");
    assert_eq!(format_rdata(&RecordType::TXT, &[2, b'h', b'i', 1, b'!'], &[]), "\"hi!\"");
    assert_eq!(format_rdata(&RecordType::TXT, &[2, b'h', b'i', 9, b'x'], &[]), "\"hi\"");
    assert_eq!(format_rdata(&RecordType::A, &[1, 2, 3], &[]), "(binary 3 bytes)");
    assert_eq!(format_rdata(&RecordType::SOA, &[1; 7], &[]), "(binary 7 bytes)");
}

const HINTS: &str = "; root hints\n\
.                        3600000      NS    A.ROOT-SERVERS.NET.\n\
A.ROOT-SERVERS.NET.      3600000      A     198.41.0.4\n\
A.ROOT-SERVERS.NET.      3600000      AAAA  2001:503:ba3e::2:30\n\
.                        3600000      ns    B.ROOT-SERVERS.NET.\n\
B.ROOT-SERVERS.NET.      3600000      a     170.247.170.2\n\
.                        3600000      NS    C.ROOT-SERVERS.NET.\n\
\n\
   ; indented comment\n\
C.ROOT-SERVERS.NET.      3600000      A     192.33.4.012\n\
D.ROOT-SERVERS.NET.      3600000      A     199.7.91.13\n";

#[test]
fn root_hints_are_read() {
    let servers = parse_root_hints(HINTS).unwrap();
    let names: Vec<&str> = servers.iter().map(|s| s.name.as_str()).collect();
    assert_eq!(names, vec!["a.root-servers.net", "b.root-servers.net"]);
    assert_eq!(servers[0].ipv4, Some(u32::from_be_bytes([198, 41, 0, 4])));
    assert_eq!(servers[1].ipv4, Some(u32::from_be_bytes([170, 247, 170, 2])));
    let addrs = root_addresses(&servers);
    assert_eq!(addrs.len(), 2);
    assert!(addrs.iter().all(|a| a.port == 53));
}

#[test]
fn hints_without_addresses_are_an_error() {
    assert_eq!(parse_root_hints("; nothing\n\n").err(), Some(HintsError::NoRootServers));
    assert_eq!(parse_root_hints(". 1 NS x.\n").err(), Some(HintsError::NoRootServers));
    assert_eq!(parse_root_hints(". 1 NS x.\nx. 1 A 1.2.3.256\n").err(), Some(HintsError::NoRootServers));
}
