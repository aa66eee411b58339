use roagen::Cidr;
use roagen::FilterRule;
use roagen::IpAddress;
use roagen::RecordError;
use roagen::Resolution;
use roagen::add_filter_rules;
use roagen::lower_bytes;
use roagen::parse_filter_line;
use roagen::parse_ipv4;
use roagen::parse_ipv6;
use roagen::parse_record;
use roagen::parse_u8;
use roagen::resolve;
use roagen::split_bytes;
use roagen::tokenize;
use roagen::upper_bytes;

#[test]
fn split_on_separator() {
    let r = split_bytes(b"a,b,,c", b',');
    assert_eq!(r, vec![b"a".to_vec(), b"b".to_vec(), b"".to_vec(), b"c".to_vec()]);
    assert_eq!(split_bytes(b"", b','), vec![b"".to_vec()]);
    assert_eq!(split_bytes(b"abc", b','), vec![b"abc".to_vec()]);
}

#[test]
fn tokenize_whitespace() {
    let r = tokenize(b"  route:\t10.0.0.0/8  x ");
    assert_eq!(r, vec![b"route:".to_vec(), b"10.0.0.0/8".to_vec(), b"x".to_vec()]);
    assert_eq!(tokenize(b"   "), Vec::<Vec<u8>>::new());
}

#[test]
fn case_folding() {
    assert_eq!(lower_bytes(b"Route6: AS7_x"), b"route6: as7_x".to_vec());
    assert_eq!(upper_bytes(b"as100"), b"AS100".to_vec());
}

#[test]
fn parse_u8_values() {
    assert_eq!(parse_u8(b"0"), Some(0));
    assert_eq!(parse_u8(b"255"), Some(255));
    assert_eq!(parse_u8(b"007"), Some(7));
    assert_eq!(parse_u8(b"256"), None);
    assert_eq!(parse_u8(b"99999999999999999999"), None);
    assert_eq!(parse_u8(b""), None);
    assert_eq!(parse_u8(b"1a"), None);
    assert_eq!(parse_u8(b"-1"), None);
}

#[test]
fn ipv4_literals() {
    assert_eq!(parse_ipv4(b"10.0.0.0"), Some(0x0a000000));
    assert_eq!(parse_ipv4(b"192.0.2.1"), Some(0xc0000201));
    assert_eq!(parse_ipv4(b"255.255.255.255"), Some(0xffffffff));
    assert_eq!(parse_ipv4(b"0.0.0.0"), Some(0));
    assert_eq!(parse_ipv4(b"1.2.3"), None);
    assert_eq!(parse_ipv4(b"1.2.3.4.5"), None);
    assert_eq!(parse_ipv4(b"256.0.0.1"), None);
    assert_eq!(parse_ipv4(b"01.0.0.0"), None);
    assert_eq!(parse_ipv4(b"1.2.3.x"), None);
    assert_eq!(parse_ipv4(b""), None);
}

#[test]
fn ipv6_literals() {
    assert_eq!(parse_ipv6(b"::"), Some(0));
    assert_eq!(parse_ipv6(b"::1"), Some(1));
    assert_eq!(parse_ipv6(b"1::"), Some(0x0001_0000_0000_0000_0000_0000_0000_0000));
    assert_eq!(
        parse_ipv6(b"2001:db8::"),
        Some(0x2001_0db8_0000_0000_0000_0000_0000_0000)
    );
    assert_eq!(
        parse_ipv6(b"1:2:3:4:5:6:7:8"),
        Some(0x0001_0002_0003_0004_0005_0006_0007_0008)
    );
    assert_eq!(
        parse_ipv6(b"2001:DB8::FF"),
        Some(0x2001_0db8_0000_0000_0000_0000_0000_00ff)
    );
    assert_eq!(parse_ipv6(b"::ffff:1.2.3.4"), Some(0x0000_0000_0000_0000_0000_ffff_0102_0304));
    assert_eq!(
        parse_ipv6(b"1:2:3:4:5:6:1.2.3.4"),
        Some(0x0001_0002_0003_0004_0005_0006_0102_0304)
    );
    assert_eq!(parse_ipv6(b"1:2:3:4:5:6:7::"), Some(0x0001_0002_0003_0004_0005_0006_0007_0000));
    assert_eq!(parse_ipv6(b"::1:2:3:4:5:6:7"), Some(0x0000_0001_0002_0003_0004_0005_0006_0007));
    assert_eq!(parse_ipv6(b""), None);
    assert_eq!(parse_ipv6(b":"), None);
    assert_eq!(parse_ipv6(b":::"), None);
    assert_eq!(parse_ipv6(b"1:2:3:4:5:6:7"), None);
    assert_eq!(parse_ipv6(b"1:2:3:4:5:6:7:8:9"), None);
    assert_eq!(parse_ipv6(b"1:2:3:4:5:6:7:8::"), None);
    assert_eq!(parse_ipv6(b"1::2::3"), None);
    assert_eq!(parse_ipv6(b"12345::"), None);
    assert_eq!(parse_ipv6(b"g::"), None);
    assert_eq!(parse_ipv6(b"1.2.3.4::"), None);
}

#[test]
fn cidr_parse_and_wf() {
    let c = Cidr::parse(b"10.0.0.0/8").unwrap();
    assert_eq!(c.addr, IpAddress::V4(0x0a000000));
    assert_eq!(c.prefix_len, 8);
    let c6 = Cidr::parse(b"2001:db8::/32").unwrap();
    assert_eq!(c6.addr, IpAddress::V6(0x2001_0db8_0000_0000_0000_0000_0000_0000));
    assert_eq!(c6.prefix_len, 32);
    assert_eq!(Cidr::parse(b"::/0").unwrap().prefix_len, 0);
    assert!(Cidr::parse(b"10.0.0.0").is_none());
    assert!(Cidr::parse(b"10.0.0.0/8/8").is_none());
    assert!(Cidr::parse(b"10.0.0.0/33").is_none());
    assert!(Cidr::parse(b"::/129").is_none());
    assert!(Cidr::parse(b"10.0.0.0/x").is_none());
    assert!(Cidr::parse(b"x/8").is_none());
}

#[test]
fn containment() {
    let c = Cidr::parse(b"10.0.0.0/8").unwrap();
    assert!(c.contains(&IpAddress::V4(0x0a010000)));
    assert!(!c.contains(&IpAddress::V4(0x0b000000)));
    assert!(!c.contains(&IpAddress::V6(0x0a000000)));

    let all = Cidr::parse(b"0.0.0.0/0").unwrap();
    assert!(all.contains(&IpAddress::V4(0xffffffff)));
    assert!(all.contains(&IpAddress::V4(0)));
    assert!(!all.contains(&IpAddress::V6(0)));

    let host = Cidr::parse(b"192.0.2.1/32").unwrap();
    assert!(host.contains(&IpAddress::V4(0xc0000201)));
    assert!(!host.contains(&IpAddress::V4(0xc0000200)));

    let c6 = Cidr::parse(b"2001:db8::/32").unwrap();
    assert!(c6.contains(&IpAddress::V6(0x2001_0db8_ffff_0000_0000_0000_0000_0001)));
    assert!(!c6.contains(&IpAddress::V6(0x2001_0db9_0000_0000_0000_0000_0000_0000)));
    let all6 = Cidr::parse(b"::/0").unwrap();
    assert!(all6.contains(&IpAddress::V6(u128::MAX)));
    assert!(!all6.contains(&IpAddress::V4(0)));
}

#[test]
fn filter_line_shapes() {
    let r = parse_filter_line(b"1 permit 10.0.0.0/8 16 24 extra junk").unwrap();
    assert!(r.allow);
    assert_eq!(r.network.addr, IpAddress::V4(0x0a000000));
    assert_eq!(r.network.prefix_len, 8);
    assert_eq!(r.min_length, 16);
    assert_eq!(r.max_length, 24);

    let d = parse_filter_line(b"2 deny 192.0.2.0/24 24 32 x").unwrap();
    assert!(!d.allow);

    assert!(parse_filter_line(b"# comment 1 permit 10.0.0.0/8 16 24 x").is_none());
    assert!(parse_filter_line(b"").is_none());
    assert!(parse_filter_line(b"1 permit 10.0.0.0/8 16 24").is_none());
    assert!(parse_filter_line(b"1 allow 10.0.0.0/8 16 24 x").is_none());
    assert!(parse_filter_line(b"1 permit 10.0.0.0 16 24 x").is_none());
    assert!(parse_filter_line(b"1 permit 10.0.0.0/8 aa 24 x").is_none());
    assert!(parse_filter_line(b"1 permit 10.0.0.0/8 16 bb x").is_none());
}

#[test]
fn filter_table_build_skips_bad_lines() {
    let text = b"header line\n1 permit 10.0.0.0/8 16 24 -\nnonsense\n2 deny 10.1.0.0/16 16 32 -\n9 permit broken/8 1 2 -\n";
    let mut rules: Vec<FilterRule> = Vec::new();
    add_filter_rules(text, &mut rules);
    assert_eq!(rules.len(), 2);
    assert!(rules[0].allow);
    assert!(!rules[1].allow);
}

#[test]
fn resolution_first_match() {
    let mut rules: Vec<FilterRule> = Vec::new();
    add_filter_rules(
        b"1 deny 10.1.0.0/16 16 32 -\n2 permit 10.0.0.0/8 16 24 -\n",
        &mut rules,
    );
    // Both rules cover 10.1.0.0; the deny at position 0 wins.
    assert_eq!(resolve(&rules, &IpAddress::V4(0x0a010000)), Resolution::Excluded);
    // Only the permit covers 10.2.0.0.
    assert_eq!(resolve(&rules, &IpAddress::V4(0x0a020000)), Resolution::Allowed(16, 24));
    // Nothing covers 192.0.2.0.
    assert_eq!(resolve(&rules, &IpAddress::V4(0xc0000200)), Resolution::Rejected);
}

#[test]
fn record_parse_basic() {
    let rec = parse_record(
        b"route: 10.1.0.0/20\norigin: as100\ndescr: example\n continuation line\nmnt-by: X\n",
    )
    .unwrap();
    assert_eq!(rec.prefix_text, b"10.1.0.0/20".to_vec());
    assert_eq!(rec.network.addr, IpAddress::V4(0x0a010000));
    assert_eq!(rec.network.prefix_len, 20);
    assert_eq!(rec.asns, vec![b"AS100".to_vec()]);
    assert_eq!(rec.declared_max, None);
}

#[test]
fn record_parse_origins_accumulate() {
    let rec = parse_record(b"route: 10.1.0.0/20\norigin: as100\norigin: AS200\norigin: as100\n")
        .unwrap();
    assert_eq!(
        rec.asns,
        vec![b"AS100".to_vec(), b"AS200".to_vec(), b"AS100".to_vec()]
    );
}

#[test]
fn record_prefix_keeps_original_casing() {
    let rec = parse_record(b"ROUTE6: 2001:DB8::/32\norigin: as64496\n").unwrap();
    assert_eq!(rec.prefix_text, b"2001:DB8::/32".to_vec());
    assert_eq!(
        rec.network.addr,
        IpAddress::V6(0x2001_0db8_0000_0000_0000_0000_0000_0000)
    );
}

#[test]
fn record_parse_max_length() {
    let rec = parse_record(b"route: 10.1.0.0/20\norigin: as1\nmax-length: 24\n").unwrap();
    assert_eq!(rec.declared_max, Some(24));
}

#[test]
fn record_errors() {
    assert_eq!(
        parse_record(b"route: 10.1.0.0/20\nmax-length: xy\n"),
        Err(RecordError::MalformedRecord)
    );
    assert_eq!(
        parse_record(b"origin: as100\ndescr: no route here\n"),
        Err(RecordError::NoRouteSpecified)
    );
    assert_eq!(
        parse_record(b"route: 10.1.0.0\norigin: as100\n"),
        Err(RecordError::MalformedCidr(b"10.1.0.0".to_vec()))
    );
    assert_eq!(
        parse_record(b"route: 10.1.0.0/33\norigin: as100\n"),
        Err(RecordError::MalformedCidr(b"10.1.0.0/33".to_vec()))
    );
}

#[test]
fn record_keywords_match_any_case() {
    let rec = parse_record(b"Route: 10.1.0.0/20\nOrigin: as7\nMAX-LENGTH: 24\n").unwrap();
    assert_eq!(rec.prefix_text, b"10.1.0.0/20".to_vec());
    assert_eq!(rec.asns, vec![b"AS7".to_vec()]);
    assert_eq!(rec.declared_max, Some(24));
}

#[test]
fn filter_line_tab_separated() {
    let r = parse_filter_line(b"1\tpermit\t10.0.0.0/8\t16\t24\tend").unwrap();
    assert!(r.allow);
    assert_eq!(r.min_length, 16);
    assert_eq!(r.max_length, 24);
    // The action keyword is matched exactly, not case folded.
    assert!(parse_filter_line(b"1 Permit 10.0.0.0/8 16 24 x").is_none());
}

#[test]
fn record_short_and_continuation_lines_ignored() {
    let rec = parse_record(b"route:\n\troute: 10.9.0.0/16\nroute: 10.1.0.0/20\nx\n").unwrap();
    // The bare `route:` line has one token and the indented line is a
    // continuation: neither sets the prefix.
    assert_eq!(rec.prefix_text, b"10.1.0.0/20".to_vec());
}
