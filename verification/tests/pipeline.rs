use roagen::FilterRule;
use roagen::RecordError;
use roagen::add_filter_rules;
use roagen::assemble;
use roagen::build_dataset;
use roagen::clamp_length;
use roagen::process_record;
use roagen::Roa;
use roagen::WEEK_SECONDS;

fn table(text: &[u8]) -> Vec<FilterRule> {
    let mut rules: Vec<FilterRule> = Vec::new();
    add_filter_rules(text, &mut rules);
    rules
}

#[test]
fn clamping() {
    // Declared below the minimum is raised, above the maximum lowered,
    // inside the bounds kept; no declaration takes the maximum.
    assert_eq!(clamp_length(Some(10), 16, 24), 16);
    assert_eq!(clamp_length(Some(30), 16, 24), 24);
    assert_eq!(clamp_length(Some(20), 16, 24), 20);
    assert_eq!(clamp_length(Some(16), 16, 24), 16);
    assert_eq!(clamp_length(Some(24), 16, 24), 24);
    assert_eq!(clamp_length(None, 16, 24), 24);
}

#[test]
fn permit_no_declared_length() {
    // A permitted route without a declared length takes the rule's
    // maximum.
    let rules = table(b"1 permit 10.0.0.0/8 16 24 -\n");
    let roas = process_record(b"route: 10.1.0.0/20\norigin: AS100\n", &rules).unwrap();
    assert_eq!(roas.len(), 1);
    assert_eq!(roas[0].prefix, b"10.1.0.0/20".to_vec());
    assert_eq!(roas[0].max_length, 24);
    assert_eq!(roas[0].asn, b"AS100".to_vec());
}

#[test]
fn declared_length_clamped_to_rule_max() {
    let rules = table(b"1 permit 10.0.0.0/8 16 24 -\n");
    let roas =
        process_record(b"route: 10.1.0.0/20\norigin: AS100\nmax-length: 30\n", &rules).unwrap();
    assert_eq!(roas.len(), 1);
    assert_eq!(roas[0].max_length, 24);
}

#[test]
fn declared_length_raised_to_rule_min() {
    let rules = table(b"1 permit 10.0.0.0/8 22 24 -\n");
    let roas =
        process_record(b"route: 10.1.0.0/20\norigin: AS100\nmax-length: 8\n", &rules).unwrap();
    assert_eq!(roas.len(), 1);
    assert_eq!(roas[0].max_length, 22);
}

#[test]
fn deny_rule_drops_silently() {
    let rules = table(b"1 deny 10.0.0.0/8 16 24 -\n");
    let roas = process_record(b"route: 10.1.0.0/20\norigin: AS100\n", &rules).unwrap();
    assert_eq!(roas.len(), 0);
}

#[test]
fn unmatched_address_is_an_error() {
    let rules = table(b"1 permit 10.0.0.0/8 16 24 -\n");
    let r = process_record(b"route: 192.0.2.0/24\norigin: AS100\n", &rules);
    assert_eq!(
        r,
        Err(RecordError::OutOfPolicyRange(b"192.0.2.0/24".to_vec()))
    );
}

#[test]
fn too_specific_route_drops_silently() {
    let rules = table(b"1 permit 10.0.0.0/8 16 24 -\n");
    let roas = process_record(b"route: 10.1.0.0/26\norigin: AS100\n", &rules).unwrap();
    assert_eq!(roas.len(), 0);
    // The declared length cannot rescue it: it is the route's own
    // length that counts.
    let roas = process_record(
        b"route: 10.1.0.0/26\norigin: AS100\nmax-length: 24\n",
        &rules,
    )
    .unwrap();
    assert_eq!(roas.len(), 0);
}

#[test]
fn one_entry_per_origin_in_order() {
    let rules = table(b"1 permit 10.0.0.0/8 16 24 -\n");
    let roas = process_record(
        b"route: 10.1.0.0/20\norigin: as300\norigin: as100\norigin: as200\norigin: as100\n",
        &rules,
    )
    .unwrap();
    assert_eq!(roas.len(), 4);
    let asns: Vec<Vec<u8>> = roas.iter().map(|r| r.asn.clone()).collect();
    assert_eq!(
        asns,
        vec![
            b"AS300".to_vec(),
            b"AS100".to_vec(),
            b"AS200".to_vec(),
            b"AS100".to_vec()
        ]
    );
    for r in &roas {
        assert_eq!(r.prefix, b"10.1.0.0/20".to_vec());
        assert_eq!(r.max_length, 24);
    }
}

#[test]
fn assemble_metadata() {
    let roas = vec![Roa { prefix: b"10.1.0.0/20".to_vec(), max_length: 24, asn: b"AS1".to_vec() }];
    let d = assemble(roas, 1000);
    assert_eq!(d.metadata.counts, 1);
    assert_eq!(d.metadata.generated, 1000);
    assert_eq!(d.metadata.valid, 1000 + 7 * 24 * 60 * 60);
    assert_eq!(d.metadata.valid, 1000 + WEEK_SECONDS);
    assert_eq!(d.roas.len(), 1);
}

#[test]
fn full_run_both_families() {
    let f4 = b"no rule here\n1 permit 10.0.0.0/8 16 24 -\n";
    let f6 = b"1 permit 2001:db8::/32 32 48 -\n";
    let recs4 = vec![
        b"route: 10.1.0.0/20\norigin: as100\n".to_vec(),
        b"route: 192.0.2.0/24\norigin: as999\n".to_vec(),
        b"route: 10.2.0.0/20\norigin: as100\norigin: as200\n".to_vec(),
    ];
    let recs6 = vec![b"route6: 2001:db8:1::/48\norigin: as64496\n".to_vec()];
    let (d, issues) = build_dataset(f4, f6, &recs4, &recs6, 5000);

    // The unmatched 192.0.2.0/24 record is reported and skipped; the
    // run continues with everything else.
    assert_eq!(issues, vec![RecordError::OutOfPolicyRange(b"192.0.2.0/24".to_vec())]);
    assert_eq!(d.metadata.counts, 4);
    assert_eq!(d.metadata.generated, 5000);
    assert_eq!(d.metadata.valid, 5000 + WEEK_SECONDS);
    assert_eq!(d.roas.len(), 4);
    assert_eq!(d.roas[0].prefix, b"10.1.0.0/20".to_vec());
    assert_eq!(d.roas[1].prefix, b"10.2.0.0/20".to_vec());
    assert_eq!(d.roas[1].asn, b"AS100".to_vec());
    assert_eq!(d.roas[2].prefix, b"10.2.0.0/20".to_vec());
    assert_eq!(d.roas[2].asn, b"AS200".to_vec());
    assert_eq!(d.roas[3].prefix, b"2001:db8:1::/48".to_vec());
    assert_eq!(d.roas[3].max_length, 48);
}

#[test]
fn runs_differ_only_in_clock() {
    let f4 = b"1 permit 10.0.0.0/8 16 24 -\n";
    let f6 = b"";
    let recs4 = vec![b"route: 10.1.0.0/20\norigin: as100\n".to_vec()];
    let recs6: Vec<Vec<u8>> = Vec::new();
    let (d1, e1) = build_dataset(f4, f6, &recs4, &recs6, 100);
    let (d2, e2) = build_dataset(f4, f6, &recs4, &recs6, 999_999);
    assert_eq!(d1.roas, d2.roas);
    assert_eq!(d1.metadata.counts, d2.metadata.counts);
    assert_eq!(e1, e2);
    assert_eq!(d1.metadata.generated, 100);
    assert_eq!(d2.metadata.generated, 999_999);
    assert_eq!(d1.metadata.valid, 100 + WEEK_SECONDS);
    assert_eq!(d2.metadata.valid, 999_999 + WEEK_SECONDS);
}

#[test]
fn first_match_outcome_unchanged_by_later_rules() {
    // 10.1.0.0 is matched by the rule at position 0; appending a later
    // matching rule of the opposite action changes nothing.
    let shorter = table(b"1 permit 10.1.0.0/16 16 24 -\n");
    let longer = table(b"1 permit 10.1.0.0/16 16 24 -\n2 deny 10.0.0.0/8 0 32 -\n");
    let rec: &[u8] = b"route: 10.1.0.0/20\norigin: as100\n";
    assert_eq!(
        process_record(rec, &shorter).unwrap(),
        process_record(rec, &longer).unwrap()
    );
    // And a record matched only by the later rule sees that rule.
    let other: &[u8] = b"route: 10.2.0.0/20\norigin: as100\n";
    assert_eq!(process_record(other, &longer).unwrap().len(), 0);
}

#[test]
fn reconcile_parsed_record() {
    let rules = table(b"1 permit 10.0.0.0/8 16 24 -\n");
    let rec = roagen::parse_record(b"route: 10.1.0.0/20\norigin: as100\nmax-length: 22\n").unwrap();
    let roas = roagen::reconcile(&rec, &rules).unwrap();
    assert_eq!(roas.len(), 1);
    assert_eq!(roas[0].max_length, 22);
}

#[test]
fn batch_appends_in_order() {
    let rules = table(b"1 permit 10.0.0.0/8 16 24 -\n");
    let mut roas: Vec<Roa> = Vec::new();
    let mut issues: Vec<RecordError> = Vec::new();
    let first = vec![b"route: 10.1.0.0/20\norigin: as1\n".to_vec()];
    let second = vec![
        b"route: 192.0.2.0/24\norigin: as2\n".to_vec(),
        b"route: 10.2.0.0/20\norigin: as3\n".to_vec(),
    ];
    roagen::process_batch(&first, &rules, &mut roas, &mut issues);
    roagen::process_batch(&second, &rules, &mut roas, &mut issues);
    assert_eq!(roas.len(), 2);
    assert_eq!(roas[0].asn, b"AS1".to_vec());
    assert_eq!(roas[1].asn, b"AS3".to_vec());
    assert_eq!(issues, vec![RecordError::OutOfPolicyRange(b"192.0.2.0/24".to_vec())]);
}

#[test]
fn malformed_record_reported_not_fatal() {
    let f4 = b"1 permit 10.0.0.0/8 16 24 -\n";
    let recs4 = vec![
        b"route: 10.1.0.0/20\norigin: as1\nmax-length: zz\n".to_vec(),
        b"descr: nothing\n".to_vec(),
        b"route: 10.1.0.0\norigin: as1\n".to_vec(),
        b"route: 10.3.0.0/20\norigin: as1\n".to_vec(),
    ];
    let recs6: Vec<Vec<u8>> = Vec::new();
    let (d, issues) = build_dataset(f4, b"", &recs4, &recs6, 0);
    assert_eq!(
        issues,
        vec![
            RecordError::MalformedRecord,
            RecordError::NoRouteSpecified,
            RecordError::MalformedCidr(b"10.1.0.0".to_vec()),
        ]
    );
    assert_eq!(d.roas.len(), 1);
    assert_eq!(d.roas[0].prefix, b"10.3.0.0/20".to_vec());
}
