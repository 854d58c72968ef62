use irp::model::control_plane::{default_schema_version, ExchangeScope, MessageDescriptor};
use irp::runtime::config::{
    endpoint_address, endpoint_port, parse_int_key_map, ForwardingConfig, QdiscConfig,
};
use irp::runtime::qdisc::driver::parse_u64_token;
use irp::text::{
    chars_of, join_text, keyword_of, parse_trimmed_unsigned, str_eq, str_order, string_of,
    token_bounds, trim_bounds,
};
use irp::text_map::TextMap;

fn std_order(a: &str, b: &str) -> i8 {
    match a.cmp(b) {
        std::cmp::Ordering::Less => -1,
        std::cmp::Ordering::Equal => 0,
        std::cmp::Ordering::Greater => 1,
    }
}

#[test]
fn text_order_is_the_order_of_str() {
    let words = ["", "a", "A", "ab", "b", "z", "é", "zz", "\u{10FFFF}", "eth10", "eth2", "\u{7f}", "\u{80}"];
    for a in words {
        for c in words {
            assert_eq!(str_order(a, c), std_order(a, c), "{a:?} against {c:?}");
            assert_eq!(str_eq(a, c), a == c);
        }
    }
}

#[test]
fn trimming_and_keywords_follow_str() {
    for s in ["", "  ", " a b ", "\t\nX\u{a0}", "\u{2003}One-Hop\u{3000}", "é ", "\u{85}x\u{1680}", "a\u{200b}"] {
        let v = chars_of(s);
        let (a, z) = trim_bounds(&v);
        assert_eq!(string_of(&v, a, z), s.trim());
        let k = keyword_of(s);
        assert_eq!(string_of(&k, 0, k.len()), s.trim().to_ascii_lowercase());
    }
    assert_eq!(join_text("ab", "cd"), "abcd");
}

#[test]
fn unsigned_numbers_parse_as_in_str() {
    for s in ["0", "+0", "007", "18446744073709551615", "18446744073709551616", "", "+", "-1", "1 2", "12a", " 42\t", "++1", "٣"] {
        assert_eq!(parse_trimmed_unsigned(s, u64::MAX), s.trim().parse::<u64>().ok(), "{s:?}");
        assert_eq!(parse_u64_token(s), s.trim().parse::<u64>().ok(), "{s:?}");
        assert_eq!(
            parse_trimmed_unsigned(s, 65535),
            s.trim().parse::<u16>().ok().map(u64::from),
            "{s:?}"
        );
    }
    assert_eq!(parse_trimmed_unsigned("65535", 65535), Some(65535));
    assert_eq!(parse_trimmed_unsigned("65536", 65535), None);
    assert_eq!(parse_trimmed_unsigned("00000000000000000000000000001", 1), Some(1));
}

#[test]
fn tokens_are_runs_without_whitespace() {
    for s in ["", "  ", "a", " a  bc\td\r\n", "x\u{a0}y", "(dropped 3, overlimits"] {
        let v = chars_of(s);
        let got: Vec<String> =
            token_bounds(&v, 0, v.len()).iter().map(|(a, z)| string_of(&v, *a, *z)).collect();
        let want: Vec<String> = s.split_whitespace().map(str::to_string).collect();
        assert_eq!(got, want, "{s:?}");
    }
}

#[test]
fn text_map_keeps_keys_in_order() {
    let mut m: TextMap<u64> = TextMap::new();
    assert!(m.is_empty());
    assert_eq!(m.insert("b".to_string(), 2), None);
    assert_eq!(m.insert("a".to_string(), 1), None);
    assert_eq!(m.insert("b".to_string(), 3), Some(2));
    m.add("c", 5);
    m.add("a", 5);
    assert_eq!((m.len(), m.count("a"), m.count("b"), m.count("c"), m.count("d")), (3, 6, 3, 5, 0));
    assert_eq!(m.key_at(0), "a");
    assert_eq!((m.key_at(2), *m.value_at(2)), ("c", 5));
    assert!(m.contains_key("b") && !m.contains_key("B"));
    let copy = m.clone();
    assert_eq!(copy, m);
}

#[test]
fn scopes_and_descriptors() {
    assert_eq!(ExchangeScope::from_str(" Neighbor_Only"), Some(ExchangeScope::OneHop));
    assert_eq!(ExchangeScope::from_str("area"), Some(ExchangeScope::FloodDomain));
    assert_eq!(ExchangeScope::from_str("GLOBAL\n"), Some(ExchangeScope::RouterDomain));
    assert_eq!(ExchangeScope::from_str("one hop"), None);
    assert_eq!(ExchangeScope::from_str(""), None);
    for scope in [ExchangeScope::OneHop, ExchangeScope::FloodDomain, ExchangeScope::RouterDomain] {
        assert_eq!(ExchangeScope::from_str(scope.as_str()), Some(scope));
    }
    assert_eq!(default_schema_version(), 1);
    let d = MessageDescriptor::default();
    assert_eq!((d.schema_version, d.state_class, d.scope, d.mode, d.max_age_s), (1, None, None, None, None));
    assert_eq!(MessageDescriptor::topology_lsa(Some(30)).max_age_s, Some(30));
    assert_eq!(d.with_scope(Some(ExchangeScope::OneHop)).scope, Some(ExchangeScope::OneHop));
    assert_eq!(MessageDescriptor::hello().with_scope(None), MessageDescriptor::hello());
}

#[test]
fn configuration_defaults_and_keys() {
    let f = ForwardingConfig::default();
    assert!((!f.enabled, f.dry_run, f.table) == (true, true, 254));
    assert!(f.destination_prefixes.is_empty() && f.next_hop_ips.is_empty());
    assert!(QdiscConfig::default().default.is_none());
    assert_eq!(endpoint_address(None), "0.0.0.0");
    assert_eq!(endpoint_address(Some("::1".to_string())), "::1");
    assert_eq!(endpoint_port(Some(1), 5500, 10_000), 1);
    assert_eq!(endpoint_port(None, 5500, 10_000), 15_500);
    assert_eq!(endpoint_port(None, 60_000, 10_000), 60_000);
    assert_eq!(endpoint_port(None, 55_535, 10_000), 65_535);
    let mut raw = TextMap::new();
    raw.insert("10".to_string(), "10.0.0.0/24".to_string());
    raw.insert("010".to_string(), "older".to_string());
    raw.insert("+7".to_string(), "seven".to_string());
    let parsed = parse_int_key_map(&raw).expect("keys are numbers");
    assert_eq!(parsed.len(), 2);
    // Of two keys that spell one number the later in text order stays.
    assert_eq!(parsed.get(&10).map(String::as_str), Some("10.0.0.0/24"));
    assert_eq!(parsed.get(&7).map(String::as_str), Some("seven"));
    raw.insert("x1".to_string(), "bad".to_string());
    raw.insert("4294967296".to_string(), "too large".to_string());
    assert_eq!(
        parse_int_key_map(&raw),
        Err("invalid integer map key: 4294967296".to_string())
    );
}
