use irp::model::metric::{
    bits_eq, bits_is_finite, bits_is_nan, bits_is_usable_cost, bits_le, bits_lt, total_order,
};
use irp::model::routing::{
    ForwardingTable, Ipv4RoutingTableEntry, Route, RouteTable, RoutingTableEntry,
};

fn b(x: f64) -> u64 {
    x.to_bits()
}

fn samples() -> Vec<f64> {
    vec![
        0.0,
        -0.0,
        1.0,
        -1.0,
        0.5,
        2.5,
        1e-9,
        -1e-9,
        f64::MIN_POSITIVE,
        -f64::MIN_POSITIVE,
        5e-324,
        -5e-324,
        f64::MAX,
        f64::MIN,
        f64::INFINITY,
        f64::NEG_INFINITY,
        f64::NAN,
        -f64::NAN,
        f64::from_bits(0x7ff0_0000_0000_0001),
        f64::from_bits(0xfff8_0000_0000_0001),
        16.0,
        1e300,
    ]
}

#[test]
fn total_order_is_the_total_order_of_doubles() {
    for x in samples() {
        for y in samples() {
            let want = match x.total_cmp(&y) {
                std::cmp::Ordering::Less => -1,
                std::cmp::Ordering::Equal => 0,
                std::cmp::Ordering::Greater => 1,
            };
            assert_eq!(total_order(b(x), b(y)), want, "{x:?} against {y:?}");
        }
    }
}

#[test]
fn number_comparisons_are_those_of_doubles() {
    for x in samples() {
        assert_eq!(bits_is_nan(b(x)), x.is_nan(), "{x:?}");
        assert_eq!(bits_is_finite(b(x)), x.is_finite(), "{x:?}");
        assert_eq!(bits_is_usable_cost(b(x)), x.is_finite() && x >= 0.0, "{x:?}");
        for y in samples() {
            assert_eq!(bits_lt(b(x), b(y)), x < y, "{x:?} < {y:?}");
            assert_eq!(bits_le(b(x), b(y)), x <= y, "{x:?} <= {y:?}");
            assert_eq!(bits_eq(b(x), b(y)), x == y, "{x:?} == {y:?}");
        }
    }
}

#[test]
fn ipv4_routing_table_entry_helpers_work() {
    let host = Ipv4RoutingTableEntry::create_host_route_to(7, 3, Some(1));
    assert!(host.is_host());
    assert!(!host.is_default());
    assert!(host.is_gateway());
    assert_eq!(host.get_dest(), 7);
    assert_eq!(host.get_gateway(), Some(3));
    assert_eq!(host.get_interface(), Some(1));

    let def = Ipv4RoutingTableEntry::create_default_route(2, Some(4));
    assert!(def.is_default());
    assert!(def.is_network());
    assert_eq!(def.get_dest_network_prefix_len(), 0);
}

#[test]
fn ipv4_routing_table_entry_constructors() {
    let direct = Ipv4RoutingTableEntry::create_host_route_to_direct(9, None);
    assert!(direct.is_host());
    assert!(!direct.is_gateway());
    assert_eq!(direct.get_dest_network(), 9);
    let net = Ipv4RoutingTableEntry::create_network_route_to(10, 24, 3, Some(2));
    assert!(net.is_network());
    assert_eq!(net.get_dest_network_prefix_len(), 24);
    assert_eq!(net.destination(), 10);
    assert_eq!(net.next_hop(), Some(3));
    assert_eq!(net.interface(), Some(2));
    let net_direct = Ipv4RoutingTableEntry::create_network_route_to_direct(10, 24, None);
    assert_eq!(net_direct.get_gateway(), None);
    assert_eq!(net_direct.base(), &net_direct);
}

#[test]
fn route_table_keeps_multi_path_entries_for_same_destination() {
    let mut table = RouteTable::default();
    let updated = table.replace_protocol_routes(
        "ddr",
        &[
            Route {
                ..Route::new_host(4, 2, b(10.0), "ddr")
            },
            Route {
                ..Route::new_host(4, 3, b(12.0), "ddr")
            },
        ],
    );
    assert!(updated);
    let snapshot = table.snapshot();
    assert_eq!(snapshot.len(), 2);
    assert!(snapshot
        .iter()
        .any(|route| route.destination == 4 && route.next_hop == 2));
    assert!(snapshot
        .iter()
        .any(|route| route.destination == 4 && route.next_hop == 3));
}

#[test]
fn route_table_sorts_dedups_and_replaces_by_protocol() {
    let mut table = RouteTable::default();
    assert!(table.replace_protocol_routes(
        "rip",
        &[
            Route::new_host(5, 2, b(3.0), "rip"),
            Route::new_host(4, 9, b(1.0), "rip"),
            Route::new_host(5, 2, b(3.0), "rip"),
            Route::new_host(5, 2, b(-1.0), "rip"),
            Route::new_host(5, 1, b(7.0), "rip"),
        ],
    ));
    let keys: Vec<(u32, u32, f64)> = table
        .snapshot()
        .iter()
        .map(|r| (r.destination, r.next_hop, f64::from_bits(r.metric)))
        .collect();
    assert_eq!(keys, vec![(4, 9, 1.0), (5, 1, 7.0), (5, 2, -1.0), (5, 2, 3.0)]);
    // The same routes again change nothing.
    assert!(!table.replace_protocol_routes(
        "rip",
        &[
            Route::new_host(5, 2, b(-1.0), "rip"),
            Route::new_host(4, 9, b(1.0), "rip"),
            Route::new_host(5, 2, b(3.0), "rip"),
            Route::new_host(5, 1, b(7.0), "rip"),
        ],
    ));
    // Another protocol is added between them, by protocol name last.
    assert!(table.replace_protocol_routes("ospf", &[Route::new_host(5, 2, b(3.0), "ospf")]));
    let protocols: Vec<String> = table.snapshot().iter().map(|r| r.protocol.clone()).collect();
    assert_eq!(protocols, vec!["rip", "rip", "rip", "ospf", "rip"]);
    assert!(table.replace_protocol_routes("rip", &[]));
    assert_eq!(table.snapshot().len(), 1);
    assert!(!table.replace_protocol_routes("rip", &[]));
}

#[test]
fn route_table_with_a_metric_that_is_no_number_always_changes() {
    let mut table = RouteTable::default();
    let routes = [Route::new_host(4, 2, b(f64::NAN), "x")];
    assert!(table.replace_protocol_routes("x", &routes));
    assert!(table.replace_protocol_routes("x", &routes));
    // Zeros of either sign are equal as numbers: the table held is kept.
    let mut table = RouteTable::default();
    assert!(table.replace_protocol_routes("x", &[Route::new_host(4, 2, b(0.0), "x")]));
    assert!(!table.replace_protocol_routes("x", &[Route::new_host(4, 2, b(-0.0), "x")]));
    assert_eq!(table.snapshot()[0].metric, b(0.0));
}

#[test]
fn forwarding_table_selects_best_metric_per_destination() {
    let mut fib = ForwardingTable::default();
    let changed = fib.sync_from_routes(&[
        Route {
            ..Route::new_host(4, 2, b(10.0), "ospf")
        },
        Route {
            ..Route::new_host(4, 3, b(8.0), "ospf")
        },
        Route {
            ..Route::new_host(5, 2, b(4.0), "ospf")
        },
    ]);
    assert!(changed);
    let entries = fib.snapshot();
    assert_eq!(entries.len(), 2);
    let to_4 = entries
        .iter()
        .find(|entry| entry.destination == 4)
        .expect("fib route to 4 should exist");
    assert_eq!(to_4.next_hop, 3);
    assert_eq!(f64::from_bits(to_4.metric), 8.0);
}

#[test]
fn forwarding_table_for_ddr_keeps_first_route_per_destination() {
    let mut fib = ForwardingTable::default();
    let changed = fib.sync_from_routes(&[
        Route {
            ..Route::new_host(4, 3, b(20.0), "ddr")
        },
        Route {
            ..Route::new_host(4, 2, b(10.0), "ddr")
        },
    ]);
    assert!(changed);
    let entries = fib.snapshot();
    assert_eq!(entries.len(), 1);
    let to_4 = entries
        .iter()
        .find(|entry| entry.destination == 4)
        .expect("fib route to 4 should exist");
    assert_eq!(to_4.next_hop, 3);
    assert_eq!(f64::from_bits(to_4.metric), 20.0);
}

#[test]
fn forwarding_table_breaks_ties_by_next_hop_then_protocol() {
    let mut fib = ForwardingTable::default();
    assert!(fib.sync_from_routes(&[
        Route::new_host(4, 3, b(1.0), "rip"),
        Route::new_host(4, 2, b(1.0), "rip"),
        Route::new_host(4, 2, b(1.0), "ospf"),
        Route::new_host(4, 1, b(2.0), "ospf"),
        Route::new_host(9, 1, b(2.0), "octopus"),
        Route::new_host(9, 1, b(1.0), "ospf"),
        Route::new_host(8, 1, b(2.0), "ospf"),
        Route::new_host(8, 7, b(1.0), "dgr"),
        Route::new_host(8, 1, b(0.0), "ospf"),
    ]));
    let entries = fib.snapshot();
    let got: Vec<(u32, u32, String)> = entries
        .iter()
        .map(|e| (e.destination, e.next_hop, e.protocol.clone()))
        .collect();
    assert_eq!(
        got,
        vec![
            (4, 2, "ospf".to_string()),
            // A first-wins entry is kept once it is held.
            (8, 7, "dgr".to_string()),
            (9, 1, "octopus".to_string()),
        ]
    );
    // The same routes again leave the table as it is.
    assert!(!fib.sync_from_routes(&[
        Route::new_host(4, 2, b(1.0), "ospf"),
        Route::new_host(8, 7, b(1.0), "dgr"),
        Route::new_host(9, 1, b(2.0), "octopus"),
    ]));
    assert!(fib.sync_from_routes(&[]));
    assert!(fib.snapshot().is_empty());
}
