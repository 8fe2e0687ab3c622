use std::collections::{HashMap, HashSet};

use crush::select::straw_value;
use crush::{find_next_power_of_2, Crush, SelectError};

fn ln_table() -> Vec<u64> {
    (0..65536)
        .map(|i| (-((i as f64 / 65536.0).ln() * ((1u64 << 44) as f64)).round()) as u64)
        .collect()
}

fn empty_cluster() -> Crush {
    Crush::new(ln_table()).unwrap()
}

fn build_single_node_cluster(osds: u32) -> Crush {
    let mut c = empty_cluster();
    for osd in 1..=osds {
        let path = format!("osd.{}", osd);
        c.add_weight(&path, 1);
    }
    c
}

fn build_ha_cluster(hosts: u32, osds: u32) -> Crush {
    let mut c = empty_cluster();
    for host in 1..=hosts {
        for osd in 1..=osds {
            let path = format!("host.{}/osd.{}", host, osd);
            c.add_weight(&path, 1);
        }
    }
    c
}

fn build_datacenter_cluster(racks: u32, hosts: u32, osds: u32) -> Crush {
    let mut c = empty_cluster();
    for rack in 1..=racks {
        for host in 1..=hosts {
            for osd in 1..=osds {
                let path = format!("rack.{}/host.{}/osd.{}", rack, host, osd);
                c.add_weight(&path, 1);
            }
        }
    }
    c
}

#[test]
fn single_diverse_and_spread() {
    let num_of_pgs = 16_384;
    let replicas = 3;

    let osds = 5;

    let c = build_single_node_cluster(osds);
    let mut count = HashMap::new();

    for pg in 1..=num_of_pgs {
        let osds = c.select(pg, replicas, "").unwrap();
        let mut placement = vec![];
        for osd in osds {
            placement.push(osd);
        }

        for p in &placement {
            if let Some(x) = count.get_mut(p) {
                *x += 1;
            } else {
                count.insert(p.clone(), 1);
            }
        }

        let set: HashSet<String> = placement.into_iter().collect();
        assert!(set.len() == 3);
    }

    let exact_percentage = 100.0 / osds as f64;

    for (_, c) in count {
        let actual_percentage = c as f64 / (num_of_pgs * replicas) as f64 * 100.0;
        assert!(actual_percentage - exact_percentage < 1.0);
    }
}

#[test]
fn ha_diverse_and_spread() {
    let num_of_pgs = 16_384;
    let replicas = 3;

    let hosts = 3;
    let osds = 5;

    let c = build_ha_cluster(hosts, osds);

    let mut count = HashMap::new();

    for pg in 1..=num_of_pgs {
        let hosts = c.select(pg, replicas, "").unwrap();
        let mut placement = vec![];

        for host in hosts {
            let osds = c.select(pg, 1, &host).unwrap();
            placement.push(format!("{}/{}", host, osds[0]))
        }

        for p in &placement {
            if let Some(x) = count.get_mut(p) {
                *x += 1;
            } else {
                count.insert(p.clone(), 1);
            }
        }

        let set: HashSet<String> = placement
            .iter()
            .map(|x| x.split_once("/").unwrap().0.to_string())
            .collect();
        assert!(set.len() == 3);
    }

    let exact_percentage = 100.0 / (hosts * osds) as f64;

    for (_, c) in count {
        let actual_percentage = c as f64 / (num_of_pgs * replicas) as f64 * 100.0;
        assert!(actual_percentage - exact_percentage < 1.0);
    }
}

#[test]
fn rack_diverse_and_spread() {
    let num_of_pgs = 16_384;
    let replicas = 3;

    let racks = 3;
    let hosts = 3;
    let osds = 10;

    let c = build_datacenter_cluster(racks, hosts, osds);

    let mut count = HashMap::new();

    for pg in 1..=num_of_pgs {
        let racks = c.select(pg, replicas, "").unwrap();
        let mut placement = vec![];

        for rack in racks {
            let hosts = c.select(pg, 1, &rack).unwrap();
            for host in hosts {
                let osds = c.select(pg, 1, &format!("{}/{}", rack, host)).unwrap();
                placement.push(format!("{}/{}/{}", rack, host, osds[0]))
            }
        }

        for p in &placement {
            if let Some(x) = count.get_mut(p) {
                *x += 1;
            } else {
                count.insert(p.clone(), 1);
            }
        }

        let set: HashSet<String> = placement
            .iter()
            .map(|x| x.split_once("/").unwrap().0.to_string())
            .collect();
        assert!(set.len() == 3);
    }

    let exact_percentage = 100.0 / (racks * hosts * osds) as f64;

    for (_, c) in count {
        let actual_percentage = c as f64 / (num_of_pgs * replicas) as f64 * 100.0;
        assert!(actual_percentage - exact_percentage < 1.0);
    }
}

#[test]
fn move_factor_add() {
    let hosts = 3;
    let osds = 5;

    let num_of_pgs = 16_384;
    let replicas = 3;

    let before_crush = build_ha_cluster(hosts, osds);
    // the same map as before, built a second time, then given a fourth host
    let mut after_crush = build_ha_cluster(hosts, osds);

    for i in 1..=osds {
        after_crush.add_weight(&format!("host.4/osd.{}", i), 1);
    }

    let mut moved = 0;
    for pg in 1..=num_of_pgs {
        let before_locate = before_crush.locate_all(pg, replicas).unwrap();
        let after_locate = after_crush.locate_all(pg, replicas).unwrap();

        if before_locate != after_locate {
            moved += 1;
        }
    }
    let moved_percentage = moved as f64 / num_of_pgs as f64 * 100.0;
    println!(
        "moved: {} out of {} pgs, which is {}%",
        moved, num_of_pgs, moved_percentage
    );
    assert!(moved_percentage < 80.0);
}

#[test]
fn recommended_pgs() {
    let racks = 5;
    let hosts = 5;
    let osds = 8;

    let crush = build_datacenter_cluster(racks, hosts, osds);

    assert_eq!(crush.get_recommended_pgs(3), 8192);
}

#[test]
fn weights_roll_up() {
    let mut c = empty_cluster();
    c.add_weight("osd.1", 1);
    c.add_weight("osd.2", 1);
    assert_eq!(c.total_weight(), 2);
    assert_eq!(c.get_weight("osd.1"), 1);
    assert_eq!(c.get_weight("osd.2"), 1);
}

#[test]
fn nested_weights_roll_up() {
    let c = build_datacenter_cluster(2, 2, 3);
    assert_eq!(c.total_weight(), 12);
    assert_eq!(c.get_weight("rack.1"), 6);
    assert_eq!(c.get_weight("rack.2/host.1"), 3);
    assert_eq!(c.get_weight("rack.2/host.1/osd.3"), 1);
    assert_eq!(c.get_weight(""), 12);
}

#[test]
fn negative_weight_removes_weight() {
    let mut c = build_ha_cluster(2, 2);
    c.add_weight("host.1/osd.1", -1);
    assert_eq!(c.get_weight("host.1/osd.1"), 0);
    assert_eq!(c.get_weight("host.1"), 1);
    assert_eq!(c.total_weight(), 3);
}

#[test]
fn weight_wraps_below_zero() {
    let mut c = empty_cluster();
    c.add_weight("osd.1", -1);
    assert_eq!(c.get_weight("osd.1"), u64::MAX);
    assert_eq!(c.total_weight(), u64::MAX);
}

#[test]
fn trailing_slash_names_the_same_node() {
    let mut c = empty_cluster();
    c.add_weight("host.1/osd.1/", 2);
    assert_eq!(c.get_weight("host.1/osd.1"), 2);
    assert_eq!(c.get_weight("host.1/"), 2);
}

#[test]
fn inout_round_trip() {
    let mut c = build_ha_cluster(3, 2);
    assert!(!c.get_inout("host.2"));
    c.set_inout("host.2", true);
    assert!(c.get_inout("host.2"));
    assert!(!c.get_inout("host.2/osd.1"));
    assert_eq!(c.get_weight("host.2"), 2);
    c.set_inout("host.2", false);
    assert!(!c.get_inout("host.2"));
}

#[test]
fn single_rack_locate_all_gives_three_osds() {
    let c = build_single_node_cluster(5);
    for pg in 1..=16_384 {
        let paths = c.locate_all(pg, 3).unwrap();
        assert_eq!(paths.len(), 3);
        let set: HashSet<&String> = paths.iter().collect();
        assert_eq!(set.len(), 3);
        for p in &paths {
            assert!(p.starts_with("osd."));
        }
    }
}

#[test]
fn ha_locate_all_uses_three_hosts() {
    let c = build_ha_cluster(3, 5);
    for pg in 1..=16_384 {
        let paths = c.locate_all(pg, 3).unwrap();
        assert_eq!(paths.len(), 3);
        let tops: HashSet<&str> = paths.iter().map(|p| p.split_once('/').unwrap().0).collect();
        assert_eq!(tops.len(), 3);
    }
}

#[test]
fn out_host_is_never_used() {
    let mut c = build_ha_cluster(3, 5);
    c.set_inout("host.2", true);
    for pg in 1..=16_384 {
        let paths = c.locate_all(pg, 2).unwrap();
        for p in &paths {
            assert!(!p.starts_with("host.2/"));
        }
        let hosts = c.select(pg, 2, "").unwrap();
        assert!(!hosts.contains(&"host.2".to_string()));
    }
}

#[test]
fn rack_locate_all_uses_three_racks() {
    let c = build_datacenter_cluster(3, 3, 10);
    for pg in 1..=16_384 {
        let paths = c.locate_all(pg, 3).unwrap();
        assert_eq!(paths.len(), 3);
        let mut racks = HashSet::new();
        for p in &paths {
            let parts: Vec<&str> = p.split('/').collect();
            assert_eq!(parts.len(), 3);
            assert!(parts[0].starts_with("rack."));
            assert!(parts[1].starts_with("host."));
            assert!(parts[2].starts_with("osd."));
            racks.insert(parts[0]);
        }
        assert_eq!(racks.len(), 3);
    }
}

#[test]
fn locate_all_is_sorted() {
    let c = build_datacenter_cluster(3, 3, 10);
    for pg in 1..=500 {
        let paths = c.locate_all(pg, 3).unwrap();
        let mut sorted = paths.clone();
        sorted.sort();
        assert_eq!(paths, sorted);
    }
}

#[test]
fn locate_reaches_a_device() {
    let c = build_datacenter_cluster(3, 3, 10);
    for pg in 1..=500 {
        let p = c.locate(pg).unwrap();
        let parts: Vec<&str> = p.split('/').collect();
        assert_eq!(parts.len(), 3);
        assert!(parts[2].starts_with("osd."));
        assert!(c.get_weight(&p) == 1);
    }
}

#[test]
fn placement_is_deterministic() {
    let a = build_datacenter_cluster(3, 3, 10);
    let b = build_datacenter_cluster(3, 3, 10);
    for pg in 1..=500 {
        assert_eq!(a.locate_all(pg, 3), b.locate_all(pg, 3));
        assert_eq!(a.locate_all(pg, 3), a.locate_all(pg, 3));
        assert_eq!(a.select(pg, 3, ""), b.select(pg, 3, ""));
        assert_eq!(a.locate(pg), b.locate(pg));
    }
}

#[test]
fn select_names_distinct_children() {
    let c = build_ha_cluster(4, 2);
    for pg in 1..=2000 {
        let hosts = c.select(pg, 4, "").unwrap();
        let set: HashSet<&String> = hosts.iter().collect();
        assert_eq!(set.len(), 4);
        let osds = c.select(pg, 2, "host.3").unwrap();
        assert_eq!(osds.len(), 2);
        assert_ne!(osds[0], osds[1]);
    }
}

#[test]
fn select_zero_replicas_is_empty() {
    let c = build_ha_cluster(3, 2);
    assert_eq!(c.select(7, 0, ""), Ok(vec![]));
}

#[test]
fn select_missing_path_fails() {
    let c = build_ha_cluster(3, 2);
    assert_eq!(c.select(1, 1, "host.9"), Err(SelectError::NoSuchPath));
    assert_eq!(c.select(1, 1, "host.1/osd.7"), Err(SelectError::NoSuchPath));
}

#[test]
fn select_below_a_device_has_no_candidates() {
    let c = build_ha_cluster(3, 2);
    assert_eq!(c.select(1, 1, "host.1/osd.1"), Err(SelectError::NoCandidates));
    let e = empty_cluster();
    assert_eq!(e.select(1, 1, ""), Err(SelectError::NoCandidates));
    assert_eq!(e.locate(1), Err(SelectError::NoCandidates));
    assert_eq!(e.locate_all(1, 3), Err(SelectError::NoCandidates));
}

#[test]
fn zero_weight_children_are_never_drawn() {
    let mut c = build_single_node_cluster(3);
    c.add_weight("osd.2", -1);
    for pg in 1..=1000 {
        let picks = c.select(pg, 2, "").unwrap();
        assert!(!picks.contains(&"osd.2".to_string()));
    }
}

#[test]
fn table_of_wrong_length_is_refused() {
    assert!(Crush::new(vec![0; 10]).is_none());
    assert!(Crush::new(vec![]).is_none());
    assert!(Crush::new(ln_table()).is_some());
}

#[test]
fn osd_count_ignores_non_devices() {
    let c = build_datacenter_cluster(5, 5, 8);
    assert_eq!(c.get_recommended_pgs(1), 32768);
    assert_eq!(c.get_recommended_pgs(2), 16384);
    let small = build_ha_cluster(1, 1);
    assert_eq!(small.get_recommended_pgs(3), 64);
}

#[test]
fn next_power_of_two_values() {
    assert_eq!(find_next_power_of_2(6666), 8192);
    assert_eq!(find_next_power_of_2(8192), 8192);
    assert_eq!(find_next_power_of_2(8193), 16384);
    assert_eq!(find_next_power_of_2(2), 2);
    assert_eq!(find_next_power_of_2(3), 4);
    assert_eq!(find_next_power_of_2(1), 1);
    assert_eq!(find_next_power_of_2(0), 1);
    assert_eq!(find_next_power_of_2(0x8000_0000), 0x8000_0000);
}

#[test]
fn straw_reads_the_low_bits_of_the_hash() {
    let t = ln_table();
    assert_eq!(straw_value(&t, 0, 1), u64::MAX);
    assert_eq!(straw_value(&t, 32768, 1), t[32768]);
    assert_eq!(straw_value(&t, 0x7_0000 + 32768, 2), t[32768] / 2);
    assert_eq!(straw_value(&t, 0xFFFF_FFFF_FFFF_FFFF, 1), t[65535]);
    assert_eq!(straw_value(&t, 16384, 4), t[16384] / 4);
    assert!(t[1] > t[2] && t[65534] > t[65535]);
}
