use rocketmq_namesrv::clock::millis_to_timestamp;
use rocketmq_namesrv::bootstrap::{start_broker_controller, BrokerController};
use rocketmq_namesrv::manager::RouteInfoManager;
use rocketmq_namesrv::nested::nested_get;
use rocketmq_namesrv::route_data::{
    is_sync_broker_member_topic, mask_write, DataVersion, NamesrvConfig, TopicConfig,
    TopicConfigAndMappingSerializeWrapper, TopicQueueMappingInfo, TopicRouteData, PERM_READ,
    PERM_WRITE,
};
use rocketmq_namesrv::strmap::StrMap;

fn s(v: &str) -> String {
    v.to_string()
}

fn config(name: &str, perm: u32) -> TopicConfig {
    TopicConfig {
        topic_name: s(name),
        read_queue_nums: 8,
        write_queue_nums: 8,
        perm,
        topic_sys_flag: 0,
    }
}

fn wrapper(topics: &[(&str, u32)], state_version: i64) -> TopicConfigAndMappingSerializeWrapper {
    let mut table = StrMap::new();
    for (name, perm) in topics {
        table.insert(s(name), config(name, *perm));
    }
    TopicConfigAndMappingSerializeWrapper {
        data_version: Some(DataVersion { state_version, timestamp: 1, counter: 1 }),
        topic_config_table: Some(table),
        topic_queue_mapping_info_map: StrMap::new(),
    }
}

fn config_with(support_acting_master: bool) -> NamesrvConfig {
    NamesrvConfig {
        delete_topic_with_broker_registration: false,
        support_acting_master,
        notify_min_broker_id_changed: false,
    }
}

fn addrs_of(route: &TopicRouteData, i: usize) -> Vec<(i64, String)> {
    let mut v = route.broker_datas[i].broker_addrs.entries.clone();
    v.sort();
    v
}

const RW: u32 = PERM_READ | PERM_WRITE;

fn register(
    m: &mut RouteInfoManager,
    addr: &str,
    id: i64,
    acting: Option<bool>,
    topics: &[(&str, u32)],
    state_version: i64,
    now: i64,
) -> Option<rocketmq_namesrv::route_data::RegisterBrokerResult> {
    m.register_broker_at(
        s("DefaultCluster"),
        s(addr),
        s("broker-a"),
        id,
        format!("{}-ha", addr),
        None,
        acting,
        wrapper(topics, state_version),
        Vec::new(),
        now,
    )
}

#[test]
fn first_master_registration() {
    let mut m = RouteInfoManager::new();
    let r = m.register_broker_at(
        s("DefaultCluster"),
        s("10.0.0.1:10911"),
        s("broker-a"),
        0,
        s("10.0.0.1:10912"),
        None,
        None,
        wrapper(&[("T", RW), ("TBW102", RW)], 1),
        Vec::new(),
        1000,
    );
    let r = r.expect("registered");
    assert_eq!(r.ha_server_addr, "");
    assert_eq!(r.master_addr, "");
    let route = m.pickup_topic_route_data(&s("T")).expect("route");
    assert_eq!(route.broker_datas.len(), 1);
    assert_eq!(addrs_of(&route, 0), vec![(0, s("10.0.0.1:10911"))]);
    assert_eq!(route.queue_datas.len(), 1);
    assert_eq!(route.queue_datas[0].perm, RW);
    assert_eq!(route.queue_datas[0].broker_name, "broker-a");
    assert_eq!(route.filter_server_table.entries.len(), 0);
    assert_eq!(route.topic_queue_mapping_by_broker.map(|t| t.entries.len()), Some(0));
}

#[test]
fn prime_slave_leaves_master_queue_writeable() {
    let mut m = RouteInfoManager::new();
    register(&mut m, "10.0.0.1:10911", 0, None, &[("T", RW), ("TBW102", RW)], 1, 1000).unwrap();
    let r = register(&mut m, "10.0.0.2:10911", 1, Some(true), &[("T", RW), ("TBW102", RW)], 1, 1000)
        .unwrap();
    // the slave learns where its master's HA service listens
    assert_eq!(r.ha_server_addr, "10.0.0.1:10911-ha");
    assert_eq!(r.master_addr, "10.0.0.1:10911-ha");
    let route = m.pickup_topic_route_data(&s("T")).unwrap();
    assert_eq!(route.queue_datas.len(), 1);
    assert_eq!(route.queue_datas[0].perm & PERM_WRITE, PERM_WRITE);
    assert_eq!(
        addrs_of(&route, 0),
        vec![(0, s("10.0.0.1:10911")), (1, s("10.0.0.2:10911"))]
    );
}

#[test]
fn acting_master_promotion_on_pickup() {
    let mut m = RouteInfoManager::new_with_config(config_with(true));
    register(&mut m, "10.0.0.2:10911", 1, Some(true), &[("T", PERM_READ), ("U", PERM_READ)], 1, 1000)
        .unwrap();
    let route = m.pickup_topic_route_data(&s("T")).unwrap();
    assert_eq!(addrs_of(&route, 0), vec![(0, s("10.0.0.2:10911"))]);
    // the stored group is not rewritten
    let info = m.get_all_cluster_info();
    let bd = info.broker_addr_table.get(&s("broker-a")).unwrap();
    assert_eq!(bd.broker_addrs.entries, vec![(1, s("10.0.0.2:10911"))]);
}

#[test]
fn no_promotion_without_support() {
    let mut m = RouteInfoManager::new_with_config(config_with(false));
    register(&mut m, "10.0.0.2:10911", 1, Some(true), &[("T", PERM_READ), ("U", PERM_READ)], 1, 1000)
        .unwrap();
    let route = m.pickup_topic_route_data(&s("T")).unwrap();
    assert_eq!(addrs_of(&route, 0), vec![(1, s("10.0.0.2:10911"))]);
}

#[test]
fn no_promotion_for_sync_member_topic() {
    let mut m = RouteInfoManager::new_with_config(config_with(true));
    let topic = "rmq_sys_SYNC_BROKER_MEMBER_broker-a";
    register(&mut m, "10.0.0.2:10911", 1, Some(true), &[(topic, PERM_READ), ("U", PERM_READ)], 1, 1000)
        .unwrap();
    let route = m.pickup_topic_route_data(&s(topic)).unwrap();
    assert_eq!(addrs_of(&route, 0), vec![(1, s("10.0.0.2:10911"))]);
}

#[test]
fn prime_slave_write_bit_masked() {
    let mut m = RouteInfoManager::new_with_config(config_with(true));
    register(&mut m, "10.0.0.2:10911", 1, Some(true), &[("T", RW | 8), ("U", RW)], 1, 1000).unwrap();
    let route = m.pickup_topic_route_data(&s("T")).unwrap();
    assert_eq!(route.queue_datas[0].perm, PERM_READ | 8);
    // queues not writeable: the slave is shown as master
    assert_eq!(addrs_of(&route, 0), vec![(0, s("10.0.0.2:10911"))]);
}

#[test]
fn stale_registration_rejected() {
    let mut m = RouteInfoManager::new();
    register(&mut m, "A", 0, None, &[("T", RW), ("U", RW)], 5, 1000).unwrap();
    let r = register(&mut m, "B", 0, None, &[("T", RW), ("U", RW)], 3, 1000).unwrap();
    assert_eq!(r.ha_server_addr, "");
    assert_eq!(r.master_addr, "");
    assert!(nested_get(&m.broker_live_table, &s("DefaultCluster"), &s("B")).is_none());
    assert!(nested_get(&m.broker_live_table, &s("DefaultCluster"), &s("A")).is_some());
    let route = m.pickup_topic_route_data(&s("T")).unwrap();
    assert_eq!(addrs_of(&route, 0), vec![(0, s("A"))]);
}

#[test]
fn newer_registration_replaces_address() {
    let mut m = RouteInfoManager::new();
    register(&mut m, "A", 0, None, &[("T", RW), ("U", RW)], 3, 1000).unwrap();
    register(&mut m, "B", 0, None, &[("T", RW), ("U", RW)], 5, 1000).unwrap();
    let route = m.pickup_topic_route_data(&s("T")).unwrap();
    assert_eq!(addrs_of(&route, 0), vec![(0, s("B"))]);
}

#[test]
fn single_topic_guard() {
    let mut m = RouteInfoManager::new();
    let r = register(&mut m, "A", 0, None, &[("T", RW)], 1, 1000);
    assert!(r.is_none());
    assert!(m.pickup_topic_route_data(&s("T")).is_none());
    assert!(nested_get(&m.broker_live_table, &s("DefaultCluster"), &s("A")).is_none());
    // the cluster and the group rows are already in place
    let info = m.get_all_cluster_info();
    assert!(info.broker_addr_table.get(&s("broker-a")).is_some());
    let members = info.cluster_addr_table.get(&s("DefaultCluster")).unwrap();
    assert!(members.contains_key(&s("broker-a")));
    // once the id is known, a single topic is accepted
    register(&mut m, "A", 0, None, &[("T", RW), ("U", RW)], 1, 1000).unwrap();
    assert!(register(&mut m, "A", 0, None, &[("V", RW)], 1, 1000).is_some());
    assert!(m.pickup_topic_route_data(&s("V")).is_some());
}

#[test]
fn scavenger_eviction() {
    let mut m = RouteInfoManager::new();
    register(&mut m, "10.0.0.1:10911", 0, None, &[("T", RW), ("U", RW)], 1, 1000).unwrap();
    assert_eq!(m.scan_not_active_broker(1000 + 120000), 0);
    assert!(m.pickup_topic_route_data(&s("T")).is_some());
    assert_eq!(m.scan_not_active_broker(1000 + 121000), 1);
    assert!(m.pickup_topic_route_data(&s("T")).is_none());
    let info = m.get_all_cluster_info();
    assert_eq!(info.broker_addr_table.entries.len(), 0);
    assert_eq!(info.cluster_addr_table.entries.len(), 0);
    assert_eq!(m.topic_queue_table.entries.len(), 0);
    assert_eq!(m.broker_live_table.entries.len(), 1);
    assert!(nested_get(&m.broker_live_table, &s("DefaultCluster"), &s("10.0.0.1:10911")).is_none());
}

fn route_summary(r: &Option<TopicRouteData>) -> Option<(Vec<Vec<(i64, String)>>, Vec<(String, u32)>, usize)> {
    r.as_ref().map(|route| {
        let bds = (0..route.broker_datas.len()).map(|i| addrs_of(route, i)).collect();
        let qds = route.queue_datas.iter().map(|q| (q.broker_name.clone(), q.perm)).collect();
        (bds, qds, route.filter_server_table.entries.len())
    })
}

#[test]
fn pickup_is_pure() {
    let mut m = RouteInfoManager::new_with_config(config_with(true));
    register(&mut m, "10.0.0.2:10911", 1, Some(true), &[("T", PERM_READ), ("U", RW)], 1, 1000).unwrap();
    let a = m.pickup_topic_route_data(&s("T"));
    let b = m.pickup_topic_route_data(&s("T"));
    assert!(a.is_some());
    assert_eq!(route_summary(&a), route_summary(&b));
}

#[test]
fn registration_is_idempotent() {
    let mut once = RouteInfoManager::new();
    register(&mut once, "A", 0, None, &[("T", RW), ("U", RW)], 1, 1000).unwrap();
    let mut twice = RouteInfoManager::new();
    register(&mut twice, "A", 0, None, &[("T", RW), ("U", RW)], 1, 1000).unwrap();
    register(&mut twice, "A", 0, None, &[("T", RW), ("U", RW)], 1, 1000).unwrap();
    for t in ["T", "U"] {
        assert_eq!(
            route_summary(&once.pickup_topic_route_data(&s(t))),
            route_summary(&twice.pickup_topic_route_data(&s(t)))
        );
    }
    assert_eq!(once.broker_live_table.entries.len(), twice.broker_live_table.entries.len());
    assert_eq!(once.cluster_addr_table.entries.len(), twice.cluster_addr_table.entries.len());
}

#[test]
fn unregister_last_address_forgets_group() {
    let mut m = RouteInfoManager::new();
    register(&mut m, "A", 0, None, &[("T", RW), ("U", RW)], 1, 1000).unwrap();
    register(&mut m, "B", 1, None, &[("T", RW), ("U", RW)], 1, 1000).unwrap();
    m.unregister_broker(&s("DefaultCluster"), &s("B"), &s("broker-a"), 1);
    let route = m.pickup_topic_route_data(&s("T")).unwrap();
    assert_eq!(addrs_of(&route, 0), vec![(0, s("A"))]);
    m.unregister_broker(&s("DefaultCluster"), &s("A"), &s("broker-a"), 0);
    assert!(m.pickup_topic_route_data(&s("T")).is_none());
    assert_eq!(m.topic_queue_table.entries.len(), 0);
    assert_eq!(m.broker_addr_table.entries.len(), 0);
    assert_eq!(m.cluster_addr_table.entries.len(), 0);
    assert!(nested_get(&m.broker_live_table, &s("DefaultCluster"), &s("A")).is_none());
}

#[test]
fn filter_servers_in_route() {
    let mut m = RouteInfoManager::new();
    m.register_broker_at(
        s("DefaultCluster"),
        s("A"),
        s("broker-a"),
        0,
        s("A-ha"),
        None,
        None,
        wrapper(&[("T", RW), ("U", RW)], 1),
        vec![s("F1"), s("F2")],
        1000,
    )
    .unwrap();
    let route = m.pickup_topic_route_data(&s("T")).unwrap();
    assert_eq!(route.filter_server_table.get(&s("A")), Some(&vec![s("F1"), s("F2")]));
    // an empty list removes the entry
    register(&mut m, "A", 0, None, &[("T", RW), ("U", RW)], 1, 1000).unwrap();
    let route = m.pickup_topic_route_data(&s("T")).unwrap();
    assert_eq!(route.filter_server_table.entries.len(), 0);
}

#[test]
fn mappings_in_route() {
    let mut m = RouteInfoManager::new();
    let mut w = wrapper(&[("T", RW), ("U", RW)], 1);
    w.topic_queue_mapping_info_map.insert(
        s("T"),
        TopicQueueMappingInfo { topic: s("T"), bname: s("broker-a"), total_queues: 4, epoch: 7 },
    );
    m.register_broker_at(s("DefaultCluster"), s("A"), s("broker-a"), 0, s("A-ha"), None, None, w, Vec::new(), 1000)
        .unwrap();
    let route = m.pickup_topic_route_data(&s("T")).unwrap();
    let mapping = route.topic_queue_mapping_by_broker.unwrap();
    let info = mapping.get(&s("broker-a")).unwrap();
    assert_eq!(info.total_queues, 4);
    assert_eq!(info.epoch, 7);
}

#[test]
fn unknown_topic_has_no_route() {
    let m = RouteInfoManager::new();
    assert!(m.pickup_topic_route_data(&s("T")).is_none());
}

#[test]
fn write_mask_keeps_other_bits() {
    assert_eq!(mask_write(PERM_READ | PERM_WRITE | 1 | 8), PERM_READ | 1 | 8);
    assert_eq!(mask_write(PERM_READ), PERM_READ);
}

#[test]
fn sync_member_prefix() {
    assert!(is_sync_broker_member_topic(&s("rmq_sys_SYNC_BROKER_MEMBER_x")));
    assert!(!is_sync_broker_member_topic(&s("rmq_sys_SYNC")));
    assert!(!is_sync_broker_member_topic(&s("T")));
}

#[test]
fn clock_stamped_registration() {
    let mut m = RouteInfoManager::new();
    let r = m.register_broker(
        s("DefaultCluster"),
        s("A"),
        s("broker-a"),
        0,
        s("A-ha"),
        None,
        None,
        None,
        wrapper(&[("T", RW), ("U", RW)], 1),
        Vec::new(),
    );
    assert!(r.is_some());
    let info = nested_get(&m.broker_live_table, &s("DefaultCluster"), &s("A")).unwrap();
    assert!(info.last_update_timestamp > 1_600_000_000_000);
    assert_eq!(info.heartbeat_timeout_millis, 120000);
}

#[test]
fn broker_controller_starts_once() {
    let c = start_broker_controller(BrokerController::new()).unwrap();
    assert!(c.started);
    assert_eq!(c.start_count, 1);
    let c = start_broker_controller(c).unwrap();
    assert_eq!(c.start_count, 1);
}

#[test]
fn topic_deletion_on_registration_keeps_routes() {
    let mut m = RouteInfoManager::new_with_config(NamesrvConfig {
        delete_topic_with_broker_registration: true,
        support_acting_master: false,
        notify_min_broker_id_changed: false,
    });
    register(&mut m, "A", 0, None, &[("T", RW), ("U", RW)], 1, 1000).unwrap();
    register(&mut m, "A", 0, None, &[("T", RW), ("U", PERM_READ), ("V", RW)], 2, 1000).unwrap();
    let t = m.pickup_topic_route_data(&s("T")).unwrap();
    assert_eq!(t.queue_datas[0].perm, RW);
    let u = m.pickup_topic_route_data(&s("U")).unwrap();
    assert_eq!(u.queue_datas[0].perm, PERM_READ);
    assert!(m.pickup_topic_route_data(&s("V")).is_some());
}

#[test]
fn prime_slave_registered_twice_stays_read_only() {
    let mut once = RouteInfoManager::new_with_config(config_with(true));
    register(&mut once, "10.0.0.2:10911", 1, Some(true), &[("T", RW), ("U", RW)], 1, 1000).unwrap();
    let mut twice = RouteInfoManager::new_with_config(config_with(true));
    register(&mut twice, "10.0.0.2:10911", 1, Some(true), &[("T", RW), ("U", RW)], 1, 1000).unwrap();
    register(&mut twice, "10.0.0.2:10911", 1, Some(true), &[("T", RW), ("U", RW)], 1, 1000).unwrap();
    for t in ["T", "U"] {
        let a = once.pickup_topic_route_data(&s(t)).unwrap();
        let b = twice.pickup_topic_route_data(&s(t)).unwrap();
        assert_eq!(a.queue_datas[0].perm, PERM_READ);
        assert_eq!(b.queue_datas[0].perm, PERM_READ);
        assert_eq!(route_summary(&Some(a)), route_summary(&Some(b)));
    }
}

#[test]
fn min_broker_id_notification() {
    let mut m = RouteInfoManager::new_with_config(NamesrvConfig {
        delete_topic_with_broker_registration: false,
        support_acting_master: false,
        notify_min_broker_id_changed: true,
    });
    // an unknown group counts its smallest id as the master's
    assert!(!m.notify_min_broker_id_changed(&s("broker-a"), 2));
    register(&mut m, "B", 2, None, &[("T", RW), ("U", RW)], 1, 1000).unwrap();
    assert!(m.notify_min_broker_id_changed(&s("broker-a"), 1));
    assert!(!m.notify_min_broker_id_changed(&s("broker-a"), 3));
    let quiet = RouteInfoManager::new();
    assert!(!quiet.notify_min_broker_id_changed(&s("broker-a"), -1));
}

#[test]
fn group_moves_to_new_cluster() {
    let mut m = RouteInfoManager::new();
    register(&mut m, "A", 0, None, &[("T", RW), ("U", RW)], 1, 1000).unwrap();
    m.register_broker_at(
        s("OtherCluster"),
        s("A"),
        s("broker-a"),
        0,
        s("A-ha"),
        None,
        None,
        wrapper(&[("T", RW), ("U", RW)], 1),
        Vec::new(),
        1000,
    )
    .unwrap();
    let info = m.get_all_cluster_info();
    assert_eq!(info.broker_addr_table.get(&s("broker-a")).unwrap().cluster, "OtherCluster");
    let members = info.cluster_addr_table.get(&s("OtherCluster")).unwrap();
    assert!(members.contains_key(&s("broker-a")));
    let old_members = info.cluster_addr_table.get(&s("DefaultCluster"));
    assert!(old_members.map_or(true, |o| !o.contains_key(&s("broker-a"))));
}

#[test]
fn timestamp_from_millis() {
    assert_eq!(millis_to_timestamp(Some(1234)), 1234);
    assert_eq!(millis_to_timestamp(Some(u128::MAX)), i64::MAX);
    assert_eq!(millis_to_timestamp(None), 0);
}

#[test]
fn scavenger_keeps_live_members() {
    let mut m = RouteInfoManager::new();
    register(&mut m, "A", 0, None, &[("T", RW), ("U", RW)], 1, 1000).unwrap();
    register(&mut m, "B", 1, None, &[("T", RW), ("U", RW)], 1, 100000).unwrap();
    assert_eq!(m.scan_not_active_broker(122000), 1);
    let route = m.pickup_topic_route_data(&s("T")).unwrap();
    assert_eq!(addrs_of(&route, 0), vec![(1, s("B"))]);
    assert!(nested_get(&m.broker_live_table, &s("DefaultCluster"), &s("B")).is_some());
}
