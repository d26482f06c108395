use vstd::prelude::*;

use crate::idmap::{drop_addr, without_addr};
use crate::manager::{
    live_has, master_ha_addr,
    acting_flag, broker_changed, filter_table_view, ids_of, is_partial_registration, is_prime_slave,
    is_register_first, is_stale_registration, lemma_del2_twice, register_post,
    first_queue_not_writeable, resolved_names, route_broker_is, route_exists, route_is, route_queues, swept_ids, topic_changed, topics_with, unregister_post, RouteInfoManager,
};
use crate::nested::{del2, put2, row_or_empty};
use crate::route_data::{perm_without_write, perm_writeable, BrokerData, TopicConfigAndMappingSerializeWrapper, TopicRouteData};

verus! {

/// Two routes hold the same queue data, the same groups with the same members, the same
/// filter servers and the same static mappings.
pub open spec fn same_route(a: &TopicRouteData, b: &TopicRouteData) -> bool {
    &&& a.order_topic_conf == b.order_topic_conf
    &&& a.queue_datas@ == b.queue_datas@
    &&& a.broker_datas@.len() == b.broker_datas@.len()
    &&& forall|j: int|
        0 <= j < a.broker_datas@.len() ==> route_broker_is(
            #[trigger] a.broker_datas@[j],
            b.broker_datas@[j],
            b.broker_datas@[j].broker_addrs@,
        )
    &&& filter_table_view(&a.filter_server_table) == filter_table_view(&b.filter_server_table)
    &&& match (a.topic_queue_mapping_by_broker, b.topic_queue_mapping_by_broker) {
        (Some(x), Some(y)) => x@ == y@,
        (None, None) => true,
        _ => false,
    }
}

/// Route pickup is a function of the tables: two pickups of one topic from one state give
/// the same route.
pub proof fn lemma_pickup_is_pure(s: &RouteInfoManager, topic: Seq<char>, a: &TopicRouteData, b: &TopicRouteData)
    requires
        route_is(s, topic, a),
        route_is(s, topic, b),
    ensures
        same_route(a, b),
{
}

/// Once the last member of a group is unregistered, no table names the group: not the broker
/// table, no cluster, no topic's queue data and no topic's static mapping.
pub proof fn lemma_unregister_last_forgets_group(
    s0: &RouteInfoManager,
    s1: &RouteInfoManager,
    cluster_name: Seq<char>,
    broker_addr: Seq<char>,
    broker_name: Seq<char>,
)
    requires
        unregister_post(s0, s1, cluster_name, broker_addr, broker_name),
        s0.brokers().contains_key(broker_name),
        drop_addr(ids_of(s0.brokers(), broker_name), broker_addr) == Map::<i64, String>::empty(),
    ensures
        !s1.brokers().contains_key(broker_name),
        forall|c: Seq<char>| #[trigger] s1.clusters().contains_key(c) ==> !s1.clusters()[c].contains_key(broker_name),
        forall|t: Seq<char>| #[trigger] s1.topics().contains_key(t) ==> !s1.topics()[t].contains_key(broker_name),
        forall|t: Seq<char>| #[trigger] s1.mappings().contains_key(t) ==> !s1.mappings()[t].contains_key(broker_name),
{
}

/// The two live tables hold the same broker processes with the same versions, timeouts and HA
/// addresses; the times of their last heartbeats may differ.
pub open spec fn same_live_but_time(
    a: Map<Seq<char>, Map<Seq<char>, crate::route_data::BrokerLiveInfo>>,
    b: Map<Seq<char>, Map<Seq<char>, crate::route_data::BrokerLiveInfo>>,
) -> bool {
    forall|c: Seq<char>, x: Seq<char>|
        #[trigger] live_has(a, c, x) == live_has(b, c, x) && (live_has(a, c, x) ==> a[c][x].heartbeat_timeout_millis
            == b[c][x].heartbeat_timeout_millis && a[c][x].data_version == b[c][x].data_version
            && a[c][x].ha_server_addr == b[c][x].ha_server_addr)
}

/// The two results are both absent, or both present with the same addresses.
pub open spec fn same_result(
    a: Option<crate::route_data::RegisterBrokerResult>,
    b: Option<crate::route_data::RegisterBrokerResult>,
) -> bool {
    match (a, b) {
        (None, None) => true,
        (Some(x), Some(y)) => x.ha_server_addr@ == y.ha_server_addr@ && x.master_addr@ == y.master_addr@,
        _ => false,
    }
}

/// The two states hold the same tables, up to the order in which each group lists its members
/// and the times of the last heartbeats.
pub open spec fn same_tables(a: &RouteInfoManager, b: &RouteInfoManager) -> bool {
    &&& a.topics() == b.topics()
    &&& a.clusters() == b.clusters()
    &&& same_live_but_time(a.live(), b.live())
    &&& a.filters() == b.filters()
    &&& a.mappings() == b.mappings()
    &&& a.brokers().dom() == b.brokers().dom()
    &&& forall|n: Seq<char>| #[trigger] a.brokers().contains_key(n) ==> route_broker_is(
        a.brokers()[n],
        b.brokers()[n],
        b.brokers()[n].broker_addrs@,
    )
}

proof fn lemma_put2_twice<V>(t: Map<Seq<char>, Map<Seq<char>, V>>, a: Seq<char>, b: Seq<char>, v: V)
    ensures
        put2(put2(t, a, b, v), a, b, v) == put2(t, a, b, v),
{
    assert(row_or_empty(put2(t, a, b, v), a) == row_or_empty(t, a).insert(b, v));
    assert(row_or_empty(t, a).insert(b, v).insert(b, v) =~= row_or_empty(t, a).insert(b, v));
    assert(put2(put2(t, a, b, v), a, b, v) =~= put2(t, a, b, v));
}

proof fn lemma_without_addr_twice(ids: Map<i64, String>, keep: i64, addr: Seq<char>)
    ensures
        without_addr(without_addr(ids, keep, addr), keep, addr) == without_addr(ids, keep, addr),
{
    assert(without_addr(without_addr(ids, keep, addr), keep, addr) =~= without_addr(ids, keep, addr));
}

/// Registering the same broker with the same announcement twice leaves the tables as one
/// registration does, but for the time of its last heartbeat, and gives the same result.
pub proof fn lemma_register_twice(
    s0: &RouteInfoManager,
    s1: &RouteInfoManager,
    s2: &RouteInfoManager,
    cluster_name: String,
    broker_addr: String,
    broker_name: String,
    broker_id: i64,
    ha_server_addr: String,
    zone_name: Option<String>,
    enable_acting_master: Option<bool>,
    w: &TopicConfigAndMappingSerializeWrapper,
    filter_server_list: Vec<String>,
    now1: i64,
    now2: i64,
    r1: Option<crate::route_data::RegisterBrokerResult>,
    r2: Option<crate::route_data::RegisterBrokerResult>,
)
    requires
        s0.wf(),
        s1.wf(),
        s2.wf(),
        w.wf(),
        register_post(s0, s1, cluster_name, broker_addr, broker_name, broker_id, ha_server_addr, zone_name,
            enable_acting_master, w, filter_server_list, now1, r1),
        register_post(s1, s2, cluster_name, broker_addr, broker_name, broker_id, ha_server_addr, zone_name,
            enable_acting_master, w, filter_server_list, now2, r2),
    ensures
        same_tables(s1, s2),
        same_result(r1, r2),
{
    let c = cluster_name@;
    let a = broker_addr@;
    let n = broker_name@;
    let dv = w.version();
    let swept0 = swept_ids(s0, n, broker_id, a);
    let ids = swept0.insert(broker_id, broker_addr);
    let c0 = if s0.brokers().contains_key(n) && s0.brokers()[n].cluster@ != c {
        del2(s0.clusters(), s0.brokers()[n].cluster@, n)
    } else {
        s0.clusters()
    };
    lemma_put2_twice(c0, c, n, ());
    assert(s1.brokers()[n].cluster@ == c);
    assert(s1.brokers().dom() =~= s2.brokers().dom());
    assert(ids_of(s1.brokers(), n) == s1.brokers()[n].broker_addrs@);
    if is_stale_registration(s0, c, n, a, broker_id, dv) {
        lemma_without_addr_twice(ids_of(s0.brokers(), n), broker_id, a);
        assert(swept_ids(s1, n, broker_id, a) == swept0);
        assert(is_stale_registration(s1, c, n, a, broker_id, dv));
        lemma_del2_twice(s0.live(), c, a);
    } else if is_partial_registration(s0, n, a, broker_id, w) {
        lemma_without_addr_twice(ids_of(s0.brokers(), n), broker_id, a);
        assert(swept_ids(s1, n, broker_id, a) == swept0);
        assert(!is_stale_registration(s1, c, n, a, broker_id, dv));
    } else {
        assert(swept_ids(s1, n, broker_id, a) =~= ids);
        assert(!is_stale_registration(s1, c, n, a, broker_id, dv));
        assert(!is_partial_registration(s1, n, a, broker_id, w));
        assert(!is_register_first(s1, n, a, broker_id));
        assert(ids.insert(broker_id, broker_addr) =~= ids);
        assert(is_prime_slave(s1, n, broker_addr, broker_id, enable_acting_master) == is_prime_slave(
            s0,
            n,
            broker_addr,
            broker_id,
            enable_acting_master,
        ));
        assert(!broker_changed(s1.live(), c, a, dv));
        if filter_server_list@.len() == 0 {
            lemma_del2_twice(s0.filters(), c, a);
        } else {
            lemma_put2_twice(s0.filters(), c, a, filter_server_list);
        }
        if (broker_id == 0 || is_prime_slave(s0, n, broker_addr, broker_id, enable_acting_master))
            && w.topic_config_table is Some {
            let mask_allowed = is_prime_slave(s0, n, broker_addr, broker_id, enable_acting_master) && acting_flag(
                enable_acting_master,
            );
            assert forall|t: Seq<char>| #[trigger] w.topics().contains_key(t) implies !topic_changed(
                s1.live(),
                s1.topics(),
                c,
                a,
                dv,
                n,
                t,
            ) by {
                assert(s1.topics().contains_key(t) && s1.topics()[t].contains_key(n));
            }
            assert(topics_with(s1.topics(), w.topics(), s1.live(), c, a, dv, broker_name, false, mask_allowed)
                =~= s1.topics());
        }
    }
}

impl RouteInfoManager {
    /// The consistency of the tables: each cluster member has a group of that cluster; each
    /// group that gives queue data to a topic exists; broker ids are not negative; no address
    /// stands under two ids of one group; no filter-server list is empty; each group and each
    /// queue data carries the broker name it is filed under.
    pub open spec fn inv(&self) -> bool {
        &&& self.wf()
        &&& forall|c: Seq<char>, b: Seq<char>|
            self.clusters().contains_key(c) && #[trigger] self.clusters()[c].contains_key(b) ==> self.brokers().contains_key(b)
                && self.brokers()[b].cluster@ == c
        &&& forall|t: Seq<char>, b: Seq<char>|
            self.topics().contains_key(t) && #[trigger] self.topics()[t].contains_key(b) ==> self.brokers().contains_key(b)
        &&& forall|b: Seq<char>| #[trigger] self.brokers().contains_key(b) ==> ids_ok(self.brokers()[b].broker_addrs@)
        &&& forall|c: Seq<char>, a: Seq<char>|
            self.filters().contains_key(c) && #[trigger] self.filters()[c].contains_key(a) ==> self.filters()[c][a]@.len() > 0
        &&& forall|b: Seq<char>| #[trigger] self.brokers().contains_key(b) ==> self.brokers()[b].broker_name@ == b
        &&& forall|t: Seq<char>, b: Seq<char>|
            self.topics().contains_key(t) && #[trigger] self.topics()[t].contains_key(b) ==> self.topics()[t][b].broker_name@ == b
    }
}

/// Every id is the master's or above, and no address stands under two ids.
pub open spec fn ids_ok(ids: Map<i64, String>) -> bool {
    &&& forall|i: i64| #[trigger] ids.contains_key(i) ==> i >= 0
    &&& forall|i: i64, j: i64| #[trigger] ids.contains_key(i) && #[trigger] ids.contains_key(j) && i != j ==> ids[i]@ != ids[j]@
}

/// The empty tables are consistent.
pub proof fn lemma_empty_inv(s: &RouteInfoManager)
    requires
        s.wf(),
        s.is_empty_state(),
    ensures
        s.inv(),
{
}

/// A registration of a broker with an id of zero or above keeps the tables consistent.
pub proof fn lemma_register_keeps_inv(
    s0: &RouteInfoManager,
    s1: &RouteInfoManager,
    cluster_name: String,
    broker_addr: String,
    broker_name: String,
    broker_id: i64,
    ha_server_addr: String,
    zone_name: Option<String>,
    enable_acting_master: Option<bool>,
    w: &TopicConfigAndMappingSerializeWrapper,
    filter_server_list: Vec<String>,
    now: i64,
    r: Option<crate::route_data::RegisterBrokerResult>,
)
    requires
        s0.inv(),
        s1.wf(),
        register_post(s0, s1, cluster_name, broker_addr, broker_name, broker_id, ha_server_addr, zone_name,
            enable_acting_master, w, filter_server_list, now, r),
        broker_id >= 0,
    ensures
        s1.inv(),
{
    let c = cluster_name@;
    let a = broker_addr@;
    let n = broker_name@;
    let ids0 = ids_of(s0.brokers(), n);
    let swept = swept_ids(s0, n, broker_id, a);
    assert(ids_ok(ids0));
    assert(ids_ok(swept));
    let ids = swept.insert(broker_id, broker_addr);
    assert(ids_ok(ids)) by {
        assert forall|i: i64, j: i64| #[trigger] ids.contains_key(i) && #[trigger] ids.contains_key(j) && i != j implies ids[i]@
            != ids[j]@ by {
            if i != broker_id && j != broker_id {
                assert(swept.contains_key(i) && swept.contains_key(j));
            }
        }
    }
    assert(s1.brokers().contains_key(n) && s1.brokers()[n].cluster@ == c);
    assert forall|c2: Seq<char>, b: Seq<char>|
        s1.clusters().contains_key(c2) && #[trigger] s1.clusters()[c2].contains_key(b) implies s1.brokers().contains_key(b)
            && s1.brokers()[b].cluster@ == c2 by {
        if !(c2 == c && b == n) {
            assert(s0.clusters().contains_key(c2) && s0.clusters()[c2].contains_key(b));
            if b == n {
                assert(s0.brokers()[n].cluster@ == c2);
            }
            if b != n {
                assert(s0.brokers().contains_key(b));
                assert(s1.brokers().contains_key(b));
                assert(s1.brokers()[b] == s0.brokers()[b]);
            }
        }
    }
    assert forall|t: Seq<char>, b: Seq<char>|
        s1.topics().contains_key(t) && #[trigger] s1.topics()[t].contains_key(b) implies s1.brokers().contains_key(b) by {
        if b != n {
            assert(s0.topics().contains_key(t) && s0.topics()[t].contains_key(b));
        }
    }
    assert forall|c2: Seq<char>, a2: Seq<char>|
        s1.filters().contains_key(c2) && #[trigger] s1.filters()[c2].contains_key(a2) implies s1.filters()[c2][a2]@.len() > 0 by {
        if !(c2 == c && a2 == a) {
            assert(s0.filters().contains_key(c2) && s0.filters()[c2].contains_key(a2));
        }
    }
}

/// Unregistering a broker keeps the tables consistent.
pub proof fn lemma_unregister_keeps_inv(
    s0: &RouteInfoManager,
    s1: &RouteInfoManager,
    cluster_name: Seq<char>,
    broker_addr: Seq<char>,
    broker_name: Seq<char>,
)
    requires
        s0.inv(),
        s1.wf(),
        unregister_post(s0, s1, cluster_name, broker_addr, broker_name),
    ensures
        s1.inv(),
{
    let n = broker_name;
    assert forall|b: Seq<char>| #[trigger] s1.brokers().contains_key(b) implies ids_ok(s1.brokers()[b].broker_addrs@) by {
        assert(s0.brokers().contains_key(b));
        assert(ids_ok(s0.brokers()[b].broker_addrs@));
    }
    assert forall|c2: Seq<char>, b: Seq<char>|
        s1.clusters().contains_key(c2) && #[trigger] s1.clusters()[c2].contains_key(b) implies s1.brokers().contains_key(b)
            && s1.brokers()[b].cluster@ == c2 by {
        assert(s0.clusters().contains_key(c2) && s0.clusters()[c2].contains_key(b));
        assert(s0.brokers().contains_key(b));
    }
    assert forall|t: Seq<char>, b: Seq<char>|
        s1.topics().contains_key(t) && #[trigger] s1.topics()[t].contains_key(b) implies s1.brokers().contains_key(b) by {
        assert(s0.topics().contains_key(t) && s0.topics()[t].contains_key(b));
    }
    assert forall|c2: Seq<char>, a2: Seq<char>|
        s1.filters().contains_key(c2) && #[trigger] s1.filters()[c2].contains_key(a2) implies s1.filters()[c2][a2]@.len() > 0 by {
        assert(s0.filters().contains_key(c2) && s0.filters()[c2].contains_key(a2));
    }
}

proof fn lemma_resolved_names_known(keys: Seq<Seq<char>>, brokers: Map<Seq<char>, BrokerData>)
    ensures
        forall|j: int| 0 <= j < resolved_names(keys, brokers).len() ==> brokers.contains_key(
            #[trigger] resolved_names(keys, brokers)[j],
        ),
    decreases keys.len(),
{
    if keys.len() > 0 {
        lemma_resolved_names_known(keys.drop_last(), brokers);
        let rest = resolved_names(keys.drop_last(), brokers);
        assert forall|j: int| 0 <= j < resolved_names(keys, brokers).len() implies brokers.contains_key(
            #[trigger] resolved_names(keys, brokers)[j],
        ) by {
            if brokers.contains_key(keys.last()) {
                assert(resolved_names(keys, brokers) == rest.push(keys.last()));
                if j < rest.len() {
                    assert(rest[j] == resolved_names(keys, brokers)[j]);
                }
            } else {
                assert(rest[j] == resolved_names(keys, brokers)[j]);
            }
        }
    }
}

/// Once the last member of a group is unregistered from consistent tables, no route names the
/// group: not among its queue data, not among its groups, not among its static mappings.
pub proof fn lemma_unregister_last_leaves_no_route(
    s0: &RouteInfoManager,
    s1: &RouteInfoManager,
    cluster_name: Seq<char>,
    broker_addr: Seq<char>,
    broker_name: Seq<char>,
    topic: Seq<char>,
    route: &TopicRouteData,
)
    requires
        s0.inv(),
        s1.wf(),
        unregister_post(s0, s1, cluster_name, broker_addr, broker_name),
        s0.brokers().contains_key(broker_name),
        drop_addr(ids_of(s0.brokers(), broker_name), broker_addr) == Map::<i64, String>::empty(),
        route_exists(s1, topic),
        route_is(s1, topic, route),
    ensures
        forall|i: int| 0 <= i < route.queue_datas@.len() ==> (#[trigger] route.queue_datas@[i]).broker_name@ != broker_name,
        forall|j: int| 0 <= j < route.broker_datas@.len() ==> (#[trigger] route.broker_datas@[j]).broker_name@ != broker_name,
        route.topic_queue_mapping_by_broker matches Some(m) && !m@.contains_key(broker_name),
{
    lemma_unregister_keeps_inv(s0, s1, cluster_name, broker_addr, broker_name);
    lemma_unregister_last_forgets_group(s0, s1, cluster_name, broker_addr, broker_name);
    let row = s1.topic_queue_table@[topic];
    assert(row.wf());
    assert(s1.topics()[topic] == row@);
    assert forall|i: int| 0 <= i < route.queue_datas@.len() implies (#[trigger] route.queue_datas@[i]).broker_name@
        != broker_name by {
        row.lemma_entry(i);
        let k = row.entries@[i].0@;
        assert(route.queue_datas@[i] == row.entries@[i].1);
        assert(s1.topics()[topic].contains_key(k));
    }
    let keys = crate::manager::entry_keys(&row, row.entries@.len() as int);
    lemma_resolved_names_known(keys, s1.brokers());
    assert forall|j: int| 0 <= j < route.broker_datas@.len() implies (#[trigger] route.broker_datas@[j]).broker_name@
        != broker_name by {
        let names = resolved_names(keys, s1.brokers());
        assert(s1.brokers().contains_key(names[j]));
    }
}

/// In consistent tables, the queue data that acting-master promotion finds for a group by its
/// name is the one filed under that group in the topic's row.
pub proof fn lemma_promotion_reads_row(s: &RouteInfoManager, topic: Seq<char>, name: Seq<char>)
    requires
        s.inv(),
        s.topics().contains_key(topic),
    ensures
        first_queue_not_writeable(route_queues(s, topic), name) == (s.topics()[topic].contains_key(name)
            && !perm_writeable(s.topics()[topic][name].perm)),
{
    let row = s.topic_queue_table@[topic];
    let qds = route_queues(s, topic);
    assert(row.wf());
    assert(s.topics()[topic] == row@);
    assert forall|i: int| 0 <= i < qds.len() implies #[trigger] qds[i].broker_name@ == row.entries@[i].0@ && qds[i]
        == row@[row.entries@[i].0@] by {
        row.lemma_entry(i);
        assert(qds[i] == row.entries@[i].1);
    }
    if first_queue_not_writeable(qds, name) {
        let i = choose|i: int|
            0 <= i < qds.len() && #[trigger] qds[i].broker_name@ == name && !perm_writeable(qds[i].perm)
                && forall|j: int| 0 <= j < i ==> qds[j].broker_name@ != name;
        row.lemma_entry(i);
    }
    if s.topics()[topic].contains_key(name) && !perm_writeable(s.topics()[topic][name].perm) {
        row.lemma_key(name);
        let y = choose|y: int| row.has_key_at(name, y);
        row.lemma_entry(y);
        assert forall|j: int| 0 <= j < y implies qds[j].broker_name@ != name by {
            assert(row.entries@[j].0@ != row.entries@[y].0@);
        }
        assert(qds[y].broker_name@ == name && !perm_writeable(qds[y].perm));
    }
}

/// Broker `name` has no writeable queue data on any topic of `tc`.
pub open spec fn read_only_on(
    topics: Map<Seq<char>, Map<Seq<char>, crate::route_data::QueueData>>,
    tc: Map<Seq<char>, crate::route_data::TopicConfig>,
    name: Seq<char>,
) -> bool {
    forall|t: Seq<char>|
        #[trigger] tc.contains_key(t) && topics.contains_key(t) && topics[t].contains_key(name) ==> !perm_writeable(
            topics[t][name].perm,
        )
}

proof fn lemma_masked_not_writeable(perm: u32)
    ensures
        !perm_writeable(perm_without_write(perm)),
{
    assert((perm & !2u32) & 2u32 != 2u32) by (bit_vector);
}

/// A prime slave that allows an acting master never makes its queues on the announced topics
/// writeable: where none was writeable before its registration, none is after it, and a topic
/// it announces for the first time is stored without the write bit.
pub proof fn lemma_prime_slave_stays_read_only(
    s0: &RouteInfoManager,
    s1: &RouteInfoManager,
    cluster_name: String,
    broker_addr: String,
    broker_name: String,
    broker_id: i64,
    ha_server_addr: String,
    zone_name: Option<String>,
    enable_acting_master: Option<bool>,
    w: &TopicConfigAndMappingSerializeWrapper,
    filter_server_list: Vec<String>,
    now: i64,
    r: Option<crate::route_data::RegisterBrokerResult>,
)
    requires
        register_post(s0, s1, cluster_name, broker_addr, broker_name, broker_id, ha_server_addr, zone_name,
            enable_acting_master, w, filter_server_list, now, r),
        is_prime_slave(s0, broker_name@, broker_addr, broker_id, enable_acting_master),
        acting_flag(enable_acting_master),
        read_only_on(s0.topics(), w.topics(), broker_name@),
    ensures
        read_only_on(s1.topics(), w.topics(), broker_name@),
{
    let n = broker_name@;
    assert forall|t: Seq<char>|
        #[trigger] w.topics().contains_key(t) && s1.topics().contains_key(t) && s1.topics()[t].contains_key(n) implies !perm_writeable(
            s1.topics()[t][n].perm,
        ) by {
        lemma_masked_not_writeable(w.topics()[t].perm);
    }
}

/// Storing queue data of an existing group under its own name, as a registration does for each
/// topic, keeps the tables consistent.
pub proof fn lemma_store_queue_data_keeps_inv(
    s0: &RouteInfoManager,
    s1: &RouteInfoManager,
    topic: Seq<char>,
    name: Seq<char>,
    qd: crate::route_data::QueueData,
)
    requires
        s0.inv(),
        s1.wf(),
        s0.brokers().contains_key(name),
        qd.broker_name@ == name,
        s1.topics() == put2(s0.topics(), topic, name, qd),
        s1.broker_addr_table == s0.broker_addr_table,
        s1.cluster_addr_table == s0.cluster_addr_table,
        s1.filter_server_table == s0.filter_server_table,
    ensures
        s1.inv(),
{
    assert forall|t: Seq<char>, b: Seq<char>|
        s1.topics().contains_key(t) && #[trigger] s1.topics()[t].contains_key(b) implies s1.brokers().contains_key(b)
            && s1.topics()[t][b].broker_name@ == b by {
        if !(t == topic && b == name) {
            assert(s0.topics().contains_key(t) && s0.topics()[t].contains_key(b));
        }
    }
    assert(s1.brokers() == s0.brokers());
    assert(s1.clusters() == s0.clusters());
    assert(s1.filters() == s0.filters());
    assert forall|t: Seq<char>, b: Seq<char>|
        s1.topics().contains_key(t) && #[trigger] s1.topics()[t].contains_key(b) implies s1.brokers().contains_key(b) by {
        assert(s1.topics()[t].contains_key(b));
    }
}

} // verus!
