use vstd::prelude::*;

use crate::idmap::{drop_addr, is_min_id, without_addr, IdMap};
use crate::nested::{
    del2, nested_get, nested_insert, nested_remove, nested_remove_everywhere, nested_view, nested_wf, put2,
    row_or_empty, seen, strip2,
};
use crate::route_data::{
    is_sync_broker_member_topic, is_writeable, mask_write, perm_without_write, perm_writeable,
    sync_broker_member_group_prefix, BrokerData, BrokerLiveInfo, ClusterInfo, DataVersion,
    NamesrvConfig, QueueData, RegisterBrokerResult, TopicConfig,
    TopicConfigAndMappingSerializeWrapper, TopicQueueMappingInfo, TopicRouteData,
    DEFAULT_BROKER_CHANNEL_EXPIRED_TIME, MASTER_ID,
};
use crate::laws::lemma_unregister_keeps_inv;
use crate::clock::current_time_millis;
use crate::strmap::StrMap;

verus! {

/// The route tables of the name service.
///
/// Tables keyed by a broker process are keyed by cluster name, then address.
pub struct RouteInfoManager {
    /// topic -> broker name -> queue data
    pub topic_queue_table: StrMap<StrMap<QueueData>>,
    /// broker name -> broker group
    pub broker_addr_table: StrMap<BrokerData>,
    /// cluster name -> broker names
    pub cluster_addr_table: StrMap<StrMap<()>>,
    /// cluster name -> broker address -> last heartbeat
    pub broker_live_table: StrMap<StrMap<BrokerLiveInfo>>,
    /// cluster name -> broker address -> filter server addresses
    pub filter_server_table: StrMap<StrMap<Vec<String>>>,
    /// topic -> broker name -> static mapping
    pub topic_queue_mapping_info_table: StrMap<StrMap<TopicQueueMappingInfo>>,
    pub namesrv_config: NamesrvConfig,
}

/// The queue data that broker `name` contributes with `c`, holding `perm`.
pub open spec fn queue_data_of(name: String, c: TopicConfig, perm: u32) -> QueueData {
    QueueData {
        broker_name: name,
        write_queue_nums: c.write_queue_nums,
        read_queue_nums: c.read_queue_nums,
        perm,
        topic_sys_flag: c.topic_sys_flag,
    }
}

/// The broker process `(cluster, addr)` has no recorded version, or one other than `dv`.
pub open spec fn broker_changed(
    live: Map<Seq<char>, Map<Seq<char>, BrokerLiveInfo>>,
    cluster: Seq<char>,
    addr: Seq<char>,
    dv: DataVersion,
) -> bool {
    !(live.contains_key(cluster) && live[cluster].contains_key(addr)) || live[cluster][addr].data_version
        != dv
}

/// The broker's version changed, or the topic has no queue data from broker `name`.
pub open spec fn topic_changed(
    live: Map<Seq<char>, Map<Seq<char>, BrokerLiveInfo>>,
    topics: Map<Seq<char>, Map<Seq<char>, QueueData>>,
    cluster: Seq<char>,
    addr: Seq<char>,
    dv: DataVersion,
    name: Seq<char>,
    topic: Seq<char>,
) -> bool {
    broker_changed(live, cluster, addr, dv) || !row_or_empty(topics, topic).contains_key(name)
}

/// The queue data that a registration stores for topic `t` from config `c`: the write bit is
/// masked off wherever masking is allowed, since a prime slave that may act as master must not
/// advertise writeable queues before it is promoted.
pub open spec fn registered_queue_data(name: String, c: TopicConfig, mask_allowed: bool) -> QueueData {
    queue_data_of(name, c, if mask_allowed { perm_without_write(c.perm) } else { c.perm })
}

/// `topics` after broker `name` stored its queue data for each topic of `tc` that is new to it,
/// or each topic where it registers first; a topic whose config did not change keeps what it holds.
pub open spec fn topics_with(
    topics: Map<Seq<char>, Map<Seq<char>, QueueData>>,
    tc: Map<Seq<char>, TopicConfig>,
    live: Map<Seq<char>, Map<Seq<char>, BrokerLiveInfo>>,
    cluster: Seq<char>,
    addr: Seq<char>,
    dv: DataVersion,
    name: String,
    register_first: bool,
    mask_allowed: bool,
) -> Map<Seq<char>, Map<Seq<char>, QueueData>> {
    Map::new(
        |t: Seq<char>| topics.contains_key(t) || tc.contains_key(t),
        |t: Seq<char>|
            if tc.contains_key(t) && (register_first || topic_changed(live, topics, cluster, addr, dv, name@, t)) {
                row_or_empty(topics, t).insert(
                    name@,
                    registered_queue_data(name, tc[t], mask_allowed),
                )
            } else {
                topics[t]
            },
    )
}

/// `mappings` with each mapping of `mm` stored under its topic and its broker name.
pub open spec fn mappings_with(
    mappings: Map<Seq<char>, Map<Seq<char>, TopicQueueMappingInfo>>,
    mm: Map<Seq<char>, TopicQueueMappingInfo>,
) -> Map<Seq<char>, Map<Seq<char>, TopicQueueMappingInfo>> {
    Map::new(
        |t: Seq<char>| mappings.contains_key(t) || mm.contains_key(t),
        |t: Seq<char>|
            if mm.contains_key(t) {
                row_or_empty(mappings, t).insert(mm[t].bname@, mm[t])
            } else {
                mappings[t]
            },
    )
}

/// Whether the broker allows an acting master; one that does not say does not.
pub open spec fn acting_flag(enable_acting_master: Option<bool>) -> bool {
    match enable_acting_master {
        Some(v) => v,
        None => false,
    }
}

/// The members of broker group `name`, none where it is unknown.
pub open spec fn ids_of(brokers: Map<Seq<char>, BrokerData>, name: Seq<char>) -> Map<i64, String> {
    if brokers.contains_key(name) {
        brokers[name].broker_addrs@
    } else {
        Map::empty()
    }
}

/// The members of group `name` once `addr` is dropped from every id but `id`.
pub open spec fn swept_ids(s: &RouteInfoManager, name: Seq<char>, id: i64, addr: Seq<char>) -> Map<i64, String> {
    without_addr(ids_of(s.brokers(), name), id, addr)
}

/// Another address holds `id`, and its recorded state version is newer than `dv`'s.
pub open spec fn is_stale_registration(
    s: &RouteInfoManager,
    cluster: Seq<char>,
    name: Seq<char>,
    addr: Seq<char>,
    id: i64,
    dv: DataVersion,
) -> bool {
    let ids = swept_ids(s, name, id, addr);
    &&& ids.contains_key(id)
    &&& ids[id]@ != addr
    &&& s.live().contains_key(cluster)
    &&& s.live()[cluster].contains_key(ids[id]@)
    &&& s.live()[cluster][ids[id]@].data_version.state_version > dv.state_version
}

/// The id is new to its group and exactly one topic is announced.
pub open spec fn is_partial_registration(
    s: &RouteInfoManager,
    name: Seq<char>,
    addr: Seq<char>,
    id: i64,
    w: &TopicConfigAndMappingSerializeWrapper,
) -> bool {
    !swept_ids(s, name, id, addr).contains_key(id) && w.topics().len() == 1
}

/// The group is new, or the id is new to it.
pub open spec fn is_register_first(s: &RouteInfoManager, name: Seq<char>, addr: Seq<char>, id: i64) -> bool {
    !s.brokers().contains_key(name) || !swept_ids(s, name, id, addr).contains_key(id)
}

/// The slave with the smallest id of its group, registered by a broker that knows of acting
/// masters.
pub open spec fn is_prime_slave(
    s: &RouteInfoManager,
    name: Seq<char>,
    addr: String,
    id: i64,
    enable_acting_master: Option<bool>,
) -> bool {
    &&& enable_acting_master is Some
    &&& id != MASTER_ID
    &&& is_min_id(swept_ids(s, name, id, addr@).insert(id, addr), id)
}

/// Where a registration takes in the announced topics.
pub open spec fn applies_topics(
    s: &RouteInfoManager,
    name: Seq<char>,
    addr: String,
    id: i64,
    enable_acting_master: Option<bool>,
    w: &TopicConfigAndMappingSerializeWrapper,
) -> bool {
    (id == MASTER_ID || is_prime_slave(s, name, addr, id, enable_acting_master)) && w.topic_config_table is Some
}

/// The HA address of the live master of group `ids`, for a registration of a slave.
pub open spec fn master_ha_addr(
    live: Map<Seq<char>, Map<Seq<char>, BrokerLiveInfo>>,
    ids: Map<i64, String>,
    cluster: Seq<char>,
    id: i64,
) -> Seq<char> {
    if id != MASTER_ID && ids.contains_key(MASTER_ID) && live.contains_key(cluster) && live[cluster].contains_key(
        ids[MASTER_ID]@,
    ) {
        live[cluster][ids[MASTER_ID]@].ha_server_addr@
    } else {
        Seq::empty()
    }
}

/// Broker `name` is stored under `cluster` with these members, zone and acting-master flag, and
/// its name is the one it had, or the given one where it is new; no other group changed.
pub open spec fn broker_row_is(
    s0: &RouteInfoManager,
    s1: &RouteInfoManager,
    cluster: String,
    name: Seq<char>,
    ids: Map<i64, String>,
    zone_name: Option<String>,
    acting: bool,
) -> bool {
    let row = s1.brokers()[name];
    &&& s1.brokers().contains_key(name)
    &&& forall|n: Seq<char>| n != name ==> #[trigger] s1.brokers().contains_key(n) == s0.brokers().contains_key(n)
    &&& forall|n: Seq<char>| n != name && #[trigger] s1.brokers().contains_key(n) ==> s1.brokers()[n] == s0.brokers()[n]
    &&& row.broker_addrs@ == ids
    &&& row.zone_name == zone_name
    &&& row.enable_acting_master == acting
    &&& row.cluster == cluster
    &&& if s0.brokers().contains_key(name) {
        row.broker_name == s0.brokers()[name].broker_name
    } else {
        row.broker_name@ == name
    }
}

/// The cluster table once group `name` is filed under `cluster`: where the group belonged to
/// another cluster, it leaves that cluster's row first.
pub open spec fn clusters_after(s0: &RouteInfoManager, cluster: Seq<char>, name: Seq<char>) -> Map<
    Seq<char>,
    Map<Seq<char>, ()>,
> {
    let c0 = if s0.brokers().contains_key(name) && s0.brokers()[name].cluster@ != cluster {
        del2(s0.clusters(), s0.brokers()[name].cluster@, name)
    } else {
        s0.clusters()
    };
    put2(c0, cluster, name, ())
}

/// What a registration at time `now` leaves in `s1`, from `s0`, and returns as `r`.
pub open spec fn register_post(
    s0: &RouteInfoManager,
    s1: &RouteInfoManager,
    cluster_name: String,
    broker_addr: String,
    broker_name: String,
    broker_id: i64,
    ha_server_addr: String,
    zone_name: Option<String>,
    enable_acting_master: Option<bool>,
    w: &TopicConfigAndMappingSerializeWrapper,
    filter_server_list: Vec<String>,
    now: i64,
    r: Option<RegisterBrokerResult>,
) -> bool {
    let dv = w.version();
    &&& s1.clusters() == clusters_after(s0, cluster_name@, broker_name@)
    &&& {
    let swept = swept_ids(s0, broker_name@, broker_id, broker_addr@);
    let ids = swept.insert(broker_id, broker_addr);
    let stale = is_stale_registration(s0, cluster_name@, broker_name@, broker_addr@, broker_id, dv);
    let partial = is_partial_registration(s0, broker_name@, broker_addr@, broker_id, w);
    let first = is_register_first(s0, broker_name@, broker_addr@, broker_id);
    let applies = applies_topics(s0, broker_name@, broker_addr, broker_id, enable_acting_master, w);
    let mask_allowed = is_prime_slave(s0, broker_name@, broker_addr, broker_id, enable_acting_master)
        && acting_flag(enable_acting_master);
    if stale {
        &&& broker_row_is(s0, s1, cluster_name, broker_name@, swept, zone_name, acting_flag(enable_acting_master))
        &&& r matches Some(res) && res.ha_server_addr@ == Seq::<char>::empty() && res.master_addr@
            == Seq::<char>::empty()
        &&& s1.live() == del2(s0.live(), cluster_name@, broker_addr@)
        &&& s1.topics() == s0.topics()
        &&& s1.filters() == s0.filters()
        &&& s1.mappings() == s0.mappings()
    } else if partial {
        &&& broker_row_is(s0, s1, cluster_name, broker_name@, swept, zone_name, acting_flag(enable_acting_master))
        &&& r is None
        &&& s1.live() == s0.live()
        &&& s1.topics() == s0.topics()
        &&& s1.filters() == s0.filters()
        &&& s1.mappings() == s0.mappings()
    } else {
        &&& broker_row_is(s0, s1, cluster_name, broker_name@, ids, zone_name, acting_flag(enable_acting_master))
        &&& s1.topics() == (if applies {
            topics_with(s0.topics(), w.topics(), s0.live(), cluster_name@, broker_addr@, dv, broker_name,
                first, mask_allowed)
        } else {
            s0.topics()
        })
        &&& s1.mappings() == (if applies && (first || broker_changed(s0.live(), cluster_name@,
            broker_addr@, dv)) {
            mappings_with(s0.mappings(), w.topic_queue_mapping_info_map@)
        } else {
            s0.mappings()
        })
        &&& s1.live() == put2(s0.live(), cluster_name@, broker_addr@, BrokerLiveInfo {
            last_update_timestamp: now,
            heartbeat_timeout_millis: DEFAULT_BROKER_CHANNEL_EXPIRED_TIME,
            data_version: dv,
            ha_server_addr,
        })
        &&& s1.filters() == (if filter_server_list@.len() == 0 {
            del2(s0.filters(), cluster_name@, broker_addr@)
        } else {
            put2(s0.filters(), cluster_name@, broker_addr@, filter_server_list)
        })
        &&& r matches Some(res) && res.ha_server_addr@ == master_ha_addr(s1.live(), ids, cluster_name@,
            broker_id) && res.master_addr@ == master_ha_addr(s1.live(), ids, cluster_name@, broker_id)
    }
    }
}

/// The names among `keys` that have a broker group, in order.
pub open spec fn resolved_names(keys: Seq<Seq<char>>, brokers: Map<Seq<char>, BrokerData>) -> Seq<Seq<char>>
    decreases keys.len(),
{
    if keys.len() == 0 {
        Seq::empty()
    } else {
        let rest = resolved_names(keys.drop_last(), brokers);
        if brokers.contains_key(keys.last()) {
            rest.push(keys.last())
        } else {
            rest
        }
    }
}

/// The keys of the first `n` entries of `m`.
pub open spec fn entry_keys<V>(m: &StrMap<V>, n: int) -> Seq<Seq<char>> {
    m.entries@.subrange(0, n).map_values(|e: (String, V)| e.0@)
}

/// The values of the first `n` entries of `m`.
pub open spec fn entry_values<V>(m: &StrMap<V>, n: int) -> Seq<V> {
    m.entries@.subrange(0, n).map_values(|e: (String, V)| e.1)
}

/// The (cluster, address) pair of each member of group `bd`, in entry order.
pub open spec fn member_pairs(bd: BrokerData) -> Seq<(Seq<char>, Seq<char>)> {
    bd.broker_addrs.entries@.map_values(|e: (i64, String)| (bd.cluster@, e.1@))
}

/// The (cluster, address) pair of each member of each group of `bds`, in order.
pub open spec fn all_member_pairs(bds: Seq<BrokerData>) -> Seq<(Seq<char>, Seq<char>)>
    decreases bds.len(),
{
    if bds.len() == 0 {
        Seq::empty()
    } else {
        all_member_pairs(bds.drop_last()) + member_pairs(bds.last())
    }
}

/// The filter servers of each pair of `pairs` that has some, by address; a later pair
/// replaces an earlier one at the same address.
pub open spec fn filter_servers_of(
    pairs: Seq<(Seq<char>, Seq<char>)>,
    filters: Map<Seq<char>, Map<Seq<char>, Vec<String>>>,
) -> Map<Seq<char>, Seq<String>>
    decreases pairs.len(),
{
    if pairs.len() == 0 {
        Map::empty()
    } else {
        let m = filter_servers_of(pairs.drop_last(), filters);
        let (c, a) = pairs.last();
        if filters.contains_key(c) && filters[c].contains_key(a) {
            m.insert(a, filters[c][a]@)
        } else {
            m
        }
    }
}

/// A list of filter servers, by address, seen through the view of each list.
pub open spec fn filter_table_view(t: &StrMap<Vec<String>>) -> Map<Seq<char>, Seq<String>> {
    Map::new(|a: Seq<char>| t@.contains_key(a), |a: Seq<char>| t@[a]@)
}

/// A copy of a list of strings.
pub fn copy_strings(v: &Vec<String>) -> (r: Vec<String>)
    ensures
        r@ == v@,
{
    let mut r: Vec<String> = Vec::new();
    let mut i: usize = 0;
    while i < v.len()
        invariant
            i <= v@.len(),
            r@ == v@.subrange(0, i as int),
        decreases v@.len() - i,
    {
        r.push(v[i].clone());
        i = i + 1;
        assert(r@ =~= v@.subrange(0, i as int));
    }
    assert(r@ =~= v@);
    r
}

/// The first queue data of group `name` in `qds` exists and is not writeable.
pub open spec fn first_queue_not_writeable(qds: Seq<QueueData>, name: Seq<char>) -> bool {
    exists|i: int|
        0 <= i < qds.len() && #[trigger] qds[i].broker_name@ == name && !perm_writeable(qds[i].perm)
            && forall|j: int| 0 <= j < i ==> qds[j].broker_name@ != name
}

/// Group `bd` has members but no master, allows an acting master, and its queues on the
/// topic are not writeable.
pub open spec fn needs_acting_master(bd: BrokerData, qds: Seq<QueueData>) -> bool {
    &&& bd.broker_addrs@ != Map::<i64, String>::empty()
    &&& !bd.broker_addrs@.contains_key(MASTER_ID)
    &&& bd.enable_acting_master
    &&& first_queue_not_writeable(qds, bd.broker_name@)
}

/// `ids` with the member of the smallest id moved to the master's id.
pub open spec fn promoted_ids(ids: Map<i64, String>) -> Map<i64, String> {
    let m = choose|m: i64| is_min_id(ids, m);
    ids.remove(m).insert(MASTER_ID, ids[m])
}

/// `out` is group `src` as a route shows it, with members `ids`.
pub open spec fn route_broker_is(out: BrokerData, src: BrokerData, ids: Map<i64, String>) -> bool {
    &&& out.cluster == src.cluster
    &&& out.broker_name == src.broker_name
    &&& out.zone_name == src.zone_name
    &&& out.enable_acting_master == src.enable_acting_master
    &&& out.broker_addrs.wf()
    &&& out.broker_addrs@ == ids
}

/// The groups of the topic's route, before any acting master is shown.
pub open spec fn route_brokers(s: &RouteInfoManager, topic: Seq<char>) -> Seq<BrokerData> {
    let row = s.topic_queue_table@[topic];
    resolved_names(entry_keys(&row, row.entries@.len() as int), s.brokers()).map_values(
        |n: Seq<char>| s.brokers()[n],
    )
}

/// The queue data of the topic's route.
pub open spec fn route_queues(s: &RouteInfoManager, topic: Seq<char>) -> Seq<QueueData> {
    let row = s.topic_queue_table@[topic];
    entry_values(&row, row.entries@.len() as int)
}

/// The route that a pickup of `topic` returns from `s`.
pub open spec fn route_is(s: &RouteInfoManager, topic: Seq<char>, route: &TopicRouteData) -> bool {
    let bds = route_brokers(s, topic);
    let qds = route_queues(s, topic);
    let promote = s.namesrv_config.support_acting_master && !sync_broker_member_group_prefix().is_prefix_of(
        topic,
    );
    &&& route.order_topic_conf is None
    &&& route.queue_datas@ == qds
    &&& route.broker_datas@.len() == bds.len()
    &&& forall|j: int|
        0 <= j < bds.len() ==> route_broker_is(
            #[trigger] route.broker_datas@[j],
            bds[j],
            if promote && needs_acting_master(bds[j], qds) {
                promoted_ids(bds[j].broker_addrs@)
            } else {
                bds[j].broker_addrs@
            },
        )
    &&& route.filter_server_table.wf()
    &&& filter_table_view(&route.filter_server_table) == filter_servers_of(all_member_pairs(bds), s.filters())
    &&& route.topic_queue_mapping_by_broker matches Some(m) && m.wf() && m@ == row_or_empty(s.mappings(), topic)
}

/// Pickup of `topic` finds queue data of it and at least one of their groups.
pub open spec fn route_exists(s: &RouteInfoManager, topic: Seq<char>) -> bool {
    s.topics().contains_key(topic) && route_brokers(s, topic).len() > 0
}

/// A copy of a topic's static mappings.
pub fn copy_mappings(m: &StrMap<TopicQueueMappingInfo>) -> (r: StrMap<TopicQueueMappingInfo>)
    requires
        m.wf(),
    ensures
        r.wf(),
        r@ == m@,
{
    let mut r: StrMap<TopicQueueMappingInfo> = StrMap::new();
    proof {
        m.lemma_prefix_empty();
    }
    let mut i: usize = 0;
    while i < m.entries.len()
        invariant
            m.wf(),
            r.wf(),
            i <= m.entries@.len(),
            r@ == m.prefix_view(i as int),
        decreases m.entries@.len() - i,
    {
        proof {
            m.lemma_prefix_step(i as int);
        }
        r.insert(m.entries[i].0.clone(), m.entries[i].1.copy());
        i = i + 1;
    }
    proof {
        m.lemma_prefix_full();
    }
    r
}

/// Shows an acting master in each group of `bds` that needs one.
fn promote_acting_masters(bds: &mut Vec<BrokerData>, qds: &Vec<QueueData>)
    requires
        forall|j: int| 0 <= j < old(bds)@.len() ==> (#[trigger] old(bds)@[j]).broker_addrs.wf(),
    ensures
        final(bds)@.len() == old(bds)@.len(),
        forall|j: int|
            0 <= j < old(bds)@.len() ==> route_broker_is(
                #[trigger] final(bds)@[j],
                old(bds)@[j],
                if needs_acting_master(old(bds)@[j], qds@) {
                    promoted_ids(old(bds)@[j].broker_addrs@)
                } else {
                    old(bds)@[j].broker_addrs@
                },
            ),
{
    let mut i: usize = 0;
    while i < bds.len()
        invariant
            bds@.len() == old(bds)@.len(),
            i <= bds@.len(),
            forall|j: int| i <= j < bds@.len() ==> #[trigger] bds@[j] == old(bds)@[j],
            forall|j: int|
                0 <= j < i ==> route_broker_is(
                    #[trigger] bds@[j],
                    old(bds)@[j],
                    if needs_acting_master(old(bds)@[j], qds@) {
                        promoted_ids(old(bds)@[j].broker_addrs@)
                    } else {
                        old(bds)@[j].broker_addrs@
                    },
                ),
            forall|j: int| 0 <= j < old(bds)@.len() ==> (#[trigger] old(bds)@[j]).broker_addrs.wf(),
        decreases bds@.len() - i,
    {
        let ghost src = bds@[i as int];
        let mut bd = bds[i].copy();
        let mut promote = false;
        if !bd.broker_addrs.is_empty() && !bd.broker_addrs.contains_key(MASTER_ID) && bd.enable_acting_master {
            let mut q: usize = 0;
            let mut found = false;
            while q < qds.len() && !found
                invariant
                    q <= qds@.len(),
                    bd.broker_name == src.broker_name,
                    forall|j: int| 0 <= j < q ==> qds@[j].broker_name@ != src.broker_name@,
                    found ==> q < qds@.len() && qds@[q as int].broker_name@ == src.broker_name@ && promote
                        == !perm_writeable(qds@[q as int].perm),
                    !found ==> !promote,
                decreases qds@.len() - q + (if found { 0int } else { 1int }),
            {
                if qds[q].broker_name == bd.broker_name {
                    found = true;
                    promote = !is_writeable(qds[q].perm);
                } else {
                    q = q + 1;
                }
            }
            proof {
                if first_queue_not_writeable(qds@, src.broker_name@) {
                    let w = choose|w: int|
                        0 <= w < qds@.len() && #[trigger] qds@[w].broker_name@ == src.broker_name@
                            && !perm_writeable(qds@[w].perm) && forall|j: int|
                            0 <= j < w ==> qds@[j].broker_name@ != src.broker_name@;
                    assert(found);
                    assert(w == q);
                } else if found {
                    if promote {
                        assert(qds@[q as int].broker_name@ == src.broker_name@);
                    }
                }
            }
        }
        assert(promote == needs_acting_master(src, qds@));
        if promote {
            match bd.broker_addrs.min_key() {
                Some(m) => {
                    match bd.broker_addrs.remove(m) {
                        Some(a) => {
                            bd.broker_addrs.insert(MASTER_ID, a);
                        },
                        None => {},
                    }
                    proof {
                        assert(is_min_id(src.broker_addrs@, m));
                        let c = choose|c: i64| is_min_id(src.broker_addrs@, c);
                        assert(c <= m && m <= c);
                    }
                },
                None => {},
            }
        }
        bds.set(i, bd);
        i = i + 1;
    }
}

/// Two lists of groups with the same clusters and entries, one for one, have the same
/// member pairs.
pub proof fn lemma_member_pairs_same(a: Seq<BrokerData>, b: Seq<BrokerData>)
    requires
        a.len() == b.len(),
        forall|j: int| 0 <= j < a.len() ==> #[trigger] a[j].broker_addrs.entries@ == b[j].broker_addrs.entries@
            && a[j].cluster == b[j].cluster,
    ensures
        all_member_pairs(a) == all_member_pairs(b),
    decreases a.len(),
{
    if a.len() > 0 {
        assert forall|j: int| 0 <= j < a.len() - 1 implies #[trigger] a.drop_last()[j].broker_addrs.entries@
            == b.drop_last()[j].broker_addrs.entries@ && a.drop_last()[j].cluster == b.drop_last()[j].cluster by {
            assert(a.drop_last()[j] == a[j]);
            assert(b.drop_last()[j] == b[j]);
        }
        lemma_member_pairs_same(a.drop_last(), b.drop_last());
        assert(member_pairs(a.last()) =~= member_pairs(b.last()));
    }
}

/// What unregistering the broker at `broker_addr` from group `broker_name` leaves in `s1`,
/// from `s0`.
pub open spec fn unregister_post(
    s0: &RouteInfoManager,
    s1: &RouteInfoManager,
    cluster_name: Seq<char>,
    broker_addr: Seq<char>,
    broker_name: Seq<char>,
) -> bool {
    let ids = drop_addr(ids_of(s0.brokers(), broker_name), broker_addr);
    &&& s1.live() == del2(s0.live(), cluster_name, broker_addr)
    &&& s1.filters() == del2(s0.filters(), cluster_name, broker_addr)
    &&& if !s0.brokers().contains_key(broker_name) {
        &&& s1.brokers() == s0.brokers()
        &&& s1.topics() == s0.topics()
        &&& s1.clusters() == s0.clusters()
        &&& s1.mappings() == s0.mappings()
    } else if ids != Map::<i64, String>::empty() {
        &&& s1.brokers().contains_key(broker_name)
        &&& forall|n: Seq<char>| n != broker_name ==> #[trigger] s1.brokers().contains_key(n)
            == s0.brokers().contains_key(n)
        &&& forall|n: Seq<char>| n != broker_name && #[trigger] s1.brokers().contains_key(n)
            ==> s1.brokers()[n] == s0.brokers()[n]
        &&& route_broker_is(s1.brokers()[broker_name], s0.brokers()[broker_name], ids)
        &&& s1.topics() == s0.topics()
        &&& s1.clusters() == s0.clusters()
        &&& s1.mappings() == s0.mappings()
    } else {
        &&& s1.brokers() == s0.brokers().remove(broker_name)
        &&& s1.topics() == strip2(s0.topics(), broker_name)
        &&& s1.clusters() == strip2(s0.clusters(), broker_name)
        &&& s1.mappings() == strip2(s0.mappings(), broker_name)
    }
}

/// The heartbeat `info` is older than its timeout at time `now`.
pub open spec fn is_expired(info: BrokerLiveInfo, now: i64) -> bool {
    now - info.last_update_timestamp > info.heartbeat_timeout_millis
}

/// The live table holds an entry for `(c, a)`.
pub open spec fn live_has(live: Map<Seq<char>, Map<Seq<char>, BrokerLiveInfo>>, c: Seq<char>, a: Seq<char>) -> bool {
    live.contains_key(c) && live[c].contains_key(a)
}

/// The pairs seen through the view of each string.
pub open spec fn pair_views(pairs: Seq<(String, String)>) -> Seq<(Seq<char>, Seq<char>)> {
    pairs.map_values(|p: (String, String)| (p.0@, p.1@))
}

/// The broker processes of `live` whose heartbeat has expired at time `now`.
pub open spec fn expired_set(live: Map<Seq<char>, Map<Seq<char>, BrokerLiveInfo>>, now: i64) -> Set<(Seq<char>, Seq<char>)> {
    Set::new(|p: (Seq<char>, Seq<char>)| live_has(live, p.0, p.1) && is_expired(live[p.0][p.1], now))
}

/// One of the first `n` pairs of `pairs` is `(c, a)`.
pub open spec fn pair_listed(pairs: Seq<(String, String)>, n: int, c: Seq<char>, a: Seq<char>) -> bool {
    exists|j: int| 0 <= j < n && (#[trigger] pairs[j]).0@ == c && pairs[j].1@ == a
}

/// Removing an entry twice removes it once.
pub proof fn lemma_del2_twice<V>(t: Map<Seq<char>, Map<Seq<char>, V>>, c: Seq<char>, a: Seq<char>)
    ensures
        del2(del2(t, c, a), c, a) == del2(t, c, a),
{
    if t.contains_key(c) {
        assert(t[c].remove(a).remove(a) =~= t[c].remove(a));
        assert(del2(del2(t, c, a), c, a) =~= del2(t, c, a));
    }
}

/// A copy of a set of names.
pub fn copy_names(m: &StrMap<()>) -> (r: StrMap<()>)
    requires
        m.wf(),
    ensures
        r.wf(),
        r@ == m@,
{
    let mut r: StrMap<()> = StrMap::new();
    proof {
        m.lemma_prefix_empty();
    }
    let mut i: usize = 0;
    while i < m.entries.len()
        invariant
            m.wf(),
            r.wf(),
            i <= m.entries@.len(),
            r@ == m.prefix_view(i as int),
        decreases m.entries@.len() - i,
    {
        proof {
            m.lemma_prefix_step(i as int);
        }
        r.insert(m.entries[i].0.clone(), ());
        i = i + 1;
    }
    proof {
        m.lemma_prefix_full();
    }
    r
}

/// A copy of the cluster table.
pub fn copy_cluster_table(m: &StrMap<StrMap<()>>) -> (r: StrMap<StrMap<()>>)
    requires
        nested_wf(m),
    ensures
        nested_wf(&r),
        nested_view(&r) == nested_view(m),
{
    let mut r: StrMap<StrMap<()>> = StrMap::new();
    proof {
        m.lemma_prefix_empty();
        assert(nested_view(&r) =~= Map::new(|k: Seq<char>| m.prefix_view(0).contains_key(k), |k: Seq<char>| m@[k]@));
    }
    let mut i: usize = 0;
    while i < m.entries.len()
        invariant
            nested_wf(m),
            nested_wf(&r),
            i <= m.entries@.len(),
            nested_view(&r) == Map::new(|k: Seq<char>| m.prefix_view(i as int).contains_key(k), |k: Seq<char>| m@[k]@),
        decreases m.entries@.len() - i,
    {
        proof {
            m.lemma_prefix_step(i as int);
            m.lemma_entry(i as int);
        }
        let ghost before = nested_view(&r);
        let ghost key = m.entries@[i as int].0@;
        let names = copy_names(&m.entries[i].1);
        assert(names@ == m@[key]@);
        r.insert(m.entries[i].0.clone(), names);
        assert(nested_view(&r) =~= before.insert(key, m@[key]@));
        i = i + 1;
        assert(nested_view(&r) =~= Map::new(|k: Seq<char>| m.prefix_view(i as int).contains_key(k), |k: Seq<char>| m@[k]@));
    }
    proof {
        m.lemma_prefix_full();
        assert(nested_view(&r) =~= nested_view(m));
    }
    r
}

/// The groups of `copy` are those of `orig`, each copied.
pub open spec fn broker_table_copied(copy: &StrMap<BrokerData>, orig: &StrMap<BrokerData>) -> bool {
    &&& copy.wf()
    &&& copy@.dom() == orig@.dom()
    &&& forall|b: Seq<char>| #[trigger] copy@.contains_key(b) ==> copy@[b].same_as(&orig@[b]) && copy@[b].broker_addrs.wf()
}

/// A copy of the broker table.
pub fn copy_broker_table(m: &StrMap<BrokerData>) -> (r: StrMap<BrokerData>)
    requires
        m.wf(),
        forall|b: Seq<char>| #[trigger] m@.contains_key(b) ==> m@[b].broker_addrs.wf(),
    ensures
        broker_table_copied(&r, m),
{
    let mut r: StrMap<BrokerData> = StrMap::new();
    proof {
        m.lemma_prefix_empty();
    }
    let mut i: usize = 0;
    while i < m.entries.len()
        invariant
            m.wf(),
            forall|b: Seq<char>| #[trigger] m@.contains_key(b) ==> m@[b].broker_addrs.wf(),
            r.wf(),
            i <= m.entries@.len(),
            r@.dom() == m.prefix_view(i as int).dom(),
            forall|b: Seq<char>| #[trigger] r@.contains_key(b) ==> r@[b].same_as(&m@[b]) && r@[b].broker_addrs.wf(),
        decreases m.entries@.len() - i,
    {
        proof {
            m.lemma_prefix_step(i as int);
            m.lemma_entry(i as int);
        }
        r.insert(m.entries[i].0.clone(), m.entries[i].1.copy());
        i = i + 1;
        assert(r@.dom() =~= m.prefix_view(i as int).dom());
    }
    proof {
        m.lemma_prefix_full();
    }
    r
}

/// The smallest id of `ids`, or the master's id where it is empty.
pub open spec fn min_id_or_master(ids: Map<i64, String>) -> i64 {
    if ids == Map::<i64, String>::empty() {
        MASTER_ID
    } else {
        choose|m: i64| is_min_id(ids, m)
    }
}

/// Group `bd` lists address `a` under some id.
pub open spec fn lists_addr(bd: BrokerData, a: Seq<char>) -> bool {
    exists|id: i64| #[trigger] bd.broker_addrs@.contains_key(id) && bd.broker_addrs@[id]@ == a
}

/// Group `now` is group `was` with members dropped, and not all of them unless it had none.
pub open spec fn group_shrunk(was: BrokerData, now: BrokerData) -> bool {
    &&& now.cluster == was.cluster
    &&& now.broker_name == was.broker_name
    &&& now.zone_name == was.zone_name
    &&& now.enable_acting_master == was.enable_acting_master
    &&& forall|id: i64| #[trigger] now.broker_addrs@.contains_key(id) ==> was.broker_addrs@.contains_key(id)
        && now.broker_addrs@[id] == was.broker_addrs@[id]
    &&& now.broker_addrs@ == Map::<i64, String>::empty() ==> was.broker_addrs@ == Map::<i64, String>::empty()
}

/// The members of group `bd` whose heartbeat in the group's cluster has not expired at `now`.
pub open spec fn live_members(bd: BrokerData, live: Map<Seq<char>, Map<Seq<char>, BrokerLiveInfo>>, now: i64) -> Map<
    i64,
    String,
> {
    Map::new(
        |k: i64| bd.broker_addrs@.contains_key(k) && !(live_has(live, bd.cluster@, bd.broker_addrs@[k]@) && is_expired(
            live[bd.cluster@][bd.broker_addrs@[k]@],
            now,
        )),
        |k: i64| bd.broker_addrs@[k],
    )
}

/// No cluster row, topic row or static mapping row names `b`.
pub open spec fn forgotten(s: &RouteInfoManager, b: Seq<char>) -> bool {
    &&& forall|c: Seq<char>| #[trigger] s.clusters().contains_key(c) ==> !s.clusters()[c].contains_key(b)
    &&& forall|t: Seq<char>| #[trigger] s.topics().contains_key(t) ==> !s.topics()[t].contains_key(b)
    &&& forall|t: Seq<char>| #[trigger] s.mappings().contains_key(t) ==> !s.mappings()[t].contains_key(b)
}

/// Unregistering address `a` from group `name` drops it from that group, and changes no
/// other group.
pub proof fn lemma_unregister_shrinks(
    s0: &RouteInfoManager,
    s1: &RouteInfoManager,
    c: Seq<char>,
    a: Seq<char>,
    name: Seq<char>,
)
    requires
        unregister_post(s0, s1, c, a, name),
        s0.brokers().contains_key(name),
    ensures
        forall|b: Seq<char>| #[trigger] s1.brokers().contains_key(b) ==> s0.brokers().contains_key(b)
            && group_shrunk(s0.brokers()[b], s1.brokers()[b]) && (b != name ==> s1.brokers()[b] == s0.brokers()[b]),
        s1.brokers().contains_key(name) ==> !lists_addr(s1.brokers()[name], a),
{
    let ids = drop_addr(ids_of(s0.brokers(), name), a);
    assert forall|b: Seq<char>| #[trigger] s1.brokers().contains_key(b) implies s0.brokers().contains_key(b)
        && group_shrunk(s0.brokers()[b], s1.brokers()[b]) && (b != name ==> s1.brokers()[b] == s0.brokers()[b]) by {
        if b != name {
            assert(s1.brokers()[b] == s0.brokers()[b]);
        }
    }
}

impl RouteInfoManager {
    pub open spec fn wf(&self) -> bool {
        &&& nested_wf(&self.topic_queue_table)
        &&& self.broker_addr_table.wf()
        &&& forall|b: Seq<char>| #[trigger]
            self.broker_addr_table@.contains_key(b) ==> self.broker_addr_table@[b].broker_addrs.wf()
        &&& nested_wf(&self.cluster_addr_table)
        &&& nested_wf(&self.broker_live_table)
        &&& nested_wf(&self.filter_server_table)
        &&& nested_wf(&self.topic_queue_mapping_info_table)
    }

    pub open spec fn topics(&self) -> Map<Seq<char>, Map<Seq<char>, QueueData>> {
        nested_view(&self.topic_queue_table)
    }

    pub open spec fn brokers(&self) -> Map<Seq<char>, BrokerData> {
        self.broker_addr_table@
    }

    pub open spec fn clusters(&self) -> Map<Seq<char>, Map<Seq<char>, ()>> {
        nested_view(&self.cluster_addr_table)
    }

    pub open spec fn live(&self) -> Map<Seq<char>, Map<Seq<char>, BrokerLiveInfo>> {
        nested_view(&self.broker_live_table)
    }

    pub open spec fn filters(&self) -> Map<Seq<char>, Map<Seq<char>, Vec<String>>> {
        nested_view(&self.filter_server_table)
    }

    pub open spec fn mappings(&self) -> Map<Seq<char>, Map<Seq<char>, TopicQueueMappingInfo>> {
        nested_view(&self.topic_queue_mapping_info_table)
    }

    /// Every table is empty.
    pub open spec fn is_empty_state(&self) -> bool {
        &&& self.topics() == Map::<Seq<char>, Map<Seq<char>, QueueData>>::empty()
        &&& self.brokers() == Map::<Seq<char>, BrokerData>::empty()
        &&& self.clusters() == Map::<Seq<char>, Map<Seq<char>, ()>>::empty()
        &&& self.live() == Map::<Seq<char>, Map<Seq<char>, BrokerLiveInfo>>::empty()
        &&& self.filters() == Map::<Seq<char>, Map<Seq<char>, Vec<String>>>::empty()
        &&& self.mappings() == Map::<Seq<char>, Map<Seq<char>, TopicQueueMappingInfo>>::empty()
    }

    pub fn new() -> (r: Self)
        ensures
            r.wf(),
            r.is_empty_state(),
            r.namesrv_config == (NamesrvConfig {
                delete_topic_with_broker_registration: false,
                support_acting_master: false,
                notify_min_broker_id_changed: false,
            }),
    {
        RouteInfoManager::new_with_config(
            NamesrvConfig {
                delete_topic_with_broker_registration: false,
                support_acting_master: false,
                notify_min_broker_id_changed: false,
            },
        )
    }

    pub fn new_with_config(namesrv_config: NamesrvConfig) -> (r: Self)
        ensures
            r.wf(),
            r.is_empty_state(),
            r.namesrv_config == namesrv_config,
    {
        let r = RouteInfoManager {
            topic_queue_table: StrMap::new(),
            broker_addr_table: StrMap::new(),
            cluster_addr_table: StrMap::new(),
            broker_live_table: StrMap::new(),
            filter_server_table: StrMap::new(),
            topic_queue_mapping_info_table: StrMap::new(),
            namesrv_config,
        };
        assert(r.topics() =~= Map::<Seq<char>, Map<Seq<char>, QueueData>>::empty());
        assert(r.clusters() =~= Map::<Seq<char>, Map<Seq<char>, ()>>::empty());
        assert(r.live() =~= Map::<Seq<char>, Map<Seq<char>, BrokerLiveInfo>>::empty());
        assert(r.filters() =~= Map::<Seq<char>, Map<Seq<char>, Vec<String>>>::empty());
        assert(r.mappings() =~= Map::<Seq<char>, Map<Seq<char>, TopicQueueMappingInfo>>::empty());
        r
    }

    /// The version last recorded for the broker process `(cluster_name, broker_addr)`.
    fn query_broker_topic_config(&self, cluster_name: &String, broker_addr: &String) -> (r: Option<
        DataVersion,
    >)
        requires
            self.wf(),
        ensures
            r == (if self.live().contains_key(cluster_name@) && self.live()[cluster_name@].contains_key(
                broker_addr@,
            ) {
                Some(self.live()[cluster_name@][broker_addr@].data_version)
            } else {
                None
            }),
    {
        match nested_get(&self.broker_live_table, cluster_name, broker_addr) {
            Some(info) => Some(info.data_version),
            None => None,
        }
    }

    fn is_broker_topic_config_changed(
        &self,
        cluster_name: &String,
        broker_addr: &String,
        data_version: &DataVersion,
    ) -> (r: bool)
        requires
            self.wf(),
        ensures
            r == broker_changed(self.live(), cluster_name@, broker_addr@, *data_version),
    {
        match self.query_broker_topic_config(cluster_name, broker_addr) {
            Some(pre) => pre != *data_version,
            None => true,
        }
    }

    fn is_topic_config_changed(
        &self,
        cluster_name: &String,
        broker_addr: &String,
        data_version: &DataVersion,
        broker_name: &String,
        topic: &String,
    ) -> (r: bool)
        requires
            self.wf(),
        ensures
            r == topic_changed(
                self.live(),
                self.topics(),
                cluster_name@,
                broker_addr@,
                *data_version,
                broker_name@,
                topic@,
            ),
    {
        if self.is_broker_topic_config_changed(cluster_name, broker_addr, data_version) {
            return true;
        }
        match self.topic_queue_table.get(topic) {
            Some(queue_data) => {
                if queue_data.len() == 0 {
                    proof {
                        queue_data.lemma_len();
                        assert(queue_data@.dom() =~= Set::<Seq<char>>::empty());
                    }
                    return true;
                }
                !queue_data.contains_key(broker_name)
            },
            None => true,
        }
    }

    /// The topics to which broker `broker_name` contributes queue data.
    fn topic_set_of_broker_name(&self, broker_name: &String) -> (r: StrMap<()>)
        requires
            self.wf(),
        ensures
            r.wf(),
            forall|t: Seq<char>|
                #[trigger] r@.contains_key(t) == (self.topics().contains_key(t)
                    && self.topics()[t].contains_key(broker_name@)),
    {
        let mut r: StrMap<()> = StrMap::new();
        let mut i: usize = 0;
        while i < self.topic_queue_table.entries.len()
            invariant
                self.wf(),
                r.wf(),
                i <= self.topic_queue_table.entries@.len(),
                forall|t: Seq<char>|
                    #[trigger] r@.contains_key(t) == (exists|j: int|
                        0 <= j < i && self.topic_queue_table.entries@[j].0@ == t
                            && self.topic_queue_table.entries@[j].1@.contains_key(broker_name@)),
            decreases self.topic_queue_table.entries@.len() - i,
        {
            proof {
                self.topic_queue_table.lemma_entry(i as int);
            }
            let e = &self.topic_queue_table.entries[i];
            if e.1.contains_key(broker_name) {
                r.insert(e.0.clone(), ());
            }
            i = i + 1;
            proof {
                assert forall|t: Seq<char>|
                    #[trigger] r@.contains_key(t) == (exists|j: int|
                        0 <= j < i && self.topic_queue_table.entries@[j].0@ == t
                            && self.topic_queue_table.entries@[j].1@.contains_key(broker_name@)) by {
                    if exists|j: int|
                        0 <= j < i && self.topic_queue_table.entries@[j].0@ == t
                            && self.topic_queue_table.entries@[j].1@.contains_key(broker_name@) {
                        let j = choose|j: int|
                            0 <= j < i && self.topic_queue_table.entries@[j].0@ == t
                                && self.topic_queue_table.entries@[j].1@.contains_key(broker_name@);
                        assert(j < i - 1 || j == i - 1);
                    }
                }
            }
        }
        proof {
            assert forall|t: Seq<char>|
                #[trigger] r@.contains_key(t) == (self.topics().contains_key(t)
                    && self.topics()[t].contains_key(broker_name@)) by {
                if self.topics().contains_key(t) {
                    self.topic_queue_table.lemma_key(t);
                    let j = choose|j: int| self.topic_queue_table.has_key_at(t, j);
                    self.topic_queue_table.lemma_entry(j);
                }
                if r@.contains_key(t) {
                    let j = choose|j: int|
                        0 <= j < i && self.topic_queue_table.entries@[j].0@ == t
                            && self.topic_queue_table.entries@[j].1@.contains_key(broker_name@);
                    self.topic_queue_table.lemma_entry(j);
                }
            }
        }
        r
    }

    /// Stores the queue data that `topic_config` gives for broker `broker_name` under `topic`,
    /// the key under which the broker announced the config.
    fn create_and_update_queue_data(
        &mut self,
        broker_name: &String,
        topic: &String,
        topic_config: &TopicConfig,
        perm: u32,
    )
        requires
            old(self).wf(),
        ensures
            final(self).wf(),
            final(self).topics() == put2(
                old(self).topics(),
                topic@,
                broker_name@,
                queue_data_of(*broker_name, *topic_config, perm),
            ),
            final(self).broker_addr_table == old(self).broker_addr_table,
            final(self).cluster_addr_table == old(self).cluster_addr_table,
            final(self).broker_live_table == old(self).broker_live_table,
            final(self).filter_server_table == old(self).filter_server_table,
            final(self).topic_queue_mapping_info_table == old(self).topic_queue_mapping_info_table,
            final(self).namesrv_config == old(self).namesrv_config,
    {
        let queue_data = QueueData {
            broker_name: broker_name.clone(),
            write_queue_nums: topic_config.write_queue_nums,
            read_queue_nums: topic_config.read_queue_nums,
            perm,
            topic_sys_flag: topic_config.topic_sys_flag,
        };
        nested_insert(&mut self.topic_queue_table, topic.clone(), broker_name.clone(), queue_data);
    }

    /// Drops the rows of announced topics to which the broker does not contribute, where
    /// such a row holds nothing.
    fn delete_topics_on_registration(&mut self, broker_name: &String, tc: &StrMap<TopicConfig>)
        requires
            old(self).wf(),
            tc.wf(),
        ensures
            final(self).wf(),
            forall|t: Seq<char>| #[trigger] final(self).topics().contains_key(t) ==> old(self).topics().contains_key(t)
                && final(self).topics()[t] == old(self).topics()[t],
            forall|t: Seq<char>| #[trigger] old(self).topics().contains_key(t) && !final(self).topics().contains_key(t)
                ==> tc@.contains_key(t) && old(self).topics()[t] == Map::<Seq<char>, QueueData>::empty(),
            final(self).broker_addr_table == old(self).broker_addr_table,
            final(self).cluster_addr_table == old(self).cluster_addr_table,
            final(self).broker_live_table == old(self).broker_live_table,
            final(self).filter_server_table == old(self).filter_server_table,
            final(self).topic_queue_mapping_info_table == old(self).topic_queue_mapping_info_table,
            final(self).namesrv_config == old(self).namesrv_config,
    {
        let old_topic_set = self.topic_set_of_broker_name(broker_name);
        let mut i: usize = 0;
        while i < tc.entries.len()
            invariant
                self.wf(),
                tc.wf(),
                old_topic_set.wf(),
                i <= tc.entries@.len(),
                forall|t: Seq<char>| #[trigger] old_topic_set@.contains_key(t) == (old(self).topics().contains_key(t)
                    && old(self).topics()[t].contains_key(broker_name@)),
                forall|t: Seq<char>| #[trigger] self.topics().contains_key(t) ==> old(self).topics().contains_key(t)
                    && self.topics()[t] == old(self).topics()[t],
                forall|t: Seq<char>| #[trigger] old(self).topics().contains_key(t) && !self.topics().contains_key(t)
                    ==> tc@.contains_key(t) && old(self).topics()[t] == Map::<Seq<char>, QueueData>::empty(),
                self.broker_addr_table == old(self).broker_addr_table,
                self.cluster_addr_table == old(self).cluster_addr_table,
                self.broker_live_table == old(self).broker_live_table,
                self.filter_server_table == old(self).filter_server_table,
                self.topic_queue_mapping_info_table == old(self).topic_queue_mapping_info_table,
                self.namesrv_config == old(self).namesrv_config,
            decreases tc.entries@.len() - i,
        {
            let topic = &tc.entries[i].0;
            proof {
                tc.lemma_entry(i as int);
            }
            if !old_topic_set.contains_key(topic) {
                let ghost t0 = self.topics();
                match self.topic_queue_table.remove(topic) {
                    Some(mut queue_data) => {
                        let ghost q0 = queue_data@;
                        assert(q0 == t0[topic@]);
                        assert(t0.contains_key(topic@));
                        assert(!old_topic_set@.contains_key(topic@));
                        assert(!q0.contains_key(broker_name@));
                        queue_data.remove(broker_name);
                        assert(queue_data@ =~= q0);
                        assert(queue_data@ == t0[topic@]);
                        if queue_data.len() != 0 {
                            self.topic_queue_table.insert(topic.clone(), queue_data);
                            assert(self.topics() =~= t0);
                        } else {
                            proof {
                                queue_data.lemma_len();
                                assert(queue_data@ =~= Map::<Seq<char>, QueueData>::empty());
                                assert(self.topics() =~= t0.remove(topic@));
                            }
                        }
                    },
                    None => {
                        assert(self.topics() =~= t0);
                    },
                }
            }
            i = i + 1;
        }
    }

    /// Stores the queue data of each announced topic for broker `broker_name`.
    fn upsert_topic_configs(
        &mut self,
        cluster_name: &String,
        broker_addr: &String,
        data_version: &DataVersion,
        broker_name: &String,
        tc: &StrMap<TopicConfig>,
        register_first: bool,
        mask_allowed: bool,
    )
        requires
            old(self).wf(),
            tc.wf(),
        ensures
            final(self).wf(),
            final(self).topics() == topics_with(
                old(self).topics(),
                tc@,
                old(self).live(),
                cluster_name@,
                broker_addr@,
                *data_version,
                *broker_name,
                register_first,
                mask_allowed,
            ),
            final(self).broker_addr_table == old(self).broker_addr_table,
            final(self).cluster_addr_table == old(self).cluster_addr_table,
            final(self).broker_live_table == old(self).broker_live_table,
            final(self).filter_server_table == old(self).filter_server_table,
            final(self).topic_queue_mapping_info_table == old(self).topic_queue_mapping_info_table,
            final(self).namesrv_config == old(self).namesrv_config,
    {
        let ghost topics0 = self.topics();
        let ghost live0 = self.live();
        proof {
            tc.lemma_prefix_empty();
            assert(topics_with(topics0, tc.prefix_view(0), live0, cluster_name@, broker_addr@, *data_version,
                *broker_name, register_first, mask_allowed) =~= topics0);
        }
        let mut i: usize = 0;
        while i < tc.entries.len()
            invariant
                self.wf(),
                tc.wf(),
                i <= tc.entries@.len(),
                self.live() == live0,
                self.topics() == topics_with(topics0, tc.prefix_view(i as int), live0, cluster_name@, broker_addr@,
                    *data_version, *broker_name, register_first, mask_allowed),
                self.broker_addr_table == old(self).broker_addr_table,
                self.cluster_addr_table == old(self).cluster_addr_table,
                self.broker_live_table == old(self).broker_live_table,
                self.filter_server_table == old(self).filter_server_table,
                self.topic_queue_mapping_info_table == old(self).topic_queue_mapping_info_table,
                self.namesrv_config == old(self).namesrv_config,
            decreases tc.entries@.len() - i,
        {
            let topic = &tc.entries[i].0;
            let config = &tc.entries[i].1;
            proof {
                tc.lemma_entry(i as int);
                tc.lemma_prefix_step(i as int);
                assert(row_or_empty(self.topics(), topic@) == row_or_empty(topics0, topic@));
            }
            let ghost before = self.topics();
            if register_first || self.is_topic_config_changed(
                cluster_name,
                broker_addr,
                data_version,
                broker_name,
                topic,
            ) {
                let mut perm = config.perm;
                if mask_allowed {
                    perm = mask_write(perm);
                }
                self.create_and_update_queue_data(broker_name, topic, config, perm);
            } else {
                proof {
                    assert(before.contains_key(topic@) && before[topic@].contains_key(broker_name@));
                    assert(before[topic@] == topics0[topic@]);
                }
            }
            i = i + 1;
            proof {
                assert(self.topics() =~= topics_with(topics0, tc.prefix_view(i as int), live0, cluster_name@,
                    broker_addr@, *data_version, *broker_name, register_first, mask_allowed));
            }
        }
        proof {
            tc.lemma_prefix_full();
        }
    }

    /// Stores each static mapping under its topic and the broker name it names.
    fn merge_topic_queue_mappings(&mut self, mm: &StrMap<TopicQueueMappingInfo>)
        requires
            old(self).wf(),
            mm.wf(),
        ensures
            final(self).wf(),
            final(self).mappings() == mappings_with(old(self).mappings(), mm@),
            final(self).topic_queue_table == old(self).topic_queue_table,
            final(self).broker_addr_table == old(self).broker_addr_table,
            final(self).cluster_addr_table == old(self).cluster_addr_table,
            final(self).broker_live_table == old(self).broker_live_table,
            final(self).filter_server_table == old(self).filter_server_table,
            final(self).namesrv_config == old(self).namesrv_config,
    {
        let ghost m0 = self.mappings();
        proof {
            mm.lemma_prefix_empty();
            assert(mappings_with(m0, mm.prefix_view(0)) =~= m0);
        }
        let mut i: usize = 0;
        while i < mm.entries.len()
            invariant
                self.wf(),
                mm.wf(),
                i <= mm.entries@.len(),
                self.mappings() == mappings_with(m0, mm.prefix_view(i as int)),
                self.topic_queue_table == old(self).topic_queue_table,
                self.broker_addr_table == old(self).broker_addr_table,
                self.cluster_addr_table == old(self).cluster_addr_table,
                self.broker_live_table == old(self).broker_live_table,
                self.filter_server_table == old(self).filter_server_table,
                self.namesrv_config == old(self).namesrv_config,
            decreases mm.entries@.len() - i,
        {
            let topic = &mm.entries[i].0;
            let info = &mm.entries[i].1;
            proof {
                mm.lemma_entry(i as int);
                mm.lemma_prefix_step(i as int);
            }
            let ghost before = self.mappings();
            nested_insert(&mut self.topic_queue_mapping_info_table, topic.clone(), info.bname.clone(), info.copy());
            i = i + 1;
            proof {
                assert(row_or_empty(before, topic@) == row_or_empty(m0, topic@));
                assert(self.mappings() =~= mappings_with(m0, mm.prefix_view(i as int)));
            }
        }
        proof {
            mm.lemma_prefix_full();
        }
    }
    /// Registers broker `broker_id` of group `broker_name` at `broker_addr`, at time `now`
    /// in milliseconds.
    pub fn register_broker_at(
        &mut self,
        cluster_name: String,
        broker_addr: String,
        broker_name: String,
        broker_id: i64,
        ha_server_addr: String,
        zone_name: Option<String>,
        enable_acting_master: Option<bool>,
        topic_config_serialize_wrapper: TopicConfigAndMappingSerializeWrapper,
        filter_server_list: Vec<String>,
        now: i64,
    ) -> (r: Option<RegisterBrokerResult>)
        requires
            old(self).wf(),
            topic_config_serialize_wrapper.wf(),
            broker_id >= 0,
        ensures
            final(self).wf(),
            final(self).namesrv_config == old(self).namesrv_config,
            register_post(
                old(self),
                final(self),
                cluster_name,
                broker_addr,
                broker_name,
                broker_id,
                ha_server_addr,
                zone_name,
                enable_acting_master,
                &topic_config_serialize_wrapper,
                filter_server_list,
                now,
                r,
            ),
    {
        let ghost s0 = *self;
        // A group that moves to another cluster leaves its old cluster's row.
        let moved_from: Option<String> = match self.broker_addr_table.get(&broker_name) {
            Some(bd) => if bd.cluster != cluster_name {
                Some(bd.cluster.clone())
            } else {
                None
            },
            None => None,
        };
        match &moved_from {
            Some(old_cluster) => {
                nested_remove(&mut self.cluster_addr_table, old_cluster, &broker_name);
            },
            None => {},
        }
        nested_insert(&mut self.cluster_addr_table, cluster_name.clone(), broker_name.clone(), ());

        // A broker that says nothing of acting masters predates them.
        let is_old_version_broker = enable_acting_master.is_none();
        let acting = match enable_acting_master {
            Some(v) => v,
            None => false,
        };
        let (mut broker_data, mut register_first) = match self.broker_addr_table.remove(&broker_name) {
            Some(mut bd) => {
                bd.cluster = cluster_name.clone();
                bd.enable_acting_master = acting;
                bd.zone_name = zone_name;
                (bd, false)
            },
            None => {
                let bd = BrokerData {
                    cluster: cluster_name.clone(),
                    broker_name: broker_name.clone(),
                    broker_addrs: IdMap::new(),
                    zone_name,
                    enable_acting_master: acting,
                };
                (bd, true)
            },
        };
        assert(broker_data.broker_addrs@ == ids_of(s0.brokers(), broker_name@));

        // The same address holds one id only: a slave turned master leaves its old id.
        broker_data.broker_addrs.remove_by_addr(broker_id, &broker_addr);

        let data_version = match &topic_config_serialize_wrapper.data_version {
            Some(v) => *v,
            None => DataVersion::new(),
        };
        let stale = match broker_data.broker_addrs.get(broker_id) {
            Some(old_addr) => {
                if *old_addr != broker_addr {
                    match nested_get(&self.broker_live_table, &cluster_name, old_addr) {
                        Some(info) => info.data_version.state_version > data_version.state_version,
                        None => false,
                    }
                } else {
                    false
                }
            },
            None => false,
        };
        if stale {
            nested_remove(&mut self.broker_live_table, &cluster_name, &broker_addr);
            self.broker_addr_table.insert(broker_name.clone(), broker_data);
            return Some(RegisterBrokerResult { ha_server_addr: String::new(), master_addr: String::new() });
        }
        let size: usize = match &topic_config_serialize_wrapper.topic_config_table {
            Some(t) => t.len(),
            None => 0,
        };
        proof {
            if topic_config_serialize_wrapper.topic_config_table is None {
                assert(topic_config_serialize_wrapper.topics().dom() =~= Set::<Seq<char>>::empty());
            }
        }
        if !broker_data.broker_addrs.contains_key(broker_id) && size == 1 {
            self.broker_addr_table.insert(broker_name.clone(), broker_data);
            return None;
        }

        register_first = register_first || !broker_data.broker_addrs.contains_key(broker_id);
        broker_data.broker_addrs.insert(broker_id, broker_addr.clone());
        let is_master = broker_id == MASTER_ID;
        let min_id = broker_data.broker_addrs.min_key();
        let is_prime_slave = !is_old_version_broker && !is_master && match min_id {
            Some(m) => m == broker_id,
            None => false,
        };
        proof {
            let ids = broker_data.broker_addrs@;
            assert(ids.contains_key(broker_id));
            if let Some(m) = min_id {
                if is_min_id(ids, broker_id) {
                    assert(m <= broker_id && broker_id <= m);
                }
            }
        }
        let master_addr: Option<String> = if broker_id != MASTER_ID {
            match broker_data.broker_addrs.get(MASTER_ID) {
                Some(a) => Some(a.clone()),
                None => None,
            }
        } else {
            None
        };
        let mask_allowed = is_prime_slave && broker_data.enable_acting_master;
        self.broker_addr_table.insert(broker_name.clone(), broker_data);

        if is_master || is_prime_slave {
            match &topic_config_serialize_wrapper.topic_config_table {
                Some(tc_table) => {
                    let mapping_info_map = &topic_config_serialize_wrapper.topic_queue_mapping_info_map;
                    if self.namesrv_config.delete_topic_with_broker_registration && mapping_info_map.len() == 0 {
                        let ghost t0 = self.topics();
                        self.delete_topics_on_registration(&broker_name, tc_table);
                        proof {
                            assert forall|t: Seq<char>| #[trigger] row_or_empty(self.topics(), t) == row_or_empty(t0, t) by {
                                if t0.contains_key(t) && !self.topics().contains_key(t) {
                                    assert(t0[t] == Map::<Seq<char>, QueueData>::empty());
                                }
                            }
                            assert(topics_with(self.topics(), tc_table@, self.live(), cluster_name@, broker_addr@,
                                data_version, broker_name, register_first, mask_allowed) =~= topics_with(t0, tc_table@,
                                self.live(), cluster_name@, broker_addr@, data_version, broker_name, register_first,
                                mask_allowed)) by {
                                assert forall|t: Seq<char>| #[trigger] tc_table@.contains_key(t) implies
                                    topic_changed(self.live(), self.topics(), cluster_name@, broker_addr@, data_version,
                                    broker_name@, t) == topic_changed(self.live(), t0, cluster_name@, broker_addr@,
                                    data_version, broker_name@, t) by {
                                    assert(row_or_empty(self.topics(), t) == row_or_empty(t0, t));
                                }
                            }
                        }
                    }
                    self.upsert_topic_configs(
                        &cluster_name,
                        &broker_addr,
                        &data_version,
                        &broker_name,
                        tc_table,
                        register_first,
                        mask_allowed,
                    );
                    if register_first || self.is_broker_topic_config_changed(&cluster_name, &broker_addr, &data_version) {
                        self.merge_topic_queue_mappings(mapping_info_map);
                    }
                },
                None => {},
            }
        }

        nested_insert(
            &mut self.broker_live_table,
            cluster_name.clone(),
            broker_addr.clone(),
            BrokerLiveInfo {
                last_update_timestamp: now,
                heartbeat_timeout_millis: DEFAULT_BROKER_CHANNEL_EXPIRED_TIME,
                data_version,
                ha_server_addr,
            },
        );
        if filter_server_list.len() == 0 {
            nested_remove(&mut self.filter_server_table, &cluster_name, &broker_addr);
        } else {
            nested_insert(&mut self.filter_server_table, cluster_name.clone(), broker_addr.clone(), filter_server_list);
        }

        let mut result = RegisterBrokerResult { ha_server_addr: String::new(), master_addr: String::new() };
        match master_addr {
            Some(m) => {
                match nested_get(&self.broker_live_table, &cluster_name, &m) {
                    Some(info) => {
                        result.ha_server_addr = info.ha_server_addr.clone();
                        result.master_addr = info.ha_server_addr.clone();
                    },
                    None => {},
                }
            },
            None => {},
        }
        Some(result)
    }
    /// Registers broker `broker_id` of group `broker_name` at `broker_addr`, stamped with
    /// the wall-clock time.
    pub fn register_broker(
        &mut self,
        cluster_name: String,
        broker_addr: String,
        broker_name: String,
        broker_id: i64,
        ha_server_addr: String,
        zone_name: Option<String>,
        _timeout_millis: Option<i64>,
        enable_acting_master: Option<bool>,
        topic_config_serialize_wrapper: TopicConfigAndMappingSerializeWrapper,
        filter_server_list: Vec<String>,
    ) -> (r: Option<RegisterBrokerResult>)
        requires
            old(self).wf(),
            topic_config_serialize_wrapper.wf(),
            broker_id >= 0,
        ensures
            final(self).wf(),
            exists|now: i64|
                register_post(
                    old(self),
                    final(self),
                    cluster_name,
                    broker_addr,
                    broker_name,
                    broker_id,
                    ha_server_addr,
                    zone_name,
                    enable_acting_master,
                    &topic_config_serialize_wrapper,
                    filter_server_list,
                    now,
                    r,
                ),
    {
        let now: i64 = current_time_millis();
        self.register_broker_at(
            cluster_name,
            broker_addr,
            broker_name,
            broker_id,
            ha_server_addr,
            zone_name,
            enable_acting_master,
            topic_config_serialize_wrapper,
            filter_server_list,
            now,
        )
    }
    /// The filter servers of the members of `bds`, by address.
    fn collect_filter_servers(&self, bds: &Vec<BrokerData>) -> (r: StrMap<Vec<String>>)
        requires
            self.wf(),
        ensures
            r.wf(),
            filter_table_view(&r) == filter_servers_of(all_member_pairs(bds@), self.filters()),
    {
        let mut r: StrMap<Vec<String>> = StrMap::new();
        let mut i: usize = 0;
        assert(filter_table_view(&r) =~= filter_servers_of(all_member_pairs(bds@.subrange(0, 0)), self.filters()));
        while i < bds.len()
            invariant
                self.wf(),
                r.wf(),
                i <= bds@.len(),
                filter_table_view(&r) == filter_servers_of(all_member_pairs(bds@.subrange(0, i as int)), self.filters()),
            decreases bds@.len() - i,
        {
            let bd = &bds[i];
            let ghost done = all_member_pairs(bds@.subrange(0, i as int));
            let mut k: usize = 0;
            assert(done + member_pairs(*bd).subrange(0, 0) =~= done);
            while k < bd.broker_addrs.entries.len()
                invariant
                    self.wf(),
                    r.wf(),
                    k <= bd.broker_addrs.entries@.len(),
                    filter_table_view(&r) == filter_servers_of(done + member_pairs(*bd).subrange(0, k as int), self.filters()),
                decreases bd.broker_addrs.entries@.len() - k,
            {
                let addr = &bd.broker_addrs.entries[k].1;
                let ghost p = done + member_pairs(*bd).subrange(0, k as int);
                assert(done + member_pairs(*bd).subrange(0, k + 1) =~= p.push((bd.cluster@, addr@)));
                assert(p.push((bd.cluster@, addr@)).drop_last() =~= p);
                match nested_get(&self.filter_server_table, &bd.cluster, addr) {
                    Some(servers) => {
                        let ghost before = filter_table_view(&r);
                        r.insert(addr.clone(), copy_strings(servers));
                        assert(filter_table_view(&r) =~= before.insert(addr@, servers@));
                    },
                    None => {},
                }
                k = k + 1;
            }
            assert(bds@.subrange(0, i + 1).drop_last() =~= bds@.subrange(0, i as int));
            assert(member_pairs(*bd).subrange(0, k as int) =~= member_pairs(*bd));
            i = i + 1;
        }
        assert(bds@.subrange(0, i as int) =~= bds@);
        r
    }
    /// The queue data of `row` and a copy of each of their groups that is known, in entry order.
    fn collect_route_parts(&self, row: &StrMap<QueueData>) -> (r: (Vec<BrokerData>, Vec<QueueData>))
        requires
            self.wf(),
            row.wf(),
        ensures
            r.1@ == entry_values(row, row.entries@.len() as int),
            r.0@.len() == resolved_names(entry_keys(row, row.entries@.len() as int), self.brokers()).len(),
            forall|j: int|
                0 <= j < r.0@.len() ==> (#[trigger] r.0@[j]).same_as(
                    &self.brokers()[resolved_names(entry_keys(row, row.entries@.len() as int), self.brokers())[j]],
                ) && r.0@[j].broker_addrs.wf(),
    {
        let mut bds: Vec<BrokerData> = Vec::new();
        let mut qds: Vec<QueueData> = Vec::new();
        let mut i: usize = 0;
        assert(entry_values(row, 0) =~= Seq::<QueueData>::empty());
        assert(entry_keys(row, 0) =~= Seq::<Seq<char>>::empty());
        while i < row.entries.len()
            invariant
                self.wf(),
                i <= row.entries@.len(),
                qds@ == entry_values(row, i as int),
                bds@.len() == resolved_names(entry_keys(row, i as int), self.brokers()).len(),
                forall|j: int|
                    0 <= j < bds@.len() ==> (#[trigger] bds@[j]).same_as(
                        &self.brokers()[resolved_names(entry_keys(row, i as int), self.brokers())[j]],
                    ) && bds@[j].broker_addrs.wf(),
            decreases row.entries@.len() - i,
        {
            let ghost names0 = resolved_names(entry_keys(row, i as int), self.brokers());
            qds.push(row.entries[i].1.copy());
            let name = &row.entries[i].0;
            assert(entry_keys(row, i + 1).drop_last() =~= entry_keys(row, i as int));
            assert(entry_values(row, i + 1) =~= entry_values(row, i as int).push(row.entries@[i as int].1));
            match self.broker_addr_table.get(name) {
                Some(bd) => {
                    bds.push(bd.copy());
                    assert(resolved_names(entry_keys(row, i + 1), self.brokers()) == names0.push(name@));
                },
                None => {
                    assert(resolved_names(entry_keys(row, i + 1), self.brokers()) == names0);
                },
            }
            i = i + 1;
        }
        (bds, qds)
    }

    /// The route of `topic`: its queue data, their groups, the groups' filter servers and the
    /// topic's static mappings, with an acting master shown where one is needed.
    pub fn pickup_topic_route_data(&self, topic: &String) -> (r: Option<TopicRouteData>)
        requires
            self.wf(),
        ensures
            match r {
                Some(route) => route_exists(self, topic@) && route_is(self, topic@, &route),
                None => !route_exists(self, topic@),
            },
    {
        let row = match self.topic_queue_table.get(topic) {
            Some(row) => row,
            None => {
                return None;
            },
        };
        let (mut broker_datas, queue_datas) = self.collect_route_parts(row);
        let ghost names = resolved_names(entry_keys(row, row.entries@.len() as int), self.brokers());
        let ghost bds0 = broker_datas@;
        assert(names.map_values(|n: Seq<char>| self.brokers()[n]).len() == names.len());
        if broker_datas.len() == 0 {
            return None;
        }
        let filter_server_table = self.collect_filter_servers(&broker_datas);
        proof {
            let src = route_brokers(self, topic@);
            assert forall|j: int| 0 <= j < bds0.len() implies #[trigger] bds0[j].broker_addrs.entries@
                == src[j].broker_addrs.entries@ && bds0[j].cluster == src[j].cluster by {}
            assert(all_member_pairs(bds0) == all_member_pairs(src)) by {
                lemma_member_pairs_same(bds0, src);
            }
        }
        let mapping = match self.topic_queue_mapping_info_table.get(topic) {
            Some(m) => copy_mappings(m),
            None => StrMap::new(),
        };
        if self.namesrv_config.support_acting_master && !is_sync_broker_member_topic(topic) {
            promote_acting_masters(&mut broker_datas, &queue_datas);
        }
        let route = TopicRouteData {
            order_topic_conf: None,
            broker_datas,
            queue_datas,
            filter_server_table,
            topic_queue_mapping_by_broker: Some(mapping),
        };
        proof {
            let src = route_brokers(self, topic@);
            assert forall|j: int| 0 <= j < src.len() implies #[trigger] src[j] == self.brokers()[names[j]] by {}
            assert(mapping@ == row_or_empty(self.mappings(), topic@));
        }
        Some(route)
    }
    /// Takes the broker at `broker_addr` out of group `broker_name` and drops its heartbeat and
    /// filter servers; a group left without members goes from every table.
    pub fn unregister_broker(
        &mut self,
        cluster_name: &String,
        broker_addr: &String,
        broker_name: &String,
        broker_id: i64,
    )
        requires
            old(self).wf(),
        ensures
            final(self).wf(),
            final(self).namesrv_config == old(self).namesrv_config,
            unregister_post(old(self), final(self), cluster_name@, broker_addr@, broker_name@),
    {
        nested_remove(&mut self.broker_live_table, cluster_name, broker_addr);
        nested_remove(&mut self.filter_server_table, cluster_name, broker_addr);
        match self.broker_addr_table.remove(broker_name) {
            Some(mut bd) => {
                bd.broker_addrs.remove_addr(broker_addr);
                if bd.broker_addrs.is_empty() {
                    nested_remove_everywhere(&mut self.cluster_addr_table, broker_name);
                    nested_remove_everywhere(&mut self.topic_queue_table, broker_name);
                    nested_remove_everywhere(&mut self.topic_queue_mapping_info_table, broker_name);
                } else {
                    self.broker_addr_table.insert(broker_name.clone(), bd);
                }
            },
            None => {
                assert(self.broker_addr_table@ =~= old(self).broker_addr_table@);
            },
        }
    }
    /// The broker processes whose heartbeat has expired at time `now`.
    fn collect_expired(&self, now: i64) -> (r: Vec<(String, String)>)
        requires
            self.wf(),
        ensures
            forall|j: int| 0 <= j < r@.len() ==> live_has(self.live(), (#[trigger] r@[j]).0@, r@[j].1@) && is_expired(
                self.live()[r@[j].0@][r@[j].1@],
                now,
            ),
            forall|c: Seq<char>, a: Seq<char>| #[trigger] live_has(self.live(), c, a) && is_expired(self.live()[c][a], now)
                ==> pair_listed(r@, r@.len() as int, c, a),
            pair_views(r@).no_duplicates(),
    {
        let mut r: Vec<(String, String)> = Vec::new();
        let mut i: usize = 0;
        let live = &self.broker_live_table;
        while i < live.entries.len()
            invariant
                self.wf(),
                live == &self.broker_live_table,
                i <= live.entries@.len(),
                forall|j: int| 0 <= j < r@.len() ==> live_has(self.live(), (#[trigger] r@[j]).0@, r@[j].1@) && is_expired(
                    self.live()[r@[j].0@][r@[j].1@],
                    now,
                ),
                forall|c: Seq<char>, a: Seq<char>| #[trigger] live_has(self.live(), c, a) && is_expired(self.live()[c][a], now)
                    && (exists|x: int| 0 <= x < i && live.entries@[x].0@ == c) ==> pair_listed(r@, r@.len() as int, c, a),
                pair_views(r@).no_duplicates(),
                forall|j: int| 0 <= j < r@.len() ==> exists|x: int| 0 <= x < i && live.entries@[x].0@ == (#[trigger] r@[j]).0@,
            decreases live.entries@.len() - i,
        {
            let cluster = &live.entries[i].0;
            let inner = &live.entries[i].1;
            proof {
                live.lemma_entry(i as int);
            }
            let mut k: usize = 0;
            proof {
                assert forall|j: int| 0 <= j < r@.len() && (#[trigger] r@[j]).0@ == cluster@ implies exists|y: int| 0 <= y < k && inner.entries@[y].0@ == r@[j].1@ by {
                    let x = choose|x: int| 0 <= x < i && live.entries@[x].0@ == r@[j].0@;
                    assert(live.entries@[x].0@ != live.entries@[i as int].0@);
                }
            }
            while k < inner.entries.len()
                invariant
                    self.wf(),
                    live == &self.broker_live_table,
                    i < live.entries@.len(),
                    *cluster == live.entries@[i as int].0,
                    *inner == live.entries@[i as int].1,
                    self.live().contains_key(cluster@),
                    self.live()[cluster@] == inner@,
                    inner.wf(),
                    k <= inner.entries@.len(),
                    forall|j: int| 0 <= j < r@.len() ==> live_has(self.live(), (#[trigger] r@[j]).0@, r@[j].1@) && is_expired(
                        self.live()[r@[j].0@][r@[j].1@],
                        now,
                    ),
                    forall|c: Seq<char>, a: Seq<char>| #[trigger] live_has(self.live(), c, a) && is_expired(self.live()[c][a], now)
                        && (exists|x: int| 0 <= x < i && live.entries@[x].0@ == c) ==> pair_listed(r@, r@.len() as int, c, a),
                    forall|a: Seq<char>| live_has(self.live(), cluster@, a) && is_expired(self.live()[cluster@][a], now)
                        && (exists|y: int| 0 <= y < k && inner.entries@[y].0@ == a) ==> #[trigger] pair_listed(r@, r@.len() as int, cluster@, a),
                    pair_views(r@).no_duplicates(),
                    forall|j: int| 0 <= j < r@.len() ==> exists|x: int| 0 <= x <= i && live.entries@[x].0@ == (#[trigger] r@[j]).0@,
                    forall|j: int| 0 <= j < r@.len() && (#[trigger] r@[j]).0@ == cluster@ ==> exists|y: int| 0 <= y < k && inner.entries@[y].0@ == r@[j].1@,
                decreases inner.entries@.len() - k,
            {
                proof {
                    inner.lemma_entry(k as int);
                }
                let addr = &inner.entries[k].0;
                let info = &inner.entries[k].1;
                let ghost r0 = r@;
                if (now as i128) - (info.last_update_timestamp as i128) > (info.heartbeat_timeout_millis as i128) {
                    proof {
                        assert forall|j: int| 0 <= j < r0.len() implies pair_views(r0)[j] != (cluster@, addr@) by {
                            if r0[j].0@ == cluster@ {
                                let y = choose|y: int| 0 <= y < k && inner.entries@[y].0@ == r0[j].1@;
                                assert(inner.entries@[y].0@ != inner.entries@[k as int].0@);
                            }
                        }
                    }
                    r.push((cluster.clone(), addr.clone()));
                    proof {
                        assert(pair_views(r@) =~= pair_views(r0).push((cluster@, addr@)));
                        assert(r@[r0.len() as int] == (*cluster, *addr));
                        assert forall|c: Seq<char>, a: Seq<char>| pair_listed(r0, r0.len() as int, c, a) implies #[trigger] pair_listed(r@, r@.len() as int, c, a) by {
                            let j = choose|j: int| 0 <= j < r0.len() && (#[trigger] r0[j]).0@ == c && r0[j].1@ == a;
                            assert(r@[j] == r0[j]);
                        }
                        assert(pair_listed(r@, r@.len() as int, cluster@, addr@));
                    }
                }
                k = k + 1;
                proof {
                    assert forall|a: Seq<char>| live_has(self.live(), cluster@, a) && is_expired(self.live()[cluster@][a], now)
                        && (exists|y: int| 0 <= y < k && inner.entries@[y].0@ == a) implies #[trigger] pair_listed(r@, r@.len() as int, cluster@, a) by {
                        let y = choose|y: int| 0 <= y < k && inner.entries@[y].0@ == a;
                        if y < k - 1 {
                        } else {
                            assert(a == addr@);
                        }
                    }
                }
            }
            proof {
                assert forall|a: Seq<char>| live_has(self.live(), cluster@, a) implies exists|y: int| 0 <= y < k && inner.entries@[y].0@ == a by {
                    inner.lemma_key(a);
                    let y = choose|y: int| inner.has_key_at(a, y);
                }
            }
            i = i + 1;
            proof {
                assert forall|c: Seq<char>, a: Seq<char>| #[trigger] live_has(self.live(), c, a) && is_expired(self.live()[c][a], now)
                    && (exists|x: int| 0 <= x < i && live.entries@[x].0@ == c) implies pair_listed(r@, r@.len() as int, c, a) by {
                    let x = choose|x: int| 0 <= x < i && live.entries@[x].0@ == c;
                    if x == i - 1 {
                        assert(c == cluster@);
                        assert(pair_listed(r@, r@.len() as int, cluster@, a));
                    }
                }
            }
        }
        proof {
            assert forall|c: Seq<char>, a: Seq<char>| #[trigger] live_has(self.live(), c, a) && is_expired(self.live()[c][a], now)
                implies pair_listed(r@, r@.len() as int, c, a) by {
                live.lemma_key(c);
                let x = choose|x: int| live.has_key_at(c, x);
                assert(0 <= x < i && live.entries@[x].0@ == c);
            }
        }
        r
    }
    /// Unregisters every broker process whose heartbeat has expired at time `now`, and
    /// returns how many there were.
    pub fn scan_not_active_broker(&mut self, now: i64) -> (r: usize)
        requires
            old(self).wf(),
        ensures
            final(self).wf(),
            final(self).namesrv_config == old(self).namesrv_config,
            forall|c: Seq<char>, a: Seq<char>| #[trigger] live_has(final(self).live(), c, a) == (live_has(old(self).live(), c, a)
                && !is_expired(old(self).live()[c][a], now)),
            forall|c: Seq<char>, a: Seq<char>| #[trigger] live_has(final(self).live(), c, a) ==> final(self).live()[c][a]
                == old(self).live()[c][a],
            old(self).inv() ==> final(self).inv(),
            expired_set(old(self).live(), now).finite(),
            r == expired_set(old(self).live(), now).len(),
            forall|b: Seq<char>| #[trigger] final(self).brokers().contains_key(b) ==> old(self).brokers().contains_key(b)
                && group_shrunk(old(self).brokers()[b], final(self).brokers()[b]),
            forall|b: Seq<char>| #[trigger] old(self).brokers().contains_key(b) ==> (final(self).brokers().contains_key(b)
                <==> (live_members(old(self).brokers()[b], old(self).live(), now) != Map::<i64, String>::empty()
                || old(self).brokers()[b].broker_addrs@ == Map::<i64, String>::empty())),
            forall|b: Seq<char>| #[trigger] final(self).brokers().contains_key(b) ==> final(self).brokers()[b].broker_addrs@
                == live_members(old(self).brokers()[b], old(self).live(), now),
            forall|b: Seq<char>|
                old(self).brokers().contains_key(b) && !#[trigger] final(self).brokers().contains_key(b) ==> forgotten(final(self), b),
            forall|b: Seq<char>, a: Seq<char>|
                final(self).brokers().contains_key(b) && #[trigger] lists_addr(final(self).brokers()[b], a) ==> !(live_has(
                    old(self).live(),
                    final(self).brokers()[b].cluster@,
                    a,
                ) && is_expired(old(self).live()[final(self).brokers()[b].cluster@][a], now)),
    {
        let pairs = self.collect_expired(now);
        proof {
            let v = pair_views(pairs@);
            let e = expired_set(self.live(), now);
            assert forall|p: (Seq<char>, Seq<char>)| v.to_set().contains(p) <==> e.contains(p) by {
                if v.to_set().contains(p) {
                    let j = choose|j: int| 0 <= j < v.len() && v[j] == p;
                    assert(live_has(self.live(), pairs@[j].0@, pairs@[j].1@));
                }
                if e.contains(p) {
                    assert(pair_listed(pairs@, pairs@.len() as int, p.0, p.1));
                    let j = choose|j: int| 0 <= j < pairs@.len() && (#[trigger] pairs@[j]).0@ == p.0 && pairs@[j].1@ == p.1;
                    assert(v[j] == p);
                }
            }
            assert(v.to_set() =~= e);
            v.unique_seq_to_set();
        }
        let ghost live0 = self.live();
        let mut i: usize = 0;
        while i < pairs.len()
            invariant
                self.wf(),
                old(self).inv() ==> self.inv(),
                self.namesrv_config == old(self).namesrv_config,
                live0 == old(self).live(),
                i <= pairs@.len(),
                forall|j: int| 0 <= j < pairs@.len() ==> live_has(live0, (#[trigger] pairs@[j]).0@, pairs@[j].1@) && is_expired(
                    live0[pairs@[j].0@][pairs@[j].1@],
                    now,
                ),
                forall|c: Seq<char>, a: Seq<char>| #[trigger] live_has(live0, c, a) && is_expired(live0[c][a], now)
                    ==> pair_listed(pairs@, pairs@.len() as int, c, a),
                forall|c: Seq<char>, a: Seq<char>| #[trigger] live_has(self.live(), c, a) == (live_has(live0, c, a)
                    && !pair_listed(pairs@, i as int, c, a)),
                forall|c: Seq<char>, a: Seq<char>| #[trigger] live_has(self.live(), c, a) ==> self.live()[c][a] == live0[c][a],
                forall|b: Seq<char>| #[trigger] self.brokers().contains_key(b) ==> old(self).brokers().contains_key(b)
                    && group_shrunk(old(self).brokers()[b], self.brokers()[b]),
                forall|b: Seq<char>|
                    old(self).brokers().contains_key(b) && !#[trigger] self.brokers().contains_key(b) ==> forgotten(self, b),
                forall|b: Seq<char>, id: i64|
                    old(self).brokers().contains_key(b) && #[trigger] old(self).brokers()[b].broker_addrs@.contains_key(id)
                    && !(live_has(live0, old(self).brokers()[b].cluster@, old(self).brokers()[b].broker_addrs@[id]@)
                    && is_expired(live0[old(self).brokers()[b].cluster@][old(self).brokers()[b].broker_addrs@[id]@], now))
                    ==> self.brokers().contains_key(b) && self.brokers()[b].broker_addrs@.contains_key(id),
                forall|b: Seq<char>|
                    #[trigger] old(self).brokers().contains_key(b) && old(self).brokers()[b].broker_addrs@ == Map::<i64, String>::empty()
                    ==> self.brokers().contains_key(b),
                forall|b: Seq<char>, a: Seq<char>|
                    self.brokers().contains_key(b) && #[trigger] lists_addr(self.brokers()[b], a) ==> !pair_listed(
                        pairs@,
                        i as int,
                        self.brokers()[b].cluster@,
                        a,
                    ),
            decreases pairs@.len() - i,
        {
            let cluster = &pairs[i].0;
            let addr = &pairs[i].1;
            let ghost before = self.live();
            let ghost pre = *self;
            nested_remove(&mut self.broker_live_table, cluster, addr);
            nested_remove(&mut self.filter_server_table, cluster, addr);
            proof {
                assert(self.mappings() == pre.mappings());
                assert(self.brokers() == pre.brokers());
                assert(self.clusters() == pre.clusters());
                assert(self.topics() == pre.topics());
                assert(live_has(live0, pairs@[i as int].0@, pairs@[i as int].1@));
                if pre.inv() {
                    assert forall|c2: Seq<char>, a2: Seq<char>|
                        self.filters().contains_key(c2) && #[trigger] self.filters()[c2].contains_key(a2) implies self.filters()[c2][a2]@.len() > 0 by {
                        assert(pre.filters().contains_key(c2) && pre.filters()[c2].contains_key(a2));
                    }
                    assert(self.clusters() == pre.clusters());
                    assert(self.topics() == pre.topics());
                    assert(self.brokers() == pre.brokers());
                    assert(self.inv());
                }
            }
            let ghost removed = self.live();
            let names = self.broker_addr_table.keys();
            proof {
                assert forall|b: Seq<char>| #[trigger] self.brokers().contains_key(b) implies seen(names@, names@.len() as int, b) by {
                    self.broker_addr_table.lemma_key(b);
                    let j = choose|j: int| self.broker_addr_table.has_key_at(b, j);
                    assert(names@[j]@ == b);
                }
            }
            let mut n: usize = 0;
            while n < names.len()
                invariant
                    self.wf(),
                    old(self).inv() ==> self.inv(),
                    self.namesrv_config == old(self).namesrv_config,
                    self.live() == removed,
                    removed == del2(before, cluster@, addr@),
                    n <= names@.len(),
                    i < pairs@.len(),
                    *cluster == pairs@[i as int].0,
                    *addr == pairs@[i as int].1,
                    live0 == old(self).live(),
                    live_has(live0, cluster@, addr@) && is_expired(live0[cluster@][addr@], now),
                    forall|b: Seq<char>| #[trigger] self.brokers().contains_key(b) ==> old(self).brokers().contains_key(b)
                        && group_shrunk(old(self).brokers()[b], self.brokers()[b]),
                    forall|b: Seq<char>|
                    old(self).brokers().contains_key(b) && !#[trigger] self.brokers().contains_key(b) ==> forgotten(self, b),
                forall|b: Seq<char>, id: i64|
                    old(self).brokers().contains_key(b) && #[trigger] old(self).brokers()[b].broker_addrs@.contains_key(id)
                    && !(live_has(live0, old(self).brokers()[b].cluster@, old(self).brokers()[b].broker_addrs@[id]@)
                    && is_expired(live0[old(self).brokers()[b].cluster@][old(self).brokers()[b].broker_addrs@[id]@], now))
                    ==> self.brokers().contains_key(b) && self.brokers()[b].broker_addrs@.contains_key(id),
                forall|b: Seq<char>|
                    #[trigger] old(self).brokers().contains_key(b) && old(self).brokers()[b].broker_addrs@ == Map::<i64, String>::empty()
                    ==> self.brokers().contains_key(b),
                    forall|b: Seq<char>, a: Seq<char>|
                        self.brokers().contains_key(b) && #[trigger] lists_addr(self.brokers()[b], a) ==> !pair_listed(
                            pairs@,
                            i as int,
                            self.brokers()[b].cluster@,
                            a,
                        ),
                    forall|b: Seq<char>| #[trigger] self.brokers().contains_key(b) ==> seen(names@, names@.len() as int, b),
                    forall|b: Seq<char>|
                        self.brokers().contains_key(b) && self.brokers()[b].cluster@ == cluster@ && #[trigger] seen(
                            names@,
                            n as int,
                            b,
                        ) ==> !lists_addr(self.brokers()[b], addr@),
                decreases names@.len() - n,
            {
                let name = &names[n];
                let mut hit: Option<i64> = None;
                let ghost pre_name = *self;
                match self.broker_addr_table.get(name) {
                    Some(bd) => {
                        if bd.cluster == *cluster {
                            let mut k: usize = 0;
                            while k < bd.broker_addrs.entries.len()
                                invariant
                                    k <= bd.broker_addrs.entries@.len(),
                                    hit is None ==> forall|y: int| 0 <= y < k ==> bd.broker_addrs.entries@[y].1@ != addr@,
                                    hit matches Some(h) ==> bd.broker_addrs@.contains_key(h) && bd.broker_addrs@[h]@ == addr@,
                                    bd.broker_addrs.wf(),
                                decreases bd.broker_addrs.entries@.len() - k,
                            {
                                proof {
                                    bd.broker_addrs.lemma_entry(k as int);
                                }
                                if bd.broker_addrs.entries[k].1 == *addr {
                                    hit = Some(bd.broker_addrs.entries[k].0);
                                }
                                k = k + 1;
                            }
                            proof {
                                if let Some(h) = hit {
                                    assert(bd.broker_addrs@.contains_key(h));
                                    assert(lists_addr(*bd, addr@));
                                }
                                if hit is None && lists_addr(*bd, addr@) {
                                    let id = choose|id: i64| #[trigger] bd.broker_addrs@.contains_key(id)
                                        && bd.broker_addrs@[id]@ == addr@;
                                    bd.broker_addrs.lemma_key(id);
                                    let y = choose|y: int| bd.broker_addrs.has_key_at(id, y);
                                    bd.broker_addrs.lemma_entry(y);
                                }
                            }
                        }
                    },
                    None => {},
                }
                assert(hit is Some ==> pre_name.brokers().contains_key(name@) && pre_name.brokers()[name@].cluster@
                    == cluster@ && lists_addr(pre_name.brokers()[name@], addr@));
                match hit {
                    Some(id) => {
                        let ghost pre_call = *self;
                        self.unregister_broker(cluster, addr, name, id);
                        proof {
                            if pre_call.inv() {
                                lemma_unregister_keeps_inv(&pre_call, self, cluster@, addr@, name@);
                            }
                            lemma_del2_twice(before, cluster@, addr@);
                            lemma_unregister_shrinks(&pre_call, self, cluster@, addr@, name@);
                            assert forall|b: Seq<char>|
                                old(self).brokers().contains_key(b) && !#[trigger] self.brokers().contains_key(b) implies forgotten(self, b) by {
                                if !self.brokers().contains_key(name@) {
                                    assert(self.mappings() == strip2(pre_call.mappings(), name@));
                                    assert(self.topics() == strip2(pre_call.topics(), name@));
                                    assert(self.clusters() == strip2(pre_call.clusters(), name@));
                                    if b != name@ {
                                        assert(!pre_call.brokers().contains_key(b));
                                        assert(forgotten(&pre_call, b));
                                    }
                                } else {
                                    assert(b != name@);
                                    assert(!pre_call.brokers().contains_key(b));
                                    assert(forgotten(&pre_call, b));
                                    assert(self.mappings() == pre_call.mappings());
                                }
                            }
                            assert forall|b: Seq<char>, id: i64|
                                old(self).brokers().contains_key(b) && #[trigger] old(self).brokers()[b].broker_addrs@.contains_key(id)
                                && !(live_has(live0, old(self).brokers()[b].cluster@, old(self).brokers()[b].broker_addrs@[id]@)
                                && is_expired(live0[old(self).brokers()[b].cluster@][old(self).brokers()[b].broker_addrs@[id]@], now))
                                implies self.brokers().contains_key(b) && self.brokers()[b].broker_addrs@.contains_key(id) by {
                                assert(pre_call.brokers().contains_key(b) && pre_call.brokers()[b].broker_addrs@.contains_key(id));
                                if b != name@ {
                                    if !self.brokers().contains_key(name@) {
                                        assert(self.brokers() == pre_call.brokers().remove(name@));
                                    }
                                    assert(self.brokers().contains_key(b));
                                    assert(self.brokers()[b] == pre_call.brokers()[b]);
                                }
                                if b == name@ {
                                    let v = old(self).brokers()[b].broker_addrs@[id];
                                    assert(pre_call.brokers()[b].broker_addrs@[id] == v);
                                    assert(live_has(live0, cluster@, addr@) && is_expired(live0[cluster@][addr@], now));
                                    assert(old(self).brokers()[b].cluster == pre_call.brokers()[b].cluster);
                                    assert(v@ != addr@);
                                    let ids = drop_addr(ids_of(pre_call.brokers(), name@), addr@);
                                    assert(ids.contains_key(id));
                                    assert(ids != Map::<i64, String>::empty());
                                    assert(route_broker_is(self.brokers()[name@], pre_call.brokers()[name@], ids));
                                }
                            }
                        }
                    },
                    None => {},
                }
                n = n + 1;
                proof {
                    assert forall|b: Seq<char>| #[trigger] self.brokers().contains_key(b) implies old(self).brokers().contains_key(b)
                        && group_shrunk(old(self).brokers()[b], self.brokers()[b]) by {
                        assert(pre_name.brokers().contains_key(b));
                        assert(group_shrunk(pre_name.brokers()[b], self.brokers()[b]));
                        assert(group_shrunk(old(self).brokers()[b], pre_name.brokers()[b]));
                    }
                    assert forall|b: Seq<char>, a: Seq<char>|
                        self.brokers().contains_key(b) && #[trigger] lists_addr(self.brokers()[b], a) implies !pair_listed(
                            pairs@,
                            i as int,
                            self.brokers()[b].cluster@,
                            a,
                        ) by {
                        let id = choose|id: i64| #[trigger] self.brokers()[b].broker_addrs@.contains_key(id)
                            && self.brokers()[b].broker_addrs@[id]@ == a;
                        assert(pre_name.brokers().contains_key(b));
                        assert(pre_name.brokers()[b].broker_addrs@.contains_key(id));
                        assert(lists_addr(pre_name.brokers()[b], a));
                    }
                    assert forall|b: Seq<char>|
                        self.brokers().contains_key(b) && self.brokers()[b].cluster@ == cluster@ && #[trigger] seen(
                            names@,
                            n as int,
                            b,
                        ) implies !lists_addr(self.brokers()[b], addr@) by {
                        assert(pre_name.brokers().contains_key(b));
                        if b != name@ {
                            assert(self.brokers()[b] == pre_name.brokers()[b]);
                            let j = choose|j: int| 0 <= j < n && names@[j]@ == b;
                            assert(j != n - 1);
                            assert(seen(names@, n - 1, b));
                        } else if lists_addr(self.brokers()[b], addr@) {
                            let id = choose|id: i64| #[trigger] self.brokers()[b].broker_addrs@.contains_key(id)
                                && self.brokers()[b].broker_addrs@[id]@ == addr@;
                            assert(pre_name.brokers()[b].broker_addrs@.contains_key(id));
                            assert(lists_addr(pre_name.brokers()[b], addr@));
                        }
                    }
                    assert forall|b: Seq<char>| #[trigger] self.brokers().contains_key(b) implies seen(names@, names@.len() as int, b) by {
                        assert(pre_name.brokers().contains_key(b));
                    }
                }
            }
            proof {
                assert forall|c: Seq<char>, a: Seq<char>| #[trigger] live_has(self.live(), c, a) == (live_has(before, c, a)
                    && !(c == cluster@ && a == addr@)) && (live_has(self.live(), c, a) ==> self.live()[c][a] == before[c][a]) by {
                    if c == cluster@ {
                        if before.contains_key(c) {
                            assert(self.live()[c] == before[c].remove(addr@));
                        }
                    }
                }
            }
            i = i + 1;
            proof {
                assert forall|c: Seq<char>, a: Seq<char>| #[trigger] live_has(self.live(), c, a) == (live_has(live0, c, a)
                    && !pair_listed(pairs@, i as int, c, a)) by {
                    if pair_listed(pairs@, i as int, c, a) && !pair_listed(pairs@, i - 1, c, a) {
                        let j = choose|j: int| 0 <= j < i && (#[trigger] pairs@[j]).0@ == c && pairs@[j].1@ == a;
                        assert(j == i - 1);
                    }
                    if pair_listed(pairs@, i - 1, c, a) {
                        let j = choose|j: int| 0 <= j < i - 1 && (#[trigger] pairs@[j]).0@ == c && pairs@[j].1@ == a;
                        assert(0 <= j < i && pairs@[j].0@ == c && pairs@[j].1@ == a);
                    }
                    if c == cluster@ && a == addr@ {
                        assert(pairs@[i - 1].0@ == c && pairs@[i - 1].1@ == a);
                        assert(pair_listed(pairs@, i as int, c, a));
                    }
                }
            }
        }
        proof {
            assert forall|b: Seq<char>, a: Seq<char>|
                self.brokers().contains_key(b) && #[trigger] lists_addr(self.brokers()[b], a) implies !(live_has(
                    live0,
                    self.brokers()[b].cluster@,
                    a,
                ) && is_expired(live0[self.brokers()[b].cluster@][a], now)) by {
                if live_has(live0, self.brokers()[b].cluster@, a) && is_expired(live0[self.brokers()[b].cluster@][a], now) {
                    assert(pair_listed(pairs@, pairs@.len() as int, self.brokers()[b].cluster@, a));
                }
            }
            assert forall|b: Seq<char>| #[trigger] self.brokers().contains_key(b) implies self.brokers()[b].broker_addrs@
                == live_members(old(self).brokers()[b], old(self).live(), now) by {
                let ob = old(self).brokers()[b];
                let nb = self.brokers()[b];
                assert forall|k: i64| nb.broker_addrs@.contains_key(k) implies live_members(ob, live0, now).contains_key(k) by {
                    assert(lists_addr(nb, nb.broker_addrs@[k]@));
                }
                assert forall|k: i64| live_members(ob, live0, now).contains_key(k) implies nb.broker_addrs@.contains_key(k) by {
                    assert(ob.broker_addrs@.contains_key(k));
                }
                assert(nb.broker_addrs@ =~= live_members(ob, live0, now));
            }
            assert forall|b: Seq<char>| #[trigger] old(self).brokers().contains_key(b) implies (self.brokers().contains_key(b)
                <==> (live_members(old(self).brokers()[b], old(self).live(), now) != Map::<i64, String>::empty()
                || old(self).brokers()[b].broker_addrs@ == Map::<i64, String>::empty())) by {
                let ob = old(self).brokers()[b];
                if live_members(ob, live0, now) != Map::<i64, String>::empty() {
                    if !(exists|k: i64| #[trigger] live_members(ob, live0, now).contains_key(k)) {
                        assert(live_members(ob, live0, now) =~= Map::<i64, String>::empty());
                    }
                    let k = choose|k: i64| #[trigger] live_members(ob, live0, now).contains_key(k);
                    assert(ob.broker_addrs@.contains_key(k));
                }
                if self.brokers().contains_key(b) && ob.broker_addrs@ != Map::<i64, String>::empty() {
                    assert(self.brokers()[b].broker_addrs@ != Map::<i64, String>::empty());
                }
            }
            assert forall|c: Seq<char>, a: Seq<char>| #[trigger] live_has(self.live(), c, a) implies !is_expired(live0[c][a], now) by {
                if is_expired(live0[c][a], now) {
                    assert(pair_listed(pairs@, pairs@.len() as int, c, a));
                }
            }
            assert forall|c: Seq<char>, a: Seq<char>| live_has(live0, c, a) && !is_expired(live0[c][a], now) implies #[trigger] live_has(self.live(), c, a) by {
                if pair_listed(pairs@, pairs@.len() as int, c, a) {
                    let j = choose|j: int| 0 <= j < pairs@.len() && (#[trigger] pairs@[j]).0@ == c && pairs@[j].1@ == a;
                    assert(is_expired(live0[pairs@[j].0@][pairs@[j].1@], now));
                }
            }
        }
        pairs.len()
    }
    /// A copy of the broker table and of the cluster table.
    pub fn get_all_cluster_info(&self) -> (r: ClusterInfo)
        requires
            self.wf(),
        ensures
            broker_table_copied(&r.broker_addr_table, &self.broker_addr_table),
            nested_wf(&r.cluster_addr_table),
            nested_view(&r.cluster_addr_table) == self.clusters(),
    {
        ClusterInfo {
            broker_addr_table: copy_broker_table(&self.broker_addr_table),
            cluster_addr_table: copy_cluster_table(&self.cluster_addr_table),
        }
    }
    /// Whether registering `broker_id` in group `broker_name` lowers the group's smallest id
    /// and listeners are to be told of it. Asked before the registration.
    pub fn notify_min_broker_id_changed(&self, broker_name: &String, broker_id: i64) -> (r: bool)
        requires
            self.wf(),
        ensures
            r == (self.namesrv_config.notify_min_broker_id_changed && broker_id < min_id_or_master(
                ids_of(self.brokers(), broker_name@),
            )),
    {
        if !self.namesrv_config.notify_min_broker_id_changed {
            return false;
        }
        let prev_min_broker_id: i64 = match self.broker_addr_table.get(broker_name) {
            Some(bd) => match bd.broker_addrs.min_key() {
                Some(m) => {
                    proof {
                        let c = choose|c: i64| is_min_id(bd.broker_addrs@, c);
                        assert(c <= m && m <= c);
                    }
                    m
                },
                None => MASTER_ID,
            },
            None => MASTER_ID,
        };
        broker_id < prev_min_broker_id
    }
}

} // verus!
