use vstd::prelude::*;

use crate::idmap::IdMap;
use crate::strmap::StrMap;
use vstd::string::StrSliceExecFns;

verus! {

/// The id under which a broker group's master registers.
pub const MASTER_ID: i64 = 0;

/// How long a live entry stays valid without a heartbeat, in milliseconds.
pub const DEFAULT_BROKER_CHANNEL_EXPIRED_TIME: i64 = 120000;

pub const PERM_PRIORITY: u32 = 8;

pub const PERM_READ: u32 = 4;

pub const PERM_WRITE: u32 = 2;

pub const PERM_INHERIT: u32 = 1;

/// Topics whose names start with this prefix never get an acting master.
pub open spec fn sync_broker_member_group_prefix() -> Seq<char> {
    "rmq_sys_SYNC_BROKER_MEMBER_"@
}

/// Whether `topic` names a topic of broker group synchronisation.
pub fn is_sync_broker_member_topic(topic: &String) -> (r: bool)
    ensures
        r == sync_broker_member_group_prefix().is_prefix_of(topic@),
{
    let prefix: &str = "rmq_sys_SYNC_BROKER_MEMBER_";
    proof {
        reveal_strlit("rmq_sys_SYNC_BROKER_MEMBER_");
    }
    let t: &str = topic.as_str();
    let n: usize = prefix.unicode_len();
    if t.unicode_len() < n {
        return false;
    }
    let mut i: usize = 0;
    while i < n
        invariant
            n == prefix@.len(),
            n <= t@.len(),
            prefix@ == sync_broker_member_group_prefix(),
            t@ == topic@,
            i <= n,
            forall|j: int| 0 <= j < i ==> prefix@[j] == t@[j],
        decreases n - i,
    {
        if prefix.get_char(i) != t.get_char(i) {
            return false;
        }
        i = i + 1;
    }
    assert(prefix@ =~= t@.subrange(0, n as int));
    true
}

/// `perm` with the write bit cleared and every other bit kept.
pub open spec fn perm_without_write(perm: u32) -> u32 {
    perm & !PERM_WRITE
}

pub open spec fn perm_writeable(perm: u32) -> bool {
    perm & PERM_WRITE == PERM_WRITE
}

pub fn mask_write(perm: u32) -> (r: u32)
    ensures
        r == perm_without_write(perm),
{
    perm & !PERM_WRITE
}

pub fn is_writeable(perm: u32) -> (r: bool)
    ensures
        r == perm_writeable(perm),
{
    perm & PERM_WRITE == PERM_WRITE
}

/// The version of a broker's topic configuration.
#[derive(Clone, Copy, Debug, PartialEq, Eq, Structural)]
pub struct DataVersion {
    pub state_version: i64,
    pub timestamp: i64,
    pub counter: i64,
}

impl DataVersion {
    pub open spec fn zero() -> DataVersion {
        DataVersion { state_version: 0, timestamp: 0, counter: 0 }
    }

    pub fn new() -> (r: DataVersion)
        ensures
            r == DataVersion::zero(),
    {
        DataVersion { state_version: 0, timestamp: 0, counter: 0 }
    }
}

/// What one broker contributes to one topic.
#[derive(Clone, Debug)]
pub struct QueueData {
    pub broker_name: String,
    pub write_queue_nums: u32,
    pub read_queue_nums: u32,
    pub perm: u32,
    pub topic_sys_flag: u32,
}

impl QueueData {
    pub fn copy(&self) -> (r: QueueData)
        ensures
            r == *self,
    {
        QueueData {
            broker_name: self.broker_name.clone(),
            write_queue_nums: self.write_queue_nums,
            read_queue_nums: self.read_queue_nums,
            perm: self.perm,
            topic_sys_flag: self.topic_sys_flag,
        }
    }
}

/// A broker's configuration of one topic.
#[derive(Clone, Debug)]
pub struct TopicConfig {
    /// The topic's name; a registration files the config under its key in the announced table.
    pub topic_name: String,
    pub read_queue_nums: u32,
    pub write_queue_nums: u32,
    pub perm: u32,
    pub topic_sys_flag: u32,
}

/// Static sharding of a topic on one broker.
#[derive(Clone, Debug)]
pub struct TopicQueueMappingInfo {
    pub topic: String,
    pub bname: String,
    pub total_queues: i32,
    pub epoch: i64,
}

impl TopicQueueMappingInfo {
    pub fn copy(&self) -> (r: TopicQueueMappingInfo)
        ensures
            r == *self,
    {
        TopicQueueMappingInfo {
            topic: self.topic.clone(),
            bname: self.bname.clone(),
            total_queues: self.total_queues,
            epoch: self.epoch,
        }
    }
}

/// What a broker announces with a registration: its version, its topics by name, and its
/// static topic mappings by topic.
pub struct TopicConfigAndMappingSerializeWrapper {
    pub data_version: Option<DataVersion>,
    pub topic_config_table: Option<StrMap<TopicConfig>>,
    pub topic_queue_mapping_info_map: StrMap<TopicQueueMappingInfo>,
}

impl TopicConfigAndMappingSerializeWrapper {
    pub open spec fn wf(&self) -> bool {
        self.topic_queue_mapping_info_map.wf() && match self.topic_config_table {
            Some(t) => t.wf(),
            None => true,
        }
    }

    /// The announced version, the zero version where none is given.
    pub open spec fn version(&self) -> DataVersion {
        match self.data_version {
            Some(v) => v,
            None => DataVersion::zero(),
        }
    }

    /// The announced topics, none where no table is given.
    pub open spec fn topics(&self) -> Map<Seq<char>, TopicConfig> {
        match self.topic_config_table {
            Some(t) => t@,
            None => Map::empty(),
        }
    }
}

/// A broker group: its cluster, its name and the address of each member by id.
pub struct BrokerData {
    pub cluster: String,
    pub broker_name: String,
    pub broker_addrs: IdMap,
    pub zone_name: Option<String>,
    pub enable_acting_master: bool,
}

impl BrokerData {
    /// The two hold the same group: the same fields, the same members in the same order.
    pub open spec fn same_as(&self, o: &BrokerData) -> bool {
        &&& self.cluster == o.cluster
        &&& self.broker_name == o.broker_name
        &&& self.broker_addrs.entries@ == o.broker_addrs.entries@
        &&& self.broker_addrs@ == o.broker_addrs@
        &&& self.zone_name == o.zone_name
        &&& self.enable_acting_master == o.enable_acting_master
    }

    pub fn copy(&self) -> (r: BrokerData)
        requires
            self.broker_addrs.wf(),
        ensures
            r.same_as(self),
            r.broker_addrs.wf(),
    {
        let zone_name = match &self.zone_name {
            Some(z) => Some(z.clone()),
            None => None,
        };
        let addrs = self.broker_addrs.copy();
        BrokerData {
            cluster: self.cluster.clone(),
            broker_name: self.broker_name.clone(),
            broker_addrs: addrs,
            zone_name,
            enable_acting_master: self.enable_acting_master,
        }
    }
}

/// The last heartbeat seen from one broker process.
#[derive(Clone, Debug)]
pub struct BrokerLiveInfo {
    pub last_update_timestamp: i64,
    pub heartbeat_timeout_millis: i64,
    pub data_version: DataVersion,
    pub ha_server_addr: String,
}

/// What a registering broker learns: where its master's HA service listens.
#[derive(Clone, Debug)]
pub struct RegisterBrokerResult {
    pub ha_server_addr: String,
    pub master_addr: String,
}

/// The options of the name service that the route tables consult.
#[derive(Clone, Copy, Debug, PartialEq, Eq, Structural)]
pub struct NamesrvConfig {
    pub delete_topic_with_broker_registration: bool,
    pub support_acting_master: bool,
    pub notify_min_broker_id_changed: bool,
}

/// Everything a client needs to reach one topic.
pub struct TopicRouteData {
    pub order_topic_conf: Option<String>,
    pub broker_datas: Vec<BrokerData>,
    pub queue_datas: Vec<QueueData>,
    pub filter_server_table: StrMap<Vec<String>>,
    pub topic_queue_mapping_by_broker: Option<StrMap<TopicQueueMappingInfo>>,
}

/// A copy of the broker and cluster tables.
pub struct ClusterInfo {
    pub broker_addr_table: StrMap<BrokerData>,
    pub cluster_addr_table: StrMap<StrMap<()>>,
}

} // verus!
