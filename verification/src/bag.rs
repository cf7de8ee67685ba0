//! Selection of the IMU and PointCloud2 messages of a ROS bag.
//!
//! Every message record of the bag's chunks is handed to a `BagScan` in
//! order, with the topic of the connection it arrived on. A record on the
//! IMU topic, or else on the LiDAR topic, has its message decoded as that
//! kind; messages that do not decode are skipped, and a record yields at most
//! one message. The scan stops once it has been handed as many
//! records as its limit.
use crate::ros::{
    cloud_message, imu_message, parse_imu_message, parse_pointcloud2_message, RosImuBits,
    RosPointCloud2, RosPointCloud2View,
};
use vstd::prelude::*;

verus! {

/// A decoded bag message.
#[derive(Debug, Clone)]
pub enum RosbagMessage {
    Imu(RosImuBits),
    PointCloud(RosPointCloud2),
}

/// Mathematical content of a `RosbagMessage`.
pub enum RosbagMessageView {
    Imu(RosImuBits),
    PointCloud(RosPointCloud2View),
}

impl View for RosbagMessage {
    type V = RosbagMessageView;

    open spec fn view(&self) -> RosbagMessageView {
        match self {
            RosbagMessage::Imu(m) => RosbagMessageView::Imu(*m),
            RosbagMessage::PointCloud(c) => RosbagMessageView::PointCloud(c@),
        }
    }
}

/// What one connection with `topic` yields for the message bytes `d`: the
/// decoded IMU message on the IMU topic, else the decoded cloud on the LiDAR
/// topic, and nothing otherwise or when the bytes do not decode.
pub open spec fn topic_message(
    topic: Seq<char>,
    imu_topic: Seq<char>,
    lidar_topic: Seq<char>,
    d: Seq<u8>,
) -> Seq<RosbagMessageView> {
    if topic == imu_topic {
        match imu_message(d) {
            Some(m) => seq![RosbagMessageView::Imu(m)],
            None => seq![],
        }
    } else if topic == lidar_topic {
        match cloud_message(d) {
            Some(c) => seq![RosbagMessageView::PointCloud(c)],
            None => seq![],
        }
    } else {
        seq![]
    }
}

/// What a record yields: for message bytes, what its connection's topic
/// yields for them (see `topic_message`); nothing for a record without a
/// message.
pub open spec fn record_yield(
    topic: Seq<char>,
    imu_topic: Seq<char>,
    lidar_topic: Seq<char>,
    data: Option<Seq<u8>>,
) -> Seq<RosbagMessageView> {
    match data {
        Some(d) => topic_message(topic, imu_topic, lidar_topic, d),
        None => seq![],
    }
}

/// What a message record yields: on the IMU topic, the decoded IMU message
/// when its bytes decode as one and nothing otherwise; on the LiDAR topic
/// (when it is not also the IMU topic), the decoded cloud when they decode
/// as one; on any other topic, or without message bytes, nothing. A record
/// never yields more than one message.
pub proof fn lemma_record_yield(
    topic: Seq<char>,
    imu_topic: Seq<char>,
    lidar_topic: Seq<char>,
    data: Option<Seq<u8>>,
)
    ensures
        record_yield(topic, imu_topic, lidar_topic, data).len() <= 1,
        data is None ==> record_yield(topic, imu_topic, lidar_topic, data).len() == 0,
        topic != imu_topic && topic != lidar_topic ==> record_yield(
            topic,
            imu_topic,
            lidar_topic,
            data,
        ).len() == 0,
        match data {
            Some(d) => topic == imu_topic ==> record_yield(topic, imu_topic, lidar_topic, data)
                == match imu_message(d) {
                Some(m) => seq![RosbagMessageView::Imu(m)],
                None => Seq::<RosbagMessageView>::empty(),
            },
            None => true,
        },
        match data {
            Some(d) => topic != imu_topic && topic == lidar_topic ==> record_yield(
                topic,
                imu_topic,
                lidar_topic,
                data,
            ) == match cloud_message(d) {
                Some(c) => seq![RosbagMessageView::PointCloud(c)],
                None => Seq::<RosbagMessageView>::empty(),
            },
            None => true,
        },
{
}

/// Number of IMU messages among `msgs`.
pub open spec fn imu_total(msgs: Seq<RosbagMessageView>) -> nat
    decreases msgs.len(),
{
    if msgs.len() == 0 {
        0
    } else {
        imu_total(msgs.drop_last()) + if msgs.last() is Imu {
            1nat
        } else {
            0nat
        }
    }
}

/// Number of clouds among `msgs`.
pub open spec fn cloud_total(msgs: Seq<RosbagMessageView>) -> nat
    decreases msgs.len(),
{
    if msgs.len() == 0 {
        0
    } else {
        cloud_total(msgs.drop_last()) + if msgs.last() is PointCloud {
            1nat
        } else {
            0nat
        }
    }
}

/// The mathematical content of a list of messages.
pub open spec fn messages_view(v: Seq<RosbagMessage>) -> Seq<RosbagMessageView> {
    v.map_values(|m: RosbagMessage| m@)
}

/// The topics under which the IMU and LiDAR messages of a bag are looked for.
#[derive(Debug, Clone)]
pub struct RosbagReader {
    pub imu_topic: String,
    pub lidar_topic: String,
}

/// A scan over the message records of a bag, with what it has kept so far.
#[derive(Debug, Clone)]
pub struct BagScan {
    pub imu_topic: String,
    pub lidar_topic: String,
    /// Number of records after which the scan stops.
    pub limit: usize,
    /// IMU messages kept so far.
    pub imu_count: usize,
    /// Clouds kept so far.
    pub pc_count: usize,
    /// Records handed to the scan so far.
    pub total_processed: usize,
    /// The kept messages, in the order they were found.
    pub messages: Vec<RosbagMessage>,
}

impl RosbagReader {
    /// A reader with the topics of the Livox recordings: `/eve/livox/imu`
    /// and `/eve/lidar3d`.
    pub fn new() -> (r: RosbagReader)
        ensures
            r.imu_topic@ == "/eve/livox/imu"@,
            r.lidar_topic@ == "/eve/lidar3d"@,
    {
        RosbagReader { imu_topic: "/eve/livox/imu".to_owned(), lidar_topic: "/eve/lidar3d".to_owned() }
    }

    /// Sets the IMU topic.
    pub fn set_imu_topic(&mut self, topic: &str) -> (r: &mut Self)
        ensures
            r.imu_topic@ == topic@,
            r.lidar_topic@ == old(self).lidar_topic@,
            *final(self) == *final(r),
    {
        self.imu_topic = topic.to_owned();
        self
    }

    /// Sets the LiDAR topic.
    pub fn set_lidar_topic(&mut self, topic: &str) -> (r: &mut Self)
        ensures
            r.lidar_topic@ == topic@,
            r.imu_topic@ == old(self).imu_topic@,
            *final(self) == *final(r),
    {
        self.lidar_topic = topic.to_owned();
        self
    }

    /// Starts a scan that stops after `max_count` records (never, when none
    /// is given).
    pub fn start_scan(&self, max_count: Option<usize>) -> (s: BagScan)
        ensures
            s.imu_topic@ == self.imu_topic@,
            s.lidar_topic@ == self.lidar_topic@,
            s.limit == match max_count {
                Some(n) => n,
                None => usize::MAX,
            },
            s.imu_count == 0,
            s.pc_count == 0,
            s.total_processed == 0,
            s.messages@.len() == 0,
    {
        let limit = match max_count {
            Some(n) => n,
            None => usize::MAX,
        };
        BagScan {
            imu_topic: self.imu_topic.clone(),
            lidar_topic: self.lidar_topic.clone(),
            limit,
            imu_count: 0,
            pc_count: 0,
            total_processed: 0,
            messages: Vec::new(),
        }
    }
}

impl BagScan {
    /// Whether the scan has been handed as many records as its limit.
    pub fn reached_limit(&self) -> (b: bool)
        ensures
            b == (self.total_processed >= self.limit),
    {
        self.total_processed >= self.limit
    }

    /// Hands the scan one record. `data` holds the record's message bytes,
    /// or nothing for a record that holds none; `topic` is the topic of the
    /// connection the record arrived on. Bytes on the IMU topic are decoded
    /// as an IMU message, bytes on the LiDAR topic as a cloud, and kept when
    /// they decode: a record yields at most one message. Returns whether the
    /// scan has now been handed as many records as its limit.
    pub fn accept(&mut self, topic: &String, data: Option<&[u8]>) -> (done: bool)
        requires
            old(self).total_processed < usize::MAX,
            old(self).imu_count < usize::MAX,
            old(self).pc_count < usize::MAX,
        ensures
            final(self).imu_topic == old(self).imu_topic,
            final(self).lidar_topic == old(self).lidar_topic,
            final(self).limit == old(self).limit,
            messages_view(final(self).messages@) == messages_view(old(self).messages@) + record_yield(
                topic@,
                old(self).imu_topic@,
                old(self).lidar_topic@,
                match data {
                    Some(d) => Some(d@),
                    None => None,
                },
            ),
            final(self).messages@.len() <= old(self).messages@.len() + 1,
            final(self).imu_count == old(self).imu_count + imu_total(
                record_yield(
                    topic@,
                    old(self).imu_topic@,
                    old(self).lidar_topic@,
                    match data {
                        Some(d) => Some(d@),
                        None => None,
                    },
                ),
            ),
            final(self).pc_count == old(self).pc_count + cloud_total(
                record_yield(
                    topic@,
                    old(self).imu_topic@,
                    old(self).lidar_topic@,
                    match data {
                        Some(d) => Some(d@),
                        None => None,
                    },
                ),
            ),
            final(self).total_processed == old(self).total_processed + 1,
            done == (final(self).total_processed >= final(self).limit),
    {
        let ghost start = self.messages@;
        let ghost empty = Seq::<RosbagMessageView>::empty();
        proof {
            assert(imu_total(empty) == 0);
            assert(cloud_total(empty) == 0);
            assert(messages_view(start) + empty =~= messages_view(start));
        }
        if let Some(d) = data {
            if *topic == self.imu_topic {
                match parse_imu_message(d) {
                    Ok(m) => {
                        self.imu_count = self.imu_count + 1;
                        self.messages.push(RosbagMessage::Imu(m));
                        proof {
                            let step = seq![RosbagMessageView::Imu(m)];
                            assert(messages_view(self.messages@) =~= messages_view(start) + step);
                            assert(imu_total(step) == 1) by {
                                reveal_with_fuel(imu_total, 2);
                                assert(step.drop_last() =~= empty);
                            }
                            assert(cloud_total(step) == 0) by {
                                reveal_with_fuel(cloud_total, 2);
                                assert(step.drop_last() =~= empty);
                            }
                        }
                    },
                    Err(_) => {},
                }
            } else if *topic == self.lidar_topic {
                match parse_pointcloud2_message(d) {
                    Ok(c) => {
                        proof {
                            assert(cloud_message(d@) == Some(c@));
                        }
                        self.pc_count = self.pc_count + 1;
                        self.messages.push(RosbagMessage::PointCloud(c));
                        proof {
                            let step = seq![RosbagMessageView::PointCloud(c@)];
                            assert(messages_view(self.messages@) =~= messages_view(start) + step);
                            assert(cloud_total(step) == 1) by {
                                reveal_with_fuel(cloud_total, 2);
                                assert(step.drop_last() =~= empty);
                            }
                            assert(imu_total(step) == 0) by {
                                reveal_with_fuel(imu_total, 2);
                                assert(step.drop_last() =~= empty);
                            }
                        }
                    },
                    Err(_) => {},
                }
            }
        }
        self.total_processed = self.total_processed + 1;
        self.total_processed >= self.limit
    }
}

} // verus!
