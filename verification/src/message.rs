//! Message wrapper types and ROS time conversion.
//!
//! Domain timestamps arrive as `(sec, nanosec)` pairs; the library holds
//! them as nanosecond counts, flooring negative times to zero.

use vstd::prelude::*;

use crate::types::WithTimestamp;

verus! {

/// The nanosecond count of a ROS time: `sec * 10^9 + nanosec`, floored to
/// zero for negative seconds.
pub open spec fn ros_time_to_ns(sec: i32, nanosec: u32) -> u64 {
    if sec >= 0 {
        (sec * 1_000_000_000 + nanosec) as u64
    } else {
        0
    }
}

/// Converts ROS time (`sec`, `nanosec`) to a nanosecond count.  Negative
/// seconds (pre-epoch) floor to zero.
pub fn ros_time_to_duration(sec: i32, nanosec: u32) -> (r: u64)
    ensures
        r == ros_time_to_ns(sec, nanosec),
{
    if sec >= 0 {
        (sec as u64) * 1_000_000_000 + (nanosec as u64)
    } else {
        0
    }
}

/// Converts a nanosecond count back to ROS time components.  The seconds
/// saturate at `i32::MAX`; the nanosecond component is kept exactly.
pub fn duration_to_ros_time(duration: u64) -> (r: (i32, u32))
    ensures
        r.0 == if duration / 1_000_000_000 > i32::MAX {
            i32::MAX as int
        } else {
            (duration / 1_000_000_000) as int
        },
        r.1 == duration % 1_000_000_000,
{
    let secs = duration / 1_000_000_000;
    let nanos = (duration % 1_000_000_000) as u32;
    let sec = if secs > i32::MAX as u64 {
        i32::MAX
    } else {
        secs as i32
    };
    (sec, nanos)
}

/// A message that carries a header with a timestamp and a frame.
pub trait HasHeader: Sized {
    /// The header stamp, as `(sec, nanosec)`.
    spec fn spec_header_stamp(&self) -> (i32, u32);

    /// Returns the header stamp.
    fn header_stamp(&self) -> (r: (i32, u32))
        ensures
            r == self.spec_header_stamp(),
    ;

    /// Returns the header's frame identifier.
    fn header_frame_id(&self) -> &str;
}

/// A message with an extractable timestamp, in nanoseconds.
pub trait Timestamped: Sized {
    /// The timestamp of the message.
    spec fn spec_ts(&self) -> u64;

    /// Returns the timestamp.
    fn timestamp(&self) -> (t: u64)
        ensures
            t == self.spec_ts(),
    ;
}

impl<M: HasHeader> Timestamped for M {
    open spec fn spec_ts(&self) -> u64 {
        ros_time_to_ns(self.spec_header_stamp().0, self.spec_header_stamp().1)
    }

    fn timestamp(&self) -> (t: u64)
        ensures
            t == self.spec_ts(),
    {
        let (sec, nanosec) = self.header_stamp();
        ros_time_to_duration(sec, nanosec)
    }
}

/// A serialized message together with its topic and extracted timestamp.
#[derive(Debug)]
pub struct TimestampedMessage {
    /// The topic this message came from.
    pub topic: String,
    /// Timestamp extracted from the message header, in nanoseconds.
    pub timestamp: u64,
    /// The serialized message data.
    pub data: Vec<u8>,
    /// Original ROS timestamp (sec, nanosec) for reconstruction.
    pub ros_stamp: (i32, u32),
}

impl TimestampedMessage {
    /// Bundles the parts into a message.
    pub fn new(topic: String, timestamp: u64, data: Vec<u8>, ros_stamp: (i32, u32)) -> (r: Self)
        ensures
            r.topic@ == topic@,
            r.timestamp == timestamp,
            r.data@ == data@,
            r.ros_stamp == ros_stamp,
    {
        TimestampedMessage { topic, timestamp, data, ros_stamp }
    }

    /// Builds a message from a ROS header timestamp.
    pub fn from_ros_time(topic: String, sec: i32, nanosec: u32, data: Vec<u8>) -> (r: Self)
        ensures
            r.topic@ == topic@,
            r.timestamp == ros_time_to_ns(sec, nanosec),
            r.data@ == data@,
            r.ros_stamp == (sec, nanosec),
    {
        let timestamp = ros_time_to_duration(sec, nanosec);
        TimestampedMessage { topic, timestamp, data, ros_stamp: (sec, nanosec) }
    }
}

impl WithTimestamp for TimestampedMessage {
    open spec fn ts(&self) -> u64 {
        self.timestamp
    }

    open spec fn spec_timeout(&self) -> Option<u64> {
        None
    }

    fn timestamp(&self) -> (t: u64)
        ensures
            t == self.ts(),
    {
        self.timestamp
    }

    fn timeout(&self) -> (r: Option<u64>)
        ensures
            r == self.spec_timeout(),
    {
        None
    }

    fn dup(&self) -> (r: Self)
        ensures
            r.ts() == self.ts(),
            r.spec_timeout() == self.spec_timeout(),
    {
        TimestampedMessage {
            topic: self.topic.clone(),
            timestamp: self.timestamp,
            data: self.data.clone(),
            ros_stamp: self.ros_stamp,
        }
    }
}

/// A ready-made message for hosts whose payloads are plain bytes: a
/// timestamp, an optional dwell timeout, and the payload.
#[derive(Debug)]
pub struct PlainMessage {
    /// The timestamp, in nanoseconds.
    pub timestamp: u64,
    /// The optional dwell timeout, in nanoseconds.
    pub timeout: Option<u64>,
    /// The payload.
    pub data: Vec<u8>,
}

impl PlainMessage {
    /// Bundles the parts into a message.
    pub fn new(timestamp: u64, timeout: Option<u64>, data: Vec<u8>) -> (r: Self)
        ensures
            r.timestamp == timestamp,
            r.timeout == timeout,
            r.data@ == data@,
    {
        PlainMessage { timestamp, timeout, data }
    }
}

impl WithTimestamp for PlainMessage {
    open spec fn ts(&self) -> u64 {
        self.timestamp
    }

    open spec fn spec_timeout(&self) -> Option<u64> {
        self.timeout
    }

    fn timestamp(&self) -> (t: u64)
        ensures
            t == self.ts(),
    {
        self.timestamp
    }

    fn timeout(&self) -> (r: Option<u64>)
        ensures
            r == self.spec_timeout(),
    {
        self.timeout
    }

    fn dup(&self) -> (r: Self)
        ensures
            r.ts() == self.ts(),
            r.spec_timeout() == self.spec_timeout(),
    {
        PlainMessage {
            timestamp: self.timestamp,
            timeout: self.timeout,
            data: self.data.clone(),
        }
    }
}

/// A minimal message that carries just a header, for exercising header
/// timestamp extraction.
#[derive(Debug)]
pub struct HeaderMessage {
    /// The header stamp, as `(sec, nanosec)`.
    pub stamp: (i32, u32),
    /// The header's frame identifier.
    pub frame_id: String,
}

impl HeaderMessage {
    /// Bundles a stamp and frame into a message.
    pub fn new(stamp: (i32, u32), frame_id: String) -> (r: Self)
        ensures
            r.stamp == stamp,
            r.frame_id@ == frame_id@,
    {
        HeaderMessage { stamp, frame_id }
    }
}

impl HasHeader for HeaderMessage {
    open spec fn spec_header_stamp(&self) -> (i32, u32) {
        self.stamp
    }

    fn header_stamp(&self) -> (r: (i32, u32))
        ensures
            r == self.spec_header_stamp(),
    {
        self.stamp
    }

    fn header_frame_id(&self) -> &str {
        self.frame_id.as_str()
    }
}

/// A type-erased message: the timestamp and topic beside the serialized
/// payload and its type name.
#[derive(Debug)]
pub struct AnyMessage {
    /// The timestamp extracted from the message, in nanoseconds.
    pub timestamp: u64,
    /// The topic this message came from.
    pub topic: String,
    /// The serialized message data.
    pub data: Vec<u8>,
    /// Original ROS timestamp for reconstruction.
    pub ros_stamp: (i32, u32),
    /// The message type name (e.g. a package-qualified sensor type).
    pub message_type: String,
}

impl AnyMessage {
    /// Builds a type-erased message from raw components, as received from a
    /// subscription.
    pub fn from_raw(
        topic: String,
        timestamp: u64,
        ros_stamp: (i32, u32),
        data: Vec<u8>,
        message_type: String,
    ) -> (r: Self)
        ensures
            r.topic@ == topic@,
            r.timestamp == timestamp,
            r.ros_stamp == ros_stamp,
            r.data@ == data@,
            r.message_type@ == message_type@,
    {
        AnyMessage { timestamp, topic, data, ros_stamp, message_type }
    }
}

impl WithTimestamp for AnyMessage {
    open spec fn ts(&self) -> u64 {
        self.timestamp
    }

    open spec fn spec_timeout(&self) -> Option<u64> {
        None
    }

    fn timestamp(&self) -> (t: u64)
        ensures
            t == self.ts(),
    {
        self.timestamp
    }

    fn timeout(&self) -> (r: Option<u64>)
        ensures
            r == self.spec_timeout(),
    {
        None
    }

    fn dup(&self) -> (r: Self)
        ensures
            r.ts() == self.ts(),
            r.spec_timeout() == self.spec_timeout(),
    {
        AnyMessage {
            timestamp: self.timestamp,
            topic: self.topic.clone(),
            data: self.data.clone(),
            ros_stamp: self.ros_stamp,
            message_type: self.message_type.clone(),
        }
    }
}

/// Marker for payloads the host knows how to serialize.
pub trait Serialize {

}

/// Whether two string slices spell the same characters.
pub fn str_eq(a: &str, b: &str) -> (r: bool)
    ensures
        r == (a@ == b@),
{
    let la = a.unicode_len();
    let lb = b.unicode_len();
    if la != lb {
        proof {
            assert(a@ != b@);
        }
        return false;
    }
    let mut i: usize = 0;
    while i < la
        invariant
            la == a@.len(),
            la == b@.len(),
            i <= la,
            forall|j: int| 0 <= j < i ==> a@[j] == b@[j],
        decreases la - i,
    {
        if a.get_char(i) != b.get_char(i) {
            proof {
                assert(a@[i as int] != b@[i as int]);
            }
            return false;
        }
        i = i + 1;
    }
    proof {
        assert(a@ =~= b@);
    }
    true
}

/// A synchronized group of messages, keyed by topic, in key registration
/// order.
#[derive(Debug)]
pub struct SynchronizedGroup {
    /// The reference timestamp for this group, in nanoseconds.
    pub timestamp: u64,
    /// The messages in this group, each with its topic.
    pub messages: Vec<(String, TimestampedMessage)>,
}

impl SynchronizedGroup {
    /// Bundles messages into a group.
    pub fn new(timestamp: u64, messages: Vec<(String, TimestampedMessage)>) -> (r: Self)
        ensures
            r.timestamp == timestamp,
            r.messages@ == messages@,
    {
        SynchronizedGroup { timestamp, messages }
    }

    /// The message for `topic`, if the group has one.
    pub fn get(&self, topic: &str) -> (r: Option<&TimestampedMessage>)
        ensures
            match r {
                Some(m) => exists|i: int|
                    0 <= i < self.messages@.len() && #[trigger] self.messages@[i].0@ == topic@
                        && *m == self.messages@[i].1,
                None => forall|i: int|
                    0 <= i < self.messages@.len() ==> #[trigger] self.messages@[i].0@ != topic@,
            },
    {
        let n = self.messages.len();
        let mut i: usize = 0;
        while i < n
            invariant
                n == self.messages@.len(),
                i <= n,
                forall|j: int| 0 <= j < i ==> #[trigger] self.messages@[j].0@ != topic@,
            decreases n - i,
        {
            if str_eq(self.messages[i].0.as_str(), topic) {
                return Some(&self.messages[i].1);
            }
            i = i + 1;
        }
        None
    }

    /// Number of messages in the group.
    pub fn len(&self) -> (n: usize)
        ensures
            n == self.messages@.len(),
    {
        self.messages.len()
    }

    /// Whether the group is empty.
    pub fn is_empty(&self) -> (r: bool)
        ensures
            r == (self.messages@.len() == 0),
    {
        self.messages.len() == 0
    }
}

/// The package-infix form marker inside a full message type name.
pub open spec fn msg_infix() -> Seq<char> {
    seq!['/', 'm', 's', 'g', '/']
}

/// Whether `s` contains the `/msg/` infix.
pub open spec fn has_msg_infix(s: Seq<char>) -> bool {
    exists|i: int| 0 <= i && i + 5 <= s.len() && #[trigger] s.subrange(i, i + 5) == msg_infix()
}

/// Whether the `/msg/` infix starts at position `i` of `s`.
pub open spec fn infix_at(s: Seq<char>, i: int) -> bool {
    &&& 0 <= i
    &&& i + 5 <= s.len()
    &&& s[i] == '/'
    &&& s[i + 1] == 'm'
    &&& s[i + 2] == 's'
    &&& s[i + 3] == 'g'
    &&& s[i + 4] == '/'
}

/// The infix starts at `i` exactly when the five-character slice there
/// spells it.
proof fn lemma_infix_at(s: Seq<char>, i: int)
    requires
        0 <= i,
        i + 5 <= s.len(),
    ensures
        infix_at(s, i) <==> s.subrange(i, i + 5) == msg_infix(),
{
    if infix_at(s, i) {
        assert(s.subrange(i, i + 5) =~= msg_infix());
    }
    if s.subrange(i, i + 5) == msg_infix() {
        assert(s.subrange(i, i + 5)[0] == s[i]);
        assert(s.subrange(i, i + 5)[1] == s[i + 1]);
        assert(s.subrange(i, i + 5)[2] == s[i + 2]);
        assert(s.subrange(i, i + 5)[3] == s[i + 3]);
        assert(s.subrange(i, i + 5)[4] == s[i + 4]);
    }
}

/// The full form of a message type name: a name that already contains the
/// `/msg/` infix is kept; otherwise the first `/` (separating package and
/// type) is widened to `/msg/`; a name with no separator is kept.
pub open spec fn normalized_type(s: Seq<char>) -> Seq<char> {
    if has_msg_infix(s) {
        s
    } else {
        match first_slash(s) {
            Some(i) => s.subrange(0, i) + msg_infix() + s.subrange(i + 1, s.len() as int),
            None => s,
        }
    }
}

/// Normalizes a message type name to its full form.
#[verifier::rlimit(100)]
pub fn normalize_msg_type(msg_type: &str) -> (r: String)
    ensures
        r@ == normalized_type(msg_type@),
{
    let n = msg_type.unicode_len();
    // scan for the infix
    if n >= 5 {
        let mut i: usize = 0;
        while i <= n - 5
            invariant
                n >= 5,
                n == msg_type@.len(),
                i <= n - 4,
                forall|j: int| 0 <= j < i ==> !infix_at(msg_type@, j),
            decreases n - i,
        {
            let hit = msg_type.get_char(i) == '/' && msg_type.get_char(i + 1) == 'm'
                && msg_type.get_char(i + 2) == 's' && msg_type.get_char(i + 3) == 'g'
                && msg_type.get_char(i + 4) == '/';
            if hit {
                proof {
                    lemma_infix_at(msg_type@, i as int);
                    assert(msg_type@.subrange(i as int, i + 5) == msg_infix());
                }
                return msg_type.to_owned();
            }
            i = i + 1;
        }
        proof {
            assert forall|k: int|
                0 <= k && k + 5 <= msg_type@.len() implies #[trigger] msg_type@.subrange(
                k,
                k + 5,
            ) != msg_infix() by {
                assert(k <= n - 5 < i);
                assert(!infix_at(msg_type@, k));
                lemma_infix_at(msg_type@, k);
            }
            assert(!has_msg_infix(msg_type@));
        }
    } else {
        proof {
            assert forall|k: int|
                0 <= k && k + 5 <= msg_type@.len() implies #[trigger] msg_type@.subrange(
                k,
                k + 5,
            ) != msg_infix() by {
                assert(msg_type@.len() < 5);
            }
            assert(!has_msg_infix(msg_type@));
        }
    }

    // no infix: widen the first separator
    let mut i: usize = 0;
    while i < n
        invariant
            !has_msg_infix(msg_type@),
            n == msg_type@.len(),
            i <= n,
            forall|j: int| 0 <= j < i ==> msg_type@[j] != '/',
        decreases n - i,
    {
        if msg_type.get_char(i) == '/' {
            proof {
                assert(first_slash(msg_type@) == Some(i as int)) by {
                    assert(msg_type@[i as int] == '/');
                    lemma_first_slash(msg_type@, i as int);
                }
                reveal_strlit("/msg/");
                assert(("/msg/")@ =~= msg_infix());
            }
            let head = msg_type.substring_char(0, i);
            let tail = msg_type.substring_char(i + 1, n);
            let mut out = head.to_owned();
            out.append("/msg/");
            out.append(tail);
            return out;
        }
        i = i + 1;
    }
    proof {
        assert(first_slash(msg_type@) is None) by {
            lemma_no_slash(msg_type@);
        }
    }
    msg_type.to_owned()
}

/// Whether a (normalized) message type name is one of the sensor types a
/// typed subscription can be created for.
pub open spec fn is_supported_type_name(s: Seq<char>) -> bool {
    ||| s == "sensor_msgs/msg/Image"@
    ||| s == "sensor_msgs/msg/PointCloud2"@
    ||| s == "sensor_msgs/msg/Imu"@
    ||| s == "sensor_msgs/msg/LaserScan"@
    ||| s == "sensor_msgs/msg/CameraInfo"@
    ||| s == "sensor_msgs/msg/CompressedImage"@
    ||| s == "sensor_msgs/msg/NavSatFix"@
    ||| s == "sensor_msgs/msg/Range"@
    ||| s == "sensor_msgs/msg/JointState"@
    ||| s == "sensor_msgs/msg/Joy"@
}

/// Decides whether a subscription can be created for `msg_type`: its
/// normalized form must be a supported sensor type.
pub fn is_supported_msg_type(msg_type: &str) -> (r: bool)
    ensures
        r == is_supported_type_name(normalized_type(msg_type@)),
{
    let normalized = normalize_msg_type(msg_type);
    let n = normalized.as_str();
    str_eq(n, "sensor_msgs/msg/Image") || str_eq(n, "sensor_msgs/msg/PointCloud2") || str_eq(
        n,
        "sensor_msgs/msg/Imu",
    ) || str_eq(n, "sensor_msgs/msg/LaserScan") || str_eq(n, "sensor_msgs/msg/CameraInfo")
        || str_eq(n, "sensor_msgs/msg/CompressedImage") || str_eq(n, "sensor_msgs/msg/NavSatFix")
        || str_eq(n, "sensor_msgs/msg/Range") || str_eq(n, "sensor_msgs/msg/JointState")
        || str_eq(n, "sensor_msgs/msg/Joy")
}

/// The index of the first `/` in `s`, if any.
pub open spec fn first_slash(s: Seq<char>) -> Option<int> {
    if exists|i: int| 0 <= i < s.len() && s[i] == '/' {
        Some(
            choose|i: int|
                0 <= i < s.len() && s[i] == '/' && (forall|j: int| 0 <= j < i ==> s[j] != '/'),
        )
    } else {
        None
    }
}

/// A position with a slash and none before it is the first slash.
proof fn lemma_first_slash(s: Seq<char>, i: int)
    requires
        0 <= i < s.len(),
        s[i] == '/',
        forall|j: int| 0 <= j < i ==> s[j] != '/',
    ensures
        first_slash(s) == Some(i),
{
    let w = choose|w: int|
        0 <= w < s.len() && s[w] == '/' && (forall|j: int| 0 <= j < w ==> s[j] != '/');
    if w < i {
        assert(s[w] != '/');
    }
    if i < w {
        assert(s[i] != '/');
    }
}

/// A string with no slash has no first slash.
proof fn lemma_no_slash(s: Seq<char>)
    requires
        forall|j: int| 0 <= j < s.len() ==> s[j] != '/',
    ensures
        first_slash(s) is None,
{
}

} // verus!
