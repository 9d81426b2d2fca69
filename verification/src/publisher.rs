//! The publisher's decisions: configuration, how a track argument splits, how a
//! namespace publisher answers control messages, and in which order objects are sent.
use crate::parameter::GroupOrder;
use crate::varint::varint_limit;
use vstd::prelude::*;
use vstd::string::StringSliceAdditionalSpecFns;

verus! {

/// How objects travel: as datagrams, or on one stream per group.
#[derive(Debug, Clone, Copy, PartialEq, Eq)]
pub enum DeliveryMode {
    Datagram,
    Subgroup,
}

/// Settings for publishing tracks.
pub struct PublishConfig {
    pub namespace: String,
    pub track_name: String,
    pub track_path: String,
    pub tracks: Vec<String>,
    pub delivery_mode: DeliveryMode,
    pub group_count: u64,
    pub interval: u64,
    pub objects_per_group: u64,
    pub payload_size: usize,
    pub track_alias: u64,
    pub publisher_priority: u8,
    pub group_order: GroupOrder,
}

/// Settings for publishing a namespace and serving whatever is subscribed in it.
pub struct PublishNamespaceConfig {
    pub namespace: String,
    pub delivery_mode: DeliveryMode,
    pub group_count: u64,
    pub interval: u64,
    pub objects_per_group: u64,
    pub payload_size: usize,
    pub publisher_priority: u8,
}

/// What sending the objects of a track needs to know.
#[derive(Debug, Clone, Copy, PartialEq, Eq)]
pub struct DataConfig {
    pub delivery_mode: DeliveryMode,
    pub group_count: u64,
    pub interval: u64,
    pub objects_per_group: u64,
    pub payload_size: usize,
    pub publisher_priority: u8,
}

impl PublishConfig {
    /// The data settings of this configuration.
    pub fn data_config(&self) -> (r: DataConfig)
        ensures
            r == (DataConfig {
                delivery_mode: self.delivery_mode,
                group_count: self.group_count,
                interval: self.interval,
                objects_per_group: self.objects_per_group,
                payload_size: self.payload_size,
                publisher_priority: self.publisher_priority,
            }),
    {
        DataConfig {
            delivery_mode: self.delivery_mode,
            group_count: self.group_count,
            interval: self.interval,
            objects_per_group: self.objects_per_group,
            payload_size: self.payload_size,
            publisher_priority: self.publisher_priority,
        }
    }
}

impl PublishNamespaceConfig {
    /// The data settings of this configuration.
    pub fn data_config(&self) -> (r: DataConfig)
        ensures
            r == (DataConfig {
                delivery_mode: self.delivery_mode,
                group_count: self.group_count,
                interval: self.interval,
                objects_per_group: self.objects_per_group,
                payload_size: self.payload_size,
                publisher_priority: self.publisher_priority,
            }),
    {
        DataConfig {
            delivery_mode: self.delivery_mode,
            group_count: self.group_count,
            interval: self.interval,
            objects_per_group: self.objects_per_group,
            payload_size: self.payload_size,
            publisher_priority: self.publisher_priority,
        }
    }
}

/// The byte that separates a track's name from its path in a track argument.
pub open spec fn track_separator() -> u8 {
    0x3D
}

/// Splits a track argument `name=path` at its first `=`: the bytes of the name and of
/// the path, or `None` when there is no `=`.
pub fn split_track_spec(spec: &str) -> (r: Option<(Vec<u8>, Vec<u8>)>)
    ensures
        match r {
            None => !spec.spec_bytes().contains(track_separator()),
            Some((name, path)) => {
                &&& spec.spec_bytes() == name@ + seq![track_separator()] + path@
                &&& !name@.contains(track_separator())
            },
        },
{
    let bytes = spec.as_bytes();
    let ghost b = bytes@;
    let mut i: usize = 0;
    while i < bytes.len()
        invariant
            i <= b.len(),
            b == bytes@,
            b == spec.spec_bytes(),
            forall|j: int| 0 <= j < i ==> b[j] != track_separator(),
        decreases b.len() - i,
    {
        if bytes[i] == 0x3D {
            let mut name: Vec<u8> = Vec::new();
            let mut k: usize = 0;
            while k < i
                invariant
                    k <= i,
                    i < b.len(),
                    b == bytes@,
                    name@ == b.take(k as int),
                decreases i - k,
            {
                name.push(bytes[k]);
                k = k + 1;
                assert(name@ =~= b.take(k as int));
            }
            let mut path: Vec<u8> = Vec::new();
            let mut k: usize = i + 1;
            while k < bytes.len()
                invariant
                    i < k <= b.len(),
                    b == bytes@,
                    path@ == b.subrange(i + 1, k as int),
                decreases b.len() - k,
            {
                path.push(bytes[k]);
                k = k + 1;
                assert(path@ =~= b.subrange(i + 1, k as int));
            }
            assert(b =~= name@ + seq![track_separator()] + path@);
            assert(!name@.contains(track_separator())) by {
                if name@.contains(track_separator()) {
                    let j = choose|j: int| 0 <= j < name@.len() && name@[j] == track_separator();
                    assert(b[j] == track_separator());
                }
            }
            return Some((name, path));
        }
        i = i + 1;
    }
    assert(!b.contains(track_separator())) by {
        if b.contains(track_separator()) {
            let j = choose|j: int| 0 <= j < b.len() && b[j] == track_separator();
            assert(b[j] != track_separator());
        }
    }
    None
}

/// A control message as the namespace publisher sees it.
#[derive(Debug, Clone, Copy, PartialEq, Eq)]
pub enum ControlEvent {
    /// A SUBSCRIBE with its request ID.
    Subscribe { request_id: u64 },
    /// An UNSUBSCRIBE.
    Unsubscribe,
    /// Any other control message.
    Other,
    /// The control stream ended or failed.
    Closed,
}

/// What the namespace publisher does in answer.
#[derive(Debug, Clone, Copy, PartialEq, Eq)]
pub enum NamespaceAction {
    /// Answer SUBSCRIBE_OK with this alias and start sending the track under it.
    Accept { request_id: u64, track_alias: u64 },
    /// Note the message and go on.
    Ignore,
    /// Stop reading control messages.
    Stop,
}

/// The namespace publisher's state: the alias the next subscription gets.
pub struct NamespaceServer {
    pub next_track_alias: u64,
}

/// One step of the namespace publisher: the alias counter after the event, and the
/// action.
pub open spec fn spec_namespace_step(next_alias: u64, ev: ControlEvent) -> (u64, NamespaceAction) {
    match ev {
        ControlEvent::Subscribe { request_id } => (
            (next_alias + 1) as u64,
            NamespaceAction::Accept { request_id, track_alias: next_alias },
        ),
        ControlEvent::Unsubscribe => (next_alias, NamespaceAction::Ignore),
        ControlEvent::Other => (next_alias, NamespaceAction::Ignore),
        ControlEvent::Closed => (next_alias, NamespaceAction::Stop),
    }
}

impl NamespaceServer {
    /// A publisher that has handed out no alias yet; the first one is 1.
    pub fn new() -> (r: NamespaceServer)
        ensures
            r.next_track_alias == 1,
    {
        NamespaceServer { next_track_alias: 1 }
    }

    /// Handles one control event.
    pub fn on_event(&mut self, ev: ControlEvent) -> (r: NamespaceAction)
        requires
            ev is Subscribe ==> old(self).next_track_alias < u64::MAX,
        ensures
            (final(self).next_track_alias, r) == spec_namespace_step(old(self).next_track_alias, ev),
            ev matches ControlEvent::Subscribe { request_id } ==> r == (NamespaceAction::Accept {
                request_id,
                track_alias: old(self).next_track_alias,
            }) && final(self).next_track_alias == old(self).next_track_alias + 1,
            !(ev is Subscribe) ==> final(self).next_track_alias == old(self).next_track_alias,
            ev is Closed ==> r == NamespaceAction::Stop,
            (ev is Unsubscribe || ev is Other) ==> r == NamespaceAction::Ignore,
    {
        match ev {
            ControlEvent::Subscribe { request_id } => {
                let track_alias = self.next_track_alias;
                self.next_track_alias = self.next_track_alias + 1;
                NamespaceAction::Accept { request_id, track_alias }
            },
            ControlEvent::Unsubscribe => NamespaceAction::Ignore,
            ControlEvent::Other => NamespaceAction::Ignore,
            ControlEvent::Closed => NamespaceAction::Stop,
        }
    }
}

/// A SUBSCRIBE is answered with the request ID it carried, under the alias the counter
/// stood at, and the counter moves on by one; nothing else moves the counter.
pub proof fn lemma_subscribe_answered(next_alias: u64, ev: ControlEvent)
    requires
        next_alias < u64::MAX,
    ensures
        ev matches ControlEvent::Subscribe { request_id } ==> spec_namespace_step(next_alias, ev)
            == ((next_alias + 1) as u64, NamespaceAction::Accept { request_id, track_alias: next_alias }),
        !(ev is Subscribe) ==> spec_namespace_step(next_alias, ev).0 == next_alias,
        spec_namespace_step(next_alias, ev).1 matches NamespaceAction::Accept { request_id, .. } ==> ev
            == (ControlEvent::Subscribe { request_id }),
{
}

/// The aliases handed out over a run of events from a counter at `next_alias`.
pub open spec fn spec_aliases(next_alias: u64, evs: Seq<ControlEvent>) -> Seq<u64>
    decreases evs.len(),
{
    if evs.len() == 0 {
        Seq::<u64>::empty()
    } else {
        let (n, a) = spec_namespace_step(next_alias, evs[0]);
        let rest = spec_aliases(n, evs.drop_first());
        match a {
            NamespaceAction::Accept { request_id, track_alias } => seq![track_alias] + rest,
            _ => rest,
        }
    }
}

/// The number of subscriptions in a run of events.
pub open spec fn subscribe_count(evs: Seq<ControlEvent>) -> nat
    decreases evs.len(),
{
    if evs.len() == 0 {
        0
    } else {
        (if evs[0] is Subscribe {
            1nat
        } else {
            0nat
        }) + subscribe_count(evs.drop_first())
    }
}

/// Over any run of events whose subscriptions do not exhaust the counter, the aliases
/// handed out are `next_alias`, `next_alias + 1`, ... in order, so no two
/// subscriptions share an alias.
pub proof fn lemma_aliases_consecutive(next_alias: u64, evs: Seq<ControlEvent>)
    requires
        next_alias + subscribe_count(evs) <= u64::MAX,
    ensures
        spec_aliases(next_alias, evs).len() == subscribe_count(evs),
        forall|i: int|
            0 <= i < spec_aliases(next_alias, evs).len() ==> #[trigger] spec_aliases(
                next_alias,
                evs,
            )[i] == next_alias + i,
    decreases evs.len(),
{
    if evs.len() > 0 {
        let (n, a) = spec_namespace_step(next_alias, evs[0]);
        lemma_aliases_consecutive(n, evs.drop_first());
        let rest = spec_aliases(n, evs.drop_first());
        if evs[0] is Subscribe {
            assert forall|i: int|
                0 <= i < spec_aliases(next_alias, evs).len() implies #[trigger] spec_aliases(
                next_alias,
                evs,
            )[i] == next_alias + i by {
                if i > 0 {
                    assert(spec_aliases(next_alias, evs)[i] == rest[i - 1]);
                }
            }
        }
    }
}

/// How a control reply that a publisher waits for came out.
#[derive(Debug, Clone, Copy, PartialEq, Eq)]
pub enum ControlReply {
    RequestOk { request_id: u64 },
    PublishOk { request_id: u64 },
    Other,
    Failed,
}

/// What the publisher makes of the reply.
#[derive(Debug, Clone, Copy, PartialEq, Eq)]
pub enum ReplyOutcome {
    Accepted,
    WrongRequest { expected: u64, got: u64 },
    Unexpected,
    Failed,
}

/// The outcome of the reply to a PUBLISH_NAMESPACE with request ID `expected`: only a
/// REQUEST_OK for that same request accepts it.
pub fn namespace_reply_outcome(expected: u64, reply: ControlReply) -> (r: ReplyOutcome)
    ensures
        r == match reply {
            ControlReply::RequestOk { request_id } => if request_id == expected {
                ReplyOutcome::Accepted
            } else {
                ReplyOutcome::WrongRequest { expected, got: request_id }
            },
            ControlReply::Failed => ReplyOutcome::Failed,
            _ => ReplyOutcome::Unexpected,
        },
{
    match reply {
        ControlReply::RequestOk { request_id } => if request_id == expected {
            ReplyOutcome::Accepted
        } else {
            ReplyOutcome::WrongRequest { expected, got: request_id }
        },
        ControlReply::Failed => ReplyOutcome::Failed,
        _ => ReplyOutcome::Unexpected,
    }
}

/// The outcome of the reply to a PUBLISH: any PUBLISH_OK accepts it.
pub fn publish_reply_outcome(reply: ControlReply) -> (r: ReplyOutcome)
    ensures
        r == match reply {
            ControlReply::PublishOk { .. } => ReplyOutcome::Accepted,
            ControlReply::Failed => ReplyOutcome::Failed,
            _ => ReplyOutcome::Unexpected,
        },
{
    match reply {
        ControlReply::PublishOk { .. } => ReplyOutcome::Accepted,
        ControlReply::Failed => ReplyOutcome::Failed,
        _ => ReplyOutcome::Unexpected,
    }
}

/// One step of sending a track's objects.
#[derive(Debug, Clone, Copy, PartialEq, Eq)]
pub enum SendEvent {
    /// Open the stream (or start the datagrams) of a group.
    StartGroup { group: u64 },
    /// Send one object; `previous` is the object sent before it in the same group,
    /// `None` for a group's first object.
    Object { group: u64, object: u64, previous: Option<u64> },
    /// Flush and close the group's stream.
    EndGroup { group: u64 },
    /// Every group has been sent.
    Done,
}

/// Where the sender stands: `group_count` groups of `objects_per_group` objects are
/// sent in order; `group` and `object` are the next ones, and `in_group` says whether
/// the current group has been started.
pub struct ObjectSchedule {
    pub group_count: u64,
    pub objects_per_group: u64,
    pub group: u64,
    pub object: u64,
    pub in_group: bool,
}

impl ObjectSchedule {
    pub open spec fn wf(&self) -> bool {
        &&& self.group <= self.group_count
        &&& self.object <= self.objects_per_group
        &&& self.group == self.group_count ==> !self.in_group
        &&& !self.in_group ==> self.object == 0
    }

    /// The number of events sent so far.
    pub open spec fn position(&self) -> int {
        self.group * (self.objects_per_group + 2) + if self.in_group {
            1 + self.object
        } else {
            0
        }
    }
}

/// The event at position `k` of the sending of groups of `per_group` objects: each
/// group is its start, its objects in order, and its end.
pub open spec fn expected_event(per_group: u64, k: int) -> SendEvent {
    let g = k / (per_group + 2);
    let r = k % (per_group + 2);
    if r == 0 {
        SendEvent::StartGroup { group: g as u64 }
    } else if r <= per_group {
        SendEvent::Object {
            group: g as u64,
            object: (r - 1) as u64,
            previous: if r == 1 {
                None
            } else {
                Some((r - 2) as u64)
            },
        }
    } else {
        SendEvent::EndGroup { group: g as u64 }
    }
}

/// One step of the schedule: the next state and the event.
pub open spec fn spec_schedule_step(st: ObjectSchedule) -> (ObjectSchedule, SendEvent) {
    if st.group >= st.group_count {
        (st, SendEvent::Done)
    } else if !st.in_group {
        (ObjectSchedule { in_group: true, object: 0, ..st }, SendEvent::StartGroup { group: st.group })
    } else if st.object < st.objects_per_group {
        (
            ObjectSchedule { object: (st.object + 1) as u64, ..st },
            SendEvent::Object {
                group: st.group,
                object: st.object,
                previous: if st.object == 0 {
                    None
                } else {
                    Some((st.object - 1) as u64)
                },
            },
        )
    } else {
        (
            ObjectSchedule { group: (st.group + 1) as u64, object: 0, in_group: false, ..st },
            SendEvent::EndGroup { group: st.group },
        )
    }
}

impl ObjectSchedule {
    /// The schedule for `group_count` groups of `objects_per_group` objects, before the
    /// first group.
    pub fn new(group_count: u64, objects_per_group: u64) -> (r: ObjectSchedule)
        ensures
            r == (ObjectSchedule { group_count, objects_per_group, group: 0, object: 0, in_group: false }),
            r.wf(),
            r.position() == 0,
    {
        ObjectSchedule { group_count, objects_per_group, group: 0, object: 0, in_group: false }
    }

    /// Moves to the next event and returns it.
    pub fn next_event(&mut self) -> (r: SendEvent)
        requires
            old(self).wf(),
        ensures
            (*final(self), r) == spec_schedule_step(*old(self)),
            final(self).wf(),
    {
        if self.group >= self.group_count {
            SendEvent::Done
        } else if !self.in_group {
            self.in_group = true;
            self.object = 0;
            SendEvent::StartGroup { group: self.group }
        } else if self.object < self.objects_per_group {
            let o = self.object;
            let previous = if o == 0 {
                None
            } else {
                Some(o - 1)
            };
            self.object = self.object + 1;
            SendEvent::Object { group: self.group, object: o, previous }
        } else {
            let g = self.group;
            self.group = self.group + 1;
            self.object = 0;
            self.in_group = false;
            SendEvent::EndGroup { group: g }
        }
    }
}

/// The schedule sends exactly the expected events in order: from any well-formed
/// state it is done exactly when all `group_count * (objects_per_group + 2)` events
/// are out, and otherwise the event it gives is the one expected at its position,
/// after which its position has grown by one.
pub proof fn lemma_schedule_in_order(st: ObjectSchedule)
    requires
        st.wf(),
    ensures
        (spec_schedule_step(st).1 == SendEvent::Done) <==> st.position() == st.group_count * (
        st.objects_per_group + 2),
        spec_schedule_step(st).1 != SendEvent::Done ==> {
            &&& spec_schedule_step(st).1 == expected_event(st.objects_per_group, st.position())
            &&& spec_schedule_step(st).0.position() == st.position() + 1
            &&& spec_schedule_step(st).0.wf()
            &&& spec_schedule_step(st).0.group_count == st.group_count
            &&& spec_schedule_step(st).0.objects_per_group == st.objects_per_group
        },
{
    let d = st.objects_per_group + 2;
    let r: int = if st.in_group {
        1 + st.object
    } else {
        0
    };
    assert(st.position() == st.group * d + r);
    vstd::arithmetic::div_mod::lemma_fundamental_div_mod_converse(
        st.position(),
        d,
        st.group as int,
        r,
    );
    if st.group < st.group_count {
        assert(st.position() < st.group_count * d) by (nonlinear_arith)
            requires
                st.group < st.group_count,
                st.position() == st.group * d + r,
                0 <= r < d,
        ;
        let next = spec_schedule_step(st).0;
        if st.in_group && st.object >= st.objects_per_group {
            assert(next.position() == (st.group + 1) * d) by (nonlinear_arith)
                requires
                    next.position() == next.group * d,
                    next.group == st.group + 1,
            ;
            assert(st.group * d + d == (st.group + 1) * d) by (nonlinear_arith);
        }
    } else {
        assert(st.position() == st.group_count * d);
    }
}

/// The running number of object `object` of group `group`, counting from 0 over all
/// groups of `objects_per_group` objects; `None` where it would not fit in 64 bits.
pub fn object_index(group: u64, object: u64, objects_per_group: u64) -> (r: Option<u64>)
    ensures
        match r {
            Some(v) => v == group * objects_per_group + object,
            None => group * objects_per_group + object > u64::MAX,
        },
{
    match group.checked_mul(objects_per_group) {
        None => None,
        Some(p) => p.checked_add(object),
    }
}

/// `rand::random::<u64>()`: a draw from the thread-local generator. Nothing is stated
/// of the value: any `u64` may come back. (The generator panics when the operating
/// system cannot seed it, which no argument controls.)
#[verifier::external_body]
fn random_u64() -> u64 {
    rand::random::<u64>()
}

/// Keeps the low 62 bits of a random draw, which makes it a valid track alias.
pub fn track_alias_from_random(x: u64) -> (r: u64)
    ensures
        r == x % 0x4000_0000_0000_0000,
        r < varint_limit(),
{
    x % 0x4000_0000_0000_0000
}

/// A random track alias for when none is given: a random draw cut to 62 bits, so that
/// it always fits a variable-length integer.
pub fn default_track_alias() -> (r: u64)
    ensures
        r < varint_limit(),
{
    track_alias_from_random(random_u64())
}

} // verus!
