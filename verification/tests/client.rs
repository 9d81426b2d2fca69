use moqtail::args::{chunk_file_name, parse_extra_track, parse_u8};
use moqtail::payload::generate_payload;
use moqtail::publisher::{
    default_track_alias, namespace_reply_outcome, object_index, publish_reply_outcome,
    split_track_spec, track_alias_from_random, ControlEvent, ControlReply, DataConfig,
    DeliveryMode, NamespaceAction, NamespaceServer, ObjectSchedule, PublishNamespaceConfig,
    ReplyOutcome, SendEvent,
};

#[test]
fn payload_is_reproducible() {
    assert_eq!(generate_payload(8), vec![77, 59, 195, 36, 76, 132, 87, 45]);
    assert_eq!(generate_payload(0), Vec::<u8>::new());
    assert_eq!(generate_payload(3), generate_payload(8)[..3].to_vec());
}

#[test]
fn track_spec_splits_at_first_equals() {
    assert_eq!(
        split_track_spec("cam=/data/a=b"),
        Some((b"cam".to_vec(), b"/data/a=b".to_vec()))
    );
    assert_eq!(split_track_spec("=x"), Some((vec![], b"x".to_vec())));
    assert_eq!(split_track_spec("noequals"), None);
}

#[test]
fn extra_track_splits_at_last_colon() {
    assert_eq!(parse_extra_track("a:b:7"), Some((b"a:b".to_vec(), 7)));
    assert_eq!(parse_extra_track("video:+255"), Some((b"video".to_vec(), 255)));
    assert_eq!(parse_extra_track("video:256"), None);
    assert_eq!(parse_extra_track("video"), None);
    assert_eq!(parse_extra_track("video:"), None);
}

#[test]
fn u8_parsing_matches_std() {
    for s in ["0", "007", "+9", "255", "256", "", "+", "-1", "1a", "99999999999999999999"] {
        assert_eq!(parse_u8(s.as_bytes()), s.parse::<u8>().ok(), "{}", s);
    }
}

#[test]
fn chunk_names_are_zero_padded() {
    assert_eq!(chunk_file_name(7), b"out007.mp4".to_vec());
    assert_eq!(chunk_file_name(0), b"out000.mp4".to_vec());
    assert_eq!(chunk_file_name(42), b"out042.mp4".to_vec());
    assert_eq!(chunk_file_name(1234), format!("out{:03}.mp4", 1234).into_bytes());
    assert_eq!(chunk_file_name(u64::MAX), format!("out{:03}.mp4", u64::MAX).into_bytes());
}

#[test]
fn namespace_server_hands_out_consecutive_aliases() {
    let mut s = NamespaceServer::new();
    assert_eq!(
        s.on_event(ControlEvent::Subscribe { request_id: 10 }),
        NamespaceAction::Accept { request_id: 10, track_alias: 1 }
    );
    assert_eq!(s.on_event(ControlEvent::Unsubscribe), NamespaceAction::Ignore);
    assert_eq!(s.on_event(ControlEvent::Other), NamespaceAction::Ignore);
    assert_eq!(
        s.on_event(ControlEvent::Subscribe { request_id: 4 }),
        NamespaceAction::Accept { request_id: 4, track_alias: 2 }
    );
    assert_eq!(s.on_event(ControlEvent::Closed), NamespaceAction::Stop);
    assert_eq!(s.next_track_alias, 3);
}

#[test]
fn schedule_visits_groups_in_order() {
    let mut s = ObjectSchedule::new(2, 2);
    let mut evs = Vec::new();
    loop {
        let e = s.next_event();
        evs.push(e);
        if e == SendEvent::Done {
            break;
        }
    }
    assert_eq!(
        evs,
        vec![
            SendEvent::StartGroup { group: 0 },
            SendEvent::Object { group: 0, object: 0, previous: None },
            SendEvent::Object { group: 0, object: 1, previous: Some(0) },
            SendEvent::EndGroup { group: 0 },
            SendEvent::StartGroup { group: 1 },
            SendEvent::Object { group: 1, object: 0, previous: None },
            SendEvent::Object { group: 1, object: 1, previous: Some(0) },
            SendEvent::EndGroup { group: 1 },
            SendEvent::Done,
        ]
    );
    let mut empty = ObjectSchedule::new(1, 0);
    assert_eq!(empty.next_event(), SendEvent::StartGroup { group: 0 });
    assert_eq!(empty.next_event(), SendEvent::EndGroup { group: 0 });
    assert_eq!(empty.next_event(), SendEvent::Done);
}

#[test]
fn object_index_counts_across_groups() {
    assert_eq!(object_index(2, 3, 10), Some(23));
    assert_eq!(object_index(u64::MAX, 1, 2), None);
    assert_eq!(object_index(1, u64::MAX, 1), None);
}

#[test]
fn track_alias_fits_62_bits() {
    assert_eq!(track_alias_from_random(u64::MAX), (1u64 << 62) - 1);
    assert_eq!(track_alias_from_random(5), 5);
    assert!(default_track_alias() < (1u64 << 62));
}

#[test]
fn replies_are_judged() {
    assert_eq!(namespace_reply_outcome(0, ControlReply::RequestOk { request_id: 0 }), ReplyOutcome::Accepted);
    assert_eq!(
        namespace_reply_outcome(0, ControlReply::RequestOk { request_id: 2 }),
        ReplyOutcome::WrongRequest { expected: 0, got: 2 }
    );
    assert_eq!(namespace_reply_outcome(0, ControlReply::PublishOk { request_id: 0 }), ReplyOutcome::Unexpected);
    assert_eq!(namespace_reply_outcome(0, ControlReply::Failed), ReplyOutcome::Failed);
    assert_eq!(publish_reply_outcome(ControlReply::PublishOk { request_id: 9 }), ReplyOutcome::Accepted);
    assert_eq!(publish_reply_outcome(ControlReply::Other), ReplyOutcome::Unexpected);
}

#[test]
fn data_config_copies_settings() {
    let c = PublishNamespaceConfig {
        namespace: "ns".to_string(),
        delivery_mode: DeliveryMode::Subgroup,
        group_count: 3,
        interval: 40,
        objects_per_group: 5,
        payload_size: 100,
        publisher_priority: 7,
    };
    assert_eq!(
        c.data_config(),
        DataConfig {
            delivery_mode: DeliveryMode::Subgroup,
            group_count: 3,
            interval: 40,
            objects_per_group: 5,
            payload_size: 100,
            publisher_priority: 7,
        }
    );
}
