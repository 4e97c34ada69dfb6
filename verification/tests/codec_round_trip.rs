use session_registry::codec::{decode_sessions, encode_sessions};
use session_registry::model::{check_wf, Player, Pop, Session};

fn sample(region: &str, latency: u32) -> Pop {
    Pop {
        name: region.to_string(),
        ping: latency,
    }
}

fn rich_list() -> Vec<Session> {
    vec![
        Session {
            id: 1,
            pop: "LAX".to_string(),
            players: vec![
                Player {
                    name: "ålice ✓".to_string(),
                    id: 7,
                    index: 0,
                    last_heartbeat: 123_456_789,
                    pops: vec![sample("A", 10), sample("B", 20)],
                },
                Player {
                    name: String::new(),
                    id: 8,
                    index: 3,
                    last_heartbeat: 0,
                    pops: Vec::new(),
                },
            ],
        },
        Session {
            id: 2,
            pop: String::new(),
            players: vec![Player {
                name: "bob".to_string(),
                id: u32::MAX - 1,
                index: 2,
                last_heartbeat: u64::MAX,
                pops: vec![sample("日本", u32::MAX)],
            }],
        },
    ]
}

#[test]
fn round_trip_preserves_every_field() {
    let list = rich_list();
    let blob = encode_sessions(&list);
    let back = decode_sessions(&blob).expect("decoding an encoded list");
    assert_eq!(back, list);
}

#[test]
fn round_trip_of_the_empty_list() {
    let list: Vec<Session> = Vec::new();
    let blob = encode_sessions(&list);
    assert_eq!(decode_sessions(&blob), Some(Vec::new()));
}

#[test]
fn garbage_is_rejected() {
    assert_eq!(decode_sessions(&vec![]), None);
    assert_eq!(decode_sessions(&vec![0xffu8; 5]), None);
    assert_eq!(decode_sessions(&vec![0x41u8; 64]), None);
}

#[test]
fn a_truncated_blob_is_rejected() {
    let blob = encode_sessions(&rich_list());
    let truncated: Vec<u8> = blob[..blob.len() - 1].to_vec();
    assert_eq!(decode_sessions(&truncated), None);
}

#[test]
fn trailing_bytes_are_rejected() {
    let mut blob = encode_sessions(&rich_list());
    blob.push(0);
    assert_eq!(decode_sessions(&blob), None);
}

#[test]
fn a_malformed_list_is_rejected() {
    // A slot outside [0,3] encodes fine but decodes to nothing.
    let bad = vec![Session {
        id: 1,
        pop: "LAX".to_string(),
        players: vec![Player {
            name: "p".to_string(),
            id: 1,
            index: 9,
            last_heartbeat: 0,
            pops: Vec::new(),
        }],
    }];
    assert!(!check_wf(&bad));
    let blob = encode_sessions(&bad);
    assert_eq!(decode_sessions(&blob), None);
}

#[test]
fn duplicate_session_ids_are_rejected() {
    let bad = vec![
        Session {
            id: 5,
            pop: "LAX".to_string(),
            players: vec![Player {
                name: "p".to_string(),
                id: 1,
                index: 0,
                last_heartbeat: 0,
                pops: Vec::new(),
            }],
        },
        Session {
            id: 5,
            pop: "SYD".to_string(),
            players: vec![Player {
                name: "q".to_string(),
                id: 2,
                index: 0,
                last_heartbeat: 0,
                pops: Vec::new(),
            }],
        },
    ];
    assert!(!check_wf(&bad));
    assert_eq!(decode_sessions(&encode_sessions(&bad)), None);
}

#[test]
fn check_wf_accepts_a_sound_list() {
    assert!(check_wf(&rich_list()));
}

#[test]
fn strings_are_really_decoded_from_their_bytes() {
    // The non-ASCII name survives the byte round trip character for
    // character; a decoder that handed UTF-8 bytes through unchanged
    // could not reproduce it.
    let list = rich_list();
    let back = decode_sessions(&encode_sessions(&list)).unwrap();
    assert_eq!(back[0].players[0].name, "ålice ✓");
    assert_eq!(back[1].players[0].pops[0].name, "日本");
}
