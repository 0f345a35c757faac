use master_control::wire::{
    detail_len, role_name, Hello, ACTIONS_REPEAT_TICKS, CLIENT_ABI_VERSION, CONTACTS_MAX, DEFAULT_PORT,
    EVENT_VOCALISATION, KEEPALIVE_DEAD_MILLIS, KEEPALIVE_PING_MILLIS, LNK_BAD_ARGUMENT, LNK_FRAME_REFUSED,
    LNK_GARBLED, LNK_HANDSHAKE_TIMED_OUT, LNK_IO, LNK_NOTHING_YET, LNK_OK, LNK_PANIC, LNK_PEER_CLOSED,
    LNK_REFUSED, MSG_BYE, MSG_HELLO, MSG_PROPRIOCEPTION, MSG_REZ, PROTOCOL_VERSION, REZ_MAX_MATERIALS,
    REZ_MAX_TRIANGLES, REZ_MAX_VERTICES, ROLE_CREATURE_HOST, ROLE_SPECTATOR, TICK_STATE_MAX_CREATURES,
};

/// The `#define` lines of the wire's `lnk_protocol.h` that this mirror follows.
const PROTOCOL_HEADER: &str = "\
#define LNK_PROTOCOL_VERSION 5u
#define LNK_DEFAULT_PORT 30702u
#define LNK_KEEPALIVE_PING_MILLIS 1000u
#define LNK_KEEPALIVE_DEAD_MILLIS 10000u
#define LNK_ACTIONS_REPEAT_TICKS 1u
#define LNK_TICK_STATE_MAX_CREATURES 256u
#define LNK_MSG_HELLO 1u
#define LNK_MSG_REZ 3u
#define LNK_MSG_PROPRIOCEPTION 11u
#define LNK_CONTACTS_MAX 16u
#define LNK_MSG_BYE 10u
#define LNK_REZ_MAX_VERTICES 1024u
#define LNK_REZ_MAX_TRIANGLES 2048u
#define LNK_REZ_MAX_MATERIALS 16u
#define LNK_ROLE_SPECTATOR 1u
#define LNK_ROLE_CREATURE_HOST 2u
#define LNK_EVENT_VOCALISATION 1u
";

/// The `#define` lines of the wire's `lnk_client.h` that this mirror follows.
const CLIENT_HEADER: &str = "\
#define LNK_CLIENT_ABI_VERSION 6u
#define LNK_OK 0
#define LNK_NOTHING_YET 1
#define LNK_REFUSED 2
#define LNK_HANDSHAKE_TIMED_OUT 3
#define LNK_PEER_CLOSED 4
#define LNK_FRAME_REFUSED 5
#define LNK_GARBLED 6
#define LNK_IO 7
#define LNK_BAD_ARGUMENT 8
#define LNK_PANIC 9
";

#[test]
fn the_mirrored_constants_are_the_headers() {
    for (name, value) in [
        ("LNK_PROTOCOL_VERSION", u64::from(PROTOCOL_VERSION)),
        ("LNK_DEFAULT_PORT", u64::from(DEFAULT_PORT)),
        ("LNK_KEEPALIVE_PING_MILLIS", KEEPALIVE_PING_MILLIS),
        ("LNK_KEEPALIVE_DEAD_MILLIS", KEEPALIVE_DEAD_MILLIS),
        ("LNK_ACTIONS_REPEAT_TICKS", u64::from(ACTIONS_REPEAT_TICKS)),
        ("LNK_TICK_STATE_MAX_CREATURES", u64::from(TICK_STATE_MAX_CREATURES)),
        ("LNK_MSG_HELLO", u64::from(MSG_HELLO)),
        ("LNK_MSG_REZ", u64::from(MSG_REZ)),
        ("LNK_MSG_PROPRIOCEPTION", u64::from(MSG_PROPRIOCEPTION)),
        ("LNK_CONTACTS_MAX", u64::from(CONTACTS_MAX)),
        ("LNK_MSG_BYE", u64::from(MSG_BYE)),
        ("LNK_REZ_MAX_VERTICES", u64::from(REZ_MAX_VERTICES)),
        ("LNK_REZ_MAX_TRIANGLES", u64::from(REZ_MAX_TRIANGLES)),
        ("LNK_REZ_MAX_MATERIALS", u64::from(REZ_MAX_MATERIALS)),
        ("LNK_ROLE_SPECTATOR", u64::from(ROLE_SPECTATOR)),
        ("LNK_ROLE_CREATURE_HOST", u64::from(ROLE_CREATURE_HOST)),
        ("LNK_EVENT_VOCALISATION", u64::from(EVENT_VOCALISATION)),
    ] {
        assert!(
            PROTOCOL_HEADER.contains(&format!("#define {name} {value}u\n")),
            "{name} drifted from lnk_protocol.h"
        );
    }
    assert!(
        CLIENT_HEADER.contains(&format!("#define LNK_CLIENT_ABI_VERSION {CLIENT_ABI_VERSION}u\n")),
        "LNK_CLIENT_ABI_VERSION drifted from lnk_client.h"
    );
}

#[test]
fn the_statuses_are_the_headers() {
    for (name, value) in [
        ("LNK_OK", LNK_OK),
        ("LNK_NOTHING_YET", LNK_NOTHING_YET),
        ("LNK_REFUSED", LNK_REFUSED),
        ("LNK_HANDSHAKE_TIMED_OUT", LNK_HANDSHAKE_TIMED_OUT),
        ("LNK_PEER_CLOSED", LNK_PEER_CLOSED),
        ("LNK_FRAME_REFUSED", LNK_FRAME_REFUSED),
        ("LNK_GARBLED", LNK_GARBLED),
        ("LNK_IO", LNK_IO),
        ("LNK_BAD_ARGUMENT", LNK_BAD_ARGUMENT),
        ("LNK_PANIC", LNK_PANIC),
    ] {
        assert!(
            CLIENT_HEADER.contains(&format!("#define {name} {value}\n")),
            "{name} drifted from lnk_client.h"
        );
    }
}

fn hello(role: u8) -> Hello {
    Hello { protocol_version: PROTOCOL_VERSION, fingerprint: [0; 32], role, reserved0: [0; 3], world_fingerprint: 0 }
}

#[test]
fn a_knock_is_named_by_its_role() {
    assert_eq!(role_name(&hello(ROLE_SPECTATOR)), "a spectator");
    assert_eq!(role_name(&hello(ROLE_CREATURE_HOST)), "a creature host");
    assert_eq!(role_name(&hello(9)), "an unknown role the wire should have refused");
}

#[test]
fn the_detail_is_the_text_before_its_first_nul() {
    let mut detail = [0u8; 256];
    assert_eq!(detail_len(&detail), 0);
    detail[..5].copy_from_slice(b"nope!");
    assert_eq!(detail_len(&detail), 5);
    let full = [b'x'; 256];
    assert_eq!(detail_len(&full), 256, "a buffer with no NUL is text to its end");
}
