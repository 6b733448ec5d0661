use std::time::Duration;

use macho_cache_service::client::daemon_arguments;
use macho_cache_service::client::startup_step;
use macho_cache_service::client::try_apply;
use macho_cache_service::client::StartupStep;
use macho_cache_service::client::STARTUP_RETRIES;
use macho_cache_service::client::try_apply_command_line;
use macho_cache_service::idle::configured_idle_timeout;
use macho_cache_service::idle::idle_timeout_from_seconds;
use macho_cache_service::idle::poll_outcome;
use macho_cache_service::idle::poll_timeout_millis;
use macho_cache_service::idle::PollOutcome;
use macho_cache_service::idle::DEFAULT_IDLE_TIMEOUT_SECONDS;
use macho_cache_service::idle::MAX_IDLE_TIMEOUT_SECONDS;
use macho_cache_service::response::applied_response;
use macho_cache_service::response::read_response;
use macho_cache_service::response::stamped_response;
use macho_cache_service::response::write_response;
use macho_cache_service::response::Response;
use macho_cache_service::response::RESPONSE_LEN;
use macho_cache_service::socket::listener_path;
use macho_cache_service::socket::service_directory;
use macho_cache_service::socket::socket_path;
use macho_cache_service::wire::frame_too_large;
use macho_cache_service::wire::read_request;
use macho_cache_service::wire::read_string;
use macho_cache_service::wire::read_u32;
use macho_cache_service::wire::request_magic_bytes;
use macho_cache_service::wire::write_request;
use macho_cache_service::wire::write_string;
use macho_cache_service::wire::write_u32;
use macho_cache_service::wire::FrameValue;
use macho_cache_service::wire::ProtocolError;
use macho_cache_service::wire::MAX_ARGUMENTS;
use macho_cache_service::wire::MAX_FRAME_BYTES;
use macho_cache_service::wire::REQUEST_MAGIC_LEN;

fn idle_timeout(seconds: Option<u64>) -> Duration {
    Duration::from_secs(idle_timeout_from_seconds(seconds))
}

#[test]
fn service_idle_timeout_is_explicit_and_bounded() {
    let default_idle_timeout = Duration::from_secs(DEFAULT_IDLE_TIMEOUT_SECONDS);
    assert_eq!(idle_timeout(None), default_idle_timeout);
    assert_eq!(idle_timeout(Some(0)), default_idle_timeout);
    assert_eq!(idle_timeout(Some(120)), Duration::from_secs(120));
    assert_eq!(
        idle_timeout(Some(MAX_IDLE_TIMEOUT_SECONDS + 1)),
        default_idle_timeout
    );
}

#[test]
fn idle_timeout_bounds_are_inclusive() {
    assert_eq!(idle_timeout_from_seconds(Some(1)), 1);
    assert_eq!(idle_timeout_from_seconds(Some(300)), 300);
    assert_eq!(idle_timeout_from_seconds(Some(u64::MAX)), 10);
    assert_eq!(DEFAULT_IDLE_TIMEOUT_SECONDS, 10);
    assert_eq!(MAX_IDLE_TIMEOUT_SECONDS, 300);
}

#[test]
fn configured_idle_timeout_reads_the_setting() {
    assert_eq!(configured_idle_timeout(Some("120")), 120);
    assert_eq!(configured_idle_timeout(Some("+45")), 45);
    assert_eq!(configured_idle_timeout(Some("abc")), 10);
    assert_eq!(configured_idle_timeout(Some(" 120")), 10);
    assert_eq!(configured_idle_timeout(Some("0")), 10);
    assert_eq!(configured_idle_timeout(Some("301")), 10);
    assert_eq!(configured_idle_timeout(Some("")), 10);
    assert_eq!(configured_idle_timeout(None), 10);
}

#[test]
fn poll_decisions() {
    assert_eq!(poll_timeout_millis(300), 300_000);
    assert_eq!(poll_timeout_millis(10), 10_000);
    assert_eq!(poll_outcome(1, false), PollOutcome::Ready);
    assert_eq!(poll_outcome(0, true), PollOutcome::Expired);
    assert_eq!(poll_outcome(-1, true), PollOutcome::Retry);
    assert_eq!(poll_outcome(-1, false), PollOutcome::Failed);
}

#[test]
fn u32_is_little_endian() {
    let mut out = vec![9u8];
    write_u32(&mut out, 0x0102_0304);
    assert_eq!(out, vec![9, 4, 3, 2, 1]);
    assert_eq!(read_u32(&out, 1), Ok((0x0102_0304, 5)));
    assert_eq!(read_u32(&out, 2), Err(ProtocolError::Truncated));
}

#[test]
fn strings_are_length_framed() {
    let mut out = Vec::new();
    assert_eq!(write_string(&mut out, "abc"), Ok(()));
    assert_eq!(out, vec![3, 0, 0, 0, b'a', b'b', b'c']);
    let (text, end) = read_string(&out, 0).unwrap();
    assert_eq!(text, "abc");
    assert_eq!(end, 7);

    let mut accented = Vec::new();
    assert_eq!(write_string(&mut accented, "é"), Ok(()));
    assert_eq!(accented, vec![2, 0, 0, 0, 0xc3, 0xa9]);
    assert_eq!(read_string(&accented, 0).unwrap().0, "é");
}

#[test]
fn oversized_string_is_refused_before_writing() {
    let large = "x".repeat(MAX_FRAME_BYTES + 1);
    let mut out = vec![1u8, 2];
    assert_eq!(
        write_string(&mut out, &large),
        Err(ProtocolError::FrameTooLarge(FrameValue::Length(16_777_217)))
    );
    assert_eq!(out, vec![1, 2]);

    let exact = "x".repeat(MAX_FRAME_BYTES);
    let mut framed = Vec::new();
    assert_eq!(write_string(&mut framed, &exact), Ok(()));
    assert_eq!(framed.len(), MAX_FRAME_BYTES + 4);
}

#[test]
fn read_string_errors() {
    assert_eq!(
        read_string(&[2, 0, 0, 0, 0xff, 0xfe], 0),
        Err(ProtocolError::NonUtf8)
    );
    assert_eq!(
        read_string(&[1, 0, 0, 1], 0),
        Err(ProtocolError::FrameTooLarge(FrameValue::Length(16_777_217)))
    );
    assert_eq!(read_string(&[3, 0, 0, 0, b'a'], 0), Err(ProtocolError::Truncated));
    assert_eq!(read_string(&[3, 0], 0), Err(ProtocolError::Truncated));
}

fn strings(values: &[&str]) -> Vec<String> {
    values.iter().map(|v| v.to_string()).collect()
}

#[test]
fn request_layout() {
    let mut out = Vec::new();
    write_request(&mut out, "/w", &strings(&["ld", "-o"])).unwrap();
    let mut expected = b"WILD-MACHO-CACHE-SERVICE-3\0".to_vec();
    expected.extend_from_slice(&[2, 0, 0, 0, b'/', b'w']);
    expected.extend_from_slice(&[2, 0, 0, 0]);
    expected.extend_from_slice(&[2, 0, 0, 0, b'l', b'd']);
    expected.extend_from_slice(&[2, 0, 0, 0, b'-', b'o']);
    assert_eq!(out, expected);
    assert_eq!(request_magic_bytes(), b"WILD-MACHO-CACHE-SERVICE-3\0".to_vec());
    assert_eq!(REQUEST_MAGIC_LEN, 27);
}

#[test]
fn request_roundtrip_with_trailing_bytes() {
    let arguments = strings(&["wild", "-incremental_cache", "/tmp/cache", "-o", "out"]);
    let mut out = Vec::new();
    write_request(&mut out, "/home/user/project", &arguments).unwrap();
    let length = out.len();
    out.extend_from_slice(&[7, 7, 7]);
    let (request, end) = read_request(&out).unwrap();
    assert_eq!(end, length);
    assert_eq!(request.current_dir, "/home/user/project");
    assert_eq!(request.command_line, arguments);
}

#[test]
fn empty_request_roundtrip() {
    let mut out = Vec::new();
    write_request(&mut out, "", &[]).unwrap();
    assert_eq!(out.len(), 27 + 4 + 4);
    let (request, end) = read_request(&out).unwrap();
    assert_eq!(end, 35);
    assert_eq!(request.current_dir, "");
    assert!(request.command_line.is_empty());
}

#[test]
fn every_strict_prefix_of_a_request_is_truncated() {
    let mut out = Vec::new();
    write_request(&mut out, "/dir", &strings(&["a", "", "bc"])).unwrap();
    for cut in 0..out.len() {
        assert!(
            matches!(read_request(&out[..cut]), Err(ProtocolError::Truncated)),
            "prefix of length {cut}"
        );
    }
    assert!(read_request(&out).is_ok());
}

#[test]
fn request_with_wrong_magic_is_refused() {
    let mut out = Vec::new();
    write_request(&mut out, "/d", &[]).unwrap();
    out[26] = b'4';
    assert!(matches!(read_request(&out), Err(ProtocolError::WrongMagic)));
    let mut older = b"WILD-MACHO-CACHE-SERVICE-2\0".to_vec();
    older.extend_from_slice(&[0; 8]);
    assert!(matches!(read_request(&older), Err(ProtocolError::WrongMagic)));
}

#[test]
fn request_with_too_many_arguments_is_refused() {
    let mut out = b"WILD-MACHO-CACHE-SERVICE-3\0".to_vec();
    write_string(&mut out, "/d").unwrap();
    write_u32(&mut out, (MAX_ARGUMENTS + 1) as u32);
    assert!(matches!(
        read_request(&out),
        Err(ProtocolError::FrameTooLarge(FrameValue::Length(100_001)))
    ));
}

#[test]
fn request_with_non_utf8_argument_is_refused() {
    let mut out = b"WILD-MACHO-CACHE-SERVICE-3\0".to_vec();
    write_string(&mut out, "/d").unwrap();
    write_u32(&mut out, 1);
    out.extend_from_slice(&[1, 0, 0, 0, 0x80]);
    assert!(matches!(read_request(&out), Err(ProtocolError::NonUtf8)));
}

#[test]
fn oversized_argument_stops_the_request() {
    let large = "y".repeat(MAX_FRAME_BYTES + 5);
    let arguments = vec!["ok".to_string(), large, "x".repeat(MAX_FRAME_BYTES + 9)];
    let mut out = Vec::new();
    assert_eq!(
        write_request(&mut out, "/d", &arguments),
        Err(ProtocolError::FrameTooLarge(FrameValue::Length(16_777_221)))
    );
    let mut out = Vec::new();
    assert_eq!(
        write_request(&mut out, &"z".repeat(MAX_FRAME_BYTES + 1), &[]),
        Err(ProtocolError::FrameTooLarge(FrameValue::Length(16_777_217)))
    );
}

#[test]
fn frame_too_large_names_the_value() {
    assert_eq!(
        frame_too_large(FrameValue::Length(7)),
        ProtocolError::FrameTooLarge(FrameValue::Length(7))
    );
    assert_eq!(
        frame_too_large(FrameValue::OutOfRange),
        ProtocolError::FrameTooLarge(FrameValue::OutOfRange)
    );
}

#[test]
fn miss_response() {
    let miss = Response::miss();
    assert!(!miss.hit);
    assert_eq!(miss.server_ns, 0);
    assert_eq!(miss.parse_ns, 0);
    assert_eq!(miss.apply_ns, 0);
}

#[test]
fn response_layout_and_roundtrip() {
    let response = Response {
        hit: true,
        server_ns: 0x0102,
        parse_ns: u128::MAX,
        apply_ns: 5,
    };
    let mut out = Vec::new();
    write_response(&mut out, &response);
    assert_eq!(out.len(), RESPONSE_LEN);
    assert_eq!(out[0], 1);
    assert_eq!(&out[1..3], &[2, 1]);
    assert!(out[3..17].iter().all(|b| *b == 0));
    assert!(out[17..33].iter().all(|b| *b == 0xff));
    assert_eq!(out[33], 5);
    out.push(42);
    assert_eq!(read_response(&out), Ok(response));

    let mut miss = Vec::new();
    write_response(&mut miss, &Response::miss());
    assert_eq!(miss, vec![0; 49]);
    assert_eq!(read_response(&miss), Ok(Response::miss()));
}

#[test]
fn response_hit_flag_is_exactly_one() {
    let mut bytes = vec![0u8; 49];
    bytes[0] = 2;
    assert!(!read_response(&bytes).unwrap().hit);
    bytes[0] = 1;
    assert!(read_response(&bytes).unwrap().hit);
    assert_eq!(read_response(&bytes[..48]), Err(ProtocolError::Truncated));
}

#[test]
fn applied_and_stamped_responses() {
    let applied = applied_response(true, 30, 100);
    assert_eq!(
        applied,
        Response { hit: true, server_ns: 0, parse_ns: 30, apply_ns: 70 }
    );
    assert_eq!(
        stamped_response(Some(applied), 250),
        Response { hit: true, server_ns: 250, parse_ns: 30, apply_ns: 70 }
    );
    assert_eq!(
        stamped_response(None, 9),
        Response { hit: false, server_ns: 9, parse_ns: 0, apply_ns: 0 }
    );
}

#[test]
fn socket_is_named_after_the_cache_root_digest() {
    assert_eq!(
        socket_path(b"/tmp/cache", b"/tmp/services"),
        Some(b"/tmp/services/macho-e418a99c7e5b11d0.sock".to_vec())
    );
    assert_eq!(
        socket_path(b"/Users/me/project/target/stable-layout-cache", b"/tmp/s/"),
        Some(b"/tmp/s/macho-549e86207fddb07f.sock".to_vec())
    );
    assert_ne!(
        socket_path(b"/tmp/cache", b"/tmp/services"),
        socket_path(b"/tmp/cache2", b"/tmp/services")
    );
}

#[test]
fn socket_path_respects_the_limit() {
    // 72 + 1 + 27 = 100 bytes: one too many.
    let directory = vec![b'd'; 72];
    assert_eq!(socket_path(b"/tmp/cache", &directory), None);
    let directory = vec![b'd'; 71];
    let path = socket_path(b"/tmp/cache", &directory).unwrap();
    assert_eq!(path.len(), 99);
}

#[test]
fn service_directory_prefers_the_configured_one() {
    assert_eq!(service_directory(b"/c", Some(b"/s".to_vec())), b"/s".to_vec());
    assert_eq!(service_directory(b"/c", None), b"/c".to_vec());
    assert_eq!(listener_path(b"/tmp/x.sock"), b"/tmp/x.sock");
}

#[test]
fn command_line_cache_dir() {
    let command_line = strings(&["ld", "-incremental_cache", "/tmp/c", "-o", "x"]);
    assert_eq!(try_apply_command_line(&command_line), Some("/tmp/c".to_string()));
    let twice = strings(&["-incremental_cache", "/a", "-incremental_cache", "/b"]);
    assert_eq!(try_apply_command_line(&twice), Some("/a".to_string()));
    let dangling = strings(&["ld", "-incremental_cache"]);
    assert_eq!(try_apply_command_line(&dangling), None);
    assert_eq!(try_apply_command_line(&strings(&["ld", "-o", "x"])), None);
    assert_eq!(try_apply_command_line(&[]), None);
    let value_is_flag = strings(&["-incremental_cache", "-incremental_cache"]);
    assert_eq!(
        try_apply_command_line(&value_is_flag),
        Some("-incremental_cache".to_string())
    );
}

#[test]
fn parsed_arguments_cache_dir() {
    assert_eq!(try_apply(Some(b"/tmp/c")), Some(b"/tmp/c".to_vec()));
    assert_eq!(try_apply(None), None);
}

#[test]
fn configured_idle_timeout_follows_the_u64_grammar() {
    assert_eq!(configured_idle_timeout(Some("0300")), 300);
    assert_eq!(configured_idle_timeout(Some("+")), 10);
    assert_eq!(configured_idle_timeout(Some("++5")), 10);
    assert_eq!(configured_idle_timeout(Some("-5")), 10);
    assert_eq!(configured_idle_timeout(Some("1_0")), 10);
    assert_eq!(configured_idle_timeout(Some("12a")), 10);
    assert_eq!(configured_idle_timeout(Some("\u{0661}\u{0662}")), 10);
    assert_eq!(configured_idle_timeout(Some("18446744073709551615")), 10);
    assert_eq!(configured_idle_timeout(Some("18446744073709551616")), 10);
    assert_eq!(configured_idle_timeout(Some("99999999999999999999999")), 10);
    for text in ["0300", "+", "++5", "-5", "1_0", "18446744073709551616", "250", "+7"] {
        let expected = text.parse::<u64>().ok();
        assert_eq!(
            configured_idle_timeout(Some(text)),
            idle_timeout_from_seconds(expected),
            "{text}"
        );
    }
}

#[test]
fn failed_request_keeps_the_frames_before_the_oversized_field() {
    let arguments = vec!["ok".to_string(), "y".repeat(MAX_FRAME_BYTES + 1), "z".to_string()];
    let mut out = vec![5u8];
    assert_eq!(
        write_request(&mut out, "/d", &arguments),
        Err(ProtocolError::FrameTooLarge(FrameValue::Length(16_777_217)))
    );
    let mut expected = vec![5u8];
    expected.extend_from_slice(b"WILD-MACHO-CACHE-SERVICE-3\0");
    expected.extend_from_slice(&[2, 0, 0, 0, b'/', b'd']);
    expected.extend_from_slice(&[3, 0, 0, 0]);
    expected.extend_from_slice(&[2, 0, 0, 0, b'o', b'k']);
    assert_eq!(out, expected);

    let mut out = Vec::new();
    assert!(write_request(&mut out, &"w".repeat(MAX_FRAME_BYTES + 1), &[]).is_err());
    assert_eq!(out, b"WILD-MACHO-CACHE-SERVICE-3\0".to_vec());
}

#[test]
fn socket_in_an_empty_directory_is_the_bare_name() {
    assert_eq!(
        socket_path(b"/tmp/cache", b""),
        Some(b"macho-e418a99c7e5b11d0.sock".to_vec())
    );
}

#[test]
fn startup_retries_then_gives_up() {
    assert_eq!(STARTUP_RETRIES, 100);
    assert_eq!(startup_step(0), StartupStep::Connect);
    assert_eq!(startup_step(99), StartupStep::Connect);
    assert_eq!(startup_step(100), StartupStep::GiveUp);
    let mut attempts = 0;
    while startup_step(attempts) == StartupStep::Connect {
        attempts += 1;
    }
    assert_eq!(attempts, 100);
}

#[test]
fn daemon_is_started_with_the_service_flag() {
    assert_eq!(
        daemon_arguments(b"/tmp/cache"),
        vec![b"--wild-macho-cache-service".to_vec(), b"/tmp/cache".to_vec()]
    );
}

#[test]
fn socket_path_hashes_raw_path_bytes() {
    let raw = [b'/', b't', 0xff, 0xfe];
    let path = socket_path(&raw, &[b'/', 0xc0, b'/']).unwrap();
    assert!(path.starts_with(&[b'/', 0xc0, b'/', b'm', b'a', b'c', b'h', b'o', b'-']));
    assert!(path.ends_with(b".sock"));
    assert_eq!(path.len(), 3 + 27);
}
