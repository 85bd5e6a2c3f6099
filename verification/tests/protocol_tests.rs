use kh940::disk::Disk;
use kh940::fdcemu::{FdcEngine, StepOutput};
use kh940::KhError;

fn feed(engine: &mut FdcEngine, bytes: &[u8]) -> (Vec<u8>, bool) {
    let mut reply = Vec::new();
    let mut done = false;
    for b in bytes {
        let StepOutput { reply: r, transaction_done } =
            engine.push_byte(*b).expect("engine failed");
        reply.extend(r);
        done = transaction_done;
    }
    (reply, done)
}

fn fdc_engine() -> FdcEngine {
    let mut engine = FdcEngine::new(Disk::new());
    let (reply, done) = feed(&mut engine, &[0x5a, 0x5a, 0x08, 0x00, 0x08]);
    assert!(reply.is_empty());
    assert!(done);
    engine
}

#[test]
fn mode_switch_emits_no_reply() {
    let mut engine = FdcEngine::new(Disk::new());
    let (reply, done) = feed(&mut engine, &[0x5a, 0x5a, 0x08, 0x00, 0x08]);
    assert!(reply.is_empty());
    assert!(done);
}

#[test]
fn mode_switch_skips_zero_idle_bytes() {
    let mut engine = FdcEngine::new(Disk::new());
    let (reply, done) = feed(&mut engine, &[0x00, 0x00, 0x5a, 0x00, 0x5a, 0x08, 0x00, 0x08]);
    assert!(reply.is_empty());
    assert!(done);
}

#[test]
fn read_sector_5_identifier() {
    let mut engine = fdc_engine();
    let (reply, done) = feed(&mut engine, &[0x41, 0x20, 0x35, 0x0d]);
    assert_eq!(reply, b"00050000".to_vec());
    assert!(!done);
    let (id, done) = feed(&mut engine, &[0x0d]);
    assert_eq!(id, vec![0u8; 12]);
    assert!(done);
}

#[test]
fn write_sector_3() {
    let mut engine = fdc_engine();
    let (reply, done) = feed(&mut engine, &[0x57, 0x20, 0x33, 0x0d]);
    assert_eq!(reply, b"00030000".to_vec());
    assert!(!done);
    let payload: Vec<u8> = (0..1024u32).map(|i| (i % 251) as u8).collect();
    let (reply, done) = feed(&mut engine, &payload);
    assert_eq!(reply, b"00030000".to_vec());
    assert!(done);
    assert_eq!(engine.disk.sectors[3].data, payload);
    let flat = engine.disk.flatten_data();
    assert_eq!(&flat[3 * 1024..4 * 1024], payload.as_slice());
}

#[test]
fn search_hit() {
    let mut engine = fdc_engine();
    let target: Vec<u8> = (1..=12u8).collect();
    // Store the identifier in sector 7 over the wire first.
    let (reply, _) = feed(&mut engine, &[0x42, 0x20, 0x37, 0x0d]);
    assert_eq!(reply, b"00070000".to_vec());
    let (reply, done) = feed(&mut engine, &target);
    assert_eq!(reply, b"00070000".to_vec());
    assert!(done);
    // Search for it.
    let (reply, done) = feed(&mut engine, &[0x53, 0x0d]);
    assert_eq!(reply, b"00000000".to_vec());
    assert!(!done);
    let (reply, done) = feed(&mut engine, &target);
    assert_eq!(reply, b"00070000".to_vec());
    assert!(done);
}

#[test]
fn search_miss() {
    let mut engine = fdc_engine();
    let target: Vec<u8> = (1..=12u8).collect();
    let (reply, _) = feed(&mut engine, &[0x53, 0x0d]);
    assert_eq!(reply, b"00000000".to_vec());
    let (reply, done) = feed(&mut engine, &target);
    assert_eq!(reply, b"40000000".to_vec());
    assert!(done);
}

#[test]
fn search_prefers_lowest_sector() {
    let mut engine = fdc_engine();
    let target: Vec<u8> = vec![9; 12];
    for psn in [b'5', b'2'] {
        let (_, _) = feed(&mut engine, &[0x42, 0x20, psn, 0x0d]);
        let (_, done) = feed(&mut engine, &target);
        assert!(done);
    }
    let (_, _) = feed(&mut engine, &[0x53, 0x0d]);
    let (reply, _) = feed(&mut engine, &target);
    assert_eq!(reply, b"00020000".to_vec());
}

#[test]
fn back_to_op_restores_fdc_mode() {
    let mut engine = fdc_engine();
    let (reply, done) = feed(&mut engine, &[0x5a, 0x5a, 0x08, 0x00, 0x08]);
    assert!(reply.is_empty());
    assert!(done);
    // Still in FDC mode: a no-op carriage return is accepted.
    let (reply, done) = feed(&mut engine, &[0x0d]);
    assert!(reply.is_empty());
    assert!(done);
}

#[test]
fn op_mode_request_with_data_bytes() {
    let mut engine = FdcEngine::new(Disk::new());
    let (reply, done) = feed(&mut engine, &[0x5a, 0x5a, 0x08, 0x03, 0x11, 0x22, 0x33, 0x08]);
    assert!(reply.is_empty());
    assert!(done);
}

#[test]
fn read_sector_returns_data() {
    let mut engine = fdc_engine();
    let payload: Vec<u8> = (0..1024u32).map(|i| (i % 13) as u8).collect();
    let (_, _) = feed(&mut engine, &[0x58, 0x31, 0x30, 0x0d]);
    let (_, done) = feed(&mut engine, &payload);
    assert!(done);
    let (reply, done) = feed(&mut engine, &[0x52, 0x31, 0x30, 0x0d]);
    assert_eq!(reply, b"000A0000".to_vec());
    assert!(!done);
    let (body, done) = feed(&mut engine, &[0x0d]);
    assert_eq!(body, payload);
    assert!(done);
}

#[test]
fn default_sector_number_is_zero() {
    let mut engine = fdc_engine();
    let (reply, _) = feed(&mut engine, &[0x41, 0x0d]);
    assert_eq!(reply, b"00000000".to_vec());
}

#[test]
fn lsn_argument_is_parsed_and_ignored() {
    let mut engine = fdc_engine();
    let (reply, _) = feed(&mut engine, &[0x41, 0x20, 0x35, 0x2c, 0x32, 0x0d]);
    assert_eq!(reply, b"00050000".to_vec());
}

#[test]
fn bad_preamble_is_fatal() {
    let mut engine = FdcEngine::new(Disk::new());
    assert!(engine.push_byte(0x5a).is_ok());
    assert!(matches!(engine.push_byte(0x41), Err(KhError::ProtocolViolation)));
}

#[test]
fn unknown_op_command_is_fatal() {
    let mut engine = FdcEngine::new(Disk::new());
    let (_, _) = feed(&mut engine, &[0x5a, 0x5a, 0x07, 0x00]);
    assert!(matches!(engine.push_byte(0x00), Err(KhError::ProtocolViolation)));
}

#[test]
fn unknown_fdc_command_is_fatal() {
    let mut engine = fdc_engine();
    assert!(matches!(engine.push_byte(0x51), Err(KhError::ProtocolViolation)));
}

#[test]
fn out_of_range_sector_is_fatal() {
    let mut engine = fdc_engine();
    assert!(engine.push_byte(0x41).is_ok());
    assert!(engine.push_byte(0x38).is_ok());
    assert!(engine.push_byte(0x30).is_ok());
    assert!(matches!(engine.push_byte(0x0d), Err(KhError::ProtocolViolation)));
}

#[test]
fn search_with_arguments_is_fatal() {
    let mut engine = fdc_engine();
    assert!(engine.push_byte(0x53).is_ok());
    assert!(engine.push_byte(0x35).is_ok());
    assert!(matches!(engine.push_byte(0x0d), Err(KhError::ProtocolViolation)));
}

#[test]
fn non_numeric_argument_is_fatal() {
    let mut engine = fdc_engine();
    assert!(engine.push_byte(0x41).is_ok());
    assert!(engine.push_byte(0x78).is_ok());
    assert!(matches!(engine.push_byte(0x0d), Err(KhError::ProtocolViolation)));
}

#[test]
fn failed_engine_stays_failed() {
    let mut engine = fdc_engine();
    assert!(engine.push_byte(0x51).is_err());
    assert!(matches!(engine.push_byte(0x0d), Err(KhError::ProtocolViolation)));
}
