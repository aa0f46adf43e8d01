use usartscreen::protocol::{
    handle_fine, handle_material, handle_rough, handle_scan, scan_display_text, ProtocolState,
    Reply, ScanResult, Stage, Task,
};

#[test]
fn task_parse_reads_digits() {
    let t = Task::parse(b"012123").unwrap();
    assert_eq!(t.pick_color, [0, 1, 2]);
    assert_eq!(t.pick_place, [1, 2, 3]);
    let t = Task::parse(b"555333+").unwrap();
    assert_eq!(t.pick_color, [5, 5, 5]);
    assert_eq!(t.pick_place, [3, 3, 3]);
}

#[test]
fn task_parse_rejects_out_of_range() {
    assert!(Task::parse(b"612123").is_none());
    assert!(Task::parse(b"01/123").is_none());
    assert!(Task::parse(b"012023").is_none());
    assert!(Task::parse(b"012124").is_none());
    assert!(Task::parse(b"x").is_none());
}

#[test]
fn scan_parse_reads_two_tasks() {
    let s = ScanResult::parse(b"012123+543321").unwrap();
    assert_eq!(s.firststep.pick_color, [0, 1, 2]);
    assert_eq!(s.firststep.pick_place, [1, 2, 3]);
    assert_eq!(s.secondstep.pick_color, [5, 4, 3]);
    assert_eq!(s.secondstep.pick_place, [3, 2, 1]);
}

#[test]
fn scan_parse_rejects_bad_codes() {
    assert!(ScanResult::parse(b"012345+543210").is_none());
    assert!(ScanResult::parse(b"012123-543321").is_none());
    assert!(ScanResult::parse(b"012123+54332").is_none());
    assert!(ScanResult::parse(b"012123+5433211").is_none());
    assert!(ScanResult::parse(b"012123+543301").is_none());
    assert!(ScanResult::parse(b"").is_none());
}

#[test]
fn handle_scan_moves_on_only_for_valid_code() {
    let (st, r) = handle_scan(b"012123+543321");
    assert!(st == Stage::Material);
    assert!(r.is_some());
    let (st, r) = handle_scan(b"bad");
    assert!(st == Stage::Scan);
    assert!(r.is_none());
}

#[test]
fn handle_material_sets_position() {
    let (mut x, mut y) = (0i16, 0i16);
    let (st, reply) = handle_material(&[5, 0x01, 0x02, 0xFF, 0xFE], &mut x, &mut y);
    assert!(st == Stage::Rough);
    assert!(reply == Reply::Send(b'N'));
    assert_eq!((x, y), (0x0102, -2));
    let (st, reply) = handle_material(&[6, 0, 0, 0, 0], &mut x, &mut y);
    assert!(st == Stage::Material);
    assert!(reply == Reply::Silent);
    assert_eq!((x, y), (0x0102, -2));
    let (st, _) = handle_material(&[1, 0, 0, 0], &mut x, &mut y);
    assert!(st == Stage::Material);
}

#[test]
fn handle_rough_sets_three_points() {
    let mut pts = [(9i16, 9i16); 3];
    let body = [0, 1, 0, 2, 0xFF, 0xFF, 0x80, 0x00, 0x7F, 0xFF, 0x12, 0x34];
    let (st, reply) = handle_rough(&body, &mut pts);
    assert!(st == Stage::Fine);
    assert!(reply == Reply::Send(b'C'));
    assert_eq!(pts, [(1, 2), (-1, -32768), (32767, 0x1234)]);
    let (st, reply) = handle_rough(&body[..11], &mut pts);
    assert!(st == Stage::Rough);
    assert!(reply == Reply::Silent);
}

#[test]
fn handle_fine_sets_point_and_stays() {
    let (mut fx, mut fy) = (0i16, 0i16);
    let (st, reply) = handle_fine(&[0, 10, 0xFF, 0xF6], &mut fx, &mut fy);
    assert!(st == Stage::Fine);
    assert!(reply == Reply::Send(b'X'));
    assert_eq!((fx, fy), (10, -10));
    let (st, reply) = handle_fine(&[1, 2, 3], &mut fx, &mut fy);
    assert!(st == Stage::Fine);
    assert!(reply == Reply::Silent);
    assert_eq!((fx, fy), (10, -10));
}

#[test]
fn protocol_runs_through_all_stages() {
    let mut p = ProtocolState::new();
    assert!(p.stage == Stage::Scan);
    assert!(p.on_frame(b"012345+543210") == Reply::Silent);
    assert!(p.stage == Stage::Scan);
    assert!(p.on_frame(b"012123+543321") == Reply::ScanDone);
    assert!(p.stage == Stage::Material);
    assert_eq!(p.scan_result.as_ref().unwrap().secondstep.pick_color, [5, 4, 3]);
    assert!(p.on_frame(&[9, 0, 0, 0, 0]) == Reply::Silent);
    assert!(p.stage == Stage::Material);
    assert!(p.on_frame(&[2, 0, 100, 0, 200]) == Reply::Send(b'N'));
    assert_eq!((p.x, p.y), (100, 200));
    assert!(p.stage == Stage::Rough);
    assert!(p.on_frame(&[0; 12]) == Reply::Send(b'C'));
    assert!(p.stage == Stage::Fine);
    assert!(p.on_frame(&[0, 1, 0, 2]) == Reply::Send(b'X'));
    assert_eq!((p.fx, p.fy), (1, 2));
    assert!(p.on_frame(&[0, 1, 0, 2]) == Reply::Send(b'X'));
    assert!(p.on_frame(&[0]) == Reply::Silent);
    assert!(p.stage == Stage::Fine);
}

#[test]
fn scan_display_text_shows_the_code() {
    assert_eq!(scan_display_text(b"012123+543321"), b"012123+543321");
    assert_eq!(scan_display_text(&[0xFF, 0x30]), b"invalid");
    assert_eq!(scan_display_text(b""), b"");
}
