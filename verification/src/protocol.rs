//! The protocol's four stages: scan a code, receive a material, rough positioning,
//! fine positioning. Each frame body is handled by the function of the current
//! stage, which says the next stage and the reply to send back.

use vstd::prelude::*;
use vstd::string::StringSliceAdditionalSpecFns;
use vstd::utf8::valid_utf8;
use crate::frame::{u8_to_i16, i16_value};
use crate::text::{str_from_utf8, lemma_ascii_valid_utf8};

verus! {

/// The ASCII code of the digit 0.
pub const ZERO: u8 = 48;

/// The ASCII code of `+`, between the two tasks of a scanned code.
pub const PLUS_SIGN: u8 = 43;

/// Length of a scanned code: two tasks of six digits and a `+`.
pub const SCAN_LEN: usize = 13;

/// A pick task: three colours (0 to 5) and three places (1 to 3).
pub struct Task {
    pub pick_color: [u8; 3],
    pub pick_place: [u8; 3],
}

/// The two tasks of a scanned code.
pub struct ScanResult {
    pub firststep: Task,
    pub secondstep: Task,
}

/// Whether byte `b` is allowed at position `i` of a task: a colour digit `0`..`5`
/// in the first three positions, a place digit `1`..`3` in the next three.
pub open spec fn task_byte_ok(i: int, b: u8) -> bool {
    if i < 3 {
        48 <= b <= 53
    } else {
        49 <= b <= 51
    }
}

/// The first six bytes of `d` are a valid task.
pub open spec fn task_valid(d: Seq<u8>) -> bool {
    &&& d.len() >= 6
    &&& forall|i: int| 0 <= i < 6 ==> task_byte_ok(i, #[trigger] d[i])
}

/// Every byte of `d` among the first six is allowed where it stands.
pub open spec fn task_prefix_ok(d: Seq<u8>) -> bool {
    forall|i: int| 0 <= i < d.len() && i < 6 ==> task_byte_ok(i, #[trigger] d[i])
}

/// `t` is the task written in the first six bytes of `d`: each digit's value.
pub open spec fn task_of(t: Task, d: Seq<u8>) -> bool {
    &&& t.pick_color@ == seq![(d[0] - ZERO) as u8, (d[1] - ZERO) as u8, (d[2] - ZERO) as u8]
    &&& t.pick_place@ == seq![(d[3] - ZERO) as u8, (d[4] - ZERO) as u8, (d[5] - ZERO) as u8]
}

/// A scanned code: thirteen bytes, a task, `+`, a task.
pub open spec fn scan_valid(body: Seq<u8>) -> bool {
    &&& body.len() == SCAN_LEN
    &&& body[6] == PLUS_SIGN
    &&& task_valid(body.subrange(0, 6))
    &&& task_valid(body.subrange(7, 13))
}

/// `r` holds the two tasks written in the scanned code `body`.
pub open spec fn scan_of(r: Option<ScanResult>, body: Seq<u8>) -> bool {
    match r {
        Some(s) => task_of(s.firststep, body.subrange(0, 6)) && task_of(
            s.secondstep,
            body.subrange(7, 13),
        ),
        None => false,
    }
}

impl Task {
    /// Reads a task from the first six bytes of `data`; `None` when a byte is out
    /// of range.
    pub fn parse(data: &[u8]) -> (r: Option<Task>)
        requires
            data@.len() >= 6 || !task_prefix_ok(data@),
        ensures
            r is Some <==> task_valid(data@),
            r matches Some(t) ==> task_of(t, data@),
    {
        let mut i: usize = 0;
        while i < 3
            invariant
                0 <= i <= 3,
                data@.len() >= 6 || !task_prefix_ok(data@),
                forall|k: int| 0 <= k < i ==> task_byte_ok(k, #[trigger] data@[k]),
            decreases 3 - i,
        {
            if data[i] < 48 || data[i] > 53 {
                return None;
            }
            i += 1;
        }
        let mut i: usize = 3;
        while i < 6
            invariant
                3 <= i <= 6,
                data@.len() >= 6 || !task_prefix_ok(data@),
                forall|k: int| 0 <= k < i ==> task_byte_ok(k, #[trigger] data@[k]),
            decreases 6 - i,
        {
            if data[i] < 49 || data[i] > 51 {
                return None;
            }
            i += 1;
        }
        let t = Task {
            pick_color: [data[0] - ZERO, data[1] - ZERO, data[2] - ZERO],
            pick_place: [data[3] - ZERO, data[4] - ZERO, data[5] - ZERO],
        };
        assert(t.pick_color@ =~= seq![
            (data@[0] - ZERO) as u8,
            (data@[1] - ZERO) as u8,
            (data@[2] - ZERO) as u8,
        ]);
        assert(t.pick_place@ =~= seq![
            (data@[3] - ZERO) as u8,
            (data@[4] - ZERO) as u8,
            (data@[5] - ZERO) as u8,
        ]);
        Some(t)
    }
}

impl ScanResult {
    /// Reads a scanned code: thirteen bytes, a task, `+`, a task; `None` otherwise.
    pub fn parse(body: &[u8]) -> (r: Option<ScanResult>)
        ensures
            r is Some <==> scan_valid(body@),
            r matches Some(s) ==> task_of(s.firststep, body@.subrange(0, 6)) && task_of(
                s.secondstep,
                body@.subrange(7, 13),
            ),
    {
        if body.len() != SCAN_LEN || body[6] != PLUS_SIGN {
            return None;
        }
        let firststep = match Task::parse(vstd::slice::slice_subrange(body, 0, 6)) {
            Some(t) => t,
            None => {
                return None;
            },
        };
        let secondstep = match Task::parse(vstd::slice::slice_subrange(body, 7, 13)) {
            Some(t) => t,
            None => {
                return None;
            },
        };
        Some(ScanResult { firststep, secondstep })
    }
}

/// The stage the protocol is in.
#[derive(Clone, Copy, PartialEq, Eq, Structural)]
pub enum Stage {
    /// Waiting for a scanned code.
    Scan,
    /// Waiting for a material: colour and position.
    Material,
    /// Waiting for three points.
    Rough,
    /// Waiting for one point; the last stage.
    Fine,
}

/// The position of a stage in the protocol's order.
pub open spec fn stage_rank(s: Stage) -> int {
    match s {
        Stage::Scan => 0,
        Stage::Material => 1,
        Stage::Rough => 2,
        Stage::Fine => 3,
    }
}

/// What to send back after a frame.
#[derive(Clone, Copy, PartialEq, Eq, Structural)]
pub enum Reply {
    /// Nothing.
    Silent,
    /// A code was scanned: show it on the screen, send `S`, wait a second, send `M`.
    ScanDone,
    /// Send this byte.
    Send(u8),
}

/// The byte sent back when a material is received.
pub const MATERIAL_ACK: u8 = 78;

/// The byte sent back when the rough points are received.
pub const ROUGH_ACK: u8 = 67;

/// The byte sent back when the fine point is received.
pub const FINE_ACK: u8 = 88;

/// Scan stage: a valid code moves on to the material stage with the tasks read;
/// anything else stays.
pub fn handle_scan(body: &[u8]) -> (r: (Stage, Option<ScanResult>))
    ensures
        scan_valid(body@) ==> {
            &&& r.0 == Stage::Material
            &&& scan_of(r.1, body@)
        },
        !scan_valid(body@) ==> r.0 == Stage::Scan && r.1 is None,
{
    match ScanResult::parse(body) {
        Some(scan_result) => (Stage::Material, Some(scan_result)),
        None => (Stage::Scan, None),
    }
}

/// The bytes of the text `invalid`.
pub open spec fn invalid_text() -> Seq<u8> {
    seq![105u8, 110u8, 118u8, 97u8, 108u8, 105u8, 100u8]
}

/// The text shown on the screen for a scanned code: the code itself when it is
/// valid UTF-8, which a valid code always is, and `invalid` otherwise.
pub fn scan_display_text<'a>(body: &'a [u8]) -> (r: &'a [u8])
    ensures
        valid_utf8(body@) ==> r@ == body@,
        !valid_utf8(body@) ==> r@ == invalid_text(),
        scan_valid(body@) ==> r@ == body@,
{
    proof {
        if scan_valid(body@) {
            assert forall|i: int| 0 <= i < body@.len() implies body@[i] < 128 by {
                if i < 6 {
                    assert(body@.subrange(0, 6)[i] == body@[i]);
                } else if i > 6 {
                    assert(body@.subrange(7, 13)[i - 7] == body@[i]);
                }
            }
            lemma_ascii_valid_utf8(body@);
        }
    }
    match str_from_utf8(body) {
        Some(s) => s.as_bytes(),
        None => {
            let t = "invalid";
            proof {
                reveal_strlit("invalid");
                vstd::string::is_ascii_spec_bytes(t);
                assert(t.spec_bytes() =~= invalid_text());
            }
            t.as_bytes()
        },
    }
}

/// A material frame: five bytes, a colour 0 to 5, then X and Y, high byte first.
pub open spec fn material_valid(body: Seq<u8>) -> bool {
    body.len() == 5 && body[0] <= 5
}

/// Material stage: a valid material sets `x` and `y`, moves on to rough positioning
/// and is acknowledged with `N`; anything else changes nothing.
pub fn handle_material(body: &[u8], x: &mut i16, y: &mut i16) -> (r: (Stage, Reply))
    ensures
        material_valid(body@) ==> {
            &&& r == (Stage::Rough, Reply::Send(MATERIAL_ACK))
            &&& *final(x) as int == i16_value(body@[1], body@[2])
            &&& *final(y) as int == i16_value(body@[3], body@[4])
        },
        !material_valid(body@) ==> {
            &&& r == (Stage::Material, Reply::Silent)
            &&& *final(x) == *old(x)
            &&& *final(y) == *old(y)
        },
{
    if body.len() == 5 && body[0] <= 5 {
        *x = u8_to_i16(body[1], body[2]);
        *y = u8_to_i16(body[3], body[4]);
        (Stage::Rough, Reply::Send(MATERIAL_ACK))
    } else {
        (Stage::Material, Reply::Silent)
    }
}

/// Every colour from 0 to 5 is accepted in a five-byte material, and nothing else
/// is: in the material stage such a frame moves on to rough positioning and is
/// acknowledged with `N`, while any other frame keeps the stage and gets no reply.
pub proof fn lemma_material_colours(body: Seq<u8>)
    ensures
        body.len() == 5 && body[0] <= 5 ==> material_valid(body) && step(Stage::Material, body)
            == (Stage::Rough, Reply::Send(MATERIAL_ACK)),
        !(body.len() == 5 && body[0] <= 5) ==> !material_valid(body) && step(
            Stage::Material,
            body,
        ) == (Stage::Material, Reply::Silent),
{
}

/// Point `i` of a frame of points, four bytes each: X then Y, high byte first.
pub open spec fn point_at(body: Seq<u8>, i: int) -> (int, int) {
    (i16_value(body[4 * i], body[4 * i + 1]), i16_value(body[4 * i + 2], body[4 * i + 3]))
}

/// Rough stage: twelve bytes set the three points, move on to fine positioning and
/// are acknowledged with `C`; anything else changes nothing.
pub fn handle_rough(body: &[u8], pts: &mut [(i16, i16); 3]) -> (r: (Stage, Reply))
    ensures
        body@.len() == 12 ==> {
            &&& r == (Stage::Fine, Reply::Send(ROUGH_ACK))
            &&& forall|i: int|
                0 <= i < 3 ==> (#[trigger] final(pts)@[i].0 as int, final(pts)@[i].1 as int)
                    == point_at(body@, i)
        },
        body@.len() != 12 ==> {
            &&& r == (Stage::Rough, Reply::Silent)
            &&& final(pts)@ == old(pts)@
        },
{
    if body.len() == 12 {
        let mut i: usize = 0;
        while i < 3
            invariant
                0 <= i <= 3,
                body@.len() == 12,
                forall|k: int|
                    0 <= k < i ==> (#[trigger] pts@[k].0 as int, pts@[k].1 as int) == point_at(
                        body@,
                        k,
                    ),
            decreases 3 - i,
        {
            let off = i * 4;
            pts[i] = (
                u8_to_i16(body[off], body[off + 1]),
                u8_to_i16(body[off + 2], body[off + 3]),
            );
            i += 1;
        }
        (Stage::Fine, Reply::Send(ROUGH_ACK))
    } else {
        (Stage::Rough, Reply::Silent)
    }
}

/// Fine stage: four bytes set the fine point and are acknowledged with `X`;
/// anything else changes nothing. The protocol stays in this stage.
pub fn handle_fine(body: &[u8], fx: &mut i16, fy: &mut i16) -> (r: (Stage, Reply))
    ensures
        body@.len() == 4 ==> {
            &&& r == (Stage::Fine, Reply::Send(FINE_ACK))
            &&& *final(fx) as int == i16_value(body@[0], body@[1])
            &&& *final(fy) as int == i16_value(body@[2], body@[3])
        },
        body@.len() != 4 ==> {
            &&& r == (Stage::Fine, Reply::Silent)
            &&& *final(fx) == *old(fx)
            &&& *final(fy) == *old(fy)
        },
{
    if body.len() == 4 {
        *fx = u8_to_i16(body[0], body[1]);
        *fy = u8_to_i16(body[2], body[3]);
        (Stage::Fine, Reply::Send(FINE_ACK))
    } else {
        (Stage::Fine, Reply::Silent)
    }
}


/// The next stage and the reply, for a frame `body` received in stage `s`.
pub open spec fn step(s: Stage, body: Seq<u8>) -> (Stage, Reply) {
    match s {
        Stage::Scan => if scan_valid(body) {
            (Stage::Material, Reply::ScanDone)
        } else {
            (Stage::Scan, Reply::Silent)
        },
        Stage::Material => if material_valid(body) {
            (Stage::Rough, Reply::Send(MATERIAL_ACK))
        } else {
            (Stage::Material, Reply::Silent)
        },
        Stage::Rough => if body.len() == 12 {
            (Stage::Fine, Reply::Send(ROUGH_ACK))
        } else {
            (Stage::Rough, Reply::Silent)
        },
        Stage::Fine => if body.len() == 4 {
            (Stage::Fine, Reply::Send(FINE_ACK))
        } else {
            (Stage::Fine, Reply::Silent)
        },
    }
}

/// The protocol only moves forward, one stage at a time, and stays in the last
/// stage; a reply is sent exactly for the frames that are accepted, and the stage
/// moves on exactly when a frame is accepted before the last stage.
pub proof fn lemma_step_forward(s: Stage, body: Seq<u8>)
    ensures
        stage_rank(s) <= stage_rank(step(s, body).0) <= stage_rank(s) + 1,
        s == Stage::Fine ==> step(s, body).0 == Stage::Fine,
        s != Stage::Fine ==> (step(s, body).0 != s <==> step(s, body).1 != Reply::Silent),
{
}

/// Everything the protocol keeps between frames.
pub struct ProtocolState {
    pub stage: Stage,
    pub x: i16,
    pub y: i16,
    pub pts: [(i16, i16); 3],
    pub fx: i16,
    pub fy: i16,
    pub scan_result: Option<ScanResult>,
}

impl ProtocolState {
    /// The start: scan stage, all values 0, nothing scanned.
    pub fn new() -> (r: Self)
        ensures
            r.stage == Stage::Scan,
            r.x == 0 && r.y == 0 && r.fx == 0 && r.fy == 0,
            r.pts@ == seq![(0i16, 0i16), (0i16, 0i16), (0i16, 0i16)],
            r.scan_result is None,
    {
        let r = ProtocolState {
            stage: Stage::Scan,
            x: 0,
            y: 0,
            pts: [(0, 0); 3],
            fx: 0,
            fy: 0,
            scan_result: None,
        };
        assert(r.pts@ =~= seq![(0i16, 0i16), (0i16, 0i16), (0i16, 0i16)]);
        r
    }

    /// Handles the body of one frame with the function of the current stage, and
    /// returns the reply to send.
    pub fn on_frame(&mut self, body: &[u8]) -> (r: Reply)
        ensures
            (final(self).stage, r) == step(old(self).stage, body@),
            old(self).stage == Stage::Scan ==> {
                &&& scan_valid(body@) ==> scan_of(final(self).scan_result, body@)
                &&& !scan_valid(body@) ==> final(self).scan_result is None
            },
            old(self).stage == Stage::Material && material_valid(body@) ==> {
                &&& final(self).x as int == i16_value(body@[1], body@[2])
                &&& final(self).y as int == i16_value(body@[3], body@[4])
            },
            old(self).stage == Stage::Rough && body@.len() == 12 ==> forall|i: int|
                0 <= i < 3 ==> (#[trigger] final(self).pts@[i].0 as int, final(self).pts@[i].1 as int)
                    == point_at(body@, i),
            old(self).stage == Stage::Fine && body@.len() == 4 ==> {
                &&& final(self).fx as int == i16_value(body@[0], body@[1])
                &&& final(self).fy as int == i16_value(body@[2], body@[3])
            },
            old(self).stage != Stage::Scan ==> final(self).scan_result == old(self).scan_result,
            !(old(self).stage == Stage::Material && material_valid(body@)) ==> final(self).x == old(
                self,
            ).x && final(self).y == old(self).y,
            !(old(self).stage == Stage::Rough && body@.len() == 12) ==> final(self).pts@ == old(
                self,
            ).pts@,
            !(old(self).stage == Stage::Fine && body@.len() == 4) ==> final(self).fx == old(
                self,
            ).fx && final(self).fy == old(self).fy,
    {
        match self.stage {
            Stage::Scan => {
                let (new_stage, result) = handle_scan(body);
                let reply = if result.is_some() {
                    Reply::ScanDone
                } else {
                    Reply::Silent
                };
                self.scan_result = result;
                self.stage = new_stage;
                reply
            },
            Stage::Material => {
                let (new_stage, reply) = handle_material(body, &mut self.x, &mut self.y);
                self.stage = new_stage;
                reply
            },
            Stage::Rough => {
                let (new_stage, reply) = handle_rough(body, &mut self.pts);
                self.stage = new_stage;
                reply
            },
            Stage::Fine => {
                let (new_stage, reply) = handle_fine(body, &mut self.fx, &mut self.fy);
                self.stage = new_stage;
                reply
            },
        }
    }
}

} // verus!
