//! The pure parts of an RDP session: input events and their translation
//! into input operations, host validation, reading rectangles of the
//! decoded desktop image, and tiling updated regions into frame events.
use vstd::prelude::*;
use crate::framebuffer::FrameRect;
use crate::framebuffer::base64_encode;
use crate::framebuffer::base64_standard;
use crate::session::valid_host_text;
use crate::session::is_valid_host;
use crate::vnc::region_tiles;
use crate::vnc::tile_count;
use crate::vnc::tile_at;
use crate::vnc::tile_grid;
use vstd::utf8::encode_utf8;

verus! {

/// Maximum number of concurrent RDP sessions.
pub const MAX_RDP_CONNECTIONS: usize = 8;

/// Width of the RDP desktop, in pixels.
pub const DEFAULT_WIDTH: u16 = 1280;

/// Height of the RDP desktop, in pixels.
pub const DEFAULT_HEIGHT: u16 = 800;

/// A mouse event from the frontend.
#[derive(Debug, Clone, Copy, PartialEq, Eq, Structural)]
pub struct RdpMouseEvent {
    /// X coordinate in the remote desktop.
    pub x: u16,
    /// Y coordinate in the remote desktop.
    pub y: u16,
    /// Mouse button (0 = left, 1 = middle, 2 = right); `None` for a move.
    pub button: Option<u8>,
    /// Whether the button is pressed (true) or released (false).
    pub pressed: bool,
    /// Scroll delta (positive = up, negative = down); `None` for no scroll.
    pub scroll_delta: Option<i16>,
}

/// A keyboard event from the frontend.
#[derive(Debug, Clone, Copy, PartialEq, Eq, Structural)]
pub struct RdpKeyEvent {
    /// Packed scancode; the high bit marks an extended key.
    pub scancode: u16,
    /// Whether the key is pressed (true) or released (false).
    pub pressed: bool,
}

/// Payload of an `rdp-frame` event: one tile of updated pixels.
#[derive(Debug, Clone)]
pub struct RdpFramePayload {
    pub connection_id: String,
    pub full_width: u16,
    pub full_height: u16,
    pub x: u16,
    pub y: u16,
    pub width: u16,
    pub height: u16,
    /// Base64-encoded RGBA pixels of the tile, row-major.
    pub data: String,
}

/// Payload of an `rdp-disconnected` event.
#[derive(Debug, Clone)]
pub struct RdpDisconnectedPayload {
    pub connection_id: String,
    pub reason: String,
}

/// Errors of the RDP session lifecycle.
#[derive(Debug, Clone)]
pub enum RdpError {
    Io(String),
    Tls(String),
    Protocol(String),
    InvalidHost(String),
    TooManyConnections,
    NotFound(String),
    SessionClosed,
}

// ── Host validation ───────────────────────────────────────────────

/// The text of the error for a host that is empty or too long.
pub open spec fn host_length_message() -> Seq<char> {
    "Host must be between 1 and 253 characters"@
}

/// The text of the error for a host with characters that are not allowed.
pub open spec fn host_chars_message(host: Seq<char>) -> Seq<char> {
    "Host contains invalid characters: "@ + host
}

/// Validate that the RDP host is a reasonable host name or IP address.
pub fn validate_rdp_host(host: &str) -> (r: Result<(), RdpError>)
    ensures
        r is Ok <==> valid_host_text(host@),
        r is Err ==> (r matches Err(RdpError::InvalidHost(msg)) && msg@ == if host@.len() == 0
            || encode_utf8(host@).len() > 253 {
            host_length_message()
        } else {
            host_chars_message(host@)
        }),
{
    let bytes = host.as_bytes();
    if host.is_empty() || bytes.len() > 253 {
        return Err(RdpError::InvalidHost(String::from_str("Host must be between 1 and 253 characters")));
    }
    if is_valid_host(host) {
        return Ok(());
    }
    Err(RdpError::InvalidHost(String::from_str("Host contains invalid characters: ").concat(host)))
}

// ── Input ─────────────────────────────────────────────────────────

/// A mouse button, as the input layer names it.
#[derive(Debug, Clone, Copy, PartialEq, Eq, Structural)]
pub enum MouseButton {
    Left,
    Middle,
    Right,
}

/// One input operation for the RDP input database.
#[derive(Debug, Clone, Copy, PartialEq, Eq, Structural)]
pub enum InputOperation {
    MouseMove { x: u16, y: u16 },
    WheelRotations { is_vertical: bool, rotation_units: i16 },
    MouseButtonPressed(MouseButton),
    MouseButtonReleased(MouseButton),
    /// Key press, by packed scancode.
    KeyPressed(u16),
    /// Key release, by packed scancode.
    KeyReleased(u16),
}

/// The button that a frontend button number names.
pub open spec fn spec_mouse_button(b: u8) -> Option<MouseButton> {
    if b == 0 {
        Some(MouseButton::Left)
    } else if b == 1 {
        Some(MouseButton::Middle)
    } else if b == 2 {
        Some(MouseButton::Right)
    } else {
        None
    }
}

/// The operations for a mouse event: always a move to its position, then
/// a vertical wheel rotation when it scrolls, then a press or release of
/// its button when that is left, middle or right.
pub open spec fn spec_mouse_operations(e: RdpMouseEvent) -> Seq<InputOperation> {
    let moved = seq![InputOperation::MouseMove { x: e.x, y: e.y }];
    let wheeled = match e.scroll_delta {
        Some(d) => moved.push(InputOperation::WheelRotations { is_vertical: true, rotation_units: d }),
        None => moved,
    };
    match e.button {
        Some(b) => match spec_mouse_button(b) {
            Some(button) => wheeled.push(
                if e.pressed {
                    InputOperation::MouseButtonPressed(button)
                } else {
                    InputOperation::MouseButtonReleased(button)
                },
            ),
            None => wheeled,
        },
        None => wheeled,
    }
}

/// The operations for any mouse event: first a move to the event's
/// position; then, when it scrolls, one vertical wheel rotation by its
/// delta; then, when its button is 0, 1 or 2, exactly one operation on the
/// left, middle or right button respectively, a press when `pressed` and a
/// release otherwise. An event naming another button, or none, sends no
/// button operation.
pub proof fn law_mouse_operations(e: RdpMouseEvent)
    ensures
        ({
            let ops = spec_mouse_operations(e);
            let n_scroll: int = if e.scroll_delta is Some { 1 } else { 0 };
            let named = e.button matches Some(b) && b <= 2;
            &&& ops.len() == 1 + n_scroll + if named { 1int } else { 0 }
            &&& ops[0] == InputOperation::MouseMove { x: e.x, y: e.y }
            &&& e.scroll_delta matches Some(d) ==> ops[1] == InputOperation::WheelRotations {
                is_vertical: true,
                rotation_units: d,
            }
            &&& e.button == Some(0u8) ==> ops.last() == if e.pressed {
                InputOperation::MouseButtonPressed(MouseButton::Left)
            } else {
                InputOperation::MouseButtonReleased(MouseButton::Left)
            }
            &&& e.button == Some(1u8) ==> ops.last() == if e.pressed {
                InputOperation::MouseButtonPressed(MouseButton::Middle)
            } else {
                InputOperation::MouseButtonReleased(MouseButton::Middle)
            }
            &&& e.button == Some(2u8) ==> ops.last() == if e.pressed {
                InputOperation::MouseButtonPressed(MouseButton::Right)
            } else {
                InputOperation::MouseButtonReleased(MouseButton::Right)
            }
            &&& forall|i: int|
                0 <= i < 1 + n_scroll ==> !((#[trigger] ops[i]) is MouseButtonPressed || ops[i] is MouseButtonReleased)
        }),
{
}

/// Convert a frontend mouse event into input operations.
pub fn build_mouse_operations(event: &RdpMouseEvent) -> (ops: Vec<InputOperation>)
    ensures
        ops@ == spec_mouse_operations(*event),
{
    let mut ops: Vec<InputOperation> = Vec::new();
    ops.push(InputOperation::MouseMove { x: event.x, y: event.y });
    if let Some(delta) = event.scroll_delta {
        ops.push(InputOperation::WheelRotations { is_vertical: true, rotation_units: delta });
    }
    if let Some(btn) = event.button {
        let mouse_button = if btn == 0 {
            Some(MouseButton::Left)
        } else if btn == 1 {
            Some(MouseButton::Middle)
        } else if btn == 2 {
            Some(MouseButton::Right)
        } else {
            None
        };
        if let Some(button) = mouse_button {
            let op = if event.pressed {
                InputOperation::MouseButtonPressed(button)
            } else {
                InputOperation::MouseButtonReleased(button)
            };
            ops.push(op);
        }
    }
    proof {
        let moved = seq![InputOperation::MouseMove { x: event.x, y: event.y }];
        assert(ops@ =~= spec_mouse_operations(*event));
    }
    ops
}

/// The operation for a keyboard event: a press or release of its scancode.
pub fn key_operation(event: &RdpKeyEvent) -> (op: InputOperation)
    ensures
        op == if event.pressed {
            InputOperation::KeyPressed(event.scancode)
        } else {
            InputOperation::KeyReleased(event.scancode)
        },
{
    if event.pressed {
        InputOperation::KeyPressed(event.scancode)
    } else {
        InputOperation::KeyReleased(event.scancode)
    }
}


// ── The decoded desktop image ─────────────────────────────────────

/// A view of the decoded desktop image: `height` rows of `stride` bytes,
/// `bytes_per_pixel` bytes per pixel.
pub struct RdpImage<'a> {
    pub width: u16,
    pub height: u16,
    pub bytes_per_pixel: usize,
    pub stride: usize,
    pub data: &'a [u8],
}

/// Whether the byte offsets of every pixel of the image can be computed.
pub open spec fn image_addressable(image: &RdpImage) -> bool {
    image.height * image.stride + image.width * image.bytes_per_pixel <= usize::MAX
}

/// Offset of the first byte of the pixels of image row `row` from column
/// `left` on.
pub open spec fn image_row_start(image: &RdpImage, left: int, row: int) -> int {
    row * image.stride + left * image.bytes_per_pixel
}

/// The bytes of image rows `top .. top + n`, columns `left .. left + width`.
pub open spec fn image_rows(image: &RdpImage, left: int, top: int, width: int, n: nat) -> Seq<u8>
    decreases n,
{
    if n == 0 {
        Seq::empty()
    } else {
        let start = image_row_start(image, left, top + n - 1);
        image_rows(image, left, top, width, (n - 1) as nat) + image.data@.subrange(
            start,
            start + width * image.bytes_per_pixel,
        )
    }
}

/// The pixel data of a rectangle of the image, when the rectangle lies
/// within the image and every one of its rows within the pixel data.
pub open spec fn spec_extract_rect_rgba(image: &RdpImage, left: int, top: int, width: int, height: int) -> Option<Seq<u8>> {
    if left + width > image.width || top + height > image.height {
        None
    } else if exists|r: int|
        top <= r < top + height && #[trigger] image_row_start(image, left, r) + width
            * image.bytes_per_pixel > image.data@.len() {
        None
    } else {
        Some(image_rows(image, left, top, width, height as nat))
    }
}

/// Extract the RGBA pixel data for a rectangle of the decoded image, row
/// by row; `None` when the rectangle reaches beyond the image.
pub fn extract_rect_rgba(image: &RdpImage, left: u16, top: u16, width: u16, height: u16) -> (out: Option<Vec<u8>>)
    requires
        image_addressable(image),
    ensures
        match spec_extract_rect_rgba(image, left as int, top as int, width as int, height as int) {
            Some(bytes) => out matches Some(v) && v@ == bytes,
            None => out is None,
        },
{
    let bpp = image.bytes_per_pixel;
    let stride = image.stride;
    let w = width as usize;
    let h = height as usize;
    if (left as usize + w) > image.width as usize || (top as usize + h) > image.height as usize {
        return None;
    }
    assert(w * bpp <= image.width * bpp) by (nonlinear_arith)
        requires
            w <= image.width,
    ;
    assert(left * bpp + w * bpp <= image.width * bpp) by (nonlinear_arith)
        requires
            left + w <= image.width,
    ;
    let mut out: Vec<u8> = Vec::new();
    let mut row: usize = top as usize;
    while row < top as usize + h
        invariant
            bpp == image.bytes_per_pixel,
            stride == image.stride,
            w == width,
            h == height,
            image_addressable(image),
            left + w <= image.width,
            top + h <= image.height,
            left * bpp + w * bpp <= image.width * bpp,
            top <= row <= top + h,
            forall|r: int| top <= r < row ==> #[trigger] image_row_start(image, left as int, r) + w * bpp <= image.data@.len(),
            out@ == image_rows(image, left as int, top as int, w as int, (row - top) as nat),
        decreases top + h - row,
    {
        assert(row * stride <= image.height * stride) by (nonlinear_arith)
            requires
                row < image.height,
                stride == image.stride,
        ;
        let start = row * stride + left as usize * bpp;
        let end = start + w * bpp;
        if end > image.data.len() {
            proof {
                assert(image_row_start(image, left as int, row as int) + width * image.bytes_per_pixel
                    > image.data@.len());
            }
            return None;
        }
        let ghost before = out@;
        let mut k: usize = start;
        while k < end
            invariant
                start <= k <= end <= image.data.len(),
                out@ == before + image.data@.subrange(start as int, k as int),
            decreases end - k,
        {
            out.push(image.data[k]);
            k = k + 1;
            proof {
                assert(out@ =~= before + image.data@.subrange(start as int, k as int));
            }
        }
        row = row + 1;
    }
    Some(out)
}

// ── Frame events ──────────────────────────────────────────────────

/// Whether the tile walk over an updated region stays within 16-bit
/// desktop coordinates.
pub open spec fn rdp_tiles_addressable(rect: FrameRect) -> bool {
    rect.width == 0 || rect.height == 0 || (rect.x + ((rect.width - 1) / 256) * 256 + 256 <= 65535
        && rect.y + ((rect.height - 1) / 256) * 256 + 256 <= 65535)
}

/// The tile `t` of a region, moved to the region's position on the desktop.
pub open spec fn placed(rect: FrameRect, t: FrameRect) -> FrameRect {
    FrameRect { x: (rect.x + t.x) as u16, y: (rect.y + t.y) as u16, width: t.width, height: t.height }
}

/// The tiles, among `tiles` moved to the position of `rect`, whose pixels
/// can be read from the image, in order.
pub open spec fn readable_tiles(image: &RdpImage, rect: FrameRect, tiles: Seq<FrameRect>) -> Seq<FrameRect>
    decreases tiles.len(),
{
    if tiles.len() == 0 {
        Seq::empty()
    } else {
        let rest = readable_tiles(image, rect, tiles.drop_last());
        let t = placed(rect, tiles.last());
        if spec_extract_rect_rgba(image, t.x as int, t.y as int, t.width as int, t.height as int) is Some {
            rest.push(t)
        } else {
            rest
        }
    }
}

/// Whether `p` is the frame event for desktop tile `t` on connection
/// `conn`.
pub open spec fn is_rdp_tile_payload(p: RdpFramePayload, conn: Seq<char>, image: &RdpImage, t: FrameRect) -> bool {
    &&& p.connection_id@ == conn
    &&& p.full_width == image.width
    &&& p.full_height == image.height
    &&& p.x == t.x
    &&& p.y == t.y
    &&& p.width == t.width
    &&& p.height == t.height
    &&& spec_extract_rect_rgba(image, t.x as int, t.y as int, t.width as int, t.height as int)
        matches Some(bytes) && p.data@ == base64_standard(bytes)
}

/// The frame events for a graphics update of `rect`: the region is cut
/// into tiles of at most 256 by 256 pixels, row by row, and each tile
/// whose pixels lie within the image becomes one event carrying them in
/// base64.
pub fn rdp_frame_tiles(connection_id: &str, image: &RdpImage, rect: &FrameRect) -> (out: Vec<RdpFramePayload>)
    requires
        image_addressable(image),
        rdp_tiles_addressable(*rect),
    ensures
        out.len() == readable_tiles(image, *rect, region_tiles(rect.width as int, rect.height as int)).len(),
        forall|k: int|
            0 <= k < out.len() ==> is_rdp_tile_payload(
                #[trigger] out@[k],
                connection_id@,
                image,
                readable_tiles(image, *rect, region_tiles(rect.width as int, rect.height as int))[k],
            ),
{
    let w: u32 = rect.width as u32;
    let h: u32 = rect.height as u32;
    let ghost gw = w as int;
    let ghost gh = h as int;
    let mut out: Vec<RdpFramePayload> = Vec::new();
    if w == 0 || h == 0 {
        proof {
            assert(tile_count(gw) == 0 || tile_count(gh) == 0);
            lemma_empty_grid(gw, gh, tile_count(gh) as nat);
        }
        return out;
    }
    let cols: u32 = (w + 255) / 256;
    let rows: u32 = (h + 255) / 256;
    let mut i: u32 = 0;
    while i < rows
        invariant
            w == rect.width,
            h == rect.height,
            gw == w,
            gh == h,
            w > 0 && h > 0,
            cols == tile_count(gw),
            rows == tile_count(gh),
            image_addressable(image),
            rdp_tiles_addressable(*rect),
            i <= rows,
            out.len() == readable_tiles(image, *rect, tile_grid(gw, gh, i as nat)).len(),
            forall|k: int|
                0 <= k < out.len() ==> is_rdp_tile_payload(
                    #[trigger] out@[k],
                    connection_id@,
                    image,
                    readable_tiles(image, *rect, tile_grid(gw, gh, i as nat))[k],
                ),
        decreases rows - i,
    {
        let ghost before = tile_grid(gw, gh, i as nat);
        let ghost row_tiles = Seq::new(tile_count(gw) as nat, |j: int| tile_at(gw, gh, i as int, j));
        let mut j: u32 = 0;
        while j < cols
            invariant
                w == rect.width,
                h == rect.height,
                gw == w,
                gh == h,
                w > 0 && h > 0,
                cols == tile_count(gw),
                rows == tile_count(gh),
                image_addressable(image),
                rdp_tiles_addressable(*rect),
                i < rows,
                j <= cols,
                before == tile_grid(gw, gh, i as nat),
                row_tiles == Seq::new(tile_count(gw) as nat, |j: int| tile_at(gw, gh, i as int, j)),
                out.len() == readable_tiles(image, *rect, before + row_tiles.take(j as int)).len(),
                forall|k: int|
                    0 <= k < out.len() ==> is_rdp_tile_payload(
                        #[trigger] out@[k],
                        connection_id@,
                        image,
                        readable_tiles(image, *rect, before + row_tiles.take(j as int))[k],
                    ),
            decreases cols - j,
        {
            let tx: u32 = j * 256;
            let ty: u32 = i * 256;
            let tw: u32 = if w - tx < 256 { w - tx } else { 256 };
            let th: u32 = if h - ty < 256 { h - ty } else { 256 };
            assert(tx <= w - 1 && ty <= h - 1);
            let ghost tile = tile_at(gw, gh, i as int, j as int);
            assert(tile.x == tx && tile.y == ty && tile.width == tw && tile.height == th);
            let x: u16 = rect.x + tx as u16;
            let y: u16 = rect.y + ty as u16;
            let ghost seen = before + row_tiles.take(j as int);
            let ghost next = before + row_tiles.take(j as int + 1);
            proof {
                assert(next.drop_last() =~= seen);
                assert(row_tiles[j as int] == tile);
                assert(next.last() == tile);
                assert(placed(*rect, tile) == FrameRect { x, y, width: tw as u16, height: th as u16 });
            }
            match extract_rect_rgba(image, x, y, tw as u16, th as u16) {
                Some(rgba) => {
                    let payload = RdpFramePayload {
                        connection_id: String::from_str(connection_id),
                        full_width: image.width,
                        full_height: image.height,
                        x,
                        y,
                        width: tw as u16,
                        height: th as u16,
                        data: base64_encode(rgba.as_slice()),
                    };
                    let ghost old_out = out@;
                    out.push(payload);
                    proof {
                        let kept = readable_tiles(image, *rect, next);
                        assert(kept == readable_tiles(image, *rect, seen).push(placed(*rect, tile)));
                        assert forall|k: int| 0 <= k < out.len() implies is_rdp_tile_payload(
                            #[trigger] out@[k],
                            connection_id@,
                            image,
                            kept[k],
                        ) by {
                            if k < old_out.len() {
                                assert(out@[k] == old_out[k]);
                            }
                        }
                    }
                },
                None => {},
            }
            j = j + 1;
        }
        proof {
            assert(row_tiles.take(cols as int) =~= row_tiles);
            assert(tile_grid(gw, gh, (i + 1) as nat) == before + row_tiles);
        }
        i = i + 1;
    }
    out
}

proof fn lemma_empty_grid(width: int, height: int, rows: nat)
    requires
        tile_count(width) == 0 || tile_count(height) == 0,
        rows <= tile_count(height),
    ensures
        tile_grid(width, height, rows) == Seq::<FrameRect>::empty(),
    decreases rows,
{
    if rows > 0 {
        lemma_empty_grid(width, height, (rows - 1) as nat);
        assert(tile_grid(width, height, rows) =~= Seq::<FrameRect>::empty());
    }
}


// ── The session loop ──────────────────────────────────────────────

/// What happened in the session loop, as the loop reads it.
#[derive(Debug, Clone)]
pub enum RdpLoopEvent {
    /// Reading a PDU failed, with the failure's message.
    ReadFailed(String),
    /// Processing a PDU failed, with the failure's message.
    ProcessFailed(String),
    /// The decoded desktop image changed in this region.
    GraphicsUpdate(FrameRect),
    /// The server ended the session, for this reason.
    Terminate(String),
    /// The server deactivated the session.
    DeactivateAll,
    /// A mouse event from the frontend.
    Mouse(RdpMouseEvent),
    /// A keyboard event from the frontend.
    Key(RdpKeyEvent),
    /// The frontend disconnected, or the input channel closed.
    Disconnect,
    /// Anything else: a response frame, a pointer update.
    Other,
}

/// What the session loop does next.
#[derive(Debug, Clone)]
pub enum RdpLoopAction {
    /// Emit these frame events.
    Frames(Vec<RdpFramePayload>),
    /// Apply these input operations.
    Input(Vec<InputOperation>),
    /// Nothing to do.
    Continue,
    /// End the session, for this reason.
    End(String),
}

/// Whether an event can be handled against `image`: for a graphics
/// update, every pixel offset of the image must be computable and every
/// tile of the region must lie on the 16-bit desktop.
pub open spec fn loop_event_in_range(image: &RdpImage, e: RdpLoopEvent) -> bool {
    match e {
        RdpLoopEvent::GraphicsUpdate(rect) => image_addressable(image) && rdp_tiles_addressable(rect),
        _ => true,
    }
}

/// One step of the session loop: a graphics update becomes its frame
/// events, frontend input becomes input operations, and errors, the
/// server's termination or deactivation, and a disconnect end the session.
pub fn rdp_loop_step(connection_id: &str, image: &RdpImage, event: RdpLoopEvent) -> (a: RdpLoopAction)
    requires
        loop_event_in_range(image, event),
    ensures
        match event {
            RdpLoopEvent::ReadFailed(msg) => a matches RdpLoopAction::End(r) && r@ == "read error: "@ + msg@,
            RdpLoopEvent::ProcessFailed(msg) => a matches RdpLoopAction::End(r) && r@ == "process error: "@
                + msg@,
            RdpLoopEvent::GraphicsUpdate(rect) => {
                let tiles = readable_tiles(image, rect, region_tiles(rect.width as int, rect.height as int));
                &&& a matches RdpLoopAction::Frames(out)
                &&& out.len() == tiles.len()
                &&& forall|k: int|
                    0 <= k < out.len() ==> is_rdp_tile_payload(#[trigger] out@[k], connection_id@, image, tiles[k])
            },
            RdpLoopEvent::Terminate(reason) => a matches RdpLoopAction::End(r) && r@ == reason@,
            RdpLoopEvent::DeactivateAll => a matches RdpLoopAction::End(r) && r@ == "server deactivated session"@,
            RdpLoopEvent::Mouse(e) => a matches RdpLoopAction::Input(ops) && ops@ == spec_mouse_operations(e),
            RdpLoopEvent::Key(e) => a matches RdpLoopAction::Input(ops) && ops@ == seq![
                if e.pressed {
                    InputOperation::KeyPressed(e.scancode)
                } else {
                    InputOperation::KeyReleased(e.scancode)
                },
            ],
            RdpLoopEvent::Disconnect => a matches RdpLoopAction::End(r) && r@ == "disconnected by client"@,
            RdpLoopEvent::Other => a is Continue,
        },
{
    match event {
        RdpLoopEvent::ReadFailed(msg) => RdpLoopAction::End(String::from_str("read error: ").concat(msg.as_str())),
        RdpLoopEvent::ProcessFailed(msg) => {
            RdpLoopAction::End(String::from_str("process error: ").concat(msg.as_str()))
        },
        RdpLoopEvent::GraphicsUpdate(rect) => RdpLoopAction::Frames(rdp_frame_tiles(connection_id, image, &rect)),
        RdpLoopEvent::Terminate(reason) => RdpLoopAction::End(reason),
        RdpLoopEvent::DeactivateAll => RdpLoopAction::End(String::from_str("server deactivated session")),
        RdpLoopEvent::Mouse(e) => RdpLoopAction::Input(build_mouse_operations(&e)),
        RdpLoopEvent::Key(e) => {
            let mut ops: Vec<InputOperation> = Vec::new();
            ops.push(key_operation(&e));
            proof {
                assert(ops@ =~= seq![ops@[0]]);
            }
            RdpLoopAction::Input(ops)
        },
        RdpLoopEvent::Disconnect => RdpLoopAction::End(String::from_str("disconnected by client")),
        RdpLoopEvent::Other => RdpLoopAction::Continue,
    }
}

} // verus!

verus! {

// ── Laws of the frame events ──────────────────────────────────────

/// Whether `b` holds the pixels of the `w` by `h` rectangle of the image
/// at `(x, y)`, row after row: the rectangle lies within the image, and
/// byte `j` of row `r` of `b` is byte `j` of the pixels of image row
/// `y + r` from column `x` on.
pub open spec fn holds_image_rect(b: Seq<u8>, image: &RdpImage, x: int, y: int, w: int, h: int) -> bool {
    let rb = w * image.bytes_per_pixel;
    &&& x + w <= image.width
    &&& y + h <= image.height
    &&& b.len() == h * rb
    &&& forall|r: int, j: int|
        0 <= r < h && 0 <= j < rb ==> #[trigger] b[r * rb + j] == image.data@[(y + r) * image.stride + x
            * image.bytes_per_pixel + j]
}

proof fn lemma_image_rows_shape(image: &RdpImage, left: int, top: int, width: int, n: nat)
    requires
        0 <= left,
        0 <= top,
        0 <= width,
        forall|r: int|
            top <= r < top + n ==> #[trigger] image_row_start(image, left, r) + width * image.bytes_per_pixel
                <= image.data@.len(),
    ensures
        image_rows(image, left, top, width, n).len() == n * (width * image.bytes_per_pixel),
        forall|r: int, j: int|
            0 <= r < n && 0 <= j < width * image.bytes_per_pixel ==> #[trigger] image_rows(
                image,
                left,
                top,
                width,
                n,
            )[r * (width * image.bytes_per_pixel) + j] == image.data@[(top + r) * image.stride + left
                * image.bytes_per_pixel + j],
    decreases n,
{
    let rb = width * image.bytes_per_pixel;
    assert(0 <= rb) by (nonlinear_arith)
        requires
            rb == width * image.bytes_per_pixel,
            0 <= width,
            0 <= image.bytes_per_pixel,
    ;
    if n == 0 {
        assert(0 * rb == 0);
    } else {
        let m = (n - 1) as nat;
        lemma_image_rows_shape(image, left, top, width, m);
        let start = image_row_start(image, left, top + m);
        assert(image_row_start(image, left, top + m) + rb <= image.data@.len());
        assert(0 <= start) by (nonlinear_arith)
            requires
                start == (top + m) * image.stride + left * image.bytes_per_pixel,
                0 <= top + m,
                0 <= left,
                0 <= image.stride,
                0 <= image.bytes_per_pixel,
        ;
        assert(m * rb + rb == n * rb) by (nonlinear_arith)
            requires
                m + 1 == n,
        ;
        assert(0 <= m * rb) by (nonlinear_arith)
            requires
                0 <= rb,
        ;
        let prev = image_rows(image, left, top, width, m);
        let cur = image_rows(image, left, top, width, n);
        assert(cur == prev + image.data@.subrange(start, start + rb));
        assert forall|r: int, j: int| 0 <= r < n && 0 <= j < rb implies #[trigger] cur[r * rb + j]
            == image.data@[(top + r) * image.stride + left * image.bytes_per_pixel + j] by {
            if r < m {
                assert(r * rb + j < m * rb) by (nonlinear_arith)
                    requires
                        r + 1 <= m,
                        0 <= j < rb,
                ;
                assert(0 <= r * rb) by (nonlinear_arith)
                    requires
                        0 <= r,
                        0 <= rb,
                ;
                assert(cur[r * rb + j] == prev[r * rb + j]);
            } else {
                assert(r == m);
            }
        }
        assert(cur.len() == n * rb);
    }
}

proof fn lemma_extract_rgba_holds(image: &RdpImage, x: int, y: int, w: int, h: int)
    requires
        0 <= x,
        0 <= y,
        0 <= w,
        0 <= h,
        spec_extract_rect_rgba(image, x, y, w, h) is Some,
    ensures
        holds_image_rect(spec_extract_rect_rgba(image, x, y, w, h)->0, image, x, y, w, h),
{
    assert forall|r: int| y <= r < y + h implies #[trigger] image_row_start(image, x, r) + w * image.bytes_per_pixel
        <= image.data@.len() by {
        if image_row_start(image, x, r) + w * image.bytes_per_pixel > image.data@.len() {
            assert(false);
        }
    }
    lemma_image_rows_shape(image, x, y, w, h as nat);
}

/// Reading a rectangle of the decoded image gives its pixels row after
/// row, or nothing when the rectangle reaches beyond the image or its
/// pixel data.
pub proof fn law_extract_rect_rgba(image: &RdpImage, x: u16, y: u16, w: u16, h: u16)
    ensures
        spec_extract_rect_rgba(image, x as int, y as int, w as int, h as int) matches Some(b) ==> holds_image_rect(
            b,
            image,
            x as int,
            y as int,
            w as int,
            h as int,
        ),
        (x + w <= image.width && y + h <= image.height && (forall|r: int|
            y <= r < y + h ==> #[trigger] image_row_start(image, x as int, r) + w * image.bytes_per_pixel
                <= image.data@.len())) ==> spec_extract_rect_rgba(image, x as int, y as int, w as int, h as int) is Some,
{
    if spec_extract_rect_rgba(image, x as int, y as int, w as int, h as int) is Some {
        lemma_extract_rgba_holds(image, x as int, y as int, w as int, h as int);
    }
}

proof fn lemma_placed_in(rect: FrameRect, t: FrameRect)
    requires
        rdp_tiles_addressable(rect),
        crate::vnc::tile_shape(rect.width as int, rect.height as int, t),
    ensures
        rect.x + t.x + 256 <= 65535,
        rect.y + t.y + 256 <= 65535,
        placed(rect, t).x == rect.x + t.x,
        placed(rect, t).y == rect.y + t.y,
        crate::vnc::tile_placed_in(
            rect,
            placed(rect, t).x as int,
            placed(rect, t).y as int,
            placed(rect, t).width as int,
            placed(rect, t).height as int,
        ),
{
    let w = rect.width as int;
    let h = rect.height as int;
    assert(t.x <= ((w - 1) / 256) * 256) by (nonlinear_arith)
        requires
            0 <= t.x < w,
            t.x % 256 == 0,
    ;
    assert(t.y <= ((h - 1) / 256) * 256) by (nonlinear_arith)
        requires
            0 <= t.y < h,
            t.y % 256 == 0,
    ;
}

proof fn lemma_readable_placed(image: &RdpImage, rect: FrameRect, tiles: Seq<FrameRect>)
    requires
        rdp_tiles_addressable(rect),
        forall|m: int| 0 <= m < tiles.len() ==> crate::vnc::tile_shape(rect.width as int, rect.height as int, #[trigger] tiles[m]),
    ensures
        forall|k: int|
            0 <= k < readable_tiles(image, rect, tiles).len() ==> {
                let q = #[trigger] readable_tiles(image, rect, tiles)[k];
                &&& crate::vnc::tile_placed_in(rect, q.x as int, q.y as int, q.width as int, q.height as int)
                &&& spec_extract_rect_rgba(image, q.x as int, q.y as int, q.width as int, q.height as int) is Some
            },
    decreases tiles.len(),
{
    if tiles.len() > 0 {
        let rest_tiles = tiles.drop_last();
        assert forall|m: int| 0 <= m < rest_tiles.len() implies crate::vnc::tile_shape(rect.width as int, rect.height as int, #[trigger] rest_tiles[m]) by {
            assert(rest_tiles[m] == tiles[m]);
        }
        lemma_readable_placed(image, rect, rest_tiles);
        assert(tiles.last() == tiles[tiles.len() - 1]);
        lemma_placed_in(rect, tiles.last());
    }
}

/// Every frame event of an RDP graphics update of `rect` (as
/// `rdp_frame_tiles` and `rdp_loop_step` give them) is a tile of `rect` at
/// its own desktop position, inside the image, and carries in base64 the
/// image's pixels of that tile, row after row.
pub proof fn law_rdp_frame_tiles_in_place(conn: Seq<char>, image: &RdpImage, rect: FrameRect, out: Seq<RdpFramePayload>)
    requires
        rdp_tiles_addressable(rect),
        out.len() == readable_tiles(image, rect, region_tiles(rect.width as int, rect.height as int)).len(),
        forall|k: int|
            0 <= k < out.len() ==> is_rdp_tile_payload(
                #[trigger] out[k],
                conn,
                image,
                readable_tiles(image, rect, region_tiles(rect.width as int, rect.height as int))[k],
            ),
    ensures
        forall|k: int|
            0 <= k < out.len() ==> {
                let p = #[trigger] out[k];
                &&& p.connection_id@ == conn
                &&& p.full_width == image.width
                &&& p.full_height == image.height
                &&& crate::vnc::tile_placed_in(rect, p.x as int, p.y as int, p.width as int, p.height as int)
                &&& exists|b: Seq<u8>|
                    p.data@ == base64_standard(b) && #[trigger] holds_image_rect(
                        b,
                        image,
                        p.x as int,
                        p.y as int,
                        p.width as int,
                        p.height as int,
                    )
            },
{
    let tiles = region_tiles(rect.width as int, rect.height as int);
    crate::vnc::law_region_tiles_shape(rect.width as int, rect.height as int);
    lemma_readable_placed(image, rect, tiles);
    let rt = readable_tiles(image, rect, tiles);
    assert forall|k: int| 0 <= k < out.len() implies {
        let p = #[trigger] out[k];
        &&& p.connection_id@ == conn
        &&& p.full_width == image.width
        &&& p.full_height == image.height
        &&& crate::vnc::tile_placed_in(rect, p.x as int, p.y as int, p.width as int, p.height as int)
        &&& exists|b: Seq<u8>|
            p.data@ == base64_standard(b) && #[trigger] holds_image_rect(
                b,
                image,
                p.x as int,
                p.y as int,
                p.width as int,
                p.height as int,
            )
    } by {
        let p = out[k];
        let q = rt[k];
        assert(is_rdp_tile_payload(p, conn, image, q));
        lemma_extract_rgba_holds(image, q.x as int, q.y as int, q.width as int, q.height as int);
        let b = spec_extract_rect_rgba(image, q.x as int, q.y as int, q.width as int, q.height as int)->0;
        assert(holds_image_rect(b, image, p.x as int, p.y as int, p.width as int, p.height as int));
    }
}

proof fn lemma_tile_readable(image: &RdpImage, rect: FrameRect, t: FrameRect)
    requires
        rdp_tiles_addressable(rect),
        crate::vnc::tile_shape(rect.width as int, rect.height as int, t),
        spec_extract_rect_rgba(image, rect.x as int, rect.y as int, rect.width as int, rect.height as int) is Some,
    ensures
        ({
            let q = placed(rect, t);
            spec_extract_rect_rgba(image, q.x as int, q.y as int, q.width as int, q.height as int) is Some
        }),
{
    lemma_placed_in(rect, t);
    let q = placed(rect, t);
    let bpp = image.bytes_per_pixel as int;
    assert((q.x + q.width) * bpp <= (rect.x + rect.width) * bpp) by (nonlinear_arith)
        requires
            q.x + q.width <= rect.x + rect.width,
            0 <= bpp,
    ;
    assert forall|r: int| q.y <= r < q.y + q.height implies !(#[trigger] image_row_start(image, q.x as int, r)
        + q.width * image.bytes_per_pixel > image.data@.len()) by {
        assert(rect.y <= r < rect.y + rect.height);
        if image_row_start(image, rect.x as int, r) + rect.width * image.bytes_per_pixel > image.data@.len() {
            assert(false);
        }
        assert(q.x * bpp + q.width * bpp == (q.x + q.width) * bpp) by (nonlinear_arith);
        assert(rect.x * bpp + rect.width * bpp == (rect.x + rect.width) * bpp) by (nonlinear_arith);
    }
}

proof fn lemma_readable_all(image: &RdpImage, rect: FrameRect, tiles: Seq<FrameRect>)
    requires
        rdp_tiles_addressable(rect),
        forall|m: int| 0 <= m < tiles.len() ==> crate::vnc::tile_shape(rect.width as int, rect.height as int, #[trigger] tiles[m]),
        spec_extract_rect_rgba(image, rect.x as int, rect.y as int, rect.width as int, rect.height as int) is Some,
    ensures
        readable_tiles(image, rect, tiles).len() == tiles.len(),
        forall|k: int| 0 <= k < tiles.len() ==> #[trigger] readable_tiles(image, rect, tiles)[k] == placed(rect, tiles[k]),
    decreases tiles.len(),
{
    if tiles.len() > 0 {
        let rest_tiles = tiles.drop_last();
        assert forall|m: int| 0 <= m < rest_tiles.len() implies crate::vnc::tile_shape(rect.width as int, rect.height as int, #[trigger] rest_tiles[m]) by {
            assert(rest_tiles[m] == tiles[m]);
        }
        lemma_readable_all(image, rect, rest_tiles);
        assert(tiles.last() == tiles[tiles.len() - 1]);
        lemma_tile_readable(image, rect, tiles.last());
        let rt = readable_tiles(image, rect, tiles);
        assert forall|k: int| 0 <= k < tiles.len() implies #[trigger] rt[k] == placed(rect, tiles[k]) by {
            if k < rest_tiles.len() {
                assert(rest_tiles[k] == tiles[k]);
            }
        }
    }
}

/// When the whole updated region can be read from the image, every tile of
/// it becomes a frame event, in order: tile `k` of the region, moved to
/// the region's position.
pub proof fn law_rdp_readable_region_all_tiles(image: &RdpImage, rect: FrameRect)
    requires
        rdp_tiles_addressable(rect),
        spec_extract_rect_rgba(image, rect.x as int, rect.y as int, rect.width as int, rect.height as int) is Some,
    ensures
        readable_tiles(image, rect, region_tiles(rect.width as int, rect.height as int)).len()
            == ((rect.width + 255) / 256) * ((rect.height + 255) / 256),
        forall|k: int|
            0 <= k < region_tiles(rect.width as int, rect.height as int).len() ==> {
                let q = #[trigger] readable_tiles(image, rect, region_tiles(rect.width as int, rect.height as int))[k];
                let t = region_tiles(rect.width as int, rect.height as int)[k];
                q.x == rect.x + t.x && q.y == rect.y + t.y && q.width == t.width && q.height == t.height
            },
{
    let tiles = region_tiles(rect.width as int, rect.height as int);
    crate::vnc::law_region_tiles_shape(rect.width as int, rect.height as int);
    lemma_readable_all(image, rect, tiles);
    assert forall|k: int| 0 <= k < tiles.len() implies {
        let q = #[trigger] readable_tiles(image, rect, tiles)[k];
        let t = tiles[k];
        q.x == rect.x + t.x && q.y == rect.y + t.y && q.width == t.width && q.height == t.height
    } by {
        lemma_placed_in(rect, tiles[k]);
    }
}

} // verus!

