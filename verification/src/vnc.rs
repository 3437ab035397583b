//! The pure parts of a VNC session: input events, the button mask, the
//! tiling of updated regions into frame events, and the error type.
use vstd::prelude::*;
use crate::framebuffer::FrameRect;
use crate::framebuffer::base64_encode;
use crate::framebuffer::base64_standard;
use crate::framebuffer::extract_rect_from_framebuffer;
use crate::framebuffer::spec_extract_rect;
use crate::framebuffer::copy_framebuffer_rect;
use crate::framebuffer::spec_copy_framebuffer_rect;
use crate::framebuffer::spec_update_framebuffer;
use crate::framebuffer::update_framebuffer;

verus! {

/// Maximum number of concurrent VNC sessions.
pub const MAX_VNC_CONNECTIONS: usize = 8;

/// Initial width of the VNC desktop, in pixels.
pub const DEFAULT_WIDTH: u16 = 1920;

/// Initial height of the VNC desktop, in pixels.
pub const DEFAULT_HEIGHT: u16 = 1080;

/// Largest side of a tile of a frame event, in pixels.
pub const TILE_SIZE: u16 = 256;

/// A mouse event from the frontend.
#[derive(Debug, Clone, Copy, PartialEq, Eq, Structural)]
pub struct VncMouseEvent {
    /// X coordinate in the remote desktop.
    pub x: u16,
    /// Y coordinate in the remote desktop.
    pub y: u16,
    /// Mouse button (0 = left, 1 = middle, 2 = right); `None` for a move.
    pub button: Option<u8>,
    /// Whether the button is pressed (true) or released (false).
    pub pressed: bool,
    /// Scroll delta (positive = up, negative = down); `None` for no scroll.
    pub scroll_delta: Option<i16>,
}

/// A keyboard event from the frontend.
#[derive(Debug, Clone, Copy, PartialEq, Eq, Structural)]
pub struct VncKeyEvent {
    /// X11 keysym.
    pub keysym: u32,
    /// Whether the key is pressed (true) or released (false).
    pub pressed: bool,
}

/// Payload of a `vnc-frame` event: one tile of updated pixels.
#[derive(Debug, Clone)]
pub struct VncFramePayload {
    pub connection_id: String,
    pub full_width: u16,
    pub full_height: u16,
    pub x: u16,
    pub y: u16,
    pub width: u16,
    pub height: u16,
    /// Base64-encoded RGBA pixels of the tile, row-major.
    pub data: String,
}

/// Payload of a `vnc-disconnected` event.
#[derive(Debug, Clone)]
pub struct VncDisconnectedPayload {
    pub connection_id: String,
    pub reason: String,
}

/// Payload of a `vnc-clipboard` event.
#[derive(Debug, Clone)]
pub struct VncClipboardPayload {
    pub connection_id: String,
    pub text: String,
}

/// Errors of the VNC session lifecycle.
#[derive(Debug, Clone)]
pub enum VncError {
    Io(String),
    Protocol(String),
    Auth(String),
    InvalidHost(String),
    TooManyConnections,
    NotFound(String),
    SessionClosed,
}

// ── Host validation ───────────────────────────────────────────────

/// Check the host of a VNC session before connecting.
pub fn check_vnc_host(host: &str) -> (r: Result<(), VncError>)
    ensures
        r is Ok <==> crate::session::valid_host_text(host@),
        r is Err ==> (r matches Err(VncError::InvalidHost(msg)) && msg@
            == "Host contains invalid characters: "@ + host@),
{
    if crate::session::is_valid_host(host) {
        Ok(())
    } else {
        Err(VncError::InvalidHost(String::from_str("Host contains invalid characters: ").concat(host)))
    }
}

// ── Button mask ───────────────────────────────────────────────────

/// The RFB button mask after a mouse event: bits 0-2 hold the left,
/// middle and right buttons and persist between events; bits 3 and 4
/// (scroll up, scroll down) last for one event only. An event naming
/// another button leaves the held buttons as they were and ignores its
/// scroll delta.
pub open spec fn spec_button_mask(mask: u8, button: Option<u8>, pressed: bool, scroll: Option<i16>) -> u8 {
    let held = mask & 7u8;
    if button is Some && button->0 > 2 {
        held
    } else {
        let with_button = match button {
            Some(b) => if pressed {
                held | (1u8 << b)
            } else {
                held & !(1u8 << b)
            },
            None => held,
        };
        match scroll {
            Some(d) => if d > 0 {
                with_button | 8u8
            } else if d < 0 {
                with_button | 16u8
            } else {
                with_button
            },
            None => with_button,
        }
    }
}

/// Update the VNC button mask for a mouse event from the frontend.
pub fn update_button_mask(mask: u8, event: &VncMouseEvent) -> (m: u8)
    ensures
        m == spec_button_mask(mask, event.button, event.pressed, event.scroll_delta),
        m & 0xe0u8 == 0,
        event.button matches Some(b) ==> (b <= 2 ==> (m & (1u8 << b) != 0) == event.pressed),
        event.button matches Some(b) ==> (b <= 2 ==> forall|k: u8|
            k <= 2 && k != b ==> (m & (1u8 << k)) == (mask & (1u8 << k))),
        event.button is None ==> m & 7u8 == mask & 7u8,
        event.button matches Some(b) ==> (b > 2 ==> m == mask & 7u8),
        (event.button is None || event.button->0 <= 2) ==> ((m & 8u8 != 0) == (
        event.scroll_delta matches Some(d) && d > 0)),
        (event.button is None || event.button->0 <= 2) ==> ((m & 16u8 != 0) == (
        event.scroll_delta matches Some(d) && d < 0)),
{
    let held: u8 = mask & 0b0000_0111;
    let mut cur: u8 = held;
    assert(held & 0xf8u8 == 0) by (bit_vector)
        requires
            held == mask & 7u8,
    ;
    if let Some(button) = event.button {
        if button > 2 {
            assert(held & 0xe0u8 == 0) by (bit_vector)
                requires
                    held & 0xf8u8 == 0,
            ;
            return held;
        }
        let bit: u8 = 1u8 << button;
        if event.pressed {
            cur = held | bit;
        } else {
            cur = held & !bit;
        }
        proof {
            let b = button;
            assert(b <= 2 && held & 0xf8u8 == 0 && bit == 1u8 << b ==> (held | bit) & 0xf8u8 == 0
                && (held & !bit) & 0xf8u8 == 0 && ((held | bit) & bit != 0) && ((held & !bit) & bit
                == 0) && forall|k: u8|
                k <= 2 && k != b ==> ((held | bit) & (1u8 << k)) == (held & (1u8 << k)) && ((held
                    & !bit) & (1u8 << k)) == (held & (1u8 << k))) by (bit_vector);
            assert(held == mask & 7u8 ==> forall|k: u8| k <= 2 ==> (held & (1u8 << k)) == (mask & (1u8 << k))) by (bit_vector);
        }
    } else {
        assert(held == mask & 7u8 ==> held & 7u8 == mask & 7u8) by (bit_vector);
    }
    let with_button = cur;
    if let Some(delta) = event.scroll_delta {
        if delta > 0 {
            cur = cur | 8;
        } else if delta < 0 {
            cur = cur | 16;
        }
    }
    proof {
        assert(with_button & 0xf8u8 == 0 ==> (with_button | 8u8) & 0xe0u8 == 0 && (with_button | 16u8)
            & 0xe0u8 == 0 && with_button & 0xe0u8 == 0 && (with_button | 8u8) & 8u8 != 0 && (
        with_button | 8u8) & 16u8 == 0 && (with_button | 16u8) & 16u8 != 0 && (with_button | 16u8)
            & 8u8 == 0 && with_button & 8u8 == 0 && with_button & 16u8 == 0 && (with_button | 8u8)
            & 7u8 == with_button & 7u8 && (with_button | 16u8) & 7u8 == with_button & 7u8
            && forall|k: u8|
            k <= 2 ==> ((with_button | 8u8) & (1u8 << k)) == (with_button & (1u8 << k)) && ((
            with_button | 16u8) & (1u8 << k)) == (with_button & (1u8 << k))) by (bit_vector);
        assert(with_button & 0xf8u8 == 0 ==> forall|k: u8| k <= 2 ==> ((with_button & 7u8) & (1u8 << k)) == (with_button & (1u8 << k))) by (bit_vector);
    }
    cur
}


/// The RFB button mask after a mouse event, over all masks and events:
/// bits 5-7 are always clear; an event naming a button other than 0
/// (left), 1 (middle) or 2 (right) leaves exactly the held buttons,
/// `mask & 7`; otherwise the named button's bit follows `pressed`, the
/// other two button bits keep their value, bit 3 is set exactly when the
/// event scrolls up (a positive delta) and bit 4 exactly when it scrolls
/// down (a negative delta).
pub proof fn law_button_mask(mask: u8, button: Option<u8>, pressed: bool, scroll: Option<i16>)
    ensures
        ({
            let m = spec_button_mask(mask, button, pressed, scroll);
            &&& m & 0xe0u8 == 0
            &&& button matches Some(b) ==> (b > 2 ==> m == mask & 7u8)
            &&& button is None ==> m & 7u8 == mask & 7u8
            &&& button matches Some(b) ==> (b <= 2 ==> ((m & (1u8 << b)) != 0) == pressed)
            &&& button matches Some(b) ==> (b <= 2 ==> forall|k: u8|
                k <= 2 && k != b ==> (m & (1u8 << k)) == (mask & (1u8 << k)))
            &&& (button is None || button->0 <= 2) ==> ((m & 8u8) != 0 <==> (scroll matches Some(d) && d > 0))
            &&& (button is None || button->0 <= 2) ==> ((m & 16u8) != 0 <==> (scroll matches Some(d) && d < 0))
        }),
{
    let held = mask & 7u8;
    let m = spec_button_mask(mask, button, pressed, scroll);
    assert(held & 0xf8u8 == 0) by (bit_vector)
        requires
            held == mask & 7u8,
    ;
    assert(held & 0xe0u8 == 0) by (bit_vector)
        requires
            held & 0xf8u8 == 0,
    ;
    if button is Some && button->0 > 2 {
        assert(m == held);
    } else {
        let with_button = match button {
            Some(b) => if pressed {
                held | (1u8 << b)
            } else {
                held & !(1u8 << b)
            },
            None => held,
        };
        match button {
            Some(b) => {
                let bit = 1u8 << b;
                assert(b <= 2 && held & 0xf8u8 == 0 && bit == 1u8 << b ==> (held | bit) & 0xf8u8 == 0
                    && (held & !bit) & 0xf8u8 == 0 && ((held | bit) & bit != 0) && ((held & !bit) & bit
                    == 0) && forall|k: u8|
                    k <= 2 && k != b ==> ((held | bit) & (1u8 << k)) == (held & (1u8 << k)) && ((held
                        & !bit) & (1u8 << k)) == (held & (1u8 << k))) by (bit_vector);
                assert(held == mask & 7u8 ==> forall|k: u8| k <= 2 ==> (held & (1u8 << k)) == (mask & (1u8 << k))) by (bit_vector);
            },
            None => {
                assert(held == mask & 7u8 ==> held & 7u8 == mask & 7u8) by (bit_vector);
            },
        }
        assert(with_button & 0xf8u8 == 0);
        assert(with_button & 0xf8u8 == 0 ==> (with_button | 8u8) & 0xe0u8 == 0 && (with_button | 16u8)
            & 0xe0u8 == 0 && with_button & 0xe0u8 == 0 && (with_button | 8u8) & 8u8 != 0 && (
        with_button | 8u8) & 16u8 == 0 && (with_button | 16u8) & 16u8 != 0 && (with_button | 16u8)
            & 8u8 == 0 && with_button & 8u8 == 0 && with_button & 16u8 == 0 && (with_button | 8u8)
            & 7u8 == with_button & 7u8 && (with_button | 16u8) & 7u8 == with_button & 7u8
            && forall|k: u8|
            k <= 2 ==> ((with_button | 8u8) & (1u8 << k)) == (with_button & (1u8 << k)) && ((
            with_button | 16u8) & (1u8 << k)) == (with_button & (1u8 << k))) by (bit_vector);
    }
}


// ── Tiling an updated region ──────────────────────────────────────

/// Number of tiles along a side of `len` pixels.
pub open spec fn tile_count(len: int) -> int {
    (len + 255) / 256
}

/// The smaller of `a` and `b`.
pub open spec fn min_int(a: int, b: int) -> int {
    if a <= b { a } else { b }
}

/// The tile in row `i` and column `j` of a `width` by `height` region,
/// relative to the region's top-left corner.
pub open spec fn tile_at(width: int, height: int, i: int, j: int) -> FrameRect {
    FrameRect {
        x: (j * 256) as u16,
        y: (i * 256) as u16,
        width: min_int(256, width - j * 256) as u16,
        height: min_int(256, height - i * 256) as u16,
    }
}

/// The tiles of the first `rows` rows of tiles, row by row, left to right.
pub open spec fn tile_grid(width: int, height: int, rows: nat) -> Seq<FrameRect>
    decreases rows,
{
    if rows == 0 {
        Seq::empty()
    } else {
        tile_grid(width, height, (rows - 1) as nat) + Seq::new(
            tile_count(width) as nat,
            |j: int| tile_at(width, height, rows - 1, j),
        )
    }
}

/// All tiles of a `width` by `height` region: at most 256 by 256 pixels
/// each, row by row, left to right.
pub open spec fn region_tiles(width: int, height: int) -> Seq<FrameRect> {
    tile_grid(width, height, tile_count(height) as nat)
}

/// Whether the tile positions of `rect` can be told in 16-bit desktop
/// coordinates (and the tile walk of the region does not overflow).
pub open spec fn tiles_addressable(rect: FrameRect) -> bool {
    &&& rect.height <= 65280
    &&& (rect.height == 0 || rect.width <= 65280)
    &&& (rect.height == 0 || rect.width == 0 || (rect.x + ((rect.width - 1) / 256) * 256 <= 65535
        && rect.y + ((rect.height - 1) / 256) * 256 <= 65535))
}

/// Whether `p` is the frame event for tile `t` of an update of `rect` with
/// pixel data `data`, on connection `conn` of a `fb_width` by `fb_height`
/// desktop.
pub open spec fn is_tile_payload(
    p: VncFramePayload,
    conn: Seq<char>,
    fb_width: u16,
    fb_height: u16,
    rect: FrameRect,
    data: Seq<u8>,
    t: FrameRect,
) -> bool {
    &&& p.connection_id@ == conn
    &&& p.full_width == fb_width
    &&& p.full_height == fb_height
    &&& p.x == rect.x + t.x
    &&& p.y == rect.y + t.y
    &&& p.width == t.width
    &&& p.height == t.height
    &&& p.data@ == base64_standard(spec_extract_rect(data, rect.width, t))
}

/// The frame events for an update of `rect` with pixel data `data`: one
/// per tile of at most 256 by 256 pixels, row by row, each carrying the
/// tile's pixels in base64.
pub fn frame_tiles(
    connection_id: &str,
    fb_width: u16,
    fb_height: u16,
    rect: &FrameRect,
    data: &[u8],
) -> (out: Vec<VncFramePayload>)
    requires
        tiles_addressable(*rect),
    ensures
        out.len() == region_tiles(rect.width as int, rect.height as int).len(),
        forall|k: int|
            0 <= k < out.len() ==> is_tile_payload(
                #[trigger] out@[k],
                connection_id@,
                fb_width,
                fb_height,
                *rect,
                data@,
                region_tiles(rect.width as int, rect.height as int)[k],
            ),
{
    let w: u32 = rect.width as u32;
    let h: u32 = rect.height as u32;
    let cols: u32 = (w + 255) / 256;
    let rows: u32 = (h + 255) / 256;
    let ghost gw = w as int;
    let ghost gh = h as int;
    let mut out: Vec<VncFramePayload> = Vec::new();
    let mut i: u32 = 0;
    while i < rows
        invariant
            w == rect.width,
            h == rect.height,
            gw == w,
            gh == h,
            cols == tile_count(gw),
            rows == tile_count(gh),
            tiles_addressable(*rect),
            i <= rows,
            out.len() == tile_grid(gw, gh, i as nat).len(),
            forall|k: int|
                0 <= k < out.len() ==> is_tile_payload(
                    #[trigger] out@[k],
                    connection_id@,
                    fb_width,
                    fb_height,
                    *rect,
                    data@,
                    tile_grid(gw, gh, i as nat)[k],
                ),
        decreases rows - i,
    {
        let ghost before = tile_grid(gw, gh, i as nat);
        let ghost row_tiles = Seq::new(tile_count(gw) as nat, |j: int| tile_at(gw, gh, i as int, j));
        let ghost base = out.len() as int;
        let mut j: u32 = 0;
        while j < cols
            invariant
                w == rect.width,
                h == rect.height,
                gw == w,
                gh == h,
                cols == tile_count(gw),
                rows == tile_count(gh),
                tiles_addressable(*rect),
                i < rows,
                j <= cols,
                before == tile_grid(gw, gh, i as nat),
                row_tiles == Seq::new(tile_count(gw) as nat, |j: int| tile_at(gw, gh, i as int, j)),
                base == before.len(),
                out.len() == base + j,
                forall|k: int|
                    0 <= k < out.len() ==> is_tile_payload(
                        #[trigger] out@[k],
                        connection_id@,
                        fb_width,
                        fb_height,
                        *rect,
                        data@,
                        (before + row_tiles)[k],
                    ),
            decreases cols - j,
        {
            let tx: u32 = j * 256;
            let ty: u32 = i * 256;
            let tw: u32 = if w - tx < 256 { w - tx } else { 256 };
            let th: u32 = if h - ty < 256 { h - ty } else { 256 };
            assert(tx <= w - 1 && ty <= h - 1);
            assert(rect.x + tx <= 65535 && rect.y + ty <= 65535);
            let tile = FrameRect { x: tx as u16, y: ty as u16, width: tw as u16, height: th as u16 };
            assert(tile == tile_at(gw, gh, i as int, j as int));
            let pixels = extract_rect_from_framebuffer(data, rect.width, &tile);
            let payload = VncFramePayload {
                connection_id: String::from_str(connection_id),
                full_width: fb_width,
                full_height: fb_height,
                x: rect.x + tx as u16,
                y: rect.y + ty as u16,
                width: tw as u16,
                height: th as u16,
                data: base64_encode(pixels.as_slice()),
            };
            let ghost old_out = out@;
            out.push(payload);
            proof {
                assert(row_tiles[j as int] == tile);
                assert((before + row_tiles)[base + j] == tile);
                assert forall|k: int| 0 <= k < out.len() implies is_tile_payload(
                    #[trigger] out@[k],
                    connection_id@,
                    fb_width,
                    fb_height,
                    *rect,
                    data@,
                    (before + row_tiles)[k],
                ) by {
                    if k < old_out.len() {
                        assert(out@[k] == old_out[k]);
                    }
                }
            }
            j = j + 1;
        }
        proof {
            assert(tile_grid(gw, gh, (i + 1) as nat) == before + row_tiles);
        }
        i = i + 1;
    }
    out
}



// ── The session loop ──────────────────────────────────────────────

/// What the server sent, as the session loop reads it.
#[derive(Debug, Clone)]
pub enum VncServerEvent {
    /// The desktop size changed.
    SetResolution { width: u16, height: u16 },
    /// The RGBA pixels of a rectangle, row by row.
    RawImage { rect: FrameRect, data: Vec<u8> },
    /// Copy the pixels of `src` to `dst`.
    Copy { dst: FrameRect, src: FrameRect },
    /// The server's clipboard text.
    Text(String),
    /// A JPEG-encoded rectangle, which this client does not decode.
    JpegImage,
    /// An error reported by the connection, with its message.
    Error(String),
    /// Polling the connection failed, with the failure's message.
    PollFailed(String),
    /// Anything else: a bell, a cursor shape, a pixel format, no event.
    Other,
}

/// What the session loop does after a server event.
#[derive(Debug, Clone)]
pub enum VncServerAction {
    /// Emit these frame events.
    Frames(Vec<VncFramePayload>),
    /// Emit this clipboard event.
    Clipboard(VncClipboardPayload),
    /// Ask the server for an update, in place of a JPEG rectangle.
    Refresh,
    /// Nothing to do.
    Continue,
    /// End the session, for this reason.
    End(String),
}

/// What the frontend asked of the session.
#[derive(Debug, Clone)]
pub enum VncClientInput {
    Mouse(VncMouseEvent),
    Key(VncKeyEvent),
    Clipboard(String),
    /// The frontend disconnected, or the input channel closed.
    Disconnect,
}

/// What the session loop sends the server after a frontend input.
#[derive(Debug, Clone)]
pub enum VncClientAction {
    /// A pointer event with the position and the buttons held.
    Pointer { x: u16, y: u16, buttons: u8 },
    /// A key event by X11 keysym.
    Key { keysym: u32, down: bool },
    /// Clipboard text for the server.
    CopyText(String),
    /// End the session, for this reason.
    End(String),
}

/// Whether a server event can be applied to the screen: a new desktop
/// must fit in memory, and every tile of an updated region must lie on
/// the 16-bit desktop.
pub open spec fn server_event_in_range(e: VncServerEvent) -> bool {
    match e {
        VncServerEvent::SetResolution { width, height } => screen_fits(width, height),
        VncServerEvent::RawImage { rect, data } => tiles_addressable(rect),
        VncServerEvent::Copy { dst, src } => tiles_addressable(dst),
        _ => true,
    }
}

/// The reason a session ends after an error event.
pub open spec fn vnc_error_reason(msg: Seq<char>) -> Seq<char> {
    "VNC error: "@ + msg
}

/// The reason a session ends after polling failed.
pub open spec fn poll_error_reason(msg: Seq<char>) -> Seq<char> {
    "VNC poll error: "@ + msg
}

/// The reason a session ends when the frontend leaves.
pub open spec fn client_disconnect_reason() -> Seq<char> {
    "disconnected by client"@
}

// ── The session's screen ──────────────────────────────────────────

/// A zeroed buffer of `len` bytes.
fn zeroed(len: usize) -> (v: Vec<u8>)
    ensures
        v@ == Seq::new(len as nat, |i: int| 0u8),
{
    let mut v: Vec<u8> = Vec::new();
    let mut i: usize = 0;
    while i < len
        invariant
            i <= len,
            v@ == Seq::new(i as nat, |k: int| 0u8),
        decreases len - i,
    {
        v.push(0u8);
        i = i + 1;
        proof {
            assert(v@ =~= Seq::new(i as nat, |k: int| 0u8));
        }
    }
    v
}

/// Whether a `width` by `height` RGBA buffer can be held in memory.
pub open spec fn screen_fits(width: u16, height: u16) -> bool {
    width * height * 4 <= usize::MAX
}

/// The client's view of the remote screen during a VNC session: its size,
/// its pixels, and the mouse buttons held down.
pub struct VncScreen {
    pub width: u16,
    pub height: u16,
    pub framebuffer: Vec<u8>,
    pub button_mask: u8,
}

impl VncScreen {
    /// A black screen of the default size, no button held.
    pub fn new() -> (s: Self)
        ensures
            s.width == DEFAULT_WIDTH,
            s.height == DEFAULT_HEIGHT,
            s.framebuffer@ == Seq::new((DEFAULT_WIDTH * DEFAULT_HEIGHT * 4) as nat, |i: int| 0u8),
            s.button_mask == 0,
    {
        let len: usize = 1920 * 1080 * 4;
        VncScreen { width: DEFAULT_WIDTH, height: DEFAULT_HEIGHT, framebuffer: zeroed(len), button_mask: 0 }
    }

    /// The server changed the desktop size: the screen becomes a black
    /// screen of that size.
    pub fn set_resolution(&mut self, width: u16, height: u16)
        requires
            screen_fits(width, height),
        ensures
            final(self).width == width,
            final(self).height == height,
            final(self).framebuffer@ == Seq::new((width * height * 4) as nat, |i: int| 0u8),
            final(self).button_mask == old(self).button_mask,
    {
        let len: u64 = width as u64 * height as u64 * 4;
        self.width = width;
        self.height = height;
        self.framebuffer = zeroed(len as usize);
    }

    /// The server sent the pixels of `rect`: the screen is updated and the
    /// frame events for the rectangle, tile by tile, are returned.
    pub fn raw_image(&mut self, connection_id: &str, rect: &FrameRect, data: &[u8]) -> (out: Vec<VncFramePayload>)
        requires
            tiles_addressable(*rect),
        ensures
            final(self).framebuffer@ == spec_update_framebuffer(
                old(self).framebuffer@,
                old(self).width,
                *rect,
                data@,
            ),
            final(self).width == old(self).width,
            final(self).height == old(self).height,
            final(self).button_mask == old(self).button_mask,
            out.len() == region_tiles(rect.width as int, rect.height as int).len(),
            forall|k: int|
                0 <= k < out.len() ==> is_tile_payload(
                    #[trigger] out@[k],
                    connection_id@,
                    old(self).width,
                    old(self).height,
                    *rect,
                    data@,
                    region_tiles(rect.width as int, rect.height as int)[k],
                ),
    {
        update_framebuffer(&mut self.framebuffer, self.width, rect, data);
        frame_tiles(connection_id, self.width, self.height, rect, data)
    }

    /// The server asked to copy `src` to `dst`: the screen is updated and
    /// the frame events for the destination, tile by tile, are returned.
    pub fn copy_rect(&mut self, connection_id: &str, dst: &FrameRect, src: &FrameRect) -> (out: Vec<
        VncFramePayload,
    >)
        requires
            tiles_addressable(*dst),
        ensures
            final(self).framebuffer@ == spec_copy_framebuffer_rect(
                old(self).framebuffer@,
                old(self).width,
                *src,
                *dst,
            ),
            final(self).width == old(self).width,
            final(self).height == old(self).height,
            final(self).button_mask == old(self).button_mask,
            out.len() == region_tiles(dst.width as int, dst.height as int).len(),
            forall|k: int|
                0 <= k < out.len() ==> is_tile_payload(
                    #[trigger] out@[k],
                    connection_id@,
                    old(self).width,
                    old(self).height,
                    *dst,
                    spec_extract_rect(final(self).framebuffer@, old(self).width, *dst),
                    region_tiles(dst.width as int, dst.height as int)[k],
                ),
    {
        copy_framebuffer_rect(&mut self.framebuffer, self.width, src, dst);
        let pixels = extract_rect_from_framebuffer(self.framebuffer.as_slice(), self.width, dst);
        frame_tiles(connection_id, self.width, self.height, dst, pixels.as_slice())
    }

    /// A mouse event from the frontend: the held buttons are updated and
    /// the pointer position with the new button mask is returned.
    pub fn pointer(&mut self, event: &VncMouseEvent) -> (r: (u16, u16, u8))
        ensures
            final(self).button_mask == spec_button_mask(
                old(self).button_mask,
                event.button,
                event.pressed,
                event.scroll_delta,
            ),
            r == (event.x, event.y, final(self).button_mask),
            final(self).width == old(self).width,
            final(self).height == old(self).height,
            final(self).framebuffer == old(self).framebuffer,
    {
        self.button_mask = update_button_mask(self.button_mask, event);
        (event.x, event.y, self.button_mask)
    }

    /// A server event: the screen is updated and the session loop is told
    /// what to emit, to ask for, or that the session ends.
    pub fn server_event(&mut self, connection_id: &str, event: VncServerEvent) -> (a: VncServerAction)
        requires
            server_event_in_range(event),
        ensures
            final(self).button_mask == old(self).button_mask,
            match event {
                VncServerEvent::SetResolution { width, height } => {
                    &&& final(self).width == width
                    &&& final(self).height == height
                    &&& final(self).framebuffer@ == Seq::new((width * height * 4) as nat, |i: int| 0u8)
                    &&& a is Continue
                },
                VncServerEvent::RawImage { rect, data } => {
                    &&& final(self).width == old(self).width
                    &&& final(self).height == old(self).height
                    &&& final(self).framebuffer@ == spec_update_framebuffer(
                        old(self).framebuffer@,
                        old(self).width,
                        rect,
                        data@,
                    )
                    &&& a matches VncServerAction::Frames(out)
                    &&& out.len() == region_tiles(rect.width as int, rect.height as int).len()
                    &&& forall|k: int|
                        0 <= k < out.len() ==> is_tile_payload(
                            #[trigger] out@[k],
                            connection_id@,
                            old(self).width,
                            old(self).height,
                            rect,
                            data@,
                            region_tiles(rect.width as int, rect.height as int)[k],
                        )
                },
                VncServerEvent::Copy { dst, src } => {
                    &&& final(self).width == old(self).width
                    &&& final(self).height == old(self).height
                    &&& final(self).framebuffer@ == spec_copy_framebuffer_rect(
                        old(self).framebuffer@,
                        old(self).width,
                        src,
                        dst,
                    )
                    &&& a matches VncServerAction::Frames(out)
                    &&& out.len() == region_tiles(dst.width as int, dst.height as int).len()
                    &&& forall|k: int|
                        0 <= k < out.len() ==> is_tile_payload(
                            #[trigger] out@[k],
                            connection_id@,
                            old(self).width,
                            old(self).height,
                            dst,
                            spec_extract_rect(final(self).framebuffer@, old(self).width, dst),
                            region_tiles(dst.width as int, dst.height as int)[k],
                        )
                },
                VncServerEvent::Text(text) => {
                    &&& *final(self) == *old(self)
                    &&& a matches VncServerAction::Clipboard(p)
                    &&& p.connection_id@ == connection_id@
                    &&& p.text@ == text@
                },
                VncServerEvent::JpegImage => *final(self) == *old(self) && a is Refresh,
                VncServerEvent::Error(msg) => {
                    &&& *final(self) == *old(self)
                    &&& a matches VncServerAction::End(r) && r@ == vnc_error_reason(msg@)
                },
                VncServerEvent::PollFailed(msg) => {
                    &&& *final(self) == *old(self)
                    &&& a matches VncServerAction::End(r) && r@ == poll_error_reason(msg@)
                },
                VncServerEvent::Other => *final(self) == *old(self) && a is Continue,
            },
    {
        match event {
            VncServerEvent::SetResolution { width, height } => {
                self.set_resolution(width, height);
                VncServerAction::Continue
            },
            VncServerEvent::RawImage { rect, data } => {
                VncServerAction::Frames(self.raw_image(connection_id, &rect, data.as_slice()))
            },
            VncServerEvent::Copy { dst, src } => {
                VncServerAction::Frames(self.copy_rect(connection_id, &dst, &src))
            },
            VncServerEvent::Text(text) => {
                VncServerAction::Clipboard(
                    VncClipboardPayload { connection_id: String::from_str(connection_id), text },
                )
            },
            VncServerEvent::JpegImage => VncServerAction::Refresh,
            VncServerEvent::Error(msg) => {
                VncServerAction::End(String::from_str("VNC error: ").concat(msg.as_str()))
            },
            VncServerEvent::PollFailed(msg) => {
                VncServerAction::End(String::from_str("VNC poll error: ").concat(msg.as_str()))
            },
            VncServerEvent::Other => VncServerAction::Continue,
        }
    }

    /// A frontend input: mouse events update the held buttons and become
    /// pointer events, keys and clipboard text are passed on, and a
    /// disconnect ends the session.
    pub fn client_input(&mut self, input: VncClientInput) -> (a: VncClientAction)
        ensures
            final(self).width == old(self).width,
            final(self).height == old(self).height,
            final(self).framebuffer == old(self).framebuffer,
            match input {
                VncClientInput::Mouse(e) => {
                    let mask = spec_button_mask(old(self).button_mask, e.button, e.pressed, e.scroll_delta);
                    &&& final(self).button_mask == mask
                    &&& a == VncClientAction::Pointer { x: e.x, y: e.y, buttons: mask }
                },
                VncClientInput::Key(e) => {
                    &&& final(self).button_mask == old(self).button_mask
                    &&& a == VncClientAction::Key { keysym: e.keysym, down: e.pressed }
                },
                VncClientInput::Clipboard(text) => {
                    &&& final(self).button_mask == old(self).button_mask
                    &&& a matches VncClientAction::CopyText(t) && t@ == text@
                },
                VncClientInput::Disconnect => {
                    &&& final(self).button_mask == old(self).button_mask
                    &&& a matches VncClientAction::End(r) && r@ == client_disconnect_reason()
                },
            },
    {
        match input {
            VncClientInput::Mouse(e) => {
                let (x, y, buttons) = self.pointer(&e);
                VncClientAction::Pointer { x, y, buttons }
            },
            VncClientInput::Key(e) => VncClientAction::Key { keysym: e.keysym, down: e.pressed },
            VncClientInput::Clipboard(text) => VncClientAction::CopyText(text),
            VncClientInput::Disconnect => VncClientAction::End(String::from_str("disconnected by client")),
        }
    }
}

} // verus!

verus! {

// ── Laws of tiling ────────────────────────────────────────────────

/// A tile of a `width` by `height` region, relative to its top-left
/// corner: it starts inside the region on a multiple of 256 in each
/// direction, and reaches 256 pixels further or to the region's edge.
pub open spec fn tile_shape(width: int, height: int, t: FrameRect) -> bool {
    &&& 0 <= t.x < width
    &&& 0 <= t.y < height
    &&& t.x % 256 == 0
    &&& t.y % 256 == 0
    &&& t.width == min_int(256, width - t.x)
    &&& t.height == min_int(256, height - t.y)
}

/// Whether a tile at desktop position `(x, y)`, `w` by `h` pixels, is a
/// tile of the update of `rect`: it lies inside `rect`, starts a multiple
/// of 256 pixels from its top-left corner in each direction, and reaches
/// 256 pixels further or to the edge of `rect`.
pub open spec fn tile_placed_in(rect: FrameRect, x: int, y: int, w: int, h: int) -> bool {
    &&& rect.x <= x < rect.x + rect.width
    &&& rect.y <= y < rect.y + rect.height
    &&& (x - rect.x) % 256 == 0
    &&& (y - rect.y) % 256 == 0
    &&& w == min_int(256, rect.x + rect.width - x)
    &&& h == min_int(256, rect.y + rect.height - y)
}

/// Offset in row-major RGBA pixels `src_width` pixels wide of pixel
/// `(x, y + r)`.
pub open spec fn pixel_start(src_width: int, x: int, y: int, r: int) -> int {
    (y + r) * (src_width * 4) + x * 4
}

/// Whether `b` holds the first `k` of the `h` rows, `w` pixels wide, that
/// start at pixel `(x, y)` of row-major RGBA pixels `src` that are
/// `src_width` pixels wide: the rows that lie within `src`, up to the
/// first that does not.
pub open spec fn holds_rows_from(b: Seq<u8>, src: Seq<u8>, src_width: int, x: int, y: int, w: int, h: int, k: nat) -> bool {
    &&& k <= h
    &&& b.len() == k * (w * 4)
    &&& forall|r: int| 0 <= r < k ==> #[trigger] pixel_start(src_width, x, y, r) + w * 4 <= src.len()
    &&& k < h ==> pixel_start(src_width, x, y, k as int) + w * 4 > src.len()
    &&& forall|r: int, j: int|
        0 <= r < k && 0 <= j < w * 4 ==> #[trigger] b[r * (w * 4) + j] == src[pixel_start(src_width, x, y, r) + j]
}

proof fn lemma_tile_at_shape(width: int, height: int, i: int, j: int)
    requires
        0 < width <= 65535,
        0 < height <= 65535,
        0 <= i < tile_count(height),
        0 <= j < tile_count(width),
    ensures
        tile_shape(width, height, tile_at(width, height, i, j)),
{
    assert(j * 256 < width) by (nonlinear_arith)
        requires
            0 <= j,
            j < (width + 255) / 256,
            0 < width,
    ;
    assert(i * 256 < height) by (nonlinear_arith)
        requires
            0 <= i,
            i < (height + 255) / 256,
            0 < height,
    ;
    assert(0 <= j * 256 && 0 <= i * 256) by (nonlinear_arith)
        requires
            0 <= i,
            0 <= j,
    ;
    let t = tile_at(width, height, i, j);
    assert(t.x == j * 256);
    assert(t.y == i * 256);
    assert((j * 256) % 256 == 0) by (nonlinear_arith);
    assert((i * 256) % 256 == 0) by (nonlinear_arith);
}

proof fn lemma_grid_shape(width: int, height: int, rows: nat)
    requires
        0 <= width <= 65535,
        0 <= height <= 65535,
        rows <= tile_count(height),
    ensures
        tile_grid(width, height, rows).len() == rows * tile_count(width),
        forall|k: int|
            0 <= k < tile_grid(width, height, rows).len() ==> tile_shape(
                width,
                height,
                #[trigger] tile_grid(width, height, rows)[k],
            ),
        forall|i: int, j: int|
            0 <= i < rows && 0 <= j < tile_count(width) ==> #[trigger] tile_grid(width, height, rows)[i
                * tile_count(width) + j] == tile_at(width, height, i, j),
    decreases rows,
{
    let cols = tile_count(width);
    assert(0 <= cols);
    if rows == 0 {
        assert(0 * cols == 0);
    } else {
        let m = (rows - 1) as nat;
        lemma_grid_shape(width, height, m);
        let prev = tile_grid(width, height, m);
        let row = Seq::new(cols as nat, |j: int| tile_at(width, height, rows - 1, j));
        let g = tile_grid(width, height, rows);
        assert(g == prev + row);
        assert(m * cols + cols == rows * cols) by (nonlinear_arith)
            requires
                m + 1 == rows,
        ;
        assert forall|k: int| 0 <= k < g.len() implies tile_shape(width, height, #[trigger] g[k]) by {
            if k < prev.len() {
                assert(g[k] == prev[k]);
            } else {
                let j = k - prev.len();
                assert(g[k] == row[j]);
                assert(height > 0);
                assert(width > 0);
                lemma_tile_at_shape(width, height, rows - 1, j);
            }
        }
        assert forall|i: int, j: int| 0 <= i < rows && 0 <= j < cols implies #[trigger] g[i * cols + j] == tile_at(
            width,
            height,
            i,
            j,
        ) by {
            if i < m {
                assert(i * cols + j < m * cols) by (nonlinear_arith)
                    requires
                        i + 1 <= m,
                        0 <= j < cols,
                ;
                assert(0 <= i * cols) by (nonlinear_arith)
                    requires
                        0 <= i,
                        0 <= cols,
                ;
                assert(g[i * cols + j] == prev[i * cols + j]);
            } else {
                assert(i == m);
                assert(g[i * cols + j] == row[j]);
            }
        }
    }
}

/// The tiles of a region cover it, row of tiles by row of tiles, left to
/// right: with `cols = (width + 255) / 256` tiles across and
/// `(height + 255) / 256` down, tile `i * cols + j` starts `256 * j`
/// pixels right of the region's left edge and `256 * i` below its top, and
/// every tile lies inside the region, on that 256-pixel grid.
pub proof fn law_region_tiles_shape(width: int, height: int)
    requires
        0 <= width <= 65535,
        0 <= height <= 65535,
    ensures
        region_tiles(width, height).len() == ((width + 255) / 256) * ((height + 255) / 256),
        forall|k: int|
            0 <= k < region_tiles(width, height).len() ==> tile_shape(
                width,
                height,
                #[trigger] region_tiles(width, height)[k],
            ),
        forall|i: int, j: int|
            0 <= i < (height + 255) / 256 && 0 <= j < (width + 255) / 256 ==> {
                let t = #[trigger] region_tiles(width, height)[i * ((width + 255) / 256) + j];
                t.x == 256 * j && t.y == 256 * i
            },
{
    lemma_grid_shape(width, height, tile_count(height) as nat);
    assert(tile_count(height) * tile_count(width) == ((width + 255) / 256) * ((height + 255) / 256)) by (nonlinear_arith)
        requires
            tile_count(height) == (height + 255) / 256,
            tile_count(width) == (width + 255) / 256,
    ;
    assert forall|i: int, j: int| 0 <= i < (height + 255) / 256 && 0 <= j < (width + 255) / 256 implies {
        let t = #[trigger] region_tiles(width, height)[i * ((width + 255) / 256) + j];
        t.x == 256 * j && t.y == 256 * i
    } by {
        assert(region_tiles(width, height)[i * tile_count(width) + j] == tile_at(width, height, i, j));
        lemma_tile_at_shape(width, height, i, j);
    }
}

/// Every frame event of a VNC update of `rect` with pixel data `data` (as
/// `frame_tiles`, `raw_image` and `copy_rect` give them) is a tile of
/// `rect` at its own position, and carries in base64 the pixels of the
/// data at that position: the rows of the tile, from the tile's own
/// column and row of the region on, as far as the data reaches.
pub proof fn law_frame_tiles_in_place(
    conn: Seq<char>,
    fb_width: u16,
    fb_height: u16,
    rect: FrameRect,
    data: Seq<u8>,
    out: Seq<VncFramePayload>,
)
    requires
        tiles_addressable(rect),
        out.len() == region_tiles(rect.width as int, rect.height as int).len(),
        forall|k: int|
            0 <= k < out.len() ==> is_tile_payload(
                #[trigger] out[k],
                conn,
                fb_width,
                fb_height,
                rect,
                data,
                region_tiles(rect.width as int, rect.height as int)[k],
            ),
    ensures
        forall|k: int|
            0 <= k < out.len() ==> {
                let p = #[trigger] out[k];
                &&& p.connection_id@ == conn
                &&& p.full_width == fb_width
                &&& p.full_height == fb_height
                &&& tile_placed_in(rect, p.x as int, p.y as int, p.width as int, p.height as int)
                &&& exists|b: Seq<u8>, n: nat|
                    p.data@ == base64_standard(b) && #[trigger] holds_rows_from(
                        b,
                        data,
                        rect.width as int,
                        p.x - rect.x,
                        p.y - rect.y,
                        p.width as int,
                        p.height as int,
                        n,
                    )
            },
{
    let tiles = region_tiles(rect.width as int, rect.height as int);
    law_region_tiles_shape(rect.width as int, rect.height as int);
    assert forall|k: int| 0 <= k < out.len() implies {
        let p = #[trigger] out[k];
        &&& p.connection_id@ == conn
        &&& p.full_width == fb_width
        &&& p.full_height == fb_height
        &&& tile_placed_in(rect, p.x as int, p.y as int, p.width as int, p.height as int)
        &&& exists|b: Seq<u8>, n: nat|
            p.data@ == base64_standard(b) && #[trigger] holds_rows_from(
                b,
                data,
                rect.width as int,
                p.x - rect.x,
                p.y - rect.y,
                p.width as int,
                p.height as int,
                n,
            )
    } by {
        let p = out[k];
        let t = tiles[k];
        assert(is_tile_payload(p, conn, fb_width, fb_height, rect, data, t));
        assert(tile_shape(rect.width as int, rect.height as int, t));
        assert(p.x - rect.x == t.x);
        assert(p.y - rect.y == t.y);
        crate::framebuffer::law_extract_reads_rows(data, rect.width, t);
        let b = spec_extract_rect(data, rect.width, t);
        let n = crate::framebuffer::extract_rows(data.len() as int, rect.width, t);
        assert forall|r: int| 0 <= r < n implies #[trigger] pixel_start(rect.width as int, t.x as int, t.y as int, r)
            + t.width * 4 <= data.len() by {
            assert(crate::framebuffer::extract_row_fits(data.len() as int, rect.width, t, r));
        }
        assert forall|r: int, j: int| 0 <= r < n && 0 <= j < t.width * 4 implies #[trigger] b[r * (t.width * 4) + j]
            == data[pixel_start(rect.width as int, t.x as int, t.y as int, r) + j] by {
            assert(b[r * crate::framebuffer::row_bytes(t) + j] == data[crate::framebuffer::row_offset(rect.width, t, r) + j]);
        }
        assert(holds_rows_from(b, data, rect.width as int, t.x as int, t.y as int, t.width as int, t.height as int, n));
    }
}

} // verus!
