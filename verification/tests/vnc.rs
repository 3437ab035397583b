use rxterm::framebuffer::FrameRect;
use rxterm::vnc::frame_tiles;
use rxterm::vnc::update_button_mask;
use rxterm::vnc::VncClientAction;
use rxterm::vnc::VncClientInput;
use rxterm::vnc::VncKeyEvent;
use rxterm::vnc::VncMouseEvent;
use rxterm::vnc::VncScreen;
use rxterm::vnc::VncServerAction;
use rxterm::vnc::VncServerEvent;

fn mouse(button: Option<u8>, pressed: bool, scroll_delta: Option<i16>) -> VncMouseEvent {
    VncMouseEvent { x: 5, y: 6, button, pressed, scroll_delta }
}

#[test]
fn button_press_and_release() {
    assert_eq!(update_button_mask(0, &mouse(Some(0), true, None)), 0b001);
    assert_eq!(update_button_mask(0b001, &mouse(Some(2), true, None)), 0b101);
    assert_eq!(update_button_mask(0b101, &mouse(Some(0), false, None)), 0b100);
    assert_eq!(update_button_mask(0b010, &mouse(None, false, None)), 0b010);
}

#[test]
fn scroll_bits_are_momentary() {
    assert_eq!(update_button_mask(0b001, &mouse(None, false, Some(3))), 0b01001);
    assert_eq!(update_button_mask(0b01001, &mouse(None, false, Some(-1))), 0b10001);
    assert_eq!(update_button_mask(0b10001, &mouse(None, false, Some(0))), 0b00001);
    assert_eq!(update_button_mask(0xff, &mouse(None, false, None)), 0b111);
}

#[test]
fn unknown_button_keeps_held_buttons_and_ignores_scroll() {
    assert_eq!(update_button_mask(0b01011, &mouse(Some(5), true, Some(2))), 0b011);
}

#[test]
fn tiles_of_a_large_region() {
    let data: Vec<u8> = (0..(300u32 * 2 * 4)).map(|i| (i % 251) as u8).collect();
    let r = FrameRect { x: 10, y: 20, width: 300, height: 2 };
    let tiles = frame_tiles("c1", 1920, 1080, &r, &data);
    assert_eq!(tiles.len(), 2);
    assert_eq!((tiles[0].x, tiles[0].y, tiles[0].width, tiles[0].height), (10, 20, 256, 2));
    assert_eq!((tiles[1].x, tiles[1].y, tiles[1].width, tiles[1].height), (266, 20, 44, 2));
    assert_eq!(tiles[1].connection_id, "c1");
    assert_eq!(tiles[1].full_width, 1920);
    assert_eq!(tiles[1].full_height, 1080);
    let mut expected = Vec::new();
    for row in 0..2usize {
        let start = row * 300 * 4 + 256 * 4;
        expected.extend_from_slice(&data[start..start + 44 * 4]);
    }
    assert_eq!(tiles[1].data, rxterm::framebuffer::base64_encode(&expected));
}

#[test]
fn tiles_row_by_row() {
    let data = vec![1u8; 260 * 260 * 4];
    let r = FrameRect { x: 0, y: 0, width: 260, height: 260 };
    let tiles = frame_tiles("c", 1, 1, &r, &data);
    let places: Vec<(u16, u16, u16, u16)> = tiles.iter().map(|t| (t.x, t.y, t.width, t.height)).collect();
    assert_eq!(places, vec![(0, 0, 256, 256), (256, 0, 4, 256), (0, 256, 256, 4), (256, 256, 4, 4)]);
}

#[test]
fn no_tiles_for_an_empty_region() {
    let r = FrameRect { x: 3, y: 3, width: 0, height: 10 };
    assert!(frame_tiles("c", 1, 1, &r, &[]).is_empty());
}

#[test]
fn screen_updates_and_copies() {
    let mut screen = VncScreen::new();
    assert_eq!(screen.framebuffer.len(), 1920 * 1080 * 4);
    screen.set_resolution(4, 2);
    assert_eq!(screen.framebuffer, vec![0u8; 32]);
    let tiles = screen.raw_image("c", &FrameRect { x: 0, y: 0, width: 1, height: 1 }, &[1, 2, 3, 4]);
    assert_eq!(tiles.len(), 1);
    assert_eq!(&screen.framebuffer[0..4], &[1, 2, 3, 4]);
    let moved = screen.copy_rect("c", &FrameRect { x: 3, y: 1, width: 1, height: 1 }, &FrameRect { x: 0, y: 0, width: 1, height: 1 });
    assert_eq!(&screen.framebuffer[28..32], &[1, 2, 3, 4]);
    assert_eq!(moved[0].x, 3);
    assert_eq!(moved[0].data, rxterm::framebuffer::base64_encode(&[1, 2, 3, 4]));
    assert_eq!(screen.pointer(&mouse(Some(1), true, None)), (5, 6, 0b010));
    assert_eq!(screen.button_mask, 0b010);
}

#[test]
fn vnc_host_check() {
    assert!(rxterm::vnc::check_vnc_host("vnc.local").is_ok());
    match rxterm::vnc::check_vnc_host("a;b") {
        Err(rxterm::vnc::VncError::InvalidHost(m)) => assert_eq!(m, "Host contains invalid characters: a;b"),
        other => panic!("unexpected {:?}", other),
    }
}

#[test]
fn server_events_drive_the_screen() {
    let mut screen = VncScreen::new();
    assert!(matches!(
        screen.server_event("c", VncServerEvent::SetResolution { width: 4, height: 2 }),
        VncServerAction::Continue
    ));
    assert_eq!((screen.width, screen.height, screen.framebuffer.len()), (4, 2, 32));
    let rect = FrameRect { x: 1, y: 1, width: 2, height: 1 };
    let data = vec![1, 2, 3, 4, 5, 6, 7, 8];
    match screen.server_event("c", VncServerEvent::RawImage { rect, data: data.clone() }) {
        VncServerAction::Frames(frames) => {
            assert_eq!(frames.len(), 1);
            assert_eq!((frames[0].x, frames[0].y, frames[0].width, frames[0].height), (1, 1, 2, 1));
            assert_eq!((frames[0].full_width, frames[0].full_height), (4, 2));
            assert_eq!(frames[0].data, "AQIDBAUGBwg=");
        }
        other => panic!("unexpected {:?}", other),
    }
    assert_eq!(&screen.framebuffer[20..28], &data[..]);
    let dst = FrameRect { x: 0, y: 0, width: 2, height: 1 };
    match screen.server_event("c", VncServerEvent::Copy { dst, src: rect }) {
        VncServerAction::Frames(frames) => assert_eq!(frames[0].data, "AQIDBAUGBwg="),
        other => panic!("unexpected {:?}", other),
    }
    assert_eq!(&screen.framebuffer[0..8], &data[..]);
    match screen.server_event("c", VncServerEvent::Text("clip".to_string())) {
        VncServerAction::Clipboard(p) => assert_eq!((p.connection_id.as_str(), p.text.as_str()), ("c", "clip")),
        other => panic!("unexpected {:?}", other),
    }
    assert!(matches!(screen.server_event("c", VncServerEvent::JpegImage), VncServerAction::Refresh));
    assert!(matches!(screen.server_event("c", VncServerEvent::Other), VncServerAction::Continue));
    match screen.server_event("c", VncServerEvent::Error("boom".to_string())) {
        VncServerAction::End(r) => assert_eq!(r, "VNC error: boom"),
        other => panic!("unexpected {:?}", other),
    }
    match screen.server_event("c", VncServerEvent::PollFailed("eof".to_string())) {
        VncServerAction::End(r) => assert_eq!(r, "VNC poll error: eof"),
        other => panic!("unexpected {:?}", other),
    }
}

#[test]
fn client_inputs_become_server_messages() {
    let mut screen = VncScreen::new();
    match screen.client_input(VncClientInput::Mouse(mouse(Some(1), true, Some(1)))) {
        VncClientAction::Pointer { x, y, buttons } => assert_eq!((x, y, buttons), (5, 6, 0b01010)),
        other => panic!("unexpected {:?}", other),
    }
    match screen.client_input(VncClientInput::Mouse(mouse(None, false, None))) {
        VncClientAction::Pointer { buttons, .. } => assert_eq!(buttons, 0b010),
        other => panic!("unexpected {:?}", other),
    }
    match screen.client_input(VncClientInput::Key(VncKeyEvent { keysym: 0xff0d, pressed: true })) {
        VncClientAction::Key { keysym, down } => assert_eq!((keysym, down), (0xff0d, true)),
        other => panic!("unexpected {:?}", other),
    }
    match screen.client_input(VncClientInput::Clipboard("hi".to_string())) {
        VncClientAction::CopyText(t) => assert_eq!(t, "hi"),
        other => panic!("unexpected {:?}", other),
    }
    match screen.client_input(VncClientInput::Disconnect) {
        VncClientAction::End(r) => assert_eq!(r, "disconnected by client"),
        other => panic!("unexpected {:?}", other),
    }
}
