use rxterm::framebuffer::FrameRect;
use rxterm::rdp::build_mouse_operations;
use rxterm::rdp::extract_rect_rgba;
use rxterm::rdp::key_operation;
use rxterm::rdp::rdp_frame_tiles;
use rxterm::rdp::rdp_loop_step;
use rxterm::rdp::validate_rdp_host;
use rxterm::rdp::InputOperation;
use rxterm::rdp::MouseButton;
use rxterm::rdp::RdpError;
use rxterm::rdp::RdpImage;
use rxterm::rdp::RdpKeyEvent;
use rxterm::rdp::RdpLoopAction;
use rxterm::rdp::RdpLoopEvent;
use rxterm::rdp::RdpMouseEvent;

#[test]
fn mouse_move_only() {
    let e = RdpMouseEvent { x: 1, y: 2, button: None, pressed: false, scroll_delta: None };
    assert_eq!(build_mouse_operations(&e), vec![InputOperation::MouseMove { x: 1, y: 2 }]);
}

#[test]
fn mouse_scroll_and_press() {
    let e = RdpMouseEvent { x: 1, y: 2, button: Some(2), pressed: true, scroll_delta: Some(-120) };
    assert_eq!(
        build_mouse_operations(&e),
        vec![
            InputOperation::MouseMove { x: 1, y: 2 },
            InputOperation::WheelRotations { is_vertical: true, rotation_units: -120 },
            InputOperation::MouseButtonPressed(MouseButton::Right),
        ]
    );
    let e = RdpMouseEvent { x: 0, y: 0, button: Some(1), pressed: false, scroll_delta: None };
    assert_eq!(build_mouse_operations(&e)[1], InputOperation::MouseButtonReleased(MouseButton::Middle));
    let e = RdpMouseEvent { x: 0, y: 0, button: Some(7), pressed: true, scroll_delta: None };
    assert_eq!(build_mouse_operations(&e).len(), 1);
}

#[test]
fn key_press_and_release() {
    assert_eq!(key_operation(&RdpKeyEvent { scancode: 0x1e, pressed: true }), InputOperation::KeyPressed(0x1e));
    assert_eq!(key_operation(&RdpKeyEvent { scancode: 0xe01d, pressed: false }), InputOperation::KeyReleased(0xe01d));
}

#[test]
fn rdp_host_validation_messages() {
    assert!(validate_rdp_host("server.local").is_ok());
    assert!(validate_rdp_host("10.0.0.1").is_ok());
    match validate_rdp_host("") {
        Err(RdpError::InvalidHost(m)) => assert_eq!(m, "Host must be between 1 and 253 characters"),
        other => panic!("unexpected {:?}", other),
    }
    match validate_rdp_host("bad;host") {
        Err(RdpError::InvalidHost(m)) => assert_eq!(m, "Host contains invalid characters: bad;host"),
        other => panic!("unexpected {:?}", other),
    }
}

fn image(data: &[u8]) -> RdpImage<'_> {
    RdpImage { width: 3, height: 2, bytes_per_pixel: 4, stride: 12, data }
}

#[test]
fn extract_rect_rows() {
    let data: Vec<u8> = (0..24).collect();
    let img = image(&data);
    assert_eq!(extract_rect_rgba(&img, 1, 0, 2, 2), Some(vec![4, 5, 6, 7, 8, 9, 10, 11, 16, 17, 18, 19, 20, 21, 22, 23]));
    assert_eq!(extract_rect_rgba(&img, 2, 1, 2, 1), None);
    assert_eq!(extract_rect_rgba(&img, 0, 1, 1, 2), None);
    let short: Vec<u8> = (0..20).collect();
    assert_eq!(extract_rect_rgba(&image(&short), 0, 1, 3, 1), None);
    assert_eq!(extract_rect_rgba(&image(&short), 0, 1, 2, 1), Some((12..20).collect()));
}

#[test]
fn rdp_tiles_skip_unreadable_ones() {
    let data = vec![5u8; 300 * 10 * 4];
    let img = RdpImage { width: 300, height: 10, bytes_per_pixel: 4, stride: 1200, data: &data };
    let tiles = rdp_frame_tiles("conn", &img, &FrameRect { x: 0, y: 0, width: 300, height: 10 });
    assert_eq!(tiles.len(), 2);
    assert_eq!((tiles[1].x, tiles[1].width, tiles[1].height), (256, 44, 10));
    assert_eq!(tiles[0].full_width, 300);
    let off = rdp_frame_tiles("conn", &img, &FrameRect { x: 200, y: 0, width: 300, height: 10 });
    assert_eq!(off.len(), 0);
    assert!(rdp_frame_tiles("conn", &img, &FrameRect { x: 0, y: 0, width: 0, height: 10 }).is_empty());
}

#[test]
fn loop_steps() {
    let pixels: Vec<u8> = (0..16u8).collect();
    let image = RdpImage { width: 2, height: 2, bytes_per_pixel: 4, stride: 8, data: &pixels };
    let end = |e: RdpLoopEvent| match rdp_loop_step("c", &image, e) {
        RdpLoopAction::End(r) => r,
        other => panic!("unexpected {:?}", other),
    };
    assert_eq!(end(RdpLoopEvent::ReadFailed("eof".to_string())), "read error: eof");
    assert_eq!(end(RdpLoopEvent::ProcessFailed("bad pdu".to_string())), "process error: bad pdu");
    assert_eq!(end(RdpLoopEvent::Terminate("logged off".to_string())), "logged off");
    assert_eq!(end(RdpLoopEvent::DeactivateAll), "server deactivated session");
    assert_eq!(end(RdpLoopEvent::Disconnect), "disconnected by client");
    match rdp_loop_step("c", &image, RdpLoopEvent::GraphicsUpdate(FrameRect { x: 1, y: 0, width: 1, height: 2 })) {
        RdpLoopAction::Frames(f) => {
            assert_eq!(f.len(), 1);
            assert_eq!((f[0].x, f[0].y, f[0].width, f[0].height), (1, 0, 1, 2));
            assert_eq!(f[0].data, "BAUGBwwNDg8=");
        }
        other => panic!("unexpected {:?}", other),
    }
    match rdp_loop_step("c", &image, RdpLoopEvent::Key(RdpKeyEvent { scancode: 0xe01d, pressed: false })) {
        RdpLoopAction::Input(ops) => assert_eq!(ops, vec![InputOperation::KeyReleased(0xe01d)]),
        other => panic!("unexpected {:?}", other),
    }
    let e = RdpMouseEvent { x: 3, y: 4, button: Some(0), pressed: true, scroll_delta: None };
    match rdp_loop_step("c", &image, RdpLoopEvent::Mouse(e)) {
        RdpLoopAction::Input(ops) => assert_eq!(ops, build_mouse_operations(&e)),
        other => panic!("unexpected {:?}", other),
    }
    assert!(matches!(rdp_loop_step("c", &image, RdpLoopEvent::Other), RdpLoopAction::Continue));
}
