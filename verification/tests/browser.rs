use space_game::dom::input::{listener_action, InputEvent, InputState};
use space_game::dom::{get_base_uri, websocket_uri, DomError, Key};
use space_game::gl::{
    compute_layout, draw_attribute, webgl_scalar_count, BufferError, ContextError, DrawError, Sampler2D, ShaderError, ShaderLoaderError,
    TextureError, VaoError,
};
use space_game::mesh::{AttributeType, AttributeVec, MeshError};

#[test]
fn websocket_uri_replaces_scheme_and_last_segment() {
    assert_eq!(websocket_uri("http://example.com/game/index.html", "ws"), "ws://example.com/game/ws");
    assert_eq!(websocket_uri("https://example.com/", "socket"), "wss://example.com/socket");
    assert_eq!(websocket_uri("file:page", "x"), "x");
    assert_eq!(websocket_uri("ws://h/a/b", "c/d"), "ws://h/a/c/d");
}

#[test]
fn base_uri_decisions() {
    assert!(matches!(get_base_uri(false, true, Ok(Some("u".to_string()))), Err(DomError::WindowMissing)));
    assert!(matches!(get_base_uri(true, false, Ok(Some("u".to_string()))), Err(DomError::DocumentMissing)));
    assert!(matches!(get_base_uri(true, true, Ok(None)), Err(DomError::BaseUriMissing)));
    assert!(matches!(get_base_uri(true, true, Err(DomError::CaughtException)), Err(DomError::CaughtException)));
    assert_eq!(get_base_uri(true, true, Ok(Some("http://h/".to_string()))).ok().unwrap(), "http://h/");
}

#[test]
fn keys_by_character_and_name() {
    assert_eq!(Key::ch('w').name(), "w");
    assert_eq!(Key::ch('w'), Key::named("w"));
    assert_ne!(Key::ch('a'), Key::named("ArrowLeft"));
}

#[test]
fn error_messages() {
    assert_eq!(DomError::ElementNotFound("canvas".to_string()).message(), "Element `canvas` not found");
    assert_eq!(DomError::WebSocketError.message(), "WebSocket connection failed");
    assert_eq!(ContextError::GetContextFailed.message(), "Failed to get WebGl2RenderingContext");
    assert_eq!(ContextError::from(DomError::WindowMissing).message(), "Global `window` missing");
    assert_eq!(BufferError::CreateFailed.message(), "Failed to create_buffer");
    assert_eq!(BufferError::from(MeshError::TooManyIndices(1)).message(), "Too many indices for GPU upload");
    assert_eq!(DrawError::UnknownAttribute("uv".to_string()).message(), "Shader expects unknown attribute `uv`");
    assert_eq!(
        DrawError::from(ShaderError::CompileError("bad".to_string())).message(),
        "Error while compiling shader: bad"
    );
    assert_eq!(ShaderError::LinkError("x".to_string()).message(), "Error while linking shader: x");
    assert_eq!(ShaderError::MissingUniform("t".to_string()).message(), "Shader does not have uniform `t`");
    assert_eq!(ShaderError::from(ShaderLoaderError::IncludeCycle("a".to_string())).message(), "TODO");
    assert_eq!(TextureError::CreateTextureFailed.message(), "Failed to create_texture");
    assert_eq!(TextureError::from(DomError::ImageError).message(), "Image load failed");
    assert_eq!(
        VaoError::AttributeTypeError("pos".to_string(), 0x1406, 0x8B51).message(),
        "Type error for attribute `pos` (Found 0x1406 expected 0x8B51)"
    );
    assert_eq!(
        VaoError::AttributeTypeError("n".to_string(), 5, 255).message(),
        "Type error for attribute `n` (Found 0x05 expected 0xFF)"
    );
    assert_eq!(VaoError::CreateBufferFailed.message(), "Failed to create_buffer");
}

#[test]
fn hex_matches_std_formatting() {
    for n in [0u32, 9, 10, 15, 16, 255, 256, 0xABCDEF, u32::MAX] {
        let expected = format!("Type error for attribute `a` (Found {:#04X} expected {:#04X})", n, n);
        assert_eq!(VaoError::AttributeTypeError("a".to_string(), n, n).message(), expected);
    }
}

#[test]
fn scalar_counts() {
    assert_eq!(webgl_scalar_count(AttributeType::Vec2), 2);
    assert_eq!(webgl_scalar_count(AttributeType::Vec3), 3);
    assert_eq!(Sampler2D(1).0, 1);
}

#[test]
fn layout_puts_larger_attributes_first() {
    let attrs = vec![
        ("uv".to_string(), AttributeVec::Vec2(vec![])),
        ("pos".to_string(), AttributeVec::Vec3(vec![])),
        ("uv2".to_string(), AttributeVec::Vec2(vec![])),
        ("normal".to_string(), AttributeVec::Vec3(vec![])),
    ];
    let layout = compute_layout(&attrs);
    let offsets: Vec<(String, usize)> = layout.types_offsets.iter().map(|(n, (_, o))| (n.clone(), *o)).collect();
    assert_eq!(
        offsets,
        vec![("uv".to_string(), 24), ("pos".to_string(), 0), ("uv2".to_string(), 32), ("normal".to_string(), 12)]
    );
    assert_eq!(layout.stride, 48);
    assert_eq!(compute_layout(&vec![]).stride, 0);
    let two = vec![("a".to_string(), AttributeVec::Vec2(vec![])), ("b".to_string(), AttributeVec::Vec2(vec![]))];
    let l = compute_layout(&two);
    assert_eq!(l.stride, 16);
    assert_eq!(l.types_offsets[0].1, (AttributeType::Vec2, 0));
    assert_eq!(l.types_offsets[1].1, (AttributeType::Vec2, 8));
}

fn keyboard(event_type: &str, key: &str) -> InputEvent {
    InputEvent::Keyboard { event_type: event_type.to_string(), key: Key::named(key) }
}

#[test]
fn input_state_tracks_keys_down() {
    let mut state = InputState::new();
    let up = Key::named("ArrowUp");
    assert!(!state.is_key_down(&up));
    state.apply_event(&keyboard("keydown", "ArrowUp"));
    state.apply_event(&keyboard("keydown", "ArrowUp"));
    state.apply_event(&keyboard("keydown", "a"));
    assert!(state.is_key_down(&up));
    assert!(state.is_key_down(&Key::ch('a')));
    state.apply_event(&keyboard("keyup", "ArrowUp"));
    assert!(!state.is_key_down(&up));
    assert!(state.is_key_down(&Key::ch('a')));
    state.apply_event(&keyboard("keypress", "b"));
    assert!(!state.is_key_down(&Key::ch('b')));
    state.apply_event(&keyboard("keyup", "z"));
    assert!(state.is_key_down(&Key::ch('a')));
}

#[test]
fn input_state_sums_mouse_movement() {
    let mut state = InputState::new();
    assert_eq!(state.mouse_pos(), (0, 0));
    state.apply_event(&InputEvent::Mouse { movement_x: 5, movement_y: -3 });
    state.apply_event(&InputEvent::Mouse { movement_x: -2, movement_y: 10 });
    state.apply_event(&InputEvent::Other);
    assert_eq!(state.mouse_pos(), (3, 7));
}

#[test]
fn listener_applies_events_only_while_locked() {
    let a = listener_action(true, "mousemove");
    assert!(a.apply && a.prevent_default && !a.request_pointer_lock);
    let w = listener_action(true, "wheel");
    assert!(w.apply && !w.prevent_default && !w.request_pointer_lock);
    let d = listener_action(false, "mousedown");
    assert!(!d.apply && !d.prevent_default && d.request_pointer_lock);
    let k = listener_action(false, "keydown");
    assert!(!k.apply && !k.prevent_default && !k.request_pointer_lock);
}

#[test]
fn draw_attributes_are_found_by_name() {
    let attrs = vec![
        ("uv".to_string(), AttributeVec::Vec2(vec![])),
        ("pos".to_string(), AttributeVec::Vec3(vec![])),
    ];
    let layout = compute_layout(&attrs);
    assert_eq!(layout.get(&"uv".to_string()), Some((AttributeType::Vec2, 12)));
    match draw_attribute(&layout, &"pos".to_string()) {
        Ok(slot) => assert_eq!(slot, (AttributeType::Vec3, 0)),
        Err(_) => panic!("pos is in the layout"),
    }
    match draw_attribute(&layout, &"color".to_string()) {
        Err(DrawError::UnknownAttribute(name)) => assert_eq!(name, "color"),
        _ => panic!("color is not in the layout"),
    }
}
