use eui_client::quad::{get_quad, put_quad, Quad};
use eui_client::driver::{Input, ThemeMode};
use eui_client::wire::{R, W};
use eui_client::worker::{pcm_len, Request};

fn b(v: f32) -> u32 {
    v.to_bits()
}

#[test]
fn requests_round_trip() {
    let all = vec![
        Request::Config { w: b(1.5), h: b(2.5), scale: b(2.0), granted: 7 },
        Request::Grant(3),
        Request::Hello,
        Request::Frame(vec![1, 2, 3]),
        Request::Input(Input::PointerMove(b(1.0), b(2.0))),
        Request::Input(Input::Key { key: "Enter".into(), modifiers: 2, down: true }),
        Request::Input(Input::Mode(ThemeMode::Dark)),
        Request::Input(Input::Unfocused),
        Request::AssetReady([7; 32], vec![9; 10]),
        Request::AssetFailed([8; 32], "gone".into()),
        Request::PendingAssets,
        Request::Paint(640, 480),
        Request::Tick,
        Request::AccessTree,
        Request::AccessAction(42, true),
        Request::DesktopTheme(Some(ThemeMode::Dark), vec![(1, 0x101a26ff), (9, 0xf7a96aff)]),
        Request::DesktopTheme(None, Vec::new()),
        Request::Audio { frames: 512, channels: 2, rate: 48_000 },
    ];
    for r in all {
        assert_eq!(Request::decode(&r.encode()), Ok(r));
    }
}

#[test]
fn every_input_crosses_the_pipe() {
    let all = vec![
        Input::PointerOut,
        Input::PointerDown(1),
        Input::PointerUp(2),
        Input::Wheel(b(0.5), b(-3.0)),
        Input::WheelStep(b(1.0), b(0.0)),
        Input::TouchDown(9, b(1.0), b(2.0)),
        Input::TouchMove(9, b(3.0), b(4.0)),
        Input::TouchUp(9, b(5.0), b(6.0)),
        Input::TouchCancel(9),
        Input::Text("é".into()),
        Input::ImePreedit("か".into()),
        Input::ImeCommit("漢".into()),
        Input::Paste("x\ny".into()),
        Input::Back,
        Input::Resized(b(800.0), b(600.0), b(2.0)),
        Input::Covered(b(300.0)),
        Input::Mode(ThemeMode::HighContrast),
        Input::Refocused,
    ];
    for i in all {
        let r = Request::Input(i);
        assert_eq!(Request::decode(&r.encode()), Ok(r));
    }
}

#[test]
fn a_request_that_is_not_one_is_refused() {
    assert!(Request::decode(&[]).is_err());
    assert!(Request::decode(&[200]).is_err());
    let mut bytes = Request::Tick.encode();
    bytes.push(0);
    assert!(Request::decode(&bytes).is_err(), "trailing bytes");
    let bytes = Request::Paint(1, 2).encode();
    assert!(Request::decode(&bytes[..bytes.len() - 1]).is_err(), "truncated");
}

fn quad(rect: [f32; 4], params: [f32; 4], fill: [f32; 4], stroke: [f32; 4], uv: [f32; 4], extra: [f32; 4], spin: [f32; 4], from: [u16; 8]) -> Quad {
    Quad { rect: rect.map(f32::to_bits), params: params.map(f32::to_bits), fill: fill.map(f32::to_bits), stroke: stroke.map(f32::to_bits), uv: uv.map(f32::to_bits), extra: extra.map(f32::to_bits), spin: spin.map(f32::to_bits), from }
}

/// Every pattern of zero and non-zero parts survives the pipe, and a
/// glyph's worth costs what it should.
#[test]
fn a_quad_crosses_the_pipe_sparsely_and_whole() {
    let full = quad([1.0; 4], [2.0; 4], [3.0; 4], [4.0; 4], [5.0; 4], [6.0; 4], [7.0; 4], [1, 2, 3, 4, 5, 6, 7, 8]);
    for mask in 0u8..=255 {
        let mut q = full;
        let parts: [&mut [u32; 4]; 7] = [&mut q.rect, &mut q.params, &mut q.fill, &mut q.stroke, &mut q.uv, &mut q.extra, &mut q.spin];
        for (i, part) in parts.into_iter().enumerate() {
            if mask & (1 << i) == 0 {
                *part = [0.0f32; 4].map(f32::to_bits);
            }
        }
        if mask & (1 << 7) == 0 {
            q.from = [0; 8];
        }
        let mut w = W::new();
        put_quad(&mut w, &q);
        let bytes = w.buf;
        let mut r = R { b: &bytes, i: 0 };
        assert_eq!(get_quad(&mut r).unwrap(), q, "mask {mask:#b}");
        assert_eq!(bytes.len(), 1 + 16 * usize::from((mask & 127).count_ones() as u8) + if mask & 128 != 0 { 16 } else { 0 });
    }
    // A glyph: rect, params, fill, uv.
    let glyph = quad([1.0; 4], [0.0, 0.0, 1.0, 1.0], [1.0; 4], [0.0; 4], [0.5; 4], [0.0; 4], [0.0; 4], [0; 8]);
    let mut w = W::new();
    put_quad(&mut w, &glyph);
    assert_eq!(w.buf.len(), 65);
}

#[test]
fn a_negative_zero_part_is_left_out_and_comes_back_positive() {
    let q = quad([-0.0, 0.0, 0.0, 0.0], [1.0; 4], [0.0; 4], [0.0; 4], [0.0; 4], [0.0; 4], [0.0; 4], [0; 8]);
    let mut w = W::new();
    put_quad(&mut w, &q);
    assert_eq!(w.buf.len(), 17);
    let mut r = R { b: &w.buf, i: 0 };
    let back = get_quad(&mut r).unwrap();
    assert_eq!(back.rect, [0; 4]);
    assert_eq!(back.params, q.params);
}

#[test]
fn an_audio_request_asks_for_one_or_two_channels_and_a_bounded_buffer() {
    assert_eq!(pcm_len(512, 2), (2, 1024));
    assert_eq!(pcm_len(512, 0), (1, 512));
    assert_eq!(pcm_len(512, 6), (2, 1024));
    assert_eq!(pcm_len(u32::MAX, 2), (2, 1 << 20));
}
