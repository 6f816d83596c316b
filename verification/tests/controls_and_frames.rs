use gallery::controls::{
    flare_key, fly_buttons, fly_key, walker_key, FirstPersonButtons, LookAction, Mode,
    PointerAction, TrackballModes,
};
use gallery::lcg::random_step;
use gallery::morton::z_order_bits;
use gallery::passes::{Blur, Comparison, Effect, Smaa, Sobel, Step, Surface};
use gallery::schedule::{
    checker_pixels, cloud_origin, needs_output, parameter_count, quadrant, volume_workgroups,
    wrapping, LayeredFill, PingPong, Wrapping,
};
use gallery::text_field::{ClippingToggles, TextField, TextOptions, TextParameter};

#[test]
fn trackball_buttons_and_keys() {
    let mut t = TrackballModes::new();
    assert_eq!(t.pointer(10), PointerAction::Begin(Mode::Rotate));
    t.key(83, true);
    assert_eq!(t.key_state, Mode::Zoom);
    t.key(65, true);
    assert_eq!(t.key_state, Mode::Zoom);
    assert_eq!(t.pointer(5), PointerAction::Move(Mode::Zoom));
    assert_eq!(t.pointer(21), PointerAction::End);
    assert_eq!(t.state, Mode::Idle);
    t.key(0, false);
    assert_eq!(t.active(), Mode::Idle);
    assert_eq!(t.pointer(12), PointerAction::Begin(Mode::Pan));
    assert_eq!(t.pointer(13), PointerAction::Begin(Mode::Idle));
}

#[test]
fn first_person_drag_and_drive() {
    let mut b = FirstPersonButtons::new();
    assert_eq!(b.pointer(5), LookAction::Ignore);
    assert_eq!(b.pointer(10), LookAction::Press);
    assert!(b.forward && b.drag && b.count == 1);
    assert_eq!(b.pointer(12), LookAction::Press);
    assert!(b.backward && b.count == 2);
    assert_eq!(b.pointer(5), LookAction::Drag);
    assert_eq!(b.pointer(20), LookAction::Release);
    assert!(!b.forward && b.backward && b.drag && b.count == 1);
    assert_eq!(b.pointer(22), LookAction::Release);
    assert!(!b.backward && !b.drag && b.count == 0);
    assert_eq!(b.pointer(20), LookAction::Ignore);
    b.keys[0] = true;
    assert_eq!(b.pointer(10), LookAction::Press);
    assert!(!b.forward);
}

#[test]
fn key_maps() {
    assert_eq!(walker_key(87), Some(0));
    assert_eq!(walker_key(38), Some(0));
    assert_eq!(walker_key(40), Some(1));
    assert_eq!(walker_key(70), Some(5));
    assert_eq!(walker_key(1), None);
    assert_eq!(fly_key(69), Some(11));
    assert_eq!(fly_key(38), Some(6));
    assert_eq!(fly_key(0), None);
    assert_eq!(flare_key(82), Some(0));
    assert_eq!(flare_key(87), Some(4));
    assert_eq!(flare_key(81), Some(10));
    let mut buttons = [false, false];
    fly_buttons(&mut buttons, 10);
    assert_eq!(buttons, [true, false]);
    fly_buttons(&mut buttons, 12);
    assert_eq!(buttons, [true, true]);
    fly_buttons(&mut buttons, 20);
    assert_eq!(buttons, [false, true]);
    fly_buttons(&mut buttons, 7);
    assert_eq!(buttons, [false, true]);
    fly_buttons(&mut buttons, 22);
    assert_eq!(buttons, [false, false]);
}

#[test]
fn text_field_typing() {
    let mut f = TextField { text: "three.js".chars().collect(), first_letter: true, dirty: false };
    f.key(72, false);
    assert_eq!(f.text.len(), 8);
    f.key(72, true);
    assert!(f.text.is_empty() && !f.first_letter && !f.dirty);
    f.key(100_000 + 'H' as u32, true);
    f.key(100_000 + 'i' as u32, true);
    assert_eq!(f.text, vec!['H', 'i']);
    assert!(f.dirty);
    f.key(100_008, true);
    assert_eq!(f.text, vec!['H', 'i']);
    f.key(8, true);
    assert_eq!(f.text, vec!['H']);
    f.key(100_000 + 0xd800, true);
    assert_eq!(f.text, vec!['H']);
}

#[test]
fn typing_then_backspace_restores_the_text() {
    let mut f = TextField { text: vec!['a', 'b'], first_letter: false, dirty: false };
    let before = f.text.clone();
    f.key(67, true);
    f.key(100_000 + 'c' as u32, true);
    assert_eq!(f.text, vec!['a', 'b', 'c']);
    f.key(8, true);
    assert_eq!(f.text, before);
}

#[test]
fn text_options_faces() {
    let mut o = TextOptions { font: 0, bold: false, bevel: false, dirty: false };
    assert_eq!(o.face(), 0);
    assert_eq!(o.parameter(0), Ok(TextParameter::Color));
    assert!(!o.dirty);
    assert_eq!(o.parameter(1), Ok(TextParameter::Changed));
    assert_eq!(o.face(), 2);
    assert_eq!(o.parameter(2), Ok(TextParameter::Changed));
    assert_eq!(o.face(), 3);
    assert_eq!(o.parameter(3), Ok(TextParameter::Changed));
    assert!(o.bevel && o.dirty);
    assert_eq!(o.parameter(9), Err(()));
    o.font = 9;
    assert_eq!(o.face(), 9);
}

#[test]
fn clipping_visualization_needs_local_planes() {
    let mut c = ClippingToggles { local: true, shadows: false, visualize: true, global: false };
    assert_eq!(c.set(0, false), Ok(()));
    assert!(!c.local && !c.visualize);
    assert_eq!(c.set(2, true), Ok(()));
    assert!(!c.visualize);
    c.set(0, true).unwrap();
    c.set(2, true).unwrap();
    assert!(c.visualize);
    c.set(1, true).unwrap();
    c.set(3, true).unwrap();
    assert!(c.shadows && c.global);
    assert_eq!(c.set(4, true), Err(()));
}

#[test]
fn random_steps() {
    let mut seed = 0u32;
    assert_eq!(random_step(&mut seed), 1013904223);
    assert_eq!(random_step(&mut seed), 1196435762);
    assert_eq!(seed, 1196435762);
    let mut seed = 186u32;
    assert_eq!(random_step(&mut seed), 1323505873);
}

#[test]
fn z_order_interleaves_bits() {
    assert_eq!(z_order_bits(0, 0), 0);
    assert_eq!(z_order_bits(1, 0), 1);
    assert_eq!(z_order_bits(0, 1), 2);
    assert_eq!(z_order_bits(3, 3), 15);
    assert_eq!(z_order_bits(2, 1), 6);
    assert_eq!(z_order_bits(0x7fff, 0), 0x1555_5555);
}

#[test]
fn blur_resizes_only_on_a_new_size() {
    let mut b = Blur { width: 0, height: 0 };
    let first = b.render(640, 480);
    assert_eq!(first.len(), 8);
    assert_eq!(first[0], Step::Resize { target: Surface::Scene, width: 640, height: 480 });
    assert_eq!(first[2], Step::RefreshDepth);
    let second = b.render(640, 480);
    assert_eq!(
        second,
        vec![
            Step::Render { target: Surface::Scene },
            Step::Texel { effect: Effect::Horizontal, x: Some(640), y: None },
            Step::Texel { effect: Effect::Vertical, x: None, y: Some(480) },
            Step::Apply {
                effect: Effect::Horizontal,
                input: Surface::Scene,
                history: None,
                output: Surface::Intermediate,
            },
            Step::Apply {
                effect: Effect::Vertical,
                input: Surface::Intermediate,
                history: None,
                output: Surface::Output,
            },
        ]
    );
}

#[test]
fn comparison_plans_both_targets() {
    let steps = Comparison { targets: 2 }.render(801, 600, 7);
    assert_eq!(
        steps,
        vec![
            Step::Material { index: 4 },
            Step::Aspect { width: 400, height: 600 },
            Step::Resize { target: Surface::Target(0), width: 400, height: 600 },
            Step::Render { target: Surface::Target(0) },
            Step::Resize { target: Surface::Target(1), width: 400, height: 600 },
            Step::Render { target: Surface::Target(1) },
            Step::Apply {
                effect: Effect::Compare,
                input: Surface::Target(0),
                history: Some(Surface::Target(1)),
                output: Surface::Output,
            },
        ]
    );
    let narrow = Comparison { targets: 2 }.render(1, 1, 2);
    assert_eq!(narrow[0], Step::Material { index: 2 });
    assert_eq!(narrow[1], Step::Aspect { width: 1, height: 1 });
}

#[test]
fn smaa_and_sobel_frames() {
    assert_eq!(
        Smaa.render(800, 600, true),
        vec![
            Step::Resize { target: Surface::Scene, width: 800, height: 600 },
            Step::Render { target: Surface::Scene },
            Step::Apply {
                effect: Effect::Smaa,
                input: Surface::Scene,
                history: None,
                output: Surface::Output,
            },
        ]
    );
    assert_eq!(
        Smaa.render(8, 6, false)[2],
        Step::Apply { effect: Effect::Copy, input: Surface::Scene, history: None, output: Surface::Output }
    );
    let off = Sobel.render(100, 50, false);
    assert_eq!(off.len(), 4);
    assert_eq!(
        off[3],
        Step::Apply { effect: Effect::Encode, input: Surface::Scene, history: None, output: Surface::Output }
    );
    let on = Sobel.render(100, 50, true);
    assert_eq!(on.len(), 6);
    assert_eq!(on[4], Step::Texel { effect: Effect::Edge, x: Some(100), y: Some(50) });
    assert_eq!(
        on[5],
        Step::Apply { effect: Effect::Edge, input: Surface::Encoded, history: None, output: Surface::Output }
    );
}

#[test]
fn ping_pong_alternates_and_reseeds_once_a_second() {
    let mut p = PingPong { phase: 0, last_second: -1, seed: 0 };
    let a = p.step(0);
    assert_eq!(a.reseed, Some((1013904223, 1196435762)));
    assert_eq!((a.update, a.mipmap, a.material), (0, 1, 0));
    let b = p.step(0);
    assert_eq!(b.reseed, None);
    assert_eq!((b.update, b.mipmap, b.material), (1, 0, 1));
    let c = p.step(0);
    assert_eq!(c.reseed, None);
    assert_eq!(c.update, 0);
    assert_eq!(p.step(1).reseed, None);
    let e = p.step(1);
    assert!(e.reseed.is_some());
    assert_eq!(p.last_second, 1);
    assert_eq!(p.step(1).reseed, None);
    assert_eq!(p.step(1).reseed, None);
    assert_eq!(p.phase, 1);
}

#[test]
fn layered_fill_catches_up_at_most_one_volume() {
    let mut f = LayeredFill { slice: 0 };
    assert_eq!(f.layers(3), vec![0, 1, 2]);
    let caught = f.layers(500);
    assert_eq!(caught.len(), 109);
    assert_eq!(caught[0], 64);
    assert_eq!(caught[108], 63);
    let mut seen = caught.clone();
    seen.sort();
    seen.dedup();
    assert_eq!(seen.len(), 109);
    assert!(f.layers(500).is_empty());
    assert!(f.layers(10).is_empty());
    assert_eq!(f.slice, 500);
}

#[test]
fn small_tables() {
    assert_eq!(quadrant(0, 800, 600), [0, 300, 400, 300]);
    assert_eq!(quadrant(1, 800, 600), [400, 300, 400, 300]);
    assert_eq!(quadrant(3, 801, 601), [400, 0, 400, 300]);
    assert_eq!(cloud_origin(0), [4, 4, 4]);
    assert_eq!(cloud_origin(5), [35, 35, 4]);
    assert_eq!(cloud_origin(63), [97, 97, 97]);
    assert_eq!(volume_workgroups(65535), [65535, 2, 1]);
    assert_eq!(volume_workgroups(256), [256, 489, 1]);
    assert_eq!(volume_workgroups(1), [1, 125000, 1]);
    assert_eq!(wrapping(0), Wrapping::Repeat);
    assert_eq!(wrapping(1), Wrapping::Clamp);
    assert_eq!(wrapping(5), Wrapping::Mirror);
    assert_eq!(parameter_count(78), 2);
    assert_eq!(parameter_count(87), 6);
    assert_eq!(parameter_count(85), 1);
    assert_eq!(parameter_count(1), 0);
    assert!(needs_output(None, (1, 2, 4)));
    assert!(!needs_output(Some((1, 2, 4)), (1, 2, 4)));
    assert!(needs_output(Some((1, 2, 1)), (1, 2, 4)));
}

#[test]
fn checker_texture_quadrants() {
    let p = checker_pixels();
    assert_eq!(p.len(), 1024);
    assert_eq!(&p[0..4], &[0, 0, 255, 255]);
    assert_eq!(&p[60..64], &[255, 255, 0, 255]);
    assert_eq!(&p[960..964], &[255, 0, 0, 255]);
    assert_eq!(&p[1020..1024], &[0, 128, 0, 255]);
}
