use dualcut::adjust::adjust;
use dualcut::compile::{clip_slot_depth, Wipe};
use dualcut::counts::{count_clips, count_ids};
use dualcut::curves::{normalize, property_curve};
use dualcut::document::{
    Anim, AnimProperty, Clip, CompDef, Easing, Effect, Element, Keyframe, LaneMeta, Meta,
    OverlayTrack, Project, Scene, TextAlign, Transform, Transition, TransitionKind,
};
use dualcut::effects::{
    is_uri, placement, speed_and_volume, title_placement, wipe_for, HAlign,
};
use dualcut::fixed::{ease, fraction, mix};
use dualcut::ids::fresh_id;
use dualcut::plan::{compile, compile_scaled, layers_countable};
use dualcut::split::split_clip;
use dualcut::substitute::{fill_text, substitute};
use dualcut::templates::new_project;
use dualcut::textmap::TextMap;
use dualcut::timeline::find_clip;

fn fx(x: f64) -> i128 {
    (x * 1e9).round() as i128
}

fn clip(id: &str, start: f64, duration: f64, element: Element) -> Clip {
    Clip {
        id: id.into(),
        start: fx(start),
        duration: fx(duration),
        element,
        transform: Default::default(),
        animations: Vec::new(),
        effects: Vec::new(),
    }
}

fn video(rate: f64, volume: f64) -> Element {
    Element::Video { src: "a.mp4".into(), offset: 0, volume: fx(volume), rate: fx(rate) }
}

fn words(s: &str) -> Element {
    Element::Text {
        text: s.into(),
        font: "Sans".into(),
        color: "#fff".into(),
        align: None,
        outline: None,
        shadow: false,
    }
}

fn use_of(def: &str, key: &str, value: &str) -> Element {
    let mut args = TextMap::new();
    args.insert(key.to_string(), value.to_string());
    Element::CompRef { def: def.into(), args }
}

fn scene(id: &str, duration: f64, cut: Option<f64>, layers: Vec<Clip>) -> Scene {
    Scene {
        id: id.into(),
        name: String::new(),
        duration: fx(duration),
        transition: cut
            .map(|d| Transition { kind: TransitionKind::WipeLr, duration: fx(d) }),
        layers,
    }
}

fn tween(property: AnimProperty, from: f64, to: f64, end: f64) -> Anim {
    Anim {
        property,
        from: fx(from),
        to: fx(to),
        start: 0,
        end: fx(end),
        easing: Easing::Linear,
        keyframes: Vec::new(),
    }
}

#[test]
fn overlays_lie_above_the_layers() {
    let mut p = new_project("t");
    p.scenes = vec![
        scene("s1", 4.0, None, vec![clip("a", 0.0, 0.0, Element::Test)]),
        scene(
            "s2",
            4.0,
            Some(1.0),
            vec![clip("b", 0.5, 1.0, Element::Test), clip("c", 0.0, 0.0, Element::Test)],
        ),
    ];
    p.overlays.push(OverlayTrack {
        id: "o".into(),
        muted: false,
        hidden: false,
        locked: false,
        name: String::new(),
        clips: vec![clip("d", 2.0, 1.0, Element::Test)],
    });
    let plan = compile(&p).unwrap();
    assert_eq!((plan.width, plan.height, plan.fps), (1920, 1080, 30));
    let place = |id: &str| {
        let c = plan.clips.iter().find(|c| c.clip.id == id).unwrap();
        (c.layer, c.start_us, c.duration_us)
    };
    assert_eq!(place("d"), (0, 2_000_000, 1_000_000));
    assert_eq!(place("a"), (1, 0, 4_000_000));
    assert_eq!(place("b"), (1, 3_500_000, 1_000_000));
    assert_eq!(place("c"), (2, 3_000_000, 4_000_000));
    assert_eq!(plan.wipes.len(), 1);
    assert_eq!((plan.wipes[0].start, plan.wipes[0].end), (fx(3.0), fx(4.0)));
}

#[test]
fn instances_are_expanded_with_their_arguments() {
    let mut p = new_project("t");
    p.defs.insert(
        "inner".into(),
        CompDef {
            params: vec!["who".into()],
            layers: vec![clip("x", 0.0, 0.0, words("Hi {who}"))],
        },
    );
    p.defs.insert(
        "outer".into(),
        CompDef {
            params: vec!["who".into()],
            layers: vec![
                clip("bg", 0.0, 0.0, Element::Test),
                clip("in", 1.0, 0.0, use_of("inner", "who", "{who}")),
            ],
        },
    );
    let c = clip("c", 0.0, 4.0, use_of("outer", "who", "Ann"));
    assert_eq!(clip_slot_depth(&p, &c), 2);
    p.scenes[0].layers.push(c);
    let plan = compile(&p).unwrap();
    assert_eq!(plan.clips.len(), 2);
    let text = plan.clips.iter().find(|c| matches!(c.clip.element, Element::Text { .. })).unwrap();
    assert!(matches!(&text.clip.element, Element::Text { text, .. } if text == "Hi Ann"));
    assert_eq!(text.start_us, 1_000_000);
    assert!(layers_countable(&p));
}

#[test]
fn hidden_and_muted_lanes_are_silenced() {
    let mut p = new_project("t");
    p.scenes[0].layers.push(clip("a", 0.0, 1.0, video(1.0, 1.0)));
    p.scene_lanes.push(LaneMeta { locked: false, muted: true, hidden: true });
    let q = adjust(&p);
    let c = find_clip(&q, "a").unwrap();
    assert_eq!(c.transform.opacity, 0);
    assert!(matches!(c.element, Element::Video { volume: 0, .. }));
}

#[test]
fn previews_are_scaled_to_even_sizes() {
    let p = new_project("t");
    let plan = compile_scaled(&p, fx(0.5)).unwrap();
    assert_eq!((plan.width, plan.height), (960, 540));
    let mut bad = new_project("t");
    bad.meta.width = -1;
    assert!(compile(&bad).is_err());
}

#[test]
fn curves_are_sampled_thirty_times_a_second() {
    let mut c = clip("c", 0.0, 4.0, Element::Test);
    c.animations.push(tween(AnimProperty::Opacity, 0.0, 2.0, 2.0));
    let points = property_curve(&c, AnimProperty::Opacity, 0);
    assert_eq!(points.first().copied(), Some((0, 0)));
    assert!(points.contains(&(500_000, fx(0.5))));
    // Opacity is never more than one.
    assert_eq!(points.last().unwrap().1, fx(1.0));
    assert!(points.len() >= 61);
    assert!(property_curve(&c, AnimProperty::X, 0).is_empty());
    let mut a = tween(AnimProperty::X, 0.0, 0.0, 0.0);
    for (t, value) in [(0.0, 5.0), (1.0, 7.0), (2.0, 3.0)] {
        a.keyframes.push(Keyframe { t: fx(t), value: fx(value), easing: Easing::Linear });
    }
    c.animations.push(a);
    let points = property_curve(&c, AnimProperty::X, fx(10.0));
    assert!(points.contains(&(10_500_000, fx(6.0))) && points.contains(&(11_500_000, fx(5.0))));
    assert_eq!(normalize(AnimProperty::Volume, -5), 0);
    assert_eq!(normalize(AnimProperty::X, -5), -5);
}

#[test]
fn easings_start_and_end_where_they_should() {
    for e in [Easing::Linear, Easing::EaseIn, Easing::EaseOut, Easing::EaseInOut] {
        assert_eq!((ease(e, 0), ease(e, fx(1.0))), (0, fx(1.0)));
    }
    assert_eq!(ease(Easing::EaseIn, fx(0.5)), fx(0.125));
    assert_eq!(ease(Easing::EaseOut, fx(0.5)), fx(0.875));
    assert_eq!(ease(Easing::EaseInOut, fx(0.25)), fx(0.0625));
    assert_eq!(mix(fx(10.0), fx(20.0), fx(0.25)), fx(12.5));
    assert_eq!(fraction(fx(1.5), fx(1.0), fx(3.0)), fx(0.25));
}

#[test]
fn animations_hold_their_ends() {
    let a = tween(AnimProperty::X, 1.0, 3.0, 2.0);
    assert_eq!(a.value_at(fx(-1.0)), fx(1.0));
    assert_eq!(a.value_at(fx(1.0)), fx(2.0));
    assert_eq!(a.value_at(fx(9.0)), fx(3.0));
}

#[test]
fn a_split_leaves_the_motion_as_it_was() {
    let mut p = new_project("t");
    let mut c = clip("c", 0.0, 4.0, video(2.0, 1.0));
    c.animations.push(tween(AnimProperty::X, 0.0, 8.0, 4.0));
    p.scenes[0].layers.push(c);
    let id = split_clip(&mut p, "c", fx(1.0)).unwrap();
    let (a, b) = (find_clip(&p, "c").unwrap(), find_clip(&p, &id).unwrap());
    assert_eq!(a.duration + b.duration, fx(4.0));
    assert_eq!(a.animations[0].value_at(fx(1.0)), fx(2.0));
    assert_eq!(b.animations[0].value_at(0), fx(2.0));
    assert_eq!(b.animations[0].value_at(fx(3.0)), fx(8.0));
    assert!(matches!(b.element, Element::Video { offset, .. } if offset == fx(1.0)));
    assert!(p.validate().is_ok());
}

#[test]
fn effects_are_described_to_the_engine() {
    assert_eq!(Effect::Blur { amount: fx(2.5) }.describe(), "gaussianblur sigma=2.5");
    assert_eq!(
        Effect::ChromaKey { color: "#0a0b0c".into(), angle: fx(20.0), noise: 0 }.describe(),
        "alpha method=custom target-r=10 target-g=11 target-b=12 angle=20 noise-level=0"
    );
    assert_eq!(
        Effect::Crop { left: 1, right: -2, top: 3, bottom: 4 }.describe(),
        "videocrop left=1 right=-2 top=3 bottom=4"
    );
    assert_eq!(
        Effect::Eq { low: fx(-1.5), mid: 0, high: fx(3.0) }.describe(),
        "equalizer-3bands band0=-1.5 band1=0 band2=3"
    );
    assert_eq!(
        Effect::Compressor { threshold: fx(0.25), ratio: fx(2.0) }.describe(),
        "audiodynamic mode=compressor threshold=0.25 ratio=2"
    );
    assert_eq!(
        Effect::Denoise { level: 2 }.describe(),
        "webrtcdsp echo-cancel=false noise-suppression=true noise-suppression-level=2"
    );
    assert_eq!(
        Effect::Color { brightness: 0, contrast: fx(1.0), saturation: fx(0.5), hue: fx(-0.25) }
            .describe(),
        "videobalance brightness=0 contrast=1 saturation=0.5 hue=-0.25"
    );
}

#[test]
fn speed_and_volume_become_effects() {
    assert!(speed_and_volume(&clip("c", 0.0, 1.0, video(1.0, 1.0))).is_empty());
    assert_eq!(
        speed_and_volume(&clip("c", 0.0, 1.0, video(2.0, 0.5))),
        vec![
            "pitch name=dcrate tempo=2",
            "videorate name=dcvrate rate=2",
            "volume name=dcvol volume=0.5"
        ]
    );
    let sound = Element::Audio { src: "a".into(), offset: 0, volume: fx(1.0), rate: fx(0.5) };
    assert_eq!(speed_and_volume(&clip("c", 0.0, 1.0, sound)), vec!["pitch name=dcrate tempo=0.5"]);
    assert!(speed_and_volume(&clip("c", 0.0, 1.0, Element::Test)).is_empty());
}

#[test]
fn clips_are_placed_by_their_transform() {
    let mut t = Transform::default();
    let p = placement(t, false);
    assert!(p.position.is_none() && p.width.is_none() && p.alpha.is_none());
    t.x = fx(-3.7);
    t.width = fx(10.9);
    t.opacity = fx(0.5);
    let p = placement(t, false);
    assert_eq!((p.position, p.width, p.height), (Some((-3, 0)), Some(10), None));
    assert_eq!(p.alpha, Some(fx(0.5)));
    assert!(placement(t, true).position.is_none());
    let meta = Meta { title: "t".into(), width: 1000, height: 500, fps: 30 };
    let at = Transform { x: fx(250.0), y: fx(125.0), ..Transform::default() };
    let title = title_placement(at, None, &meta);
    assert_eq!(title.halign, HAlign::Absolute);
    assert_eq!(title.position, Some((fx(0.25), fx(0.25))));
    let title = title_placement(Transform::default(), Some(TextAlign::Right), &meta);
    assert_eq!((title.halign, title.position), (HAlign::Right, None));
}

#[test]
fn cuts_are_found_by_their_time() {
    let wipes = vec![Wipe { start: fx(3.0), end: fx(4.0), kind: TransitionKind::Iris }];
    assert_eq!(wipe_for(&wipes, fx(3.0), fx(4.0)), Some(TransitionKind::Iris));
    assert_eq!(wipe_for(&wipes, fx(2.0), fx(3.0)), None);
    assert!(is_uri("file:///a") && !is_uri("a/b.mp4"));
}

#[test]
fn placeholders_are_filled_in() {
    let mut args = TextMap::new();
    args.insert("a".to_string(), "1".to_string());
    assert_eq!(fill_text("{a}{b}{a}", &args), "1{b}1");
    let c = substitute(&clip("c", 0.0, 1.0, words("{a}")), &args);
    assert!(matches!(&c.element, Element::Text { text, .. } if text == "1"));
}

#[test]
fn fresh_ids_are_not_in_use() {
    let mut p = new_project("t");
    p.scenes[0].layers.push(clip("clip-1", 0.0, 1.0, Element::Test));
    assert_eq!(fresh_id(&p, "clip-", 1), "clip-2");
    assert_eq!((count_clips(&p), count_ids(&p)), (Some(1), Some(2)));
}

#[test]
fn a_read_document_compiles_like_the_written_one() {
    let mut p: Project = new_project("t");
    p.scenes[0].layers.push(clip("c", 0.25, 1.5, video(1.0, 0.5)));
    let q = Project::from_json(&p.to_json().unwrap()).unwrap();
    let (a, b) = (compile(&p).unwrap(), compile(&q).unwrap());
    assert_eq!(a.clips[0].start_us, b.clips[0].start_us);
    assert_eq!(p.to_json(), q.to_json());
}
