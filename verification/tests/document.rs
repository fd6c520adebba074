use dualcut::color::parse_color;
use dualcut::desilence::remove_silence;
use dualcut::document::{
    default_color, default_font, Anim, AnimProperty, Clip, CompDef, Easing, Effect, Element,
    Keyframe, Project, TextAlign, Transition, TransitionKind,
};
use dualcut::edit::{detach_audio, move_clip_to_lane, ripple_delete, save_as_def};
use dualcut::ramp::expand_rate_ramp;
use dualcut::split::split_clip;
use dualcut::textmap::TextMap;
use dualcut::timeline::{find_clip, find_clip_mut, grow_scene_for_clip, remove_clip};

const DEMO: &str = r##"{
  "meta": { "title": "Demo", "width": 1920, "height": 1080, "fps": 30 },
  "defs": {
    "lower-third": {
      "params": ["name", "role"],
      "layers": [
        { "id": "lt-name", "type": "text", "text": "{name}", "start": 0.0, "transform": { "x": 80, "y": 820 } },
        { "id": "lt-role", "type": "text", "text": "{role}", "font": "Sans 24", "transform": { "x": 80, "y": 880 } }
      ]
    }
  },
  "scenes": [
    {
      "id": "scene-intro", "name": "Intro", "duration": 3.0,
      "layers": [
        { "id": "intro-title", "type": "text", "text": "Dualcut", "start": 0.4, "duration": 2.4 },
        { "id": "intro-bg", "type": "shape", "shape": "rect", "fill": "#202030" }
      ]
    },
    {
      "id": "scene-media", "name": "Media", "duration": 4.0,
      "layers": [
        { "id": "media-lower-third", "type": "compref", "ref": "lower-third", "start": 0.5, "duration": 3.0,
          "args": { "name": "Ada", "role": "Engineer" } },
        { "id": "media-ball", "type": "video", "src": "assets/ball.mp4", "start": 0.0, "duration": 4.0 }
      ]
    }
  ],
  "overlays": [
    { "id": "watermark", "clips": [
      { "id": "wm-text", "type": "text", "text": "demo", "start": 0.5, "duration": 5.5 }
    ] }
  ]
}"##;

fn demo() -> Project {
    Project::from_json(DEMO).unwrap()
}

/// Seconds or pixels as the document holds them.
fn fx(x: f64) -> i128 {
    (x * 1e9).round() as i128
}

#[test]
fn parses_and_validates_demo() {
    let p = demo();
    assert_eq!(p.scenes.len(), 2);
    assert_eq!(p.duration(), fx(7.0));
    assert_eq!(p.scene_offset(1), fx(3.0));
}

#[test]
fn roundtrips_json() {
    let p = demo();
    let p2 = Project::from_json(&p.to_json().unwrap()).unwrap();
    assert_eq!(p.to_json(), p2.to_json());
}

#[test]
fn rejects_duplicate_ids() {
    let mut p = demo();
    let clip = p.scenes[0].layers[0].clone();
    p.scenes[0].layers.push(clip);
    assert!(p.validate().is_err());
}

#[test]
fn rejects_unknown_def_ref() {
    let mut p = demo();
    if let Some(c) = find_clip_mut(&mut p, "media-lower-third") {
        c.element = Element::CompRef { def: "nope".into(), args: TextMap::new() };
    }
    assert!(p.validate().is_err());
}

#[test]
fn detach_audio_silences_video_and_adds_overlay_clip() {
    let mut p = demo();
    let new_id = detach_audio(&mut p, "media-ball").expect("detaches");
    match &find_clip(&p, "media-ball").unwrap().element {
        Element::Video { volume, .. } => assert_eq!(*volume, 0),
        _ => panic!("still a video clip"),
    }
    let audio = find_clip(&p, &new_id).unwrap();
    assert_eq!(audio.start, fx(3.0));
    assert!(matches!(audio.element, Element::Audio { .. }));
    assert!(p.validate().is_ok());
}

#[test]
fn remove_silence_splices_out_a_media_relative_gap() {
    let mut p = demo();
    let before = p.duration();
    let n = remove_silence(&mut p, "media-ball", &vec![(fx(1.0), fx(2.0))]).expect("removes");
    assert_eq!(n, 1);
    assert!(p.validate().is_ok());
    assert_eq!(p.duration(), before - fx(0.5));
    let remaining = find_clip(&p, "media-ball").unwrap();
    assert_eq!(remaining.duration, fx(1.0));
}

#[test]
fn remove_silence_skips_ranges_outside_the_used_media_window() {
    let mut p = demo();
    let before = p.duration();
    let n = remove_silence(&mut p, "media-ball", &vec![(fx(10.0), fx(11.0))]).expect("no-op");
    assert_eq!(n, 0);
    assert_eq!(p.duration(), before);
}

fn key(t: f64, value: f64, easing: Easing) -> Keyframe {
    Keyframe { t: fx(t), value: fx(value), easing }
}

fn rate_ramp_clip(keyframes: Vec<Keyframe>) -> Clip {
    Clip {
        id: "ramp".into(),
        start: fx(10.0),
        duration: 0,
        element: Element::Video {
            src: "assets/ball.mp4".into(),
            offset: fx(5.0),
            volume: fx(1.0),
            rate: fx(1.0),
        },
        transform: Default::default(),
        animations: vec![Anim {
            property: AnimProperty::Rate,
            from: 0,
            to: 0,
            start: 0,
            end: 0,
            easing: Easing::Linear,
            keyframes,
        }],
        effects: vec![],
    }
}

#[test]
fn expand_rate_ramp_none_without_a_rate_animation() {
    let mut c = rate_ramp_clip(vec![]);
    c.animations.clear();
    assert!(expand_rate_ramp(&c).is_none());
}

#[test]
fn expand_rate_ramp_none_with_fewer_than_two_keyframes() {
    let c = rate_ramp_clip(vec![key(0.0, 2.0, Easing::Linear)]);
    assert!(expand_rate_ramp(&c).is_none());
}

#[test]
fn expand_rate_ramp_two_keyframes_one_segment() {
    let c = rate_ramp_clip(vec![key(0.0, 2.0, Easing::Linear), key(4.0, 2.0, Easing::Linear)]);
    let segs = expand_rate_ramp(&c).expect("expands");
    assert_eq!(segs.len(), 1);
    assert_eq!(segs[0].id, "ramp-ramp0");
    assert_eq!(segs[0].start, fx(10.0));
    assert_eq!(segs[0].duration, fx(4.0));
    assert!(segs[0].animations.is_empty());
    match &segs[0].element {
        Element::Video { rate, offset, .. } => {
            assert_eq!(*rate, fx(2.0));
            assert_eq!(*offset, fx(5.0));
        }
        _ => panic!("expected video"),
    }
}

#[test]
fn expand_rate_ramp_accumulates_media_offset_across_segments() {
    let c = rate_ramp_clip(vec![
        key(0.0, 1.0, Easing::Linear),
        key(2.0, 1.0, Easing::Linear),
        key(4.0, 3.0, Easing::Linear),
    ]);
    let segs = expand_rate_ramp(&c).expect("expands");
    assert_eq!(segs.len(), 2);
    let offsets: Vec<i128> = segs
        .iter()
        .map(|s| match &s.element {
            Element::Video { offset, .. } => *offset,
            _ => panic!("expected video"),
        })
        .collect();
    assert_eq!(offsets[0], fx(5.0));
    assert_eq!(offsets[1], fx(5.0 + 2.0 * 1.0));
}

#[test]
fn rate_tween_without_keyframes_still_rejected() {
    let mut c = rate_ramp_clip(vec![]);
    c.animations = vec![Anim {
        property: AnimProperty::Rate,
        from: fx(1.0),
        to: fx(2.0),
        start: 0,
        end: fx(2.0),
        easing: Easing::Linear,
        keyframes: vec![],
    }];
    assert!(c.validate(&TextMap::new()).is_err());
}

#[test]
fn rate_keyframes_out_of_range_rejected() {
    let c = rate_ramp_clip(vec![key(0.0, 0.05, Easing::Linear), key(2.0, 2.0, Easing::Linear)]);
    assert!(c.validate(&TextMap::new()).is_err());
}

#[test]
fn valid_rate_keyframes_pass_clip_validation() {
    let c = rate_ramp_clip(vec![key(0.0, 1.0, Easing::Linear), key(2.0, 2.0, Easing::Linear)]);
    assert!(c.validate(&TextMap::new()).is_ok());
}

#[test]
fn remove_clip_removes_everywhere() {
    let mut p = demo();
    remove_clip(&mut p, "wm-text");
    assert!(find_clip(&p, "wm-text").is_none());
    assert!(p.validate().is_ok());
}

#[test]
fn transitions_overlap_scene_offsets() {
    let mut p = demo();
    p.scenes[1].transition =
        Some(Transition { kind: TransitionKind::Crossfade, duration: fx(1.0) });
    assert_eq!(p.scene_offset(1), fx(2.0));
    assert_eq!(p.duration(), fx(6.0));
    assert!(p.validate().is_ok());
    p.scenes[1].transition =
        Some(Transition { kind: TransitionKind::Crossfade, duration: fx(5.0) });
    assert!(p.validate().is_err());
}

#[test]
fn save_as_def_normalizes_and_validates() {
    let mut p = demo();
    save_as_def(&mut p, &vec!["intro-title".into(), "wm-text".into()], "my-template").unwrap();
    let def = p.defs.get("my-template").unwrap();
    assert_eq!(def.layers.len(), 2);
    assert_eq!(def.layers.iter().map(|c| c.start).min(), Some(0));
    assert!(p.validate().is_ok());
    assert!(save_as_def(&mut p, &vec!["intro-bg".into()], "my-template").is_err());
    assert!(save_as_def(&mut p, &vec!["media-lower-third".into()], "t2").is_err());
}

#[test]
fn move_clip_between_lanes() {
    let mut p = demo();
    move_clip_to_lane(&mut p, "wm-text", 0, fx(4.0)).unwrap();
    let scene = p.scenes.iter().find(|s| s.id == "scene-media").unwrap();
    let clip = scene.layers.iter().find(|c| c.id == "wm-text").unwrap();
    assert_eq!(clip.start, fx(1.0));
    assert!(p.overlays.iter().all(|t| t.clips.iter().all(|c| c.id != "wm-text")));

    let max_layers = p.scenes.iter().map(|s| s.layers.len()).max().unwrap();
    move_clip_to_lane(&mut p, "wm-text", max_layers, fx(2.5)).unwrap();
    let clip = p.overlays[0].clips.iter().find(|c| c.id == "wm-text").unwrap();
    assert_eq!(clip.start, fx(2.5));
    assert!(p.validate().is_ok());
}

#[test]
fn document_round_trips_exactly() {
    let mut p = demo();
    p.library.push("assets/ball.mp4".into());
    p.overlays[0].muted = true;
    p.overlays[0].hidden = true;
    if let Some(c) = find_clip_mut(&mut p, "intro-title") {
        if let Element::Text { align, outline, shadow, .. } = &mut c.element {
            *align = Some(TextAlign::Right);
            *outline = Some("#102030".into());
            *shadow = true;
        }
        c.effects.push(Effect::ChromaKey {
            color: "#00ff00".into(),
            angle: fx(30.0),
            noise: fx(4.0),
        });
        c.effects.push(Effect::Eq { low: fx(-6.0), mid: 0, high: fx(3.0) });
        c.animations.push(Anim {
            property: AnimProperty::Volume,
            from: 0,
            to: 0,
            start: 0,
            end: 0,
            easing: Easing::Linear,
            keyframes: vec![key(0.0, 1.0, Easing::Linear), key(1.0, 0.2, Easing::EaseOut)],
        });
    }
    let json = p.to_json().unwrap();
    let back = Project::from_json(&json).expect("round trip parses");
    assert_eq!(Some(json), back.to_json(), "serialize -> parse -> serialize must be stable");
}

#[test]
fn validation_rejects_bad_documents() {
    let mut p = demo();
    let dup = p.scenes[0].layers[0].clone();
    p.scenes[0].layers.push(dup);
    assert!(p.validate().is_err(), "duplicate ids must fail");
    let mut p = demo();
    if let Some(t) = &mut p.scenes[1].transition {
        t.duration = fx(-1.0);
    }
    assert!(p.validate().is_err() || p.scenes[1].transition.is_none());
    let mut p = demo();
    p.scenes[0].layers[0].element =
        Element::CompRef { def: "missing".into(), args: TextMap::new() };
    assert!(p.validate().is_err(), "unknown def must fail");
    let mut p = demo();
    p.scenes[0].layers[0].effects.push(Effect::Eq { low: fx(-99.0), mid: 0, high: 0 });
    assert!(p.validate().is_err(), "eq out of range must fail");
    let mut p = demo();
    p.scenes[0].layers[0].effects.push(Effect::ChromaKey {
        color: "#00ff00".into(),
        angle: fx(0.5),
        noise: 0,
    });
    assert!(p.validate().is_err(), "chromakey angle out of range must fail");
}

#[test]
fn split_rejects_edges_and_unknown() {
    let mut p = demo();
    assert!(split_clip(&mut p, "nope", fx(1.0)).is_err());
    assert!(split_clip(&mut p, "media-ball", fx(3.0)).is_err());
}

#[test]
fn grow_scene_for_clip_expands_but_never_shrinks() {
    let mut p = demo();
    if let Some(c) = find_clip_mut(&mut p, "media-ball") {
        c.start = fx(6.0);
        c.duration = fx(5.0);
    }
    grow_scene_for_clip(&mut p, "media-ball");
    assert_eq!(p.scenes[1].duration, fx(11.0));
    if let Some(c) = find_clip_mut(&mut p, "media-ball") {
        c.duration = fx(1.0);
    }
    grow_scene_for_clip(&mut p, "media-ball");
    assert_eq!(p.scenes[1].duration, fx(11.0));
}

#[test]
fn ripple_delete_closes_gaps() {
    let mut p = demo();
    p.overlays[0].clips.push(Clip {
        id: "late".into(),
        start: fx(6.0),
        duration: fx(1.0),
        element: Element::Text {
            text: "x".into(),
            font: default_font(),
            color: default_color(),
            align: None,
            outline: None,
            shadow: false,
        },
        transform: Default::default(),
        animations: vec![],
        effects: vec![],
    });
    let first = p.overlays[0].clips[0].clone();
    ripple_delete(&mut p, &first.id).unwrap();
    let late = find_clip(&p, "late").unwrap();
    assert_eq!(late.start, fx(6.0) - first.duration);
    let before = p.scenes[1].duration;
    ripple_delete(&mut p, "media-ball").unwrap();
    assert!(p.scenes[1].duration <= before);
    assert!(p.validate().is_ok());
}

#[test]
fn split_clip_divides_media_and_animations() {
    let mut p = demo();
    if let Some(c) = find_clip_mut(&mut p, "media-ball") {
        c.animations.push(Anim {
            property: AnimProperty::Opacity,
            from: 0,
            to: fx(1.0),
            start: 0,
            end: fx(4.0),
            easing: Easing::Linear,
            keyframes: vec![],
        });
    }
    let new_id = split_clip(&mut p, "media-ball", fx(5.0)).unwrap();
    let left = find_clip(&p, "media-ball").unwrap();
    let right = find_clip(&p, &new_id).unwrap();
    assert_eq!(left.duration, fx(2.0));
    assert_eq!(right.start, fx(2.0));
    assert_eq!(right.duration, fx(2.0));
    if let Element::Video { offset, .. } = &right.element {
        assert_eq!(*offset, fx(2.0));
    } else {
        panic!("right half should stay a video clip");
    }
    assert_eq!(left.animations[0].to, fx(0.5));
    assert_eq!(right.animations[0].from, fx(0.5));
    assert_eq!(right.animations[0].end, fx(2.0));
    assert!(p.validate().is_ok());
    assert!(split_clip(&mut p, &new_id, fx(30.0)).is_err());
}

fn plain_text(text: &str) -> Element {
    Element::Text {
        text: text.into(),
        font: default_font(),
        color: default_color(),
        align: None,
        outline: None,
        shadow: false,
    }
}

fn bare(id: &str, element: Element) -> Clip {
    Clip {
        id: id.into(),
        start: 0,
        duration: 0,
        element,
        transform: Default::default(),
        animations: vec![],
        effects: vec![],
    }
}

#[test]
fn nested_defs_expand_and_cycles_fail() {
    let mut p = demo();
    p.defs.insert(
        "inner".into(),
        CompDef { params: vec!["msg".into()], layers: vec![bare("in-t", plain_text("{msg}"))] },
    );
    let mut args = TextMap::new();
    args.insert("msg".to_string(), "{msg}".to_string());
    p.defs.insert(
        "outer".into(),
        CompDef {
            params: vec!["msg".into()],
            layers: vec![bare("out-ref", Element::CompRef { def: "inner".into(), args })],
        },
    );
    assert!(p.validate().is_ok());
    p.defs.insert(
        "inner".into(),
        CompDef {
            params: vec!["msg".into()],
            layers: vec![bare(
                "in-t",
                Element::CompRef { def: "outer".into(), args: TextMap::new() },
            )],
        },
    );
    assert!(p.validate().is_err());
}

#[test]
fn effects_and_volume_anim_validate() {
    let mut p = demo();
    if let Some(c) = find_clip_mut(&mut p, "media-ball") {
        c.effects.push(Effect::Blur { amount: fx(4.0) });
        c.effects.push(Effect::Color {
            brightness: fx(0.1),
            contrast: fx(1.1),
            saturation: fx(0.8),
            hue: 0,
        });
        c.animations.push(Anim {
            property: AnimProperty::Volume,
            from: fx(1.0),
            to: 0,
            start: fx(2.0),
            end: fx(3.0),
            easing: Easing::EaseOut,
            keyframes: vec![],
        });
    }
    assert!(p.validate().is_ok());
    if let Some(c) = find_clip_mut(&mut p, "media-ball") {
        c.effects.push(Effect::Blur { amount: fx(99.0) });
    }
    assert!(p.validate().is_err());
}

#[test]
fn keyframe_animations_validate() {
    let mut p = demo();
    if let Some(c) = find_clip_mut(&mut p, "intro-title") {
        c.animations.push(Anim {
            property: AnimProperty::Y,
            from: 0,
            to: 0,
            start: 0,
            end: 0,
            easing: Easing::Linear,
            keyframes: vec![
                key(0.0, 700.0, Easing::Linear),
                key(1.0, 300.0, Easing::EaseOut),
                key(2.0, 320.0, Easing::EaseInOut),
            ],
        });
    }
    assert!(p.validate().is_ok());
    if let Some(c) = find_clip_mut(&mut p, "intro-title") {
        c.animations.last_mut().unwrap().keyframes[2].t = fx(0.5);
    }
    assert!(p.validate().is_err());
}

#[test]
fn parse_color_handles_rgb_and_argb() {
    assert_eq!(parse_color("#ffffff"), 0xffffffff);
    assert_eq!(parse_color("#80ffffff"), 0x80ffffff);
}

fn spoken() -> Project {
    Project::from_json(
        r#"{"meta":{"title":"t","width":640,"height":360,"fps":25},"scenes":[
            {"id":"s","duration":10,"layers":[
                {"id":"v","type":"video","src":"a.mp4","duration":10}]}]}"#,
    )
    .unwrap()
}

fn places(p: &Project) -> Vec<(i128, i128, i128)> {
    p.scenes[0]
        .layers
        .iter()
        .map(|c| match &c.element {
            Element::Video { offset, .. } => (c.start, c.duration, *offset),
            _ => panic!("a video clip"),
        })
        .collect()
}

#[test]
fn every_later_piece_moves_up_when_silence_is_cut_out() {
    let mut p = spoken();
    let gaps = vec![(fx(2.0), fx(3.0)), (fx(6.0), fx(7.0))];
    assert_eq!(remove_silence(&mut p, "v", &gaps).expect("removes"), 2);
    assert_eq!(
        places(&p),
        vec![
            (0, fx(2.0), 0),
            (fx(2.0), fx(3.0), fx(3.0)),
            (fx(5.0), fx(3.0), fx(7.0)),
        ]
    );
    assert_eq!(p.scenes[0].duration, fx(8.0));
    assert!(p.validate().is_ok());
}

#[test]
fn three_gaps_leave_four_pieces_back_to_back() {
    let mut p = spoken();
    let gaps = vec![(fx(1.0), fx(2.0)), (fx(4.0), fx(5.0)), (fx(8.0), fx(9.0))];
    assert_eq!(remove_silence(&mut p, "v", &gaps).expect("removes"), 3);
    let mut end = 0;
    for (start, duration, _) in places(&p) {
        assert_eq!(start, end);
        end = start + duration;
    }
    assert_eq!(end, fx(7.0));
    assert_eq!(p.scenes[0].duration, fx(7.0));
}

#[test]
fn silence_up_to_the_edge_of_a_clip_leaves_the_document_alone() {
    let mut p = spoken();
    let before = p.to_json().unwrap();
    assert_eq!(remove_silence(&mut p, "v", &vec![(fx(9.0), fx(10.0))]).expect("no-op"), 0);
    assert_eq!(p.to_json().unwrap(), before);
}

#[test]
fn a_document_stays_valid_when_a_clip_is_removed_or_saved() {
    let mut p = demo();
    save_as_def(&mut p, &vec!["media-ball".to_string()], "ball").expect("saves");
    assert!(p.validate().is_ok());
    remove_clip(&mut p, "media-ball");
    assert!(find_clip(&p, "media-ball").is_none());
    assert!(p.validate().is_ok());
}
