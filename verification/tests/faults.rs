use dualcut::api::{
    engine_route, file_route, op_summary, parse_op, render_request, run_op, silence_source, Op,
    OpError, Reply, Route,
};
use dualcut::desilence::remove_silence;
use dualcut::document::{
    Anim, AnimProperty, Clip, CompDef, Easing, Effect, Element, Keyframe, OverlayTrack, Project,
    Transition, TransitionKind,
};
use dualcut::edit::{detach_audio, move_clip_to_lane, ripple_delete, save_as_def};
use dualcut::error::EditError;
use dualcut::faults::Fault;
use dualcut::split::split_clip;
use dualcut::templates::new_project;
use dualcut::textmap::TextMap;
use dualcut::timeline::find_clip;

fn fx(x: f64) -> i128 {
    (x * 1e9).round() as i128
}

fn clip(id: &str, start: f64, duration: f64, element: Element) -> Clip {
    Clip {
        id: id.into(),
        start: fx(start),
        duration: fx(duration),
        element,
        transform: Default::default(),
        animations: Vec::new(),
        effects: Vec::new(),
    }
}

fn video(src: &str) -> Element {
    Element::Video { src: src.into(), offset: 0, volume: fx(1.0), rate: fx(1.0) }
}

fn tween(property: AnimProperty, start: f64, end: f64) -> Anim {
    Anim {
        property,
        from: 0,
        to: fx(1.0),
        start: fx(start),
        end: fx(end),
        easing: Easing::Linear,
        keyframes: Vec::new(),
    }
}

fn keyed(times: &[f64], value: f64, property: AnimProperty) -> Anim {
    Anim {
        keyframes: times
            .iter()
            .map(|t| Keyframe { t: fx(*t), value: fx(value), easing: Easing::Linear })
            .collect(),
        ..tween(property, 0.0, 0.0)
    }
}

/// A project with one clip on its scene.
fn with(c: Clip) -> Project {
    let mut p = new_project("t");
    p.scenes[0].layers.push(c);
    p
}

fn fault(p: &Project) -> Fault {
    p.validate().unwrap_err().fault
}

fn fault_of_anim(a: Anim) -> Fault {
    let mut c = clip("c", 0.0, 1.0, video("a.mp4"));
    c.animations.push(a);
    fault(&with(c))
}

fn fault_of_effect(e: Effect) -> Fault {
    let mut c = clip("c", 0.0, 1.0, video("a.mp4"));
    c.effects.push(e);
    fault(&with(c))
}

#[test]
fn every_fault_is_found() {
    let mut p = new_project("t");
    p.meta.fps = 0;
    assert_eq!(fault(&p), Fault::Meta);
    let mut p = new_project("t");
    p.scenes[0].id.clear();
    assert_eq!(fault(&p), Fault::EmptySceneId);
    assert_eq!(fault(&with(clip("", 0.0, 1.0, Element::Test))), Fault::EmptyClipId);
    let mut p = new_project("t");
    p.overlays.push(OverlayTrack {
        id: "".into(),
        muted: false,
        hidden: false,
        locked: false,
        name: "".into(),
        clips: vec![],
    });
    assert_eq!(fault(&p), Fault::EmptyTrackId);
    assert_eq!(fault(&with(clip("scene-1", 0.0, 1.0, Element::Test))), Fault::DuplicateId);
    let mut p = new_project("t");
    p.scenes[0].duration = 0;
    assert_eq!(fault(&p), Fault::SceneDuration);
    let mut p = new_project("t");
    p.scenes[0].transition = Some(Transition { kind: TransitionKind::Iris, duration: fx(5.0) });
    assert_eq!(fault(&p), Fault::TransitionDuration);
    assert_eq!(fault(&with(clip("c", -0.1, 1.0, Element::Test))), Fault::ClipTime);
    assert_eq!(fault_of_anim(tween(AnimProperty::X, 1.0, 1.0)), Fault::AnimWindow);
    assert_eq!(fault_of_anim(keyed(&[0.0], 1.0, AnimProperty::X)), Fault::TooFewKeyframes);
    assert_eq!(fault_of_anim(keyed(&[0.0, 0.0], 1.0, AnimProperty::X)), Fault::KeyframeOrder);
    let slow = Element::Audio { src: "a".into(), offset: 0, volume: 0, rate: fx(0.05) };
    assert_eq!(fault(&with(clip("c", 0.0, 1.0, slow))), Fault::Rate);
    assert_eq!(fault_of_anim(tween(AnimProperty::Rate, 0.0, 1.0)), Fault::RateTween);
    assert_eq!(fault_of_anim(keyed(&[0.0, 1.0], 11.0, AnimProperty::Rate)), Fault::RateKeyframe);
    assert_eq!(fault_of_effect(Effect::Blur { amount: fx(50.1) }), Fault::Blur);
    let key = Effect::ChromaKey { color: "#0f0".into(), angle: fx(91.0), noise: 0 };
    assert_eq!(fault_of_effect(key), Fault::ChromaKey);
    let crop = Effect::Crop { left: 0, right: -1, top: 0, bottom: 0 };
    assert_eq!(fault_of_effect(crop), Fault::Crop);
    assert_eq!(fault_of_effect(Effect::Eq { low: 0, mid: fx(12.5), high: 0 }), Fault::Eq);
    let comp = Effect::Compressor { threshold: fx(0.5), ratio: fx(4.5) };
    assert_eq!(fault_of_effect(comp), Fault::Compressor);
    assert_eq!(fault_of_effect(Effect::Denoise { level: 4 }), Fault::Denoise);
    let color = Effect::Color { brightness: 0, contrast: fx(2.1), saturation: 0, hue: 0 };
    assert_eq!(fault_of_effect(color), Fault::Color);
    let unknown = Element::CompRef { def: "gone".into(), args: TextMap::new() };
    let p = with(clip("c", 0.0, 1.0, unknown));
    let e = p.validate().unwrap_err();
    assert_eq!((e.fault, e.id.as_str(), e.detail.as_str()), (Fault::UnknownDef, "c", "gone"));
    let mut p = new_project("t");
    let me = Element::CompRef { def: "loop".into(), args: TextMap::new() };
    p.defs.insert(
        "loop".into(),
        CompDef { params: vec![], layers: vec![clip("l", 0.0, 0.0, me)] },
    );
    let e = p.validate().unwrap_err();
    assert_eq!(
        (e.fault, e.id.as_str(), e.detail.as_str()),
        (Fault::DefCycle, "loop", "loop")
    );
}

#[test]
fn edits_are_refused_with_their_reasons() {
    let mut p = with(clip("c", 0.0, 2.0, video("a.mp4")));
    p.scenes[0].layers.push(clip("t", 0.0, 2.0, Element::Test));
    assert!(matches!(split_clip(&mut p, "no", 0), Err(EditError::NoClip)));
    assert!(matches!(split_clip(&mut p, "c", fx(0.04)), Err(EditError::SplitOutside)));
    assert!(matches!(ripple_delete(&mut p, "no"), Err(EditError::NoClip)));
    assert!(matches!(remove_silence(&mut p, "t", &vec![]), Err(EditError::NoMedia)));
    assert!(matches!(remove_silence(&mut p, "no", &vec![]), Err(EditError::NoClip)));
    assert!(matches!(save_as_def(&mut p, &vec!["c".into()], ""), Err(EditError::EmptyName)));
    assert!(matches!(
        save_as_def(&mut p, &vec!["no".into()], "d"),
        Err(EditError::NothingSelected)
    ));
    assert!(matches!(move_clip_to_lane(&mut p, "c", 2, 0), Err(EditError::LaneOutOfRange)));
    assert!(matches!(move_clip_to_lane(&mut p, "no", 0, 0), Err(EditError::NoClip)));
    assert!(detach_audio(&mut p, "t").is_none());
    assert!(save_as_def(&mut p, &vec!["c".into()], "d").is_ok());
    assert!(matches!(save_as_def(&mut p, &vec!["c".into()], "d"), Err(EditError::DefExists)));
    let inst = Element::CompRef { def: "d".into(), args: TextMap::new() };
    p.scenes[0].layers.push(clip("i", 0.0, 1.0, inst));
    assert!(matches!(save_as_def(&mut p, &vec!["i".into()], "e"), Err(EditError::NestedDef)));
    let fast = Element::Video { src: "a".into(), offset: 0, volume: 0, rate: fx(2.0) };
    let mut p = with(clip("f", 0.0, 2.0, fast));
    assert!(matches!(remove_silence(&mut p, "f", &vec![]), Err(EditError::RateNotNormal)));
}

#[test]
fn requests_are_routed() {
    assert_eq!(file_route("GET", "/project"), Route::GetProject);
    assert_eq!(file_route("POST", "/op"), Route::Op);
    assert_eq!(engine_route("GET", "/status"), Route::Status);
    assert_eq!(engine_route("GET", "/nothing"), Route::NotFound);
}

#[test]
fn operations_are_read_from_their_json() {
    match parse_op(r#"{"op":"split","id":"c","at":1.5}"#) {
        Ok(Op::Split { id, at }) => assert_eq!((id.as_str(), at), ("c", fx(1.5))),
        other => panic!("{other:?}"),
    }
    match parse_op(r#"{"op":"move_to_lane","id":"c","lane":2,"at":0}"#) {
        Ok(Op::MoveToLane { id, lane, at }) => assert_eq!((id.as_str(), lane, at), ("c", 2, 0)),
        other => panic!("{other:?}"),
    }
    match parse_op(r#"{"op":"remove_silence","id":"c"}"#) {
        Ok(Op::RemoveSilence { threshold, min_duration, .. }) => {
            assert_eq!((threshold, min_duration), (fx(-40.0), fx(0.5)))
        }
        other => panic!("{other:?}"),
    }
    assert!(matches!(parse_op("nope"), Err(OpError::BadJson)));
    assert!(matches!(parse_op(r#"{"op":"split","id":"c"}"#), Err(OpError::AtRequired)));
    assert!(matches!(
        parse_op(r#"{"op":"move_to_lane","id":"c","at":1}"#),
        Err(OpError::LaneRequired)
    ));
    match parse_op(r#"{"op":"fly","id":"c"}"#) {
        Err(OpError::UnknownOp(name)) => assert_eq!(name, "fly"),
        other => panic!("{other:?}"),
    }
    assert_eq!(op_summary(&Op::RippleDelete { id: "c".into() }), "ripple_delete c (agent)");
}

#[test]
fn operations_run_all_or_not_at_all() {
    let p = with(clip("c", 0.0, 2.0, video("a.mp4")));
    let (q, reply) = run_op(&p, &Op::Split { id: "c".into(), at: fx(1.0) }, &vec![]).unwrap();
    match reply {
        Reply::NewId(id) => assert_eq!(find_clip(&q, &id).unwrap().start, fx(1.0)),
        other => panic!("{other:?}"),
    }
    let op = Op::DetachAudio { id: "scene".into() };
    assert!(matches!(run_op(&p, &op, &vec![]), Err(OpError::NotVideo)));
    let op = Op::Split { id: "c".into(), at: fx(9.0) };
    assert!(matches!(run_op(&p, &op, &vec![]), Err(OpError::Edit(EditError::SplitOutside))));
    let op = Op::RemoveSilence { id: "c".into(), threshold: 0, min_duration: 0 };
    let (q, reply) = run_op(&p, &op, &vec![(fx(0.5), fx(1.0))]).unwrap();
    assert!(matches!(reply, Reply::Removed(1)));
    assert_eq!(find_clip(&q, "c").unwrap().duration, fx(0.5));
    let mut huge = p.clone();
    huge.scenes[0].duration = i128::MAX;
    let op = Op::RippleDelete { id: "c".into() };
    assert!(matches!(run_op(&huge, &op, &vec![]), Err(OpError::TooLarge)));
    assert_eq!(silence_source(&p, "c").unwrap(), "a.mp4");
    assert!(matches!(silence_source(&p, "x"), Err(EditError::NoClip)));
}

#[test]
fn a_render_request_has_defaults() {
    let (out, profile) = render_request("");
    assert_eq!((out.as_str(), profile.as_str()), ("out/render.mp4", "out/render.mp4"));
    let (out, profile) = render_request(r#"{"out":"a.webm","profile":"webm"}"#);
    assert_eq!((out.as_str(), profile.as_str()), ("a.webm", "webm"));
}
