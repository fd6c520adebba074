use dualcut::bindings::{action_for, default_preset, presets};
use dualcut::catalog::{catalog, show_template, template_args, template_project};
use dualcut::cliplist::{clip_rows, row_selects, toggle_group, Row};
use dualcut::document::{
    AnimProperty, Clip, CompDef, Easing, Effect, Element, OverlayTrack, Project, TextAlign,
    Transition, TransitionKind,
};
use dualcut::drag::{drop_clip, Drag, Dropped};
use dualcut::export::{
    default_name, encoding_profile, export_target, extension_choice, part_file, profile_choice,
    progress, rename_for, Asked, CapsValue, ExportQueue, Job,
};
use dualcut::history::{agent_edit, EditSource, Session};
use dualcut::inspector::{
    add_anim_preset, add_effect, align_choice, apply_form, change_anim, change_effect, choose_align,
    choose_easing, choose_property, delete_clips, easing_choice, property_choice, remove_anim,
    remove_effect, AnimChange, AnimPreset, ClipForm, EffectChange, EffectKind, TextForm,
};
use dualcut::keys::{Action, KeyEntry, KeyTable};
use dualcut::medialib::{
    add_to_library, insert_media, insert_template, media_kind, remove_from_library, slug, MediaKind,
};
use dualcut::player::{end_target, key_command, step_target, window_title, Command, Held, Watch};
use dualcut::prefs::{
    apply_default_font_family, load_recents, pref_value, prefs_set, prefs_set_preview_scale,
    prefs_use_proxies, preview_scale, quality_choice, quality_scale, recents_text, remember_recent,
};
use dualcut::previews::{media_sources, plan_previews, with_proxies, SourceKind, SourceState};
use dualcut::sceneform::{
    choose_transition, move_scene, set_scene_duration, set_transition, transition_choice,
};
use dualcut::skills::{
    skill_candidates, skill_file, skill_installed, skill_source_dir, skill_update_available,
};
use dualcut::snap::drag_clip;
use dualcut::strip::{
    ruler_click, selected_scene, strip_lanes, toggle_layer, toggle_track, zoom, LaneToggle,
};
use dualcut::subtitles::apply_captions;
use dualcut::templates::{new_project, new_project_sized};
use dualcut::textmap::TextMap;
use dualcut::timeline::find_clip;

fn fx(x: f64) -> i128 {
    (x * 1e9).round() as i128
}

fn clip(id: &str, start: f64, duration: f64, element: Element) -> Clip {
    Clip {
        id: id.into(),
        start: fx(start),
        duration: fx(duration),
        element,
        transform: Default::default(),
        animations: Vec::new(),
        effects: Vec::new(),
    }
}

fn video(src: &str) -> Element {
    Element::Video { src: src.into(), offset: 0, volume: fx(1.0), rate: fx(1.0) }
}

fn track(id: &str, clips: Vec<Clip>) -> OverlayTrack {
    OverlayTrack {
        id: id.into(),
        muted: false,
        hidden: false,
        locked: false,
        name: String::new(),
        clips,
    }
}

/// One scene of five seconds with the clip `c`, and a track with the clip `o`.
fn project() -> Project {
    let mut p = new_project("t");
    p.scenes[0].layers.push(clip("c", 1.0, 2.0, video("a.mp4")));
    p.overlays.push(track("tr", vec![clip("o", 0.5, 1.0, Element::Test)]));
    p
}

fn session(p: Project) -> Session {
    Session { project: Some(p), saved: true, selected: None, history: vec![], redo: vec![] }
}

#[test]
fn undo_and_redo_lead_back_and_forth() {
    let mut s = session(new_project("t"));
    let next = project();
    s.commit(&next, 7);
    assert_eq!(s.history.len(), 1);
    assert_eq!(s.history[0].summary, "Added 2 clips");
    assert_eq!((s.history[0].source, s.history[0].at), (EditSource::Gui, 7));
    s.adopt(next);
    let back = s.undo().unwrap();
    assert!(back.scenes[0].layers.is_empty());
    s.adopt(back);
    assert_eq!((s.history.len(), s.redo.len()), (0, 1));
    let forth = s.redo(8).unwrap();
    assert_eq!(forth.scenes[0].layers.len(), 1);
    assert_eq!(s.history[0].summary, "Redo");
    assert!(s.redo.is_empty());
}

#[test]
fn a_jump_goes_back_several_steps() {
    let mut s = session(new_project("one"));
    for name in ["two", "three"] {
        let next = new_project(name);
        s.commit(&next, 0);
        s.adopt(next);
    }
    assert_eq!(s.history[1].summary, "Edited project");
    let p = s.jump_to_history(0).unwrap();
    assert_eq!(p.meta.title, "one");
    assert!(s.history.is_empty());
    assert_eq!(s.redo.len(), 1);
    assert!(s.jump_to_history(0).is_none());
    s.restart(false);
    assert!(s.redo.is_empty());
    s.record(EditSource::Agent, "x".into(), 1);
    assert!(s.undo().is_none());
}

#[test]
fn recent_edits_of_an_agent_are_recognized() {
    let (source, summary) = agent_edit(r#"{"at_unix_ms":100,"summary":"split c (agent)"}"#, 5100).unwrap();
    assert_eq!(source, EditSource::Agent);
    assert_eq!(summary, "split c (agent)");
    assert_eq!(agent_edit(r#"{"at_unix_ms":100}"#, 0).unwrap().1, "Agent edit");
    assert!(agent_edit("nope", 0).is_none());
    assert!(agent_edit(r#"{"at_unix_ms":100,"summary":"x"}"#, 5101).is_none());
}

#[test]
fn exports_are_encoded_by_profile() {
    let mp4 = encoding_profile("mp4").unwrap();
    assert_eq!(mp4.container.media, "video/quicktime");
    assert!(mp4.video.is_some());
    let by_name = encoding_profile("out/film.webm").unwrap();
    assert_eq!(by_name.container.media, "video/webm");
    let sound = encoding_profile("mp3").unwrap();
    assert!(sound.video.is_none());
    assert!(matches!(sound.audio.field, Some((_, CapsValue::Number(_)))));
    assert_eq!(encoding_profile("a.xyz").unwrap_err().name, "xyz");
}

#[test]
fn export_files_are_named_by_choice() {
    for i in 0..12 {
        assert!(encoding_profile(profile_choice(i)).is_ok());
    }
    assert_eq!(rename_for("film.mp4", 0), format!("film.{}", extension_choice(0)));
    assert_eq!(export_target("/out", "a.mp4"), "/out/a.mp4");
    assert_eq!(part_file("a.mp4"), "a.mp4.part");
    assert_eq!(part_file(".a"), ".a.out.part");
    assert_eq!(default_name("My Film", "20240101"), "my-film_20240101.mp4");
    assert_eq!(progress(500_000_000, fx(1.0)), fx(0.5));
    assert_eq!(progress(0, 0), 0);
}

#[test]
fn one_export_runs_at_a_time() {
    let mut q = ExportQueue::new();
    let job = |out: &str| Job { out: out.into(), profile: "mp4".into() };
    assert!(matches!(q.ask(job("a")), Asked::Start(j) if j.out == "a"));
    assert!(matches!(q.ask(job("b")), Asked::Queued(1)));
    assert!(matches!(q.ask(job("c")), Asked::Queued(2)));
    assert_eq!(q.finished().unwrap().out, "b");
    assert_eq!(q.finished().unwrap().out, "c");
    assert!(q.finished().is_none());
    assert!(!q.running);
}

#[test]
fn zooms_are_held_between_their_bounds() {
    assert_eq!(zoom(0), fx(8.0));
    assert_eq!(zoom(fx(1000.0)), fx(240.0));
    assert_eq!(zoom(fx(40.0)), fx(40.0));
}

#[test]
fn the_strip_has_a_lane_for_each_layer_and_track() {
    let mut p = project();
    let lanes = strip_lanes(&p, fx(40.0));
    assert_eq!(lanes.len(), 2);
    assert_eq!((lanes[0].label.as_str(), lanes[1].label.as_str()), ("Layer 1", "tr"));
    assert_eq!(lanes[0].clips[0].width, 80);
    assert_eq!(lanes[0].clips[0].base, Some(0));
    assert_eq!((lanes[1].clips[0].base, lanes[1].clips[0].width), (None, 40));
    toggle_layer(&mut p, 1, LaneToggle::Hide, true);
    assert_eq!(p.scene_lanes.len(), 2);
    assert!(p.scene_lanes[1].hidden && !p.scene_lanes[0].hidden);
    assert!(toggle_track(&mut p, "tr", LaneToggle::Mute, true));
    assert!(p.overlays[0].muted);
    assert!(!toggle_track(&mut p, "no", LaneToggle::Lock, true));
    let (t, id) = ruler_click(&p, fx(80.0), fx(40.0));
    assert_eq!((t, id.as_str()), (fx(2.0), "scene:scene-1"));
    assert_eq!(selected_scene(&id).unwrap(), "scene-1");
    assert!(selected_scene("c").is_none());
}

#[test]
fn drags_move_trim_or_select() {
    let d = Drag {
        start: fx(1.0),
        duration: fx(2.0),
        base: Some(0),
        lane: 0,
        width: 80,
        grab: fx(10.0),
        dx: fx(3.0),
        dy: 0,
        pps: fx(40.0),
    };
    let mut p = project();
    assert!(matches!(drop_clip(&mut p, "c", d), Dropped::Click));
    let moved = Drag { dx: fx(40.0), ..d };
    assert!(matches!(drop_clip(&mut p, "c", moved), Dropped::Changed));
    assert_eq!(find_clip(&p, "c").unwrap().start, fx(2.0));
    let trim = Drag { start: fx(2.0), grab: fx(75.0), dx: fx(-20.0), ..d };
    assert!(matches!(drop_clip(&mut p, "c", trim), Dropped::Changed));
    assert_eq!(find_clip(&p, "c").unwrap().duration, fx(1.5));
    let down = Drag { start: fx(2.0), dx: 0, dy: fx(40.0), ..d };
    assert!(matches!(drop_clip(&mut p, "c", down), Dropped::Changed));
    assert_eq!(p.overlays[0].clips.len(), 2);
    assert!(matches!(drop_clip(&mut p, "gone", down), Dropped::Refused(_)));
    assert!(drag_clip(&mut p, "c", (fx(10.0), fx(20.0)), (fx(8.0), fx(0.0)), fx(0.5)));
    let t = find_clip(&p, "c").unwrap().transform;
    assert_eq!((t.x, t.y), (fx(26.0), fx(20.0)));
}

#[test]
fn groups_of_clips_fold() {
    let p = project();
    let mut folded = vec![];
    toggle_group(&mut folded, "scene-1");
    let rows = clip_rows(&p, &mut folded, None);
    assert_eq!(rows.len(), 3);
    assert!(matches!(&rows[0], Row::Head { label, count: 1, folded: true, .. } if label == "scene-1"));
    assert!(matches!(&rows[1], Row::Head { group, .. } if group == "tr"));
    let rows = clip_rows(&p, &mut folded, Some("c"));
    assert!(folded.is_empty());
    assert!(matches!(&rows[1], Row::Item { id, selected: true } if id == "c"));
    assert!(row_selects(&rows, 1, 1, Some("c")).is_none());
    assert_eq!(row_selects(&rows, 3, 1, Some("c")).unwrap(), "o");
}

#[test]
fn the_form_changes_one_clip() {
    let mut p = project();
    let text = Element::Text {
        text: "a".into(),
        font: "Sans".into(),
        color: "#fff".into(),
        align: None,
        outline: None,
        shadow: false,
    };
    p.scenes[0].layers.push(clip("x", 0.0, 1.0, text));
    let form = ClipForm {
        start: fx(2.0),
        duration: fx(1.0),
        opacity: fx(0.5),
        rate: None,
        text: Some(TextForm { text: "b".into(), align: 2, outline: "#000".into(), shadow: true }),
    };
    apply_form(&mut p, "x", &form);
    let c = find_clip(&p, "x").unwrap();
    assert_eq!((c.start, c.transform.opacity), (fx(2.0), fx(0.5)));
    match &c.element {
        Element::Text { text, align, outline, shadow, .. } => {
            assert_eq!(text, "b");
            assert_eq!(*align, choose_align(2));
            assert_eq!(outline.as_deref(), Some("#000"));
            assert!(shadow);
        }
        other => panic!("{other:?}"),
    }
    assert_eq!(find_clip(&p, "c").unwrap().start, fx(1.0));
}

#[test]
fn choices_and_values_go_both_ways() {
    for a in [None, Some(TextAlign::Left), Some(TextAlign::Center), Some(TextAlign::Right)] {
        assert_eq!(choose_align(align_choice(a)), a);
    }
    for p in [AnimProperty::X, AnimProperty::Opacity, AnimProperty::Volume] {
        assert_eq!(choose_property(property_choice(p)), p);
    }
    for e in [Easing::Linear, Easing::EaseIn, Easing::EaseOut, Easing::EaseInOut] {
        assert_eq!(choose_easing(easing_choice(e)), e);
    }
    for k in [TransitionKind::Crossfade, TransitionKind::Clock] {
        let t = Transition { kind: k, duration: fx(0.5) };
        let (choice, duration) = transition_choice(Some(t));
        let back = choose_transition(choice, duration).unwrap();
        assert_eq!((back.kind, back.duration), (k, fx(0.5)));
    }
    assert!(choose_transition(0, fx(1.0)).is_none());
}

#[test]
fn animations_and_effects_are_added_changed_and_removed() {
    let mut p = project();
    add_anim_preset(&mut p, "c", AnimPreset::FadeIn);
    let a = &find_clip(&p, "c").unwrap().animations[0];
    assert_eq!((a.property, a.from, a.to), (AnimProperty::Opacity, 0, fx(1.0)));
    change_anim(&mut p, "c", 0, AnimChange::Easing(Easing::EaseOut));
    assert_eq!(find_clip(&p, "c").unwrap().animations[0].easing, Easing::EaseOut);
    remove_anim(&mut p, "c", 0);
    remove_anim(&mut p, "c", 0);
    assert!(find_clip(&p, "c").unwrap().animations.is_empty());
    add_effect(&mut p, "c", EffectKind::Crop);
    change_effect(&mut p, "c", 0, &EffectChange::CropLeft(12));
    assert!(matches!(find_clip(&p, "c").unwrap().effects[0], Effect::Crop { left: 12, right: 0, .. }));
    change_effect(&mut p, "c", 0, &EffectChange::Hue(1));
    remove_effect(&mut p, "c", 0);
    assert!(find_clip(&p, "c").unwrap().effects.is_empty());
    delete_clips(&mut p, &vec!["c".into(), "o".into(), "no".into()]);
    assert!(find_clip(&p, "c").is_none() && find_clip(&p, "o").is_none());
}

#[test]
fn scenes_are_edited_by_their_form() {
    let mut p = project();
    p.scenes.push(dualcut::document::Scene {
        id: "two".into(),
        name: String::new(),
        duration: fx(2.0),
        transition: None,
        layers: vec![],
    });
    set_scene_duration(&mut p, "two", fx(3.0));
    assert_eq!(p.scenes[1].duration, fx(3.0));
    set_transition(&mut p, "two", 1, fx(0.5));
    assert_eq!(p.scenes[1].transition.unwrap().duration, fx(0.5));
    assert!(move_scene(&mut p, "two", false));
    assert_eq!(p.scenes[0].id, "two");
    assert!(!move_scene(&mut p, "two", false));
    assert!(!move_scene(&mut p, "no", true));
}

#[test]
fn keys_command_the_player() {
    let none = Held { ctrl: false, shift: false, other: false };
    let ctrl = Held { ctrl: true, ..none };
    assert_eq!(key_command(0x20, none), Some(Command::TogglePlay));
    assert_eq!(key_command(0x7a, ctrl), Some(Command::Undo));
    assert_eq!(key_command(0x7a, Held { shift: true, ..ctrl }), Some(Command::Redo));
    assert_eq!(key_command(0x73, ctrl), None);
    let p = project();
    assert_eq!(step_target(Some(&p), fx(1.0), false), fx(1.0) + 33_333_333);
    assert_eq!(step_target(None, 0, true), 0);
    assert_eq!(end_target(Some(&p)), fx(4.95));
    assert_eq!(end_target(None), 0);
    assert_eq!(window_title(Some("film")), "Dualcut — film");
    assert_eq!(window_title(None), "Dualcut — project");
}

#[test]
fn edits_from_outside_are_read_again_once() {
    let mut w = Watch { seen: None, own: false };
    w.wrote(Some(10));
    assert!(!w.look(Some(10)));
    assert!(w.look(Some(11)));
    assert!(!w.look(Some(11)));
    assert!(!w.look(None));
}

#[test]
fn preferences_are_kept_line_by_line() {
    let text = prefs_set("a=1\nb=2\n", "a", "3");
    assert_eq!(pref_value(&text, "a").unwrap(), "3");
    assert_eq!(pref_value(&text, "b").unwrap(), "2");
    assert!(pref_value(&text, "c").is_none());
    let text = prefs_set_preview_scale("", fx(0.5));
    assert_eq!(preview_scale(&text), fx(0.5));
    for choice in 0..3 {
        assert_eq!(quality_choice(quality_scale(choice)), choice);
    }
    assert!(prefs_use_proxies(""));
    assert!(!prefs_use_proxies(&prefs_set("", "use_proxies", "false")));
    let font = apply_default_font_family("Sans Bold 32", &prefs_set("", "default_font_family", "Inter"));
    assert_eq!(font, "Inter Bold 32");
}

#[test]
fn recent_projects_come_first() {
    let entries = vec!["a".to_string(), "b".to_string()];
    let r = remember_recent(&entries, "b");
    assert_eq!(r, vec!["b", "a"]);
    assert_eq!(load_recents(&r, &vec![false, true]), vec!["a"]);
    assert!(recents_text(&r).starts_with('b'));
    let many: Vec<String> = (0..9).map(|i| i.to_string()).collect();
    assert_eq!(remember_recent(&many, "x").len(), 8);
}

#[test]
fn media_is_added_and_inserted() {
    let mut p = project();
    add_to_library(&mut p, &vec!["m/Ärger 1.mp4".into(), "m/Ärger 1.mp4".into()]);
    assert_eq!(p.library.len(), 1);
    assert_eq!(media_kind("a.PNG"), MediaKind::Image);
    assert_eq!(media_kind("a.wav"), MediaKind::Audio);
    assert_eq!(media_kind("a.webm"), MediaKind::Video);
    // Letters of any script are kept; other characters become dashes.
    assert_eq!(slug("Ärger 1"), "Ärger-1");
    let id = insert_media(&mut p, "m/Ärger 1.mp4", fx(2.0));
    assert!(matches!(&find_clip(&p, &id).unwrap().element, Element::Video { src, .. } if src == "m/Ärger 1.mp4"));
    assert!(p.validate().is_ok());
    remove_from_library(&mut p, "m/Ärger 1.mp4");
    assert!(p.library.is_empty());
}

#[test]
fn templates_are_shown_and_inserted() {
    let mut starter: TextMap<CompDef> = TextMap::new();
    let text = Element::Text {
        text: "{title}".into(),
        font: "Sans".into(),
        color: "#fff".into(),
        align: None,
        outline: None,
        shadow: false,
    };
    starter.insert(
        "card".into(),
        CompDef { params: vec!["title".into()], layers: vec![clip("t", 0.0, 0.0, text)] },
    );
    let mut p = project();
    let all = catalog(&starter, &p);
    assert!(all.contains_key("card"));
    let args = template_args(&vec!["title".into()], &vec!["Hi".into()]);
    assert_eq!(args.get("title").unwrap(), "Hi");
    let id = insert_template(&mut p, &all, "card", args, 0);
    assert!(find_clip(&p, &id).is_some() && p.defs.contains_key("card"));
    // A preview shows each parameter as its own name in capitals.
    let shown = template_project(&p, "card").unwrap();
    match &shown.scenes[0].layers[0].element {
        Element::CompRef { def, args } => {
            assert_eq!(def, "card");
            assert_eq!(args.get("title").unwrap(), "TITLE");
        }
        other => panic!("{other:?}"),
    }
    assert!(template_project(&p, "no").is_none());
    assert_eq!(show_template(&p, "card", TextMap::new()).scenes.len(), 1);
}

#[test]
fn previews_are_made_once() {
    let mut p = project();
    p.library.push("s.wav".into());
    let sources = media_sources(&p);
    assert_eq!(sources.len(), 2);
    assert_eq!((sources[0].kind, sources[1].kind), (SourceKind::Sound, SourceKind::Movie));
    let state = |uri: &str| SourceState {
        kind: SourceKind::Movie,
        uri: Some(uri.into()),
        has_thumbnail: false,
        has_waveform: false,
        has_proxy: false,
        preview_failed: false,
        proxy_failed: false,
    };
    let plan = plan_previews(&vec![state("file:///a"), state("file:///a")], true);
    assert_eq!(plan.proxies, vec!["file:///a"]);
    assert_eq!(plan.thumbnails.len(), 2);
    assert!(plan.waveforms.is_empty());
    assert!(plan_previews(&vec![state("file:///a")], false).proxies.is_empty());
    let q = with_proxies(&p, &vec![("a.mp4".into(), "file:///proxy.mkv".into())]);
    assert!(matches!(&find_clip(&q, "c").unwrap().element, Element::Video { src, .. } if src == "file:///proxy.mkv"));
}

#[test]
fn captions_go_on_a_track_of_their_own() {
    let mut p = project();
    let n = apply_captions(&mut p, &vec![(fx(0.0), fx(1.0), "hello".to_string())]);
    assert_eq!(n, 1);
    let track = p.overlays.iter().find(|t| t.id == "subtitles").unwrap();
    assert_eq!(track.clips.len(), 1);
    assert_eq!(track.clips[0].id, "sub-0");
    assert!(p.validate().is_ok());
    assert_eq!(apply_captions(&mut p, &vec![]), 0);
}

#[test]
fn skills_are_found_and_updated() {
    let dirs = skill_candidates();
    assert_eq!(skill_source_dir(&vec![false, true, true]).as_ref(), Some(&dirs[1]));
    assert!(skill_source_dir(&vec![false, false, false]).is_none());
    assert_eq!(skill_file("/r"), "/r/dualcut/SKILL.md");
    let prefs = skill_installed("", "/r");
    assert_eq!(skill_update_available(&prefs, Some("new"), Some("old")).unwrap(), "/r");
    assert!(skill_update_available(&prefs, Some("old"), Some("old")).is_none());
    assert!(skill_update_available("", Some("new"), Some("old")).is_none());
}

#[test]
fn keys_are_looked_up_in_the_preferences() {
    let table = KeyTable {
        entries: vec![
            KeyEntry { name: "space".into(), code: 0x20, lower: 0x20 },
            KeyEntry { name: "s".into(), code: 0x73, lower: 0x73 },
            KeyEntry { name: "S".into(), code: 0x53, lower: 0x73 },
        ],
    };
    assert_eq!(action_for("", 0x20, false, false, &table), Some(Action::PlayPause));
    assert_eq!(action_for("key.split=ctrl+s\n", 0x73, true, false, &table), Some(Action::Split));
    assert!(presets().len() > 1);
    assert_eq!(default_preset().bindings.len(), Action::all().len());
}

#[test]
fn projects_start_with_one_scene() {
    let p = new_project_sized("v", 1080, 1920);
    assert_eq!((p.meta.width, p.meta.height, p.meta.fps), (1080, 1920, 30));
    assert_eq!(p.duration(), fx(5.0));
}

#[test]
fn only_the_plain_family_is_replaced() {
    let verdana = prefs_set("", "default_font_family", "Verdana");
    assert_eq!(apply_default_font_family("Sans", &verdana), "Verdana");
    assert_eq!(apply_default_font_family("Sans Bold 12", &verdana), "Verdana Bold 12");
    assert_eq!(
        apply_default_font_family("Sans,Arial Bold 12", &verdana),
        "Verdana,Arial Bold 12"
    );
    assert_eq!(apply_default_font_family("Sansation Bold 12", &verdana), "Sansation Bold 12");
    assert_eq!(apply_default_font_family("Serif 12", &verdana), "Serif 12");
}

#[test]
fn waiting_renders_start_in_turn() {
    let job = |out: &str| Job { out: out.into(), profile: "mp4".into() };
    let mut q = ExportQueue::new();
    assert!(matches!(q.ask(job("a")), Asked::Start(_)));
    assert!(matches!(q.ask(job("b")), Asked::Queued(1)));
    assert!(matches!(q.ask(job("c")), Asked::Queued(2)));
    assert_eq!(q.finished().unwrap().out, "b");
    assert_eq!(q.finished().unwrap().out, "c");
    assert!(q.finished().is_none());
    assert!(!q.running);
}
