use dualcut::cache::{fx_hash, proxy_path};
use dualcut::coords::{active_clips_at, clip_box, widget_to_comp};
use dualcut::document::{Clip, Element, OverlayTrack, Scene, Transform};
use dualcut::export::export_target;
use dualcut::history::diff_summary;
use dualcut::snap::{media_uri, snap_time};
use dualcut::templates::{new_project, new_project_sized, starter_defs};

fn fx(x: f64) -> i128 {
    (x * 1e9).round() as i128
}

fn test_clip(id: &str, start: f64, duration: f64) -> Clip {
    Clip {
        id: id.into(),
        start: fx(start),
        duration: fx(duration),
        element: Element::Video {
            src: "clip.mp4".into(),
            offset: 0,
            volume: fx(1.0),
            rate: fx(1.0),
        },
        transform: Default::default(),
        animations: Vec::new(),
        effects: Vec::new(),
    }
}

fn scene(id: &str, name: &str, duration: f64) -> Scene {
    Scene {
        id: id.into(),
        name: name.into(),
        duration: fx(duration),
        transition: None,
        layers: Vec::new(),
    }
}

fn overlay(clips: Vec<Clip>) -> OverlayTrack {
    OverlayTrack {
        id: "ov".into(),
        muted: false,
        hidden: false,
        locked: false,
        name: String::new(),
        clips,
    }
}

#[test]
fn clip_box_falls_back_to_project_canvas_size_when_transform_is_zero() {
    let project = new_project("t");
    let clip = test_clip("c1", 0.0, 1.0);
    let (x, y, w, h) = clip_box(&project, &clip);
    assert_eq!((x, y, w, h), (0, 0, fx(1920.0), fx(1080.0)));
}

#[test]
fn clip_box_uses_explicit_transform_when_set() {
    let project = new_project("t");
    let mut clip = test_clip("c1", 0.0, 1.0);
    clip.transform = Transform {
        x: fx(10.0),
        y: fx(20.0),
        width: fx(300.0),
        height: fx(200.0),
        opacity: fx(1.0),
    };
    assert_eq!(clip_box(&project, &clip), (fx(10.0), fx(20.0), fx(300.0), fx(200.0)));
}

#[test]
fn active_clips_at_finds_scene_layers_within_their_time_window() {
    let mut project = new_project("t");
    project.scenes[0].layers.push(test_clip("c1", 1.0, 1.0));
    assert!(active_clips_at(&project, fx(0.5)).is_empty());
    let hits = active_clips_at(&project, fx(1.5));
    assert_eq!(hits.len(), 1);
    assert_eq!(hits[0].id, "c1");
    assert!(active_clips_at(&project, fx(3.0)).is_empty());
}

#[test]
fn active_clips_at_finds_overlay_clips_by_absolute_time_across_scenes() {
    let mut project = new_project("t");
    project.scenes.push(scene("s2", "", 5.0));
    project.overlays.push(overlay(vec![test_clip("overlay-clip", 6.0, 2.0)]));
    assert!(active_clips_at(&project, fx(0.5)).iter().all(|c| c.id != "overlay-clip"));
    let hits = active_clips_at(&project, fx(6.5));
    assert_eq!(hits.len(), 1);
    assert_eq!(hits[0].id, "overlay-clip");
}

#[test]
fn active_clips_at_overlays_come_before_scene_layers() {
    let mut project = new_project("t");
    project.scenes[0].layers.push(test_clip("scene-clip", 0.0, 5.0));
    project.overlays.push(overlay(vec![test_clip("overlay-clip", 0.0, 5.0)]));
    let hits = active_clips_at(&project, fx(1.0));
    assert_eq!(hits.len(), 2);
    assert_eq!(hits[0].id, "overlay-clip", "overlays should be topmost");
}

#[test]
fn widget_to_comp_maps_widget_coords_through_letterboxing() {
    let project = new_project("t");
    let (cx, cy, scale) =
        widget_to_comp(&project, fx(960.0), fx(1080.0), fx(480.0), fx(270.0 + 270.0))
            .expect("center of the video area maps to a composition point");
    assert_eq!(scale, fx(0.5));
    assert!((cx - fx(960.0)).abs() < fx(0.01));
    assert!((cy - fx(540.0)).abs() < fx(0.01));
}

#[test]
fn widget_to_comp_returns_none_outside_the_letterboxed_video_area() {
    let project = new_project("t");
    assert!(widget_to_comp(&project, fx(960.0), fx(1080.0), fx(480.0), fx(10.0)).is_none());
}

#[test]
fn snap_time_snaps_to_a_nearby_scene_boundary() {
    let mut project = new_project("t");
    project.scenes.push(scene("scene-2", "", 5.0));
    assert_eq!(snap_time(&project, fx(5.05)), fx(5.0));
}

#[test]
fn snap_time_falls_back_to_the_half_second_grid_far_from_any_boundary() {
    let project = new_project("t");
    assert_eq!(snap_time(&project, fx(2.4)), fx(2.5));
}

#[test]
fn snap_time_never_returns_negative() {
    let project = new_project("t");
    assert_eq!(snap_time(&project, fx(-1.0)), 0);
}

#[test]
fn fx_hash_is_deterministic_and_distinguishes_inputs() {
    assert_eq!(fx_hash("hello"), fx_hash("hello"));
    assert_ne!(fx_hash("hello"), fx_hash("world"));
    assert_ne!(fx_hash(""), fx_hash("a"));
}

#[test]
fn fxhash_is_deterministic_and_distinguishes_inputs() {
    assert_eq!(fx_hash("same"), fx_hash("same"));
    assert_ne!(fx_hash("a"), fx_hash("b"));
    assert_ne!(fx_hash(""), fx_hash("x"));
}

#[test]
fn fx_hash_of_known_texts() {
    assert_eq!(fx_hash(""), 0xcbf29ce484222325);
    assert_eq!(fx_hash("a"), 0xaf63dc4c8601ec8c);
}

#[test]
fn proxy_path_is_deterministic_by_uri() {
    let a = proxy_path("/cache", "file:///a.mp4");
    let b = proxy_path("/cache", "file:///a.mp4");
    let c = proxy_path("/cache", "file:///b.mp4");
    assert_eq!(a, b);
    assert_ne!(a, c);
    assert!(a.ends_with(".mkv"));
}

#[test]
fn media_uri_passes_through_an_existing_uri_unchanged() {
    assert_eq!(
        media_uri("file:///already/a/uri.mp4", None),
        Some("file:///already/a/uri.mp4".into())
    );
    assert_eq!(
        media_uri("https://example.com/a.mp4", None),
        Some("https://example.com/a.mp4".into())
    );
}

#[test]
fn media_uri_resolves_an_existing_relative_path_to_a_file_uri() {
    let uri = media_uri("clip.mp4", Some("/tmp/dualcut-media-uri-test/clip.mp4"))
        .expect("existing relative path resolves");
    assert!(uri.starts_with("file://"));
    assert!(uri.ends_with("clip.mp4"));
    assert_eq!(uri, "file:///tmp/dualcut-media-uri-test/clip.mp4");
}

#[test]
fn media_uri_returns_none_for_a_relative_path_that_does_not_exist() {
    assert_eq!(media_uri("this-file-does-not-exist-anywhere.mp4", None), None);
}

#[test]
fn export_target_joins_dir_and_name() {
    assert_eq!(export_target("/tmp/out", "video.mp4"), "/tmp/out/video.mp4");
}

#[test]
fn diff_summary_detects_added_and_removed_clips() {
    let prev = new_project("t");
    let mut added = prev.clone();
    added.scenes[0].layers.push(Clip {
        id: "c1".into(),
        start: 0,
        duration: fx(1.0),
        element: Element::Test,
        transform: Default::default(),
        animations: Vec::new(),
        effects: Vec::new(),
    });
    assert_eq!(diff_summary(&prev, &added), "Added 1 clip");
    assert_eq!(diff_summary(&added, &prev), "Removed 1 clip");
}

#[test]
fn diff_summary_detects_scene_changes() {
    let prev = new_project("t");
    let mut next = prev.clone();
    next.scenes.push(scene("s2", "Scene 2", 5.0));
    assert_eq!(diff_summary(&prev, &next), "Added scene");
    assert_eq!(diff_summary(&next, &prev), "Removed scene");
}

#[test]
fn diff_summary_detects_timing_changes() {
    let prev = new_project("t");
    let mut next = prev.clone();
    next.scenes[0].duration = fx(10.0);
    assert_eq!(diff_summary(&prev, &next), "Changed timing");
}

const STARTER: &str = r##"{
  "lower-third": { "params": ["name"], "layers": [{ "id": "n", "type": "text", "text": "{name}" }] },
  "title-card": { "layers": [{ "id": "t", "type": "text", "text": "Title" }] },
  "caption": { "layers": [{ "id": "c", "type": "text", "text": "Caption" }] },
  "vertical-center-crop": { "params": ["clip"], "layers": [{ "id": "v", "type": "video", "src": "{clip}" }] },
  "vertical-top-bottom-split": { "params": ["top_clip", "bottom_clip"], "layers": [
    { "id": "top", "type": "video", "src": "{top_clip}", "transform": { "width": 1080, "height": 960 } },
    { "id": "bottom", "type": "video", "src": "{bottom_clip}", "transform": { "y": 960, "width": 1080, "height": 960 } }
  ] }
}"##;

#[test]
fn starter_defs_parse_and_new_project_validates() {
    let defs = starter_defs(STARTER).unwrap();
    assert!(defs.contains_key("lower-third"));
    assert!(defs.contains_key("title-card"));
    assert!(defs.contains_key("caption"));
    assert!(defs.contains_key("vertical-center-crop"));
    assert!(defs.contains_key("vertical-top-bottom-split"));
    let p = new_project("Test");
    assert!(p.validate().is_ok());
    assert_eq!(p.duration(), fx(5.0));
    assert!(p.defs.entries.is_empty());
    assert!(p.scenes[0].layers.is_empty());
}

#[test]
fn vertical_project_validates_with_split_template_instantiated() {
    let mut p = new_project_sized("Vertical Test", 1080, 1920);
    assert_eq!(p.meta.width, 1080);
    assert_eq!(p.meta.height, 1920);
    let starter = starter_defs(STARTER).unwrap();
    p.defs.insert(
        "vertical-top-bottom-split".into(),
        starter.get("vertical-top-bottom-split").unwrap().clone(),
    );
    let mut args = dualcut::textmap::TextMap::new();
    args.insert("top_clip".into(), "assets/a.mp4".into());
    args.insert("bottom_clip".into(), "assets/b.mp4".into());
    p.scenes[0].layers.push(Clip {
        id: "split".into(),
        start: 0,
        duration: 0,
        element: Element::CompRef { def: "vertical-top-bottom-split".into(), args },
        transform: Default::default(),
        animations: vec![],
        effects: vec![],
    });
    assert!(p.validate().is_ok());
}

#[test]
fn starter_defs_refuse_what_is_no_map_of_defs() {
    assert!(starter_defs("[]").is_none());
    assert!(starter_defs("{\"a\": {}}").is_none());
    assert!(starter_defs("nope").is_none());
}
