use dualcut::cache::{fx_hash, proxy_name, proxy_part_name, template_name, thumbnail_name, waveform_name};
use dualcut::color::parse_color;
use dualcut::compile::PlannedClip;
use dualcut::document::{Clip, Element, Project, ShapeKind, Transform};
use dualcut::karaoke::{karaoke_captions_to_clips, karaoke_frames, render_karaoke_frame, wrap_width};
use dualcut::plan::compile;
use dualcut::previews::with_proxies;
use dualcut::raster::{invert, pack_rows, render_shape, Drawing};
use dualcut::resolve::{clip_media, drop_missing};
use dualcut::shapes::{
    apply_uri, frame_at, frame_time, set_uri, shape_file, shape_png, shape_png_maybe_inverted,
    shape_size, Settings, SourceError, UriParts,
};
use dualcut::silence::{detect_silence, FULL_SCALE};
use dualcut::templates::new_project;
use dualcut::waveform::{
    proxy_pipeline, render_waveform, sound_pipeline, thumbnail_pipeline, WAVE_H, WAVE_W,
};
use std::path::Path;

fn fx(x: f64) -> i128 {
    (x * 1e9).round() as i128
}

/// The pixel at a place of a picture.
fn at(pixels: &[u8], width: usize, x: usize, y: usize) -> [u8; 4] {
    let i = (y * width + x) * 4;
    [pixels[i], pixels[i + 1], pixels[i + 2], pixels[i + 3]]
}

fn picture(src: &str) -> Clip {
    Clip {
        id: src.to_string(),
        start: 0,
        duration: fx(1.0),
        element: Element::Image { src: src.into() },
        transform: Default::default(),
        animations: vec![],
        effects: vec![],
    }
}

#[test]
fn shape_png_has_the_requested_dimensions() {
    let (_, pixels) = shape_png(ShapeKind::Rect, "#ff0000", 64, 32);
    let img = image::RgbaImage::from_raw(64, 32, pixels).unwrap();
    assert_eq!((img.width(), img.height()), (64, 32));
}

#[test]
fn rect_shape_fills_the_whole_canvas_opaquely() {
    let (_, pixels) = shape_png(ShapeKind::Rect, "#ff0000", 40, 40);
    let img = image::RgbaImage::from_raw(40, 40, pixels).unwrap();
    let px = img.get_pixel(1, 1);
    assert!(px[3] > 200, "corner should be opaque, got alpha={}", px[3]);
    assert!(px[0] > 150 && px[1] < 100, "corner should be reddish, got {px:?}");
}

#[test]
fn circle_shape_is_transparent_outside_the_circle() {
    let (_, pixels) = shape_png(ShapeKind::Circle, "#00ff00", 60, 60);
    let img = image::RgbaImage::from_raw(60, 60, pixels).unwrap();
    let corner = img.get_pixel(1, 1);
    let center = img.get_pixel(30, 30);
    assert_eq!(corner[3], 0, "corner outside a circle should be fully transparent");
    assert!(center[3] > 200, "center inside a circle should be opaque");
}

#[test]
fn invert_swaps_painted_and_unpainted_regions() {
    let (_, normal) = shape_png_maybe_inverted(ShapeKind::Circle, "#0000ff", 60, 60, 0, false);
    let (_, inverted) = shape_png_maybe_inverted(ShapeKind::Circle, "#0000ff", 60, 60, 0, true);
    let normal = image::RgbaImage::from_raw(60, 60, normal).unwrap();
    let inverted = image::RgbaImage::from_raw(60, 60, inverted).unwrap();
    assert!(normal.get_pixel(30, 30)[3] > 200);
    assert_eq!(inverted.get_pixel(30, 30)[3], 0);
    assert_eq!(normal.get_pixel(1, 1)[3], 0);
    assert!(inverted.get_pixel(1, 1)[3] > 200);
}

#[test]
fn feathering_softens_the_edge_instead_of_a_hard_cutoff() {
    let (_, sharp) = shape_png_maybe_inverted(ShapeKind::Circle, "#ffffff", 80, 80, 0, false);
    let (_, soft) =
        shape_png_maybe_inverted(ShapeKind::Circle, "#ffffff", 80, 80, fx(8.0), false);
    let sharp = image::RgbaImage::from_raw(80, 80, sharp).unwrap();
    let soft = image::RgbaImage::from_raw(80, 80, soft).unwrap();
    let soft = image::imageops::blur(&soft, 8.0);
    let row = 40;
    let sharp_intermediate = (0..80)
        .filter(|&x| {
            let a = sharp.get_pixel(x, row)[3];
            a > 10 && a < 245
        })
        .count();
    let soft_intermediate = (0..80)
        .filter(|&x| {
            let a = soft.get_pixel(x, row)[3];
            a > 10 && a < 245
        })
        .count();
    assert!(soft_intermediate > sharp_intermediate);
}

#[test]
fn different_shapes_produce_different_cache_files() {
    let (rect, _) = shape_png(ShapeKind::Rect, "#ffffff", 32, 32);
    let (circle, _) = shape_png(ShapeKind::Circle, "#ffffff", 32, 32);
    assert_ne!(rect, circle);
}

#[test]
fn shape_files_are_named_by_what_they_hold() {
    assert_eq!(
        shape_file(ShapeKind::Star, "##12ab", 32, 16, 0, false),
        "shape-Star-12ab-32x16-f0.png"
    );
    assert_eq!(
        shape_file(ShapeKind::Rect, "#fff", 8, 8, fx(2.5), true),
        "shape-Rect-fff-8x8-f2.5-inv.png"
    );
}

#[test]
fn shapes_without_a_size_are_200_pixels() {
    let mut t = Transform::default();
    assert_eq!(shape_size(&t), (200, 200));
    t.width = fx(64.9);
    t.height = fx(0.5);
    assert_eq!(shape_size(&t), (64, 0));
}

#[test]
fn every_shape_covers_its_middle_row() {
    for kind in [
        ShapeKind::Rect,
        ShapeKind::Circle,
        ShapeKind::Ellipse,
        ShapeKind::Star,
        ShapeKind::Polygon,
        ShapeKind::Line,
        ShapeKind::Arrow,
    ] {
        let (_, p) = shape_png(kind, "#11223344", 60, 60);
        assert_eq!(p.len(), 60 * 60 * 4);
        assert_eq!(at(&p, 60, 30, 30), [0x22, 0x33, 0x44, 0x11], "{kind:?}");
    }
    // The shaft of the arrow stops short of the left edge; the line does not.
    let (_, arrow) = shape_png(ShapeKind::Arrow, "#ffffff", 60, 60);
    let (_, line) = shape_png(ShapeKind::Line, "#ffffff", 60, 60);
    assert_eq!(at(&arrow, 60, 0, 30)[3], 0);
    assert_eq!(at(&line, 60, 0, 30)[3], 255);
    assert_eq!(at(&line, 60, 0, 10)[3], 0);
}

#[test]
fn a_quarter_turn_moves_the_head_of_the_arrow() {
    // The cosine and sine of the turn that leads back to the upright shape.
    let up = Drawing {
        kind: ShapeKind::Arrow,
        argb: 0xffff_ffff,
        width: 60,
        height: 60,
        cos: 0,
        sin: -1_000_000_000,
    };
    let p = render_shape(&up);
    assert_eq!(at(&p, 60, 30, 55)[3], 255);
    assert_eq!(at(&p, 60, 55, 30)[3], 0);
}

#[test]
fn inverting_twice_keeps_the_shape() {
    let (_, p) = shape_png(ShapeKind::Circle, "#ff8000", 20, 20);
    assert_eq!(invert(&invert(&p, 0xffff_8000), 0xffff_8000), p);
}

#[test]
fn rows_are_packed_without_their_padding() {
    let data = vec![1u8, 2, 9, 9, 3, 4];
    assert_eq!(pack_rows(&data, 2, 4, 2), vec![1, 2, 3, 4]);
    assert!(pack_rows(&data, 2, 4, 0).is_empty());
}

#[test]
fn colors_are_read_with_and_without_alpha() {
    assert_eq!(parse_color("#ff8000"), 0xffff_8000);
    assert_eq!(parse_color("80ff8000"), 0x80ff_8000);
    assert_eq!(parse_color("nope"), 0xffff_ffff);
}

#[test]
fn live_sources_are_set_by_their_uri() {
    let s = set_uri("vello://star?fill=%23ff0000&w=64&h=32&spin=1", &Settings::default()).unwrap();
    assert_eq!(s.shape, ShapeKind::Star);
    assert_eq!(s.fill, "#ff0000");
    assert_eq!((s.width, s.height, s.spin), (64, 32, true));
    let t = set_uri("vello://circle?spin=false&w=nope&other=1", &s).unwrap();
    assert_eq!(t.shape, ShapeKind::Circle);
    assert_eq!(t.fill, "#ff0000");
    assert_eq!(t.height, 32);
    assert!(matches!(set_uri("no uri", &s), Err(SourceError::BadUri)));
    match set_uri("vello://blob", &s) {
        Err(SourceError::UnknownShape(name)) => assert_eq!(name, "blob"),
        other => panic!("{other:?}"),
    }
}

#[test]
fn the_parts_of_a_uri_are_applied_in_order() {
    let parts = UriParts {
        host: Some("arrow".into()),
        query: vec![("w".into(), "5".into()), ("w".into(), "7".into())],
    };
    assert_eq!(apply_uri(&parts, &Settings::default()).unwrap().width, 7);
}

#[test]
fn seeking_lands_on_the_frame_that_is_shown() {
    assert_eq!(frame_at(1_000_000_000), 30);
    assert_eq!(frame_at(999_999_999), 29);
    assert_eq!(frame_time(30), Some(1_000_000_000));
    assert_eq!(frame_time(1), Some(33_333_333));
    assert_eq!(frame_time(u64::MAX), None);
}

#[test]
fn waveforms_show_the_peak_of_each_bucket() {
    let mut samples = vec![0i32; 480];
    samples[1] = -FULL_SCALE;
    samples[2] = FULL_SCALE / 2;
    let p = render_waveform(&samples);
    assert_eq!(p.len(), (WAVE_W * WAVE_H * 4) as usize);
    let w = WAVE_W as usize;
    let color = [0x5d, 0xd3, 0x9e, 0xff];
    let column = |x: usize| (0..WAVE_H as usize).filter(|&y| at(&p, w, x, y) == color).count();
    assert_eq!(column(0), 26);
    assert_eq!(column(1), 12);
    assert_eq!(column(2), 2);
    assert_eq!(at(&p, w, 0, 0), [0, 0, 0, 0]);
}

#[test]
fn pipelines_are_written_out() {
    assert_eq!(
        thumbnail_pipeline("file:///a"),
        "uridecodebin uri=\"file:///a\" ! videoconvert ! videoscale ! \
         video/x-raw,format=RGB,width=128,height=72,pixel-aspect-ratio=1/1 ! \
         appsink name=sink sync=false"
    );
    assert_eq!(
        sound_pipeline("file:///a"),
        "uridecodebin uri=\"file:///a\" ! audioconvert ! audioresample ! \
         audio/x-raw,format=F32LE,channels=1,rate=8000 ! \
         appsink name=sink sync=false"
    );
    let video = "uridecodebin uri=\"file:///a\" name=d \
         d. ! queue ! videoconvert ! videoscale ! \
         video/x-raw,width=960,pixel-aspect-ratio=1/1 ! \
         jpegenc quality=70 ! queue ! matroskamux name=m ! \
         filesink location=\"/p\"";
    assert_eq!(proxy_pipeline("file:///a", "/p", false), video);
    assert_eq!(
        proxy_pipeline("file:///a", "/p", true),
        format!("{video} d. ! queue ! audioconvert ! audioresample ! vorbisenc ! queue ! m.")
    );
}

#[test]
fn cached_files_are_named_by_a_hash() {
    assert_eq!(fx_hash(""), 0xcbf2_9ce4_8422_2325);
    assert_eq!(fx_hash("a"), 0xaf63_dc4c_8601_ec8c);
    assert_eq!(thumbnail_name("a"), "thumb-af63dc4c8601ec8c.png");
    assert_eq!(proxy_name("a"), "proxy-af63dc4c8601ec8c.mkv");
    assert_eq!(proxy_part_name("a"), "proxy-af63dc4c8601ec8c.mkv.part");
    assert_eq!(waveform_name("a"), "wave-af63dc4c8601ec8c.png");
    assert_eq!(template_name("a"), "tpl-af63dc4c8601ec8c.png");
}

#[test]
fn compile_project_with_warnings_reports_missing_media_instead_of_failing() {
    let mut p: Project = new_project("missing-media-test");
    p.scenes[0].layers.push(Clip {
        id: "gone".into(),
        start: 0,
        duration: fx(1.0),
        element: Element::Video {
            src: "does-not-exist.mp4".into(),
            offset: 0,
            volume: fx(1.0),
            rate: fx(1.0),
        },
        transform: Default::default(),
        animations: vec![],
        effects: vec![],
    });
    let plan = compile(&p).expect("missing media should degrade, not error");
    let found: Vec<bool> = plan
        .clips
        .iter()
        .map(|c| clip_media(&c.clip).is_none_or(|src| Path::new(&src).exists()))
        .collect();
    let (kept, missing) = drop_missing(&plan.clips, &found);
    assert!(kept.is_empty());
    assert!(!missing.is_empty(), "expected a warning about the missing file");
    assert_eq!(
        (missing[0].id.as_str(), missing[0].src.as_str()),
        ("gone", "does-not-exist.mp4")
    );
}

#[test]
fn compile_project_works_with_no_proxy_cache_present() {
    let p: Project = new_project("pipeline-test");
    let shown = with_proxies(&p, &vec![]);
    assert_eq!(shown.to_json(), p.to_json());
    assert!(compile(&shown).is_ok());
}

#[test]
fn media_of_a_clip_is_its_source() {
    assert_eq!(clip_media(&picture("a.png")).unwrap(), "a.png");
    let mut c = picture("a.png");
    c.element = Element::Test;
    assert!(clip_media(&c).is_none());
    let clips: Vec<PlannedClip> = vec![];
    assert!(drop_missing(&clips, &vec![]).1.is_empty());
}

#[test]
fn each_spoken_word_gets_a_frame() {
    let words = vec![
        (fx(0.0), fx(0.5), "one".to_string()),
        (fx(0.5), fx(0.9), "two".to_string()),
        (fx(3.0), fx(3.5), "three".to_string()),
    ];
    let frames = karaoke_frames(&words);
    assert_eq!(frames.len(), 3);
    assert_eq!((frames[0].line, frames[0].word), (0, 0));
    assert_eq!(frames[1].words, vec!["one", "two"]);
    assert_eq!((frames[2].line, frames[2].word), (1, 0));
    let drawn: Vec<(String, u32)> =
        (0..3).map(|i| (format!("k{i}.png"), 400)).collect();
    let clips = karaoke_captions_to_clips(&frames, &drawn, 1920, 1080);
    assert_eq!(clips.len(), 3);
    assert_eq!(clips[2].start, fx(3.0));
    assert!(matches!(&clips[2].element, Element::Image { src } if src == "k2.png"));
}

#[test]
fn the_spoken_word_is_gold() {
    let words = vec!["ab".to_string(), "cd".to_string()];
    let l = render_karaoke_frame(&words, 1, (3, 4, 100, 50));
    assert_eq!(l.text, "ab cd");
    assert_eq!(l.gold, (3, 5));
    assert_eq!((l.width, l.height), (140, 90));
    assert_eq!((l.x, l.y), (17, 16));
    assert_eq!(wrap_width(900), 860);
}

#[test]
fn silence_is_found_between_sounds() {
    let mut samples = vec![FULL_SCALE / 2; 8000];
    samples.extend(vec![0; 8000]);
    samples.extend(vec![FULL_SCALE / 2; 8000]);
    let ranges = detect_silence(&samples, 8000, (FULL_SCALE / 100) as u32, fx(0.5));
    assert_eq!(ranges.len(), 1);
    let (a, b) = ranges[0];
    assert!((a - fx(1.0)).abs() <= fx(0.03) && (b - fx(2.0)).abs() <= fx(0.03));
    assert!(detect_silence(&samples, 8000, (FULL_SCALE / 100) as u32, fx(1.5)).is_empty());
}

#[test]
fn different_pictures_have_different_names() {
    let name = |kind, fill: &str, w, h, soft, inverse| shape_file(kind, fill, w, h, soft, inverse);
    let first = name(ShapeKind::Star, "#1f", 11, 1, fx(0.5), false);
    for other in [
        name(ShapeKind::Rect, "#1f", 11, 1, fx(0.5), false),
        name(ShapeKind::Star, "#f1", 11, 1, fx(0.5), false),
        name(ShapeKind::Star, "#1f", 1, 11, fx(0.5), false),
        name(ShapeKind::Star, "#1f", 1, 1, fx(0.5), false),
        name(ShapeKind::Star, "#1f", 11, 1, fx(5.0), false),
        name(ShapeKind::Star, "#1f", 11, 1, fx(0.5), true),
    ] {
        assert_ne!(first, other);
    }
}

#[test]
fn the_words_of_a_line_are_joined_by_spaces() {
    let words = vec!["one".to_string(), "two".to_string()];
    assert_eq!(dualcut::karaoke::line_text(&words), "one two");
    assert_eq!(dualcut::karaoke::line_text(&vec![]), "");
}
