use dualcut::answers::{
    answer_change, answer_document, answer_render, answer_status, change_by_op, load, not_found,
    refuse, replace_document, run_request, scripted,
};
use dualcut::api::{parse_op, Op};
use dualcut::docfile::OpenError;
use dualcut::document::{Clip, Element, Project};
use dualcut::error::EditError;
use dualcut::export::encoding_profile;
use dualcut::faults::{Fault, ValidateError};
use dualcut::history::{agent_edit, marker_text};
use dualcut::json::json_complaint;
use dualcut::render::{Event, Phase, Render, Step};
use dualcut::templates::new_project;
use dualcut::whisper::{
    find_whisper, find_whisper_model, whisper_arguments, whisper_candidates, whisper_failure,
};

fn fx(x: f64) -> i128 {
    (x * 1e9).round() as i128
}

fn project() -> Project {
    let mut p = new_project("t");
    p.scenes[0].layers.push(Clip {
        id: "c".into(),
        start: 0,
        duration: fx(2.0),
        element: Element::Video {
            src: "a.mp4".into(),
            offset: 0,
            volume: fx(1.0),
            rate: fx(1.0),
        },
        transform: Default::default(),
        animations: vec![],
        effects: vec![],
    });
    p
}

fn said(fault: Fault, id: &str, detail: &str) -> String {
    ValidateError { fault, id: id.into(), detail: detail.into() }.message()
}

#[test]
fn faults_are_told_in_words() {
    assert_eq!(said(Fault::Meta, "", ""), "meta.width/height/fps must be positive");
    assert_eq!(said(Fault::EmptyTrackId, "", ""), "every overlay track needs a non-empty id");
    assert_eq!(said(Fault::DuplicateId, "a\"b", ""), "duplicate id \"a\\\"b\"");
    assert_eq!(said(Fault::SceneDuration, "s", ""), "scene \"s\": duration must be > 0");
    assert_eq!(said(Fault::Rate, "c", ""), "clip \"c\": rate must be 0.1-10");
    assert_eq!(
        said(Fault::Color, "c", ""),
        "clip \"c\": color ranges are brightness/hue -1..1, contrast/saturation 0..2"
    );
    assert_eq!(said(Fault::UnknownDef, "c", "d"), "clip \"c\" references unknown def \"d\"");
    assert_eq!(said(Fault::DefCycle, "a -> b", "a"), "def cycle: a -> b -> \"a\"");
}

#[test]
fn refused_edits_are_told_in_words() {
    assert_eq!(EditError::NoClip.message("c", 0), "no clip \"c\"");
    assert_eq!(EditError::LaneOutOfRange.message("c", 7), "lane 7 out of range");
    assert_eq!(
        EditError::RateNotNormal.message("c", fx(2.5)),
        "remove_silence only supports rate 1.0 clips (clip \"c\" has rate 2.5)"
    );
    assert_eq!(EditError::DefExists.message("card", 0), "a def named \"card\" already exists");
    assert_eq!(
        encoding_profile("a.xyz").unwrap_err().message(),
        "unknown encoding profile \"xyz\" (video: mp4, webm, h265, vp9, av1, prores, ffv1; audio: m4a, ogg, flac, mp3, wav)"
    );
    assert_eq!(OpenError::BadDocument.message("{}"), "not a project document");
    assert_eq!(OpenError::BadJson.message("nope"), json_complaint("nope").unwrap());
    assert!(json_complaint("[1]").is_none());
}

#[test]
fn a_refused_request_is_answered_with_its_error() {
    let a = refuse(400, "say \"no\"");
    assert_eq!((a.status, a.body.as_str()), (400, "{\"error\":\"say \\\"no\\\"\"}"));
    assert_eq!(not_found().status, 404);
    let loaded = load(&Ok("{}".into()), "/p.json");
    assert_eq!(loaded.as_ref().unwrap_err(), "loading /p.json");
    assert_eq!(load(&Err("gone".into()), "/p.json").unwrap_err(), "gone");
    assert_eq!(answer_document(&loaded).status, 500);
    let a = replace_document("nope").unwrap_err();
    assert_eq!(a.status, 400);
    assert_eq!(a.body, format!("{{\"error\":{:?}}}", json_complaint("nope").unwrap()));
    let mut bad = project();
    bad.meta.fps = 0;
    let a = replace_document(&bad.to_json().unwrap()).unwrap_err();
    assert_eq!(a.body, "{\"error\":\"meta.width/height/fps must be positive\"}");
}

#[test]
fn documents_are_handed_out_and_replaced() {
    let p = project();
    let text = p.to_json().unwrap();
    let loaded = load(&Ok(text.clone()), "/p.json");
    let a = answer_document(&loaded);
    assert_eq!((a.status, a.body.as_str()), (200, text.as_str()));
    let a = answer_status(&loaded, "1.2");
    assert_eq!(
        a.body,
        "{\"engine\":\"dualcut\",\"version\":\"1.2\",\"project\":\"t\",\"duration\":5.0,\"scenes\":1}"
    );
    let c = replace_document(&text).unwrap();
    assert_eq!((c.document.as_str(), c.summary.as_str()), (text.as_str(), "Replaced project (agent)"));
    let a = answer_change(&c, None);
    assert_eq!((a.status, a.body.as_str()), (200, "{\"ok\":true}"));
    let a = answer_change(&c, Some("disk full"));
    assert_eq!((a.status, a.body.as_str()), (500, "{\"error\":\"disk full\"}"));
    assert_eq!(scripted(&Ok(p)).unwrap().summary, "Ran script (agent)");
    assert_eq!(scripted(&Err("no".into())).unwrap_err().status, 400);
}

#[test]
fn operations_are_carried_out_and_answered() {
    let loaded: Result<Project, String> = Ok(project());
    let none = Ok(vec![]);
    let c = run_request(&loaded, r#"{"op":"split","id":"c","at":1}"#, &none).unwrap();
    assert_eq!(c.done.body, "{\"ok\":true,\"new_id\":\"c-2\"}");
    assert_eq!((c.summary.as_str(), c.failed), ("split c (agent)", 400));
    assert!(Project::from_json(&c.document).is_ok());
    let silence = Ok(vec![(fx(0.5), fx(1.0))]);
    let c = run_request(&loaded, r#"{"op":"remove_silence","id":"c"}"#, &silence).unwrap();
    assert_eq!(c.done.body, "{\"ok\":true,\"removed\":1}");
    let c = run_request(&loaded, r#"{"op":"ripple_delete","id":"c"}"#, &none).unwrap();
    assert_eq!(c.done.body, "{\"ok\":true}");
}

#[test]
fn refused_operations_are_answered_in_words() {
    let loaded: Result<Project, String> = Ok(project());
    let error = |body: &str| {
        let a = run_request(&loaded, body, &Ok(vec![])).unwrap_err();
        assert_eq!(a.status, 400);
        a.body
    };
    assert_eq!(error(r#"{"op":"split","id":"x","at":1}"#), "{\"error\":\"no clip \\\"x\\\"\"}");
    assert_eq!(
        error(r#"{"op":"split","id":"c","at":9}"#),
        "{\"error\":\"split point must fall inside the clip\"}"
    );
    assert_eq!(error(r#"{"op":"split","id":"c"}"#), "{\"error\":\"'at' (seconds) required\"}");
    assert_eq!(
        error(r#"{"op":"move_to_lane","id":"c","lane":9,"at":0}"#),
        "{\"error\":\"lane 9 out of range\"}"
    );
    assert_eq!(
        error(r#"{"op":"move_to_lane","id":"x","lane":0,"at":0}"#),
        "{\"error\":\"clip \\\"x\\\" not found\"}"
    );
    assert_eq!(error(r#"{"op":"remove_silence","id":"x"}"#), "{\"error\":\"no such clip\"}");
    assert_eq!(
        error(r#"{"op":"detach_audio","id":"x"}"#),
        "{\"error\":\"clip is not a video clip\"}"
    );
    assert_eq!(
        error(r#"{"op":"fly"}"#),
        "{\"error\":\"unknown op \\\"fly\\\" (split, ripple_delete, detach_audio, move_to_lane, remove_silence)\"}"
    );
    let gone: Result<Project, String> = Err("loading p".into());
    assert_eq!(run_request(&gone, "{}", &Ok(vec![])).unwrap_err().status, 400);
    let op: Op = parse_op(r#"{"op":"remove_silence","id":"c"}"#).unwrap();
    let a = change_by_op(&project(), &op, &Err("no audio".into())).unwrap_err();
    assert_eq!(a.body, "{\"error\":\"no audio\"}");
}

#[test]
fn renders_are_answered_with_their_warnings() {
    let a = answer_render("o.mp4", &Ok(vec!["a".into(), "b\"".into()]));
    assert_eq!(a.body, "{\"ok\":true,\"out\":\"o.mp4\",\"warnings\":[\"a\",\"b\\\"\"]}");
    assert_eq!(answer_render("o.mp4", &Ok(vec![])).body, "{\"ok\":true,\"out\":\"o.mp4\",\"warnings\":[]}");
    assert_eq!(answer_render("o.mp4", &Err("x".into())).status, 500);
}

#[test]
fn an_agent_announces_its_edits() {
    let text = marker_text("split \"c\" (agent)", 1_700_000_000_000);
    let (_, summary) = agent_edit(&text, 1_700_000_005_000).unwrap();
    assert_eq!(summary, "split \"c\" (agent)");
    assert!(agent_edit(&text, 1_700_000_005_001).is_none());
    assert!(agent_edit(&marker_text("x", u64::MAX), 0).is_some());
}

#[test]
fn a_render_is_moved_into_place_when_it_is_complete() {
    let mut r = Render::start(fx(10.0), true);
    assert!(r.on(Event::Message).is_empty());
    assert!(matches!(r.on(Event::Quiet(Some(2_500_000_000)))[..], [Step::Report(250_000_000)]));
    assert!(r.on(Event::Quiet(None)).is_empty());
    assert!(matches!(
        r.on(Event::Ended)[..],
        [Step::Report(1_000_000_000), Step::Stop, Step::Move]
    ));
    assert!(r.on(Event::Moved).is_empty());
    assert_eq!(r.phase, Phase::Finished);
}

#[test]
fn a_failed_render_leaves_no_part_behind() {
    let mut r = Render::start(fx(10.0), true);
    assert!(matches!(r.on(Event::Broke)[..], [Step::Stop, Step::DropPart]));
    assert_eq!(r.phase, Phase::Failed);
    let mut r = Render::start(fx(10.0), true);
    r.on(Event::Ended);
    assert!(matches!(r.on(Event::Stuck)[..], [Step::DropPart]));
    let mut r = Render::start(fx(10.0), false);
    r.on(Event::Ended);
    assert!(r.on(Event::Stuck).is_empty());
}

#[test]
fn whisper_is_found_and_called() {
    let c = whisper_candidates(&vec!["/usr/bin".into(), "/b/".into()]);
    assert_eq!(
        c,
        vec![
            "/app/bin/whisper-cli",
            "/usr/bin/whisper-cli",
            "/b/whisper-cli",
            "/usr/bin/whisper-cpp",
            "/b/whisper-cpp"
        ]
    );
    assert_eq!(find_whisper(&c, &vec![false, false, true, true, false]).unwrap(), c[2]);
    assert!(find_whisper(&c, &vec![false; 5]).is_none());
    assert_eq!(find_whisper_model(Some("m.bin"), true).unwrap(), "m.bin");
    assert!(find_whisper_model(Some("  "), true).unwrap().ends_with("ggml-tiny.en-q5_1.bin"));
    assert!(find_whisper_model(None, false).is_none());
    let args = whisper_arguments("m", "v.wav", "v", true);
    assert_eq!(args.join(" "), "-m m -f v.wav --output-json --output-file v --max-len 1");
    assert_eq!(whisper_arguments("m", "v.wav", "v", false).len(), 7);
    assert_eq!(whisper_failure("a\nbad model\n"), "whisper failed: bad model");
    assert_eq!(whisper_failure(""), "whisper failed: unknown error");
}

#[test]
fn what_a_request_writes_is_read_as_the_document_it_leaves() {
    let body = project().to_json().unwrap();
    let c = replace_document(&body).unwrap();
    assert_eq!(c.document, body);
    let silent: Result<Vec<(i128, i128)>, String> = Ok(vec![]);
    let request = r#"{"op":"split","id":"c","at":0.7}"#;
    let c = run_request(&Ok(project()), request, &silent).unwrap();
    let q = Project::from_json(&c.document).unwrap();
    assert_eq!(q.scenes[0].layers.len(), 2);
    assert_eq!(q.scenes[0].layers[1].start, fx(0.7));
    assert_eq!(q.to_json().unwrap(), c.document);
    let c = scripted(&Ok(project())).unwrap();
    assert_eq!(Project::from_json(&c.document).unwrap().to_json().unwrap(), c.document);
}

#[test]
fn a_text_that_is_no_document_leaves_the_file_alone() {
    for body in ["{", "{}", r#"{"meta":{"title":"t","width":0,"height":1,"fps":1},"scenes":[]}"#] {
        assert!(Project::from_json(body).is_err());
        assert_eq!(replace_document(body).unwrap_err().status, 400);
    }
}

#[test]
fn of_two_equal_keys_of_a_marker_the_later_counts() {
    let (_, summary) =
        agent_edit(r#"{"summary":"a","at_unix_ms":7,"summary":"b","at_unix_ms":9000}"#, 9001)
            .unwrap();
    assert_eq!(summary, "b");
}
