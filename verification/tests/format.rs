use dualcut::docfile::OpenError;
use dualcut::document::{Easing, Effect, Element, Project, ShapeKind, TransitionKind};
use dualcut::faults::Fault;
use dualcut::json::{parse_json, read_fixed};
use dualcut::numbers::{integer_text, number_text, read_integer};
use dualcut::templates::new_project;
use dualcut::tree::print_json;

fn fx(x: f64) -> i128 {
    (x * 1e9).round() as i128
}

#[test]
fn a_blank_project_is_written_with_its_fields_in_order() {
    let text = new_project("Hi \"there\"").to_json().unwrap();
    let expected = r#"{
  "meta": {
    "title": "Hi \"there\"",
    "width": 1920,
    "height": 1080,
    "fps": 30
  },
  "defs": {},
  "scenes": [
    {
      "id": "scene-1",
      "name": "",
      "duration": 5.0,
      "layers": []
    }
  ],
  "overlays": []
}"#;
    assert_eq!(text, expected);
}

#[test]
fn absent_fields_take_their_defaults() {
    let p = Project::from_json(
        r#"{"meta":{"title":"t","width":640,"height":360,"fps":25},
            "scenes":[{"id":"s","duration":2,
              "transition":{"duration":0.5},
              "layers":[
                {"id":"a","type":"video","src":"a.mp4"},
                {"id":"b","type":"text","text":"x","align":null},
                {"id":"c","type":"shape","shape":"star","effects":[{"type":"chromakey"},{"type":"denoise"},{"type":"compressor"},{"type":"color"}]},
                {"id":"d","type":"test","animations":[{"property":"opacity","end":1}]}
              ]}]}"#,
    )
    .unwrap();
    assert_eq!(p.scenes[0].name, "");
    let t = p.scenes[0].transition.unwrap();
    assert_eq!((t.kind, t.duration), (TransitionKind::Crossfade, fx(0.5)));
    let layers = &p.scenes[0].layers;
    assert_eq!((layers[0].start, layers[0].duration), (0, 0));
    assert_eq!(layers[0].transform.opacity, fx(1.0));
    match &layers[0].element {
        Element::Video { src, offset, volume, rate } => {
            assert_eq!((src.as_str(), *offset, *volume, *rate), ("a.mp4", 0, fx(1.0), fx(1.0)));
        }
        other => panic!("{other:?}"),
    }
    match &layers[1].element {
        Element::Text { font, color, align, outline, shadow, .. } => {
            assert_eq!((font.as_str(), color.as_str()), ("Sans Bold 32", "#ffffff"));
            assert!(align.is_none() && outline.is_none() && !shadow);
        }
        other => panic!("{other:?}"),
    }
    match &layers[2].element {
        Element::Shape { shape, fill } => {
            assert_eq!((*shape, fill.as_str()), (ShapeKind::Star, "#ffffff"));
        }
        other => panic!("{other:?}"),
    }
    match &layers[2].effects[..] {
        [Effect::ChromaKey { color, angle, noise }, Effect::Denoise { level }, Effect::Compressor { threshold, ratio }, Effect::Color { brightness, contrast, saturation, hue }] => {
            assert_eq!((color.as_str(), *angle, *noise), ("#00ff00", fx(20.0), 0));
            assert_eq!(*level, 1);
            assert_eq!((*threshold, *ratio), (fx(0.25), fx(2.0)));
            assert_eq!((*brightness, *contrast, *saturation, *hue), (0, fx(1.0), fx(1.0), 0));
        }
        other => panic!("{other:?}"),
    }
    assert_eq!(layers[3].animations[0].easing, Easing::Linear);
    assert!(p.library.is_empty() && p.overlays.is_empty() && p.scene_lanes.is_empty());
}

#[test]
fn unknown_fields_are_passed_over() {
    let p = Project::from_json(
        r#"{"meta":{"title":"t","width":2,"height":2,"fps":1,"more":1},"scenes":[],"extra":[1]}"#,
    );
    assert!(p.is_ok());
}

#[test]
fn records_may_be_written_by_position() {
    let p = Project::from_json(r#"{"meta":["t",640,360,25],"scenes":[["s","Name",2.5]]}"#).unwrap();
    assert_eq!(p.meta.width, 640);
    assert_eq!((p.scenes[0].name.as_str(), p.scenes[0].duration), ("Name", fx(2.5)));
}

#[test]
fn texts_that_are_no_document_are_told_apart() {
    assert!(matches!(Project::from_json("{"), Err(OpenError::BadJson)));
    assert!(matches!(Project::from_json("{}"), Err(OpenError::BadDocument)));
    assert!(matches!(
        Project::from_json(r#"{"meta":{"title":"t","width":2.5,"height":2,"fps":1},"scenes":[]}"#),
        Err(OpenError::BadDocument)
    ));
    assert!(matches!(
        Project::from_json(
            r#"{"meta":{"title":"t","width":2,"height":2,"fps":1},"scenes":[{"id":"s","duration":1,"layers":[{"id":"c","type":"nope"}]}]}"#
        ),
        Err(OpenError::BadDocument)
    ));
    match Project::from_json(r#"{"meta":{"title":"t","width":0,"height":2,"fps":1},"scenes":[]}"#) {
        Err(OpenError::Invalid(e)) => assert_eq!(e.fault, Fault::Meta),
        other => panic!("{other:?}"),
    }
}

#[test]
fn numbers_are_written_with_a_point_and_read_back() {
    for (x, s) in [
        (fx(0.0), "0.0"),
        (fx(1.0), "1.0"),
        (fx(-2.5), "-2.5"),
        (1, "1e-9"),
        (12, "1.2e-8"),
        (-9990, "-9.99e-6"),
        (10_000, "0.00001"),
        (fx(0.4), "0.4"),
        (fx(1234.5678), "1234.5678"),
        (100_000_000_000_000_000, "100000000.0"),
    ] {
        assert_eq!(number_text(x), s);
        assert_eq!(read_fixed(s), Some(x));
    }
    assert_eq!(read_fixed("1e3"), Some(fx(1000.0)));
    assert_eq!(read_fixed("2.5E-1"), Some(fx(0.25)));
    assert_eq!(read_fixed("0.000000001"), Some(1));
    assert_eq!(read_fixed("1e9"), None);
}

#[test]
fn whole_numbers_are_written_and_read_back() {
    for (n, s) in [(0, "0"), (1920, "1920"), (-7, "-7"), (i32::MIN as i64, "-2147483648")] {
        assert_eq!(integer_text(n), s);
        assert_eq!(read_integer(s), Some(n as i128));
    }
    assert_eq!(read_integer("1.0"), None);
    assert_eq!(read_integer("-"), None);
    assert_eq!(read_integer(""), None);
}

#[test]
fn values_are_printed_with_indentation() {
    let j = parse_json(r#"{"b":[1,true,null],"a":"x\ny"}"#).unwrap();
    assert_eq!(
        print_json(&j).unwrap(),
        "{\n  \"b\": [\n    1,\n    true,\n    null\n  ],\n  \"a\": \"x\\ny\"\n}"
    );
}

#[test]
fn a_document_with_every_part_is_written_and_read_back() {
    let text = r##"{
  "meta": {
    "title": "All",
    "width": 100,
    "height": 50,
    "fps": 24
  },
  "library": [
    "a.mp4"
  ],
  "defs": {
    "d": {
      "params": [
        "p"
      ],
      "layers": [
        {
          "id": "l",
          "start": 0.0,
          "duration": 0.0,
          "type": "image",
          "src": "{p}",
          "transform": {
            "x": 1.5,
            "y": 0.0,
            "width": 0.0,
            "height": 0.0,
            "opacity": 0.5
          },
          "animations": [
            {
              "property": "width",
              "from": 0.0,
              "to": 2.0,
              "start": 0.0,
              "end": 1.0,
              "easing": "easeInOut"
            }
          ],
          "effects": [
            {
              "type": "crop",
              "left": 1,
              "right": 2,
              "top": 3,
              "bottom": 4
            }
          ]
        }
      ]
    }
  },
  "scenes": [
    {
      "id": "s",
      "name": "S",
      "duration": 3.25,
      "transition": {
        "kind": "box-wipe",
        "duration": 0.5
      },
      "layers": [
        {
          "id": "c",
          "start": 0.25,
          "duration": 1.0,
          "type": "compref",
          "ref": "d",
          "args": {
            "p": "b.png"
          },
          "transform": {
            "x": 0.0,
            "y": 0.0,
            "width": 0.0,
            "height": 0.0,
            "opacity": 1.0
          },
          "animations": []
        },
        {
          "id": "m",
          "start": 0.0,
          "duration": 0.0,
          "type": "audio",
          "src": "m.ogg",
          "offset": 1.0,
          "volume": 0.5,
          "rate": 2.0,
          "transform": {
            "x": 0.0,
            "y": 0.0,
            "width": 0.0,
            "height": 0.0,
            "opacity": 1.0
          },
          "animations": []
        }
      ]
    }
  ],
  "overlays": [
    {
      "id": "o",
      "muted": true,
      "locked": true,
      "name": "O",
      "clips": []
    }
  ],
  "scene_lanes": [
    {},
    {
      "hidden": true
    }
  ]
}"##;
    let p = Project::from_json(text).unwrap();
    assert_eq!(p.to_json().unwrap(), text);
}

#[test]
fn numbers_of_fifteen_digits_survive_the_file() {
    let mut p = new_project("t");
    let mut x: i128 = 1;
    let mut seen = 0;
    while x <= 1_000_000_000_000_000 {
        for d in [-1, 0, 1, 7] {
            for sign in [1, -1] {
                let n = sign * (x + d);
                if n.abs() <= 1_000_000_000_000_000 {
                    p.scenes[0].layers = vec![dualcut::document::Clip {
                        id: "c".into(),
                        start: n.abs(),
                        duration: n.abs(),
                        element: Element::Test,
                        transform: dualcut::document::Transform {
                            x: n,
                            y: -n,
                            width: 0,
                            height: n,
                            opacity: 0,
                        },
                        animations: vec![],
                        effects: vec![],
                    }];
                    let text = p.to_json().unwrap();
                    let q = Project::from_json(&text).unwrap();
                    let c = &q.scenes[0].layers[0];
                    assert_eq!((c.start, c.transform.x, c.transform.y), (n.abs(), n, -n));
                    assert!(text.contains(&format!("\"x\": {}", number_text(n))));
                    seen += 1;
                }
            }
        }
        x = x * 3 + 1;
    }
    assert!(seen > 200);
}

#[test]
fn texts_of_any_kind_survive_the_file() {
    let mut p = new_project("\u{0} \" \\ \n \u{7f} é 世界 😀 \u{2028}");
    p.library.push(String::new());
    let q = Project::from_json(&p.to_json().unwrap()).unwrap();
    assert_eq!(q.meta.title, p.meta.title);
    assert_eq!(q.library, p.library);
}

fn lasting(seconds: &str) -> Project {
    let text = format!(
        r#"{{"meta":{{"title":"t","width":640,"height":360,"fps":25}},"scenes":[
            {{"id":"s","duration":{seconds},"layers":[]}}]}}"#
    );
    Project::from_json(&text).unwrap()
}

#[test]
fn every_document_that_was_read_is_written_and_read_back() {
    for seconds in [
        "2000000.0", "12345678.5", "8388607.999999999", "67108863.99999999", "99999999.9999999",
        "100000000.0", "8765992.716728199", "12345678.123456789", "1e-9", "3",
    ] {
        let p = lasting(seconds);
        let text = p.to_json().unwrap();
        let q = Project::from_json(&text).unwrap();
        assert_eq!(q.scenes[0].duration, p.scenes[0].duration);
        assert_eq!(q.to_json().unwrap(), text);
    }
    assert_eq!(lasting("12345678.5").scenes[0].duration, 12_345_678_500_000_000);
}

#[test]
fn numbers_with_few_decimals_last_up_to_the_limit() {
    for x in [
        8_388_607_999_999_999i128, 8_388_608_000_000_010, 67_108_863_999_999_990,
        67_108_864_000_000_100, 99_999_999_999_999_900, 100_000_000_000_000_000,
    ] {
        let mut p = new_project("t");
        p.scenes[0].duration = x;
        let q = Project::from_json(&p.to_json().unwrap()).unwrap();
        assert_eq!(q.scenes[0].duration, x);
    }
}

fn document_with(meta: &str, clip: &str, rest: &str) -> String {
    format!(
        r#"{{"meta":{{"title":"t","width":640,"height":360,"fps":25{meta}}},"scenes":[
            {{"id":"s","duration":3,"layers":[
                {{"id":"c","type":"text","text":"hi"{clip}}}]}}]{rest}}}"#
    )
}

#[test]
fn a_field_that_is_given_twice_is_refused() {
    let refused = |text: String| {
        assert!(matches!(Project::from_json(&text), Err(OpenError::BadDocument)), "{text}");
    };
    assert!(Project::from_json(&document_with("", "", "")).is_ok());
    refused(document_with(r#","fps":30"#, "", ""));
    refused(document_with(r#","f\u0070s":25"#, "", ""));
    refused(document_with("", r#","id":"d""#, ""));
    refused(document_with("", r#","type":"text""#, ""));
    refused(document_with("", r#","text":"ho""#, ""));
    refused(document_with("", r#","transform":{"x":1,"y":2,"x":1}"#, ""));
    refused(document_with("", r#","effects":[{"type":"blur","amount":1,"amount":1}]"#, ""));
    refused(document_with("", "", r#","scenes":[]"#));
}

#[test]
fn other_keys_may_occur_twice() {
    let p = Project::from_json(&document_with(
        r#","note":1,"note":{"a":"},]","a":2}"#,
        r#","src":"a","src":"b""#,
        r#","defs":{"d":{"params":["old"],"layers":[]},"d":{"params":["new"],"layers":[]}}"#,
    ))
    .unwrap();
    assert_eq!(p.defs.get("d").unwrap().params, vec!["new"]);
}

#[test]
fn texts_with_marks_and_escapes_are_read_whole() {
    let text = r#" { "meta" : {"title":"a,b:\"c\\","width":640,"height":360,"fps":25} ,
        "library":["[x]","{y}","\u002c"], "scenes":[ ] } "#;
    let p = Project::from_json(text).unwrap();
    assert_eq!(p.meta.title, "a,b:\"c\\");
    assert_eq!(p.library, vec!["[x]", "{y}", ","]);
    assert!(p.scenes.is_empty());
}

#[test]
fn a_number_that_does_not_last_is_written_as_one_close_by() {
    let mut p = new_project("t");
    p.scenes[0].duration = 8_765_992_716_728_199;
    let text = p.to_json().unwrap();
    let q = Project::from_json(&text).unwrap();
    assert_eq!(q.scenes[0].duration, 8_765_992_716_728_200);
    assert_eq!(q.to_json().unwrap(), text);
    p.scenes[0].duration = 99_999_999_999_999_999;
    let text = p.to_json().unwrap();
    let q = Project::from_json(&text).unwrap();
    assert!((q.scenes[0].duration - p.scenes[0].duration).abs() <= 15);
    assert_eq!(q.to_json().unwrap(), text);
}
