//! Transcription with whisper.cpp: which program and model to use, how to call
//! it, and what to say when it fails.

use vstd::prelude::*;
use crate::export::{export_target, path_in};
use crate::text::joined;
use crate::views::views;
use crate::words::{lines_of, split_lines, trim, trimmed};

verus! {

broadcast use crate::views::group_views;

/// The program that comes with the editor.
pub open spec fn bundled_program() -> Seq<char> {
    "/app/bin/whisper-cli"@
}

/// The model that comes with the editor.
pub open spec fn bundled_model() -> Seq<char> {
    "/app/share/dualcut/models/ggml-tiny.en-q5_1.bin"@
}

/// A program of the given name in each of some directories.
pub open spec fn in_each(dirs: Seq<Seq<char>>, name: Seq<char>) -> Seq<Seq<char>> {
    dirs.map_values(|dir: Seq<char>| path_in(dir, name))
}

/// The programs to look for, in this order: the one that comes with the editor,
/// then in the given directories those of the current name, then those of the
/// older name.
pub open spec fn programs(dirs: Seq<Seq<char>>) -> Seq<Seq<char>> {
    seq![bundled_program()] + in_each(dirs, "whisper-cli"@) + in_each(dirs, "whisper-cpp"@)
}

fn push_each(out: &mut Vec<String>, dirs: &Vec<String>, name: &str)
    ensures
        views(final(out)@) == views(old(out)@) + in_each(views(dirs@), name@),
{
    let ghost start = views(out@);
    let ghost all = in_each(views(dirs@), name@);
    let mut i: usize = 0;
    assert(start + all.take(0) =~= start);
    while i < dirs.len()
        invariant
            i <= dirs.len(),
            all == in_each(views(dirs@), name@),
            views(out@) == start + all.take(i as int),
        decreases dirs.len() - i,
    {
        let ghost before = views(out@);
        let path: String = export_target(dirs[i].as_str(), name);
        assert(path@ == all[i as int]);
        out.push(path);
        assert(views(out@) =~= before.push(path@));
        assert(views(out@) =~= start + all.take(i + 1));
        i += 1;
    }
    assert(all.take(i as int) =~= all);
}

/// The programs to look for, in the order they are looked for; `dirs` are the
/// directories of the search path.
pub fn whisper_candidates(dirs: &Vec<String>) -> (r: Vec<String>)
    ensures
        views(r@) == programs(views(dirs@)),
{
    let mut out: Vec<String> = Vec::new();
    let first: String = "/app/bin/whisper-cli".to_owned();
    out.push(first);
    assert(views(out@) =~= seq![bundled_program()]);
    push_each(&mut out, dirs, "whisper-cli");
    push_each(&mut out, dirs, "whisper-cpp");
    out
}

/// The first of some paths that is a file; `is_file` tells of each.
pub fn find_whisper(candidates: &Vec<String>, is_file: &Vec<bool>) -> (r: Option<String>)
    requires
        candidates@.len() == is_file@.len(),
    ensures
        match r {
            Some(path) => exists|i: int|
                0 <= i < is_file@.len() && #[trigger] is_file@[i] && path@ == candidates@[i]@ && (
                forall|j: int| 0 <= j < i ==> !#[trigger] is_file@[j]),
            None => forall|i: int| 0 <= i < is_file@.len() ==> !#[trigger] is_file@[i],
        },
{
    let mut i: usize = 0;
    while i < is_file.len()
        invariant
            i <= is_file.len(),
            candidates@.len() == is_file@.len(),
            forall|j: int| 0 <= j < i ==> !#[trigger] is_file@[j],
        decreases is_file.len() - i,
    {
        if is_file[i] {
            return Some(candidates[i].clone());
        }
        i += 1;
    }
    None
}

/// The model to use: the one that the environment names, unless that is blank;
/// else the one that comes with the editor, if `bundled` tells that it is
/// there.
pub fn find_whisper_model(named: Option<&str>, bundled: bool) -> (r: Option<String>)
    ensures
        crate::document::opt_text(r) == (match named {
            Some(m) => if trimmed(m@).len() > 0 {
                Some(m@)
            } else if bundled {
                Some(bundled_model())
            } else {
                None
            },
            None => if bundled {
                Some(bundled_model())
            } else {
                None
            },
        }),
{
    if let Some(m) = named {
        let t: String = trim(m);
        if !t.as_str().is_empty() {
            return Some(m.to_owned());
        }
    }
    if bundled {
        Some("/app/share/dualcut/models/ggml-tiny.en-q5_1.bin".to_owned())
    } else {
        None
    }
}

/// The arguments of a transcription of `wav` into a JSON file beginning with
/// `prefix`; `word_level` asks for one word per segment.
pub open spec fn arguments(
    model: Seq<char>,
    wav: Seq<char>,
    prefix: Seq<char>,
    word_level: bool,
) -> Seq<Seq<char>> {
    let common = seq![
        "-m"@,
        model,
        "-f"@,
        wav,
        "--output-json"@,
        "--output-file"@,
        prefix,
    ];
    if word_level {
        common + seq!["--max-len"@, "1"@]
    } else {
        common
    }
}

/// The arguments of a transcription.
pub fn whisper_arguments(model: &str, wav: &str, prefix: &str, word_level: bool) -> (r: Vec<String>)
    ensures
        views(r@) == arguments(model@, wav@, prefix@, word_level),
{
    let mut out: Vec<String> = Vec::new();
    out.push("-m".to_owned());
    out.push(model.to_owned());
    out.push("-f".to_owned());
    out.push(wav.to_owned());
    out.push("--output-json".to_owned());
    out.push("--output-file".to_owned());
    out.push(prefix.to_owned());
    if word_level {
        out.push("--max-len".to_owned());
        out.push("1".to_owned());
    }
    assert(views(out@) =~= arguments(model@, wav@, prefix@, word_level));
    out
}

/// What is said of a transcription that failed: the last line of what it wrote
/// to its error output.
pub fn whisper_failure(errors: &str) -> (r: String)
    ensures
        r@ == "whisper failed: "@ + if lines_of(errors@).len() > 0 {
            lines_of(errors@).last()
        } else {
            "unknown error"@
        },
{
    let lines: Vec<String> = split_lines(errors);
    if lines.len() > 0 {
        assert(views(lines@).last() == lines@[lines@.len() - 1]@);
        joined("whisper failed: ", lines[lines.len() - 1].as_str())
    } else {
        joined("whisper failed: ", "unknown error")
    }
}

} // verus!
