//! What requests to the agent interface are answered with, and what they do to
//! the project file.

use vstd::prelude::*;
use crate::api::{editable, op_name, op_of, op_summary, outcome, parse_op, run_op};
use crate::api::{Op, OpError, OpErrorView, OpView, Reply, ReplyView};
use crate::desilence::{media_rate, pairs};
use crate::docfile::{document_in, stands_for};
use crate::document::{Element, Project, ProjectView};
use crate::error::{EditError, EditErrorView};
use crate::json::{denotes, readable, Json, NESTING};
use crate::messages::{bad_json, edit_message, fault_message, json_message};
use crate::messages::{quoted, sentence};
use crate::numbers::{number, number_text};
use crate::text::{decimal, decimal_text, joined};
use crate::timeline::{find_clip, found, total_duration};
use crate::tree::{calm, print_json, printed, value_in, JsonView, Stored};
use crate::validate::{project_fault, valid};
use crate::views::views;

verus! {

broadcast use crate::views::group_views;

/// An answer: its status code, and its body in JSON.
#[derive(Debug)]
pub struct Answer {
    pub status: u16,
    pub body: String,
}

#[verifier::ext_equal]
pub struct AnswerView {
    pub status: int,
    pub body: Seq<char>,
}

impl View for Answer {
    type V = AnswerView;

    open spec fn view(&self) -> AnswerView {
        AnswerView { status: self.status as int, body: self.body@ }
    }
}

/// The answer to a refused request.
pub open spec fn refusal(status: int, message: Seq<char>) -> AnswerView {
    AnswerView { status, body: "{\"error\":"@ + quoted(message) + "}"@ }
}

/// The answer to a request that was carried out and has nothing to tell.
pub open spec fn done() -> AnswerView {
    AnswerView { status: 200, body: "{\"ok\":true}"@ }
}

/// The answer to a refused request.
pub fn refuse(status: u16, message: &str) -> (r: Answer)
    ensures
        r@ == refusal(status as int, message@),
{
    Answer { status, body: sentence("{\"error\":", message, "}") }
}

fn accept() -> (r: Answer)
    ensures
        r@ == done(),
{
    Answer { status: 200, body: "{\"ok\":true}".to_owned() }
}

/// The answer to a request for nothing that there is.
pub fn not_found() -> (r: Answer)
    ensures
        r@ == (AnswerView { status: 404, body: "{\"error\":\"not found\"}"@ }),
{
    Answer { status: 404, body: "{\"error\":\"not found\"}".to_owned() }
}

/// A document that was loaded, or what is said of it.
pub open spec fn load_view(r: Result<Project, String>) -> Result<ProjectView, Seq<char>> {
    match r {
        Ok(p) => Ok(p@),
        Err(m) => Err(m@),
    }
}

/// The document of a project file, from what was read of it: its text, or why
/// it could not be read. `path` names the file.
pub fn load(text: &Result<String, String>, path: &str) -> (r: Result<Project, String>)
    ensures
        load_view(r) == (match *text {
            Ok(t) => match document_in(t@) {
                Some(p) => if valid(p) {
                    Ok(p)
                } else {
                    Err("loading "@ + path@)
                },
                None => Err("loading "@ + path@),
            },
            Err(m) => Err(m@),
        }),
{
    match text {
        Ok(t) => match Project::from_json(t.as_str()) {
            Ok(p) => Ok(p),
            Err(_) => Err(joined("loading ", path)),
        },
        Err(m) => Err(m.clone()),
    }
}

/// What is said of a document that cannot be written.
pub open spec fn unwritable() -> Seq<char> {
    "the document cannot be written"@
}

/// The answer with the document.
pub open spec fn document_answer(loaded: Result<ProjectView, Seq<char>>) -> AnswerView {
    match loaded {
        Ok(p) => match printed(Project::written(p)) {
            Some(t) => AnswerView { status: 200, body: t },
            None => refusal(500, unwritable()),
        },
        Err(m) => refusal(500, m),
    }
}

/// The answer to a request for the document.
pub fn answer_document(loaded: &Result<Project, String>) -> (r: Answer)
    ensures
        r@ == document_answer(load_view(*loaded)),
{
    match loaded {
        Ok(p) => match p.to_json() {
            Some(t) => Answer { status: 200, body: t },
            None => refuse(500, "the document cannot be written"),
        },
        Err(m) => refuse(500, m.as_str()),
    }
}

/// A text in JSON.
pub open spec fn json_string(s: Seq<char>) -> Seq<char> {
    printed(JsonView::Text(s))->0
}

fn string_json(s: &str) -> (r: String)
    ensures
        r@ == json_string(s@),
{
    let j: Json = Json::Text(s.to_owned());
    let r: Option<String> = print_json(&j);
    assert(calm(j@, 0, true));
    r.unwrap()
}

/// The answer that tells what the engine is and has open.
pub open spec fn status_answer(
    loaded: Result<ProjectView, Seq<char>>,
    version: Seq<char>,
) -> AnswerView {
    match loaded {
        Ok(p) => AnswerView {
            status: 200,
            body: "{\"engine\":\"dualcut\",\"version\":"@ + json_string(version) + ",\"project\":"@
                + json_string(p.meta.title) + ",\"duration\":"@ + number(total_duration(p.scenes))
                + ",\"scenes\":"@ + decimal(p.scenes.len()) + "}"@,
        },
        Err(m) => refusal(500, m),
    }
}

/// The answer to a request for what the engine is and has open.
pub fn answer_status(loaded: &Result<Project, String>, version: &str) -> (r: Answer)
    requires
        match *loaded {
            Ok(p) => p@.fits(16),
            Err(_) => true,
        },
    ensures
        r@ == status_answer(load_view(*loaded), version@),
{
    match loaded {
        Ok(p) => {
            let mut s: String = joined(
                "{\"engine\":\"dualcut\",\"version\":",
                string_json(version).as_str(),
            );
            s.append(",\"project\":");
            s.append(string_json(p.meta.title.as_str()).as_str());
            s.append(",\"duration\":");
            s.append(number_text(p.duration()).as_str());
            s.append(",\"scenes\":");
            s.append(decimal_text(p.scenes.len() as u128).as_str());
            s.append("}");
            Answer { status: 200, body: s }
        },
        Err(m) => refuse(500, m.as_str()),
    }
}

/// What a request does to the project file: the text to write, how the editor's
/// history names the edit, the answer once it is written, and the status of
/// the refusal if it cannot be.
#[derive(Debug)]
pub struct Change {
    pub document: String,
    pub summary: String,
    pub done: Answer,
    pub failed: u16,
}

#[verifier::ext_equal]
pub struct ChangeView {
    pub document: Seq<char>,
    pub summary: Seq<char>,
    pub done: AnswerView,
    pub failed: int,
}

impl View for Change {
    type V = ChangeView;

    open spec fn view(&self) -> ChangeView {
        ChangeView {
            document: self.document@,
            summary: self.summary@,
            done: self.done@,
            failed: self.failed as int,
        }
    }
}

/// A change, or the answer to a request that makes none.
pub open spec fn change_view(r: Result<Change, Answer>) -> Result<ChangeView, AnswerView> {
    match r {
        Ok(c) => Ok(c@),
        Err(a) => Err(a@),
    }
}

/// The change to a document.
pub open spec fn change_to(
    p: ProjectView,
    summary: Seq<char>,
    done: AnswerView,
    failed: int,
) -> Result<ChangeView, AnswerView> {
    match printed(Project::written(p)) {
        Some(document) => Ok(ChangeView { document, summary, done, failed }),
        None => Err(refusal(failed, unwritable())),
    }
}

/// A text stands for the document that it was written for, if the numbers of
/// the document are in range.
pub open spec fn reopens(text: Seq<char>, p: ProjectView) -> bool {
    Project::storable(p) ==> stands_for(text, p)
}

fn change(p: &Project, summary: String, done: Answer, failed: u16) -> (r: Result<Change, Answer>)
    ensures
        change_view(r) == change_to(p@, summary@, done@, failed as int),
        Project::storable(p@) ==> r is Ok,
        r is Ok ==> reopens(r->Ok_0.document@, p@),
{
    match p.to_json() {
        Some(document) => Ok(Change { document, summary, done, failed }),
        None => Err(refuse(failed, "the document cannot be written")),
    }
}

/// What a document in place of the one in the file does: a text that is no
/// valid document is refused.
pub open spec fn replacement(body: Seq<char>) -> Result<ChangeView, AnswerView> {
    match value_in(body, NESTING as nat) {
        None => Err(refusal(400, json_message(body))),
        Some(j) => match Project::read_in(j) {
            None => Err(refusal(400, "not a project document"@)),
            Some(p) => if valid(p) {
                change_to(p, "Replaced project (agent)"@, done(), 500)
            } else {
                Err(refusal(400, fault_message(project_fault(p)->0)))
            },
        },
    }
}

/// Put another document in place of the one in the file. What is written is
/// read as the same document, which is valid.
pub fn replace_document(body: &str) -> (r: Result<Change, Answer>)
    ensures
        change_view(r) == replacement(body@),
        r is Ok <==> document_in(body@) is Some && valid(document_in(body@)->0),
        r is Ok ==> document_in(r->Ok_0.document@) == document_in(body@),
{
    match Project::from_json(body) {
        Ok(p) => change(&p, "Replaced project (agent)".to_owned(), accept(), 500),
        Err(e) => Err(refuse(400, e.message(body).as_str())),
    }
}

/// What a script did to the document: the document it left, or what it is
/// refused with.
pub fn scripted(edited: &Result<Project, String>) -> (r: Result<Change, Answer>)
    ensures
        change_view(r) == (match load_view(*edited) {
            Ok(p) => change_to(p, "Ran script (agent)"@, done(), 500),
            Err(m) => Err(refusal(400, m)),
        }),
        r is Ok ==> edited is Ok && reopens(r->Ok_0.document@, edited->Ok_0@),
{
    match edited {
        Ok(p) => change(p, "Ran script (agent)".to_owned(), accept(), 500),
        Err(m) => Err(refuse(400, m.as_str())),
    }
}

/// What is said of a request that names no operation.
pub open spec fn request_message(e: OpErrorView, body: Seq<char>) -> Seq<char> {
    match e {
        OpErrorView::BadJson => json_message(body),
        OpErrorView::AtRequired => "'at' (seconds) required"@,
        OpErrorView::LaneRequired => "'lane' required"@,
        OpErrorView::UnknownOp(name) => "unknown op "@ + quoted(name)
            + " (split, ripple_delete, detach_audio, move_to_lane, remove_silence)"@,
        OpErrorView::NotVideo => "clip is not a video clip"@,
        OpErrorView::Edit(e) => edit_message(e, Seq::empty(), 0),
        OpErrorView::Invalid(e) => fault_message(e),
        OpErrorView::TooLarge =>
            "the document or the request holds numbers beyond what can be edited"@,
    }
}

fn say_request(e: &OpError, body: &str) -> (r: String)
    ensures
        r@ == request_message(e@, body@),
{
    match e {
        OpError::BadJson => bad_json(body),
        OpError::AtRequired => "'at' (seconds) required".to_owned(),
        OpError::LaneRequired => "'lane' required".to_owned(),
        OpError::UnknownOp(name) => sentence(
            "unknown op ",
            name.as_str(),
            " (split, ripple_delete, detach_audio, move_to_lane, remove_silence)",
        ),
        OpError::NotVideo => "clip is not a video clip".to_owned(),
        OpError::Edit(e) => {
            proof {
                reveal_strlit("");
                assert(""@ =~= Seq::empty());
            }
            e.message("", 0)
        },
        OpError::Invalid(e) => e.message(),
        OpError::TooLarge =>
            "the document or the request holds numbers beyond what can be edited".to_owned(),
    }
}

/// The clip that an operation is about.
pub open spec fn op_id(op: OpView) -> Seq<char> {
    match op {
        OpView::Split { id, at } => id,
        OpView::RippleDelete { id } => id,
        OpView::DetachAudio { id } => id,
        OpView::MoveToLane { id, lane, at } => id,
        OpView::RemoveSilence { id, threshold, min_duration } => id,
    }
}

/// The lane that an operation names, or the rate of the clip that it is about.
pub open spec fn op_amount(p: ProjectView, op: OpView) -> int {
    match op {
        OpView::MoveToLane { id, lane, at } => lane,
        _ => match found(p, op_id(op)) {
            Some(c) => match media_rate(c.element) {
                Some(rate) => rate,
                None => 0,
            },
            None => 0,
        },
    }
}

/// What is said of an operation that was refused.
pub open spec fn op_message(p: ProjectView, op: OpView, e: OpErrorView) -> Seq<char> {
    match (e, op) {
        (OpErrorView::Edit(EditErrorView::NoClip), OpView::MoveToLane { .. }) => "clip "@ + quoted(
            op_id(op),
        ) + " not found"@,
        (OpErrorView::Edit(EditErrorView::NoClip), OpView::RemoveSilence { .. }) => "no such clip"@,
        (OpErrorView::Edit(EditErrorView::NoMedia), OpView::RemoveSilence { .. }) => "clip "@
            + quoted(op_id(op)) + " has no media"@,
        (OpErrorView::Edit(e), _) => edit_message(e, op_id(op), op_amount(p, op)),
        (e, _) => request_message(e, Seq::empty()),
    }
}

fn id_of<'a>(op: &'a Op) -> (r: &'a str)
    ensures
        r@ == op_id(op@),
{
    match op {
        Op::Split { id, .. } => id.as_str(),
        Op::RippleDelete { id } => id.as_str(),
        Op::DetachAudio { id } => id.as_str(),
        Op::MoveToLane { id, .. } => id.as_str(),
        Op::RemoveSilence { id, .. } => id.as_str(),
    }
}

fn amount_of(project: &Project, op: &Op) -> (r: i128)
    ensures
        r == op_amount(project@, op@),
{
    match op {
        Op::MoveToLane { lane, .. } => *lane as i128,
        _ => match find_clip(project, id_of(op)) {
            Some(c) => match &c.element {
                Element::Video { rate, .. } => *rate,
                Element::Audio { rate, .. } => *rate,
                _ => 0,
            },
            None => 0,
        },
    }
}

fn say_op(project: &Project, op: &Op, e: &OpError) -> (r: String)
    ensures
        r@ == op_message(project@, op@, e@),
{
    let id: &str = id_of(op);
    match (e, op) {
        (OpError::Edit(EditError::NoClip), Op::MoveToLane { .. }) => sentence(
            "clip ",
            id,
            " not found",
        ),
        (OpError::Edit(EditError::NoClip), Op::RemoveSilence { .. }) => "no such clip".to_owned(),
        (OpError::Edit(EditError::NoMedia), Op::RemoveSilence { .. }) => sentence(
            "clip ",
            id,
            " has no media",
        ),
        (OpError::Edit(e), _) => e.message(id, amount_of(project, op)),
        (e, _) => {
            proof {
                reveal_strlit("");
                assert(""@ =~= Seq::empty());
            }
            say_request(e, "")
        },
    }
}

/// The answer to an operation that was carried out.
pub open spec fn reply_answer(reply: ReplyView) -> AnswerView {
    match reply {
        ReplyView::Done => done(),
        ReplyView::NewId(id) => AnswerView {
            status: 200,
            body: "{\"ok\":true,\"new_id\":"@ + json_string(id) + "}"@,
        },
        ReplyView::Removed(n) => AnswerView {
            status: 200,
            body: "{\"ok\":true,\"removed\":"@ + decimal(n as nat) + "}"@,
        },
    }
}

fn answer_reply(reply: &Reply) -> (r: Answer)
    ensures
        r@ == reply_answer(reply@),
{
    match reply {
        Reply::Done => accept(),
        Reply::NewId(id) => {
            let mut s: String = joined("{\"ok\":true,\"new_id\":", string_json(id.as_str()).as_str());
            s.append("}");
            Answer { status: 200, body: s }
        },
        Reply::Removed(n) => {
            let mut s: String = joined(
                "{\"ok\":true,\"removed\":",
                decimal_text(*n as u128).as_str(),
            );
            s.append("}");
            Answer { status: 200, body: s }
        },
    }
}

/// The silent ranges of a clip's media, or why they cannot be told.
pub open spec fn silence_view(r: Result<Vec<(i128, i128)>, String>) -> Result<
    Seq<(int, int)>,
    Seq<char>,
> {
    match r {
        Ok(v) => Ok(pairs(v@)),
        Err(m) => Err(m@),
    }
}

/// What an operation does to the project file.
pub open spec fn op_change(
    p: ProjectView,
    op: OpView,
    silent: Result<Seq<(int, int)>, Seq<char>>,
) -> Result<ChangeView, AnswerView> {
    match silent {
        Err(m) => Err(refusal(400, m)),
        Ok(ranges) => if !editable(p, op, ranges) {
            Err(refusal(400, op_message(p, op, OpErrorView::TooLarge)))
        } else {
            match outcome(p, op, ranges) {
                Ok((q, reply)) => change_to(q, op_name(op), reply_answer(reply), 400),
                Err(e) => Err(refusal(400, op_message(p, op, e))),
            }
        },
    }
}

/// A text was written for the valid document that an operation leaves, and
/// stands for it.
pub open spec fn carried_out(
    p: ProjectView,
    op: OpView,
    silent: Result<Seq<(int, int)>, Seq<char>>,
    text: Seq<char>,
) -> bool {
    &&& silent is Ok && outcome(p, op, silent->Ok_0) is Ok
    &&& valid(outcome(p, op, silent->Ok_0)->Ok_0.0)
    &&& reopens(text, outcome(p, op, silent->Ok_0)->Ok_0.0)
}

/// Carry out an operation on a document. `silent` are the silent ranges of the
/// media of the clip that silence is removed from, or why they cannot be told.
pub fn change_by_op(
    project: &Project,
    op: &Op,
    silent: &Result<Vec<(i128, i128)>, String>,
) -> (r: Result<Change, Answer>)
    ensures
        change_view(r) == op_change(project@, op@, silence_view(*silent)),
        r is Ok ==> carried_out(project@, op@, silence_view(*silent), r->Ok_0.document@),
{
    match silent {
        Err(m) => Err(refuse(400, m.as_str())),
        Ok(ranges) => match run_op(project, op, ranges) {
            Ok((q, reply)) => change(&q, op_summary(op), answer_reply(&reply), 400),
            Err(e) => Err(refuse(400, say_op(project, op, &e).as_str())),
        },
    }
}

/// What a request for an operation does, by what it names.
pub open spec fn request_change(
    loaded: Result<ProjectView, Seq<char>>,
    op: Result<OpView, OpErrorView>,
    body: Seq<char>,
    silent: Result<Seq<(int, int)>, Seq<char>>,
) -> Result<ChangeView, AnswerView> {
    match loaded {
        Err(m) => Err(refusal(400, m)),
        Ok(p) => match op {
            Ok(op) => op_change(p, op, silent),
            Err(e) => Err(refusal(400, request_message(e, body))),
        },
    }
}

/// Carry out the operation that the body of a request names, on the document
/// of the project file.
pub fn run_request(
    loaded: &Result<Project, String>,
    body: &str,
    silent: &Result<Vec<(i128, i128)>, String>,
) -> (r: Result<Change, Answer>)
    ensures
        readable(body@, NESTING as nat) ==> exists|j: Json|
            #![trigger denotes(body@, j, NESTING as nat)]
            denotes(body@, j, NESTING as nat) && change_view(r) == request_change(
                load_view(*loaded),
                op_of(j),
                body@,
                silence_view(*silent),
            ),
        !readable(body@, NESTING as nat) ==> change_view(r) == request_change(
            load_view(*loaded),
            Err(OpErrorView::BadJson),
            body@,
            silence_view(*silent),
        ),
        r is Ok ==> loaded is Ok && exists|op: OpView| #[trigger]
            carried_out(loaded->Ok_0@, op, silence_view(*silent), r->Ok_0.document@),
{
    let op: Result<Op, OpError> = parse_op(body);
    match loaded {
        Err(m) => Err(refuse(400, m.as_str())),
        Ok(p) => match &op {
            Ok(op) => change_by_op(p, op, silent),
            Err(e) => Err(refuse(400, say_request(e, body).as_str())),
        },
    }
}

/// Texts in JSON, one after the other.
pub open spec fn listed(texts: Seq<Seq<char>>) -> Seq<char>
    decreases texts.len(),
{
    if texts.len() == 0 {
        Seq::empty()
    } else if texts.len() == 1 {
        json_string(texts[0])
    } else {
        listed(texts.drop_last()) + ","@ + json_string(texts.last())
    }
}

fn list_json(texts: &Vec<String>) -> (r: String)
    ensures
        r@ == listed(views(texts@)),
{
    let ghost all = views(texts@);
    let mut s: String = String::new();
    let mut i: usize = 0;
    assert(all.take(0) =~= Seq::empty());
    while i < texts.len()
        invariant
            i <= texts.len(),
            all == views(texts@),
            s@ == listed(all.take(i as int)),
        decreases texts.len() - i,
    {
        let ghost upto = all.take(i + 1);
        assert(upto.drop_last() =~= all.take(i as int));
        assert(upto.last() == texts@[i as int]@);
        let ghost before = s@;
        if i > 0 {
            s.append(",");
        }
        s.append(string_json(texts[i].as_str()).as_str());
        assert(s@ =~= listed(upto));
        i += 1;
    }
    assert(all.take(i as int) =~= all);
    s
}

/// The answer to a request for a render: where it went and what was left out,
/// or why it failed.
pub open spec fn render_answer(
    out: Seq<char>,
    outcome: Result<Seq<Seq<char>>, Seq<char>>,
) -> AnswerView {
    match outcome {
        Ok(warnings) => AnswerView {
            status: 200,
            body: "{\"ok\":true,\"out\":"@ + json_string(out) + ",\"warnings\":["@ + listed(
                warnings,
            ) + "]}"@,
        },
        Err(m) => refusal(500, m),
    }
}

/// The answer to a request for a render.
pub fn answer_render(out: &str, outcome: &Result<Vec<String>, String>) -> (r: Answer)
    ensures
        r@ == render_answer(
            out@,
            match *outcome {
                Ok(w) => Ok(views(w@)),
                Err(m) => Err(m@),
            },
        ),
{
    match outcome {
        Ok(warnings) => {
            let mut s: String = joined("{\"ok\":true,\"out\":", string_json(out).as_str());
            s.append(",\"warnings\":[");
            s.append(list_json(warnings).as_str());
            s.append("]}");
            Answer { status: 200, body: s }
        },
        Err(m) => refuse(500, m.as_str()),
    }
}

/// The answer to a request that changes the file, once it was tried to write
/// the file: `failure` tells why it could not be written.
pub fn answer_change(change: &Change, failure: Option<&str>) -> (r: Answer)
    ensures
        r@ == (match failure {
            None => change@.done,
            Some(m) => refusal(change@.failed, m@),
        }),
{
    match failure {
        None => Answer { status: change.done.status, body: change.done.body.clone() },
        Some(m) => refuse(change.failed, m),
    }
}

/// A refused request leaves the file alone and is answered with an error; a
/// request that is carried out writes a valid document.
pub proof fn law_refused_or_valid(
    p: ProjectView,
    op: OpView,
    silent: Result<Seq<(int, int)>, Seq<char>>,
)
    ensures
        match op_change(p, op, silent) {
            Ok(c) => silent is Ok && outcome(p, op, silent->Ok_0) is Ok && valid(
                outcome(p, op, silent->Ok_0)->Ok_0.0,
            ) && Some(c.document) == printed(
                Project::written(outcome(p, op, silent->Ok_0)->Ok_0.0),
            ) && c.done.status == 200,
            Err(a) => a.status == 400 && exists|m: Seq<char>| a == #[trigger] refusal(400, m),
        },
{
}

} // verus!
