//! The agent interface: which request does what, and what editing operations
//! do to a document.

use vstd::prelude::*;
use crate::counts::count_ids;
use crate::desilence::{cut_all, media_rate, pairs, remove_silence, silence_refusal, stretches};
use crate::document::{Element, ElementView, Project, ProjectView};
use crate::edit::{detach_audio, detached, move_clip_to_lane, moved, ripple_delete, rippled};
use crate::error::{EditError, EditErrorView};
use crate::faults::{ErrorView, ValidateError};
use crate::fixed::{in_range, within, LIMIT};
use crate::json::{denotes, fixed_of, parse_json, readable, Json, NESTING};
use crate::plan::lemma_project_fits;
use crate::split::{cuts_inside, lemma_clip_fits, split_clip, split_id, split_project};
use crate::text::{joined, same};
use crate::timeline::{find_clip, found, layer_slots, max_layers};
use crate::validate::{all_ids, project_fault, valid};
use crate::views::views;

verus! {

broadcast use crate::views::group_views;

/// What a request asks for.
#[derive(Debug, Clone, Copy, PartialEq, Eq, Structural)]
pub enum Route {
    /// The document.
    GetProject,
    /// Another document in place of it.
    PutProject,
    /// A script that edits it.
    Script,
    /// An editing operation on it.
    Op,
    /// A render of it.
    Render,
    /// What the engine is and has open.
    Status,
    /// Nothing that there is.
    NotFound,
}

/// What a request asks for, by its method and path. `render` tells whether
/// renders are served, `op` whether editing operations are.
pub open spec fn route_of(method: Seq<char>, path: Seq<char>, render: bool, op: bool) -> Route {
    if method == "GET"@ && path == "/project"@ {
        Route::GetProject
    } else if method == "POST"@ && path == "/project"@ {
        Route::PutProject
    } else if method == "POST"@ && path == "/script"@ {
        Route::Script
    } else if method == "POST"@ && path == "/op"@ && op {
        Route::Op
    } else if method == "POST"@ && path == "/render"@ && render {
        Route::Render
    } else if method == "GET"@ && path == "/status"@ {
        Route::Status
    } else {
        Route::NotFound
    }
}

fn route(method: &str, path: &str, render: bool, op: bool) -> (r: Route)
    ensures
        r == route_of(method@, path@, render, op),
{
    let get: bool = same(method, "GET");
    let post: bool = same(method, "POST");
    if get && same(path, "/project") {
        Route::GetProject
    } else if post && same(path, "/project") {
        Route::PutProject
    } else if post && same(path, "/script") {
        Route::Script
    } else if post && same(path, "/op") && op {
        Route::Op
    } else if post && same(path, "/render") && render {
        Route::Render
    } else if get && same(path, "/status") {
        Route::Status
    } else {
        Route::NotFound
    }
}

/// What a request to the interface of a project file asks for.
pub fn file_route(method: &str, path: &str) -> (r: Route)
    ensures
        r == route_of(method@, path@, false, true),
{
    route(method, path, false, true)
}

/// What a request to the engine asks for.
pub fn engine_route(method: &str, path: &str) -> (r: Route)
    ensures
        r == route_of(method@, path@, true, false),
{
    route(method, path, true, false)
}

/// An editing operation. Times are in billionths of a second, the threshold
/// in billionths of a decibel.
#[derive(Debug)]
pub enum Op {
    Split { id: String, at: i128 },
    RippleDelete { id: String },
    DetachAudio { id: String },
    MoveToLane { id: String, lane: u64, at: i128 },
    RemoveSilence { id: String, threshold: i128, min_duration: i128 },
}

#[verifier::ext_equal]
pub enum OpView {
    Split { id: Seq<char>, at: int },
    RippleDelete { id: Seq<char> },
    DetachAudio { id: Seq<char> },
    MoveToLane { id: Seq<char>, lane: int, at: int },
    RemoveSilence { id: Seq<char>, threshold: int, min_duration: int },
}

impl View for Op {
    type V = OpView;

    open spec fn view(&self) -> OpView {
        match *self {
            Op::Split { id, at } => OpView::Split { id: id@, at: at as int },
            Op::RippleDelete { id } => OpView::RippleDelete { id: id@ },
            Op::DetachAudio { id } => OpView::DetachAudio { id: id@ },
            Op::MoveToLane { id, lane, at } => OpView::MoveToLane {
                id: id@,
                lane: lane as int,
                at: at as int,
            },
            Op::RemoveSilence { id, threshold, min_duration } => OpView::RemoveSilence {
                id: id@,
                threshold: threshold as int,
                min_duration: min_duration as int,
            },
        }
    }
}

/// Why an editing operation was refused.
#[derive(Debug)]
pub enum OpError {
    /// The request is no JSON.
    BadJson,
    /// The operation needs a time `at`, in seconds, that a document may hold.
    AtRequired,
    /// The operation needs a lane.
    LaneRequired,
    /// There is no such operation.
    UnknownOp(String),
    /// The clip is not a video clip.
    NotVideo,
    /// The edit was refused.
    Edit(EditError),
    /// The document does not validate after the edit.
    Invalid(ValidateError),
    /// The document or the request holds numbers beyond what can be edited.
    TooLarge,
}

pub ghost enum OpErrorView {
    BadJson,
    AtRequired,
    LaneRequired,
    UnknownOp(Seq<char>),
    NotVideo,
    Edit(EditErrorView),
    Invalid(ErrorView),
    TooLarge,
}

impl View for OpError {
    type V = OpErrorView;

    open spec fn view(&self) -> OpErrorView {
        match *self {
            OpError::BadJson => OpErrorView::BadJson,
            OpError::AtRequired => OpErrorView::AtRequired,
            OpError::LaneRequired => OpErrorView::LaneRequired,
            OpError::UnknownOp(name) => OpErrorView::UnknownOp(name@),
            OpError::NotVideo => OpErrorView::NotVideo,
            OpError::Edit(e) => OpErrorView::Edit(e@),
            OpError::Invalid(e) => OpErrorView::Invalid(e@),
            OpError::TooLarge => OpErrorView::TooLarge,
        }
    }
}

/// The text of a member, or no text.
pub open spec fn text_member(j: Json, key: Seq<char>) -> Seq<char> {
    match j.member(key) {
        Some(Json::Text(s)) => s@,
        _ => Seq::empty(),
    }
}

/// The number of a member.
pub open spec fn fixed_member(j: Json, key: Seq<char>) -> Option<int> {
    match j.member(key) {
        Some(Json::Number(s)) => fixed_of(s@),
        _ => None,
    }
}

/// The natural number of a member.
pub open spec fn natural_member(j: Json, key: Seq<char>) -> Option<int> {
    match j.member(key) {
        Some(m) => m.as_natural(),
        None => None,
    }
}

fn text_of_member(j: &Json, key: &str) -> (r: String)
    ensures
        r@ == text_member(*j, key@),
{
    match j.get(key) {
        Some(m) => match m.as_text() {
            Some(s) => s.clone(),
            None => String::new(),
        },
        None => String::new(),
    }
}

fn fixed_of_member(j: &Json, key: &str) -> (r: Option<i128>)
    ensures
        match r {
            Some(x) => fixed_member(*j, key@) == Some(x as int) && in_range(x as int),
            None => fixed_member(*j, key@) is None,
        },
{
    match j.get(key) {
        Some(m) => m.as_fixed(),
        None => None,
    }
}

/// Silence below this level counts unless the request says otherwise: -40 dB.
pub const DEFAULT_THRESHOLD: i128 = -40_000_000_000;

/// Silence of this length counts unless the request says otherwise: half a
/// second.
pub const DEFAULT_SILENCE: i128 = 500_000_000;

pub open spec fn or_default(x: Option<int>, d: i128) -> int {
    match x {
        Some(x) => x,
        None => d as int,
    }
}

/// The editing operation that a request names.
pub open spec fn op_of(j: Json) -> Result<OpView, OpErrorView> {
    let op = text_member(j, "op"@);
    let id = text_member(j, "id"@);
    if op == "split"@ {
        match fixed_member(j, "at"@) {
            Some(at) => Ok(OpView::Split { id, at }),
            None => Err(OpErrorView::AtRequired),
        }
    } else if op == "ripple_delete"@ {
        Ok(OpView::RippleDelete { id })
    } else if op == "detach_audio"@ {
        Ok(OpView::DetachAudio { id })
    } else if op == "move_to_lane"@ {
        match natural_member(j, "lane"@) {
            Some(lane) => match fixed_member(j, "at"@) {
                Some(at) => Ok(OpView::MoveToLane { id, lane, at }),
                None => Err(OpErrorView::AtRequired),
            },
            None => Err(OpErrorView::LaneRequired),
        }
    } else if op == "remove_silence"@ {
        Ok(
            OpView::RemoveSilence {
                id,
                threshold: or_default(fixed_member(j, "threshold_db"@), DEFAULT_THRESHOLD),
                min_duration: or_default(fixed_member(j, "min_duration"@), DEFAULT_SILENCE),
            },
        )
    } else {
        Err(OpErrorView::UnknownOp(op))
    }
}

/// An outcome in the terms of the views.
pub open spec fn op_view(r: Result<Op, OpError>) -> Result<OpView, OpErrorView> {
    match r {
        Ok(op) => Ok(op@),
        Err(e) => Err(e@),
    }
}

/// The editing operation that a request names.
pub fn read_op(j: &Json) -> (r: Result<Op, OpError>)
    ensures
        op_view(r) == op_of(*j),
{
    let op: String = text_of_member(j, "op");
    let id: String = text_of_member(j, "id");
    if same(op.as_str(), "split") {
        match fixed_of_member(j, "at") {
            Some(at) => Ok(Op::Split { id, at }),
            None => Err(OpError::AtRequired),
        }
    } else if same(op.as_str(), "ripple_delete") {
        Ok(Op::RippleDelete { id })
    } else if same(op.as_str(), "detach_audio") {
        Ok(Op::DetachAudio { id })
    } else if same(op.as_str(), "move_to_lane") {
        let lane: Option<u64> = match j.get("lane") {
            Some(m) => m.as_u64(),
            None => None,
        };
        match lane {
            Some(lane) => match fixed_of_member(j, "at") {
                Some(at) => Ok(Op::MoveToLane { id, lane, at }),
                None => Err(OpError::AtRequired),
            },
            None => Err(OpError::LaneRequired),
        }
    } else if same(op.as_str(), "remove_silence") {
        let threshold: i128 = match fixed_of_member(j, "threshold_db") {
            Some(x) => x,
            None => DEFAULT_THRESHOLD,
        };
        let min_duration: i128 = match fixed_of_member(j, "min_duration") {
            Some(x) => x,
            None => DEFAULT_SILENCE,
        };
        Ok(Op::RemoveSilence { id, threshold, min_duration })
    } else {
        Err(OpError::UnknownOp(op))
    }
}

/// The editing operation that the body of a request names.
pub fn parse_op(body: &str) -> (r: Result<Op, OpError>)
    ensures
        readable(body@, NESTING as nat) ==> exists|j: Json|
            #![trigger denotes(body@, j, NESTING as nat)]
            denotes(body@, j, NESTING as nat) && op_view(r) == op_of(j),
        !readable(body@, NESTING as nat) ==> r is Err && r->Err_0 is BadJson,
{
    match parse_json(body) {
        Some(j) => read_op(&j),
        None => Err(OpError::BadJson),
    }
}

/// How the editor's history names an operation of an agent.
pub open spec fn op_name(op: OpView) -> Seq<char> {
    match op {
        OpView::Split { id, at } => "split "@ + id + " (agent)"@,
        OpView::RippleDelete { id } => "ripple_delete "@ + id + " (agent)"@,
        OpView::DetachAudio { id } => "detach_audio "@ + id + " (agent)"@,
        OpView::MoveToLane { id, lane, at } => "move_to_lane "@ + id + " (agent)"@,
        OpView::RemoveSilence { id, threshold, min_duration } => "remove_silence "@ + id
            + " (agent)"@,
    }
}

/// How the editor's history names an operation of an agent.
pub fn op_summary(op: &Op) -> (r: String)
    ensures
        r@ == op_name(op@),
{
    let mut s: String = match op {
        Op::Split { id, .. } => joined("split ", id.as_str()),
        Op::RippleDelete { id } => joined("ripple_delete ", id.as_str()),
        Op::DetachAudio { id } => joined("detach_audio ", id.as_str()),
        Op::MoveToLane { id, .. } => joined("move_to_lane ", id.as_str()),
        Op::RemoveSilence { id, .. } => joined("remove_silence ", id.as_str()),
    };
    s.append(" (agent)");
    s
}

/// What an editing operation is answered with.
#[derive(Debug)]
pub enum Reply {
    Done,
    NewId(String),
    Removed(usize),
}

pub ghost enum ReplyView {
    Done,
    NewId(Seq<char>),
    Removed(int),
}

impl View for Reply {
    type V = ReplyView;

    open spec fn view(&self) -> ReplyView {
        match *self {
            Reply::Done => ReplyView::Done,
            Reply::NewId(id) => ReplyView::NewId(id@),
            Reply::Removed(n) => ReplyView::Removed(n as int),
        }
    }
}

/// What an operation makes of a document, before it is validated. `silent`
/// are the silent ranges of the clip's media.
pub open spec fn edit_outcome(p: ProjectView, op: OpView, silent: Seq<(int, int)>) -> Result<
    (ProjectView, ReplyView),
    OpErrorView,
> {
    match op {
        OpView::Split { id, at } => if found(p, id) is None {
            Err(OpErrorView::Edit(EditErrorView::NoClip))
        } else if !cuts_inside(p, id, at) {
            Err(OpErrorView::Edit(EditErrorView::SplitOutside))
        } else {
            Ok((split_project(p, id, at), ReplyView::NewId(split_id(p, id))))
        },
        OpView::RippleDelete { id } => if found(p, id) is None {
            Err(OpErrorView::Edit(EditErrorView::NoClip))
        } else {
            Ok((rippled(p, id), ReplyView::Done))
        },
        OpView::DetachAudio { id } => if found(p, id) is None || !(found(p, id)->0.element
            is Video) {
            Err(OpErrorView::NotVideo)
        } else {
            Ok((detached(p, id), ReplyView::NewId(id + "-audio"@)))
        },
        OpView::MoveToLane { id, lane, at } => if lane >= max_layers(p.scenes) + p.overlays.len() {
            Err(OpErrorView::Edit(EditErrorView::LaneOutOfRange))
        } else if found(p, id) is None {
            Err(OpErrorView::Edit(EditErrorView::NoClip))
        } else {
            let after = moved(p, id, lane as nat, at);
            if valid(after) {
                Ok((after, ReplyView::Done))
            } else {
                Err(OpErrorView::Edit(EditErrorView::Invalid(project_fault(after)->0)))
            }
        },
        OpView::RemoveSilence { id, threshold, min_duration } => match silence_refusal(p, id) {
            Some(e) => Err(OpErrorView::Edit(e)),
            None => {
                let cut = cut_all(p, id, stretches(p, id, silent), 0);
                Ok((cut.0, ReplyView::Removed(cut.1)))
            },
        },
    }
}

/// What an operation makes of a document: the edited document, if it is
/// valid.
pub open spec fn outcome(p: ProjectView, op: OpView, silent: Seq<(int, int)>) -> Result<
    (ProjectView, ReplyView),
    OpErrorView,
> {
    match edit_outcome(p, op, silent) {
        Ok((q, reply)) => if valid(q) {
            Ok((q, reply))
        } else {
            Err(OpErrorView::Invalid(project_fault(q)->0))
        },
        Err(e) => Err(e),
    }
}

/// The number that an operation names is one that a document may hold.
pub open spec fn op_in_range(op: OpView) -> bool {
    match op {
        OpView::Split { id, at } => in_range(at),
        OpView::MoveToLane { id, lane, at } => in_range(at),
        _ => true,
    }
}

/// A document and a request whose numbers can be edited.
pub open spec fn editable(p: ProjectView, op: OpView, silent: Seq<(int, int)>) -> bool {
    &&& p.fits(1)
    &&& all_ids(p).len() + silent.len() < u64::MAX - 4
    &&& max_layers(p.scenes) + p.overlays.len() <= usize::MAX
    &&& op_in_range(op)
    &&& forall|i: int|
        0 <= i < silent.len() ==> in_range((#[trigger] silent[i]).0) && in_range(silent[i].1)
}

fn ranges_in_limits(silent: &Vec<(i128, i128)>) -> (r: bool)
    ensures
        r == forall|i: int|
            0 <= i < pairs(silent@).len() ==> in_range((#[trigger] pairs(silent@)[i]).0)
                && in_range(pairs(silent@)[i].1),
{
    let mut i: usize = 0;
    while i < silent.len()
        invariant
            i <= silent.len(),
            forall|k: int|
                0 <= k < i ==> in_range((#[trigger] pairs(silent@)[k]).0) && in_range(
                    pairs(silent@)[k].1,
                ),
        decreases silent.len() - i,
    {
        let (a, b): (i128, i128) = silent[i];
        assert(pairs(silent@)[i as int] == (a as int, b as int));
        if a < -LIMIT || a > LIMIT || b < -LIMIT || b > LIMIT {
            return false;
        }
        i += 1;
    }
    true
}

fn can_edit(project: &Project, op: &Op, silent: &Vec<(i128, i128)>) -> (r: bool)
    ensures
        r == editable(project@, op@, pairs(silent@)),
{
    let number: i128 = match op {
        Op::Split { at, .. } => *at,
        Op::MoveToLane { at, .. } => *at,
        _ => 0,
    };
    if number < -LIMIT || number > LIMIT {
        return false;
    }
    let counted: bool = match count_ids(project) {
        Some(n) => match n.checked_add(silent.len() as u64) {
            Some(m) => m < u64::MAX - 4,
            None => false,
        },
        None => false,
    };
    let lanes: bool = layer_slots(project).checked_add(project.overlays.len()).is_some();
    counted && lanes && project.in_limits() && ranges_in_limits(silent)
}

pub open spec fn reply_view(r: Result<(Project, Reply), OpError>) -> Result<
    (ProjectView, ReplyView),
    OpErrorView,
> {
    match r {
        Ok((p, reply)) => Ok((p@, reply@)),
        Err(e) => Err(e@),
    }
}

fn edit(project: &mut Project, op: &Op, silent: &Vec<(i128, i128)>) -> (r: Result<Reply, OpError>)
    requires
        editable(old(project)@, op@, pairs(silent@)),
    ensures
        match edit_outcome(old(project)@, op@, pairs(silent@)) {
            Ok((q, reply)) => r is Ok && final(project)@ == q && r->Ok_0@ == reply,
            Err(e) => r is Err && r->Err_0@ == e,
        },
{
    let ghost p = project@;
    proof {
        lemma_project_fits(p, 1, 16);
    }
    match op {
        Op::Split { id, at } => {
            proof {
                if found(p, id@) is Some {
                    crate::edit::lemma_found_fits(p, id@, 1);
                    lemma_clip_fits(found(p, id@)->0, 1, 4);
                }
            }
            match split_clip(project, id.as_str(), *at) {
                Ok(new_id) => Ok(Reply::NewId(new_id)),
                Err(e) => Err(OpError::Edit(e)),
            }
        },
        Op::RippleDelete { id } => match ripple_delete(project, id.as_str()) {
            Ok(()) => Ok(Reply::Done),
            Err(e) => Err(OpError::Edit(e)),
        },
        Op::DetachAudio { id } => match detach_audio(project, id.as_str()) {
            Some(new_id) => Ok(Reply::NewId(new_id)),
            None => Err(OpError::NotVideo),
        },
        Op::MoveToLane { id, lane, at } => {
            if *lane as u128 >= usize::MAX as u128 {
                return Err(OpError::Edit(EditError::LaneOutOfRange));
            }
            match move_clip_to_lane(project, id.as_str(), *lane as usize, *at) {
                Ok(()) => Ok(Reply::Done),
                Err(e) => Err(OpError::Edit(e)),
            }
        },
        Op::RemoveSilence { id, .. } => {
            proof {
                assert forall|i: int| 0 <= i < silent@.len() implies within(
                    (#[trigger] silent@[i]).0 as int,
                    1,
                ) && within(silent@[i].1 as int, 1) by {
                    assert(in_range(pairs(silent@)[i].0));
                }
            }
            match remove_silence(project, id.as_str(), silent) {
                Ok(n) => Ok(Reply::Removed(n)),
                Err(e) => Err(OpError::Edit(e)),
            }
        },
    }
}

/// Run an editing operation on a document. A refused operation, and one after
/// which the document is not valid, gives an error and no document. `silent`
/// are the silent ranges of the media of the clip that silence is removed
/// from.
pub fn run_op(project: &Project, op: &Op, silent: &Vec<(i128, i128)>) -> (r: Result<
    (Project, Reply),
    OpError,
>)
    ensures
        reply_view(r) == if editable(project@, op@, pairs(silent@)) {
            outcome(project@, op@, pairs(silent@))
        } else {
            Err(OpErrorView::TooLarge)
        },
        match r {
            Ok((q, reply)) => valid(q@),
            Err(_) => true,
        },
{
    if !can_edit(project, op, silent) {
        return Err(OpError::TooLarge);
    }
    let mut edited: Project = project.clone();
    match edit(&mut edited, op, silent) {
        Ok(reply) => match edited.validate() {
            Ok(()) => Ok((edited, reply)),
            Err(e) => Err(OpError::Invalid(e)),
        },
        Err(e) => Err(e),
    }
}

/// The media source that silence is looked for in; why there is none
/// otherwise.
pub fn silence_source(project: &Project, id: &str) -> (r: Result<String, EditError>)
    ensures
        match r {
            Ok(src) => found(project@, id@) is Some && (match found(project@, id@)->0.element {
                ElementView::Video { src: s, offset, volume, rate } => src@ == s,
                ElementView::Audio { src: s, offset, volume, rate } => src@ == s,
                _ => false,
            }),
            Err(e) => match found(project@, id@) {
                None => e is NoClip,
                Some(c) => e is NoMedia && media_rate(c.element) is None,
            },
        },
{
    match find_clip(project, id) {
        Some(clip) => match &clip.element {
            Element::Video { src, .. } => Ok(src.clone()),
            Element::Audio { src, .. } => Ok(src.clone()),
            _ => Err(EditError::NoMedia),
        },
        None => Err(EditError::NoClip),
    }
}

/// What a render request asks for: the output, `out/render.mp4` if it names
/// none, and the profile, by default that of the output's extension. `None`
/// stands for a body that is no JSON.
pub open spec fn render_of(j: Option<Json>) -> (Seq<char>, Seq<char>) {
    let out = match j {
        Some(v) => match v.member("out"@) {
            Some(Json::Text(s)) => s@,
            _ => "out/render.mp4"@,
        },
        None => "out/render.mp4"@,
    };
    let profile = match j {
        Some(v) => match v.member("profile"@) {
            Some(Json::Text(s)) => s@,
            _ => out,
        },
        None => out,
    };
    (out, profile)
}

fn text_or(j: &Option<Json>, key: &str, default: &str) -> (r: String)
    ensures
        r@ == (match *j {
            Some(v) => match v.member(key@) {
                Some(Json::Text(s)) => s@,
                _ => default@,
            },
            None => default@,
        }),
{
    match j {
        Some(v) => match v.get(key) {
            Some(m) => match m.as_text() {
                Some(s) => s.clone(),
                None => default.to_owned(),
            },
            None => default.to_owned(),
        },
        None => default.to_owned(),
    }
}

/// What a render request asks for: output and profile.
pub fn read_render(j: &Option<Json>) -> (r: (String, String))
    ensures
        (r.0@, r.1@) == render_of(*j),
{
    let out: String = text_or(j, "out", "out/render.mp4");
    let profile: String = text_or(j, "profile", out.as_str());
    (out, profile)
}

/// What the body of a render request asks for: output and profile.
pub fn render_request(body: &str) -> (r: (String, String))
    ensures
        readable(body@, NESTING as nat) ==> exists|j: Json|
            #![trigger denotes(body@, j, NESTING as nat)]
            denotes(body@, j, NESTING as nat) && (r.0@, r.1@) == render_of(Some(j)),
        !readable(body@, NESTING as nat) ==> (r.0@, r.1@) == render_of(None),
{
    let j: Option<Json> = parse_json(body);
    read_render(&j)
}

/// A refused operation is answered with an error, and the document that is
/// kept is the one from before; an operation that is carried out gives a
/// valid document.
pub proof fn law_op_all_or_nothing(p: ProjectView, op: OpView, silent: Seq<(int, int)>)
    ensures
        match outcome(p, op, silent) {
            Ok((q, reply)) => valid(q) && edit_outcome(p, op, silent) == Ok::<
                (ProjectView, ReplyView),
                OpErrorView,
            >((q, reply)),
            Err(e) => edit_outcome(p, op, silent) == Err::<(ProjectView, ReplyView), OpErrorView>(
                e,
            ) || edit_outcome(p, op, silent) is Ok && !valid(edit_outcome(p, op, silent)->Ok_0.0),
        },
{
}

/// Carried out, an operation does what it is for: a split leaves the clip and
/// tells the id of its new half, a ripple delete takes the clip out, detached
/// sound goes by the clip's id with `-audio` behind it; where the clip is not
/// there, nothing is carried out.
pub proof fn law_op_carried_out(p: ProjectView, op: OpView, silent: Seq<(int, int)>)
    requires
        valid(p),
    ensures
        match (op, edit_outcome(p, op, silent)) {
            (OpView::Split { id, at }, Ok((q, reply))) => found(p, id) is Some && cuts_inside(
                p,
                id,
                at,
            ) && q == split_project(p, id, at) && reply == ReplyView::NewId(split_id(p, id)),
            (OpView::RippleDelete { id }, Ok((q, reply))) => found(p, id) is Some && found(q, id)
                is None && reply == ReplyView::Done,
            (OpView::DetachAudio { id }, Ok((q, reply))) => found(p, id) is Some && found(
                p,
                id,
            )->0.element is Video && q == detached(p, id) && reply == ReplyView::NewId(
                id + "-audio"@,
            ),
            (OpView::RippleDelete { id }, Err(e)) => found(p, id) is None,
            (OpView::DetachAudio { id }, Err(e)) => found(p, id) is None || !(found(
                p,
                id,
            )->0.element is Video),
            (OpView::Split { id, at }, Err(e)) => found(p, id) is None || !cuts_inside(p, id, at),
            _ => true,
        },
{
    if let OpView::RippleDelete { id } = op {
        if found(p, id) is Some {
            let other = id.push('x');
            assert(other.len() != id.len());
            crate::laws::law_rippled(p, id, other);
        }
    }
}

/// A request is routed by its method and its path together: it reaches what
/// both name. A request for anything else reaches nothing, nor does one for
/// something that is switched off.
pub proof fn law_routed(method: Seq<char>, path: Seq<char>, render: bool, op: bool)
    ensures
        match route_of(method, path, render, op) {
            Route::GetProject => method == "GET"@ && path == "/project"@,
            Route::PutProject => method == "POST"@ && path == "/project"@,
            Route::Script => method == "POST"@ && path == "/script"@,
            Route::Op => method == "POST"@ && path == "/op"@ && op,
            Route::Render => method == "POST"@ && path == "/render"@ && render,
            Route::Status => method == "GET"@ && path == "/status"@,
            Route::NotFound => !(method == "GET"@ && (path == "/project"@ || path == "/status"@))
                && !(method == "POST"@ && (path == "/project"@ || path == "/script"@)) && !(method
                == "POST"@ && path == "/op"@ && op) && !(method == "POST"@ && path == "/render"@
                && render),
        },
{
}

/// A request names its operation, the clip, and what else the operation needs:
/// a time, a lane, or when silence counts, which is below -40 dB for half a
/// second unless it says otherwise. Without what is needed it is refused.
pub proof fn law_op_named(j: Json)
    ensures
        ({
            let op = text_member(j, "op"@);
            let id = text_member(j, "id"@);
            let at = fixed_member(j, "at"@);
            let lane = natural_member(j, "lane"@);
            match op_of(j) {
                Ok(OpView::Split { id: i, at: t }) => op == "split"@ && i == id && at == Some(t),
                Ok(OpView::RippleDelete { id: i }) => op == "ripple_delete"@ && i == id,
                Ok(OpView::DetachAudio { id: i }) => op == "detach_audio"@ && i == id,
                Ok(OpView::MoveToLane { id: i, lane: l, at: t }) => op == "move_to_lane"@ && i == id
                    && lane == Some(l) && at == Some(t),
                Ok(OpView::RemoveSilence { id: i, threshold, min_duration }) => {
                    &&& op == "remove_silence"@ && i == id
                    &&& match fixed_member(j, "threshold_db"@) {
                        Some(x) => threshold == x,
                        None => threshold == -40_000_000_000,
                    }
                    &&& match fixed_member(j, "min_duration"@) {
                        Some(x) => min_duration == x,
                        None => min_duration == 500_000_000,
                    }
                },
                Err(OpErrorView::AtRequired) => at is None && (op == "split"@ || op
                    == "move_to_lane"@),
                Err(OpErrorView::LaneRequired) => lane is None && op == "move_to_lane"@,
                Err(OpErrorView::UnknownOp(name)) => name == op && op != "split"@ && op
                    != "ripple_delete"@ && op != "detach_audio"@ && op != "move_to_lane"@ && op
                    != "remove_silence"@,
                Err(_) => false,
            }
        }),
{
}

/// A clip is moved to any lane that there is, as long as the document stays
/// valid, and to no other.
pub proof fn law_move_carried_out(p: ProjectView, id: Seq<char>, lane: nat, at: int)
    ensures
        match edit_outcome(p, OpView::MoveToLane { id, lane: lane as int, at }, Seq::empty()) {
            Ok((q, reply)) => valid(q) && q == moved(p, id, lane, at) && reply == ReplyView::Done
                && lane < max_layers(p.scenes) + p.overlays.len() && found(p, id) is Some,
            Err(e) => lane >= max_layers(p.scenes) + p.overlays.len() || found(p, id) is None
                || !valid(moved(p, id, lane, at)),
        },
{
}

/// A render goes to where the request says, or to `out/render.mp4`, under the
/// profile that it says, or that of the output's name.
pub proof fn law_render_named(j: Option<Json>)
    ensures
        ({
            let (out, profile) = render_of(j);
            &&& j is None ==> out == "out/render.mp4"@ && profile == out
            &&& j is Some ==> {
                &&& j->0.member("out"@) matches Some(Json::Text(s)) ==> out == s@
                &&& j->0.member("out"@) is None ==> out == "out/render.mp4"@
                &&& j->0.member("profile"@) matches Some(Json::Text(s)) ==> profile == s@
                &&& j->0.member("profile"@) is None ==> profile == out
            }
        }),
{
}

} // verus!
