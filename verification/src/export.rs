//! Export: encoding profiles, file names, and the queue of renders.

use vstd::prelude::*;
use std::collections::VecDeque;
use crate::fixed::{clamped, larger, max, HORIZON, UNIT};
use crate::medialib::{slug, slug_of};
use crate::text::{chars_of, joined, same, text_of};
use crate::views::views;
use crate::words::{lemma_split_some, split_by, split_text};

verus! {

broadcast use crate::views::group_views;

/// A value in the description of a stream.
#[derive(Debug)]
pub enum CapsValue {
    Text(String),
    Number(i32),
}

#[verifier::ext_equal]
pub enum CapsValueView {
    Text(Seq<char>),
    Number(int),
}

impl View for CapsValue {
    type V = CapsValueView;

    open spec fn view(&self) -> CapsValueView {
        match *self {
            CapsValue::Text(s) => CapsValueView::Text(s@),
            CapsValue::Number(n) => CapsValueView::Number(n as int),
        }
    }
}

/// The description of a stream or container: a media type, with one field at
/// most.
#[derive(Debug)]
pub struct Caps {
    pub media: String,
    pub field: Option<(String, CapsValue)>,
}

#[verifier::ext_equal]
pub struct CapsView {
    pub media: Seq<char>,
    pub field: Option<(Seq<char>, CapsValueView)>,
}

impl View for Caps {
    type V = CapsView;

    open spec fn view(&self) -> CapsView {
        CapsView {
            media: self.media@,
            field: match self.field {
                Some((key, value)) => Some((key@, value@)),
                None => None,
            },
        }
    }
}

/// An encoding profile: a container with a video stream, if it has one, and
/// an audio stream.
#[derive(Debug)]
pub struct Profile {
    pub name: String,
    pub container: Caps,
    pub video: Option<Caps>,
    pub audio: Caps,
}

#[verifier::ext_equal]
pub struct ProfileView {
    pub name: Seq<char>,
    pub container: CapsView,
    pub video: Option<CapsView>,
    pub audio: CapsView,
}

impl View for Profile {
    type V = ProfileView;

    open spec fn view(&self) -> ProfileView {
        ProfileView {
            name: self.name@,
            container: self.container@,
            video: match self.video {
                Some(c) => Some(c@),
                None => None,
            },
            audio: self.audio@,
        }
    }
}

pub open spec fn bare(media: Seq<char>) -> CapsView {
    CapsView { media, field: None }
}

pub open spec fn with_text(media: Seq<char>, key: Seq<char>, value: Seq<char>) -> CapsView {
    CapsView { media, field: Some((key, CapsValueView::Text(value))) }
}

pub open spec fn with_number(media: Seq<char>, key: Seq<char>, value: int) -> CapsView {
    CapsView { media, field: Some((key, CapsValueView::Number(value))) }
}

/// AAC audio.
pub open spec fn aac() -> CapsView {
    with_number("audio/mpeg"@, "mpegversion"@, 4)
}

/// The MP4 container.
pub open spec fn mp4_container() -> CapsView {
    with_text("video/quicktime"@, "variant"@, "iso"@)
}

fn caps(media: &str) -> (r: Caps)
    ensures
        r@ == bare(media@),
{
    Caps { media: media.to_owned(), field: None }
}

fn caps_text(media: &str, key: &str, value: &str) -> (r: Caps)
    ensures
        r@ == with_text(media@, key@, value@),
{
    Caps {
        media: media.to_owned(),
        field: Some((key.to_owned(), CapsValue::Text(value.to_owned()))),
    }
}

fn caps_number(media: &str, key: &str, value: i32) -> (r: Caps)
    ensures
        r@ == with_number(media@, key@, value as int),
{
    Caps { media: media.to_owned(), field: Some((key.to_owned(), CapsValue::Number(value))) }
}

pub open spec fn mp4() -> ProfileView {
    ProfileView {
        name: "dualcut-mp4"@,
        container: mp4_container(),
        video: Some(with_text("video/x-h264"@, "profile"@, "high"@)),
        audio: aac(),
    }
}

/// MP4 with H.264 and AAC.
pub fn mp4_profile() -> (r: Profile)
    ensures
        r@ == mp4(),
{
    Profile {
        name: "dualcut-mp4".to_owned(),
        container: caps_text("video/quicktime", "variant", "iso"),
        video: Some(caps_text("video/x-h264", "profile", "high")),
        audio: caps_number("audio/mpeg", "mpegversion", 4),
    }
}

pub open spec fn mp4_video(video: Seq<char>) -> ProfileView {
    ProfileView {
        name: "dualcut-mp4v"@,
        container: mp4_container(),
        video: Some(bare(video)),
        audio: aac(),
    }
}

/// MP4 with the given video codec and AAC.
pub fn mp4_video_profile(video: &str) -> (r: Profile)
    ensures
        r@ == mp4_video(video@),
{
    Profile {
        name: "dualcut-mp4v".to_owned(),
        container: caps_text("video/quicktime", "variant", "iso"),
        video: Some(caps(video)),
        audio: caps_number("audio/mpeg", "mpegversion", 4),
    }
}

pub open spec fn webm() -> ProfileView {
    ProfileView {
        name: "dualcut-webm"@,
        container: bare("video/webm"@),
        video: Some(bare("video/x-vp8"@)),
        audio: bare("audio/x-vorbis"@),
    }
}

/// WebM with VP8 and Vorbis.
pub fn webm_profile() -> (r: Profile)
    ensures
        r@ == webm(),
{
    Profile {
        name: "dualcut-webm".to_owned(),
        container: caps("video/webm"),
        video: Some(caps("video/x-vp8")),
        audio: caps("audio/x-vorbis"),
    }
}

pub open spec fn vp9() -> ProfileView {
    ProfileView {
        name: "dualcut-vp9"@,
        container: bare("video/webm"@),
        video: Some(bare("video/x-vp9"@)),
        audio: bare("audio/x-opus"@),
    }
}

/// WebM with VP9 and Opus.
pub fn vp9_profile() -> (r: Profile)
    ensures
        r@ == vp9(),
{
    Profile {
        name: "dualcut-vp9".to_owned(),
        container: caps("video/webm"),
        video: Some(caps("video/x-vp9")),
        audio: caps("audio/x-opus"),
    }
}

pub open spec fn prores() -> ProfileView {
    ProfileView {
        name: "dualcut-prores"@,
        container: bare("video/quicktime"@),
        video: Some(bare("video/x-prores"@)),
        audio: with_text("audio/x-raw"@, "format"@, "S24LE"@),
    }
}

/// QuickTime with ProRes and PCM, an editing and interchange master.
pub fn prores_profile() -> (r: Profile)
    ensures
        r@ == prores(),
{
    Profile {
        name: "dualcut-prores".to_owned(),
        container: caps("video/quicktime"),
        video: Some(caps("video/x-prores")),
        audio: caps_text("audio/x-raw", "format", "S24LE"),
    }
}

pub open spec fn ffv1() -> ProfileView {
    ProfileView {
        name: "dualcut-ffv1"@,
        container: bare("video/x-matroska"@),
        video: Some(bare("video/x-ffv"@)),
        audio: bare("audio/x-flac"@),
    }
}

/// Matroska with FFV1 and FLAC, lossless.
pub fn ffv1_profile() -> (r: Profile)
    ensures
        r@ == ffv1(),
{
    Profile {
        name: "dualcut-ffv1".to_owned(),
        container: caps("video/x-matroska"),
        video: Some(caps("video/x-ffv")),
        audio: caps("audio/x-flac"),
    }
}

pub open spec fn audio_only(
    container: Seq<char>,
    audio: Seq<char>,
    extra: Option<(Seq<char>, int)>,
) -> ProfileView {
    ProfileView {
        name: "dualcut-audio"@,
        container: bare(container),
        video: None,
        audio: match extra {
            Some((key, value)) => with_number(audio, key, value),
            None => bare(audio),
        },
    }
}

/// Audio alone, in the given container; the stream may have one more field.
pub fn audio_profile(container: &str, audio: &str, extra: Option<(&str, i32)>) -> (r: Profile)
    ensures
        r@ == audio_only(
            container@,
            audio@,
            match extra {
                Some((key, value)) => Some((key@, value as int)),
                None => None,
            },
        ),
{
    Profile {
        name: "dualcut-audio".to_owned(),
        container: caps(container),
        video: None,
        audio: match extra {
            Some((key, value)) => caps_number(audio, key, value),
            None => caps(audio),
        },
    }
}

/// What follows the last dot of a name; the whole name without a dot.
pub open spec fn last_part(name: Seq<char>) -> Seq<char> {
    split_by(name, '.').last()
}

fn last_part_of(name: &str) -> (r: String)
    ensures
        r@ == last_part(name@),
{
    let mut parts: Vec<String> = split_text(name, '.');
    proof {
        lemma_split_some(name@, '.');
    }
    assert(views(parts@).len() == parts@.len());
    let n: usize = parts.len();
    parts[n - 1].clone()
}

/// The encoding profile for a profile's name or the name of an output file.
pub open spec fn profile_of(name: Seq<char>) -> Option<ProfileView> {
    let k = last_part(name);
    if k == "mp4"@ || k == "h264"@ {
        Some(mp4())
    } else if k == "webm"@ || k == "vp8"@ {
        Some(webm())
    } else if k == "h265"@ || k == "hevc"@ {
        Some(mp4_video("video/x-h265"@))
    } else if k == "vp9"@ {
        Some(vp9())
    } else if k == "av1"@ {
        Some(mp4_video("video/x-av1"@))
    } else if k == "prores"@ || k == "mov"@ {
        Some(prores())
    } else if k == "ffv1"@ || k == "mkv"@ {
        Some(ffv1())
    } else if k == "m4a"@ {
        Some(audio_only("video/quicktime"@, "audio/mpeg"@, Some(("mpegversion"@, 4))))
    } else if k == "ogg"@ || k == "opus"@ {
        Some(audio_only("application/ogg"@, "audio/x-opus"@, None))
    } else if k == "flac"@ {
        Some(audio_only("application/ogg"@, "audio/x-flac"@, None))
    } else if k == "mp3"@ {
        Some(audio_only("application/x-id3"@, "audio/mpeg"@, Some(("mpegversion"@, 1))))
    } else if k == "wav"@ {
        Some(audio_only("audio/x-wav"@, "audio/x-raw"@, None))
    } else {
        None
    }
}

/// No profile has that name. Video: mp4, webm, h265, vp9, av1, prores, ffv1;
/// audio: m4a, ogg, flac, mp3, wav.
#[derive(Debug)]
pub struct UnknownProfile {
    pub name: String,
}

/// The encoding profile for a profile's name or the name of an output file,
/// whose extension then decides.
pub fn encoding_profile(name: &str) -> (r: Result<Profile, UnknownProfile>)
    ensures
        match r {
            Ok(p) => profile_of(name@) == Some(p@),
            Err(e) => profile_of(name@) is None && e.name@ == last_part(name@),
        },
{
    let key: String = last_part_of(name);
    let k: &str = key.as_str();
    if same(k, "mp4") || same(k, "h264") {
        Ok(mp4_profile())
    } else if same(k, "webm") || same(k, "vp8") {
        Ok(webm_profile())
    } else if same(k, "h265") || same(k, "hevc") {
        Ok(mp4_video_profile("video/x-h265"))
    } else if same(k, "vp9") {
        Ok(vp9_profile())
    } else if same(k, "av1") {
        Ok(mp4_video_profile("video/x-av1"))
    } else if same(k, "prores") || same(k, "mov") {
        Ok(prores_profile())
    } else if same(k, "ffv1") || same(k, "mkv") {
        Ok(ffv1_profile())
    } else if same(k, "m4a") {
        Ok(audio_profile("video/quicktime", "audio/mpeg", Some(("mpegversion", 4))))
    } else if same(k, "ogg") || same(k, "opus") {
        Ok(audio_profile("application/ogg", "audio/x-opus", None))
    } else if same(k, "flac") {
        Ok(audio_profile("application/ogg", "audio/x-flac", None))
    } else if same(k, "mp3") {
        Ok(audio_profile("application/x-id3", "audio/mpeg", Some(("mpegversion", 1))))
    } else if same(k, "wav") {
        Ok(audio_profile("audio/x-wav", "audio/x-raw", None))
    } else {
        Err(UnknownProfile { name: key })
    }
}

/// The profile that a choice in the export dialog stands for.
pub open spec fn chosen_profile(choice: u32) -> Seq<char> {
    if choice == 1 {
        "webm"@
    } else if choice == 2 {
        "h265"@
    } else if choice == 3 {
        "vp9"@
    } else if choice == 4 {
        "av1"@
    } else if choice == 5 {
        "prores"@
    } else if choice == 6 {
        "ffv1"@
    } else if choice == 7 {
        "m4a"@
    } else if choice == 8 {
        "ogg"@
    } else if choice == 9 {
        "flac"@
    } else if choice == 10 {
        "mp3"@
    } else if choice == 11 {
        "wav"@
    } else {
        "mp4"@
    }
}

/// The profile that a choice in the export dialog stands for.
pub fn profile_choice(choice: u32) -> (r: &'static str)
    ensures
        r@ == chosen_profile(choice),
{
    match choice {
        1 => "webm",
        2 => "h265",
        3 => "vp9",
        4 => "av1",
        5 => "prores",
        6 => "ffv1",
        7 => "m4a",
        8 => "ogg",
        9 => "flac",
        10 => "mp3",
        11 => "wav",
        _ => "mp4",
    }
}

/// The file extension that a choice in the export dialog stands for.
pub open spec fn chosen_extension(choice: u32) -> Seq<char> {
    if choice == 1 || choice == 3 {
        "webm"@
    } else if choice == 5 {
        "mov"@
    } else if choice == 6 {
        "mkv"@
    } else if choice == 7 {
        "m4a"@
    } else if choice == 8 {
        "ogg"@
    } else if choice == 9 {
        "flac"@
    } else if choice == 10 {
        "mp3"@
    } else if choice == 11 {
        "wav"@
    } else {
        "mp4"@
    }
}

/// The file extension that a choice in the export dialog stands for.
pub fn extension_choice(choice: u32) -> (r: &'static str)
    ensures
        r@ == chosen_extension(choice),
{
    match choice {
        1 | 3 => "webm",
        5 => "mov",
        6 => "mkv",
        7 => "m4a",
        8 => "ogg",
        9 => "flac",
        10 => "mp3",
        11 => "wav",
        _ => "mp4",
    }
}

proof fn lemma_no_dot(s: Seq<char>)
    requires
        forall|i: int| 0 <= i < s.len() ==> #[trigger] s[i] != '.',
    ensures
        last_part(s) == s,
{
    crate::words::lemma_split_head(s, Seq::empty(), '.');
}

/// Every choice in the export dialog stands for a profile that exists.
pub proof fn law_choices_encode(choice: u32)
    ensures
        profile_of(chosen_profile(choice)) is Some,
{
    reveal_strlit("mp4");
    reveal_strlit("webm");
    reveal_strlit("h265");
    reveal_strlit("vp9");
    reveal_strlit("av1");
    reveal_strlit("prores");
    reveal_strlit("ffv1");
    reveal_strlit("m4a");
    reveal_strlit("ogg");
    reveal_strlit("flac");
    reveal_strlit("mp3");
    reveal_strlit("wav");
    lemma_no_dot(chosen_profile(choice));
}

/// Index of the last dot below `n`; -1 if there is none.
pub open spec fn last_dot(s: Seq<char>, n: int) -> int
    decreases n,
{
    if n <= 0 {
        -1
    } else if s[n - 1] == '.' {
        n - 1
    } else {
        last_dot(s, n - 1)
    }
}

/// A file name with another extension; a name without one stays.
pub open spec fn with_extension(name: Seq<char>, extension: Seq<char>) -> Seq<char> {
    let d = last_dot(name, name.len() as int);
    if d < 0 {
        name
    } else {
        name.take(d) + "."@ + extension
    }
}

fn find_last_dot(v: &Vec<char>) -> (r: Option<usize>)
    ensures
        match r {
            Some(d) => d < v.len() && last_dot(v@, v@.len() as int) == d,
            None => last_dot(v@, v@.len() as int) == -1,
        },
{
    let mut n: usize = v.len();
    while n > 0
        invariant
            n <= v.len(),
            last_dot(v@, v@.len() as int) == last_dot(v@, n as int),
        decreases n,
    {
        if v[n - 1] == '.' {
            return Some(n - 1);
        }
        n -= 1;
    }
    None
}

/// A file name with the extension that a choice stands for; a name without an
/// extension stays.
pub fn rename_for(name: &str, choice: u32) -> (r: String)
    ensures
        r@ == with_extension(name@, chosen_extension(choice)),
{
    let v: Vec<char> = chars_of(name);
    match find_last_dot(&v) {
        Some(d) => {
            let stem: String = text_of(&v, 0, d);
            assert(stem@ =~= name@.take(d as int));
            let mut s: String = joined(stem.as_str(), ".");
            s.append(extension_choice(choice));
            s
        },
        None => name.to_owned(),
    }
}

/// The name that an export is offered under: the title as a slug, and a time
/// stamp.
pub fn default_name(title: &str, stamp: &str) -> (r: String)
    ensures
        r@ == slug_of(title@) + "_"@ + stamp@ + ".mp4"@,
{
    let mut s: String = joined(slug(title).as_str(), "_");
    s.append(stamp);
    s.append(".mp4");
    s
}

/// A file name in a directory: an absolute name stands for itself; one
/// separator stands between directory and name.
pub open spec fn path_in(dir: Seq<char>, name: Seq<char>) -> Seq<char> {
    if name.len() > 0 && name[0] == '/' {
        name
    } else if dir.len() == 0 || dir.last() == '/' {
        dir + name
    } else {
        dir + "/"@ + name
    }
}

/// The path of an export, from its directory and file name.
pub fn export_target(dir: &str, name: &str) -> (r: String)
    ensures
        r@ == path_in(dir@, name@),
{
    let d: Vec<char> = chars_of(dir);
    let n: Vec<char> = chars_of(name);
    if n.len() > 0 && n[0] == '/' {
        return name.to_owned();
    }
    if d.len() == 0 || d[d.len() - 1] == '/' {
        return joined(dir, name);
    }
    let mut s: String = joined(dir, "/");
    s.append(name);
    s
}

/// The name that a file is rendered under until it is complete: a file name
/// with an extension gets `.part` behind it, one without gets `.out.part`. A
/// dot at the very front opens no extension.
pub open spec fn part_name(name: Seq<char>) -> Seq<char> {
    if last_dot(name, name.len() as int) > 0 {
        name + ".part"@
    } else {
        name + ".out.part"@
    }
}

/// The name that a file is rendered under until it is complete.
pub fn part_file(name: &str) -> (r: String)
    ensures
        r@ == part_name(name@),
{
    let v: Vec<char> = chars_of(name);
    match find_last_dot(&v) {
        Some(d) => if d > 0 {
            joined(name, ".part")
        } else {
            joined(name, ".out.part")
        },
        None => joined(name, ".out.part"),
    }
}

/// A file that is being rendered never has the name of the finished file.
pub proof fn law_part_differs(name: Seq<char>)
    ensures
        part_name(name) != name,
{
    reveal_strlit(".part");
    reveal_strlit(".out.part");
}

/// How much of a render is done: the position in the total, from 0 to one
/// unit. A total below a thousandth of a second counts as that.
pub open spec fn progress_of(position: int, total: int) -> int {
    clamped(position * UNIT / max(total, 1_000_000), 0, UNIT as int)
}

/// How much of a render is done.
pub fn progress(position: i128, total: i128) -> (r: i128)
    requires
        0 <= position <= HORIZON / UNIT,
        total <= HORIZON,
    ensures
        r == progress_of(position as int, total as int),
{
    let t: i128 = larger(total, 1_000_000);
    let p: i128 = position * UNIT / t;
    proof {
        vstd::arithmetic::div_mod::lemma_div_pos_is_pos(position * UNIT, t as int);
    }
    if p > UNIT {
        UNIT
    } else {
        p
    }
}

/// A render that was asked for: its output and its profile.
#[derive(Debug)]
pub struct Job {
    pub out: String,
    pub profile: String,
}

#[verifier::ext_equal]
pub struct JobView {
    pub out: Seq<char>,
    pub profile: Seq<char>,
}

impl View for Job {
    type V = JobView;

    open spec fn view(&self) -> JobView {
        JobView { out: self.out@, profile: self.profile@ }
    }
}

/// The renders: whether one is running, and those that wait.
#[derive(Debug)]
pub struct ExportQueue {
    pub running: bool,
    pub waiting: VecDeque<Job>,
}

#[verifier::ext_equal]
pub struct QueueView {
    pub running: bool,
    pub waiting: Seq<JobView>,
}

impl View for ExportQueue {
    type V = QueueView;

    open spec fn view(&self) -> QueueView {
        QueueView { running: self.running, waiting: views(self.waiting@) }
    }
}

impl QueueView {
    /// Renders wait only while one is running.
    pub open spec fn consistent(self) -> bool {
        self.waiting.len() > 0 ==> self.running
    }
}

/// What becomes of a render that is asked for.
#[derive(Debug)]
pub enum Asked {
    /// It starts now.
    Start(Job),
    /// It waits; so many are waiting.
    Queued(usize),
}

impl ExportQueue {
    /// No render runs and none waits.
    pub fn new() -> (r: Self)
        ensures
            r@ == (QueueView { running: false, waiting: Seq::empty() }),
            r@.consistent(),
    {
        let q: ExportQueue = ExportQueue { running: false, waiting: VecDeque::new() };
        assert(q@.waiting =~= Seq::empty());
        q
    }

    /// Ask for a render: it starts if none is running, else it waits behind
    /// those that wait already.
    pub fn ask(&mut self, job: Job) -> (r: Asked)
        ensures
            final(self)@ == asked(old(self)@, job@),
            match r {
                Asked::Start(j) => !old(self)@.running && j@ == job@,
                Asked::Queued(n) => old(self)@.running && n == final(self)@.waiting.len(),
            },
            old(self)@.consistent() ==> final(self)@.consistent(),
    {
        if self.running {
            self.waiting.push_back(job);
            Asked::Queued(self.waiting.len())
        } else {
            self.running = true;
            Asked::Start(job)
        }
    }

    /// The running render has ended, well or badly: the one that waits
    /// longest starts.
    pub fn finished(&mut self) -> (r: Option<Job>)
        ensures
            final(self)@ == ended(old(self)@),
            match r {
                Some(j) => old(self)@.waiting.len() > 0 && j@ == old(self)@.waiting[0],
                None => old(self)@.waiting.len() == 0,
            },
            final(self)@.consistent(),
    {
        let ghost before = self@;
        match self.waiting.pop_front() {
            None => {
                self.running = false;
                assert(self@.waiting =~= Seq::empty());
                None
            },
            Some(job) => {
                self.running = true;
                assert(self@.waiting =~= before.waiting.skip(1));
                Some(job)
            },
        }
    }
}

/// The queue after a render has been asked for.
pub open spec fn asked(q: QueueView, job: JobView) -> QueueView {
    if q.running {
        QueueView { waiting: q.waiting.push(job), ..q }
    } else {
        QueueView { running: true, ..q }
    }
}

/// The queue after the running render has ended.
pub open spec fn ended(q: QueueView) -> QueueView {
    if q.waiting.len() == 0 {
        QueueView { running: false, waiting: Seq::empty() }
    } else {
        QueueView { running: true, waiting: q.waiting.skip(1) }
    }
}

/// The renders that start as a busy queue is worked off, `n` of them.
pub open spec fn started(q: QueueView, n: nat) -> Seq<JobView>
    decreases n,
{
    if n == 0 || q.waiting.len() == 0 {
        Seq::empty()
    } else {
        seq![q.waiting[0]] + started(ended(q), (n - 1) as nat)
    }
}

/// Renders start in the order in which they were asked for, and none is lost.
pub proof fn law_queue_in_order(q: QueueView)
    ensures
        started(q, q.waiting.len()) == q.waiting,
    decreases q.waiting.len(),
{
    if q.waiting.len() > 0 {
        law_queue_in_order(ended(q));
        assert(seq![q.waiting[0]] + q.waiting.skip(1) =~= q.waiting);
    } else {
        assert(q.waiting =~= Seq::empty());
    }
}

/// The share of a render that is done is that of the position in the total,
/// cut off to billionths; it never leaves the range from nothing to all.
pub proof fn law_progress_share(position: int, total: int)
    requires
        position >= 0,
    ensures
        0 <= progress_of(position, total) <= 1_000_000_000,
        total >= 1_000_000 && position <= total ==> progress_of(position, total) * total
            <= position * 1_000_000_000 < (progress_of(position, total) + 1) * total,
        total >= 1_000_000 && position >= total ==> progress_of(position, total) == 1_000_000_000,
{
    let m = position * UNIT;
    let t = max(total, 1_000_000);
    let q = m / t;
    vstd::arithmetic::div_mod::lemma_fundamental_div_mod(m, t);
    vstd::arithmetic::div_mod::lemma_mod_bound(m, t);
    vstd::arithmetic::div_mod::lemma_div_pos_is_pos(m, t);
    assert(q * t == t * q && (q + 1) * t == t * q + t) by (nonlinear_arith);
    if total >= 1_000_000 && position <= total {
        assert(q <= 1_000_000_000) by (nonlinear_arith)
            requires
                t * q <= m,
                m == position * 1_000_000_000,
                position <= t,
                t > 0,
        ;
    }
    if total >= 1_000_000 && position >= total {
        assert(q >= 1_000_000_000) by (nonlinear_arith)
            requires
                m < t * q + t,
                m == position * 1_000_000_000,
                position >= t,
                t > 0,
        ;
    }
}

proof fn lemma_last_dot(s: Seq<char>, n: int)
    requires
        0 <= n <= s.len(),
    ensures
        -1 <= last_dot(s, n) < n,
        last_dot(s, n) >= 0 ==> s[last_dot(s, n)] == '.',
        forall|i: int| last_dot(s, n) < i < n ==> #[trigger] s[i] != '.',
    decreases n,
{
    if n > 0 && s[n - 1] != '.' {
        lemma_last_dot(s, n - 1);
    }
}

/// Another extension takes the place of what follows the last dot; a name
/// without a dot is left alone.
pub proof fn law_with_extension(stem: Seq<char>, old_one: Seq<char>, extension: Seq<char>)
    requires
        !old_one.contains('.'),
    ensures
        with_extension(stem + seq!['.'] + old_one, extension) == stem + seq!['.'] + extension,
        with_extension(old_one, extension) == old_one,
{
    reveal_strlit(".");
    let name = stem + seq!['.'] + old_one;
    let n = name.len() as int;
    let k = stem.len() as int;
    lemma_last_dot(name, n);
    let d = last_dot(name, n);
    assert(name[k] == '.');
    if d > k {
        assert(old_one[d - k - 1] == '.');
    }
    assert(d == k);
    assert(name.take(d) =~= stem);
    assert("."@ =~= seq!['.']);
    lemma_last_dot(old_one, old_one.len() as int);
}

/// A file is rendered next to its place: under its own name with `.part`
/// behind it, and with `.out.part` if it has no extension.
pub proof fn law_part_name(stem: Seq<char>, extension: Seq<char>)
    requires
        !extension.contains('.'),
    ensures
        stem.len() > 0 ==> part_name(stem + seq!['.'] + extension) == stem + seq!['.'] + extension
            + ".part"@,
        part_name(extension) == extension + ".out.part"@,
        part_name(seq!['.'] + extension) == seq!['.'] + extension + ".out.part"@,
{
    let name = stem + seq!['.'] + extension;
    lemma_last_dot(name, name.len() as int);
    assert(name[stem.len() as int] == '.');
    lemma_last_dot(extension, extension.len() as int);
    let hidden = seq!['.'] + extension;
    lemma_last_dot(hidden, hidden.len() as int);
    let d = last_dot(hidden, hidden.len() as int);
    if d > 0 {
        assert(extension[d - 1] == '.');
    }
}

/// An absolute name stands for itself; any other is put behind its directory
/// with one separator between them.
pub proof fn law_path_in(dir: Seq<char>, name: Seq<char>)
    ensures
        path_in(dir, seq!['/'] + name) == seq!['/'] + name,
        dir.len() > 0 && dir.last() != '/' && (name.len() == 0 || name[0] != '/') ==> path_in(
            dir,
            name,
        ) == dir + seq!['/'] + name && path_in(dir + seq!['/'], name) == path_in(dir, name),
        name.len() == 0 || name[0] != '/' ==> path_in(Seq::empty(), name) == name,
{
    reveal_strlit("/");
    assert("/"@ =~= seq!['/']);
    assert(Seq::<char>::empty() + name =~= name);
}

} // verus!
