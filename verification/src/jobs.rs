//! Running a policy over a source: which operators it names, who acquires the source, what is
//! stored of the video, how stages are wired and driven, and what a job reports.

use vstd::prelude::*;

use crate::acquire::Source;
use crate::acquired::Acquired;
use crate::hashing::{self, hash_prefix};
use crate::info::SidecarChapter;
use crate::model::{Segment, SegmentLevel};
use crate::probe::{self, track_for, ChapterInfo, Probe, Track, TrackKind};
use crate::remote::{Http, ObjectStore, WebUrl};
use crate::scheduler::{judge_stage, IndexState, Plan, StageStatus, StageVerdict};
use crate::text::{self, decimal_string, join_strings, str_is};
use crate::timestamp::{self, Timestamp};
use crate::{acquire, remote};

verus! {

/// What a cached stage depends on, as one text.
pub open spec fn cache_text(
    content_hash: Seq<char>,
    id: Seq<char>,
    version: int,
    params: Seq<char>,
) -> Seq<char> {
    content_hash + "|"@ + id + "|"@ + text::decimal(version as nat) + "|"@ + params
}

/// The key under which a stage's outputs are marked as cached: the operator's id and the start
/// of a hash of the content's hash, the operator's id and version, and its parameters.
pub fn cache_key(content_hash: &str, id: &str, version: u32, params: &str) -> (r: String)
    ensures
        r@ == id@ + "-"@ + hashing::blake3_hex(
            vstd::utf8::encode_utf8(cache_text(content_hash@, id@, version as int, params@)),
        ).take(24),
{
    let mut t = content_hash.to_owned();
    t.append("|");
    t.append(id);
    t.append("|");
    t.append(decimal_string(version as u64).as_str());
    t.append("|");
    t.append(params);
    let h = hash_prefix(t.as_str(), 24);
    let mut r = id.to_owned();
    r.append("-");
    r.append(h.as_str());
    r
}

/// Operators that can be built.
pub open spec fn available_names() -> Seq<Seq<char>> {
    seq![
        "subtitle_import"@,
        "sample"@,
        "phash"@,
        "thumbnail"@,
        "vad"@,
        "asr"@,
        "shot_boundary"@,
        "image_embed"@,
        "text_embed"@,
    ]
}

/// Operators that are named but cannot be built yet.
pub open spec fn planned_names() -> Seq<Seq<char>> {
    seq!["ocr"@, "scenes"@, "chapters"@, "vlm_describe"@, "entities_events"@]
}

/// The operators that can be built.
pub fn available() -> (r: Vec<String>)
    ensures
        text::strings_of(r@) == available_names(),
{
    let mut v: Vec<String> = Vec::new();
    v.push("subtitle_import".to_owned());
    v.push("sample".to_owned());
    v.push("phash".to_owned());
    v.push("thumbnail".to_owned());
    v.push("vad".to_owned());
    v.push("asr".to_owned());
    v.push("shot_boundary".to_owned());
    v.push("image_embed".to_owned());
    v.push("text_embed".to_owned());
    proof {
        assert(text::strings_of(v@) =~= available_names());
    }
    v
}

/// The operators that are named but cannot be built yet.
pub fn planned() -> (r: Vec<String>)
    ensures
        text::strings_of(r@) == planned_names(),
{
    let mut v: Vec<String> = Vec::new();
    v.push("ocr".to_owned());
    v.push("scenes".to_owned());
    v.push("chapters".to_owned());
    v.push("vlm_describe".to_owned());
    v.push("entities_events".to_owned());
    proof {
        assert(text::strings_of(v@) =~= planned_names());
    }
    v
}

/// Why a policy cannot be run.
#[derive(Debug)]
pub enum PlanError {
    /// It names what is not there yet.
    Unsupported(String),
    /// It makes no sense.
    Invalid(String),
    /// It needs a provider.
    Provider(String),
}

/// Whether an operator can be built: a shipped one or one of the caller's.
pub open spec fn buildable(name: Seq<char>, custom: Seq<Seq<char>>) -> bool {
    custom.contains(name) || available_names().contains(name)
}

/// The refusal of an operator that cannot be built.
pub open spec fn refuses(
    e: PlanError,
    name: Seq<char>,
    policy: Seq<char>,
    custom: Seq<Seq<char>>,
) -> bool {
    if planned_names().contains(name) {
        e matches PlanError::Unsupported(m) && m@ == "operator '"@ + name + "' in policy '"@ + policy
            + "' is not implemented yet; available: "@ + text::joined(available_names(), ", "@)
    } else {
        e matches PlanError::Invalid(m) && m@ == "unknown operator '"@ + name + "' in policy '"@
            + policy + "'; available: "@ + text::joined(available_names() + custom, ", "@)
    }
}

fn has_name(v: &Vec<String>, name: &str) -> (b: bool)
    ensures
        b == text::strings_of(v@).contains(name@),
{
    let ghost all = text::strings_of(v@);
    let mut i: usize = 0;
    while i < v.len()
        invariant
            i <= v@.len(),
            all == text::strings_of(v@),
            forall|k: int| 0 <= k < i ==> #[trigger] all[k] != name@,
        decreases v@.len() - i,
    {
        proof {
            assert(all[i as int] == v@[i as int]@);
        }
        if str_is(v[i].as_str(), name) {
            return true;
        }
        i = i + 1;
    }
    false
}

/// Checks the operators that a policy names, in order; `custom` are those of the caller.
pub fn check_operators(policy: &str, names: &Vec<String>, custom: &Vec<String>) -> (r: Result<
    (),
    PlanError,
>)
    ensures
        r is Ok <==> names@.len() > 0 && forall|i: int|
            0 <= i < names@.len() ==> buildable(
                #[trigger] names@[i]@,
                text::strings_of(custom@),
            ),
        r matches Err(e) ==> ({
            ||| names@.len() == 0 && (e matches PlanError::Invalid(m) && m@ == "policy '"@ + policy@
                + "' has no operators"@)
            ||| exists|i: int|
                0 <= i < names@.len() && !buildable(
                    #[trigger] names@[i]@,
                    text::strings_of(custom@),
                ) && (forall|k: int|
                    0 <= k < i ==> buildable(#[trigger] names@[k]@, text::strings_of(custom@)))
                    && refuses(e, names@[i]@, policy@, text::strings_of(custom@))
        }),
{
    let known = available();
    let later = planned();
    let mut i: usize = 0;
    while i < names.len()
        invariant
            i <= names@.len(),
            text::strings_of(known@) == available_names(),
            text::strings_of(later@) == planned_names(),
            forall|k: int|
                0 <= k < i ==> buildable(#[trigger] names@[k]@, text::strings_of(custom@)),
        decreases names@.len() - i,
    {
        let name = names[i].as_str();
        if !has_name(custom, name) && !has_name(&known, name) {
            let mut m: String;
            let e = if has_name(&later, name) {
                m = "operator '".to_owned();
                m.append(name);
                m.append("' in policy '");
                m.append(policy);
                m.append("' is not implemented yet; available: ");
                m.append(join_strings(&known, ", ").as_str());
                PlanError::Unsupported(m)
            } else {
                let mut all: Vec<String> = known;
                let mut k: usize = 0;
                proof {
                    assert(text::strings_of(custom@).take(0) =~= Seq::<Seq<char>>::empty());
                    assert(text::strings_of(all@) =~= available_names() + text::strings_of(
                        custom@,
                    ).take(0));
                }
                while k < custom.len()
                    invariant
                        k <= custom@.len(),
                        text::strings_of(all@) == available_names() + text::strings_of(
                            custom@,
                        ).take(k as int),
                    decreases custom@.len() - k,
                {
                    let ghost had = text::strings_of(all@);
                    all.push(custom[k].as_str().to_owned());
                    proof {
                        let cs = text::strings_of(custom@);
                        assert(cs[k as int] == custom@[k as int]@);
                        assert(cs.take(k + 1) =~= cs.take(k as int).push(cs[k as int]));
                        assert(text::strings_of(all@) =~= had.push(cs[k as int]));
                    }
                    k = k + 1;
                }
                proof {
                    let cs = text::strings_of(custom@);
                    assert(cs.take(custom@.len() as int) =~= cs);
                }
                m = "unknown operator '".to_owned();
                m.append(name);
                m.append("' in policy '");
                m.append(policy);
                m.append("'; available: ");
                m.append(join_strings(&all, ", ").as_str());
                PlanError::Invalid(m)
            };
            proof {
                assert(!buildable(names@[i as int]@, text::strings_of(custom@)));
                assert(refuses(e, names@[i as int]@, policy@, text::strings_of(custom@)));
            }
            return Err(e);
        }
        i = i + 1;
    }
    if names.len() == 0 {
        let mut m = "policy '".to_owned();
        m.append(policy);
        m.append("' has no operators");
        return Err(PlanError::Invalid(m));
    }
    Ok(())
}

/// What an operator needs: its id and the roles of the providers it calls.
#[derive(Debug)]
pub struct RoleNeed {
    /// Operator.
    pub id: String,
    /// Roles.
    pub roles: Vec<String>,
}

/// All roles of an operator are filled.
pub open spec fn served(need: RoleNeed, have: Seq<Seq<char>>) -> bool {
    forall|j: int| 0 <= j < need.roles@.len() ==> have.contains(#[trigger] need.roles@[j]@)
}

/// The message for a role that no provider fills.
pub open spec fn unserved(id: Seq<char>, policy: Seq<char>, role: Seq<char>) -> Seq<char> {
    "operator '"@ + id + "' in policy '"@ + policy + "' needs a provider for role '"@ + role
        + "'; add `[roles] "@ + role
        + " = { provider = \"...\" }` to the config (see config/gcp-a100.toml)"@
}

/// Checks that each operator's roles are filled, in order.
pub fn check_roles(policy: &str, needs: &Vec<RoleNeed>, have: &Vec<String>) -> (r: Result<
    (),
    PlanError,
>)
    ensures
        r is Ok <==> forall|i: int|
            0 <= i < needs@.len() ==> served(#[trigger] needs@[i], text::strings_of(have@)),
        r matches Err(e) ==> exists|i: int, j: int|
            0 <= i < needs@.len() && 0 <= j < needs@[i].roles@.len() && !text::strings_of(
                have@,
            ).contains((#[trigger] needs@[i].roles@[j])@) && (forall|k: int|
                0 <= k < i ==> served(#[trigger] needs@[k], text::strings_of(have@))) && (
            forall|k: int|
                0 <= k < j ==> text::strings_of(have@).contains(
                    (#[trigger] needs@[i].roles@[k])@,
                )) && (e matches PlanError::Provider(m) && m@ == unserved(
                needs@[i].id@,
                policy@,
                needs@[i].roles@[j]@,
            )),
{
    let mut i: usize = 0;
    while i < needs.len()
        invariant
            i <= needs@.len(),
            forall|k: int|
                0 <= k < i ==> served(#[trigger] needs@[k], text::strings_of(have@)),
        decreases needs@.len() - i,
    {
        let need = &needs[i];
        let mut j: usize = 0;
        while j < need.roles.len()
            invariant
                i < needs@.len(),
                *need == needs@[i as int],
                j <= need.roles@.len(),
                forall|k: int|
                    0 <= k < i ==> served(#[trigger] needs@[k], text::strings_of(have@)),
                forall|k: int|
                    0 <= k < j ==> text::strings_of(have@).contains(
                        (#[trigger] needs@[i as int].roles@[k])@,
                    ),
            decreases need.roles@.len() - j,
        {
            let role = need.roles[j].as_str();
            if !has_name(have, role) {
                let mut m = "operator '".to_owned();
                m.append(need.id.as_str());
                m.append("' in policy '");
                m.append(policy);
                m.append("' needs a provider for role '");
                m.append(role);
                m.append("'; add `[roles] ");
                m.append(role);
                m.append(" = { provider = \"...\" }` to the config (see config/gcp-a100.toml)");
                proof {
                    assert(!text::strings_of(have@).contains(
                        needs@[i as int].roles@[j as int]@,
                    ));
                    assert(!served(needs@[i as int], text::strings_of(have@)));
                }
                return Err(PlanError::Provider(m));
            }
            j = j + 1;
        }
        i = i + 1;
    }
    Ok(())
}

/// The name of the policy that is run: an inline policy without a name is called `inline`.
pub fn policy_name(named: Option<String>, inline: bool, default: String) -> (r: String)
    ensures
        r@ == (match named {
            Some(n) => n@,
            None => if inline {
                "inline"@
            } else {
                default@
            },
        }),
{
    match named {
        Some(n) => n,
        None => {
            if inline {
                "inline".to_owned()
            } else {
                default
            }
        },
    }
}

/// Who acquires a source.
#[derive(Clone, Copy, Debug, PartialEq, Eq, Structural)]
pub enum AcquirerKind {
    /// Files on disk.
    Local,
    /// Video sites.
    YtDlp,
    /// Media files on the web.
    Http,
    /// Objects in a store.
    ObjectStore,
}

/// Who acquires a source, given what its URL parses to: files first, then video sites, media
/// files on the web, and object stores.
pub open spec fn acquirer_of(
    s: acquire::SourceView,
    parsed: Result<
        (Seq<char>, Seq<char>, Option<Seq<char>>, Option<u16>, Seq<char>),
        Seq<char>,
    >,
) -> Option<AcquirerKind> {
    match s {
        acquire::SourceView::Path(_) => Some(AcquirerKind::Local),
        acquire::SourceView::Url(u) => if acquire::video_site_url(u) {
            Some(AcquirerKind::YtDlp)
        } else if remote::http_handles(u, parsed) {
            Some(AcquirerKind::Http)
        } else if remote::store_scheme(text::ascii_lower(u)) {
            Some(AcquirerKind::ObjectStore)
        } else {
            None
        },
    }
}

/// The message for a source that nobody acquires.
pub open spec fn no_acquirer(uri: Seq<char>) -> Seq<char> {
    "no acquirer for "@ + uri
        + "; local files and directories, video-site URLs (yt-dlp), https://…/file.mp4, and s3:// gs:// az:// r2:// objects are supported"@
}

/// The outcome of the search for an acquirer.
pub open spec fn finds_acquirer(
    r: Result<AcquirerKind, PlanError>,
    k: Option<AcquirerKind>,
    uri: Seq<char>,
) -> bool {
    match k {
        Some(k) => r == Ok::<AcquirerKind, PlanError>(k),
        None => r matches Err(PlanError::Unsupported(m)) && m@ == no_acquirer(uri),
    }
}

/// Who acquires a source whose URL parses to `parsed`. `uri` names the source in the error.
pub fn choose_acquirer(
    source: &Source,
    parsed: &Result<WebUrl, String>,
    http: &Http,
    store: &ObjectStore,
    uri: &str,
) -> (r: Result<AcquirerKind, PlanError>)
    ensures
        finds_acquirer(
            r,
            acquirer_of(
                source@,
                match *parsed {
                    Ok(w) => Ok(w.parts()),
                    Err(e) => Err(e@),
                },
            ),
            uri@,
        ),
{
    match source {
        Source::Path(_) => {
            return Ok(AcquirerKind::Local);
        },
        Source::Url(_) => {},
    }
    if source.is_video_site() {
        return Ok(AcquirerKind::YtDlp);
    }
    if http.handles_parsed(source, parsed) {
        return Ok(AcquirerKind::Http);
    }
    if store.handles(source) {
        return Ok(AcquirerKind::ObjectStore);
    }
    let mut m = "no acquirer for ".to_owned();
    m.append(uri);
    m.append(
        "; local files and directories, video-site URLs (yt-dlp), https://…/file.mp4, and s3:// gs:// az:// r2:// objects are supported",
    );
    Err(PlanError::Unsupported(m))
}

/// Who acquires a source. `uri` names the source in the error.
pub fn acquirer_for(source: &Source, http: &Http, store: &ObjectStore, uri: &str) -> (r: Result<
    AcquirerKind,
    PlanError,
>)
    ensures
        match source@ {
            acquire::SourceView::Path(_) => r == Ok::<AcquirerKind, PlanError>(AcquirerKind::Local),
            acquire::SourceView::Url(u) => finds_acquirer(
                r,
                acquirer_of(source@, remote::url_parts(u)),
                uri@,
            ),
        },
{
    match source {
        Source::Path(_) => Ok(AcquirerKind::Local),
        Source::Url(u) => {
            let parsed = remote::parse_url(u.as_str());
            choose_acquirer(source, &parsed, http, store, uri)
        },
    }
}

/// A chapter that a video came with.
#[derive(Debug)]
pub struct GivenChapter {
    /// Start.
    pub t0: Timestamp,
    /// End.
    pub t1: Timestamp,
    /// Title.
    pub title: Option<String>,
}

/// A given chapter says what a chapter of the metadata says.
pub open spec fn from_sidecar(g: GivenChapter, c: SidecarChapter) -> bool {
    g.t0 == c.t0 && g.t1 == c.t1 && text::opt_text(g.title) == text::opt_text(c.title)
}

/// A given chapter says what a chapter of the container says.
pub open spec fn from_container(g: GivenChapter, c: ChapterInfo) -> bool {
    g.t0 == c.t0 && g.t1 == c.t1 && text::opt_text(g.title) == text::opt_text(c.title)
}

fn copy_title(s: &Option<String>) -> (r: Option<String>)
    ensures
        text::opt_text(r) == text::opt_text(*s),
{
    match s {
        Some(t) => Some(t.as_str().to_owned()),
        None => None,
    }
}

/// The chapters that a video came with: those of its metadata, or else those of its container.
pub fn given_chapters(metadata: &Vec<SidecarChapter>, container: &Vec<ChapterInfo>) -> (r: Vec<
    GivenChapter,
>)
    ensures
        metadata@.len() > 0 ==> r@.len() == metadata@.len() && forall|i: int|
            0 <= i < r@.len() ==> from_sidecar(#[trigger] r@[i], metadata@[i]),
        metadata@.len() == 0 ==> r@.len() == container@.len() && forall|i: int|
            0 <= i < r@.len() ==> from_container(#[trigger] r@[i], container@[i]),
{
    let mut out: Vec<GivenChapter> = Vec::new();
    let mut i: usize = 0;
    if metadata.len() > 0 {
        while i < metadata.len()
            invariant
                i <= metadata@.len(),
                out@.len() == i,
                forall|k: int| 0 <= k < i ==> from_sidecar(#[trigger] out@[k], metadata@[k]),
            decreases metadata@.len() - i,
        {
            let c = &metadata[i];
            out.push(GivenChapter { t0: c.t0, t1: c.t1, title: copy_title(&c.title) });
            i = i + 1;
        }
        return out;
    }
    while i < container.len()
        invariant
            i <= container@.len(),
            out@.len() == i,
            forall|k: int| 0 <= k < i ==> from_container(#[trigger] out@[k], container@[k]),
        decreases container@.len() - i,
    {
        let c = &container[i];
        out.push(GivenChapter { t0: c.t0, t1: c.t1, title: copy_title(&c.title) });
        i = i + 1;
    }
    out
}

/// The first `n` chapters that are not empty.
pub open spec fn solid_chapters(c: Seq<GivenChapter>, n: int) -> Seq<int>
    decreases n,
{
    if n <= 0 {
        Seq::empty()
    } else if timestamp::le_time(c[n - 1].t1, c[n - 1].t0) {
        solid_chapters(c, n - 1)
    } else {
        solid_chapters(c, n - 1).push(n - 1)
    }
}

/// The row of a given chapter.
pub open spec fn is_chapter_row(
    r: Segment,
    c: GivenChapter,
    video: u128,
    id: u128,
    prov: u128,
) -> bool {
    &&& r.id == id
    &&& r.video_id == video
    &&& r.level == SegmentLevel::Chapter
    &&& r.parent_id is None
    &&& r.t0 == c.t0
    &&& r.t1 == c.t1
    &&& r.keyframe_sample_id is None
    &&& text::opt_text(r.title) == text::opt_text(c.title)
    &&& r.summary is None
    &&& r.provenance_id == prov
}

/// The rows of the chapters that a video came with; empty ones are left out.
pub fn import_chapters(chapters: &Vec<GivenChapter>, video: u128, ids: &Vec<u128>, prov: u128) -> (r:
    Vec<Segment>)
    requires
        ids@.len() >= chapters@.len(),
    ensures
        ({
            let kept = solid_chapters(chapters@, chapters@.len() as int);
            &&& r@.len() == kept.len()
            &&& forall|k: int|
                0 <= k < r@.len() ==> is_chapter_row(
                    #[trigger] r@[k],
                    chapters@[kept[k]],
                    video,
                    ids@[kept[k]],
                    prov,
                )
        }),
{
    let mut out: Vec<Segment> = Vec::new();
    let mut i: usize = 0;
    while i < chapters.len()
        invariant
            i <= chapters@.len() <= ids@.len(),
            ({
                let kept = solid_chapters(chapters@, i as int);
                &&& out@.len() == kept.len()
                &&& forall|k: int|
                    0 <= k < out@.len() ==> is_chapter_row(
                        #[trigger] out@[k],
                        chapters@[kept[k]],
                        video,
                        ids@[kept[k]],
                        prov,
                    )
            }),
        decreases chapters@.len() - i,
    {
        let c = &chapters[i];
        if !c.t1.le(&c.t0) {
            let ghost before = solid_chapters(chapters@, i as int);
            let ghost had = out@;
            out.push(
                Segment {
                    id: ids[i],
                    video_id: video,
                    level: SegmentLevel::Chapter,
                    parent_id: None,
                    t0: c.t0,
                    t1: c.t1,
                    keyframe_sample_id: None,
                    title: copy_title(&c.title),
                    summary: None,
                    provenance_id: prov,
                },
            );
            proof {
                let now = solid_chapters(chapters@, i + 1);
                assert(now == before.push(i as int));
                assert forall|k: int| 0 <= k < out@.len() implies is_chapter_row(
                    #[trigger] out@[k],
                    chapters@[now[k]],
                    video,
                    ids@[now[k]],
                    prov,
                ) by {
                    if k < had.len() {
                        assert(out@[k] == had[k]);
                    }
                }
            }
        }
        i = i + 1;
    }
    out
}

/// What is stored of a video.
#[derive(Debug)]
pub struct Video {
    /// Id, the same whenever the same content is indexed.
    pub id: u128,
    /// Where it came from.
    pub source_uri: String,
    /// Hash of the content.
    pub content_hash: String,
    /// Title.
    pub title: Option<String>,
    /// Description.
    pub description: Option<String>,
    /// Channel.
    pub channel: Option<String>,
    /// When it was published, in seconds since 1970.
    pub published_at: Option<i64>,
    /// Duration.
    pub duration: Timestamp,
    /// How far it is indexed.
    pub index_state: IndexState,
}

/// The newer of two texts, where there is one.
pub open spec fn newer(new: Option<Seq<char>>, old: Option<Seq<char>>) -> Option<Seq<char>> {
    if new is Some {
        new
    } else {
        old
    }
}

fn newer_of(new: &Option<String>, old: Option<String>) -> (r: Option<String>)
    ensures
        text::opt_text(r) == newer(text::opt_text(*new), text::opt_text(old)),
{
    match new {
        Some(t) => Some(t.as_str().to_owned()),
        None => old,
    }
}

impl Video {
    /// A video that was not indexed before. `container_title` is the title in the container.
    pub fn fresh(id: u128, a: &Acquired, duration: Timestamp, container_title: Option<String>) -> (v:
        Video)
        ensures
            v.id == id,
            v.source_uri@ == a.source_uri@,
            v.content_hash@ == a.content_hash@,
            text::opt_text(v.title) == newer(
                text::opt_text(a.title),
                text::opt_text(container_title),
            ),
            text::opt_text(v.description) == text::opt_text(a.description),
            text::opt_text(v.channel) == text::opt_text(a.channel),
            v.published_at == a.published_at,
            v.duration == duration,
            v.index_state == IndexState::Acquired,
    {
        Video {
            id,
            source_uri: a.source_uri.as_str().to_owned(),
            content_hash: a.content_hash.as_str().to_owned(),
            title: newer_of(&a.title, container_title),
            description: copy_title(&a.description),
            channel: copy_title(&a.channel),
            published_at: a.published_at,
            duration,
            index_state: IndexState::Acquired,
        }
    }

    /// A video that was indexed before, with what is new: its id, its hash and how far it is
    /// indexed stay, and nothing that was known is lost.
    pub fn refresh(self, a: &Acquired, duration: Timestamp, container_title: Option<String>) -> (v:
        Video)
        ensures
            v.id == self.id,
            v.content_hash == self.content_hash,
            v.index_state == self.index_state,
            v.source_uri@ == a.source_uri@,
            v.duration == duration,
            text::opt_text(v.title) == newer(
                text::opt_text(a.title),
                newer(text::opt_text(self.title), text::opt_text(container_title)),
            ),
            text::opt_text(v.description) == newer(
                text::opt_text(a.description),
                text::opt_text(self.description),
            ),
            text::opt_text(v.channel) == newer(
                text::opt_text(a.channel),
                text::opt_text(self.channel),
            ),
            v.published_at == (if a.published_at is Some {
                a.published_at
            } else {
                self.published_at
            }),
    {
        let known = match self.title {
            Some(t) => Some(t),
            None => container_title,
        };
        let published_at = match a.published_at {
            Some(p) => Some(p),
            None => self.published_at,
        };
        Video {
            id: self.id,
            source_uri: a.source_uri.as_str().to_owned(),
            content_hash: self.content_hash,
            title: newer_of(&a.title, known),
            description: newer_of(&a.description, self.description),
            channel: newer_of(&a.channel, self.channel),
            published_at,
            duration,
            index_state: self.index_state,
        }
    }
}

/// The acquired and probed media: what every job starts from.
#[derive(Debug)]
pub struct MediaItem {
    /// What was acquired.
    pub acquired: Acquired,
    /// What probing found.
    pub probe: Probe,
    /// Row of the video.
    pub video: Video,
    /// Rows of its tracks.
    pub tracks: Vec<Track>,
    /// How many samples to expect.
    pub expected_samples: u64,
}

impl MediaItem {
    /// The video track to sample.
    pub fn video_track(&self) -> (r: Option<&Track>)
        ensures
            match r {
                Some(t) => exists|b: int, i: int| #[trigger]
                    probe::chosen_track(
                        self.probe.streams@,
                        self.tracks@,
                        TrackKind::Video,
                        b,
                        i,
                    ) && *t == self.tracks@[i],
                None => probe::no_track(self.probe.streams@, self.tracks@, TrackKind::Video),
            },
    {
        track_for(&self.probe, &self.tracks, TrackKind::Video)
    }

    /// The audio track to transcribe.
    pub fn audio_track(&self) -> (r: Option<&Track>)
        ensures
            match r {
                Some(t) => exists|b: int, i: int| #[trigger]
                    probe::chosen_track(
                        self.probe.streams@,
                        self.tracks@,
                        TrackKind::Audio,
                        b,
                        i,
                    ) && *t == self.tracks@[i],
                None => probe::no_track(self.probe.streams@, self.tracks@, TrackKind::Audio),
            },
    {
        track_for(&self.probe, &self.tracks, TrackKind::Audio)
    }
}

/// How many samples a video gives at a rate in thousandths per second: each part of a sample
/// counts as one.
pub open spec fn samples_of(duration: Timestamp, fps_milli: int) -> int {
    (duration.num * fps_milli + duration.den * 1000 - 1) / (duration.den * 1000)
}

/// How many samples a video gives.
pub fn expected_samples(duration: Timestamp, fps_milli: u32) -> (n: u64)
    requires
        duration.num >= 0,
        duration.den > 0,
    ensures
        n == (if samples_of(duration, fps_milli as int) <= u64::MAX {
            samples_of(duration, fps_milli as int)
        } else {
            u64::MAX as int
        }),
{
    let a: u128 = duration.num as u128;
    let f: u128 = fps_milli as u128;
    let d: u128 = duration.den as u128 * 1000;
    proof {
        assert(0 <= a * f <= 0x8000_0000_0000_0000 * 0xffff_ffff) by (nonlinear_arith)
            requires
                0 <= a <= 0x8000_0000_0000_0000,
                0 <= f <= 0xffff_ffff,
        ;
        let (n, e) = (a * f + d - 1, d as int);
        assert(0 <= n / e) by (nonlinear_arith)
            requires
                0 <= n,
                0 < e,
        ;
    }
    let n: u128 = (a * f + d - 1) / d;
    if n <= 0xffff_ffff_ffff_ffff {
        n as u64
    } else {
        0xffff_ffff_ffff_ffff
    }
}

/// The consumers, of the first `n`, that take part in the job.
pub open spec fn live_consumers(c: Seq<usize>, plan: Seq<Plan>, n: int) -> Seq<usize>
    decreases n,
{
    if n <= 0 {
        Seq::empty()
    } else if plan[c[n - 1] as int] == Plan::Skip {
        live_consumers(c, plan, n - 1)
    } else {
        live_consumers(c, plan, n - 1).push(c[n - 1])
    }
}

/// Whom each stage sends its items to: its consumers but those that are skipped.
pub fn wire(consumers: &Vec<Vec<usize>>, plan: &Vec<Plan>) -> (r: Vec<Vec<usize>>)
    requires
        forall|i: int, k: int|
            0 <= i < consumers@.len() && 0 <= k < consumers@[i]@.len() ==> (
            #[trigger] consumers@[i]@[k]) < plan@.len(),
    ensures
        r@.len() == consumers@.len(),
        forall|i: int|
            0 <= i < r@.len() ==> (#[trigger] r@[i])@ == live_consumers(
                consumers@[i]@,
                plan@,
                consumers@[i]@.len() as int,
            ),
{
    let mut out: Vec<Vec<usize>> = Vec::new();
    let mut i: usize = 0;
    while i < consumers.len()
        invariant
            i <= consumers@.len(),
            forall|i: int, k: int|
                0 <= i < consumers@.len() && 0 <= k < consumers@[i]@.len() ==> (
                #[trigger] consumers@[i]@[k]) < plan@.len(),
            out@.len() == i,
            forall|j: int|
                0 <= j < i ==> (#[trigger] out@[j])@ == live_consumers(
                    consumers@[j]@,
                    plan@,
                    consumers@[j]@.len() as int,
                ),
        decreases consumers@.len() - i,
    {
        let c = &consumers[i];
        let mut row: Vec<usize> = Vec::new();
        let mut k: usize = 0;
        while k < c.len()
            invariant
                k <= c@.len(),
                forall|k: int| 0 <= k < c@.len() ==> (#[trigger] c@[k]) < plan@.len(),
                row@ == live_consumers(c@, plan@, k as int),
            decreases c@.len() - k,
        {
            if plan[c[k]] != Plan::Skip {
                row.push(c[k]);
            }
            k = k + 1;
        }
        out.push(row);
        i = i + 1;
    }
    out
}

/// Whether stage `i` is sent the media item at the start: a root that is not skipped, or a stage
/// that replays and so must know the video.
pub open spec fn seeded(plan: Seq<Plan>, roots: Seq<usize>, i: int) -> bool {
    (plan[i] != Plan::Skip && roots.contains(i as usize)) || plan[i] == Plan::Replay
}

fn is_root(roots: &Vec<usize>, i: usize) -> (b: bool)
    ensures
        b == roots@.contains(i),
{
    let mut k: usize = 0;
    while k < roots.len()
        invariant
            k <= roots@.len(),
            forall|j: int| 0 <= j < k ==> #[trigger] roots@[j] != i,
        decreases roots@.len() - k,
    {
        if roots[k] == i {
            return true;
        }
        k = k + 1;
    }
    false
}

/// For each stage, whether it is sent the media item at the start.
pub fn seed(plan: &Vec<Plan>, roots: &Vec<usize>) -> (r: Vec<bool>)
    ensures
        r@.len() == plan@.len(),
        forall|i: int| 0 <= i < r@.len() ==> #[trigger] r@[i] == seeded(plan@, roots@, i),
{
    let mut out: Vec<bool> = Vec::new();
    let mut i: usize = 0;
    while i < plan.len()
        invariant
            i <= plan@.len(),
            out@.len() == i,
            forall|k: int| 0 <= k < i ==> #[trigger] out@[k] == seeded(plan@, roots@, k),
        decreases plan@.len() - i,
    {
        let p = plan[i];
        out.push((p != Plan::Skip && is_root(roots, i)) || p == Plan::Replay);
        i = i + 1;
    }
    out
}

/// Counts that an operator reports.
#[derive(Clone, Copy, Debug, PartialEq, Eq, Structural)]
pub struct OpOutput {
    /// Items emitted downstream.
    pub emitted: u64,
    /// Rows stored.
    pub stored: u64,
}

impl Default for OpOutput {
    fn default() -> (o: OpOutput)
        ensures
            o == (OpOutput { emitted: 0, stored: 0 }),
    {
        OpOutput { emitted: 0, stored: 0 }
    }
}

/// What to do with an item that reaches a stage.
#[derive(Clone, Copy, Debug, PartialEq, Eq, Structural)]
pub enum StageAction {
    /// Hand it to the operator.
    Run,
    /// Hand it to the operator, then let it replay what it stored.
    RunAndReplay,
    /// Pass over it.
    Ignore,
}

/// A stage at work.
#[derive(Clone, Copy, Debug, PartialEq, Eq, Structural)]
pub struct StageRun {
    /// Whether the stage replays stored outputs.
    pub replay: bool,
    /// Whether a replaying stage has seen the media item.
    pub media_seen: bool,
    /// Totals.
    pub done: OpOutput,
}

impl StageRun {
    /// A stage that has done nothing.
    pub fn new(replay: bool) -> (s: StageRun)
        ensures
            s == (StageRun {
                replay,
                media_seen: false,
                done: OpOutput { emitted: 0, stored: 0 },
            }),
    {
        StageRun { replay, media_seen: false, done: OpOutput { emitted: 0, stored: 0 } }
    }

    /// What to do with the next item: a stage that replays takes the media item once and
    /// passes over everything else.
    pub fn item(&mut self, is_media: bool) -> (a: StageAction)
        ensures
            a == (if !old(self).replay {
                StageAction::Run
            } else if is_media && !old(self).media_seen {
                StageAction::RunAndReplay
            } else {
                StageAction::Ignore
            }),
            *final(self) == (StageRun {
                media_seen: old(self).media_seen || (old(self).replay && is_media),
                ..*old(self)
            }),
    {
        if !self.replay {
            return StageAction::Run;
        }
        if is_media && !self.media_seen {
            self.media_seen = true;
            return StageAction::RunAndReplay;
        }
        StageAction::Ignore
    }

    /// Adds what the operator reported for an item or at the end.
    pub fn ran(&mut self, out: OpOutput)
        requires
            old(self).done.emitted + out.emitted <= u64::MAX,
            old(self).done.stored + out.stored <= u64::MAX,
        ensures
            *final(self) == (StageRun {
                done: if old(self).replay {
                    old(self).done
                } else {
                    OpOutput {
                        emitted: (old(self).done.emitted + out.emitted) as u64,
                        stored: (old(self).done.stored + out.stored) as u64,
                    }
                },
                ..*old(self)
            }),
    {
        if !self.replay {
            self.done = OpOutput {
                emitted: self.done.emitted + out.emitted,
                stored: self.done.stored + out.stored,
            };
        }
    }

    /// Adds what a replay emitted; an error if the operator could not replay.
    pub fn replayed(&mut self, emitted: Option<u64>) -> (r: Result<(), String>)
        requires
            emitted matches Some(n) ==> old(self).done.emitted + n <= u64::MAX,
        ensures
            match emitted {
                Some(n) => r is Ok && *final(self) == (StageRun {
                    done: OpOutput {
                        emitted: (old(self).done.emitted + n) as u64,
                        stored: old(self).done.stored,
                    },
                    ..*old(self)
                }),
                None => *final(self) == *old(self) && (r matches Err(m) && m@
                    == "stage planned as replay but the operator cannot replay"@),
            },
    {
        match emitted {
            Some(n) => {
                self.done = OpOutput {
                    emitted: self.done.emitted + n,
                    stored: self.done.stored,
                };
                Ok(())
            },
            None => Err("stage planned as replay but the operator cannot replay".to_owned()),
        }
    }

    /// Whether the operator is asked to finish at the end.
    pub fn finishes(&self) -> (b: bool)
        ensures
            b == !self.replay,
    {
        !self.replay
    }
}

/// What the stages of a job have come to so far.
#[derive(Clone, Copy, Debug, PartialEq, Eq, Structural)]
pub struct JobTally {
    /// Whether no stage failed.
    pub ok: bool,
    /// Whether inputs failed in a stage that completed.
    pub partial: bool,
    /// How many samples were taken.
    pub samples: u64,
    /// How many inputs failed.
    pub failed: u64,
    /// How many inputs the budget left out.
    pub skipped: u64,
}

impl JobTally {
    /// No stage has ended yet.
    pub fn new() -> (t: JobTally)
        ensures
            t == (JobTally { ok: true, partial: false, samples: 0, failed: 0, skipped: 0 }),
    {
        JobTally { ok: true, partial: false, samples: 0, failed: 0, skipped: 0 }
    }

    /// A stage ended: with its counts, or with none when it broke off, and with the inputs that
    /// failed and that were left out. One that broke off has failed and is not cached.
    pub fn stage_ended(&mut self, stage: &str, done: Option<OpOutput>, failed: u64, skipped: u64) -> (v:
        StageVerdict)
        requires
            old(self).failed + failed <= u64::MAX,
            old(self).skipped + skipped <= u64::MAX,
        ensures
            v.ok == (match done {
                Some(d) => failed == 0 || d.emitted > 0 || d.stored > 0,
                None => false,
            }),
            v.status == (if v.ok {
                StageStatus::Complete
            } else {
                StageStatus::Failed
            }),
            v.partial == (v.ok && failed > 0),
            v.cache == (v.ok && failed == 0 && skipped == 0),
            *final(self) == (JobTally {
                ok: old(self).ok && v.ok,
                partial: old(self).partial || v.partial,
                samples: if stage@ == "sample"@ && done is Some {
                    done->0.emitted
                } else {
                    old(self).samples
                },
                failed: (old(self).failed + failed) as u64,
                skipped: (old(self).skipped + skipped) as u64,
            }),
    {
        let v: StageVerdict = match done {
            Some(d) => {
                if str_is(stage, "sample") {
                    self.samples = d.emitted;
                }
                judge_stage(d.emitted, d.stored, failed, skipped)
            },
            None => StageVerdict {
                status: StageStatus::Failed,
                ok: false,
                partial: false,
                cache: false,
            },
        };
        self.ok = self.ok && v.ok;
        self.partial = self.partial || v.partial;
        self.failed = self.failed + failed;
        self.skipped = self.skipped + skipped;
        v
    }
}

/// The error of a stage that went on past failures and got nothing done.
pub fn all_failed(first: Option<&str>) -> (r: Option<String>)
    ensures
        match first {
            Some(m) => r matches Some(t) && t@ == "every input failed; first: "@ + m@,
            None => r is None,
        },
{
    match first {
        Some(m) => {
            let mut t = "every input failed; first: ".to_owned();
            t.append(m);
            Some(t)
        },
        None => None,
    }
}

/// The line that sums up a job: stages, samples, seconds, the cost if there was any, and how
/// many inputs failed or were skipped. `elapsed` and `cost` are numbers as text.
pub open spec fn summary_text(
    stages: nat,
    samples: nat,
    elapsed: Seq<char>,
    cost: Option<Seq<char>>,
    failed: nat,
    skipped: nat,
) -> Seq<char> {
    text::decimal(stages) + " stages, "@ + text::decimal(samples) + " samples, "@ + elapsed + "s"@
        + (match cost {
        Some(c) => ", $"@ + c,
        None => ""@,
    }) + (if failed > 0 {
        ", "@ + text::decimal(failed) + " inputs failed"@
    } else {
        ""@
    }) + (if skipped > 0 {
        ", "@ + text::decimal(skipped) + " skipped (budget)"@
    } else {
        ""@
    })
}

/// Sums up a job.
pub fn summary(
    stages: u64,
    samples: u64,
    elapsed: &str,
    cost: Option<&str>,
    failed: u64,
    skipped: u64,
) -> (r: String)
    ensures
        r@ == summary_text(
            stages as nat,
            samples as nat,
            elapsed@,
            match cost {
                Some(c) => Some(c@),
                None => None,
            },
            failed as nat,
            skipped as nat,
        ),
{
    let mut s = decimal_string(stages);
    s.append(" stages, ");
    s.append(decimal_string(samples).as_str());
    s.append(" samples, ");
    s.append(elapsed);
    s.append("s");
    let ghost base = s@;
    match cost {
        Some(c) => {
            let mut t = ", $".to_owned();
            t.append(c);
            s.append(t.as_str());
        },
        None => {
            s.append("");
        },
    }
    if failed > 0 {
        let mut t = ", ".to_owned();
        t.append(decimal_string(failed).as_str());
        t.append(" inputs failed");
        s.append(t.as_str());
    } else {
        s.append("");
    }
    if skipped > 0 {
        let mut t = ", ".to_owned();
        t.append(decimal_string(skipped).as_str());
        t.append(" skipped (budget)");
        s.append(t.as_str());
    } else {
        s.append("");
    }
    s
}

/// How far a stage is, as a fraction: nothing is known without a positive number of items to
/// expect, and it is never more than the whole.
pub fn progress(items_done: u64, expected: Option<u64>) -> (r: (u64, u64))
    ensures
        r == (match expected {
            Some(total) => if total == 0 {
                (0u64, 1u64)
            } else if items_done < total {
                (items_done, total)
            } else {
                (total, total)
            },
            None => (0u64, 1u64),
        }),
{
    match expected {
        Some(total) => if total == 0 {
            (0, 1)
        } else if items_done < total {
            (items_done, total)
        } else {
            (total, total)
        },
        None => (0, 1),
    }
}

/// The chapters that are imported are those that last, each once and in their order.
pub proof fn law_lasting_chapters_are_kept(c: Seq<GivenChapter>, n: int)
    requires
        0 <= n <= c.len(),
    ensures
        forall|k: int|
            #[trigger] solid_chapters(c, n).contains(k) <==> 0 <= k < n && c[k].t1.num * c[k].t0.den
                > c[k].t0.num * c[k].t1.den,
        forall|a: int, b: int|
            0 <= a < b < solid_chapters(c, n).len() ==> solid_chapters(c, n)[a] < solid_chapters(
                c,
                n,
            )[b],
    decreases n,
{
    if n > 0 {
        law_lasting_chapters_are_kept(c, n - 1);
        let (s, t) = (solid_chapters(c, n - 1), solid_chapters(c, n));
        if !timestamp::le_time(c[n - 1].t1, c[n - 1].t0) {
            assert forall|k: int| #[trigger] t.contains(k) <==> 0 <= k < n && c[k].t1.num
                * c[k].t0.den > c[k].t0.num * c[k].t1.den by {
                if t.contains(k) {
                    let i = choose|i: int| 0 <= i < t.len() && t[i] == k;
                    assert(i < s.len() ==> s[i] == k);
                    assert(s.contains(k) || k == n - 1);
                }
                if k == n - 1 {
                    assert(t[s.len() as int] == k);
                } else if s.contains(k) {
                    let i = choose|i: int| 0 <= i < s.len() && s[i] == k;
                    assert(t[i] == k);
                }
            }
            assert forall|a: int, b: int| 0 <= a < b < t.len() implies t[a] < t[b] by {
                if b == s.len() {
                    assert(s.contains(s[a]));
                }
            }
        } else {
            assert forall|k: int| #[trigger] t.contains(k) <==> 0 <= k < n && c[k].t1.num
                * c[k].t0.den > c[k].t0.num * c[k].t1.den by {
                assert(s.contains(k) <==> 0 <= k < n - 1 && c[k].t1.num * c[k].t0.den > c[k].t0.num
                    * c[k].t1.den);
            }
        }
    }
}

/// As many samples are expected as begin before the end: one less would end too soon, and the
/// last begins before the end.
pub proof fn law_samples_fill_the_duration(duration: Timestamp, fps_milli: int)
    requires
        duration.wf(),
        duration.num >= 0,
        fps_milli >= 0,
    ensures
        ({
            let n = samples_of(duration, fps_milli);
            &&& (n - 1) * 1000 * duration.den < duration.num * fps_milli
            &&& duration.num * fps_milli <= n * 1000 * duration.den
        }),
{
    let (a, d) = (duration.num * fps_milli, duration.den * 1000);
    let x = a + d - 1;
    let n = x / d;
    assert(n * d <= x < n * d + d) by (nonlinear_arith)
        requires
            n == x / d,
            d > 0,
    ;
    assert((n - 1) * 1000 * duration.den == n * d - d && n * 1000 * duration.den == n * d)
        by (nonlinear_arith)
        requires
            d == duration.den * 1000,
    ;
}

/// A stage hands on to those of its consumers that are not skipped, one by one and in their order.
pub proof fn law_consumers_are_wired_one_by_one(c: Seq<usize>, plan: Seq<Plan>, one: usize, n: int)
    requires
        0 <= n <= c.len(),
    ensures
        live_consumers(c.take(n).push(one), plan, n + 1) == (if plan[one as int] is Skip {
            live_consumers(c, plan, n)
        } else {
            live_consumers(c, plan, n).push(one)
        }),
        live_consumers(c, plan, n).len() <= n,
        forall|k: int|
            0 <= k < live_consumers(c, plan, n).len() ==> !(plan[(#[trigger] live_consumers(
                c,
                plan,
                n,
            )[k]) as int] is Skip),
    decreases n,
{
    lemma_same_consumers(c, c.take(n).push(one), plan, n);
    if n > 0 {
        law_consumers_are_wired_one_by_one(c, plan, one, n - 1);
    }
}

proof fn lemma_same_consumers(a: Seq<usize>, b: Seq<usize>, plan: Seq<Plan>, n: int)
    requires
        forall|k: int| 0 <= k < n ==> a[k] == b[k],
    ensures
        live_consumers(a, plan, n) == live_consumers(b, plan, n),
    decreases n,
{
    if n > 0 {
        assert(a[n - 1] == b[n - 1]);
        lemma_same_consumers(a, b, plan, n - 1);
    }
}

/// Files are read in place. Addresses of video sites go to the site downloader, whatever else they
/// look like; addresses of media files are fetched, and only over the web; objects come out of
/// their store; and nothing else is acquired.
pub proof fn law_sources_find_their_acquirer(
    u: Seq<char>,
    parsed: Result<
        (Seq<char>, Seq<char>, Option<Seq<char>>, Option<u16>, Seq<char>),
        Seq<char>,
    >,
)
    ensures
        acquirer_of(acquire::SourceView::Path(u), parsed) == Some(AcquirerKind::Local),
        acquire::video_site_url(u) <==> acquirer_of(acquire::SourceView::Url(u), parsed) == Some(
            AcquirerKind::YtDlp,
        ),
        acquirer_of(acquire::SourceView::Url(u), parsed) == Some(AcquirerKind::Http) ==> parsed is Ok
            && remote::media_ending(parsed->Ok_0.4) is Some && (text::starts_with(
            text::ascii_lower(u),
            "http://"@,
        ) || text::starts_with(text::ascii_lower(u), "https://"@)),
        acquirer_of(acquire::SourceView::Url(u), parsed) is None ==> !remote::store_scheme(
            text::ascii_lower(u),
        ),
{
}

/// What is newly known replaces what was known before, and what is not keeps it.
pub proof fn law_new_values_replace_old_ones(new: Seq<char>, old_value: Option<Seq<char>>)
    ensures
        newer(Some(new), old_value) == Some(new),
        newer(None, old_value) == old_value,
{
}

/// A stage is handed the media where it takes it and is not skipped, and where it replays.
pub proof fn law_media_goes_to_stages_that_need_it(plan: Seq<Plan>, roots: Seq<usize>, i: int)
    requires
        0 <= i < plan.len(),
        i <= usize::MAX,
    ensures
        plan[i] is Skip ==> !seeded(plan, roots, i),
        plan[i] is Replay ==> seeded(plan, roots, i),
        plan[i] is Run ==> (seeded(plan, roots, i) <==> exists|k: int|
            0 <= k < roots.len() && #[trigger] roots[k] == i),
{
}

} // verus!
