//! The shipped operators: what each is called, consumes and produces, and on which settings its
//! cached output depends.

use vstd::prelude::*;

use crate::json;
use crate::json::quote;
use crate::operator::{InputKind, ItemKind, OperatorDecl, OutputKind};
use crate::stages::OperatorName;
use crate::text::str_is;

verus! {

/// A model that an operator needs.
#[derive(Clone, Copy, Debug, PartialEq, Eq, Structural)]
pub enum Role {
    /// Transcribes speech.
    Asr,
    /// Embeds images.
    ImageEmbed,
    /// Embeds texts.
    TextEmbed,
    /// Reads text on screen.
    Ocr,
    /// Describes scenes.
    VlmDescribe,
    /// Extracts entities and events.
    ExtractLlm,
}

/// An operator's id.
pub open spec fn id_of(op: OperatorName) -> Seq<char> {
    match op {
        OperatorName::SubtitleImport => "subtitle_import"@,
        OperatorName::Sample => "sample"@,
        OperatorName::PHash => "phash"@,
        OperatorName::Thumbnail => "thumbnail"@,
        OperatorName::Vad => "vad"@,
        OperatorName::Asr => "asr"@,
        OperatorName::ShotBoundary => "shot_boundary"@,
        OperatorName::ImageEmbed => "image_embed"@,
        OperatorName::TextEmbed => "text_embed"@,
        OperatorName::Ocr => "ocr"@,
        OperatorName::Scenes => "scenes"@,
        OperatorName::Chapters => "chapters"@,
        OperatorName::VlmDescribe => "vlm_describe"@,
        OperatorName::EntitiesEvents => "entities_events"@,
    }
}

/// What an operator consumes.
pub open spec fn inputs_of(op: OperatorName) -> Seq<ItemKind> {
    match op {
        OperatorName::SubtitleImport => seq![ItemKind::Media],
        OperatorName::Sample => seq![ItemKind::Media],
        OperatorName::PHash => seq![ItemKind::Frame],
        OperatorName::Thumbnail => seq![ItemKind::Frame],
        OperatorName::Vad => seq![ItemKind::Media],
        OperatorName::Asr => seq![ItemKind::Media, ItemKind::SpeechRange],
        OperatorName::ShotBoundary => seq![ItemKind::Media, ItemKind::Frame],
        OperatorName::ImageEmbed => seq![ItemKind::Hashed],
        OperatorName::TextEmbed => seq![ItemKind::TranscriptSpan, ItemKind::OcrSpan],
        OperatorName::Ocr => seq![ItemKind::Hashed],
        OperatorName::Scenes => seq![ItemKind::Media, ItemKind::Shot, ItemKind::TranscriptSpan],
        OperatorName::Chapters => seq![
            ItemKind::Media,
            ItemKind::Scene,
            ItemKind::TranscriptSpan,
            ItemKind::OcrSpan,
        ],
        OperatorName::VlmDescribe => seq![
            ItemKind::Media,
            ItemKind::Scene,
            ItemKind::TranscriptSpan,
        ],
        OperatorName::EntitiesEvents => seq![
            ItemKind::Media,
            ItemKind::Description,
            ItemKind::TranscriptSpan,
        ],
    }
}

/// Which of its inputs an operator can do without.
pub open spec fn optional_of(op: OperatorName) -> Seq<ItemKind> {
    match op {
        OperatorName::TextEmbed => seq![ItemKind::TranscriptSpan, ItemKind::OcrSpan],
        OperatorName::Scenes => seq![ItemKind::TranscriptSpan],
        OperatorName::Chapters => seq![ItemKind::TranscriptSpan, ItemKind::OcrSpan],
        OperatorName::VlmDescribe => seq![ItemKind::TranscriptSpan],
        OperatorName::EntitiesEvents => seq![ItemKind::Description, ItemKind::TranscriptSpan],
        _ => Seq::empty(),
    }
}

/// What an operator produces.
pub open spec fn output_of(op: OperatorName) -> ItemKind {
    match op {
        OperatorName::SubtitleImport => ItemKind::TranscriptSpan,
        OperatorName::Sample => ItemKind::Frame,
        OperatorName::PHash => ItemKind::Hashed,
        OperatorName::Thumbnail => ItemKind::Thumbnail,
        OperatorName::Vad => ItemKind::SpeechRange,
        OperatorName::Asr => ItemKind::TranscriptSpan,
        OperatorName::ShotBoundary => ItemKind::Shot,
        OperatorName::ImageEmbed => ItemKind::ImageEmbedding,
        OperatorName::TextEmbed => ItemKind::TextEmbedding,
        OperatorName::Ocr => ItemKind::OcrSpan,
        OperatorName::Scenes => ItemKind::Scene,
        OperatorName::Chapters => ItemKind::Chapter,
        OperatorName::VlmDescribe => ItemKind::Description,
        OperatorName::EntitiesEvents => ItemKind::Extraction,
    }
}

/// The model that an operator needs.
pub open spec fn role_of(op: OperatorName) -> Option<Role> {
    match op {
        OperatorName::Asr => Some(Role::Asr),
        OperatorName::ImageEmbed => Some(Role::ImageEmbed),
        OperatorName::TextEmbed => Some(Role::TextEmbed),
        OperatorName::Ocr => Some(Role::Ocr),
        OperatorName::Chapters => Some(Role::TextEmbed),
        OperatorName::VlmDescribe => Some(Role::VlmDescribe),
        OperatorName::EntitiesEvents => Some(Role::ExtractLlm),
        _ => None,
    }
}

/// Whether an operator can emit again what it stored.
pub open spec fn replays(op: OperatorName) -> bool {
    op is SubtitleImport || op is Scenes || op is Chapters || op is VlmDescribe
}

/// Whether an operator can be constructed by name.
pub open spec fn constructible(op: OperatorName) -> bool {
    !(op is Ocr || op is Scenes || op is Chapters || op is VlmDescribe || op is EntitiesEvents)
}

/// What an operator can do without is among what it consumes.
pub proof fn law_optional_inputs_are_inputs(op: OperatorName, i: int)
    requires
        0 <= i < optional_of(op).len(),
    ensures
        inputs_of(op).contains(optional_of(op)[i]),
{
    match op {
        OperatorName::TextEmbed => {
            assert(inputs_of(op)[i] == optional_of(op)[i]);
        },
        OperatorName::Scenes => {
            assert(inputs_of(op)[2] == optional_of(op)[i]);
        },
        OperatorName::Chapters => {
            assert(inputs_of(op)[i + 2] == optional_of(op)[i]);
        },
        OperatorName::VlmDescribe => {
            assert(inputs_of(op)[2] == optional_of(op)[i]);
        },
        OperatorName::EntitiesEvents => {
            assert(inputs_of(op)[i + 1] == optional_of(op)[i]);
        },
        _ => {},
    }
}

proof fn reveal_ids()
    ensures
        forall|a: OperatorName, b: OperatorName|
            #![trigger id_of(a), id_of(b)]
            id_of(a) == id_of(b) ==> a == b,
{
    reveal_strlit("subtitle_import");
    reveal_strlit("sample");
    reveal_strlit("phash");
    reveal_strlit("thumbnail");
    reveal_strlit("vad");
    reveal_strlit("asr");
    reveal_strlit("shot_boundary");
    reveal_strlit("image_embed");
    reveal_strlit("text_embed");
    reveal_strlit("ocr");
    reveal_strlit("scenes");
    reveal_strlit("chapters");
    reveal_strlit("vlm_describe");
    reveal_strlit("entities_events");
    assert forall|a: OperatorName, b: OperatorName|
        #![trigger id_of(a), id_of(b)]
        id_of(a) == id_of(b) implies a == b by {
        let (s, t) = (id_of(a), id_of(b));
        assert(s.len() == t.len() && s[0] == t[0] && s[1] == t[1] && s[2] == t[2]);
    }
}

/// No two operators share an id.
pub proof fn law_ids_are_distinct(a: OperatorName, b: OperatorName)
    requires
        a != b,
    ensures
        id_of(a) != id_of(b),
{
    reveal_ids();
}

impl OperatorName {
    /// Stable id; also the stage's name.
    pub fn id(self) -> (s: &'static str)
        ensures
            s@ == id_of(self),
    {
        match self {
            OperatorName::SubtitleImport => "subtitle_import",
            OperatorName::Sample => "sample",
            OperatorName::PHash => "phash",
            OperatorName::Thumbnail => "thumbnail",
            OperatorName::Vad => "vad",
            OperatorName::Asr => "asr",
            OperatorName::ShotBoundary => "shot_boundary",
            OperatorName::ImageEmbed => "image_embed",
            OperatorName::TextEmbed => "text_embed",
            OperatorName::Ocr => "ocr",
            OperatorName::Scenes => "scenes",
            OperatorName::Chapters => "chapters",
            OperatorName::VlmDescribe => "vlm_describe",
            OperatorName::EntitiesEvents => "entities_events",
        }
    }

    /// Version of what it puts out.
    pub fn version(self) -> (v: u32)
        ensures
            v == 1,
    {
        1
    }

    /// What it consumes.
    pub fn inputs(self) -> (r: Vec<InputKind>)
        ensures
            r@ == inputs_of(self),
    {
        let r: Vec<InputKind> = match self {
            OperatorName::SubtitleImport => vec![ItemKind::Media],
            OperatorName::Sample => vec![ItemKind::Media],
            OperatorName::PHash => vec![ItemKind::Frame],
            OperatorName::Thumbnail => vec![ItemKind::Frame],
            OperatorName::Vad => vec![ItemKind::Media],
            OperatorName::Asr => vec![ItemKind::Media, ItemKind::SpeechRange],
            OperatorName::ShotBoundary => vec![ItemKind::Media, ItemKind::Frame],
            OperatorName::ImageEmbed => vec![ItemKind::Hashed],
            OperatorName::TextEmbed => vec![ItemKind::TranscriptSpan, ItemKind::OcrSpan],
            OperatorName::Ocr => vec![ItemKind::Hashed],
            OperatorName::Scenes => vec![
                ItemKind::Media,
                ItemKind::Shot,
                ItemKind::TranscriptSpan,
            ],
            OperatorName::Chapters => vec![
                ItemKind::Media,
                ItemKind::Scene,
                ItemKind::TranscriptSpan,
                ItemKind::OcrSpan,
            ],
            OperatorName::VlmDescribe => vec![
                ItemKind::Media,
                ItemKind::Scene,
                ItemKind::TranscriptSpan,
            ],
            OperatorName::EntitiesEvents => vec![
                ItemKind::Media,
                ItemKind::Description,
                ItemKind::TranscriptSpan,
            ],
        };
        proof {
            assert(r@ =~= inputs_of(self));
        }
        r
    }

    /// Which of its inputs it can do without.
    pub fn optional_inputs(self) -> (r: Vec<InputKind>)
        ensures
            r@ == optional_of(self),
    {
        let r: Vec<InputKind> = match self {
            OperatorName::TextEmbed => vec![ItemKind::TranscriptSpan, ItemKind::OcrSpan],
            OperatorName::Scenes => vec![ItemKind::TranscriptSpan],
            OperatorName::Chapters => vec![ItemKind::TranscriptSpan, ItemKind::OcrSpan],
            OperatorName::VlmDescribe => vec![ItemKind::TranscriptSpan],
            OperatorName::EntitiesEvents => vec![
                ItemKind::Description,
                ItemKind::TranscriptSpan,
            ],
            _ => Vec::new(),
        };
        proof {
            assert(r@ =~= optional_of(self));
        }
        r
    }

    /// What it produces.
    pub fn outputs(self) -> (r: Vec<OutputKind>)
        ensures
            r@ == seq![output_of(self)],
    {
        let kind: ItemKind = match self {
            OperatorName::SubtitleImport => ItemKind::TranscriptSpan,
            OperatorName::Sample => ItemKind::Frame,
            OperatorName::PHash => ItemKind::Hashed,
            OperatorName::Thumbnail => ItemKind::Thumbnail,
            OperatorName::Vad => ItemKind::SpeechRange,
            OperatorName::Asr => ItemKind::TranscriptSpan,
            OperatorName::ShotBoundary => ItemKind::Shot,
            OperatorName::ImageEmbed => ItemKind::ImageEmbedding,
            OperatorName::TextEmbed => ItemKind::TextEmbedding,
            OperatorName::Ocr => ItemKind::OcrSpan,
            OperatorName::Scenes => ItemKind::Scene,
            OperatorName::Chapters => ItemKind::Chapter,
            OperatorName::VlmDescribe => ItemKind::Description,
            OperatorName::EntitiesEvents => ItemKind::Extraction,
        };
        let r: Vec<OutputKind> = vec![kind];
        proof {
            assert(r@ =~= seq![output_of(self)]);
        }
        r
    }

    /// The model that it needs.
    pub fn required_role(self) -> (r: Option<Role>)
        ensures
            r == role_of(self),
    {
        match self {
            OperatorName::Asr => Some(Role::Asr),
            OperatorName::ImageEmbed => Some(Role::ImageEmbed),
            OperatorName::TextEmbed => Some(Role::TextEmbed),
            OperatorName::Ocr => Some(Role::Ocr),
            OperatorName::Chapters => Some(Role::TextEmbed),
            OperatorName::VlmDescribe => Some(Role::VlmDescribe),
            OperatorName::EntitiesEvents => Some(Role::ExtractLlm),
            _ => None,
        }
    }

    /// Whether it can emit again what it stored.
    pub fn replay_supported(self) -> (b: bool)
        ensures
            b == replays(self),
    {
        match self {
            OperatorName::SubtitleImport => true,
            OperatorName::Scenes => true,
            OperatorName::Chapters => true,
            OperatorName::VlmDescribe => true,
            _ => false,
        }
    }

    /// Its place in a pipeline.
    pub fn declare(self) -> (d: OperatorDecl)
        ensures
            d.id@ == id_of(self),
            d.inputs@ == inputs_of(self),
            d.outputs@ == seq![output_of(self)],
    {
        OperatorDecl {
            id: self.id().to_owned(),
            inputs: self.inputs(),
            outputs: self.outputs(),
        }
    }
}

/// Finds an operator by the name a policy gives it.
pub fn build(name: &str) -> (r: Option<OperatorName>)
    ensures
        match r {
            Some(op) => constructible(op) && name@ == id_of(op),
            None => forall|op: OperatorName| constructible(op) ==> name@ != #[trigger] id_of(op),
        },
{
    if str_is(name, "subtitle_import") {
        return Some(OperatorName::SubtitleImport);
    }
    if str_is(name, "sample") {
        return Some(OperatorName::Sample);
    }
    if str_is(name, "phash") {
        return Some(OperatorName::PHash);
    }
    if str_is(name, "thumbnail") {
        return Some(OperatorName::Thumbnail);
    }
    if str_is(name, "vad") {
        return Some(OperatorName::Vad);
    }
    if str_is(name, "asr") {
        return Some(OperatorName::Asr);
    }
    if str_is(name, "shot_boundary") {
        return Some(OperatorName::ShotBoundary);
    }
    if str_is(name, "image_embed") {
        return Some(OperatorName::ImageEmbed);
    }
    if str_is(name, "text_embed") {
        return Some(OperatorName::TextEmbed);
    }
    None
}

/// What cached output depends on besides the operator itself.
#[derive(Debug)]
pub struct CacheSettings {
    /// Provider and model that serve the operator's role, if any do.
    pub served_by: Option<(String, String)>,
    /// Hash of the prompt, if there is one.
    pub prompt_hash: Option<String>,
    /// Grid layout of the policy.
    pub grid: String,
    /// Sampling rate of the policy, as a JSON number.
    pub sample_fps: String,
}

/// The provider as a JSON string.
pub open spec fn provider_text(c: CacheSettings) -> Seq<char> {
    match c.served_by {
        Some((p, _)) => json::json_quoted(p@),
        None => json::json_quoted(""@),
    }
}

/// The model as a JSON string.
pub open spec fn model_text(c: CacheSettings) -> Seq<char> {
    match c.served_by {
        Some((_, m)) => json::json_quoted(m@),
        None => json::json_quoted(""@),
    }
}

/// The prompt's hash as JSON.
pub open spec fn prompt_text(c: CacheSettings) -> Seq<char> {
    match c.prompt_hash {
        Some(h) => json::json_quoted(h@),
        None => "null"@,
    }
}

/// The JSON text of what an operator's cached output depends on; some depend on nothing.
pub open spec fn params_of(op: OperatorName, c: CacheSettings) -> Option<Seq<char>> {
    match op {
        OperatorName::SubtitleImport => Some("{\"gap_secs\":2.0,\"group_secs\":15.0}"@),
        OperatorName::ImageEmbed => Some(
            "{\"dedup_distance\":6,\"model\":"@ + model_text(c) + ",\"provider\":"@
                + provider_text(c) + ",\"sample_fps\":"@ + c.sample_fps@ + "}"@,
        ),
        OperatorName::TextEmbed => Some(
            "{\"model\":"@ + model_text(c) + ",\"provider\":"@ + provider_text(c) + "}"@,
        ),
        OperatorName::Scenes => Some(
            "{\"image_model\":"@ + model_text(c)
                + ",\"max_secs\":180.0,\"min_secs\":20.0,\"similar\":0.8500000238418579}"@,
        ),
        OperatorName::Chapters => Some(
            "{\"min_secs\":180.0,\"target_secs\":600.0,\"text_model\":"@ + model_text(c) + "}"@,
        ),
        OperatorName::VlmDescribe => Some(
            "{\"frames\":9,\"grid\":"@ + json::json_quoted(c.grid@) + ",\"model\":"@ + model_text(
                c,
            ) + ",\"prompt_hash\":"@ + prompt_text(c) + ",\"provider\":"@ + provider_text(c)
                + "}"@,
        ),
        OperatorName::EntitiesEvents => Some(
            "{\"model\":"@ + model_text(c) + ",\"prompt_hash\":"@ + prompt_text(c)
                + ",\"provider\":"@ + provider_text(c) + ",\"window_secs\":300.0}"@,
        ),
        _ => None,
    }
}

fn provider_of(c: &CacheSettings) -> (s: String)
    ensures
        s@ == provider_text(*c),
{
    match &c.served_by {
        Some((p, _)) => quote(p.as_str()),
        None => quote(""),
    }
}

fn model_of(c: &CacheSettings) -> (s: String)
    ensures
        s@ == model_text(*c),
{
    match &c.served_by {
        Some((_, m)) => quote(m.as_str()),
        None => quote(""),
    }
}

fn prompt_of(c: &CacheSettings) -> (s: String)
    ensures
        s@ == prompt_text(*c),
{
    match &c.prompt_hash {
        Some(h) => quote(h.as_str()),
        None => "null".to_owned(),
    }
}

/// The JSON text of what an operator's cached output depends on.
pub fn cache_params(op: OperatorName, c: &CacheSettings) -> (r: Option<String>)
    ensures
        match r {
            Some(s) => params_of(op, *c) == Some(s@),
            None => params_of(op, *c) is None,
        },
{
    match op {
        OperatorName::SubtitleImport => Some("{\"gap_secs\":2.0,\"group_secs\":15.0}".to_owned()),
        OperatorName::ImageEmbed => {
            let mut s = "{\"dedup_distance\":6,\"model\":".to_owned();
            s.append(model_of(c).as_str());
            s.append(",\"provider\":");
            s.append(provider_of(c).as_str());
            s.append(",\"sample_fps\":");
            s.append(c.sample_fps.as_str());
            s.append("}");
            Some(s)
        },
        OperatorName::TextEmbed => {
            let mut s = "{\"model\":".to_owned();
            s.append(model_of(c).as_str());
            s.append(",\"provider\":");
            s.append(provider_of(c).as_str());
            s.append("}");
            Some(s)
        },
        OperatorName::Scenes => {
            let mut s = "{\"image_model\":".to_owned();
            s.append(model_of(c).as_str());
            s.append(",\"max_secs\":180.0,\"min_secs\":20.0,\"similar\":0.8500000238418579}");
            Some(s)
        },
        OperatorName::Chapters => {
            let mut s = "{\"min_secs\":180.0,\"target_secs\":600.0,\"text_model\":".to_owned();
            s.append(model_of(c).as_str());
            s.append("}");
            Some(s)
        },
        OperatorName::VlmDescribe => {
            let mut s = "{\"frames\":9,\"grid\":".to_owned();
            s.append(quote(c.grid.as_str()).as_str());
            s.append(",\"model\":");
            s.append(model_of(c).as_str());
            s.append(",\"prompt_hash\":");
            s.append(prompt_of(c).as_str());
            s.append(",\"provider\":");
            s.append(provider_of(c).as_str());
            s.append("}");
            Some(s)
        },
        OperatorName::EntitiesEvents => {
            let mut s = "{\"model\":".to_owned();
            s.append(model_of(c).as_str());
            s.append(",\"prompt_hash\":");
            s.append(prompt_of(c).as_str());
            s.append(",\"provider\":");
            s.append(provider_of(c).as_str());
            s.append(",\"window_secs\":300.0}");
            Some(s)
        },
        _ => None,
    }
}

} // verus!
