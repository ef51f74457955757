//! What flows between operators and what an operator declares about itself.

use vstd::prelude::*;

use crate::text::str_is;

verus! {

/// Kinds of items that flow between operators. An operator's `inputs` and
/// `outputs` are lists of these; the execution graph is derived from them.
#[derive(Clone, Copy, Debug, PartialEq, Eq, Structural, Hash, PartialOrd, Ord)]
pub enum ItemKind {
    /// The acquired, probed media: the root of every job.
    Media,
    /// A sampled frame with its sample row.
    Frame,
    /// A frame sample with its perceptual hash filled in.
    Hashed,
    /// A frame sample with its thumbnail stored.
    Thumbnail,
    /// 16 kHz mono PCM chunk.
    AudioChunk,
    /// Speech ranges.
    SpeechRange,
    /// Transcript spans.
    TranscriptSpan,
    /// Shot segments.
    Shot,
    /// OCR spans.
    OcrSpan,
    /// Image embeddings.
    ImageEmbedding,
    /// Text embeddings.
    TextEmbedding,
    /// Scene segments.
    Scene,
    /// Chapter segments.
    Chapter,
    /// Text about a segment or a frame.
    Description,
    /// Entities and events.
    Extraction,
}

/// The name a kind has in source code and in error messages.
pub open spec fn kind_label(k: ItemKind) -> Seq<char> {
    match k {
        ItemKind::Media => "Media"@,
        ItemKind::Frame => "Frame"@,
        ItemKind::Hashed => "Hashed"@,
        ItemKind::Thumbnail => "Thumbnail"@,
        ItemKind::AudioChunk => "AudioChunk"@,
        ItemKind::SpeechRange => "SpeechRange"@,
        ItemKind::TranscriptSpan => "TranscriptSpan"@,
        ItemKind::Shot => "Shot"@,
        ItemKind::OcrSpan => "OcrSpan"@,
        ItemKind::ImageEmbedding => "ImageEmbedding"@,
        ItemKind::TextEmbedding => "TextEmbedding"@,
        ItemKind::Scene => "Scene"@,
        ItemKind::Chapter => "Chapter"@,
        ItemKind::Description => "Description"@,
        ItemKind::Extraction => "Extraction"@,
    }
}

impl ItemKind {
    /// The name a kind has in error messages.
    pub fn label(self) -> (s: &'static str)
        ensures
            s@ == kind_label(self),
    {
        match self {
            ItemKind::Media => "Media",
            ItemKind::Frame => "Frame",
            ItemKind::Hashed => "Hashed",
            ItemKind::Thumbnail => "Thumbnail",
            ItemKind::AudioChunk => "AudioChunk",
            ItemKind::SpeechRange => "SpeechRange",
            ItemKind::TranscriptSpan => "TranscriptSpan",
            ItemKind::Shot => "Shot",
            ItemKind::OcrSpan => "OcrSpan",
            ItemKind::ImageEmbedding => "ImageEmbedding",
            ItemKind::TextEmbedding => "TextEmbedding",
            ItemKind::Scene => "Scene",
            ItemKind::Chapter => "Chapter",
            ItemKind::Description => "Description",
            ItemKind::Extraction => "Extraction",
        }
    }

    /// The name a kind has in data.
    pub fn name(self) -> (s: &'static str)
        ensures
            s@ == kind_name(self),
    {
        match self {
            ItemKind::Media => "media",
            ItemKind::Frame => "frame",
            ItemKind::Hashed => "hashed",
            ItemKind::Thumbnail => "thumbnail",
            ItemKind::AudioChunk => "audio_chunk",
            ItemKind::SpeechRange => "speech_range",
            ItemKind::TranscriptSpan => "transcript_span",
            ItemKind::Shot => "shot",
            ItemKind::OcrSpan => "ocr_span",
            ItemKind::ImageEmbedding => "image_embedding",
            ItemKind::TextEmbedding => "text_embedding",
            ItemKind::Scene => "scene",
            ItemKind::Chapter => "chapter",
            ItemKind::Description => "description",
            ItemKind::Extraction => "extraction",
        }
    }
}

/// The name a kind has in data.
pub open spec fn kind_name(k: ItemKind) -> Seq<char> {
    match k {
        ItemKind::Media => "media"@,
        ItemKind::Frame => "frame"@,
        ItemKind::Hashed => "hashed"@,
        ItemKind::Thumbnail => "thumbnail"@,
        ItemKind::AudioChunk => "audio_chunk"@,
        ItemKind::SpeechRange => "speech_range"@,
        ItemKind::TranscriptSpan => "transcript_span"@,
        ItemKind::Shot => "shot"@,
        ItemKind::OcrSpan => "ocr_span"@,
        ItemKind::ImageEmbedding => "image_embedding"@,
        ItemKind::TextEmbedding => "text_embedding"@,
        ItemKind::Scene => "scene"@,
        ItemKind::Chapter => "chapter"@,
        ItemKind::Description => "description"@,
        ItemKind::Extraction => "extraction"@,
    }
}

/// The kind that a name in data stands for.
pub open spec fn named_kind(s: Seq<char>) -> Option<ItemKind> {
    if s == "media"@ {
        Some(ItemKind::Media)
    } else if s == "frame"@ {
        Some(ItemKind::Frame)
    } else if s == "hashed"@ {
        Some(ItemKind::Hashed)
    } else if s == "thumbnail"@ {
        Some(ItemKind::Thumbnail)
    } else if s == "audio_chunk"@ {
        Some(ItemKind::AudioChunk)
    } else if s == "speech_range"@ {
        Some(ItemKind::SpeechRange)
    } else if s == "transcript_span"@ {
        Some(ItemKind::TranscriptSpan)
    } else if s == "shot"@ {
        Some(ItemKind::Shot)
    } else if s == "ocr_span"@ {
        Some(ItemKind::OcrSpan)
    } else if s == "image_embedding"@ {
        Some(ItemKind::ImageEmbedding)
    } else if s == "text_embedding"@ {
        Some(ItemKind::TextEmbedding)
    } else if s == "scene"@ {
        Some(ItemKind::Scene)
    } else if s == "chapter"@ {
        Some(ItemKind::Chapter)
    } else if s == "description"@ {
        Some(ItemKind::Description)
    } else if s == "extraction"@ {
        Some(ItemKind::Extraction)
    } else {
        None
    }
}

/// Parses an item kind from its name in data (`"ocr_span"`).
pub fn parse_kind(name: &str) -> (r: Option<ItemKind>)
    ensures
        r == named_kind(name@),
{
    if str_is(name, "media") {
        Some(ItemKind::Media)
    } else if str_is(name, "frame") {
        Some(ItemKind::Frame)
    } else if str_is(name, "hashed") {
        Some(ItemKind::Hashed)
    } else if str_is(name, "thumbnail") {
        Some(ItemKind::Thumbnail)
    } else if str_is(name, "audio_chunk") {
        Some(ItemKind::AudioChunk)
    } else if str_is(name, "speech_range") {
        Some(ItemKind::SpeechRange)
    } else if str_is(name, "transcript_span") {
        Some(ItemKind::TranscriptSpan)
    } else if str_is(name, "shot") {
        Some(ItemKind::Shot)
    } else if str_is(name, "ocr_span") {
        Some(ItemKind::OcrSpan)
    } else if str_is(name, "image_embedding") {
        Some(ItemKind::ImageEmbedding)
    } else if str_is(name, "text_embedding") {
        Some(ItemKind::TextEmbedding)
    } else if str_is(name, "scene") {
        Some(ItemKind::Scene)
    } else if str_is(name, "chapter") {
        Some(ItemKind::Chapter)
    } else if str_is(name, "description") {
        Some(ItemKind::Description)
    } else if str_is(name, "extraction") {
        Some(ItemKind::Extraction)
    } else {
        None
    }
}

/// Every kind is found under its name, and under no other.
pub proof fn law_kinds_have_names(k: ItemKind, s: Seq<char>)
    ensures
        named_kind(s) == Some(k) <==> s == kind_name(k),
{
    reveal_strlit("media");
    reveal_strlit("frame");
    reveal_strlit("hashed");
    reveal_strlit("thumbnail");
    reveal_strlit("audio_chunk");
    reveal_strlit("speech_range");
    reveal_strlit("transcript_span");
    reveal_strlit("shot");
    reveal_strlit("ocr_span");
    reveal_strlit("image_embedding");
    reveal_strlit("text_embedding");
    reveal_strlit("scene");
    reveal_strlit("chapter");
    reveal_strlit("description");
    reveal_strlit("extraction");
    lemma_names_differ();
}

/// The names of kinds are all different.
pub proof fn lemma_names_differ()
    ensures
        "media"@ != "frame"@,
        "media"@ != "hashed"@,
        "media"@ != "thumbnail"@,
        "media"@ != "audio_chunk"@,
        "media"@ != "speech_range"@,
        "media"@ != "transcript_span"@,
        "media"@ != "shot"@,
        "media"@ != "ocr_span"@,
        "media"@ != "image_embedding"@,
        "media"@ != "text_embedding"@,
        "media"@ != "scene"@,
        "media"@ != "chapter"@,
        "media"@ != "description"@,
        "media"@ != "extraction"@,
        "frame"@ != "hashed"@,
        "frame"@ != "thumbnail"@,
        "frame"@ != "audio_chunk"@,
        "frame"@ != "speech_range"@,
        "frame"@ != "transcript_span"@,
        "frame"@ != "shot"@,
        "frame"@ != "ocr_span"@,
        "frame"@ != "image_embedding"@,
        "frame"@ != "text_embedding"@,
        "frame"@ != "scene"@,
        "frame"@ != "chapter"@,
        "frame"@ != "description"@,
        "frame"@ != "extraction"@,
        "hashed"@ != "thumbnail"@,
        "hashed"@ != "audio_chunk"@,
        "hashed"@ != "speech_range"@,
        "hashed"@ != "transcript_span"@,
        "hashed"@ != "shot"@,
        "hashed"@ != "ocr_span"@,
        "hashed"@ != "image_embedding"@,
        "hashed"@ != "text_embedding"@,
        "hashed"@ != "scene"@,
        "hashed"@ != "chapter"@,
        "hashed"@ != "description"@,
        "hashed"@ != "extraction"@,
        "thumbnail"@ != "audio_chunk"@,
        "thumbnail"@ != "speech_range"@,
        "thumbnail"@ != "transcript_span"@,
        "thumbnail"@ != "shot"@,
        "thumbnail"@ != "ocr_span"@,
        "thumbnail"@ != "image_embedding"@,
        "thumbnail"@ != "text_embedding"@,
        "thumbnail"@ != "scene"@,
        "thumbnail"@ != "chapter"@,
        "thumbnail"@ != "description"@,
        "thumbnail"@ != "extraction"@,
        "audio_chunk"@ != "speech_range"@,
        "audio_chunk"@ != "transcript_span"@,
        "audio_chunk"@ != "shot"@,
        "audio_chunk"@ != "ocr_span"@,
        "audio_chunk"@ != "image_embedding"@,
        "audio_chunk"@ != "text_embedding"@,
        "audio_chunk"@ != "scene"@,
        "audio_chunk"@ != "chapter"@,
        "audio_chunk"@ != "description"@,
        "audio_chunk"@ != "extraction"@,
        "speech_range"@ != "transcript_span"@,
        "speech_range"@ != "shot"@,
        "speech_range"@ != "ocr_span"@,
        "speech_range"@ != "image_embedding"@,
        "speech_range"@ != "text_embedding"@,
        "speech_range"@ != "scene"@,
        "speech_range"@ != "chapter"@,
        "speech_range"@ != "description"@,
        "speech_range"@ != "extraction"@,
        "transcript_span"@ != "shot"@,
        "transcript_span"@ != "ocr_span"@,
        "transcript_span"@ != "image_embedding"@,
        "transcript_span"@ != "text_embedding"@,
        "transcript_span"@ != "scene"@,
        "transcript_span"@ != "chapter"@,
        "transcript_span"@ != "description"@,
        "transcript_span"@ != "extraction"@,
        "shot"@ != "ocr_span"@,
        "shot"@ != "image_embedding"@,
        "shot"@ != "text_embedding"@,
        "shot"@ != "scene"@,
        "shot"@ != "chapter"@,
        "shot"@ != "description"@,
        "shot"@ != "extraction"@,
        "ocr_span"@ != "image_embedding"@,
        "ocr_span"@ != "text_embedding"@,
        "ocr_span"@ != "scene"@,
        "ocr_span"@ != "chapter"@,
        "ocr_span"@ != "description"@,
        "ocr_span"@ != "extraction"@,
        "image_embedding"@ != "text_embedding"@,
        "image_embedding"@ != "scene"@,
        "image_embedding"@ != "chapter"@,
        "image_embedding"@ != "description"@,
        "image_embedding"@ != "extraction"@,
        "text_embedding"@ != "scene"@,
        "text_embedding"@ != "chapter"@,
        "text_embedding"@ != "description"@,
        "text_embedding"@ != "extraction"@,
        "scene"@ != "chapter"@,
        "scene"@ != "description"@,
        "scene"@ != "extraction"@,
        "chapter"@ != "description"@,
        "chapter"@ != "extraction"@,
        "description"@ != "extraction"@,
{
    reveal_strlit("media");
    assert("media"@.len() == 5);
    reveal_strlit("frame");
    assert("frame"@.len() == 5);
    reveal_strlit("hashed");
    assert("hashed"@.len() == 6);
    reveal_strlit("thumbnail");
    assert("thumbnail"@.len() == 9);
    reveal_strlit("audio_chunk");
    assert("audio_chunk"@.len() == 11);
    reveal_strlit("speech_range");
    assert("speech_range"@.len() == 12);
    reveal_strlit("transcript_span");
    assert("transcript_span"@.len() == 15);
    reveal_strlit("shot");
    assert("shot"@.len() == 4);
    reveal_strlit("ocr_span");
    assert("ocr_span"@.len() == 8);
    reveal_strlit("image_embedding");
    assert("image_embedding"@.len() == 15);
    reveal_strlit("text_embedding");
    assert("text_embedding"@.len() == 14);
    reveal_strlit("scene");
    assert("scene"@.len() == 5);
    reveal_strlit("chapter");
    assert("chapter"@.len() == 7);
    reveal_strlit("description");
    assert("description"@.len() == 11);
    reveal_strlit("extraction");
    assert("extraction"@.len() == 10);
    assert("media"@[0] != "frame"@[0]);
    assert("media"@[0] != "scene"@[0]);
    assert("frame"@[0] != "scene"@[0]);
    assert("audio_chunk"@[0] != "description"@[0]);
    assert("transcript_span"@[0] != "image_embedding"@[0]);
}

/// Input kinds, same enum.
pub type InputKind = ItemKind;

/// Output kinds, same enum.
pub type OutputKind = ItemKind;

/// What an operator declares: its id, what it consumes and what it produces.
#[derive(Debug)]
pub struct OperatorDecl {
    /// Stable id, e.g. `"phash"`; also the stage name.
    pub id: String,
    /// What it consumes.
    pub inputs: Vec<InputKind>,
    /// What it produces.
    pub outputs: Vec<OutputKind>,
}

} // verus!
