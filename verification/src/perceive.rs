//! What surrounds local models: errors, devices, settings of the local adapter, token ids as the
//! models take them, and checks of the shapes that models give back.

use vstd::prelude::*;

use crate::json::{self, Json, JsonView};
use crate::parts;
use crate::text::{self, decimal_string, lowercase, str_is};

verus! {

/// Errors from perception code.
#[derive(Debug)]
pub enum PerceiveError {
    /// A model file is not where the config says.
    ModelMissing {
        /// Expected path.
        path: String,
        /// How to get it.
        hint: String,
    },
    /// The runtime failed.
    Onnx(String),
    /// Bad input (wrong pixel format, empty audio, unsupported size).
    Invalid(String),
    /// Filesystem.
    Io(String),
}

impl PerceiveError {
    /// The text of the message.
    pub open spec fn spec_message(self) -> Seq<char> {
        match self {
            PerceiveError::ModelMissing { path, hint } => "model file missing: "@ + path@ + " ("@
                + hint@ + ")"@,
            PerceiveError::Onnx(m) => "onnx runtime: "@ + m@,
            PerceiveError::Invalid(m) => "invalid input: "@ + m@,
            PerceiveError::Io(m) => "io: "@ + m@,
        }
    }

    /// The message shown to users.
    pub fn message(&self) -> (s: String)
        ensures
            s@ == self.spec_message(),
    {
        match self {
            PerceiveError::ModelMissing { path, hint } => {
                let mut s = prefixed("model file missing: ", path);
                s.append(" (");
                s.append(hint.as_str());
                s.append(")");
                s
            },
            PerceiveError::Onnx(m) => prefixed("onnx runtime: ", m),
            PerceiveError::Invalid(m) => prefixed("invalid input: ", m),
            PerceiveError::Io(m) => prefixed("io: ", m),
        }
    }
}

fn prefixed(prefix: &str, m: &String) -> (s: String)
    ensures
        s@ == prefix@ + m@,
{
    let mut s = prefix.to_owned();
    s.append(m.as_str());
    s
}

fn onnx_error(m: &str) -> (e: PerceiveError)
    ensures
        e matches PerceiveError::Onnx(t) && t@ == m@,
{
    PerceiveError::Onnx(m.to_owned())
}

/// What a caller outside of perception is told.
#[derive(Debug)]
pub enum Failure {
    /// Bad input.
    Invalid(String),
    /// Filesystem.
    Io(String),
    /// Anything else.
    Provider(String),
}

/// An error as the rest of the program sees it.
pub fn failure(e: PerceiveError) -> (r: Failure)
    ensures
        match e {
            PerceiveError::Invalid(m) => r == Failure::Invalid(m),
            PerceiveError::Io(m) => r == Failure::Io(m),
            _ => r matches Failure::Provider(t) && t@ == e.spec_message(),
        },
{
    match e {
        PerceiveError::Invalid(m) => Failure::Invalid(m),
        PerceiveError::Io(m) => Failure::Io(m),
        other => Failure::Provider(other.message()),
    }
}

/// An error of the local adapter, named `provider`.
#[derive(Debug)]
pub enum ProviderError {
    /// A model file is missing.
    ModelMissing {
        /// Expected path.
        path: String,
        /// How to get it.
        hint: String,
    },
    /// Bad input.
    Invalid(String),
    /// Inference failed.
    Inference {
        /// Which adapter.
        provider: String,
        /// Why.
        message: String,
    },
}

/// A provider's error stands for an error of perception.
pub open spec fn stands_for(r: ProviderError, name: Seq<char>, e: PerceiveError) -> bool {
    match e {
        PerceiveError::ModelMissing { path, hint } => r == (ProviderError::ModelMissing {
            path,
            hint,
        }),
        PerceiveError::Invalid(m) => r == ProviderError::Invalid(m),
        _ => r matches ProviderError::Inference { provider, message } && provider@ == name
            && message@ == e.spec_message(),
    }
}

/// A perception error as the adapter named `name` reports it.
pub fn perr(name: &str, e: PerceiveError) -> (r: ProviderError)
    ensures
        stands_for(r, name@, e),
{
    match e {
        PerceiveError::ModelMissing { path, hint } => ProviderError::ModelMissing { path, hint },
        PerceiveError::Invalid(m) => ProviderError::Invalid(m),
        other => ProviderError::Inference { provider: name.to_owned(), message: other.message() },
    }
}

/// Where inference runs.
#[derive(Clone, Copy, Debug, PartialEq, Eq, Structural)]
pub enum Device {
    /// CPU execution provider.
    Cpu,
    /// CUDA execution provider.
    Cuda,
}

impl Device {
    /// Name for reports.
    pub fn as_str(&self) -> (s: &'static str)
        ensures
            s@ == (match *self {
                Device::Cpu => "cpu"@,
                Device::Cuda => "cuda"@,
            }),
    {
        match self {
            Device::Cpu => "cpu",
            Device::Cuda => "cuda",
        }
    }
}

/// The device that a configured name stands for, where CUDA can be used or not; else why none.
pub open spec fn device_for(requested: Seq<char>, cuda: bool) -> Result<Device, Seq<char>> {
    if requested == "cpu"@ {
        Ok(Device::Cpu)
    } else if requested == "cuda"@ {
        if cuda {
            Ok(Device::Cuda)
        } else {
            Err(
                "CUDA execution provider requested but unavailable (build with `--features cuda` and install libcudart/cuBLAS/cuDNN)"@,
            )
        }
    } else if requested == "auto"@ || requested == ""@ {
        if cuda {
            Ok(Device::Cuda)
        } else {
            Ok(Device::Cpu)
        }
    } else {
        Err("unknown device '"@ + requested + "'; expected auto, cpu, or cuda"@)
    }
}

/// Resolves the configured device name; `cuda` says whether CUDA can be used here. Without a
/// name, or by `auto`, CUDA is taken where it can be.
pub fn resolve_device(requested: &str, cuda: bool) -> (r: Result<Device, PerceiveError>)
    ensures
        match device_for(requested@, cuda) {
            Ok(d) => r == Ok::<Device, PerceiveError>(d),
            Err(m) => r matches Err(PerceiveError::Onnx(t)) && t@ == m,
        },
{
    proof {
        reveal_strlit("cpu");
        reveal_strlit("cuda");
        reveal_strlit("auto");
        reveal_strlit("");
    }
    if str_is(requested, "cpu") {
        Ok(Device::Cpu)
    } else if str_is(requested, "cuda") {
        if cuda {
            Ok(Device::Cuda)
        } else {
            Err(
                onnx_error(
                    "CUDA execution provider requested but unavailable (build with `--features cuda` and install libcudart/cuBLAS/cuDNN)",
                ),
            )
        }
    } else if str_is(requested, "auto") || str_is(requested, "") {
        if cuda {
            Ok(Device::Cuda)
        } else {
            Ok(Device::Cpu)
        }
    } else {
        let mut s = "unknown device '".to_owned();
        s.append(requested);
        s.append("'; expected auto, cpu, or cuda");
        Err(PerceiveError::Onnx(s))
    }
}

/// Threads for one CPU session by default: half of what the machine runs at once, if known.
pub open spec fn half_of(parallel: Option<usize>) -> int {
    let n = match parallel {
        Some(p) => p as int / 2,
        None => 1,
    };
    if n < 1 {
        1
    } else {
        n
    }
}

/// Threads for one CPU session when the config says 0; `parallel` is how many the machine runs
/// at once.
pub fn default_threads(parallel: Option<usize>) -> (n: usize)
    ensures
        n == half_of(parallel),
{
    let n: usize = match parallel {
        Some(p) => p / 2,
        None => 1,
    };
    if n < 1 {
        1
    } else {
        n
    }
}

/// What a session is loaded with: the threads, if the file is there and the device can be used.
pub fn plan_session(
    path: &str,
    is_file: bool,
    device: Device,
    cuda_built: bool,
    threads: usize,
    parallel: Option<usize>,
    hint: &str,
) -> (r: Result<usize, PerceiveError>)
    ensures
        r is Ok <==> is_file && (device == Device::Cuda ==> cuda_built),
        r matches Ok(n) ==> n == (if threads == 0 {
            half_of(parallel)
        } else {
            threads as int
        }),
        !is_file ==> (r matches Err(PerceiveError::ModelMissing { path: p, hint: h }) && p@
            == path@ && h@ == hint@),
        is_file && r is Err ==> (r matches Err(PerceiveError::Onnx(m)) && m@
            == "this build has no CUDA execution provider"@),
{
    if !is_file {
        return Err(
            PerceiveError::ModelMissing { path: path.to_owned(), hint: hint.to_owned() },
        );
    }
    if device == Device::Cuda && !cuda_built {
        return Err(onnx_error("this build has no CUDA execution provider"));
    }
    if threads == 0 {
        Ok(default_threads(parallel))
    } else {
        Ok(threads)
    }
}

/// Settings of one local adapter, as the config gives them.
#[derive(Debug)]
pub struct AdapterConfig {
    /// Directory of the models.
    pub model_dir: Option<String>,
    /// Image model's directory name.
    pub image_model: Option<String>,
    /// Text model's directory name.
    pub text_model: Option<String>,
    /// Text recogniser's directory name.
    pub ocr_model: Option<String>,
    /// Device name.
    pub device: Option<String>,
    /// Threads.
    pub threads: Option<i64>,
}

/// The adapter for local models.
#[derive(Debug)]
pub struct OnnxLocal {
    /// Name.
    pub name: String,
    /// Directory of the models.
    pub model_dir: String,
    /// Image model's directory name.
    pub image_model: String,
    /// Text model's directory name.
    pub text_model: String,
    /// Text recogniser's directory name.
    pub ocr_model: String,
    /// Device.
    pub device: Device,
    /// Threads.
    pub threads: usize,
    /// Why the last load failed.
    pub load_error: Option<String>,
}

/// A text, or the default where there is none.
pub open spec fn or_else(s: Option<String>, d: Seq<char>) -> Seq<char> {
    match s {
        Some(t) => t@,
        None => d,
    }
}

fn text_or(s: &Option<String>, d: &str) -> (r: String)
    ensures
        r@ == or_else(*s, d@),
{
    match s {
        Some(t) => t.as_str().to_owned(),
        None => d.to_owned(),
    }
}

impl OnnxLocal {
    /// An adapter from its settings and the defaults for all models; `cuda` says whether CUDA
    /// can be used here.
    pub fn from_config(
        name: &str,
        cfg: &AdapterConfig,
        default_dir: &str,
        default_device: &str,
        default_threads: usize,
        cuda: bool,
    ) -> (r: Result<OnnxLocal, ProviderError>)
        ensures
            match device_for(or_else(cfg.device, default_device@), cuda) {
                Ok(d) => r matches Ok(a) && a.name@ == name@ && a.model_dir@ == or_else(
                    cfg.model_dir,
                    default_dir@,
                ) && a.image_model@ == or_else(cfg.image_model, "siglip-base-patch16-224"@)
                    && a.text_model@ == or_else(cfg.text_model, "bge-small-en-v1.5"@)
                    && a.ocr_model@ == or_else(cfg.ocr_model, "rapidocr"@) && a.device == d
                    && a.threads == (match cfg.threads {
                    Some(t) => if t < 0 {
                        0int
                    } else if t <= usize::MAX {
                        t as int
                    } else {
                        usize::MAX as int
                    },
                    None => default_threads as int,
                }) && a.load_error is None,
                Err(m) => r matches Err(ProviderError::Inference { provider, message })
                    && provider@ == name@ && message@ == "onnx runtime: "@ + m,
            },
    {
        let wanted = text_or(&cfg.device, default_device);
        let device = match resolve_device(wanted.as_str(), cuda) {
            Ok(d) => d,
            Err(e) => {
                return Err(perr(name, e));
            },
        };
        let threads: usize = match cfg.threads {
            Some(t) => if t < 0 {
                0
            } else if t as u64 <= usize::MAX as u64 {
                t as usize
            } else {
                usize::MAX
            },
            None => default_threads,
        };
        Ok(
            OnnxLocal {
                name: name.to_owned(),
                model_dir: text_or(&cfg.model_dir, default_dir),
                image_model: text_or(&cfg.image_model, "siglip-base-patch16-224"),
                text_model: text_or(&cfg.text_model, "bge-small-en-v1.5"),
                ocr_model: text_or(&cfg.ocr_model, "rapidocr"),
                device,
                threads,
                load_error: None,
            },
        )
    }

    /// Device the models run on.
    pub fn device(&self) -> (d: Device)
        ensures
            d == self.device,
    {
        self.device
    }

    /// Last load error, for reports.
    pub fn load_error(&self) -> (e: Option<String>)
        ensures
            text::opt_text(e) == text::opt_text(self.load_error),
    {
        match &self.load_error {
            Some(s) => Some(s.as_str().to_owned()),
            None => None,
        }
    }

    /// What the adapter runs, for reports.
    pub fn model(&self) -> (s: String)
        ensures
            s@ == self.image_model@ + " + "@ + self.text_model@,
    {
        let mut s = self.image_model.as_str().to_owned();
        s.append(" + ");
        s.append(self.text_model.as_str());
        s
    }
}

/// A field's whole number, as JSON gives it.
pub open spec fn whole_field(j: json::JsonView, k: Seq<char>) -> Option<int> {
    match j.get_num(k) {
        Some((t, _)) => text::unsigned(t, 0xffff_ffff_ffff_ffff),
        None => None,
    }
}

fn read_whole(j: &Json, k: &str) -> (r: Option<u64>)
    ensures
        match r {
            Some(n) => whole_field(j@, k@) == Some(n as int),
            None => whole_field(j@, k@) is None,
        },
{
    match j.get_num(k) {
        Some(n) => {
            let t = text::chars_of(n.text.as_str());
            text::parse_unsigned(t.as_slice(), 0xffff_ffff_ffff_ffff)
        },
        None => None,
    }
}

/// The size of embeddings that a model's config names, in a section of it or at the top; the
/// default where it names none.
pub open spec fn config_dim(
    config: Option<json::JsonView>,
    section: Option<Seq<char>>,
    default: int,
) -> int {
    match config {
        None => default,
        Some(c) => {
            let part = match section {
                Some(k) => c.get(k),
                None => Some(c),
            };
            match part {
                None => default,
                Some(p) => match whole_field(p, "hidden_size"@) {
                    Some(n) => n % 0x1_0000_0000,
                    None => default,
                },
            }
        },
    }
}

/// The size of embeddings that a parsed config names.
pub fn dim_of(config: &Option<Json>, section: Option<&str>, default: u32) -> (d: u32)
    ensures
        d == config_dim(
            match *config {
                Some(c) => Some(c@),
                None => None,
            },
            match section {
                Some(k) => Some(k@),
                None => None,
            },
            default as int,
        ),
{
    match config {
        None => default,
        Some(c) => {
            let part: Option<&Json> = match section {
                Some(k) => c.get(k),
                None => Some(c),
            };
            match part {
                None => default,
                Some(p) => match read_whole(p, "hidden_size") {
                    Some(n) => (n % 0x1_0000_0000) as u32,
                    None => default,
                },
            }
        },
    }
}

/// The size of embeddings that the text of a config file names.
pub fn model_dim(config: Option<&str>, section: Option<&str>, default: u32) -> (d: u32)
    ensures
        d == config_dim(
            match config {
                Some(t) => json::json_parsed(t@),
                None => None,
            },
            match section {
                Some(k) => Some(k@),
                None => None,
            },
            default as int,
        ),
{
    let parsed = match config {
        Some(t) => json::parse(t),
        None => None,
    };
    dim_of(&parsed, section, default)
}

/// Image preprocessing parameters, means and deviations in billionths.
#[derive(Debug)]
pub struct Preprocess {
    /// Side of the square input.
    pub size: u32,
    /// Mean of each channel.
    pub mean: Vec<i64>,
    /// Standard deviation of each channel.
    pub std: Vec<i64>,
}

/// The first numbers of an array in the places of defaults: what is no number is passed over.
pub open spec fn overlaid(a: Seq<json::JsonView>, n: int) -> Seq<int>
    decreases n,
{
    if n <= 0 {
        seq![500_000_000, 500_000_000, 500_000_000]
    } else {
        let rest = overlaid(a, n - 1);
        if n - 1 < a.len() && a[n - 1] is Num {
            rest.update(
                n - 1,
                json::signed_ticks(json::signed_nanos(a[n - 1]->Num_0, a[n - 1]->Num_1), 1),
            )
        } else {
            rest
        }
    }
}

/// Preprocessing parameters are those of a config: 224 pixels and halves where it says nothing.
pub open spec fn is_preprocess(p: Preprocess, config: Option<json::JsonView>) -> bool {
    &&& p.size == (match config {
        Some(c) => match c.get("size"@) {
            Some(s) => match whole_field(s, "height"@) {
                Some(n) => n % 0x1_0000_0000,
                None => 224,
            },
            None => 224,
        },
        None => 224,
    })
    &&& p.mean@.map_values(|x: i64| x as int) == overlaid(
        match config {
            Some(c) => c.get_array("image_mean"@),
            None => Seq::empty(),
        },
        3,
    )
    &&& p.std@.map_values(|x: i64| x as int) == overlaid(
        match config {
            Some(c) => c.get_array("image_std"@),
            None => Seq::empty(),
        },
        3,
    )
}

fn overlay(a: Option<&Vec<Json>>) -> (r: Vec<i64>)
    ensures
        r@.map_values(|x: i64| x as int) == overlaid(
            match a {
                Some(v) => json::json_views(v@),
                None => Seq::empty(),
            },
            3,
        ),
{
    let ghost views = match a {
        Some(v) => json::json_views(v@),
        None => Seq::empty(),
    };
    let mut out: Vec<i64> = Vec::new();
    out.push(500_000_000);
    out.push(500_000_000);
    out.push(500_000_000);
    let mut i: usize = 0;
    proof {
        assert(out@.map_values(|x: i64| x as int) =~= overlaid(views, 0));
    }
    while i < 3
        invariant
            i <= 3,
            out@.len() == 3,
            views == (match a {
                Some(v) => json::json_views(v@),
                None => Seq::empty(),
            }),
            out@.map_values(|x: i64| x as int) == overlaid(views, i as int),
        decreases 3 - i,
    {
        let ghost had = out@.map_values(|x: i64| x as int);
        if let Some(v) = a {
            if i < v.len() {
                proof {
                    assert(views[i as int] == json::json_view(v@[i as int]));
                }
                if let Json::Num(n) = &v[i] {
                    let t: i64 = n.signed_ticks(1);
                    out.set(i, t);
                    proof {
                        assert(out@.map_values(|x: i64| x as int) =~= had.update(
                            i as int,
                            t as int,
                        ));
                    }
                }
            }
        }
        i = i + 1;
    }
    out
}

impl Preprocess {
    /// Parameters from a parsed config.
    pub fn from_json(config: &Option<Json>) -> (p: Preprocess)
        ensures
            is_preprocess(
                p,
                match *config {
                    Some(c) => Some(c@),
                    None => None,
                },
            ),
    {
        match config {
            None => Preprocess { size: 224, mean: overlay(None), std: overlay(None) },
            Some(c) => {
                let size: u32 = match c.get("size") {
                    Some(s) => match read_whole(s, "height") {
                        Some(n) => (n % 0x1_0000_0000) as u32,
                        None => 224,
                    },
                    None => 224,
                };
                Preprocess {
                    size,
                    mean: overlay(c.get_array("image_mean")),
                    std: overlay(c.get_array("image_std")),
                }
            },
        }
    }

    /// Parameters from the text of a config file, if there is one.
    pub fn from_text(config: Option<&str>) -> (p: Preprocess)
        ensures
            is_preprocess(
                p,
                match config {
                    Some(t) => json::json_parsed(t@),
                    None => None,
                },
            ),
    {
        let parsed = match config {
            Some(t) => json::parse(t),
            None => None,
        };
        Preprocess::from_json(&parsed)
    }
}

/// Text sequence length of the image-text model.
pub const TEXT_LEN: usize = 64;

/// Pad token id of the image-text model.
pub const PAD_ID: i64 = 1;

/// Longest input of the text model, in tokens.
pub const MAX_LEN: usize = 512;

/// Token ids as the image-text model takes them: at most 63, an end token, and padding.
pub open spec fn padded(ids: Seq<u32>) -> Seq<i64> {
    Seq::new(
        64,
        |i: int|
            if i < ids.len() && i < 63 {
                ids[i] as i64
            } else {
                1
            },
    )
}

/// Cuts token ids to the model's length, ends them, and pads them.
pub fn pad_ids(ids: &Vec<u32>) -> (r: Vec<i64>)
    ensures
        r@ == padded(ids@),
{
    let n: usize = ids.len();
    let mut out: Vec<i64> = Vec::new();
    let mut i: usize = 0;
    while i < 64
        invariant
            i <= 64,
            n == ids@.len(),
            out@.len() == i,
            forall|k: int| 0 <= k < i ==> #[trigger] out@[k] == padded(ids@)[k],
        decreases 64 - i,
    {
        if i < n && i < 63 {
            out.push(ids[i] as i64);
        } else {
            out.push(PAD_ID);
        }
        i = i + 1;
    }
    proof {
        assert(out@ =~= padded(ids@));
    }
    out
}

/// `tokenizers::Tokenizer`.
#[verifier::external_type_specification]
#[verifier::external_body]
pub struct ExTokenizer(tokenizers::Tokenizer);

/// All that a tokenizer can give for a text. It is a set because a tokenizer with dropout leaves
/// the choice to chance.
pub uninterp spec fn token_ids(tok: tokenizers::Tokenizer, text: Seq<char>) -> Set<Seq<u32>>;

/// All that a tokenizer can say when it fails on a text.
pub uninterp spec fn token_errors(tok: tokenizers::Tokenizer, text: Seq<char>) -> Set<Seq<char>>;

/// All that a tokenizer can give for a batch of texts, whose rows it may pad to one length.
pub uninterp spec fn token_rows(
    tok: tokenizers::Tokenizer,
    texts: Seq<Seq<char>>,
) -> Set<Seq<Seq<u32>>>;

/// All that a tokenizer can say when it fails on a batch of texts.
pub uninterp spec fn row_errors(
    tok: tokenizers::Tokenizer,
    texts: Seq<Seq<char>>,
) -> Set<Seq<char>>;

/// The greatest length and the stride to which a tokenizer cuts what it gives, if it cuts.
pub uninterp spec fn truncation_of(tok: tokenizers::Tokenizer) -> Option<(usize, usize)>;

/// How many special tokens a tokenizer adds to one text.
pub uninterp spec fn added_of(tok: tokenizers::Tokenizer) -> usize;

/// The fixed length to which a tokenizer pads, and the number whose multiple the length becomes.
pub uninterp spec fn padding_of(tok: tokenizers::Tokenizer) -> (Option<usize>, Option<usize>);

/// A tokenizer's normalizer as JSON, `null` where it has none.
pub uninterp spec fn normalizer_of(tok: tokenizers::Tokenizer) -> Option<JsonView>;

/// A tokenizer's pre-tokenizer as JSON, `null` where it has none.
pub uninterp spec fn splitter_of(tok: tokenizers::Tokenizer) -> Option<JsonView>;

/// A tokenizer's post-processor as JSON, `null` where it has none.
pub uninterp spec fn processor_of(tok: tokenizers::Tokenizer) -> Option<JsonView>;

/// The words that were added to a tokenizer's vocabulary, each with whether it takes white space
/// before it and behind it along.
pub uninterp spec fn extra_words(tok: tokenizers::Tokenizer) -> Set<(Seq<char>, bool, bool)>;

/// The words that a tokenizer looks for in a text before its model sees it.
pub uninterp spec fn sought_words(tok: tokenizers::Tokenizer) -> Set<Seq<char>>;

/// What a tokenizer's normalizer makes of a text, if it does not fail.
pub uninterp spec fn normal_form(tok: tokenizers::Tokenizer, text: Seq<char>) -> Option<Seq<char>>;

/// A tokenizer that looks for each of its added words once, as its own normalizer leaves it, as a
/// tokenizer does that was written and read twice and not changed since.
pub uninterp spec fn is_settled(tok: tokenizers::Tokenizer) -> bool;

/// The tokenizer that comes back when a tokenizer is written as text and read again, twice, if it
/// can be.
pub uninterp spec fn read_back(tok: tokenizers::Tokenizer) -> Option<tokenizers::Tokenizer>;

/// A tokenizer that leaves something to chance.
pub uninterp spec fn is_random(tok: tokenizers::Tokenizer) -> bool;

/// How many tokens a tokenizer that leaves nothing to chance finds in a text, before it cuts, adds
/// or pads anything; none where it fails.
pub uninterp spec fn token_count(tok: tokenizers::Tokenizer, text: Seq<char>) -> Option<usize>;

/// The longest padding that a tokenizer may ask for: of what can be addressed, a part small enough
/// for a list of that many entries.
pub const MAX_PADDING: usize = usize::MAX / 128;

/// Cutting to a length less the special tokens works: they fit, and unless nothing else is kept
/// the stride is smaller than what is kept.
pub open spec fn cuts_soundly(truncation: Option<(usize, usize)>, added: int) -> bool {
    match truncation {
        Some((max, stride)) => added <= max && (added == max || stride < max - added),
        None => true,
    }
}

/// The padding stays within [`MAX_PADDING`].
pub open spec fn pads_soundly(padding: (Option<usize>, Option<usize>)) -> bool {
    (padding.0 matches Some(n) ==> n <= MAX_PADDING) && (padding.1 matches Some(n) ==> n
        <= MAX_PADDING)
}

/// A tokenizer whose normalizer can run on every text.
pub open spec fn is_normalizing(tok: tokenizers::Tokenizer) -> bool {
    normalizer_of(tok) matches Some(v) && parts::normalizes(v)
}

/// A text of white space alone.
pub open spec fn is_blank(s: Seq<char>) -> bool {
    forall|i: int| 0 <= i < s.len() ==> text::whitespace(#[trigger] s[i])
}

/// An added word that white space behind another one can swallow: it takes white space before it
/// along, and is nothing else itself.
pub open spec fn is_hollow(tok: tokenizers::Tokenizer, w: (Seq<char>, bool, bool)) -> bool {
    w.1 && (is_blank(w.0) || (normal_form(tok, w.0) matches Some(t) && is_blank(t)))
}

/// An added word reads like this.
pub open spec fn reads(w: (Seq<char>, bool, bool), t: Seq<char>) -> bool {
    w.0 == t
}

/// A word is known as an added word.
pub open spec fn is_known(tok: tokenizers::Tokenizer, t: Seq<char>) -> bool {
    exists|w: (Seq<char>, bool, bool)| extra_words(tok).contains(w) && #[trigger] reads(w, t)
}

/// Every word that is looked for is known as an added word.
pub open spec fn knows_words(tok: tokenizers::Tokenizer) -> bool {
    forall|t: Seq<char>| #[trigger] sought_words(tok).contains(t) ==> is_known(tok, t)
}

/// The added words can be found: the normalizer leaves something of each, and none can be
/// swallowed by white space that another one takes along.
pub open spec fn keeps_words(tok: tokenizers::Tokenizer) -> bool {
    &&& forall|w: (Seq<char>, bool, bool)| #[trigger]
        extra_words(tok).contains(w) ==> (normal_form(tok, w.0) matches Some(t) && t.len() > 0)
    &&& forall|a: (Seq<char>, bool, bool), b: (Seq<char>, bool, bool)|
        #![trigger extra_words(tok).contains(a), extra_words(tok).contains(b)]
        extra_words(tok).contains(a) && extra_words(tok).contains(b) && a.2 ==> !is_hollow(tok, b)
}

/// A tokenizer whose post-processor can run on one text, with special tokens or without.
pub open spec fn is_processing(tok: tokenizers::Tokenizer, special: bool) -> bool {
    processor_of(tok) matches Some(v) && parts::processes(v, special)
}

/// A tokenizer whose parts can normalize, split, process and pad every text.
pub open spec fn is_sound(tok: tokenizers::Tokenizer) -> bool {
    &&& is_normalizing(tok)
    &&& knows_words(tok)
    &&& keeps_words(tok)
    &&& splitter_of(tok) matches Some(v) && parts::splits(v)
    &&& is_processing(tok, false)
    &&& pads_soundly(padding_of(tok))
}

/// The special tokens that a tokenizer adds to a text, if it adds any.
pub open spec fn taken(tok: tokenizers::Tokenizer, special: bool) -> int {
    if special {
        added_of(tok) as int
    } else {
        0
    }
}

/// A text is short enough not to be cut.
pub open spec fn is_short(tok: tokenizers::Tokenizer, text: Seq<char>, special: bool) -> bool {
    !is_random(tok) && match (truncation_of(tok), token_count(tok, text)) {
        (Some((max, _)), Some(n)) => n + taken(tok, special) <= max,
        _ => true,
    }
}

/// A tokenizer that can put a text into tokens: its parts are sound, and it can cut every text or
/// has not to cut this one.
pub open spec fn handles(tok: tokenizers::Tokenizer, text: Seq<char>, special: bool) -> bool {
    is_sound(tok) && is_processing(tok, special) && (cuts_soundly(
        truncation_of(tok),
        taken(tok, special),
    ) || is_short(tok, text, special))
}

/// Reads `max_length` and `stride` off `Tokenizer::get_truncation` of the `tokenizers` crate.
///
/// Claimed of it: the settings depend on the tokenizer alone.
#[verifier::external_body]
fn truncation(tok: &tokenizers::Tokenizer) -> (r: Option<(usize, usize)>)
    ensures
        r == truncation_of(*tok),
{
    match tok.get_truncation() {
        Some(t) => Some((t.max_length, t.stride)),
        None => None,
    }
}

/// Calls `PostProcessor::added_tokens` of the `tokenizers` crate on a tokenizer's post-processor,
/// for one text; without a post-processor the tokenizer adds none.
///
/// Claimed of it: the count depends on the tokenizer alone.
#[verifier::external_body]
fn added(tok: &tokenizers::Tokenizer) -> (n: usize)
    ensures
        n == added_of(*tok),
{
    match tok.get_post_processor() {
        Some(p) => tokenizers::PostProcessor::added_tokens(p, false),
        None => 0,
    }
}

/// Reads a fixed length and `pad_to_multiple_of` off `Tokenizer::get_padding` of the `tokenizers`
/// crate.
///
/// Claimed of it: the settings depend on the tokenizer alone.
#[verifier::external_body]
fn padding(tok: &tokenizers::Tokenizer) -> (r: (Option<usize>, Option<usize>))
    ensures
        r == padding_of(*tok),
{
    match tok.get_padding() {
        Some(p) => match p.strategy {
            tokenizers::PaddingStrategy::Fixed(n) => (Some(n), p.pad_to_multiple_of),
            tokenizers::PaddingStrategy::BatchLongest => (None, p.pad_to_multiple_of),
        },
        None => (None, None),
    }
}

/// Calls `serde_json::to_value` on what `Tokenizer::get_normalizer` of the `tokenizers` crate
/// gives.
///
/// Claimed of it: the value depends on the tokenizer alone. How a normalizer is written is
/// not described.
#[verifier::external_body]
fn normalizer(tok: &tokenizers::Tokenizer) -> (r: Option<serde_json::Value>)
    ensures
        match r {
            Some(v) => normalizer_of(*tok) == Some(json::json_content(v)),
            None => normalizer_of(*tok) is None,
        },
{
    serde_json::to_value(tok.get_normalizer()).ok()
}

/// Calls `serde_json::to_value` on what `Tokenizer::get_pre_tokenizer` of the `tokenizers` crate
/// gives.
///
/// Claimed of it: the value depends on the tokenizer alone. How a pre-tokenizer is written is
/// not described.
#[verifier::external_body]
fn splitter(tok: &tokenizers::Tokenizer) -> (r: Option<serde_json::Value>)
    ensures
        match r {
            Some(v) => splitter_of(*tok) == Some(json::json_content(v)),
            None => splitter_of(*tok) is None,
        },
{
    serde_json::to_value(tok.get_pre_tokenizer()).ok()
}

/// Calls `serde_json::to_value` on what `Tokenizer::get_post_processor` of the `tokenizers` crate
/// gives.
///
/// Claimed of it: the value depends on the tokenizer alone. How a post-processor is written is
/// not described.
#[verifier::external_body]
fn processor(tok: &tokenizers::Tokenizer) -> (r: Option<serde_json::Value>)
    ensures
        match r {
            Some(v) => processor_of(*tok) == Some(json::json_content(v)),
            None => processor_of(*tok) is None,
        },
{
    serde_json::to_value(tok.get_post_processor()).ok()
}

/// Added words as mathematics.
pub open spec fn word_views(s: Seq<(String, bool, bool)>) -> Seq<(Seq<char>, bool, bool)> {
    s.map_values(|w: (String, bool, bool)| (w.0@, w.1, w.2))
}

/// Reads `content`, `lstrip` and `rstrip` off what `Tokenizer::get_added_tokens_decoder` of the
/// `tokenizers` crate gives.
///
/// Claimed of it: which words there are depends on the tokenizer alone. Their order does not.
#[verifier::external_body]
fn added_words(tok: &tokenizers::Tokenizer) -> (r: Vec<(String, bool, bool)>)
    ensures
        word_views(r@).to_set() == extra_words(*tok),
{
    tok.get_added_tokens_decoder().into_values().map(|t| (t.content, t.lstrip, t.rstrip)).collect()
}

/// Reads the words off `AddedVocabulary::get_vocab` of the `tokenizers` crate.
///
/// Claimed of it: which words there are depends on the tokenizer alone. Their order does not.
#[verifier::external_body]
fn words_sought(tok: &tokenizers::Tokenizer) -> (r: Vec<String>)
    ensures
        text::strings_of(r@).to_set() == sought_words(*tok),
{
    tok.get_added_vocabulary().get_vocab().keys().cloned().collect()
}

/// Calls `Normalizer::normalize` of the `tokenizers` crate with a tokenizer's normalizer, and
/// gives what it makes of a text; without a normalizer that is the text itself.
///
/// Claimed of it: the result depends on the tokenizer and the text alone. What a normalizer does
/// is not described. It panics with a map of characters that leads out of its trie or points into
/// a character, with a pattern that moves the start of a match behind its end, and where something
/// that stands for no character of a text came before the first, so such a normalizer is left out.
#[verifier::external_body]
fn normalized(tok: &tokenizers::Tokenizer, text: &str) -> (r: Option<String>)
    requires
        is_normalizing(*tok),
    ensures
        match r {
            Some(t) => normal_form(*tok, text@) == Some(t@),
            None => normal_form(*tok, text@) is None,
        },
{
    let mut s = tokenizers::NormalizedString::from(text);
    match tok.get_normalizer() {
        Some(n) => tokenizers::Normalizer::normalize(n, &mut s).ok()?,
        None => (),
    }
    Some(s.get().to_owned())
}

/// Calls `Tokenizer::to_string` of the `tokenizers` crate, reads the text again with `str::parse`,
/// and does both once more.
///
/// Claimed of it: what comes back depends on the tokenizer alone, and it looks for each of its
/// added words once, as its own normalizer leaves it. Words are put through the normalizer when the
/// text is read, which is why a normalizer that can panic is left out here too; and what is
/// written has each word once, which is why the second reading finds it once.
#[verifier::external_body]
fn reread(tok: &tokenizers::Tokenizer) -> (r: Result<tokenizers::Tokenizer, String>)
    requires
        is_normalizing(*tok),
    ensures
        match r {
            Ok(t) => read_back(*tok) == Some(t) && is_settled(t),
            Err(_) => read_back(*tok) is None,
        },
{
    let text = tok.to_string(false).map_err(|e| e.to_string())?;
    let once = text.parse::<tokenizers::Tokenizer>().map_err(|e| e.to_string())?;
    let text = once.to_string(false).map_err(|e| e.to_string())?;
    text.parse::<tokenizers::Tokenizer>().map_err(|e| e.to_string())
}

/// Reads off `ModelWrapper` of the `tokenizers` crate whether a tokenizer's model has a dropout.
///
/// Claimed of it: the answer depends on the tokenizer alone.
#[verifier::external_body]
fn has_dropout(tok: &tokenizers::Tokenizer) -> (b: bool)
    ensures
        b == is_random(*tok),
{
    match tok.get_model() {
        tokenizers::ModelWrapper::BPE(m) => m.dropout.is_some(),
        tokenizers::ModelWrapper::WordPiece(_) => false,
        tokenizers::ModelWrapper::WordLevel(_) => false,
        tokenizers::ModelWrapper::Unigram(_) => false,
    }
}

/// Calls `AddedVocabulary::extract_and_normalize`, `PreTokenizer::pre_tokenize` and
/// `PreTokenizedString::tokenize` of the `tokenizers` crate with a tokenizer's parts, as
/// `Tokenizer::encode` does before it cuts, and counts the tokens.
///
/// Claimed of it: for a tokenizer without dropout the count, or that there is none because one of
/// the calls failed, depends on the tokenizer and the text alone. It panics as [`encode_one`] does
/// before it cuts, so an unsound tokenizer is left out.
#[verifier::external_body]
fn count_tokens(tok: &tokenizers::Tokenizer, text: &str) -> (r: Option<usize>)
    requires
        is_settled(*tok),
        is_sound(*tok),
    ensures
        !is_random(*tok) ==> r == token_count(*tok, text@),
{
    let mut t = tok.get_added_vocabulary().extract_and_normalize(tok.get_normalizer(), text);
    match tok.get_pre_tokenizer() {
        Some(p) => tokenizers::PreTokenizer::pre_tokenize(p, &mut t).ok()?,
        None => (),
    }
    t.tokenize(|n| tokenizers::Model::tokenize(tok.get_model(), n.get())).ok()?;
    Some(t.into_encoding(None, 0, tokenizers::OffsetType::None).ok()?.len())
}

/// Whether a length, a stride and special tokens fit together.
pub fn fits_cut(truncation: Option<(usize, usize)>, added: usize) -> (b: bool)
    ensures
        b == cuts_soundly(truncation, added as int),
{
    match truncation {
        Some((max, stride)) => added <= max && (added == max || stride < max - added),
        None => true,
    }
}

/// Whether a padding stays within its bound.
pub fn fits_padding(padding: (Option<usize>, Option<usize>)) -> (b: bool)
    ensures
        b == pads_soundly(padding),
{
    (match padding.0 {
        Some(n) => n <= MAX_PADDING,
        None => true,
    }) && (match padding.1 {
        Some(n) => n <= MAX_PADDING,
        None => true,
    })
}

fn check_normalizer(tok: &tokenizers::Tokenizer) -> (b: bool)
    ensures
        b == is_normalizing(*tok),
{
    match normalizer(tok) {
        Some(v) => parts::can_normalize(&json::json_of(v)),
        None => false,
    }
}

fn check_processor(tok: &tokenizers::Tokenizer, special: bool) -> (b: bool)
    ensures
        b == is_processing(*tok, special),
{
    match processor(tok) {
        Some(v) => parts::can_process(&json::json_of(v), special),
        None => false,
    }
}

fn check_known(tok: &tokenizers::Tokenizer) -> (b: bool)
    ensures
        b == knows_words(*tok),
{
    let sought = words_sought(tok);
    let words = added_words(tok);
    let ghost ts = text::strings_of(sought@);
    let ghost ws = word_views(words@);
    let mut i: usize = 0;
    while i < sought.len()
        invariant
            i <= sought@.len(),
            ts == text::strings_of(sought@),
            ws == word_views(words@),
            ts.to_set() == sought_words(*tok),
            ws.to_set() == extra_words(*tok),
            forall|k: int| 0 <= k < i ==> is_known(*tok, #[trigger] ts[k]),
        decreases sought@.len() - i,
    {
        let ghost t = ts[i as int];
        let mut known: bool = false;
        let mut j: usize = 0;
        proof {
            assert(t == sought@[i as int]@);
            assert(ts.to_set().contains(t));
        }
        while j < words.len() && !known
            invariant
                j <= words@.len(),
                i < sought@.len(),
                t == sought@[i as int]@,
                ws == word_views(words@),
                ws.to_set() == extra_words(*tok),
                known ==> is_known(*tok, t),
                !known ==> forall|k: int| 0 <= k < j ==> (#[trigger] ws[k]).0 != t,
            decreases words@.len() - j,
        {
            proof {
                assert(ws[j as int].0 == words@[j as int].0@);
                assert(ws.to_set().contains(ws[j as int]));
            }
            if str_is(words[j].0.as_str(), sought[i].as_str()) {
                known = true;
                proof {
                    assert(reads(ws[j as int], t));
                }
            }
            j = j + 1;
        }
        if !known {
            proof {
                if knows_words(*tok) {
                    let w = choose|w: (Seq<char>, bool, bool)|
                        extra_words(*tok).contains(w) && #[trigger] reads(w, t);
                    assert(ws.to_set().contains(w));
                    let k = choose|k: int| 0 <= k < ws.len() && ws[k] == w;
                    assert(ws[k].0 != t);
                }
            }
            return false;
        }
        i = i + 1;
    }
    proof {
        assert forall|t: Seq<char>| #[trigger] sought_words(*tok).contains(t) implies is_known(
            *tok,
            t,
        ) by {
            assert(ts.to_set().contains(t));
            let k = choose|k: int| 0 <= k < ts.len() && ts[k] == t;
            assert(ts[k] == t);
        }
    }
    true
}

fn blank(s: &str) -> (b: bool)
    ensures
        b == is_blank(s@),
{
    let c = text::chars_of(s);
    let mut i: usize = 0;
    while i < c.len()
        invariant
            i <= c@.len(),
            c@ == s@,
            forall|j: int| 0 <= j < i ==> text::whitespace(#[trigger] s@[j]),
        decreases c@.len() - i,
    {
        if !text::is_whitespace(c[i]) {
            return false;
        }
        i = i + 1;
    }
    true
}

fn check_words(tok: &tokenizers::Tokenizer) -> (b: bool)
    requires
        is_normalizing(*tok),
    ensures
        b == keeps_words(*tok),
{
    let words = added_words(tok);
    let ghost ws = word_views(words@);
    let mut takes: bool = false;
    let mut hollow: bool = false;
    let mut i: usize = 0;
    while i < words.len()
        invariant
            i <= words@.len(),
            is_normalizing(*tok),
            ws == word_views(words@),
            ws.to_set() == extra_words(*tok),
            forall|j: int|
                0 <= j < i ==> (normal_form(*tok, (#[trigger] ws[j]).0) matches Some(t) && t.len()
                    > 0),
            takes == exists|j: int| 0 <= j < i && (#[trigger] ws[j]).2,
            hollow == exists|j: int| 0 <= j < i && is_hollow(*tok, #[trigger] ws[j]),
        decreases words@.len() - i,
    {
        let w = &words[i];
        proof {
            assert(ws[i as int] == (w.0@, w.1, w.2));
            assert(ws.to_set().contains(ws[i as int]));
        }
        let form = normalized(tok, w.0.as_str());
        let t = match form {
            Some(t) => t,
            None => return false,
        };
        if text::chars_of(t.as_str()).len() == 0 {
            return false;
        }
        if w.2 {
            takes = true;
        }
        if w.1 && (blank(w.0.as_str()) || blank(t.as_str())) {
            hollow = true;
        }
        i = i + 1;
    }
    proof {
        lemma_words(*tok, ws, takes, hollow);
    }
    !(takes && hollow)
}

proof fn lemma_words(
    tok: tokenizers::Tokenizer,
    ws: Seq<(Seq<char>, bool, bool)>,
    takes: bool,
    hollow: bool,
)
    requires
        ws.to_set() == extra_words(tok),
        forall|j: int|
            0 <= j < ws.len() ==> (normal_form(tok, (#[trigger] ws[j]).0) matches Some(t) && t.len()
                > 0),
        takes == exists|j: int| 0 <= j < ws.len() && (#[trigger] ws[j]).2,
        hollow == exists|j: int| 0 <= j < ws.len() && is_hollow(tok, #[trigger] ws[j]),
    ensures
        keeps_words(tok) == !(takes && hollow),
{
    assert forall|w: (Seq<char>, bool, bool)| #[trigger] extra_words(tok).contains(w) implies exists|
        j: int,
    | 0 <= j < ws.len() && #[trigger] ws[j] == w by {
        assert(ws.to_set().contains(w));
    }
    assert forall|j: int| 0 <= j < ws.len() implies extra_words(tok).contains(#[trigger] ws[j]) by {
        assert(ws.to_set().contains(ws[j]));
    }
    if takes && hollow {
        let a = choose|j: int| 0 <= j < ws.len() && (#[trigger] ws[j]).2;
        let b = choose|j: int| 0 <= j < ws.len() && is_hollow(tok, #[trigger] ws[j]);
        assert(extra_words(tok).contains(ws[a]) && extra_words(tok).contains(ws[b]));
    }
}

/// Whether the parts of a tokenizer can normalize, split, process and pad every text.
pub fn check_tokenizer(tok: &tokenizers::Tokenizer) -> (b: bool)
    ensures
        b == is_sound(*tok),
{
    let splits = match splitter(tok) {
        Some(v) => parts::can_split(&json::json_of(v)),
        None => false,
    };
    check_normalizer(tok) && check_known(tok) && check_words(tok) && splits && check_processor(tok, false)
        && fits_padding(padding(tok))
}

/// Whether so many tokens and special tokens need not be cut.
pub fn stays_whole(truncation: Option<(usize, usize)>, count: Option<usize>, added: usize) -> (b:
    bool)
    ensures
        b == match (truncation, count) {
            (Some((max, _)), Some(n)) => n + added <= max,
            _ => true,
        },
{
    match (truncation, count) {
        (Some((max, _)), Some(n)) => n <= max && added <= max - n,
        _ => true,
    }
}

/// Whether a sound tokenizer can put a text into tokens.
fn check_text(tok: &tokenizers::Tokenizer, text: &str, added: usize) -> (b: bool)
    requires
        is_settled(*tok),
        is_sound(*tok),
    ensures
        b == (cuts_soundly(truncation_of(*tok), added as int) || (!is_random(*tok) && match (
            truncation_of(*tok),
            token_count(*tok, text@),
        ) {
            (Some((max, _)), Some(n)) => n + added <= max,
            _ => true,
        })),
{
    fits_cut(truncation(tok), added) || (!has_dropout(tok) && stays_whole(
        truncation(tok),
        count_tokens(tok, text),
        added,
    ))
}

/// A tokenizer that was found sound.
pub struct TextTokenizer {
    tok: tokenizers::Tokenizer,
    special: bool,
}

impl TextTokenizer {
    #[verifier::type_invariant]
    spec fn inv(self) -> bool {
        is_settled(self.tok) && is_sound(self.tok) && self.special == is_processing(self.tok, true)
    }

    /// The tokenizer inside.
    pub closed spec fn inner(self) -> tokenizers::Tokenizer {
        self.tok
    }

    /// Takes a tokenizer, as it comes back from its own text, unless it is unsound.
    pub fn new(tok: tokenizers::Tokenizer) -> (r: Result<TextTokenizer, PerceiveError>)
        ensures
            match r {
                Ok(t) => is_normalizing(tok) && read_back(tok) == Some(t.inner()) && is_sound(
                    t.inner(),
                ),
                Err(e) => if !is_normalizing(tok) {
                    token_error(e, unsound_text())
                } else {
                    match read_back(tok) {
                        Some(t) => !is_sound(t) && token_error(e, unsound_text()),
                        None => exists|m: Seq<char>| #[trigger] token_error(e, m),
                    }
                },
            },
    {
        if !check_normalizer(&tok) {
            return Err(unsound());
        }
        match reread(&tok) {
            Ok(t) => {
                if !check_tokenizer(&t) {
                    return Err(unsound());
                }
                let special = check_processor(&t, true);
                Ok(TextTokenizer { tok: t, special })
            },
            Err(m) => {
                let e = PerceiveError::Onnx(prefixed("tokenizer: ", &m));
                proof {
                    assert(token_error(e, m@));
                }
                Err(e)
            },
        }
    }
}

/// Rows of ids.
pub open spec fn id_rows(rows: Seq<Vec<u32>>) -> Seq<Seq<u32>> {
    rows.map_values(|row: Vec<u32>| row@)
}

/// Calls `Tokenizer::encode` of the `tokenizers` crate on one text, without special tokens, and
/// hands out the ids, or the error's text.
///
/// Claimed of it: what can come out, and what it can say when it fails, depend on the tokenizer
/// and the text alone. Which ids a vocabulary gives is not described, nor when there is an error.
/// It panics where the parts are unsound: the normalizer as said at [`normalized`], an added word
/// of which no text is left or that white space behind another can swallow, a pattern that moves
/// the start of a match behind its end, pieces of length zero, a template that asks for a second text or
/// follows another, a padding that cannot be addressed, or a text that has to be cut with a stride
/// not smaller than the length. Such a tokenizer, or such a text, is left out.
#[verifier::external_body]
fn encode_one(tok: &tokenizers::Tokenizer, text: &str) -> (r: Result<Vec<u32>, String>)
    requires
        is_settled(*tok),
        handles(*tok, text@, false),
    ensures
        match r {
            Ok(v) => token_ids(*tok, text@).contains(v@),
            Err(m) => token_errors(*tok, text@).contains(m@),
        },
{
    match tok.encode(text, false) {
        Ok(e) => Ok(e.get_ids().to_vec()),
        Err(e) => Err(e.to_string()),
    }
}

/// Calls `Tokenizer::encode_batch` of the `tokenizers` crate on texts, with special tokens, and
/// hands out the ids of each, or the error's text.
///
/// Claimed of it: every text gets its row, in order, and what can come out, and what it can say
/// when it fails, depend on the tokenizer and the texts alone. Which ids a vocabulary gives is not
/// described, nor when there is an error. It panics as [`encode_one`] does, and also where a
/// template asks for a special token that it does not explain, or the special tokens exceed the
/// length to cut to. Such a tokenizer, or such a text, is left out.
#[verifier::external_body]
fn encode_all(tok: &tokenizers::Tokenizer, texts: Vec<String>) -> (r: Result<
    Vec<Vec<u32>>,
    String,
>)
    requires
        is_settled(*tok),
        is_processing(*tok, true),
        forall|i: int| 0 <= i < texts@.len() ==> handles(*tok, (#[trigger] texts@[i])@, true),
    ensures
        r matches Ok(v) ==> v@.len() == texts@.len(),
        match r {
            Ok(v) => token_rows(*tok, text::strings_of(texts@)).contains(id_rows(v@)),
            Err(m) => row_errors(*tok, text::strings_of(texts@)).contains(m@),
        },
{
    match tok.encode_batch(texts, true) {
        Ok(v) => Ok(v.iter().map(|e| e.get_ids().to_vec()).collect()),
        Err(e) => Err(e.to_string()),
    }
}

/// An error of a tokenizer.
pub open spec fn token_error(e: PerceiveError, m: Seq<char>) -> bool {
    e matches PerceiveError::Onnx(t) && t@ == "tokenizer: "@ + m
}

/// What is said of a tokenizer that cannot handle every text.
pub open spec fn unsound_text() -> Seq<char> {
    "its settings do not fit together"@
}

fn unsound() -> (e: PerceiveError)
    ensures
        token_error(e, unsound_text()),
{
    let m = "its settings do not fit together".to_owned();
    PerceiveError::Onnx(prefixed("tokenizer: ", &m))
}

/// What is made of a tokenizer's answer on one text.
pub fn take_ids(answer: Result<Vec<u32>, String>) -> (r: Result<Vec<i64>, PerceiveError>)
    ensures
        match answer {
            Ok(ids) => r matches Ok(v) && v@ == padded(ids@),
            Err(m) => r matches Err(e) && token_error(e, m@),
        },
{
    match answer {
        Ok(ids) => Ok(pad_ids(&ids)),
        Err(m) => Err(PerceiveError::Onnx(prefixed("tokenizer: ", &m))),
    }
}

/// Token ids of a text in lower case, padded to [`TEXT_LEN`]. A text that has to be cut is refused
/// where the tokenizer cannot cut every text.
pub fn tokenize(tok: &TextTokenizer, s: &str) -> (r: Result<Vec<i64>, PerceiveError>)
    ensures
        !handles(tok.inner(), text::lower_text(s@), false) ==> (r matches Err(e) && token_error(
            e,
            unsound_text(),
        )),
        handles(tok.inner(), text::lower_text(s@), false) ==> match r {
            Ok(v) => exists|ids: Seq<u32>|
                token_ids(tok.inner(), text::lower_text(s@)).contains(ids) && v@
                    == #[trigger] padded(ids),
            Err(e) => exists|m: Seq<char>|
                token_errors(tok.inner(), text::lower_text(s@)).contains(m)
                    && #[trigger] token_error(e, m),
        },
{
    proof {
        use_type_invariant(tok);
    }
    let low = lowercase(s);
    if !check_text(&tok.tok, low.as_str(), 0) {
        return Err(unsound());
    }
    let answer = encode_one(&tok.tok, low.as_str());
    let ghost ids = answer->Ok_0@;
    let ghost m = answer->Err_0@;
    let r = take_ids(answer);
    proof {
        if r is Ok {
            assert(r->Ok_0@ == padded(ids));
        } else {
            assert(token_error(r->Err_0, m));
        }
    }
    r
}

/// The longest of the first `n` rows.
pub open spec fn longest(rows: Seq<Vec<u32>>, n: int) -> int
    decreases n,
{
    if n <= 0 {
        0
    } else if longest(rows, n - 1) < rows[n - 1]@.len() {
        rows[n - 1]@.len() as int
    } else {
        longest(rows, n - 1)
    }
}

/// How long the rows of a batch are: as the longest, from 1 to 512.
pub open spec fn row_length(rows: Seq<Vec<u32>>) -> int {
    let n = longest(rows, rows.len() as int);
    if n < 1 {
        1
    } else if n > 512 {
        512
    } else {
        n
    }
}

/// A batch of token ids with a mask of those that count.
#[derive(Debug)]
pub struct TokenBatch {
    /// Rows.
    pub rows: usize,
    /// Ids per row.
    pub len: usize,
    /// Ids, row by row; zero where a row is shorter.
    pub ids: Vec<i64>,
    /// One for each id that counts.
    pub mask: Vec<i64>,
}

/// The batch of rows of token ids.
pub open spec fn is_token_batch(b: TokenBatch, rows: Seq<Vec<u32>>) -> bool {
    let len = row_length(rows);
    &&& b.rows == rows.len()
    &&& b.len == len
    &&& b.ids@.len() == rows.len() * len
    &&& b.mask@.len() == rows.len() * len
    &&& forall|k: int|
        #![trigger b.ids@[k]]
        #![trigger b.mask@[k]]
        0 <= k < rows.len() * len ==> {
            let (i, j) = (k / len, k % len);
            if j < rows[i]@.len() {
                b.ids@[k] == rows[i]@[j] && b.mask@[k] == 1
            } else {
                b.ids@[k] == 0 && b.mask@[k] == 0
            }
        }
}

/// Puts rows of token ids into a batch, cut or padded to one length.
pub fn batch_ids(rows: &Vec<Vec<u32>>) -> (b: TokenBatch)
    requires
        rows@.len() * 512 <= usize::MAX,
    ensures
        is_token_batch(b, rows@),
{
    let n: usize = rows.len();
    let mut len: usize = 0;
    let mut i: usize = 0;
    while i < n
        invariant
            i <= n == rows@.len(),
            len == longest(rows@, i as int),
        decreases n - i,
    {
        let m: usize = rows[i].len();
        if len < m {
            len = m;
        }
        i = i + 1;
    }
    if len < 1 {
        len = 1;
    }
    if len > 512 {
        len = 512;
    }
    proof {
        assert(n * len <= n * 512) by (nonlinear_arith)
            requires
                len <= 512,
                0 <= n,
        ;
    }
    let total: usize = n * len;
    let mut ids: Vec<i64> = Vec::new();
    let mut mask: Vec<i64> = Vec::new();
    let mut k: usize = 0;
    while k < total
        invariant
            k <= total == n * len,
            n == rows@.len(),
            len == row_length(rows@),
            1 <= len <= 512,
            ids@.len() == k,
            mask@.len() == k,
            forall|x: int|
                #![trigger ids@[x]]
                #![trigger mask@[x]]
                0 <= x < k ==> {
                    let (i, j) = (x / len as int, x % len as int);
                    if j < rows@[i]@.len() {
                        ids@[x] == rows@[i]@[j] && mask@[x] == 1
                    } else {
                        ids@[x] == 0 && mask@[x] == 0
                    }
                },
        decreases total - k,
    {
        proof {
            let (kk, l, m) = (k as int, len as int, n as int);
            assert(0 <= kk / l < m) by (nonlinear_arith)
                requires
                    0 <= kk < m * l,
                    l > 0,
            ;
        }
        let i: usize = k / len;
        let j: usize = k % len;
        let row = &rows[i];
        if j < row.len() {
            ids.push(row[j] as i64);
            mask.push(1);
        } else {
            ids.push(0);
            mask.push(0);
        }
        k = k + 1;
    }
    TokenBatch { rows: n, len, ids, mask }
}

/// What is made of a tokenizer's answer on a batch of texts.
pub fn take_batch(answer: Result<Vec<Vec<u32>>, String>) -> (r: Result<TokenBatch, PerceiveError>)
    requires
        answer matches Ok(v) ==> v@.len() * 512 <= usize::MAX,
    ensures
        match answer {
            Ok(rows) => r matches Ok(b) && is_token_batch(b, rows@),
            Err(m) => r matches Err(e) && token_error(e, m@),
        },
{
    match answer {
        Ok(rows) => Ok(batch_ids(&rows)),
        Err(m) => Err(PerceiveError::Onnx(prefixed("tokenizer: ", &m))),
    }
}

/// Every text of a batch can be put into tokens, with special tokens.
pub open spec fn handles_all(tok: tokenizers::Tokenizer, texts: Seq<Seq<char>>) -> bool {
    is_processing(tok, true) && forall|i: int|
        0 <= i < texts.len() ==> handles(tok, #[trigger] texts[i], true)
}

/// The batch of token ids of texts. A tokenizer that cannot put in its special tokens is refused,
/// and so is a batch with a text that has to be cut where the tokenizer cannot cut every text.
pub fn tokenize_batch(tok: &TextTokenizer, texts: Vec<String>) -> (r: Result<
    TokenBatch,
    PerceiveError,
>)
    requires
        texts@.len() * 512 <= usize::MAX,
    ensures
        !handles_all(tok.inner(), text::strings_of(texts@)) ==> (r matches Err(e) && token_error(
            e,
            unsound_text(),
        )),
        handles_all(tok.inner(), text::strings_of(texts@)) ==> match r {
            Ok(b) => exists|rows: Seq<Vec<u32>>|
                rows.len() == texts@.len() && token_rows(
                    tok.inner(),
                    text::strings_of(texts@),
                ).contains(id_rows(rows)) && #[trigger] is_token_batch(b, rows),
            Err(e) => exists|m: Seq<char>|
                row_errors(tok.inner(), text::strings_of(texts@)).contains(m)
                    && #[trigger] token_error(e, m),
        },
{
    proof {
        use_type_invariant(tok);
    }
    if !tok.special {
        return Err(unsound());
    }
    let n: usize = added(&tok.tok);
    let ghost all = text::strings_of(texts@);
    let mut i: usize = 0;
    while i < texts.len()
        invariant
            i <= texts@.len(),
            all == text::strings_of(texts@),
            is_settled(tok.tok),
            is_sound(tok.tok),
            is_processing(tok.tok, true),
            n == added_of(tok.tok),
            forall|j: int| 0 <= j < i ==> handles(tok.tok, #[trigger] all[j], true),
        decreases texts@.len() - i,
    {
        let ok = check_text(&tok.tok, texts[i].as_str(), n);
        proof {
            assert(all[i as int] == texts@[i as int]@);
            assert(ok == handles(tok.tok, all[i as int], true));
        }
        if !ok {
            return Err(unsound());
        }
        i = i + 1;
    }
    proof {
        assert forall|j: int| 0 <= j < texts@.len() implies handles(
            tok.tok,
            (#[trigger] texts@[j])@,
            true,
        ) by {
            assert(all[j] == texts@[j]@);
        }
    }
    let answer = encode_all(&tok.tok, texts);
    let ghost rows = answer->Ok_0@;
    let ghost m = answer->Err_0@;
    let r = take_batch(answer);
    proof {
        if r is Ok {
            assert(is_token_batch(r->Ok_0, rows));
        } else {
            assert(token_error(r->Err_0, m));
        }
    }
    r
}

/// A shape as it is shown: its sizes in brackets.
pub open spec fn shown_sizes(s: Seq<usize>, n: int) -> Seq<char>
    decreases n,
{
    if n <= 0 {
        "["@
    } else if n == 1 {
        "["@ + text::decimal(s[0] as nat)
    } else {
        shown_sizes(s, n - 1) + ", "@ + text::decimal(s[n - 1] as nat)
    }
}

/// The text of a shape.
pub open spec fn shown_shape(s: Seq<usize>) -> Seq<char> {
    shown_sizes(s, s.len() as int) + "]"@
}

/// Shows a shape.
pub fn show_shape(s: &Vec<usize>) -> (r: String)
    ensures
        r@ == shown_shape(s@),
{
    let mut out = "[".to_owned();
    let n: usize = s.len();
    let mut i: usize = 0;
    while i < n
        invariant
            i <= n == s@.len(),
            out@ == shown_sizes(s@, i as int),
        decreases n - i,
    {
        if i > 0 {
            out.append(", ");
        }
        let d = decimal_string(s[i] as u64);
        out.append(d.as_str());
        i = i + 1;
    }
    out.append("]");
    out
}

/// A batch of `n` embeddings of `dim` numbers came back as it should.
pub open spec fn rows_fit(shape: Seq<usize>, count: int, n: int, dim: int) -> bool {
    shape.len() == 2 && shape[0] == n && shape[1] == dim && count == n * dim
}

/// Checks the shape of embeddings: where each of the `n` rows of `dim` numbers lies among
/// `count` numbers.
pub fn split_rows(shape: &Vec<usize>, count: usize, n: usize, dim: usize) -> (r: Result<
    Vec<(usize, usize)>,
    PerceiveError,
>)
    ensures
        r is Ok <==> rows_fit(shape@, count as int, n as int, dim as int),
        r matches Ok(v) ==> v@.len() == n && forall|i: int|
            0 <= i < n ==> (#[trigger] v@[i]).0 == i * dim && v@[i].1 == (i + 1) * dim && v@[i].1
                <= count,
        r matches Err(e) ==> (e matches PerceiveError::Onnx(m) && m@
            == "unexpected embedding output shape "@ + shown_shape(shape@) + " for "@
            + text::decimal(n as nat) + " inputs of "@ + text::decimal(dim as nat) + " dims"@),
{
    let mut fits: bool = shape.len() == 2;
    if fits {
        proof {
            assert(0 <= n * dim <= 0xffff_ffff_ffff_ffff * 0xffff_ffff_ffff_ffff)
                by (nonlinear_arith)
                requires
                    0 <= n <= 0xffff_ffff_ffff_ffff,
                    0 <= dim <= 0xffff_ffff_ffff_ffff,
            ;
        }
        fits = shape[0] == n && shape[1] == dim && (count as u128) == (n as u128) * (dim as u128);
    }
    if !fits {
        let mut m = "unexpected embedding output shape ".to_owned();
        m.append(show_shape(shape).as_str());
        m.append(" for ");
        m.append(decimal_string(n as u64).as_str());
        m.append(" inputs of ");
        m.append(decimal_string(dim as u64).as_str());
        m.append(" dims");
        return Err(PerceiveError::Onnx(m));
    }
    let mut out: Vec<(usize, usize)> = Vec::new();
    let mut i: usize = 0;
    let mut at: usize = 0;
    proof {
        assert(0 * dim as int == 0) by (nonlinear_arith);
    }
    while i < n
        invariant
            i <= n,
            out@.len() == i,
            at == i * dim,
            count == n * dim,
            forall|k: int|
                0 <= k < i ==> (#[trigger] out@[k]).0 == k * dim && out@[k].1 == (k + 1) * dim
                    && out@[k].1 <= count,
        decreases n - i,
    {
        proof {
            assert((i + 1) * dim == i * dim + dim) by (nonlinear_arith);
            assert((i + 1) * dim <= n * dim) by (nonlinear_arith)
                requires
                    i + 1 <= n,
                    0 <= dim,
            ;
        }
        out.push((at, at + dim));
        at = at + dim;
        i = i + 1;
    }
    Ok(out)
}

/// Checks the shape of hidden states and says where the first token of each row lies.
pub fn first_tokens(shape: &Vec<usize>, n: usize, dim: usize) -> (r: Result<
    Vec<usize>,
    PerceiveError,
>)
    requires
        shape@.len() == 3 ==> shape@[0] * (shape@[1] * shape@[2]) <= usize::MAX,
    ensures
        r is Ok <==> shape@.len() == 3 && shape@[0] == n && shape@[2] == dim,
        r matches Ok(v) ==> v@.len() == n && forall|i: int|
            0 <= i < n ==> #[trigger] v@[i] == i * (shape@[1] * dim),
        r matches Err(e) ==> (e matches PerceiveError::Onnx(m) && m@
            == "unexpected hidden state shape "@ + shown_shape(shape@)),
{
    let mut fits: bool = shape.len() == 3;
    if fits {
        fits = shape[0] == n && shape[2] == dim;
    }
    if !fits {
        let mut m = "unexpected hidden state shape ".to_owned();
        m.append(show_shape(shape).as_str());
        return Err(PerceiveError::Onnx(m));
    }
    let ghost step = shape@[1] * dim;
    let mut out: Vec<usize> = Vec::new();
    let mut i: usize = 0;
    let mut at: usize = 0;
    proof {
        assert(0 * step == 0) by (nonlinear_arith);
    }
    while i < n
        invariant
            i <= n,
            n == shape@[0],
            shape@.len() == 3,
            step == shape@[1] * dim,
            n * step <= usize::MAX,
            out@.len() == i,
            i < n ==> at == i * step,
            forall|k: int| 0 <= k < i ==> #[trigger] out@[k] == k * step,
        decreases n - i,
    {
        out.push(at);
        proof {
            let m = n as int;
            let j = i as int;
            assert((j + 1) * step == j * step + step) by (nonlinear_arith);
            if j + 1 < m {
                assert((j + 1) * step <= m * step) by (nonlinear_arith)
                    requires
                        j + 1 <= m,
                        0 <= step,
                ;
            }
            assert(step <= m * step) by (nonlinear_arith)
                requires
                    1 <= m,
                    0 <= step,
            ;
        }
        if i + 1 < n {
            at = at + shape[1] * dim;
        }
        i = i + 1;
    }
    Ok(out)
}

/// Checks that each preprocessed image has its three planes of `size` by `size` numbers.
pub fn check_planes(lens: &Vec<usize>, size: u32) -> (r: Result<(), PerceiveError>)
    ensures
        r is Ok <==> forall|i: int|
            0 <= i < lens@.len() ==> #[trigger] lens@[i] == 3 * size * size,
        r matches Err(e) ==> exists|i: int|
            0 <= i < lens@.len() && #[trigger] lens@[i] != 3 * size * size && (forall|k: int|
                0 <= k < i ==> #[trigger] lens@[k] == 3 * size * size) && (
            e matches PerceiveError::Invalid(m) && m@ == "preprocessed image has "@ + text::decimal(
                lens@[i] as nat,
            ) + " values, expected "@ + text::decimal((3 * size * size) as nat)),
{
    proof {
        assert(0 <= size * size <= 0xffff_ffff * 0xffff_ffff) by (nonlinear_arith)
            requires
                0 <= size <= 0xffff_ffff,
        ;
        assert(3 * size * size == 3 * (size * size)) by (nonlinear_arith);
    }
    let per: u128 = 3 * ((size as u128) * (size as u128));
    let mut i: usize = 0;
    while i < lens.len()
        invariant
            i <= lens@.len(),
            per == 3 * size * size,
            forall|k: int| 0 <= k < i ==> #[trigger] lens@[k] == 3 * size * size,
        decreases lens@.len() - i,
    {
        if lens[i] as u128 != per {
            let mut m = "preprocessed image has ".to_owned();
            m.append(decimal_string(lens[i] as u64).as_str());
            m.append(" values, expected ");
            m.append(wide_decimal(per).as_str());
            return Err(PerceiveError::Invalid(m));
        }
        i = i + 1;
    }
    Ok(())
}

/// A number's decimal text, beyond 64 bits too.
fn wide_decimal(n: u128) -> (s: String)
    ensures
        s@ == text::decimal(n as nat),
    decreases n,
{
    if n < 10 {
        decimal_string(n as u64)
    } else {
        let mut s = wide_decimal(n / 10);
        let last = decimal_string((n % 10) as u64);
        s.append(last.as_str());
        proof {
            assert(text::decimal((n % 10) as nat) =~= seq![text::digit_char((n % 10) as int)]);
        }
        s
    }
}

/// Checks that an image given as raw RGB has all its pixels.
pub fn check_rgb(len: usize, width: u32, height: u32) -> (r: Result<(), ProviderError>)
    ensures
        r is Ok <==> len >= width * height * 3,
        r matches Err(e) ==> (e matches ProviderError::Invalid(m) && m@
            == "RGB buffer too short"@),
{
    proof {
        assert(0 <= width * height <= 0xffff_ffff * 0xffff_ffff) by (nonlinear_arith)
            requires
                0 <= width <= 0xffff_ffff,
                0 <= height <= 0xffff_ffff,
        ;
    }
    if (len as u128) < (width as u128) * (height as u128) * 3 {
        Err(ProviderError::Invalid("RGB buffer too short".to_owned()))
    } else {
        Ok(())
    }
}

/// Asking for any device gives the card where there is one and else the processor, and asking for
/// nothing is asking for any; the card is never given where there is none.
pub proof fn law_devices_are_given_where_they_are(requested: Seq<char>, cuda: bool)
    ensures
        device_for("cpu"@, cuda) == Ok::<Device, Seq<char>>(Device::Cpu),
        device_for("auto"@, true) == device_for("cuda"@, true),
        device_for("auto"@, true) == Ok::<Device, Seq<char>>(Device::Cuda),
        device_for("auto"@, false) == device_for("cpu"@, false),
        device_for(""@, cuda) == device_for("auto"@, cuda),
        device_for("cuda"@, false) is Err,
        device_for(requested, cuda) == Ok::<Device, Seq<char>>(Device::Cuda) ==> cuda,
        device_for(requested, cuda) is Ok ==> requested == "cpu"@ || requested == "cuda"@
            || requested == "auto"@ || requested.len() == 0,
{
    reveal_strlit("cpu");
    reveal_strlit("cuda");
    reveal_strlit("auto");
    reveal_strlit("");
    assert("cpu"@.len() == 3 && "cuda"@.len() == 4 && "auto"@.len() == 4 && ""@.len() == 0);
    assert("cuda"@[0] != "auto"@[0]);
}

/// Half of the threads that run at once are used, and one at least.
pub proof fn law_half_the_threads_are_used(parallel: usize)
    ensures
        half_of(Some(parallel)) >= 1,
        parallel >= 2 ==> 2 * half_of(Some(parallel)) <= parallel <= 2 * half_of(Some(parallel)) + 1,
        half_of(None) == half_of(Some(1)),
{
}

/// A text is given to the model in 64 places: its first 63 tokens as they are, and the mark of the
/// end in every other place, so that one stands at the end of every text.
pub proof fn law_texts_end_with_the_mark(ids: Seq<u32>, more: Seq<u32>)
    ensures
        padded(ids).len() == 64,
        padded(ids).last() == 1,
        forall|i: int| 0 <= i < ids.len() && i < 63 ==> #[trigger] padded(ids)[i] == ids[i],
        forall|i: int| ids.len() <= i < 64 ==> #[trigger] padded(ids)[i] == 1,
        ids.len() >= 63 ==> padded(ids + more) == padded(ids),
        padded(ids.push(1)) == padded(ids),
{
    if ids.len() >= 63 {
        assert(padded(ids + more) =~= padded(ids));
    }
    assert(padded(ids.push(1)) =~= padded(ids));
}

/// Of three values, those that the list gives as numbers are taken from it, and the others are
/// one half.
pub proof fn law_missing_values_are_one_half(a: Seq<json::JsonView>, n: int)
    requires
        0 <= n <= 3,
    ensures
        overlaid(a, n).len() == 3,
        forall|k: int|
            0 <= k < 3 && (k >= n || k >= a.len() || !(a[k] is Num)) ==> #[trigger] overlaid(a, n)[k]
                * 2 == 1_000_000_000,
        forall|k: int|
            0 <= k < n && k < a.len() && a[k] is Num ==> #[trigger] overlaid(a, n)[k]
                == json::signed_ticks(json::signed_nanos(a[k]->Num_0, a[k]->Num_1), 1),
    decreases n,
{
    if n > 0 {
        law_missing_values_are_one_half(a, n - 1);
    }
}

/// Rows are as long as the longest of the first `n`.
proof fn lemma_longest(rows: Seq<Vec<u32>>, n: int)
    requires
        0 <= n <= rows.len(),
    ensures
        forall|i: int| 0 <= i < n ==> (#[trigger] rows[i])@.len() <= longest(rows, n),
        longest(rows, n) == 0 || exists|i: int|
            0 <= i < n && (#[trigger] rows[i])@.len() == longest(rows, n),
        longest(rows, n) >= 0,
    decreases n,
{
    if n > 0 {
        lemma_longest(rows, n - 1);
    }
}

/// A batch is as wide as its longest row, but no narrower than one token and no wider than 512.
pub proof fn law_batches_are_as_wide_as_their_longest_row(rows: Seq<Vec<u32>>, i: int)
    requires
        0 <= i < rows.len(),
    ensures
        1 <= row_length(rows) <= 512,
        rows[i]@.len() <= 512 ==> rows[i]@.len() <= row_length(rows),
        rows[i]@.len() >= 512 ==> row_length(rows) == 512,
        row_length(rows) > 1 ==> exists|k: int|
            0 <= k < rows.len() && (#[trigger] rows[k])@.len() >= row_length(rows),
{
    lemma_longest(rows, rows.len() as int);
    if row_length(rows) > 1 {
        let k = choose|k: int|
            0 <= k < rows.len() && (#[trigger] rows[k])@.len() == longest(
                rows,
                rows.len() as int,
            );
        assert(rows[k]@.len() >= row_length(rows));
    }
}

/// Row `i` of a batch holds the tokens of text `i` from the left and is masked in, and the rest of
/// it is empty and masked out.
pub proof fn law_batch_rows_hold_their_texts(b: TokenBatch, rows: Seq<Vec<u32>>, i: int, j: int)
    requires
        is_token_batch(b, rows),
        0 <= i < rows.len(),
        0 <= j < b.len,
    ensures
        j < rows[i]@.len() ==> b.ids@[i * b.len + j] == rows[i]@[j] && b.mask@[i * b.len + j] == 1,
        j >= rows[i]@.len() ==> b.ids@[i * b.len + j] == 0 && b.mask@[i * b.len + j] == 0,
{
    let len = b.len as int;
    let k = i * len + j;
    assert(0 <= k < rows.len() * len && k / len == i && k % len == j) by (nonlinear_arith)
        requires
            k == i * len + j,
            0 <= i < rows.len(),
            0 <= j < len,
    ;
    let id = b.ids@[k];
}

} // verus!
