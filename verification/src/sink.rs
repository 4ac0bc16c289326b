//! Settings, metadata and errors of the frame sink, and the choice of its
//! text detector.

use vstd::prelude::*;
use vstd::string::StringSliceAdditionalSpecFns;

use crate::text::{decimal, push_decimal, push_str};

use crate::frame::FrameTime;

verus! {

/// Default capacity of the frame channel.
pub const DEFAULT_CHANNEL_CAPACITY: usize = 64;
/// Default number of frames processed at once.
pub const DEFAULT_MAX_CONCURRENCY: usize = 16;
/// Default detection samples per second.
pub const DEFAULT_SAMPLES_PER_SECOND: u32 = 7;

/// The encoding of dumped frames.
#[derive(Clone, Copy, Debug, PartialEq, Eq, Structural)]
pub enum ImageOutputFormat {
    Jpeg { quality: u8 },
    Png,
    Webp,
    Yuv,
}

/// Where and how sampled frames are dumped.
#[derive(Clone, Debug)]
pub struct FrameDumpConfig {
    pub directory: String,
    pub format: ImageOutputFormat,
    pub samples_per_second: u32,
}

impl FrameDumpConfig {
    /// Dump settings; at least one sample per second.
    pub fn new(directory: String, format: ImageOutputFormat, samples_per_second: u32) -> (c: Self)
        ensures
            c.directory@ == directory@,
            c.format == format,
            c.samples_per_second == if samples_per_second >= 1 { samples_per_second } else { 1 },
    {
        FrameDumpConfig {
            directory,
            format,
            samples_per_second: if samples_per_second >= 1 { samples_per_second } else { 1 },
        }
    }
}

/// Whether frames are sampled for detection, and how often.
#[derive(Clone, Copy, Debug, PartialEq, Eq, Structural)]
pub struct SubtitleDetectionOptions {
    pub enabled: bool,
    pub samples_per_second: u32,
}

impl Default for SubtitleDetectionOptions {
    fn default() -> (o: Self)
        ensures
            o == (SubtitleDetectionOptions { enabled: true, samples_per_second: DEFAULT_SAMPLES_PER_SECOND }),
    {
        SubtitleDetectionOptions { enabled: true, samples_per_second: DEFAULT_SAMPLES_PER_SECOND }
    }
}

/// The settings of the frame sink.
#[derive(Clone, Debug)]
pub struct FrameSinkConfig {
    pub channel_capacity: usize,
    pub max_concurrency: usize,
    pub dump: Option<FrameDumpConfig>,
    pub detection: SubtitleDetectionOptions,
}

impl Default for FrameSinkConfig {
    fn default() -> (c: Self)
        ensures
            c.channel_capacity == DEFAULT_CHANNEL_CAPACITY,
            c.max_concurrency == DEFAULT_MAX_CONCURRENCY,
            c.dump is None,
            c.detection == (SubtitleDetectionOptions { enabled: true, samples_per_second: DEFAULT_SAMPLES_PER_SECOND }),
    {
        FrameSinkConfig {
            channel_capacity: DEFAULT_CHANNEL_CAPACITY,
            max_concurrency: DEFAULT_MAX_CONCURRENCY,
            dump: None,
            detection: SubtitleDetectionOptions::default(),
        }
    }
}

impl FrameSinkConfig {
    /// The default settings, dumping to `dump_dir` when one is given, and
    /// sampling `samples_per_second` frames (at least one) per second.
    pub fn from_outputs(dump_dir: Option<String>, format: ImageOutputFormat, samples_per_second: u32) -> (c: Self)
        ensures
            c.channel_capacity == DEFAULT_CHANNEL_CAPACITY,
            c.max_concurrency == DEFAULT_MAX_CONCURRENCY,
            c.detection.enabled,
            c.detection.samples_per_second == if samples_per_second >= 1 { samples_per_second } else { 1 },
            dump_dir is None ==> c.dump is None,
            dump_dir matches Some(dir) ==> (c.dump matches Some(d) && d.directory@ == dir@ && d.format == format
                && d.samples_per_second == if samples_per_second >= 1 { samples_per_second } else { 1 }),
    {
        let mut config = FrameSinkConfig::default();
        match dump_dir {
            Some(dir) => {
                config.dump = Some(FrameDumpConfig::new(dir, format, samples_per_second));
            },
            None => {},
        }
        config.detection.samples_per_second = if samples_per_second >= 1 { samples_per_second } else { 1 };
        config
    }
}

/// Where a frame sits in the decoded stream: its decoder index, its
/// position in processing order (from 1), and its presentation time.
#[derive(Clone, Copy, Debug, PartialEq, Eq, Structural)]
pub struct FrameMetadata {
    pub frame_index: u64,
    pub processed_index: u64,
    pub timestamp: Option<FrameTime>,
}

/// Why the frame sink cannot take a frame.
#[derive(Clone, Copy, Debug, PartialEq, Eq, Structural)]
pub enum FrameSinkError {
    Stopped,
}

/// The text detectors the sink can ask for.
#[derive(Clone, Copy, Debug, PartialEq, Eq, Structural)]
pub enum SubtitleDetectorKind {
    Auto,
    OnnxPpocr,
    MacVision,
}

impl SubtitleDetectorKind {
    /// The name of the detector kind.
    pub fn as_str(self) -> (s: &'static str)
        ensures
            s@ == (match self {
                SubtitleDetectorKind::Auto => "auto"@,
                SubtitleDetectorKind::OnnxPpocr => "onnx-ppocr"@,
                SubtitleDetectorKind::MacVision => "macos-vision"@,
            }),
    {
        match self {
            SubtitleDetectorKind::Auto => "auto",
            SubtitleDetectorKind::OnnxPpocr => "onnx-ppocr",
            SubtitleDetectorKind::MacVision => "macos-vision",
        }
    }
}

/// Why a text detector cannot be built or cannot run.
#[derive(Debug)]
pub enum SubtitleDetectionError {
    InsufficientData { data_len: usize, required: usize },
    EmptyRoi,
    Environment(String),
    Session(String),
    ModelNotFound { path: String },
    Input(String),
    Inference(String),
    InvalidOutputShape,
    RuntimeSchemaConflict { message: String },
    Vision(String),
    Unsupported { backend: &'static str },
}

/// The message of a detection error.
pub open spec fn detection_message(e: SubtitleDetectionError) -> Seq<char> {
    match e {
        SubtitleDetectionError::InsufficientData { data_len, required } => "provided plane data length "@ + decimal(
            data_len as nat,
        ) + " is smaller than stride * height ("@ + decimal(required as nat) + ")"@,
        SubtitleDetectionError::EmptyRoi => "region of interest height is zero"@,
        SubtitleDetectionError::Environment(text) => "failed to initialize onnx runtime environment: "@ + text@,
        SubtitleDetectionError::Session(text) => "failed to create inference session: "@ + text@,
        SubtitleDetectionError::ModelNotFound { path } => "model file not found: "@ + path@,
        SubtitleDetectionError::Input(text) => "failed to prepare model input: "@ + text@,
        SubtitleDetectionError::Inference(text) => "model inference failed: "@ + text@,
        SubtitleDetectionError::InvalidOutputShape => "unexpected model output shape"@,
        SubtitleDetectionError::RuntimeSchemaConflict { message } => "onnxruntime schema registration conflict detected. Ensure only one ONNX Runtime version is present and that it matches the crate (suggest reinstalling onnxruntime 1.16.x). Original error: "@
            + message@,
        SubtitleDetectionError::Vision(text) => "vision framework error: "@ + text@,
        SubtitleDetectionError::Unsupported { backend } => backend@ + " detector is not supported on this platform"@,
    }
}

impl SubtitleDetectionError {
    /// The message of the error.
    pub fn message(&self) -> (m: String)
        ensures
            m@ == detection_message(*self),
    {
        let mut m = String::new();
        match self {
            SubtitleDetectionError::InsufficientData { data_len, required } => {
                push_str(&mut m, "provided plane data length ");
                push_decimal(&mut m, *data_len as u64);
                push_str(&mut m, " is smaller than stride * height (");
                push_decimal(&mut m, *required as u64);
                push_str(&mut m, ")");
            },
            SubtitleDetectionError::EmptyRoi => {
                push_str(&mut m, "region of interest height is zero");
            },
            SubtitleDetectionError::Environment(text) => {
                push_str(&mut m, "failed to initialize onnx runtime environment: ");
                push_str(&mut m, text.as_str());
            },
            SubtitleDetectionError::Session(text) => {
                push_str(&mut m, "failed to create inference session: ");
                push_str(&mut m, text.as_str());
            },
            SubtitleDetectionError::ModelNotFound { path } => {
                push_str(&mut m, "model file not found: ");
                push_str(&mut m, path.as_str());
            },
            SubtitleDetectionError::Input(text) => {
                push_str(&mut m, "failed to prepare model input: ");
                push_str(&mut m, text.as_str());
            },
            SubtitleDetectionError::Inference(text) => {
                push_str(&mut m, "model inference failed: ");
                push_str(&mut m, text.as_str());
            },
            SubtitleDetectionError::InvalidOutputShape => {
                push_str(&mut m, "unexpected model output shape");
            },
            SubtitleDetectionError::RuntimeSchemaConflict { message } => {
                push_str(
                    &mut m,
                    "onnxruntime schema registration conflict detected. Ensure only one ONNX Runtime version is present and that it matches the crate (suggest reinstalling onnxruntime 1.16.x). Original error: ",
                );
                push_str(&mut m, message.as_str());
            },
            SubtitleDetectionError::Vision(text) => {
                push_str(&mut m, "vision framework error: ");
                push_str(&mut m, text.as_str());
            },
            SubtitleDetectionError::Unsupported { backend } => {
                push_str(&mut m, backend);
                push_str(&mut m, " detector is not supported on this platform");
            },
        }
        proof {
            assert(m@ =~= detection_message(*self));
        }
        m
    }
}

/// `r` is the error for a backend missing from this build, named `name`.
pub open spec fn unsupported_error<T>(r: Result<T, SubtitleDetectionError>, name: Seq<char>) -> bool {
    r matches Err(SubtitleDetectionError::Unsupported { backend }) && backend@ == name
}

/// The detectors tried, in order, when the automatic choice is asked for.
pub fn auto_backend_priority() -> (kinds: Vec<SubtitleDetectorKind>)
    ensures
        kinds@ == seq![SubtitleDetectorKind::OnnxPpocr],
{
    let mut kinds: Vec<SubtitleDetectorKind> = Vec::new();
    kinds.push(SubtitleDetectorKind::OnnxPpocr);
    kinds
}

/// Checks that the detector `kind` can run: the automatic choice always
/// can; neither the ONNX detector nor the platform text recognizer is part
/// of this build.
pub fn ensure_backend_available(kind: SubtitleDetectorKind) -> (r: Result<(), SubtitleDetectionError>)
    ensures
        kind == SubtitleDetectorKind::Auto ==> r is Ok,
        kind == SubtitleDetectorKind::OnnxPpocr ==> unsupported_error(r, "onnx-ppocr"@),
        kind == SubtitleDetectorKind::MacVision ==> unsupported_error(r, "macos-vision"@),
{
    match kind {
        SubtitleDetectorKind::Auto => Ok(()),
        SubtitleDetectorKind::OnnxPpocr => Err(SubtitleDetectionError::Unsupported { backend: kind.as_str() }),
        SubtitleDetectorKind::MacVision => Err(SubtitleDetectionError::Unsupported { backend: kind.as_str() }),
    }
}

/// Checks that the detector `kind` can run with the model at `model_path`:
/// the automatic choice succeeds as soon as one detector of
/// `auto_backend_priority` can, and otherwise gives the last error.
pub fn preflight_detection(kind: SubtitleDetectorKind, model_path: Option<&str>) -> (r: Result<
    (),
    SubtitleDetectionError,
>)
    ensures
        kind == SubtitleDetectorKind::MacVision ==> unsupported_error(r, "macos-vision"@),
        kind != SubtitleDetectorKind::MacVision ==> unsupported_error(r, "onnx-ppocr"@),
{
    match kind {
        SubtitleDetectorKind::Auto => {
            let priority = auto_backend_priority();
            let mut last_err: Option<SubtitleDetectionError> = None;
            let mut i: usize = 0;
            while i < priority.len()
                invariant
                    priority@ == seq![SubtitleDetectorKind::OnnxPpocr],
                    kind == SubtitleDetectorKind::Auto,
                    i <= 1,
                    i == 0 ==> last_err is None,
                    i == 1 ==> (last_err matches Some(SubtitleDetectionError::Unsupported { backend }) && backend@
                        == "onnx-ppocr"@),
                decreases priority@.len() - i,
            {
                let candidate = priority[i];
                match ensure_backend_available(candidate) {
                    Ok(()) => {
                        return Ok(());
                    },
                    Err(err) => {
                        last_err = Some(err);
                    },
                }
                i += 1;
            }
            match last_err {
                Some(err) => Err(err),
                None => Err(SubtitleDetectionError::Unsupported { backend: SubtitleDetectorKind::Auto.as_str() }),
            }
        },
        SubtitleDetectorKind::OnnxPpocr => ensure_backend_available(SubtitleDetectorKind::OnnxPpocr),
        SubtitleDetectorKind::MacVision => ensure_backend_available(SubtitleDetectorKind::MacVision),
    }
}

} // verus!
