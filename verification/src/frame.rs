//! Decoded NV12 frames and decoder errors.

use vstd::prelude::*;

use crate::text::{decimal, push_decimal, push_str};
use vstd::string::StringSliceAdditionalSpecFns;

verus! {

/// A presentation time: whole seconds and the nanoseconds past them.
#[derive(Clone, Copy, Debug, PartialEq, Eq, Structural)]
pub struct FrameTime {
    pub secs: u64,
    pub nanos: u32,
}

/// The whole milliseconds of a time, saturating at `u64::MAX`.
pub open spec fn millis_spec(t: FrameTime) -> nat {
    let ms = t.secs * 1000 + t.nanos / 1_000_000;
    if ms <= u64::MAX {
        ms as nat
    } else {
        u64::MAX as nat
    }
}

/// The whole milliseconds of a time, saturating at `u64::MAX`.
pub fn duration_millis(duration: FrameTime) -> (ms: u64)
    ensures
        ms == millis_spec(duration),
{
    let millis: u128 = (duration.secs as u128) * 1000 + (duration.nanos / 1_000_000) as u128;
    if millis > u64::MAX as u128 {
        u64::MAX
    } else {
        millis as u64
    }
}

/// The luma and interleaved chroma planes of an NV12 frame, with their row
/// strides.
#[derive(Clone, Debug)]
pub struct Nv12Buffer {
    y_stride: usize,
    uv_stride: usize,
    y_plane: Vec<u8>,
    uv_plane: Vec<u8>,
}

impl Nv12Buffer {
    pub closed spec fn spec_y_stride(&self) -> usize {
        self.y_stride
    }

    pub closed spec fn spec_uv_stride(&self) -> usize {
        self.uv_stride
    }

    pub closed spec fn spec_y_plane(&self) -> Seq<u8> {
        self.y_plane@
    }

    pub closed spec fn spec_uv_plane(&self) -> Seq<u8> {
        self.uv_plane@
    }

    /// The row stride of the luma plane.
    pub fn y_stride(&self) -> (r: usize)
        ensures
            r == self.spec_y_stride(),
    {
        self.y_stride
    }

    /// The row stride of the chroma plane.
    pub fn uv_stride(&self) -> (r: usize)
        ensures
            r == self.spec_uv_stride(),
    {
        self.uv_stride
    }

    /// The luma plane.
    pub fn y_plane(&self) -> (r: &[u8])
        ensures
            r@ == self.spec_y_plane(),
    {
        self.y_plane.as_slice()
    }

    /// The interleaved chroma plane.
    pub fn uv_plane(&self) -> (r: &[u8])
        ensures
            r@ == self.spec_uv_plane(),
    {
        self.uv_plane.as_slice()
    }
}

/// The number of chroma rows of an NV12 frame of `height` rows: half, rounded
/// up.
pub fn nv12_uv_rows(height: u32) -> (rows: usize)
    ensures
        rows == (height as nat + 1) / 2,
{
    ((height as u64 + 1) / 2) as usize
}

/// Why a decoder failed.
#[derive(Debug)]
pub enum DecoderError {
    /// The backend is not part of this build.
    Unsupported { backend: &'static str },
    /// The backend reported a failure.
    BackendFailure { backend: &'static str, message: String },
    /// The configuration is invalid.
    Configuration { message: String },
    /// A frame does not hold what its geometry requires.
    InvalidFrame { reason: String },
    /// Reading or writing failed.
    Io(String),
}

/// The message of a decoder error.
pub open spec fn decoder_message(e: DecoderError) -> Seq<char> {
    match e {
        DecoderError::Unsupported { backend } => "backend "@ + backend@ + " is not supported in this build"@,
        DecoderError::BackendFailure { backend, message } => backend@ + " backend failed: "@ + message@,
        DecoderError::Configuration { message } => "configuration error: "@ + message@,
        DecoderError::InvalidFrame { reason } => "invalid frame: "@ + reason@,
        DecoderError::Io(text) => "I/O error: "@ + text@,
    }
}

impl DecoderError {
    /// The message of the error.
    pub fn message(&self) -> (m: String)
        ensures
            m@ == decoder_message(*self),
    {
        let mut m = String::new();
        match self {
            DecoderError::Unsupported { backend } => {
                push_str(&mut m, "backend ");
                push_str(&mut m, backend);
                push_str(&mut m, " is not supported in this build");
            },
            DecoderError::BackendFailure { backend, message } => {
                push_str(&mut m, backend);
                push_str(&mut m, " backend failed: ");
                push_str(&mut m, message.as_str());
            },
            DecoderError::Configuration { message } => {
                push_str(&mut m, "configuration error: ");
                push_str(&mut m, message.as_str());
            },
            DecoderError::InvalidFrame { reason } => {
                push_str(&mut m, "invalid frame: ");
                push_str(&mut m, reason.as_str());
            },
            DecoderError::Io(text) => {
                push_str(&mut m, "I/O error: ");
                push_str(&mut m, text.as_str());
            },
        }
        proof {
            assert(m@ =~= decoder_message(*self));
        }
        m
    }

    /// The error for a backend missing from this build.
    pub fn unsupported(backend: &'static str) -> (e: Self)
        ensures
            e == (DecoderError::Unsupported { backend }),
    {
        DecoderError::Unsupported { backend }
    }

    /// The error for a failure reported by a backend.
    pub fn backend_failure(backend: &'static str, message: String) -> (e: Self)
        ensures
            e == (DecoderError::BackendFailure { backend, message }),
    {
        DecoderError::BackendFailure { backend, message }
    }

    /// The error for an invalid configuration.
    pub fn configuration(message: String) -> (e: Self)
        ensures
            e == (DecoderError::Configuration { message }),
    {
        DecoderError::Configuration { message }
    }
}

/// A decoded NV12 frame: its size, its position in the stream when known,
/// and its planes.
#[derive(Clone, Debug)]
pub struct VideoFrame {
    width: u32,
    height: u32,
    frame_index: Option<u64>,
    timestamp: Option<FrameTime>,
    buffer: Nv12Buffer,
}

/// The reason given for a plane that holds fewer bytes than its geometry
/// requires.
pub open spec fn short_plane_text(plane: Seq<char>, got: nat, expected: nat) -> Seq<char> {
    "insufficient NV12 "@ + plane + " plane bytes: got "@ + decimal(got) + " expected at least "@ + decimal(expected)
}

/// Describes a plane that holds fewer bytes than its geometry requires.
fn short_plane_reason(plane: &str, got: usize, expected: usize) -> (reason: String)
    ensures
        reason@ == short_plane_text(plane@, got as nat, expected as nat),
{
    let mut reason = String::new();
    push_str(&mut reason, "insufficient NV12 ");
    push_str(&mut reason, plane);
    push_str(&mut reason, " plane bytes: got ");
    push_decimal(&mut reason, got as u64);
    push_str(&mut reason, " expected at least ");
    push_decimal(&mut reason, expected as u64);
    proof {
        assert(reason@ =~= short_plane_text(plane@, got as nat, expected as nat));
    }
    reason
}

impl VideoFrame {
    pub closed spec fn spec_width(&self) -> u32 {
        self.width
    }

    pub closed spec fn spec_height(&self) -> u32 {
        self.height
    }

    pub closed spec fn spec_frame_index(&self) -> Option<u64> {
        self.frame_index
    }

    pub closed spec fn spec_timestamp(&self) -> Option<FrameTime> {
        self.timestamp
    }

    pub closed spec fn spec_buffer(&self) -> Nv12Buffer {
        self.buffer
    }

    /// Builds a frame from owned planes, cut to exactly `y_stride * height`
    /// luma bytes and `uv_stride * ceil(height / 2)` chroma bytes; fails
    /// when a size overflows or a plane is shorter than that.
    pub fn from_nv12_owned(
        width: u32,
        height: u32,
        y_stride: usize,
        uv_stride: usize,
        timestamp: Option<FrameTime>,
        y_plane: Vec<u8>,
        uv_plane: Vec<u8>,
    ) -> (r: Result<Self, DecoderError>)
        ensures
            ({
                let y_required = y_stride * height;
                let uv_required = uv_stride * ((height as nat + 1) / 2);
                let ok = y_required <= usize::MAX && uv_required <= usize::MAX && y_plane@.len() >= y_required
                    && uv_plane@.len() >= uv_required;
                &&& ok <==> r is Ok
                &&& r is Err ==> r->Err_0 is InvalidFrame
                &&& y_required > usize::MAX ==> r->Err_0->InvalidFrame_reason@ == "calculated NV12 Y plane length overflowed"@
                &&& y_required <= usize::MAX && uv_required > usize::MAX ==> r->Err_0->InvalidFrame_reason@
                    == "calculated NV12 UV plane length overflowed"@
                &&& y_required <= usize::MAX && uv_required <= usize::MAX && y_plane@.len() < y_required
                    ==> r->Err_0->InvalidFrame_reason@ == short_plane_text("Y"@, y_plane@.len(), y_required as nat)
                &&& y_required <= usize::MAX && uv_required <= usize::MAX && y_plane@.len() >= y_required && uv_plane@.len()
                    < uv_required ==> r->Err_0->InvalidFrame_reason@ == short_plane_text(
                    "UV"@,
                    uv_plane@.len(),
                    uv_required as nat,
                )
                &&& r matches Ok(f) ==> {
                    &&& f.spec_width() == width
                    &&& f.spec_height() == height
                    &&& f.spec_frame_index() == None::<u64>
                    &&& f.spec_timestamp() == timestamp
                    &&& f.spec_buffer().spec_y_stride() == y_stride
                    &&& f.spec_buffer().spec_uv_stride() == uv_stride
                    &&& f.spec_buffer().spec_y_plane() == y_plane@.subrange(0, y_required)
                    &&& f.spec_buffer().spec_uv_plane() == uv_plane@.subrange(0, uv_required)
                }
            }),
    {
        let mut y_plane = y_plane;
        let mut uv_plane = uv_plane;
        let y_required = match y_stride.checked_mul(height as usize) {
            Some(n) => n,
            None => {
                return Err(
                    DecoderError::InvalidFrame { reason: "calculated NV12 Y plane length overflowed".to_owned() },
                );
            },
        };
        let uv_rows = nv12_uv_rows(height);
        let uv_required = match uv_stride.checked_mul(uv_rows) {
            Some(n) => n,
            None => {
                return Err(
                    DecoderError::InvalidFrame { reason: "calculated NV12 UV plane length overflowed".to_owned() },
                );
            },
        };
        if y_plane.len() < y_required {
            return Err(DecoderError::InvalidFrame { reason: short_plane_reason("Y", y_plane.len(), y_required) });
        }
        if uv_plane.len() < uv_required {
            return Err(DecoderError::InvalidFrame { reason: short_plane_reason("UV", uv_plane.len(), uv_required) });
        }
        y_plane.truncate(y_required);
        uv_plane.truncate(uv_required);
        Ok(VideoFrame {
            width,
            height,
            timestamp,
            frame_index: None,
            buffer: Nv12Buffer { y_stride, uv_stride, y_plane, uv_plane },
        })
    }

    /// The width in pixels.
    pub fn width(&self) -> (r: u32)
        ensures
            r == self.spec_width(),
    {
        self.width
    }

    /// The height in pixels.
    pub fn height(&self) -> (r: u32)
        ensures
            r == self.spec_height(),
    {
        self.height
    }

    /// The presentation time, when known.
    pub fn timestamp(&self) -> (r: Option<FrameTime>)
        ensures
            r == self.spec_timestamp(),
    {
        self.timestamp
    }

    /// The index of the frame in its stream, when known.
    pub fn frame_index(&self) -> (r: Option<u64>)
        ensures
            r == self.spec_frame_index(),
    {
        self.frame_index
    }

    /// The planes.
    pub fn nv12(&self) -> (r: &Nv12Buffer)
        ensures
            *r == self.spec_buffer(),
    {
        &self.buffer
    }

    /// The row stride of the luma plane.
    pub fn stride(&self) -> (r: usize)
        ensures
            r == self.spec_buffer().spec_y_stride(),
    {
        self.buffer.y_stride
    }

    /// The luma plane.
    pub fn data(&self) -> (r: &[u8])
        ensures
            r@ == self.spec_buffer().spec_y_plane(),
    {
        self.buffer.y_plane.as_slice()
    }

    /// The row stride of the luma plane.
    pub fn y_stride(&self) -> (r: usize)
        ensures
            r == self.spec_buffer().spec_y_stride(),
    {
        self.buffer.y_stride
    }

    /// The row stride of the chroma plane.
    pub fn uv_stride(&self) -> (r: usize)
        ensures
            r == self.spec_buffer().spec_uv_stride(),
    {
        self.buffer.uv_stride
    }

    /// The luma plane.
    pub fn y_plane(&self) -> (r: &[u8])
        ensures
            r@ == self.spec_buffer().spec_y_plane(),
    {
        self.buffer.y_plane.as_slice()
    }

    /// The interleaved chroma plane.
    pub fn uv_plane(&self) -> (r: &[u8])
        ensures
            r@ == self.spec_buffer().spec_uv_plane(),
    {
        self.buffer.uv_plane.as_slice()
    }

    /// The frame with its index in the stream set to `index`.
    pub fn with_frame_index(self, index: Option<u64>) -> (f: Self)
        ensures
            f.spec_frame_index() == index,
            f.spec_width() == self.spec_width(),
            f.spec_height() == self.spec_height(),
            f.spec_timestamp() == self.spec_timestamp(),
            f.spec_buffer() == self.spec_buffer(),
    {
        let mut f = self;
        f.frame_index = index;
        f
    }

    /// Sets the index of the frame in its stream.
    pub fn set_frame_index(&mut self, index: Option<u64>)
        ensures
            final(self).spec_frame_index() == index,
            final(self).spec_width() == old(self).spec_width(),
            final(self).spec_height() == old(self).spec_height(),
            final(self).spec_timestamp() == old(self).spec_timestamp(),
            final(self).spec_buffer() == old(self).spec_buffer(),
    {
        self.frame_index = index;
    }
}

/// The number that names a frame: its index in the stream, else the whole
/// milliseconds of its presentation time, else 0.
pub fn frame_identifier(frame: &VideoFrame) -> (id: u64)
    ensures
        id == (match frame.spec_frame_index() {
            Some(i) => i as nat,
            None => match frame.spec_timestamp() {
                Some(t) => millis_spec(t),
                None => 0,
            },
        }),
{
    match frame.frame_index() {
        Some(i) => i,
        None => match frame.timestamp() {
            Some(t) => duration_millis(t),
            None => 0,
        },
    }
}

} // verus!
