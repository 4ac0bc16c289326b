//! The detection stage of the frame validator: it keeps one detector for
//! the current frame geometry, detector kind and region of interest, builds
//! a new one when any of them changes, and forgets it when a build fails so
//! that the next frame tries again.

use vstd::prelude::*;

use crate::detector::{
    build_detector, clamped, counters_fit, detection_holds, luma_build, luma_check, plane_need, region_in_roi, unsupported_error, DetectedRegion,
    LumaBandConfig, LumaBandDetector, LumaBandOptions, SubtitleDetectionConfig, SubtitleDetectionError,
    SubtitleDetectorKind,
};
use crate::frame::VideoFrame;
use crate::grid::RoiRect;

verus! {

/// The detection settings of the validator.
#[derive(Clone, Copy, Debug)]
pub struct SubtitleDetectionOptions {
    pub enabled: bool,
    pub detector: SubtitleDetectorKind,
    pub luma_band: LumaBandOptions,
}

/// What a detector is built for: the frame's width, height and row stride,
/// the detector kind, and the region of interest in pixels.
#[derive(Clone, Copy, Debug)]
pub struct DetectorKey {
    pub dims: (usize, usize, usize),
    pub kind: SubtitleDetectorKind,
    pub roi: RoiRect,
}

/// The key of a frame: its geometry with the given kind and region.
pub open spec fn key_of(frame: VideoFrame, kind: SubtitleDetectorKind, roi: RoiRect) -> DetectorKey {
    DetectorKey {
        dims: (frame.spec_width() as usize, frame.spec_height() as usize, frame.spec_buffer().spec_y_stride()),
        kind,
        roi,
    }
}

/// The configuration a detector is built with for a key.
pub open spec fn config_of(key: DetectorKey, options: SubtitleDetectionOptions) -> SubtitleDetectionConfig {
    SubtitleDetectionConfig {
        frame_width: key.dims.0,
        frame_height: key.dims.1,
        stride: key.dims.2,
        roi: key.roi,
        luma_band: LumaBandConfig { target_luma: options.luma_band.target, delta: options.luma_band.delta },
    }
}

/// Building the detector `kind` for `c` fails.
pub open spec fn build_fails(kind: SubtitleDetectorKind, c: SubtitleDetectionConfig) -> bool {
    kind == SubtitleDetectorKind::MacVision || luma_build(c) is Err
}

/// `r` is the error of a failed build of the detector `kind` for `c`.
pub open spec fn build_error<T>(kind: SubtitleDetectorKind, c: SubtitleDetectionConfig, r: Result<T, SubtitleDetectionError>) -> bool {
    if kind == SubtitleDetectorKind::MacVision {
        unsupported_error(r, "macos-vision"@)
    } else {
        r == Err::<T, SubtitleDetectionError>(luma_build(c)->Err_0)
    }
}

/// `r` is what a detector built for `c` (its region already cut to the
/// frame) gives on `plane`: the short-plane error, the error for a region
/// too large for the counters, or regions inside the region of interest
/// that the detection holds for.
pub open spec fn detect_outcome(
    c: SubtitleDetectionConfig,
    plane: Seq<u8>,
    r: Result<Vec<DetectedRegion>, SubtitleDetectionError>,
) -> bool {
    if plane.len() < plane_need(c) {
        r == Err::<Vec<DetectedRegion>, SubtitleDetectionError>(
            SubtitleDetectionError::InsufficientData { data_len: plane.len() as usize, required: plane_need(c) as usize },
        )
    } else if !counters_fit(c.roi) {
        r == Err::<Vec<DetectedRegion>, SubtitleDetectionError>(
            SubtitleDetectionError::RoiTooLarge { width: c.roi.width, height: c.roi.height },
        )
    } else {
        &&& r matches Ok(out)
        &&& detection_holds(c, plane, r->Ok_0@)
        &&& forall|k: int| 0 <= k < r->Ok_0@.len() ==> #[trigger] region_in_roi(c, r->Ok_0@[k])
    }
}

/// Whether the stage failed to build its detector for a frame, and if so
/// whether this is the first failure since the last successful build (the
/// one to report).
#[derive(Clone, Copy, Debug, PartialEq, Eq, Structural)]
pub enum InitReport {
    NoFailure,
    FirstFailure,
    RepeatedFailure,
}

/// The detection stage: its settings, the detector it holds with the key it
/// was built for, and whether a failed build has been reported since the
/// last successful one.
pub struct SubtitleDetectionState {
    options: SubtitleDetectionOptions,
    detector: Option<LumaBandDetector>,
    key: Option<DetectorKey>,
    init_error_logged: bool,
}

impl SubtitleDetectionState {
    pub closed spec fn spec_options(&self) -> SubtitleDetectionOptions {
        self.options
    }

    /// The key of the detector held, if any.
    pub closed spec fn spec_key(&self) -> Option<DetectorKey> {
        self.key
    }

    /// A failed build has been reported since the last successful one.
    pub closed spec fn spec_logged(&self) -> bool {
        self.init_error_logged
    }

    /// A detector is held exactly when a key is, and it was built for that
    /// key.
    pub closed spec fn wf(&self) -> bool {
        match self.detector {
            Some(d) => self.key is Some && d@ == clamped(config_of(self.key->Some_0, self.options)) && d.required()
                == plane_need(d@),
            None => self.key is None,
        }
    }

    /// A stage with no detector yet.
    pub fn new(options: SubtitleDetectionOptions) -> (s: Self)
        ensures
            s.wf(),
            s.spec_options() == options,
            s.spec_key() is None,
            !s.spec_logged(),
    {
        SubtitleDetectionState { options, detector: None, key: None, init_error_logged: false }
    }

    /// Detects text regions in `frame` with the region of interest `roi`
    /// (cut to the frame). A luma-band detector must be buildable for the
    /// frame and region: asked for explicitly, a failing check is the
    /// caller's to rule out.
    /// When the stage is off the result is empty. Otherwise the detector is
    /// rebuilt unless the one held was built for this frame's geometry, the
    /// configured kind and `roi`; a failed build clears the stage and gives
    /// its error, and the second component of the result says whether the
    /// build failed and whether for the first time since the last successful
    /// one.
    pub fn process_frame(&mut self, frame: &VideoFrame, roi: RoiRect) -> (r: (
        Result<Vec<DetectedRegion>, SubtitleDetectionError>,
        InitReport,
    ))
        requires
            old(self).wf(),
            old(self).spec_options().enabled && old(self).spec_options().detector == SubtitleDetectorKind::LumaBand
                ==> luma_check(config_of(key_of(*frame, old(self).spec_options().detector, roi), old(self).spec_options()))
                is Ok,
        ensures
            final(self).wf(),
            final(self).spec_options() == old(self).spec_options(),
            ({
                let opts = old(self).spec_options();
                let key = key_of(*frame, opts.detector, roi);
                let c = config_of(key, opts);
                let cc = clamped(c);
                let plane = frame.spec_buffer().spec_y_plane();
                if !opts.enabled {
                    &&& r.0 matches Ok(out) && out@.len() == 0
                    &&& r.1 == InitReport::NoFailure
                    &&& final(self).spec_key() == old(self).spec_key()
                    &&& final(self).spec_logged() == old(self).spec_logged()
                } else if old(self).spec_key() == Some(key) {
                    &&& detect_outcome(cc, plane, r.0)
                    &&& r.1 == InitReport::NoFailure
                    &&& final(self).spec_key() == old(self).spec_key()
                    &&& final(self).spec_logged() == old(self).spec_logged()
                } else if build_fails(opts.detector, c) {
                    &&& build_error(opts.detector, c, r.0)
                    &&& r.1 == (if old(self).spec_logged() {
                        InitReport::RepeatedFailure
                    } else {
                        InitReport::FirstFailure
                    })
                    &&& final(self).spec_key() is None
                    &&& final(self).spec_logged()
                } else {
                    &&& detect_outcome(cc, plane, r.0)
                    &&& r.1 == InitReport::NoFailure
                    &&& final(self).spec_key() == Some(key)
                    &&& !final(self).spec_logged()
                }
            }),
    {
        if !self.options.enabled {
            return (Ok(Vec::new()), InitReport::NoFailure);
        }
        let key = DetectorKey { dims: (frame.width() as usize, frame.height() as usize, frame.stride()), kind: self.options.detector, roi };
        let rebuild = match self.key {
            Some(k) => !same_key(&k, &key),
            None => true,
        };
        if rebuild {
            let config = SubtitleDetectionConfig {
                frame_width: key.dims.0,
                frame_height: key.dims.1,
                stride: key.dims.2,
                roi,
                luma_band: LumaBandConfig { target_luma: self.options.luma_band.target, delta: self.options.luma_band.delta },
            };
            match build_detector(key.kind, config) {
                Ok(detector) => {
                    self.detector = Some(detector);
                    self.key = Some(key);
                    self.init_error_logged = false;
                },
                Err(err) => {
                    let report = if self.init_error_logged {
                        InitReport::RepeatedFailure
                    } else {
                        InitReport::FirstFailure
                    };
                    self.init_error_logged = true;
                    self.detector = None;
                    self.key = None;
                    return (Err(err), report);
                },
            }
        }
        match &self.detector {
            Some(detector) => (detector.detect(frame.data()), InitReport::NoFailure),
            None => (Ok(Vec::new()), InitReport::NoFailure),
        }
    }

    /// Drops the detector when the stage is on.
    pub fn finalize(&mut self)
        requires
            old(self).wf(),
        ensures
            final(self).wf(),
            final(self).spec_options() == old(self).spec_options(),
            final(self).spec_logged() == old(self).spec_logged(),
            final(self).spec_key() == (if old(self).spec_options().enabled {
                None
            } else {
                old(self).spec_key()
            }),
    {
        if !self.options.enabled {
            return;
        }
        self.detector = None;
        self.key = None;
    }
}

/// Two keys are equal.
fn same_key(a: &DetectorKey, b: &DetectorKey) -> (r: bool)
    ensures
        r == (*a == *b),
{
    a.dims.0 == b.dims.0 && a.dims.1 == b.dims.1 && a.dims.2 == b.dims.2 && a.kind == b.kind && a.roi.x == b.roi.x
        && a.roi.y == b.roi.y && a.roi.width == b.roi.width && a.roi.height == b.roi.height
}

} // verus!
