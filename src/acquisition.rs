use vstd::prelude::*;
use crate::decimal::NumberError;
use crate::frame::{sanitize, sanitized};
use crate::histogram::{with_value, Histogram};
use crate::reading::{normalize, normalized, parse_reading, reading_outcome, NormalizationError, Reading};
use crate::series::{Measurement, SeriesBuffer};

verus! {

/// Why a frame gave no measurement.
#[derive(PartialEq, Eq, Structural, Clone, Copy, Debug)]
pub enum FrameError {
    /// The frame could not be rewritten as plain decimal text.
    Normalization(NormalizationError),
    /// The text is not a number.
    Parse(NumberError),
}

/// What one acquisition step hands back for display and logging.
pub struct FrameOutcome {
    /// The normalized text of the frame (empty where normalization failed).
    pub text: String,
    /// The measurement taken, if the frame held one.
    pub measurement: Option<Measurement>,
    /// The reading to append to the log, if any.
    pub log: Option<Reading>,
    /// Why no measurement was taken, if none was.
    pub error: Option<FrameError>,
}

/// The state kept from one frame to the next: the step counter, the histogram and the series.
pub struct Acquisition {
    sequence: u64,
    histogram: Histogram,
    series: SeriesBuffer,
    query_enabled: bool,
    log_enabled: bool,
}

/// One more, but never past the counter's largest value.
pub open spec fn next_sequence(s: u64) -> u64 {
    if s < u64::MAX {
        (s + 1) as u64
    } else {
        s
    }
}

/// The query command sent before each read when querying is on.
pub open spec fn query_bytes() -> Seq<u8> {
    seq![77u8, 69u8, 65u8, 83u8, 63u8, 10u8]
}

/// The bytes of `MEAS?` and a newline.
pub fn query_command() -> (r: Vec<u8>)
    ensures
        r@ == query_bytes(),
{
    let r: Vec<u8> = vec![77u8, 69u8, 65u8, 83u8, 63u8, 10u8];
    assert(r@ == query_bytes());
    r
}

impl Acquisition {
    pub closed spec fn sequence_spec(&self) -> u64 {
        self.sequence
    }

    pub closed spec fn histogram_spec(&self) -> Histogram {
        self.histogram
    }

    pub closed spec fn series_spec(&self) -> SeriesBuffer {
        self.series
    }

    pub closed spec fn query_spec(&self) -> bool {
        self.query_enabled
    }

    pub closed spec fn log_spec(&self) -> bool {
        self.log_enabled
    }

    pub closed spec fn well_formed(&self) -> bool {
        self.histogram.well_formed()
    }

    /// A session before its first frame, with a histogram of `bin_count` bins over
    /// `[min_value, max_value]` and an empty series.
    pub fn new(
        min_value: Reading,
        max_value: Reading,
        bin_count: usize,
        query_enabled: bool,
        log_enabled: bool,
    ) -> (r: Acquisition)
        ensures
            r.well_formed(),
            r.sequence_spec() == 0,
            r.histogram_spec().counts() == Seq::new(bin_count as nat, |i: int| 0u32),
            r.histogram_spec().low() == min_value.units,
            r.histogram_spec().high() == max_value.units,
            r.series_spec().contents() == Seq::<Measurement>::empty(),
            r.query_spec() == query_enabled,
            r.log_spec() == log_enabled,
    {
        Acquisition {
            sequence: 0,
            histogram: Histogram::new(min_value, max_value, bin_count),
            series: SeriesBuffer::new(),
            query_enabled,
            log_enabled,
        }
    }

    /// Whether the query command is to be sent before each read.
    pub fn wants_query(&self) -> (r: bool)
        ensures
            r == self.query_spec(),
    {
        self.query_enabled
    }

    pub fn sequence(&self) -> (r: u64)
        ensures
            r == self.sequence_spec(),
    {
        self.sequence
    }

    pub fn histogram(&self) -> (r: &Histogram)
        ensures
            *r == self.histogram_spec(),
    {
        &self.histogram
    }

    pub fn series(&self) -> (r: &SeriesBuffer)
        ensures
            *r == self.series_spec(),
    {
        &self.series
    }

    /// Handles the bytes that one read gave (all zero after a timeout): counts the step,
    /// sanitizes, normalizes and parses; a reading goes into the histogram and the series, and
    /// to the log where logging is on and it is not zero. A frame that fails changes nothing
    /// but the step counter.
    pub fn process_frame(&mut self, frame: &Vec<u8>) -> (r: FrameOutcome)
        requires
            old(self).well_formed(),
        ensures
            final(self).well_formed(),
            final(self).sequence_spec() == next_sequence(old(self).sequence_spec()),
            final(self).query_spec() == old(self).query_spec(),
            final(self).log_spec() == old(self).log_spec(),
            final(self).histogram_spec().low() == old(self).histogram_spec().low(),
            final(self).histogram_spec().high() == old(self).histogram_spec().high(),
            match normalized(sanitized(frame@)) {
                Err(e) => {
                    &&& r.error == Some(FrameError::Normalization(e))
                    &&& r.text@ == Seq::<char>::empty()
                    &&& r.measurement is None
                    &&& r.log is None
                    &&& final(self).histogram_spec().counts() == old(self).histogram_spec().counts()
                    &&& final(self).series_spec().contents() == old(self).series_spec().contents()
                },
                Ok(t) => {
                    &&& r.text@ == t
                    &&& match reading_outcome(t) {
                        Err(e) => {
                            &&& r.error == Some(FrameError::Parse(e))
                            &&& r.measurement is None
                            &&& r.log is None
                            &&& final(self).histogram_spec().counts() == old(
                                self,
                            ).histogram_spec().counts()
                            &&& final(self).series_spec().contents() == old(
                                self,
                            ).series_spec().contents()
                        },
                        Ok(v) => {
                            let m = Measurement {
                                sequence: final(self).sequence_spec(),
                                value: v,
                            };
                            &&& r.error is None
                            &&& r.measurement == Some(m)
                            &&& r.log == if old(self).log_spec() && v.units != 0 {
                                Some(v)
                            } else {
                                None
                            }
                            &&& final(self).histogram_spec().counts() == with_value(
                                old(self).histogram_spec().counts(),
                                old(self).histogram_spec().low(),
                                old(self).histogram_spec().high(),
                                v.units as int,
                            )
                            &&& final(self).series_spec().contents() == old(
                                self,
                            ).series_spec().contents().push(m)
                        },
                    }
                },
            },
    {
        if self.sequence < u64::MAX {
            self.sequence = self.sequence + 1;
        }
        let clean = sanitize(frame);
        let text = match normalize(&clean) {
            Ok(t) => t,
            Err(e) => {
                return FrameOutcome {
                    text: String::new(),
                    measurement: None,
                    log: None,
                    error: Some(FrameError::Normalization(e)),
                };
            },
        };
        match parse_reading(text.as_str()) {
            Err(e) => FrameOutcome {
                text,
                measurement: None,
                log: None,
                error: Some(FrameError::Parse(e)),
            },
            Ok(v) => {
                self.histogram.add_value(v);
                self.series.append(self.sequence, v);
                let log = if self.log_enabled && !v.is_zero() {
                    Some(v)
                } else {
                    None
                };
                FrameOutcome {
                    text,
                    measurement: Some(Measurement { sequence: self.sequence, value: v }),
                    log,
                    error: None,
                }
            },
        }
    }
}

} // verus!
