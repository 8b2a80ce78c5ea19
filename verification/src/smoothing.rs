use vstd::prelude::*;

verus! {

/// Builder for the Kaufman adaptive moving average: window size, fast and
/// slow EMA spans, and the number of samples before a value is reported.
#[derive(Debug, Clone)]
pub struct KamaF64Builder {
    window: Option<usize>,
    fast_span: u64,
    slow_span: u64,
    min_samples: Option<u64>,
}

/// Abstract value of a [`KamaF64Builder`].
pub struct KamaBuilderView {
    pub window: Option<usize>,
    pub fast_span: u64,
    pub slow_span: u64,
    pub min_samples: Option<u64>,
}

/// The validated parameters of a KAMA.
#[derive(Debug, Clone, Copy, PartialEq, Eq, Structural)]
pub struct KamaConfig {
    pub window: usize,
    pub fast_span: u64,
    pub slow_span: u64,
    pub min_samples: u64,
}

/// Why a KAMA configuration is refused.
#[derive(Debug, Clone, Copy, PartialEq, Eq, Structural)]
pub enum KamaConfigError {
    /// No window size was set.
    MissingWindowSize,
    /// The window size is 0.
    ZeroWindowSize,
    /// `fast_span` is 0.
    FastSpanTooSmall,
    /// `slow_span` is not above `fast_span`.
    SlowSpanNotAboveFast,
}

impl View for KamaF64Builder {
    type V = KamaBuilderView;

    closed spec fn view(&self) -> KamaBuilderView {
        KamaBuilderView {
            window: self.window,
            fast_span: self.fast_span,
            slow_span: self.slow_span,
            min_samples: self.min_samples,
        }
    }
}

/// What [`KamaF64Builder::check`] decides.
pub open spec fn kama_check_spec(b: KamaBuilderView) -> Result<KamaConfig, KamaConfigError> {
    match b.window {
        None => Err(KamaConfigError::MissingWindowSize),
        Some(w) => if w == 0 {
            Err(KamaConfigError::ZeroWindowSize)
        } else if b.fast_span < 1 {
            Err(KamaConfigError::FastSpanTooSmall)
        } else if b.slow_span <= b.fast_span {
            Err(KamaConfigError::SlowSpanNotAboveFast)
        } else {
            Ok(
                KamaConfig {
                    window: w,
                    fast_span: b.fast_span,
                    slow_span: b.slow_span,
                    min_samples: match b.min_samples {
                        Some(m) => m,
                        None => w as u64,
                    },
                },
            )
        },
    }
}

impl Default for KamaF64Builder {
    /// No window size, fast span 2, slow span 30, minimum samples defaulting
    /// to the window size.
    fn default() -> (r: Self)
        ensures
            r@ == (KamaBuilderView {
                window: None,
                fast_span: 2,
                slow_span: 30,
                min_samples: None,
            }),
    {
        KamaF64Builder { window: None, fast_span: 2, slow_span: 30, min_samples: None }
    }
}

impl KamaF64Builder {
    /// Window size (number of samples in the ring buffer).
    pub fn window_size(self, n: usize) -> (r: Self)
        ensures
            r@ == (KamaBuilderView { window: Some(n), ..self@ }),
    {
        KamaF64Builder { window: Some(n), ..self }
    }

    /// Fast EMA span (most reactive). Default: 2.
    pub fn fast_span(self, n: u64) -> (r: Self)
        ensures
            r@ == (KamaBuilderView { fast_span: n, ..self@ }),
    {
        KamaF64Builder { fast_span: n, ..self }
    }

    /// Slow EMA span (least reactive). Default: 30.
    pub fn slow_span(self, n: u64) -> (r: Self)
        ensures
            r@ == (KamaBuilderView { slow_span: n, ..self@ }),
    {
        KamaF64Builder { slow_span: n, ..self }
    }

    /// Minimum samples before value is valid. Default: window size.
    pub fn min_samples(self, min: u64) -> (r: Self)
        ensures
            r@ == (KamaBuilderView { min_samples: Some(min), ..self@ }),
    {
        KamaF64Builder { min_samples: Some(min), ..self }
    }

    /// Validates the settings: the window size must have been set and be
    /// positive, `fast_span` must be at least 1 and `slow_span` above it.
    pub fn check(&self) -> (r: Result<KamaConfig, KamaConfigError>)
        ensures
            r == kama_check_spec(self@),
    {
        let window = match self.window {
            None => return Err(KamaConfigError::MissingWindowSize),
            Some(w) => w,
        };
        if window == 0 {
            return Err(KamaConfigError::ZeroWindowSize);
        }
        if self.fast_span < 1 {
            return Err(KamaConfigError::FastSpanTooSmall);
        }
        if self.slow_span <= self.fast_span {
            return Err(KamaConfigError::SlowSpanNotAboveFast);
        }
        let min_samples = match self.min_samples {
            Some(m) => m,
            None => window as u64,
        };
        Ok(
            KamaConfig {
                window,
                fast_span: self.fast_span,
                slow_span: self.slow_span,
                min_samples,
            },
        )
    }
}

} // verus!
