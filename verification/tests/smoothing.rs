use nexus::smoothing::{KamaConfig, KamaConfigError, KamaF64Builder};

#[test]
fn kama_builder_requires_window() {
    assert_eq!(KamaF64Builder::default().check(), Err(KamaConfigError::MissingWindowSize));
    assert_eq!(
        KamaF64Builder::default().window_size(0).check(),
        Err(KamaConfigError::ZeroWindowSize)
    );
}

#[test]
fn kama_builder_validates_spans() {
    let b = KamaF64Builder::default().window_size(10);
    assert_eq!(b.clone().fast_span(0).check(), Err(KamaConfigError::FastSpanTooSmall));
    assert_eq!(
        b.clone().fast_span(5).slow_span(5).check(),
        Err(KamaConfigError::SlowSpanNotAboveFast)
    );
}

#[test]
fn kama_builder_defaults() {
    assert_eq!(
        KamaF64Builder::default().window_size(10).check(),
        Ok(KamaConfig { window: 10, fast_span: 2, slow_span: 30, min_samples: 10 })
    );
    assert_eq!(
        KamaF64Builder::default().window_size(10).min_samples(3).check(),
        Ok(KamaConfig { window: 10, fast_span: 2, slow_span: 30, min_samples: 3 })
    );
}
