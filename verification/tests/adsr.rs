use prime_spatial::adsr::{stage_code, stage_from_code, AdsrStage};

#[test]
fn stage_codes() {
    assert_eq!(stage_code(AdsrStage::Done), 0);
    assert_eq!(stage_code(AdsrStage::Attack), 1);
    assert_eq!(stage_code(AdsrStage::Decay), 2);
    assert_eq!(stage_code(AdsrStage::Sustain), 3);
    assert_eq!(stage_code(AdsrStage::Release), 4);
}

#[test]
fn unknown_codes_are_done() {
    assert_eq!(stage_from_code(0), AdsrStage::Done);
    assert_eq!(stage_from_code(5), AdsrStage::Done);
    assert_eq!(stage_from_code(u32::MAX), AdsrStage::Done);
}

#[test]
fn stage_code_roundtrip() {
    for s in [AdsrStage::Done, AdsrStage::Attack, AdsrStage::Decay, AdsrStage::Sustain, AdsrStage::Release] {
        assert_eq!(stage_from_code(stage_code(s)), s);
    }
    for c in 0..=4 {
        assert_eq!(stage_code(stage_from_code(c)), c);
    }
}
