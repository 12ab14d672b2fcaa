//! Envelope-stage codes of the WebAssembly surface.
//!
//! Across the JavaScript boundary an ADSR envelope stage travels as a small
//! integer: 0 = Done, 1 = Attack, 2 = Decay, 3 = Sustain, 4 = Release.
//! Any other code is read as Done.
use vstd::prelude::*;

verus! {

/// Stage of an attack–decay–sustain–release envelope.
#[derive(Clone, Copy, Debug, PartialEq, Eq, Structural)]
pub enum AdsrStage {
    Done,
    Attack,
    Decay,
    Sustain,
    Release,
}

/// The code of a stage.
pub open spec fn spec_stage_code(s: AdsrStage) -> u32 {
    match s {
        AdsrStage::Done => 0,
        AdsrStage::Attack => 1,
        AdsrStage::Decay => 2,
        AdsrStage::Sustain => 3,
        AdsrStage::Release => 4,
    }
}

/// The stage a code denotes; unknown codes denote Done.
pub open spec fn spec_stage_from_code(c: u32) -> AdsrStage {
    if c == 1 {
        AdsrStage::Attack
    } else if c == 2 {
        AdsrStage::Decay
    } else if c == 3 {
        AdsrStage::Sustain
    } else if c == 4 {
        AdsrStage::Release
    } else {
        AdsrStage::Done
    }
}

/// Decode a stage code.
pub fn stage_from_code(code: u32) -> (s: AdsrStage)
    ensures
        s == spec_stage_from_code(code),
        spec_stage_code(s) == (if 1 <= code <= 4 { code } else { 0 }),
{
    match code {
        1 => AdsrStage::Attack,
        2 => AdsrStage::Decay,
        3 => AdsrStage::Sustain,
        4 => AdsrStage::Release,
        _ => AdsrStage::Done,
    }
}

/// Encode a stage.
pub fn stage_code(stage: AdsrStage) -> (c: u32)
    ensures
        c == spec_stage_code(stage),
        c <= 4,
        spec_stage_from_code(c) == stage,
{
    match stage {
        AdsrStage::Done => 0,
        AdsrStage::Attack => 1,
        AdsrStage::Decay => 2,
        AdsrStage::Sustain => 3,
        AdsrStage::Release => 4,
    }
}

/// Encoding then decoding gives the stage back, and decoding a valid code
/// then encoding gives the code back.
pub proof fn lemma_stage_code_roundtrip(s: AdsrStage, c: u32)
    ensures
        spec_stage_from_code(spec_stage_code(s)) == s,
        c <= 4 ==> spec_stage_code(spec_stage_from_code(c)) == c,
{
}

} // verus!
