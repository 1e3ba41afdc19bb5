use vstd::prelude::*;

verus! {

/// How a pipeline blends its output into the framebuffer.
#[derive(Debug, Clone, Copy, PartialEq, Eq)]
pub enum PipelineBlendMode {
    Disabled,
    Alpha,
    InvertCrosshair,
    Glint,
    BlockDamage,
    /// The TNT minecart's white overlay: `SRC_ALPHA`, `DST_ALPHA`.
    TntFlash,
    /// End portal layers after the first: `ONE`, `ONE`.
    Additive,
    /// The celestial pass: `SRC_ALPHA`, `ONE`.
    SourceAlphaAdditive,
}

/// The blend factors a pipeline uses.
#[derive(Debug, Clone, Copy, PartialEq, Eq)]
pub enum BlendFactor {
    Zero,
    One,
    SrcColor,
    OneMinusSrcColor,
    DstColor,
    OneMinusDstColor,
    SrcAlpha,
    OneMinusSrcAlpha,
    DstAlpha,
}

/// A colour attachment's blend state; both operations add.
#[derive(Debug, Clone, Copy, PartialEq, Eq)]
pub struct BlendState {
    pub enabled: bool,
    pub srcColor: BlendFactor,
    pub dstColor: BlendFactor,
    pub srcAlpha: BlendFactor,
    pub dstAlpha: BlendFactor,
}

pub open spec fn blend(enabled: bool, sc: BlendFactor, dc: BlendFactor, sa: BlendFactor, da: BlendFactor) -> BlendState {
    BlendState { enabled, srcColor: sc, dstColor: dc, srcAlpha: sa, dstAlpha: da }
}

/// The blend state of each mode. Every mode but `TntFlash` and `Additive`
/// keeps the source alpha (`ONE`, `ZERO`).
pub open spec fn blend_state_spec(mode: PipelineBlendMode) -> BlendState {
    match mode {
        PipelineBlendMode::Disabled => blend(false, BlendFactor::One, BlendFactor::Zero, BlendFactor::One, BlendFactor::Zero),
        PipelineBlendMode::Alpha => blend(true, BlendFactor::SrcAlpha, BlendFactor::OneMinusSrcAlpha, BlendFactor::One, BlendFactor::Zero),
        PipelineBlendMode::InvertCrosshair => blend(
            true,
            BlendFactor::OneMinusDstColor,
            BlendFactor::OneMinusSrcColor,
            BlendFactor::One,
            BlendFactor::Zero,
        ),
        PipelineBlendMode::Glint => blend(true, BlendFactor::SrcColor, BlendFactor::One, BlendFactor::One, BlendFactor::Zero),
        PipelineBlendMode::BlockDamage => blend(true, BlendFactor::DstColor, BlendFactor::SrcColor, BlendFactor::One, BlendFactor::Zero),
        PipelineBlendMode::TntFlash => blend(true, BlendFactor::SrcAlpha, BlendFactor::DstAlpha, BlendFactor::SrcAlpha, BlendFactor::DstAlpha),
        PipelineBlendMode::Additive => blend(true, BlendFactor::One, BlendFactor::One, BlendFactor::One, BlendFactor::One),
        PipelineBlendMode::SourceAlphaAdditive => blend(true, BlendFactor::SrcAlpha, BlendFactor::One, BlendFactor::One, BlendFactor::Zero),
    }
}

/// What each blend mode does: only `Disabled` leaves blending off; the
/// colour factors are the GL blend functions each mode names (glint adds
/// the source colour, `SRC_COLOR, ONE`; the additive modes keep the
/// destination); alpha is written through (`ONE, ZERO`) but for the TNT
/// flash and the additive portal layers.
pub proof fn lemma_blend_modes(mode: PipelineBlendMode)
    ensures
        !blend_state_spec(mode).enabled <==> mode == PipelineBlendMode::Disabled,
        (mode == PipelineBlendMode::Glint || mode == PipelineBlendMode::Additive
            || mode == PipelineBlendMode::SourceAlphaAdditive) ==> blend_state_spec(mode).dstColor == BlendFactor::One,
        mode == PipelineBlendMode::Disabled ==> blend_state_spec(mode).srcColor == BlendFactor::One
            && blend_state_spec(mode).dstColor == BlendFactor::Zero,
        mode == PipelineBlendMode::Alpha ==> blend_state_spec(mode).srcColor == BlendFactor::SrcAlpha
            && blend_state_spec(mode).dstColor == BlendFactor::OneMinusSrcAlpha,
        mode == PipelineBlendMode::InvertCrosshair ==> blend_state_spec(mode).srcColor == BlendFactor::OneMinusDstColor
            && blend_state_spec(mode).dstColor == BlendFactor::OneMinusSrcColor,
        mode == PipelineBlendMode::Glint ==> blend_state_spec(mode).srcColor == BlendFactor::SrcColor,
        mode == PipelineBlendMode::BlockDamage ==> blend_state_spec(mode).srcColor == BlendFactor::DstColor
            && blend_state_spec(mode).dstColor == BlendFactor::SrcColor,
        mode == PipelineBlendMode::TntFlash ==> blend_state_spec(mode).srcColor == BlendFactor::SrcAlpha
            && blend_state_spec(mode).dstColor == BlendFactor::DstAlpha,
        mode == PipelineBlendMode::Additive ==> blend_state_spec(mode).srcColor == BlendFactor::One,
        mode == PipelineBlendMode::SourceAlphaAdditive ==> blend_state_spec(mode).srcColor == BlendFactor::SrcAlpha,
        mode == PipelineBlendMode::TntFlash ==> blend_state_spec(mode).srcAlpha == BlendFactor::SrcAlpha
            && blend_state_spec(mode).dstAlpha == BlendFactor::DstAlpha,
        mode == PipelineBlendMode::Additive ==> blend_state_spec(mode).srcAlpha == BlendFactor::One
            && blend_state_spec(mode).dstAlpha == BlendFactor::One,
        (mode != PipelineBlendMode::TntFlash && mode != PipelineBlendMode::Additive) ==> blend_state_spec(mode).srcAlpha
            == BlendFactor::One && blend_state_spec(mode).dstAlpha == BlendFactor::Zero,
{
}

/// The colour attachment blend state of a pipeline with the given mode.
pub fn blend_state(mode: PipelineBlendMode) -> (b: BlendState)
    ensures
        b == blend_state_spec(mode),
{
    let (enabled, srcColor, dstColor, srcAlpha, dstAlpha) = match mode {
        PipelineBlendMode::Disabled => (false, BlendFactor::One, BlendFactor::Zero, BlendFactor::One, BlendFactor::Zero),
        PipelineBlendMode::Alpha => (true, BlendFactor::SrcAlpha, BlendFactor::OneMinusSrcAlpha, BlendFactor::One, BlendFactor::Zero),
        PipelineBlendMode::InvertCrosshair => (
            true,
            BlendFactor::OneMinusDstColor,
            BlendFactor::OneMinusSrcColor,
            BlendFactor::One,
            BlendFactor::Zero,
        ),
        PipelineBlendMode::Glint => (true, BlendFactor::SrcColor, BlendFactor::One, BlendFactor::One, BlendFactor::Zero),
        PipelineBlendMode::BlockDamage => (true, BlendFactor::DstColor, BlendFactor::SrcColor, BlendFactor::One, BlendFactor::Zero),
        PipelineBlendMode::TntFlash => (true, BlendFactor::SrcAlpha, BlendFactor::DstAlpha, BlendFactor::SrcAlpha, BlendFactor::DstAlpha),
        PipelineBlendMode::Additive => (true, BlendFactor::One, BlendFactor::One, BlendFactor::One, BlendFactor::One),
        PipelineBlendMode::SourceAlphaAdditive => (true, BlendFactor::SrcAlpha, BlendFactor::One, BlendFactor::One, BlendFactor::Zero),
    };
    BlendState { enabled, srcColor, dstColor, srcAlpha, dstAlpha }
}

} // verus!
