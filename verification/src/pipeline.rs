//! The wgpu render pipelines: each is a WGSL module, an optional bind-group
//! layout, one vertex buffer whose attributes are packed back to back, and
//! one colour target.
//!
//! What distinguishes the pipelines is plain data, a `PipelinePlan`, decided
//! by verified code; wgpu turns a plan into the opaque GPU object.

use vstd::prelude::*;
use std::future::Future;
use std::task::{Context, Poll, Waker};
use wgpu::{
    BlendState, ColorTargetState, ColorWrites, ErrorFilter, FragmentState, MultisampleState,
    PrimitiveState, PrimitiveTopology, VertexAttribute, VertexBufferLayout, VertexFormat, VertexState,
    VertexStepMode,
};
use crate::gpu::{GpuBindGroupLayout, LayoutSlot};
use crate::shaders::{
    BLEND_SHADER, BLIT_SHADER, BLUR_SHADER, COMPOSITE_SHADER, GRADIENT_SHADER, PATH_SHADER,
    RECT_SHADER, TEXT_SHADER,
};

verus! {

#[verifier::external_type_specification]
#[verifier::external_body]
pub struct ExShaderModule(wgpu::ShaderModule);

#[verifier::external_type_specification]
#[verifier::external_body]
pub struct ExPipelineLayout(wgpu::PipelineLayout);

#[verifier::external_type_specification]
#[verifier::external_body]
pub struct ExRenderPipeline(wgpu::RenderPipeline);

#[verifier::external_type_specification]
#[verifier::external_body]
pub struct ExVertexAttribute(wgpu::VertexAttribute);

#[verifier::external_type_specification]
#[verifier::external_body]
pub struct ExColorTargetState(wgpu::ColorTargetState);

#[verifier::external_type_specification]
#[verifier::external_body]
pub struct ExTextureFormat(wgpu::TextureFormat);

#[verifier::external_type_specification]
#[verifier::external_body]
pub struct ExPrimitiveState(wgpu::PrimitiveState);

#[verifier::external_type_specification]
#[verifier::external_body]
pub struct ExVertexBufferLayout<'a>(wgpu::VertexBufferLayout<'a>);

#[verifier::external_type_specification]
#[verifier::external_body]
pub struct ExMultisampleState(wgpu::MultisampleState);

/// Format of one vertex attribute: one, two or four `f32`s.
#[derive(Clone, Copy, Debug, PartialEq, Eq, Structural)]
pub enum AttrFormat {
    Float32,
    Float32x2,
    Float32x4,
}

/// Size in bytes of an attribute of format `f`.
pub open spec fn attr_size(f: AttrFormat) -> nat {
    match f {
        AttrFormat::Float32 => 4,
        AttrFormat::Float32x2 => 8,
        AttrFormat::Float32x4 => 16,
    }
}

/// One vertex attribute: its format, its byte offset in the vertex and its
/// shader location.
#[derive(Clone, Copy, Debug, PartialEq, Eq, Structural)]
pub struct VertexAttr {
    pub format: AttrFormat,
    pub offset: u64,
    pub location: u32,
}

/// Bytes taken by attributes of formats `fs` packed back to back.
pub open spec fn packed_size(fs: Seq<AttrFormat>) -> nat
    decreases fs.len(),
{
    if fs.len() == 0 {
        0
    } else {
        packed_size(fs.drop_last()) + attr_size(fs.last())
    }
}

/// Attributes of formats `fs` packed back to back: each starts where the
/// previous one ends, at shader locations 0, 1, 2, ...
pub open spec fn packed_attrs(fs: Seq<AttrFormat>) -> Seq<VertexAttr> {
    Seq::new(
        fs.len(),
        |i: int| VertexAttr { format: fs[i], offset: packed_size(fs.take(i)) as u64, location: i as u32 },
    )
}

/// The attributes of `packed_attrs` tile the vertex: the first starts at 0,
/// each next one starts where the previous ends, and the last ends at the
/// packed size.
pub proof fn lemma_packed_contiguous(fs: Seq<AttrFormat>)
    requires
        packed_size(fs) <= u64::MAX,
    ensures
        fs.len() > 0 ==> packed_attrs(fs)[0].offset == 0,
        forall|i: int|
            0 <= i < fs.len() - 1 ==> #[trigger] packed_attrs(fs)[i + 1].offset == packed_attrs(
                fs,
            )[i].offset + attr_size(fs[i]),
        fs.len() > 0 ==> packed_attrs(fs)[fs.len() - 1].offset + attr_size(fs[fs.len() - 1])
            == packed_size(fs),
{
    assert forall|i: int| 0 <= i <= fs.len() implies #[trigger] packed_size(fs.take(i))
        <= packed_size(fs) by {
        lemma_packed_size_prefix(fs, i);
    }
    if fs.len() > 0 {
        assert(fs.take(0) =~= Seq::<AttrFormat>::empty());
        assert(fs.take(fs.len() as int) =~= fs);
    }
    assert forall|i: int| 0 <= i < fs.len() - 1 implies #[trigger] packed_attrs(fs)[i + 1].offset
        == packed_attrs(fs)[i].offset + attr_size(fs[i]) by {
        assert(fs.take(i + 1).drop_last() =~= fs.take(i));
    }
    if fs.len() > 0 {
        assert(fs.take(fs.len() - 1) =~= fs.drop_last());
    }
}

proof fn lemma_packed_size_prefix(fs: Seq<AttrFormat>, i: int)
    requires
        0 <= i <= fs.len(),
    ensures
        packed_size(fs.take(i)) <= packed_size(fs),
    decreases fs.len(),
{
    if i < fs.len() {
        lemma_packed_size_prefix(fs.drop_last(), i);
        assert(fs.drop_last().take(i) =~= fs.take(i));
    } else {
        assert(fs.take(i) =~= fs);
    }
}

/// Formats of `RectVertex`: position, colour, size, corner radii, local
/// position, stroke width, world position, shadow offset, clip rect, clip
/// radii, shadow colour, shadow blur radius, shadow flag.
pub open spec fn rect_vertex_formats() -> Seq<AttrFormat> {
    seq![
        AttrFormat::Float32x2,
        AttrFormat::Float32x4,
        AttrFormat::Float32x2,
        AttrFormat::Float32x4,
        AttrFormat::Float32x2,
        AttrFormat::Float32,
        AttrFormat::Float32x2,
        AttrFormat::Float32x2,
        AttrFormat::Float32x4,
        AttrFormat::Float32x4,
        AttrFormat::Float32x4,
        AttrFormat::Float32,
        AttrFormat::Float32,
    ]
}

/// Formats of `GradientVertex`: position, size, corner radii, local
/// position, stroke width, world position, shadow offset, clip rect, clip
/// radii, four stop colours, stop count and offsets, direction start and
/// end.
pub open spec fn gradient_vertex_formats() -> Seq<AttrFormat> {
    seq![
        AttrFormat::Float32x2,
        AttrFormat::Float32x2,
        AttrFormat::Float32x4,
        AttrFormat::Float32x2,
        AttrFormat::Float32,
        AttrFormat::Float32x2,
        AttrFormat::Float32x2,
        AttrFormat::Float32x4,
        AttrFormat::Float32x4,
        AttrFormat::Float32x4,
        AttrFormat::Float32x4,
        AttrFormat::Float32x4,
        AttrFormat::Float32x4,
        AttrFormat::Float32x4,
        AttrFormat::Float32x2,
        AttrFormat::Float32x2,
    ]
}

/// Formats of `TextVertex`: position, atlas UV, clip rect, clip radii,
/// world position, opacity.
pub open spec fn text_vertex_formats() -> Seq<AttrFormat> {
    seq![
        AttrFormat::Float32x2,
        AttrFormat::Float32x2,
        AttrFormat::Float32x4,
        AttrFormat::Float32x4,
        AttrFormat::Float32x2,
        AttrFormat::Float32,
    ]
}

/// Formats of `BlitVertex`: position, UV.
pub open spec fn blit_vertex_formats() -> Seq<AttrFormat> {
    seq![AttrFormat::Float32x2, AttrFormat::Float32x2]
}

/// Formats of `PathVertex`: position, colour, world position, clip rect,
/// clip radii.
pub open spec fn path_vertex_formats() -> Seq<AttrFormat> {
    seq![
        AttrFormat::Float32x2,
        AttrFormat::Float32x4,
        AttrFormat::Float32x2,
        AttrFormat::Float32x4,
        AttrFormat::Float32x4,
    ]
}

fn attr_bytes(f: AttrFormat) -> (n: u64)
    ensures
        n == attr_size(f),
{
    match f {
        AttrFormat::Float32 => 4,
        AttrFormat::Float32x2 => 8,
        AttrFormat::Float32x4 => 16,
    }
}

/// Pack attributes of the given formats back to back; returns them with
/// the vertex stride.
pub fn packed_attributes(fs: &Vec<AttrFormat>) -> (r: (Vec<VertexAttr>, u64))
    requires
        fs@.len() <= u32::MAX,
    ensures
        r.0@ == packed_attrs(fs@),
        r.1 == packed_size(fs@),
{
    let mut out: Vec<VertexAttr> = Vec::new();
    let mut offset: u64 = 0;
    let n = fs.len();
    let mut i: usize = 0;
    while i < n
        invariant
            n == fs@.len(),
            n <= u32::MAX,
            i <= n,
            offset == packed_size(fs@.take(i as int)),
            offset <= 16 * i,
            out@.len() == i,
            forall|j: int| 0 <= j < i ==> #[trigger] out@[j] == packed_attrs(fs@)[j],
        decreases n - i,
    {
        let f = fs[i];
        out.push(VertexAttr { format: f, offset, location: i as u32 });
        proof {
            assert(fs@.take(i + 1).drop_last() =~= fs@.take(i as int));
        }
        offset = offset + attr_bytes(f);
        i = i + 1;
    }
    proof {
        assert(fs@.take(n as int) =~= fs@);
        assert(out@ =~= packed_attrs(fs@));
    }
    (out, offset)
}

/// Everything that distinguishes one render pipeline from another.
pub struct PipelinePlan {
    pub shader_label: &'static str,
    pub layout_label: &'static str,
    pub pipeline_label: &'static str,
    /// The WGSL module; its entry points are `vs_main` and `fs_main`.
    pub source: &'static str,
    /// Vertex attribute formats, packed back to back.
    pub formats: Vec<AttrFormat>,
    /// Premultiplied-alpha blending into the target, or plain replacement.
    pub premultiplied_blend: bool,
    pub sample_count: u32,
}

/// A `PipelinePlan` as mathematical values.
pub struct PlanSpec {
    pub shader_label: Seq<char>,
    pub layout_label: Seq<char>,
    pub pipeline_label: Seq<char>,
    pub source: Seq<char>,
    pub formats: Seq<AttrFormat>,
    pub premultiplied_blend: bool,
    pub sample_count: u32,
}

impl View for PipelinePlan {
    type V = PlanSpec;

    open spec fn view(&self) -> PlanSpec {
        PlanSpec {
            shader_label: self.shader_label@,
            layout_label: self.layout_label@,
            pipeline_label: self.pipeline_label@,
            source: self.source@,
            formats: self.formats@,
            premultiplied_blend: self.premultiplied_blend,
            sample_count: self.sample_count,
        }
    }
}

/// The rect plan.
pub open spec fn rect_plan_spec(sc: u32) -> PlanSpec {
    PlanSpec {
        shader_label: "rect shader"@,
        layout_label: "rect layout"@,
        pipeline_label: "rect pipeline"@,
        source: RECT_SHADER@,
        formats: rect_vertex_formats(),
        premultiplied_blend: true,
        sample_count: sc,
    }
}

/// The gradient plan.
pub open spec fn gradient_plan_spec(sc: u32) -> PlanSpec {
    PlanSpec {
        shader_label: "gradient shader"@,
        layout_label: "gradient layout"@,
        pipeline_label: "gradient pipeline"@,
        source: GRADIENT_SHADER@,
        formats: gradient_vertex_formats(),
        premultiplied_blend: true,
        sample_count: sc,
    }
}

/// The text plan.
pub open spec fn text_plan_spec(sc: u32) -> PlanSpec {
    PlanSpec {
        shader_label: "text shader"@,
        layout_label: "text layout"@,
        pipeline_label: "text pipeline"@,
        source: TEXT_SHADER@,
        formats: text_vertex_formats(),
        premultiplied_blend: true,
        sample_count: sc,
    }
}

/// The blend plan.
pub open spec fn blend_plan_spec(sc: u32) -> PlanSpec {
    PlanSpec {
        shader_label: "blend shader"@,
        layout_label: "blend layout"@,
        pipeline_label: "blend pipeline"@,
        source: BLEND_SHADER@,
        formats: rect_vertex_formats(),
        premultiplied_blend: true,
        sample_count: sc,
    }
}

/// The blur plan.
pub open spec fn blur_plan_spec() -> PlanSpec {
    PlanSpec {
        shader_label: "blur shader"@,
        layout_label: "blur layout"@,
        pipeline_label: "blur pipeline"@,
        source: BLUR_SHADER@,
        formats: blit_vertex_formats(),
        premultiplied_blend: false,
        sample_count: 1,
    }
}

/// The composite plan.
pub open spec fn composite_plan_spec(sc: u32) -> PlanSpec {
    PlanSpec {
        shader_label: "composite shader"@,
        layout_label: "composite layout"@,
        pipeline_label: "composite pipeline"@,
        source: COMPOSITE_SHADER@,
        formats: rect_vertex_formats(),
        premultiplied_blend: true,
        sample_count: sc,
    }
}

/// The blit plan.
pub open spec fn blit_plan_spec() -> PlanSpec {
    PlanSpec {
        shader_label: "blit shader"@,
        layout_label: "blit layout"@,
        pipeline_label: "blit pipeline"@,
        source: BLIT_SHADER@,
        formats: blit_vertex_formats(),
        premultiplied_blend: false,
        sample_count: 1,
    }
}

/// The path plan.
pub open spec fn path_plan_spec(sc: u32) -> PlanSpec {
    PlanSpec {
        shader_label: "path shader"@,
        layout_label: "path layout"@,
        pipeline_label: "path pipeline"@,
        source: PATH_SHADER@,
        formats: path_vertex_formats(),
        premultiplied_blend: true,
        sample_count: sc,
    }
}

fn formats_from(fs: &[AttrFormat]) -> (v: Vec<AttrFormat>)
    ensures
        v@ == fs@,
{
    let mut v: Vec<AttrFormat> = Vec::new();
    let mut i: usize = 0;
    while i < fs.len()
        invariant
            i <= fs@.len(),
            v@ == fs@.take(i as int),
        decreases fs@.len() - i,
    {
        v.push(fs[i]);
        i = i + 1;
        proof {
            assert(v@ =~= fs@.take(i as int));
        }
    }
    proof {
        assert(fs@.take(fs@.len() as int) =~= fs@);
    }
    v
}

fn rect_formats() -> (v: Vec<AttrFormat>)
    ensures
        v@ == rect_vertex_formats(),
{
    let v = formats_from(
        &[
            AttrFormat::Float32x2,
            AttrFormat::Float32x4,
            AttrFormat::Float32x2,
            AttrFormat::Float32x4,
            AttrFormat::Float32x2,
            AttrFormat::Float32,
            AttrFormat::Float32x2,
            AttrFormat::Float32x2,
            AttrFormat::Float32x4,
            AttrFormat::Float32x4,
            AttrFormat::Float32x4,
            AttrFormat::Float32,
            AttrFormat::Float32,
        ],
    );
    proof {
        assert(v@ =~= rect_vertex_formats());
    }
    v
}

fn gradient_formats() -> (v: Vec<AttrFormat>)
    ensures
        v@ == gradient_vertex_formats(),
{
    let v = formats_from(
        &[
            AttrFormat::Float32x2,
            AttrFormat::Float32x2,
            AttrFormat::Float32x4,
            AttrFormat::Float32x2,
            AttrFormat::Float32,
            AttrFormat::Float32x2,
            AttrFormat::Float32x2,
            AttrFormat::Float32x4,
            AttrFormat::Float32x4,
            AttrFormat::Float32x4,
            AttrFormat::Float32x4,
            AttrFormat::Float32x4,
            AttrFormat::Float32x4,
            AttrFormat::Float32x4,
            AttrFormat::Float32x2,
            AttrFormat::Float32x2,
        ],
    );
    proof {
        assert(v@ =~= gradient_vertex_formats());
    }
    v
}

fn text_formats() -> (v: Vec<AttrFormat>)
    ensures
        v@ == text_vertex_formats(),
{
    let v = formats_from(
        &[
            AttrFormat::Float32x2,
            AttrFormat::Float32x2,
            AttrFormat::Float32x4,
            AttrFormat::Float32x4,
            AttrFormat::Float32x2,
            AttrFormat::Float32,
        ],
    );
    proof {
        assert(v@ =~= text_vertex_formats());
    }
    v
}

fn blit_formats() -> (v: Vec<AttrFormat>)
    ensures
        v@ == blit_vertex_formats(),
{
    let v = formats_from(&[AttrFormat::Float32x2, AttrFormat::Float32x2]);
    proof {
        assert(v@ =~= blit_vertex_formats());
    }
    v
}

fn path_formats() -> (v: Vec<AttrFormat>)
    ensures
        v@ == path_vertex_formats(),
{
    let v = formats_from(
        &[
            AttrFormat::Float32x2,
            AttrFormat::Float32x4,
            AttrFormat::Float32x2,
            AttrFormat::Float32x4,
            AttrFormat::Float32x4,
        ],
    );
    proof {
        assert(v@ =~= path_vertex_formats());
    }
    v
}

/// Rectangles: premultiplied blending, multisampled.
pub fn rect_plan(sample_count: u32) -> (p: PipelinePlan)
    ensures
        p@ == rect_plan_spec(sample_count),
        p.shader_label@ == "rect shader"@,
        p.layout_label@ == "rect layout"@,
        p.pipeline_label@ == "rect pipeline"@,
        p.source@ == RECT_SHADER@,
        p.formats@ == rect_vertex_formats(),
        p.premultiplied_blend,
        p.sample_count == sample_count,
{
    PipelinePlan {
        shader_label: "rect shader",
        layout_label: "rect layout",
        pipeline_label: "rect pipeline",
        source: RECT_SHADER,
        formats: rect_formats(),
        premultiplied_blend: true,
        sample_count,
    }
}

/// Gradients: premultiplied blending, multisampled.
pub fn gradient_plan(sample_count: u32) -> (p: PipelinePlan)
    ensures
        p@ == gradient_plan_spec(sample_count),
        p.shader_label@ == "gradient shader"@,
        p.layout_label@ == "gradient layout"@,
        p.pipeline_label@ == "gradient pipeline"@,
        p.source@ == GRADIENT_SHADER@,
        p.formats@ == gradient_vertex_formats(),
        p.premultiplied_blend,
        p.sample_count == sample_count,
{
    PipelinePlan {
        shader_label: "gradient shader",
        layout_label: "gradient layout",
        pipeline_label: "gradient pipeline",
        source: GRADIENT_SHADER,
        formats: gradient_formats(),
        premultiplied_blend: true,
        sample_count,
    }
}

/// Text (sampling the glyph atlas): premultiplied blending, multisampled.
pub fn text_plan(sample_count: u32) -> (p: PipelinePlan)
    ensures
        p@ == text_plan_spec(sample_count),
        p.shader_label@ == "text shader"@,
        p.layout_label@ == "text layout"@,
        p.pipeline_label@ == "text pipeline"@,
        p.source@ == TEXT_SHADER@,
        p.formats@ == text_vertex_formats(),
        p.premultiplied_blend,
        p.sample_count == sample_count,
{
    PipelinePlan {
        shader_label: "text shader",
        layout_label: "text layout",
        pipeline_label: "text pipeline",
        source: TEXT_SHADER,
        formats: text_formats(),
        premultiplied_blend: true,
        sample_count,
    }
}

/// Blend-mode composition over the backdrop snapshot: rectangle vertices,
/// premultiplied blending, multisampled.
pub fn blend_plan(sample_count: u32) -> (p: PipelinePlan)
    ensures
        p@ == blend_plan_spec(sample_count),
        p.shader_label@ == "blend shader"@,
        p.layout_label@ == "blend layout"@,
        p.pipeline_label@ == "blend pipeline"@,
        p.source@ == BLEND_SHADER@,
        p.formats@ == rect_vertex_formats(),
        p.premultiplied_blend,
        p.sample_count == sample_count,
{
    PipelinePlan {
        shader_label: "blend shader",
        layout_label: "blend layout",
        pipeline_label: "blend pipeline",
        source: BLEND_SHADER,
        formats: rect_formats(),
        premultiplied_blend: true,
        sample_count,
    }
}

/// Blur passes: the target is replaced, one sample.
pub fn blur_plan() -> (p: PipelinePlan)
    ensures
        p@ == blur_plan_spec(),
        p.shader_label@ == "blur shader"@,
        p.layout_label@ == "blur layout"@,
        p.pipeline_label@ == "blur pipeline"@,
        p.source@ == BLUR_SHADER@,
        p.formats@ == blit_vertex_formats(),
        !p.premultiplied_blend,
        p.sample_count == 1,
{
    PipelinePlan {
        shader_label: "blur shader",
        layout_label: "blur layout",
        pipeline_label: "blur pipeline",
        source: BLUR_SHADER,
        formats: blit_formats(),
        premultiplied_blend: false,
        sample_count: 1,
    }
}

/// Blurred-backdrop composite: rectangle vertices, premultiplied blending,
/// multisampled.
pub fn composite_plan(sample_count: u32) -> (p: PipelinePlan)
    ensures
        p@ == composite_plan_spec(sample_count),
        p.shader_label@ == "composite shader"@,
        p.layout_label@ == "composite layout"@,
        p.pipeline_label@ == "composite pipeline"@,
        p.source@ == COMPOSITE_SHADER@,
        p.formats@ == rect_vertex_formats(),
        p.premultiplied_blend,
        p.sample_count == sample_count,
{
    PipelinePlan {
        shader_label: "composite shader",
        layout_label: "composite layout",
        pipeline_label: "composite pipeline",
        source: COMPOSITE_SHADER,
        formats: rect_formats(),
        premultiplied_blend: true,
        sample_count,
    }
}

/// Blit of the persistent frame: the target is replaced, one sample.
pub fn blit_plan() -> (p: PipelinePlan)
    ensures
        p@ == blit_plan_spec(),
        p.shader_label@ == "blit shader"@,
        p.layout_label@ == "blit layout"@,
        p.pipeline_label@ == "blit pipeline"@,
        p.source@ == BLIT_SHADER@,
        p.formats@ == blit_vertex_formats(),
        !p.premultiplied_blend,
        p.sample_count == 1,
{
    PipelinePlan {
        shader_label: "blit shader",
        layout_label: "blit layout",
        pipeline_label: "blit pipeline",
        source: BLIT_SHADER,
        formats: blit_formats(),
        premultiplied_blend: false,
        sample_count: 1,
    }
}

/// Vector paths: premultiplied blending, multisampled.
pub fn path_plan(sample_count: u32) -> (p: PipelinePlan)
    ensures
        p@ == path_plan_spec(sample_count),
        p.shader_label@ == "path shader"@,
        p.layout_label@ == "path layout"@,
        p.pipeline_label@ == "path pipeline"@,
        p.source@ == PATH_SHADER@,
        p.formats@ == path_vertex_formats(),
        p.premultiplied_blend,
        p.sample_count == sample_count,
{
    PipelinePlan {
        shader_label: "path shader",
        layout_label: "path layout",
        pipeline_label: "path pipeline",
        source: PATH_SHADER,
        formats: path_formats(),
        premultiplied_blend: true,
        sample_count,
    }
}

/// How the colour target combines a fragment with what is there.
#[derive(Clone, Copy, Debug, PartialEq, Eq, Structural)]
pub enum BlendMode {
    /// The fragment replaces the target.
    Replace,
    /// Premultiplied-alpha "over".
    PremultipliedAlpha,
}

/// Which channels of the colour target a pipeline writes.
#[derive(Clone, Copy, Debug, PartialEq, Eq, Structural)]
pub enum ChannelMask {
    All,
}

/// How the vertex buffer advances.
#[derive(Clone, Copy, Debug, PartialEq, Eq, Structural)]
pub enum StepMode {
    /// One element per vertex.
    Vertex,
}

/// How vertices are assembled into primitives.
#[derive(Clone, Copy, Debug, PartialEq, Eq, Structural)]
pub enum Topology {
    TriangleList,
}

/// Everything handed to wgpu to build one render pipeline, as plain data.
pub struct PipelineDesc {
    pub shader_label: &'static str,
    pub layout_label: &'static str,
    pub pipeline_label: &'static str,
    /// WGSL source of the shader module.
    pub source: &'static str,
    pub vertex_entry: &'static str,
    pub fragment_entry: &'static str,
    pub topology: Topology,
    pub step: StepMode,
    /// Bytes per vertex.
    pub stride: u64,
    pub attrs: Vec<VertexAttr>,
    pub format: wgpu::TextureFormat,
    pub blend: BlendMode,
    pub channels: ChannelMask,
    pub sample_count: u32,
    pub sample_mask: u64,
    pub alpha_to_coverage: bool,
    /// Slot table of the bind-group layout at set 0, if there is one.
    pub group: Option<Vec<LayoutSlot>>,
}

/// A `PipelineDesc` as mathematical values.
pub struct PipelineSpec {
    pub shader_label: Seq<char>,
    pub layout_label: Seq<char>,
    pub pipeline_label: Seq<char>,
    pub source: Seq<char>,
    pub vertex_entry: Seq<char>,
    pub fragment_entry: Seq<char>,
    pub topology: Topology,
    pub step: StepMode,
    pub stride: u64,
    pub attrs: Seq<VertexAttr>,
    pub format: wgpu::TextureFormat,
    pub blend: BlendMode,
    pub channels: ChannelMask,
    pub sample_count: u32,
    pub sample_mask: u64,
    pub alpha_to_coverage: bool,
    pub group: Option<Seq<LayoutSlot>>,
}

pub open spec fn group_view(g: Option<Vec<LayoutSlot>>) -> Option<Seq<LayoutSlot>> {
    match g {
        Some(v) => Some(v@),
        None => None,
    }
}

impl View for PipelineDesc {
    type V = PipelineSpec;

    open spec fn view(&self) -> PipelineSpec {
        PipelineSpec {
            shader_label: self.shader_label@,
            layout_label: self.layout_label@,
            pipeline_label: self.pipeline_label@,
            source: self.source@,
            vertex_entry: self.vertex_entry@,
            fragment_entry: self.fragment_entry@,
            topology: self.topology,
            step: self.step,
            stride: self.stride,
            attrs: self.attrs@,
            format: self.format,
            blend: self.blend,
            channels: self.channels,
            sample_count: self.sample_count,
            sample_mask: self.sample_mask,
            alpha_to_coverage: self.alpha_to_coverage,
            group: group_view(self.group),
        }
    }
}

/// The pipeline a plan describes, for colour target `format` and bind-group
/// layout table `group` at set 0: the plan's labels, shader, blending and
/// sample count; entry points `vs_main` and `fs_main`; triangle lists; one
/// vertex buffer stepped per vertex holding the plan's formats packed back
/// to back; every channel written; every sample
/// enabled; no alpha-to-coverage.
pub open spec fn desc_of(
    plan: PlanSpec,
    format: wgpu::TextureFormat,
    group: Option<Seq<LayoutSlot>>,
) -> PipelineSpec {
    PipelineSpec {
        shader_label: plan.shader_label,
        layout_label: plan.layout_label,
        pipeline_label: plan.pipeline_label,
        source: plan.source,
        vertex_entry: "vs_main"@,
        fragment_entry: "fs_main"@,
        topology: Topology::TriangleList,
        step: StepMode::Vertex,
        stride: packed_size(plan.formats) as u64,
        attrs: packed_attrs(plan.formats),
        format,
        blend: if plan.premultiplied_blend {
            BlendMode::PremultipliedAlpha
        } else {
            BlendMode::Replace
        },
        channels: ChannelMask::All,
        sample_count: plan.sample_count,
        sample_mask: u64::MAX,
        alpha_to_coverage: false,
        group,
    }
}

fn copy_slots(v: &Vec<LayoutSlot>) -> (r: Vec<LayoutSlot>)
    ensures
        r@ == v@,
{
    let mut r: Vec<LayoutSlot> = Vec::new();
    let mut i: usize = 0;
    while i < v.len()
        invariant
            i <= v@.len(),
            r@ == v@.take(i as int),
        decreases v@.len() - i,
    {
        r.push(v[i]);
        i = i + 1;
        proof {
            assert(r@ =~= v@.take(i as int));
        }
    }
    proof {
        assert(v@.take(v@.len() as int) =~= v@);
    }
    r
}

/// The plain description of the pipeline `plan` describes, for `format`,
/// with the slot table of `group` at set 0.
pub fn pipeline_desc(plan: &PipelinePlan, format: wgpu::TextureFormat, group: Option<&Vec<LayoutSlot>>) -> (d: PipelineDesc)
    requires
        plan.formats@.len() <= u32::MAX,
    ensures
        d@ == desc_of(plan@, format, match group {
            Some(g) => Some(g@),
            None => None,
        }),
{
    let (attrs, stride) = packed_attributes(&plan.formats);
    let g = match group {
        Some(v) => Some(copy_slots(v)),
        None => None,
    };
    let d = PipelineDesc {
        shader_label: plan.shader_label,
        layout_label: plan.layout_label,
        pipeline_label: plan.pipeline_label,
        source: plan.source,
        vertex_entry: "vs_main",
        fragment_entry: "fs_main",
        topology: Topology::TriangleList,
        step: StepMode::Vertex,
        stride,
        attrs,
        format,
        blend: if plan.premultiplied_blend {
            BlendMode::PremultipliedAlpha
        } else {
            BlendMode::Replace
        },
        channels: ChannelMask::All,
        sample_count: plan.sample_count,
        sample_mask: u64::MAX,
        alpha_to_coverage: false,
        group: g,
    };
    d
}

/// A shader module made by wgpu, kept with its WGSL source.
pub struct GpuShader {
    gpu: wgpu::ShaderModule,
    source: &'static str,
}

impl GpuShader {
    pub closed spec fn source(&self) -> Seq<char> {
        self.source@
    }
}

/// A pipeline layout made by wgpu, kept with the slot table of its one
/// bind-group layout, if any.
pub struct GpuPipelineLayout {
    gpu: wgpu::PipelineLayout,
    group: Option<Vec<LayoutSlot>>,
}

impl GpuPipelineLayout {
    pub closed spec fn group(&self) -> Option<Seq<LayoutSlot>> {
        group_view(self.group)
    }
}

/// wgpu vertex attributes converted one for one from plain ones, kept with
/// them and the vertex stride.
pub struct GpuVertexBuffer {
    gpu: Vec<VertexAttribute>,
    stride: u64,
    attrs: Vec<VertexAttr>,
}

impl GpuVertexBuffer {
    pub closed spec fn stride(&self) -> u64 {
        self.stride
    }

    pub closed spec fn attrs(&self) -> Seq<VertexAttr> {
        self.attrs@
    }
}

/// The wgpu vertex buffer layouts of a pipeline: one buffer stepped per
/// vertex, borrowing converted attributes, kept with their plain data.
pub struct GpuBufferLayouts<'a> {
    gpu: Vec<Option<VertexBufferLayout<'a>>>,
    step: StepMode,
    stride: u64,
    attrs: Vec<VertexAttr>,
}

impl<'a> GpuBufferLayouts<'a> {
    pub closed spec fn step(&self) -> StepMode {
        self.step
    }

    pub closed spec fn stride(&self) -> u64 {
        self.stride
    }

    pub closed spec fn attrs(&self) -> Seq<VertexAttr> {
        self.attrs@
    }
}

/// A wgpu colour target converted from plain data, kept with it.
pub struct GpuColorTarget {
    gpu: Vec<Option<ColorTargetState>>,
    format: wgpu::TextureFormat,
    blend: BlendMode,
    channels: ChannelMask,
}

impl GpuColorTarget {
    pub closed spec fn format(&self) -> wgpu::TextureFormat {
        self.format
    }

    pub closed spec fn blend(&self) -> BlendMode {
        self.blend
    }

    pub closed spec fn channels(&self) -> ChannelMask {
        self.channels
    }
}

/// wgpu primitive assembly converted from a topology, kept with it.
pub struct GpuPrimitive {
    gpu: PrimitiveState,
    topology: Topology,
}

impl GpuPrimitive {
    pub closed spec fn topology(&self) -> Topology {
        self.topology
    }
}

/// wgpu multisampling converted from plain data, kept with it.
pub struct GpuMultisample {
    gpu: MultisampleState,
    count: u32,
    mask: u64,
    alpha_to_coverage: bool,
}

impl GpuMultisample {
    pub closed spec fn count(&self) -> u32 {
        self.count
    }

    pub closed spec fn mask(&self) -> u64 {
        self.mask
    }

    pub closed spec fn alpha_to_coverage(&self) -> bool {
        self.alpha_to_coverage
    }
}

/// A render pipeline made by wgpu, kept with the description it was made
/// from.
pub struct GpuPipeline {
    gpu: wgpu::RenderPipeline,
    desc: PipelineDesc,
}

impl GpuPipeline {
    pub closed spec fn desc(&self) -> PipelineSpec {
        self.desc@
    }
}

/// `wgpu::Device::create_shader_module` for WGSL source `wgsl`, inside a
/// validation error scope of the device: `None` when wgpu reports a
/// validation error (WGSL that does not compile) or the scope's result is
/// not ready at once, the module with its source otherwise. Which of the
/// two comes is not stated.
/// Out-of-memory and internal GPU errors still go to the device's error
/// handler.
#[verifier::external_body]
fn device_create_shader(device: &wgpu::Device, label: &str, wgsl: &'static str) -> (r: Option<GpuShader>)
    ensures
        r matches Some(s) ==> s.source() == wgsl@,
{
    let scope = device.push_error_scope(ErrorFilter::Validation);
    let gpu = device.create_shader_module(wgpu::ShaderModuleDescriptor { label: Some(label), source: wgpu::ShaderSource::Wgsl(wgsl.into()) });
    match Box::pin(scope.pop()).as_mut().poll(&mut Context::from_waker(Waker::noop())) {
        Poll::Ready(None) => Some(GpuShader { gpu, source: wgsl }),
        _ => None,
    }
}

/// `wgpu::Device::create_pipeline_layout` with `group`, if any, as its one
/// bind-group layout and no immediate data, inside a validation error
/// scope: `None` when wgpu reports a validation error (a layout from
/// another device) or the scope's result is not ready at once, the layout
/// with the group's slot table otherwise. Which of the two comes is not
/// stated.
/// Out-of-memory and internal GPU errors still go to the device's error
/// handler.
#[verifier::external_body]
fn device_create_pipeline_layout(
    device: &wgpu::Device,
    label: &str,
    group: Option<&GpuBindGroupLayout>,
) -> (r: Option<GpuPipelineLayout>)
    ensures
        r matches Some(l) ==> l.group() == (match group {
            Some(g) => Some(g.slots()),
            None => None,
        }),
{
    let scope = device.push_error_scope(ErrorFilter::Validation);
    let layouts: Vec<Option<&wgpu::BindGroupLayout>> = group.iter().map(|g| Some(&g.gpu)).collect();
    let gpu = device.create_pipeline_layout(&wgpu::PipelineLayoutDescriptor { label: Some(label), bind_group_layouts: &layouts, immediate_size: 0 });
    match Box::pin(scope.pop()).as_mut().poll(&mut Context::from_waker(Waker::noop())) {
        Poll::Ready(None) => Some(GpuPipelineLayout { gpu, group: group.map(|g| g.slots.clone()) }),
        _ => None,
    }
}

/// Converts each attribute to a `wgpu::VertexAttribute` with the same
/// offset, its location as the shader location, and the format of the same
/// name; kept with the attributes and `stride`. Builds values only.
#[verifier::external_body]
fn vertex_buffer(stride: u64, attrs: &Vec<VertexAttr>) -> (r: GpuVertexBuffer)
    ensures
        r.stride() == stride,
        r.attrs() == attrs@,
{
    let gpu = attrs.iter().map(|a| VertexAttribute {
        format: match a.format {
            AttrFormat::Float32 => VertexFormat::Float32,
            AttrFormat::Float32x2 => VertexFormat::Float32x2,
            AttrFormat::Float32x4 => VertexFormat::Float32x4,
        },
        offset: a.offset,
        shader_location: a.location,
    }).collect();
    GpuVertexBuffer { gpu, stride, attrs: attrs.clone() }
}

/// One `wgpu::VertexBufferLayout` with `vb`'s stride and attributes, stepped
/// as `step` says (`VertexStepMode` of the same name); kept with the plain
/// data. Builds the value only.
#[verifier::external_body]
fn buffer_layouts<'a>(vb: &'a GpuVertexBuffer, step: StepMode) -> (r: GpuBufferLayouts<'a>)
    ensures
        r.step() == step,
        r.stride() == vb.stride(),
        r.attrs() == vb.attrs(),
{
    let step_mode = match step {
        StepMode::Vertex => VertexStepMode::Vertex,
    };
    let gpu = vec![Some(VertexBufferLayout { array_stride: vb.stride, step_mode, attributes: &vb.gpu })];
    GpuBufferLayouts { gpu, step, stride: vb.stride, attrs: vb.attrs.clone() }
}

/// `wgpu::ColorTargetState` for `format`: no blending for `Replace`,
/// `BlendState::PREMULTIPLIED_ALPHA_BLENDING` for `PremultipliedAlpha`,
/// `ColorWrites::ALL` for `All`; kept with its plain data. Builds the value
/// only.
#[verifier::external_body]
fn color_target(format: wgpu::TextureFormat, blend: BlendMode, channels: ChannelMask) -> (r: GpuColorTarget)
    ensures
        r.format() == format,
        r.blend() == blend,
        r.channels() == channels,
{
    let b = match blend {
        BlendMode::Replace => None,
        BlendMode::PremultipliedAlpha => Some(BlendState::PREMULTIPLIED_ALPHA_BLENDING),
    };
    let write_mask = match channels {
        ChannelMask::All => ColorWrites::ALL,
    };
    GpuColorTarget { gpu: vec![Some(ColorTargetState { format, blend: b, write_mask })], format, blend, channels }
}

/// `wgpu::PrimitiveState` with the topology of the same name and wgpu's
/// defaults otherwise (no strip index format, counter-clockwise front, no
/// culling, filled polygons, no clamping or conservative rasterization);
/// kept with the topology. Builds the value only.
#[verifier::external_body]
fn primitive_state(topology: Topology) -> (r: GpuPrimitive)
    ensures
        r.topology() == topology,
{
    let t = match topology {
        Topology::TriangleList => PrimitiveTopology::TriangleList,
    };
    GpuPrimitive { gpu: PrimitiveState { topology: t, ..Default::default() }, topology }
}

/// `wgpu::MultisampleState` with the given sample count, mask and
/// alpha-to-coverage; kept with them. Builds the value only.
#[verifier::external_body]
fn multisample_state(count: u32, mask: u64, alpha_to_coverage: bool) -> (r: GpuMultisample)
    ensures
        r.count() == count,
        r.mask() == mask,
        r.alpha_to_coverage() == alpha_to_coverage,
{
    let gpu = MultisampleState { count, mask, alpha_to_coverage_enabled: alpha_to_coverage };
    GpuMultisample { gpu, count, mask, alpha_to_coverage }
}

/// `wgpu::Device::create_render_pipeline` from `desc` and the converted
/// pieces made from it: `desc`'s label, `layout`, the buffer layouts `vb`,
/// `shader` at `desc`'s entry points with default compilation options,
/// `prim` and `ms`, no depth or stencil, `target` as the one colour target,
/// no multiview, no cache. Inside a validation error scope: `None` when
/// wgpu reports a validation error or the scope's result is not ready at
/// once, the pipeline with `desc` otherwise. Which of the two comes is not
/// stated.
/// Out-of-memory and internal GPU errors still go to the device's error
/// handler.
#[verifier::external_body]
fn device_create_render_pipeline(
    device: &wgpu::Device,
    desc: PipelineDesc,
    layout: &GpuPipelineLayout,
    shader: &GpuShader,
    vb: &GpuBufferLayouts,
    target: &GpuColorTarget,
    prim: &GpuPrimitive,
    ms: &GpuMultisample,
) -> (r: Option<GpuPipeline>)
    requires
        layout.group() == desc@.group,
        shader.source() == desc@.source,
        vb.step() == desc.step,
        vb.stride() == desc.stride,
        vb.attrs() == desc@.attrs,
        target.format() == desc.format,
        target.blend() == desc.blend,
        target.channels() == desc.channels,
        prim.topology() == desc.topology,
        ms.count() == desc.sample_count,
        ms.mask() == desc.sample_mask,
        ms.alpha_to_coverage() == desc.alpha_to_coverage,
    ensures
        r matches Some(p) ==> p.desc() == desc@,
{
    let scope = device.push_error_scope(ErrorFilter::Validation);
    let gpu = device.create_render_pipeline(&wgpu::RenderPipelineDescriptor {
        label: Some(desc.pipeline_label), layout: Some(&layout.gpu), primitive: prim.gpu, multisample: ms.gpu,
        vertex: VertexState { module: &shader.gpu, entry_point: Some(desc.vertex_entry), compilation_options: Default::default(), buffers: &vb.gpu },
        fragment: Some(FragmentState { module: &shader.gpu, entry_point: Some(desc.fragment_entry), compilation_options: Default::default(), targets: &target.gpu }),
        depth_stencil: None, multiview_mask: None, cache: None,
    });
    match Box::pin(scope.pop()).as_mut().poll(&mut Context::from_waker(Waker::noop())) {
        Poll::Ready(None) => Some(GpuPipeline { gpu, desc }),
        _ => None,
    }
}

/// Build the render pipeline a plan describes, for colour target `format`,
/// with `bind_group_layout`, if any, as bind group set 0. `None` when wgpu
/// rejects the shader, the layout or the pipeline; a pipeline is kept with
/// the description it was made from, which is `desc_of` the plan.
pub fn create_pipeline(
    device: &wgpu::Device,
    plan: &PipelinePlan,
    format: wgpu::TextureFormat,
    bind_group_layout: Option<&GpuBindGroupLayout>,
) -> (r: Option<GpuPipeline>)
    requires
        plan.formats@.len() <= u32::MAX,
    ensures
        r matches Some(p) ==> p.desc() == desc_of(plan@, format, match bind_group_layout {
            Some(l) => Some(l.slots()),
            None => None,
        }),
{
    let group = match bind_group_layout {
        Some(l) => Some(l.slot_table()),
        None => None,
    };
    let desc = pipeline_desc(plan, format, group);
    let shader = match device_create_shader(device, desc.shader_label, desc.source) {
        Some(s) => s,
        None => return None,
    };
    let layout = match device_create_pipeline_layout(device, desc.layout_label, bind_group_layout) {
        Some(l) => l,
        None => return None,
    };
    let va = vertex_buffer(desc.stride, &desc.attrs);
    let vb = buffer_layouts(&va, desc.step);
    let target = color_target(desc.format, desc.blend, desc.channels);
    let prim = primitive_state(desc.topology);
    let ms = multisample_state(desc.sample_count, desc.sample_mask, desc.alpha_to_coverage);
    device_create_render_pipeline(device, desc, &layout, &shader, &vb, &target, &prim, &ms)
}

/// Rectangle pipeline: coloured quads with rounded corners, strokes and
/// soft shadows.
pub fn create_rect_pipeline(device: &wgpu::Device, format: wgpu::TextureFormat, sample_count: u32) -> (r: Option<GpuPipeline>)
    ensures
        r matches Some(p) ==> p.desc() == desc_of(rect_plan_spec(sample_count), format, None),
{
    let plan = rect_plan(sample_count);
    create_pipeline(device, &plan, format, None)
}

/// Gradient pipeline: quads with linear gradient fills (four stops at most).
pub fn create_gradient_pipeline(device: &wgpu::Device, format: wgpu::TextureFormat, sample_count: u32) -> (r: Option<GpuPipeline>)
    ensures
        r matches Some(p) ==> p.desc() == desc_of(gradient_plan_spec(sample_count), format, None),
{
    let plan = gradient_plan(sample_count);
    create_pipeline(device, &plan, format, None)
}

/// Text pipeline: glyph quads sampled from the atlas bound at set 0.
pub fn create_text_pipeline(
    device: &wgpu::Device,
    format: wgpu::TextureFormat,
    bind_group_layout: &GpuBindGroupLayout,
    sample_count: u32,
) -> (r: Option<GpuPipeline>)
    ensures
        r matches Some(p) ==> p.desc() == desc_of(text_plan_spec(sample_count), format, Some(bind_group_layout.slots())),
{
    let plan = text_plan(sample_count);
    create_pipeline(device, &plan, format, Some(bind_group_layout))
}

/// Blend pipeline: blend-mode composition over the backdrop snapshot bound
/// at set 0.
pub fn create_blend_pipeline(
    device: &wgpu::Device,
    format: wgpu::TextureFormat,
    bind_group_layout: &GpuBindGroupLayout,
    sample_count: u32,
) -> (r: Option<GpuPipeline>)
    ensures
        r matches Some(p) ==> p.desc() == desc_of(blend_plan_spec(sample_count), format, Some(bind_group_layout.slots())),
{
    let plan = blend_plan(sample_count);
    create_pipeline(device, &plan, format, Some(bind_group_layout))
}

/// Blur pipeline: one separable gaussian pass over the texture bound at
/// set 0.
pub fn create_blur_pipeline(
    device: &wgpu::Device,
    format: wgpu::TextureFormat,
    bind_group_layout: &GpuBindGroupLayout,
) -> (r: Option<GpuPipeline>)
    ensures
        r matches Some(p) ==> p.desc() == desc_of(blur_plan_spec(), format, Some(bind_group_layout.slots())),
{
    let plan = blur_plan();
    create_pipeline(device, &plan, format, Some(bind_group_layout))
}

/// Composite pipeline: the blurred backdrop bound at set 0, masked into
/// the element's rounded rectangle.
pub fn create_composite_pipeline(
    device: &wgpu::Device,
    format: wgpu::TextureFormat,
    bind_group_layout: &GpuBindGroupLayout,
    sample_count: u32,
) -> (r: Option<GpuPipeline>)
    ensures
        r matches Some(p) ==> p.desc() == desc_of(composite_plan_spec(sample_count), format, Some(bind_group_layout.slots())),
{
    let plan = composite_plan(sample_count);
    create_pipeline(device, &plan, format, Some(bind_group_layout))
}

/// Blit pipeline: copies the texture bound at set 0 onto the target, one
/// sample whatever `_sample_count` says.
pub fn create_blit_pipeline(
    device: &wgpu::Device,
    format: wgpu::TextureFormat,
    bind_group_layout: &GpuBindGroupLayout,
    _sample_count: u32,
) -> (r: Option<GpuPipeline>)
    ensures
        r matches Some(p) ==> p.desc() == desc_of(blit_plan_spec(), format, Some(bind_group_layout.slots())),
{
    let plan = blit_plan();
    create_pipeline(device, &plan, format, Some(bind_group_layout))
}

/// Path pipeline: tessellated vector paths.
pub fn create_path_pipeline(device: &wgpu::Device, format: wgpu::TextureFormat, sample_count: u32) -> (r: Option<GpuPipeline>)
    ensures
        r matches Some(p) ==> p.desc() == desc_of(path_plan_spec(sample_count), format, None),
{
    let plan = path_plan(sample_count);
    create_pipeline(device, &plan, format, None)
}

} // verus!
