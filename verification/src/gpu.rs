//! GPU backend: bind-group layouts and bind groups of the wgpu pipelines,
//! the frame handed to drawing, and the backend error kinds.
//!
//! Every layout here is a short table of slots, all visible to the
//! fragment stage; the table is decided by verified code and handed to
//! wgpu, which builds the opaque GPU object.

use vstd::prelude::*;
use std::future::Future;
use std::task::{Context, Poll, Waker};
use wgpu::{
    AddressMode as WgpuAddress, BindGroupEntry, BindGroupLayoutEntry, BindingResource, BindingType,
    BufferBindingType, ErrorFilter, FilterMode as WgpuFilter, SamplerBindingType, ShaderStages,
    TextureSampleType, TextureViewDimension,
};

verus! {

#[verifier::external_type_specification]
#[verifier::external_body]
pub struct ExDevice(wgpu::Device);

#[verifier::external_type_specification]
#[verifier::external_body]
pub struct ExBindGroupLayout(wgpu::BindGroupLayout);

#[verifier::external_type_specification]
#[verifier::external_body]
pub struct ExBindGroupLayoutEntry(wgpu::BindGroupLayoutEntry);

#[verifier::external_type_specification]
#[verifier::external_body]
pub struct ExBindGroup(wgpu::BindGroup);

#[verifier::external_type_specification]
#[verifier::external_body]
pub struct ExTextureView(wgpu::TextureView);

#[verifier::external_type_specification]
#[verifier::external_body]
pub struct ExSampler(wgpu::Sampler);

#[verifier::external_type_specification]
#[verifier::external_body]
pub struct ExBindGroupEntry<'a>(wgpu::BindGroupEntry<'a>);

#[verifier::external_type_specification]
#[verifier::external_body]
pub struct ExSurfaceTexture(wgpu::SurfaceTexture);

#[verifier::external_type_specification]
#[verifier::external_body]
pub struct ExCommandEncoder(wgpu::CommandEncoder);

/// One frame being drawn: the swap-chain texture, a view of it and the
/// encoder that records the frame's passes.
pub struct Frame {
    pub texture: wgpu::SurfaceTexture,
    pub view: wgpu::TextureView,
    pub encoder: wgpu::CommandEncoder,
}

/// Why the GPU backend could not start or draw.
#[derive(Clone, Copy, Debug, PartialEq, Eq, Structural)]
pub enum RenderError {
    NoAdapter,
    Surface,
    Device,
}

impl RenderError {
    /// The text the error displays: the same for every kind.
    pub fn message(&self) -> (s: &'static str)
        ensures
            s@ == "render error"@,
    {
        "render error"
    }
}

/// Which backend an application asks for.
#[derive(Clone, Copy, Debug, PartialEq, Eq, Structural)]
pub enum RendererChoice {
    Auto,
    Gpu,
    Cpu,
}

/// Why the CPU backend could not start.
#[derive(Clone, Copy, Debug, PartialEq, Eq, Structural)]
pub enum RendererError {
    Surface,
    NoAdapter,
}

impl RendererError {
    /// The text the error displays.
    pub fn message(&self) -> (s: &'static str)
        ensures
            *self == RendererError::Surface ==> s@ == "CPU surface error"@,
            *self == RendererError::NoAdapter ==> s@ == "no rendering adapter"@,
    {
        match self {
            RendererError::Surface => "CPU surface error",
            RendererError::NoAdapter => "no rendering adapter",
        }
    }
}

/// What a bind-group slot holds.
#[derive(Clone, Copy, Debug, PartialEq, Eq, Structural)]
pub enum SlotKind {
    /// A filterable 2-D float texture, not multisampled.
    FilterableTexture2d,
    /// A filtering sampler.
    FilteringSampler,
    /// A uniform buffer without dynamic offset or minimum size.
    UniformBuffer,
}

/// The shader stages that see a slot.
#[derive(Clone, Copy, Debug, PartialEq, Eq, Structural)]
pub enum ShaderStage {
    Vertex,
    Fragment,
    VertexFragment,
}

/// One slot of a bind-group layout.
#[derive(Clone, Copy, Debug, PartialEq, Eq, Structural)]
pub struct LayoutSlot {
    pub binding: u32,
    pub kind: SlotKind,
    pub stage: ShaderStage,
}

/// Texture at binding 0, its sampler at binding 1, both seen by the
/// fragment stage: the layout of the text, blend and blit passes.
pub open spec fn texture_sampler_slots() -> Seq<LayoutSlot> {
    seq![
        LayoutSlot { binding: 0, kind: SlotKind::FilterableTexture2d, stage: ShaderStage::Fragment },
        LayoutSlot { binding: 1, kind: SlotKind::FilteringSampler, stage: ShaderStage::Fragment },
    ]
}

/// Texture, sampler and the blur parameters at binding 2: the layout of
/// the blur passes.
pub open spec fn blur_slots() -> Seq<LayoutSlot> {
    texture_sampler_slots().push(
        LayoutSlot { binding: 2, kind: SlotKind::UniformBuffer, stage: ShaderStage::Fragment },
    )
}

/// Slots are numbered 0, 1, 2, ... in order, so no binding repeats.
pub open spec fn numbered_in_order(s: Seq<LayoutSlot>) -> bool {
    forall|i: int| 0 <= i < s.len() ==> #[trigger] s[i].binding == i
}

/// Both layouts number their slots 0, 1, 2, ... and the blur layout
/// extends the texture-and-sampler one.
pub proof fn lemma_layouts_numbered()
    ensures
        numbered_in_order(texture_sampler_slots()),
        numbered_in_order(blur_slots()),
        blur_slots().take(2) == texture_sampler_slots(),
{
    assert(blur_slots().take(2) =~= texture_sampler_slots());
}

/// The slot table of the text, blend and blit layouts.
pub fn texture_sampler_layout_slots() -> (v: Vec<LayoutSlot>)
    ensures
        v@ == texture_sampler_slots(),
{
    let mut v: Vec<LayoutSlot> = Vec::new();
    v.push(LayoutSlot { binding: 0, kind: SlotKind::FilterableTexture2d, stage: ShaderStage::Fragment });
    v.push(LayoutSlot { binding: 1, kind: SlotKind::FilteringSampler, stage: ShaderStage::Fragment });
    proof {
        assert(v@ =~= texture_sampler_slots());
    }
    v
}

/// The slot table of the blur layout.
pub fn blur_layout_slots() -> (v: Vec<LayoutSlot>)
    ensures
        v@ == blur_slots(),
{
    let mut v = texture_sampler_layout_slots();
    v.push(LayoutSlot { binding: 2, kind: SlotKind::UniformBuffer, stage: ShaderStage::Fragment });
    v
}

/// How a sampler addresses texels outside the texture.
#[derive(Clone, Copy, Debug, PartialEq, Eq, Structural)]
pub enum AddressMode {
    ClampToEdge,
    Repeat,
    MirrorRepeat,
}

/// How a sampler filters between texels.
#[derive(Clone, Copy, Debug, PartialEq, Eq, Structural)]
pub enum FilterMode {
    Nearest,
    Linear,
}

/// A sampler: one address mode for every axis, magnification and
/// minification filters; wgpu's defaults for everything else.
#[derive(Clone, Copy, Debug, PartialEq, Eq, Structural)]
pub struct SamplerDesc {
    pub address: AddressMode,
    pub mag: FilterMode,
    pub min: FilterMode,
}

/// The glyph sampler: clamp to edge, nearest filtering both ways.
pub open spec fn glyph_sampler() -> SamplerDesc {
    SamplerDesc { address: AddressMode::ClampToEdge, mag: FilterMode::Nearest, min: FilterMode::Nearest }
}

/// The glyph sampler's description.
pub fn glyph_sampler_desc() -> (d: SamplerDesc)
    ensures
        d == glyph_sampler(),
{
    SamplerDesc { address: AddressMode::ClampToEdge, mag: FilterMode::Nearest, min: FilterMode::Nearest }
}

/// wgpu layout entries converted one for one from a slot table, kept with
/// that table.
pub struct GpuLayoutEntries {
    gpu: Vec<BindGroupLayoutEntry>,
    slots: Vec<LayoutSlot>,
}

impl GpuLayoutEntries {
    /// The slot table the entries were converted from.
    pub closed spec fn slots(&self) -> Seq<LayoutSlot> {
        self.slots@
    }
}

/// A bind-group layout made by wgpu, kept with the slot table it was made
/// from.
pub struct GpuBindGroupLayout {
    pub(crate) gpu: wgpu::BindGroupLayout,
    pub(crate) slots: Vec<LayoutSlot>,
}

impl GpuBindGroupLayout {
    /// The slot table the layout was made from.
    pub closed spec fn slots(&self) -> Seq<LayoutSlot> {
        self.slots@
    }

    /// The slot table the layout was made from.
    pub fn slot_table(&self) -> (v: &Vec<LayoutSlot>)
        ensures
            v@ == self.slots(),
    {
        &self.slots
    }
}

/// A sampler made by wgpu, kept with the description it was made from.
pub struct GpuSampler {
    gpu: wgpu::Sampler,
    desc: SamplerDesc,
}

impl GpuSampler {
    /// The description the sampler was made from.
    pub closed spec fn desc(&self) -> SamplerDesc {
        self.desc
    }

    /// The sampler handle.
    pub closed spec fn handle(&self) -> wgpu::Sampler {
        self.gpu
    }
}

/// The sampler bound in a texture bind group: one the caller holds, or one
/// made from a description.
pub enum BoundSampler<'a> {
    Given(&'a wgpu::Sampler),
    Made(&'a GpuSampler),
}

/// The entries of a texture bind group, kept with what they bind.
pub struct GpuTextureEntries<'a> {
    gpu: [BindGroupEntry<'a>; 2],
    view: wgpu::TextureView,
    view_binding: u32,
    sampler: wgpu::Sampler,
    sampler_binding: u32,
    sampler_desc: Option<SamplerDesc>,
}

impl<'a> GpuTextureEntries<'a> {
    pub closed spec fn view(&self) -> wgpu::TextureView {
        self.view
    }

    pub closed spec fn view_binding(&self) -> u32 {
        self.view_binding
    }

    pub closed spec fn sampler(&self) -> wgpu::Sampler {
        self.sampler
    }

    pub closed spec fn sampler_binding(&self) -> u32 {
        self.sampler_binding
    }

    pub closed spec fn sampler_desc(&self) -> Option<SamplerDesc> {
        self.sampler_desc
    }
}

/// A texture bind group made by wgpu, kept with what it binds: the layout's
/// slot table, the texture view and its binding, the sampler and its
/// binding, and the sampler's description when it was made from one.
pub struct GpuBindGroup {
    gpu: wgpu::BindGroup,
    slots: Vec<LayoutSlot>,
    view: wgpu::TextureView,
    view_binding: u32,
    sampler: wgpu::Sampler,
    sampler_binding: u32,
    sampler_desc: Option<SamplerDesc>,
}

impl GpuBindGroup {
    pub closed spec fn slots(&self) -> Seq<LayoutSlot> {
        self.slots@
    }

    /// The texture view bound.
    pub closed spec fn view(&self) -> wgpu::TextureView {
        self.view
    }

    pub closed spec fn view_binding(&self) -> u32 {
        self.view_binding
    }

    /// The sampler bound.
    pub closed spec fn sampler(&self) -> wgpu::Sampler {
        self.sampler
    }

    pub closed spec fn sampler_binding(&self) -> u32 {
        self.sampler_binding
    }

    /// The description of the bound sampler, when it was made from one.
    pub closed spec fn sampler_desc(&self) -> Option<SamplerDesc> {
        self.sampler_desc
    }
}

/// Converts each slot to a `wgpu::BindGroupLayoutEntry`, one for one: the
/// slot's binding; its stages as `ShaderStages`; a filterable 2-D float
/// texture (not multisampled), a filtering sampler, or a uniform buffer
/// without dynamic offset or minimum size; no array count. Builds values
/// only; the table is kept beside them.
#[verifier::external_body]
fn layout_entries(slots: &Vec<LayoutSlot>) -> (r: GpuLayoutEntries)
    ensures
        r.slots() == slots@,
{
    let gpu = slots.iter().map(|s| BindGroupLayoutEntry {
        binding: s.binding,
        visibility: match s.stage { ShaderStage::Vertex => ShaderStages::VERTEX, ShaderStage::Fragment => ShaderStages::FRAGMENT, ShaderStage::VertexFragment => ShaderStages::VERTEX_FRAGMENT },
        ty: match s.kind {
            SlotKind::FilterableTexture2d => BindingType::Texture { sample_type: TextureSampleType::Float { filterable: true }, view_dimension: TextureViewDimension::D2, multisampled: false },
            SlotKind::FilteringSampler => BindingType::Sampler(SamplerBindingType::Filtering),
            SlotKind::UniformBuffer => BindingType::Buffer { ty: BufferBindingType::Uniform, has_dynamic_offset: false, min_binding_size: None },
        },
        count: None,
    }).collect();
    GpuLayoutEntries { gpu, slots: slots.clone() }
}

/// `wgpu::Device::create_bind_group_layout` with the given label and
/// entries, inside a validation error scope of the device: `None` when
/// wgpu reports a validation error (a repeated binding, a limit passed) or
/// the scope's result is not ready at once, the layout with the entries'
/// slot table otherwise. Which of the two comes is not stated. Out-of-memory
/// and internal GPU errors still go to the device's error handler.
#[verifier::external_body]
fn device_create_bind_group_layout(
    device: &wgpu::Device,
    label: &str,
    entries: &GpuLayoutEntries,
) -> (r: Option<GpuBindGroupLayout>)
    ensures
        r matches Some(l) ==> l.slots() == entries.slots(),
{
    let scope = device.push_error_scope(ErrorFilter::Validation);
    let gpu = device.create_bind_group_layout(&wgpu::BindGroupLayoutDescriptor { label: Some(label), entries: &entries.gpu });
    match Box::pin(scope.pop()).as_mut().poll(&mut Context::from_waker(Waker::noop())) {
        Poll::Ready(None) => Some(GpuBindGroupLayout { gpu, slots: entries.slots.clone() }),
        _ => None,
    }
}

/// `wgpu::Device::create_sampler` with `d`'s address mode on every axis,
/// its magnification and minification filters, and wgpu's defaults
/// otherwise (no mipmap filtering, no comparison, no anisotropy); kept
/// with `d`. Every such descriptor is valid. The sampler is an opaque GPU
/// object.
#[verifier::external_body]
fn device_create_sampler(device: &wgpu::Device, label: &str, d: SamplerDesc) -> (s: GpuSampler)
    ensures
        s.desc() == d,
{
    let a = match d.address {
        AddressMode::ClampToEdge => WgpuAddress::ClampToEdge,
        AddressMode::Repeat => WgpuAddress::Repeat,
        AddressMode::MirrorRepeat => WgpuAddress::MirrorRepeat,
    };
    let f = |m: FilterMode| match m {
        FilterMode::Nearest => WgpuFilter::Nearest,
        FilterMode::Linear => WgpuFilter::Linear,
    };
    let gpu = device.create_sampler(&wgpu::SamplerDescriptor { label: Some(label), address_mode_u: a, address_mode_v: a, address_mode_w: a, mag_filter: f(d.mag), min_filter: f(d.min), ..Default::default() });
    GpuSampler { gpu, desc: d }
}

/// The two `wgpu::BindGroupEntry` values of a texture bind group: `view` at
/// `view_binding`, the sampler at `sampler_binding`; kept with clones of
/// the view and sampler handles (which wgpu compares equal to them), the
/// bindings, and the made sampler's description. Builds values only.
#[verifier::external_body]
fn texture_entries<'a>(
    view_binding: u32,
    view: &'a wgpu::TextureView,
    sampler_binding: u32,
    sampler: BoundSampler<'a>,
) -> (r: GpuTextureEntries<'a>)
    ensures
        r.view() == *view,
        r.view_binding() == view_binding,
        r.sampler_binding() == sampler_binding,
        match sampler {
            BoundSampler::Given(s) => r.sampler() == *s && r.sampler_desc() is None,
            BoundSampler::Made(m) => r.sampler() == m.handle() && r.sampler_desc() == Some(m.desc()),
        },
{
    let (smp, sampler_desc) = match sampler {
        BoundSampler::Given(s) => (s, None),
        BoundSampler::Made(m) => (&m.gpu, Some(m.desc)),
    };
    let gpu = [BindGroupEntry { binding: view_binding, resource: BindingResource::TextureView(view) }, BindGroupEntry { binding: sampler_binding, resource: BindingResource::Sampler(smp) }];
    GpuTextureEntries { gpu, view: view.clone(), view_binding, sampler: smp.clone(), sampler_binding, sampler_desc }
}

/// `wgpu::Device::create_bind_group` for `layout` with `entries`, inside a
/// validation error scope: `None` when wgpu reports a validation error (the
/// layout does not fit the bindings or resources, or they come from
/// another device) or the scope's result is not ready at once; otherwise
/// the group with the layout's slot table and what `entries` binds. Which
/// of the two comes is not stated. Out-of-memory and internal GPU errors
/// still go to the device's error handler.
#[verifier::external_body]
fn device_create_texture_bind_group(
    device: &wgpu::Device,
    label: &str,
    layout: &GpuBindGroupLayout,
    entries: &GpuTextureEntries,
) -> (r: Option<GpuBindGroup>)
    ensures
        r matches Some(g) ==> {
            &&& g.slots() == layout.slots()
            &&& g.view() == entries.view()
            &&& g.view_binding() == entries.view_binding()
            &&& g.sampler() == entries.sampler()
            &&& g.sampler_binding() == entries.sampler_binding()
            &&& g.sampler_desc() == entries.sampler_desc()
        },
{
    let scope = device.push_error_scope(ErrorFilter::Validation);
    let gpu = device.create_bind_group(&wgpu::BindGroupDescriptor { label: Some(label), layout: &layout.gpu, entries: &entries.gpu });
    let e = entries;
    match Box::pin(scope.pop()).as_mut().poll(&mut Context::from_waker(Waker::noop())) {
        Poll::Ready(None) => Some(GpuBindGroup { gpu, slots: layout.slots.clone(), view: e.view.clone(), view_binding: e.view_binding, sampler: e.sampler.clone(), sampler_binding: e.sampler_binding, sampler_desc: e.sampler_desc }),
        _ => None,
    }
}

/// Build a bind-group layout from a slot table: one entry per slot, in
/// order. `None` when wgpu rejects the table (see
/// `device_create_bind_group_layout`); a layout is kept with the table it
/// was made from.
pub fn create_layout_from_slots(
    device: &wgpu::Device,
    label: &str,
    slots: &Vec<LayoutSlot>,
) -> (r: Option<GpuBindGroupLayout>)
    ensures
        r matches Some(l) ==> l.slots() == slots@,
{
    let entries = layout_entries(slots);
    device_create_bind_group_layout(device, label, &entries)
}

/// Layout of the text pass: glyph texture and its sampler.
pub fn create_text_bind_group_layout(device: &wgpu::Device) -> (r: Option<GpuBindGroupLayout>)
    ensures
        r matches Some(l) ==> l.slots() == texture_sampler_slots(),
{
    let slots = texture_sampler_layout_slots();
    create_layout_from_slots(device, "text bind group layout", &slots)
}

/// Layout of the blend pass: texture and sampler only (blend mode and UV
/// are baked into vertex data).
pub fn create_blend_bind_group_layout(device: &wgpu::Device) -> (r: Option<GpuBindGroupLayout>)
    ensures
        r matches Some(l) ==> l.slots() == texture_sampler_slots(),
{
    create_text_bind_group_layout(device)
}

/// Layout of the blit pass: the same texture-and-sampler layout.
pub fn create_blit_bind_group_layout(device: &wgpu::Device) -> (r: Option<GpuBindGroupLayout>)
    ensures
        r matches Some(l) ==> l.slots() == texture_sampler_slots(),
{
    create_text_bind_group_layout(device)
}

/// Layout of the blur passes: texture, sampler and blur parameters.
pub fn create_blur_bind_group_layout(device: &wgpu::Device) -> (r: Option<GpuBindGroupLayout>)
    ensures
        r matches Some(l) ==> l.slots() == blur_slots(),
{
    let slots = blur_layout_slots();
    create_layout_from_slots(device, "blur bind group layout", &slots)
}

/// Bind a glyph atlas texture at binding 0 with `sampler` at binding 1, or,
/// when none is given, with a glyph sampler (clamp to edge, nearest
/// filtering) made for the group. `None` when wgpu rejects the group.
pub fn create_atlas_bind_group(
    device: &wgpu::Device,
    bind_group_layout: &GpuBindGroupLayout,
    texture_view: &wgpu::TextureView,
    sampler: Option<&wgpu::Sampler>,
) -> (r: Option<GpuBindGroup>)
    ensures
        r matches Some(g) ==> {
            &&& g.slots() == bind_group_layout.slots()
            &&& g.view() == *texture_view
            &&& g.view_binding() == 0
            &&& g.sampler_binding() == 1
            &&& match sampler {
                Some(s) => g.sampler() == *s && g.sampler_desc() is None,
                None => g.sampler_desc() == Some(glyph_sampler()),
            }
        },
{
    match sampler {
        Some(s) => {
            let entries = texture_entries(0, texture_view, 1, BoundSampler::Given(s));
            device_create_texture_bind_group(device, "text bind group", bind_group_layout, &entries)
        },
        None => {
            let local = device_create_sampler(device, "glyph sampler", glyph_sampler_desc());
            let entries = texture_entries(0, texture_view, 1, BoundSampler::Made(&local));
            device_create_texture_bind_group(device, "text bind group", bind_group_layout, &entries)
        },
    }
}

} // verus!
