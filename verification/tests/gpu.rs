use burin::gpu::{
    blur_layout_slots, glyph_sampler_desc, texture_sampler_layout_slots, AddressMode, FilterMode,
    LayoutSlot, RenderError, RendererChoice, RendererError, SamplerDesc, ShaderStage, SlotKind,
};

#[test]
fn texture_and_sampler_layout() {
    assert_eq!(
        texture_sampler_layout_slots(),
        vec![
            LayoutSlot { binding: 0, kind: SlotKind::FilterableTexture2d, stage: ShaderStage::Fragment },
            LayoutSlot { binding: 1, kind: SlotKind::FilteringSampler, stage: ShaderStage::Fragment },
        ]
    );
}

#[test]
fn blur_layout_adds_uniform_buffer() {
    let slots = blur_layout_slots();
    assert_eq!(slots.len(), 3);
    assert_eq!(&slots[..2], &texture_sampler_layout_slots()[..]);
    assert_eq!(slots[2], LayoutSlot { binding: 2, kind: SlotKind::UniformBuffer, stage: ShaderStage::Fragment });
    for (i, s) in slots.iter().enumerate() {
        assert_eq!(s.binding as usize, i);
    }
}

#[test]
fn error_messages() {
    assert_eq!(RenderError::NoAdapter.message(), "render error");
    assert_eq!(RenderError::Surface.message(), "render error");
    assert_eq!(RenderError::Device.message(), "render error");
    assert_eq!(RendererError::Surface.message(), "CPU surface error");
    assert_eq!(RendererError::NoAdapter.message(), "no rendering adapter");
}

#[test]
fn renderer_choice_compares_by_variant() {
    assert_eq!(RendererChoice::Auto, RendererChoice::Auto);
    assert_ne!(RendererChoice::Gpu, RendererChoice::Cpu);
}

use burin::pipeline::{
    blit_plan, blur_plan, gradient_plan, packed_attributes, path_plan, pipeline_desc, rect_plan,
    text_plan, AttrFormat, BlendMode, ChannelMask, StepMode, Topology, VertexAttr,
};

#[test]
fn rect_vertex_attributes_are_packed_back_to_back() {
    let plan = rect_plan(4);
    let (attrs, stride) = packed_attributes(&plan.formats);
    let offsets: Vec<u64> = attrs.iter().map(|a| a.offset).collect();
    assert_eq!(offsets, vec![0, 8, 24, 32, 48, 56, 60, 68, 76, 92, 108, 124, 128]);
    assert_eq!(stride, 132);
    for (i, a) in attrs.iter().enumerate() {
        assert_eq!(a.location as usize, i);
    }
    assert_eq!((plan.sample_count, plan.premultiplied_blend), (4, true));
    assert_eq!(plan.pipeline_label, "rect pipeline");
}

#[test]
fn vertex_strides_match_the_vertex_structs() {
    assert_eq!(packed_attributes(&gradient_plan(1).formats).1, 188);
    assert_eq!(packed_attributes(&text_plan(1).formats).1, 60);
    assert_eq!(packed_attributes(&blit_plan().formats).1, 16);
    assert_eq!(packed_attributes(&path_plan(1).formats).1, 64);
}

#[test]
fn gradient_offsets() {
    let (attrs, _) = packed_attributes(&gradient_plan(1).formats);
    let offsets: Vec<u64> = attrs.iter().map(|a| a.offset).collect();
    assert_eq!(offsets, vec![0, 8, 16, 32, 40, 44, 52, 60, 76, 92, 108, 124, 140, 156, 172, 180]);
}

#[test]
fn blur_and_blit_replace_with_one_sample() {
    for plan in [blur_plan(), blit_plan()] {
        assert!(!plan.premultiplied_blend);
        assert_eq!(plan.sample_count, 1);
    }
    assert_eq!(blur_plan().shader_label, "blur shader");
    assert!(blit_plan().source.contains("fs_main"));
}

#[test]
fn packing_an_explicit_list() {
    let fs = vec![AttrFormat::Float32, AttrFormat::Float32x4, AttrFormat::Float32x2];
    let (attrs, stride) = packed_attributes(&fs);
    assert_eq!(
        attrs,
        vec![
            VertexAttr { format: AttrFormat::Float32, offset: 0, location: 0 },
            VertexAttr { format: AttrFormat::Float32x4, offset: 4, location: 1 },
            VertexAttr { format: AttrFormat::Float32x2, offset: 20, location: 2 },
        ]
    );
    assert_eq!(stride, 28);
    assert_eq!(packed_attributes(&Vec::new()), (Vec::new(), 0));
}

#[test]
fn glyph_sampler_clamps_and_takes_the_nearest_texel() {
    assert_eq!(
        glyph_sampler_desc(),
        SamplerDesc { address: AddressMode::ClampToEdge, mag: FilterMode::Nearest, min: FilterMode::Nearest }
    );
}

#[test]
fn rect_pipeline_description() {
    let d = pipeline_desc(&rect_plan(4), wgpu::TextureFormat::Bgra8UnormSrgb, None);
    assert_eq!(d.stride, 132);
    assert_eq!(d.attrs.len(), 13);
    assert_eq!(d.attrs[1], VertexAttr { format: AttrFormat::Float32x4, offset: 8, location: 1 });
    assert_eq!(d.attrs[12], VertexAttr { format: AttrFormat::Float32, offset: 128, location: 12 });
    assert_eq!((d.vertex_entry, d.fragment_entry), ("vs_main", "fs_main"));
    assert_eq!(d.topology, Topology::TriangleList);
    assert_eq!(d.step, StepMode::Vertex);
    assert_eq!(d.blend, BlendMode::PremultipliedAlpha);
    assert_eq!(d.channels, ChannelMask::All);
    assert_eq!((d.sample_count, d.sample_mask, d.alpha_to_coverage), (4, u64::MAX, false));
    assert_eq!(d.format, wgpu::TextureFormat::Bgra8UnormSrgb);
    assert!(d.group.is_none());
    assert_eq!(d.pipeline_label, "rect pipeline");
}

#[test]
fn blit_pipeline_description_replaces_with_one_sample() {
    let slots = texture_sampler_layout_slots();
    let d = pipeline_desc(&blit_plan(), wgpu::TextureFormat::Rgba8Unorm, Some(&slots));
    assert_eq!(d.stride, 16);
    assert_eq!(d.blend, BlendMode::Replace);
    assert_eq!(d.sample_count, 1);
    assert_eq!(d.group, Some(slots));
}
