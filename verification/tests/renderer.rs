use scop::mesh::DrawBatch;
use scop::ppm::Image;
use scop::renderer::{flip_rows, validate_texture_dimensions, RenderBatch, Renderer};

#[test]
fn flip_rows_converts_ppm_top_left_origin_for_opengl() {
    let image = Image {
        width: 1,
        height: 2,
        pixels: vec![1, 2, 3, 4, 5, 6],
    };

    assert_eq!(flip_rows(&image), [4, 5, 6, 1, 2, 3]);
}

#[test]
fn flip_rows_twice_gives_back_the_pixels() {
    let pixels: Vec<u8> = (0..24).collect();
    let image = Image { width: 2, height: 4, pixels: pixels.clone() };
    let flipped = Image { width: 2, height: 4, pixels: flip_rows(&image) };

    assert_eq!(flipped.pixels[..6], [18, 19, 20, 21, 22, 23]);
    assert_eq!(flip_rows(&flipped), pixels);
}

#[test]
fn flip_rows_drops_an_incomplete_last_row() {
    let image = Image { width: 1, height: 2, pixels: vec![1, 2, 3, 4, 5, 6, 7] };

    assert_eq!(flip_rows(&image), [4, 5, 6, 1, 2, 3]);
}

#[test]
fn texture_dimensions_must_fit_opengl() {
    let wide = Image { width: 2147483648, height: 1, pixels: Vec::new() };
    let tall = Image { width: 1, height: 2147483648, pixels: Vec::new() };
    let fine = Image { width: 2147483647, height: 2147483647, pixels: Vec::new() };

    assert_eq!(
        validate_texture_dimensions(&wide).unwrap_err().message(),
        "OpenGL error: a texture is too wide"
    );
    assert_eq!(
        validate_texture_dimensions(&tall).unwrap_err().message(),
        "OpenGL error: a texture is too tall"
    );
    assert!(validate_texture_dimensions(&fine).is_ok());
}

#[test]
fn batches_convert_to_opengl_counts() {
    let batch = DrawBatch { first_vertex: 3, vertex_count: 6, texture: Some(1), normal_map: None };
    let converted = RenderBatch::try_from(batch).unwrap();
    assert_eq!(converted, RenderBatch { first_vertex: 3, vertex_count: 6, texture: Some(1), normal_map: None });

    let far = DrawBatch { first_vertex: 2147483648, vertex_count: 3, texture: None, normal_map: None };
    assert_eq!(
        RenderBatch::try_from(far).unwrap_err().message(),
        "OpenGL error: the model has too many vertices"
    );
    let long = DrawBatch { first_vertex: 0, vertex_count: 2147483648, texture: None, normal_map: None };
    assert_eq!(
        RenderBatch::try_from(long).unwrap_err().message(),
        "OpenGL error: a draw batch has too many vertices"
    );
}

#[test]
fn prepare_checks_texture_count_then_dimensions_then_batches() {
    let small = Image { width: 1, height: 1, pixels: vec![0, 0, 0] };
    let wide = Image { width: 4000000000, height: 1, pixels: Vec::new() };
    let batches = vec![DrawBatch { first_vertex: 0, vertex_count: 3, texture: Some(0), normal_map: None }];

    assert_eq!(
        Renderer::prepare(2, &vec![], &small, &batches).unwrap_err().message(),
        "OpenGL error: material texture count does not match the mesh"
    );
    assert_eq!(
        Renderer::prepare(0, &vec![], &wide, &batches).unwrap_err().message(),
        "OpenGL error: a texture is too wide"
    );
    let prepared = Renderer::prepare(1, &vec![Image { width: 1, height: 1, pixels: vec![0, 0, 0] }], &small, &batches).unwrap();
    assert_eq!(prepared, [RenderBatch { first_vertex: 0, vertex_count: 3, texture: Some(0), normal_map: None }]);
}

#[test]
fn untextured_batches_use_the_fallback_only_without_material_library() {
    let batches = vec![
        RenderBatch { first_vertex: 0, vertex_count: 3, texture: Some(0), normal_map: None },
        RenderBatch { first_vertex: 3, vertex_count: 6, texture: None, normal_map: None },
    ];
    let with_fallback = Renderer::assemble(1, 2, 3, vec![10, 11], batches.clone(), true, 4, 5);
    assert_eq!(with_fallback.draw_calls(), [(0, 3, Some(10)), (3, 6, Some(11))]);
    assert_eq!(with_fallback.objects(), (1, 2, 3));
    assert_eq!(with_fallback.uniform_locations(), (4, 5));

    let without = Renderer::assemble(1, 2, 3, vec![10, 11], batches, false, 4, 5);
    assert_eq!(without.draw_calls(), [(0, 3, Some(10)), (3, 6, None)]);
}
