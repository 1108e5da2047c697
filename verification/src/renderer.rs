//! What the renderer decides before and while it hands a model to OpenGL:
//! which inputs it accepts, how draw batches become OpenGL draw calls, which
//! texture each batch is drawn with, and how image rows are reordered for
//! OpenGL's bottom-left origin.

use vstd::prelude::*;

use crate::error::AppError;
use crate::mesh::DrawBatch;
use crate::ppm::Image;

verus! {

// ---------------------------------------------------------------------------
// Row order.
// ---------------------------------------------------------------------------

/// The complete rows of `pixels`, `row_size` bytes each, from the last row
/// to the first; bytes after the last complete row are dropped.
pub open spec fn flipped_rows(pixels: Seq<u8>, row_size: nat) -> Seq<u8>
    decreases pixels.len(),
{
    if row_size == 0 || pixels.len() < row_size {
        Seq::empty()
    } else {
        flipped_rows(pixels.subrange(row_size as int, pixels.len() as int), row_size)
            + pixels.subrange(0, row_size as int)
    }
}

proof fn lemma_flipped_rows_prefix(pixels: Seq<u8>, row_size: nat, rows: nat)
    requires
        row_size > 0,
        rows * row_size <= pixels.len() < rows * row_size + row_size,
    ensures
        flipped_rows(pixels, row_size) == flipped_rows(
            pixels.subrange(0, (rows * row_size) as int),
            row_size,
        ),
    decreases rows,
{
    let full = (rows * row_size) as int;
    let prefix = pixels.subrange(0, full);
    if rows == 0 {
        assert(rows * row_size == 0) by (nonlinear_arith)
            requires
                rows == 0,
        ;
        assert(prefix.len() == 0);
    } else {
        assert(full == (rows - 1) * row_size + row_size) by (nonlinear_arith)
            requires
                full == rows * row_size,
                rows > 0,
        ;
        let rest = pixels.subrange(row_size as int, pixels.len() as int);
        lemma_flipped_rows_prefix(rest, row_size, (rows - 1) as nat);
        assert(rest.subrange(0, full - row_size) =~= prefix.subrange(
            row_size as int,
            prefix.len() as int,
        ));
        assert(pixels.subrange(0, row_size as int) =~= prefix.subrange(0, row_size as int));
    }
}

/// The pixel bytes of `image` with its rows in reverse order: PPM stores
/// the top row first, OpenGL expects the bottom row first.
pub fn flip_rows(image: &Image) -> (pixels: Vec<u8>)
    requires
        image.width > 0,
        image.width * 3 <= usize::MAX,
    ensures
        pixels@ == flipped_rows(image.pixels@, image.width as nat * 3),
{
    let row_size = image.width as usize * 3;
    let ghost p = image.pixels@;
    let rows = image.pixels.len() / row_size;
    assert(rows * row_size <= p.len() < rows * row_size + row_size) by (nonlinear_arith)
        requires
            rows == p.len() as int / row_size as int,
            row_size > 0,
    ;
    let mut pixels: Vec<u8> = Vec::with_capacity(image.pixels.len());
    let mut remaining = rows;
    let mut end = rows * row_size;
    let ghost full = end as int;
    while remaining > 0
        invariant
            row_size == image.width * 3,
            row_size > 0,
            p == image.pixels@,
            full == rows * row_size,
            full <= p.len(),
            remaining <= rows,
            end == remaining * row_size,
            pixels@ == flipped_rows(p.subrange(end as int, full), row_size as nat),
        decreases remaining,
    {
        assert(end >= row_size && end - row_size == (remaining - 1) * row_size && end <= full)
            by (nonlinear_arith)
            requires
                end == remaining * row_size,
                remaining > 0,
                remaining <= rows,
                full == rows * row_size,
                row_size > 0,
        ;
        let start = end - row_size;
        let ghost before = p.subrange(start as int, full);
        assert(before.subrange(row_size as int, before.len() as int) =~= p.subrange(
            end as int,
            full,
        ));
        assert(before.subrange(0, row_size as int) =~= p.subrange(start as int, end as int));
        let mut i = start;
        let ghost grown = pixels@;
        while i < end
            invariant
                start <= i <= end <= p.len(),
                p == image.pixels@,
                pixels@ == grown + p.subrange(start as int, i as int),
            decreases end - i,
        {
            pixels.push(image.pixels[i]);
            i = i + 1;
            assert(pixels@ =~= grown + p.subrange(start as int, i as int));
        }
        end = start;
        remaining = remaining - 1;
    }
    proof {
        lemma_flipped_rows_prefix(p, row_size as nat, rows as nat);
        assert(p.subrange(0, full) =~= p.subrange(end as int, full));
    }
    pixels
}

proof fn lemma_flipped_rows_len(pixels: Seq<u8>, row_size: nat)
    requires
        row_size > 0,
        pixels.len() % row_size == 0,
    ensures
        flipped_rows(pixels, row_size).len() == pixels.len(),
    decreases pixels.len(),
{
    if pixels.len() >= row_size {
        let rest = pixels.subrange(row_size as int, pixels.len() as int);
        assert(rest.len() % row_size == 0) by {
            vstd::arithmetic::div_mod::lemma_mod_sub_multiples_vanish(
                pixels.len() as int,
                row_size as int,
            );
        }
        lemma_flipped_rows_len(rest, row_size);
    } else {
        assert(pixels.len() == 0) by {
            vstd::arithmetic::div_mod::lemma_small_mod(pixels.len(), row_size);
        }
    }
}

proof fn lemma_flipped_rows_concat(a: Seq<u8>, b: Seq<u8>, row_size: nat)
    requires
        row_size > 0,
        a.len() % row_size == 0,
    ensures
        flipped_rows(a + b, row_size) == flipped_rows(b, row_size) + flipped_rows(a, row_size),
    decreases a.len(),
{
    if a.len() == 0 {
        assert(a + b =~= b);
        assert(flipped_rows(b, row_size) + Seq::<u8>::empty() =~= flipped_rows(b, row_size));
    } else {
        assert(a.len() >= row_size) by {
            if a.len() < row_size {
                vstd::arithmetic::div_mod::lemma_small_mod(a.len(), row_size);
            }
        }
        let rest = a.subrange(row_size as int, a.len() as int);
        assert(rest.len() % row_size == 0) by {
            vstd::arithmetic::div_mod::lemma_mod_sub_multiples_vanish(
                a.len() as int,
                row_size as int,
            );
        }
        lemma_flipped_rows_concat(rest, b, row_size);
        let ab = a + b;
        assert(ab.subrange(row_size as int, ab.len() as int) =~= rest + b);
        assert(ab.subrange(0, row_size as int) =~= a.subrange(0, row_size as int));
        assert(flipped_rows(b, row_size) + flipped_rows(rest, row_size) + a.subrange(
            0,
            row_size as int,
        ) =~= flipped_rows(b, row_size) + (flipped_rows(rest, row_size) + a.subrange(
            0,
            row_size as int,
        )));
    }
}

/// Flipping the rows of an image twice gives back its pixels, whenever they
/// are made of complete rows (as those of every decoded image are).
#[verifier::spinoff_prover]
#[verifier::rlimit(40)]
pub proof fn flip_rows_twice_is_identity(pixels: Seq<u8>, row_size: nat)
    requires
        row_size > 0,
        pixels.len() % row_size == 0,
    ensures
        flipped_rows(flipped_rows(pixels, row_size), row_size) == pixels,
        flipped_rows(pixels, row_size).len() == pixels.len(),
    decreases pixels.len(),
{
    lemma_flipped_rows_len(pixels, row_size);
    if pixels.len() >= row_size {
        let rest = pixels.subrange(row_size as int, pixels.len() as int);
        let row = pixels.subrange(0, row_size as int);
        assert(rest.len() % row_size == 0) by {
            vstd::arithmetic::div_mod::lemma_mod_sub_multiples_vanish(
                pixels.len() as int,
                row_size as int,
            );
        }
        let flipped_rest = flipped_rows(rest, row_size);
        assert(flipped_rows(pixels, row_size) == flipped_rest + row);
        flip_rows_twice_is_identity(rest, row_size);
        lemma_flipped_rows_concat(flipped_rest, row, row_size);
        assert(flipped_rows(row, row_size) == row) by {
            let empty = row.subrange(row_size as int, row.len() as int);
            assert(flipped_rows(empty, row_size) =~= Seq::<u8>::empty());
            assert(row.subrange(0, row_size as int) =~= row);
            assert(flipped_rows(row, row_size) =~= Seq::<u8>::empty() + row);
        }
        assert(row + rest =~= pixels);
    } else {
        assert(pixels.len() == 0) by {
            vstd::arithmetic::div_mod::lemma_small_mod(pixels.len(), row_size);
        }
        assert(flipped_rows(pixels, row_size) =~= pixels);
    }
}

// ---------------------------------------------------------------------------
// Inputs the renderer accepts.
// ---------------------------------------------------------------------------

/// The largest value of OpenGL's signed 32-bit sizes and counts.
pub open spec fn fits_gl_int(n: nat) -> bool {
    n <= i32::MAX
}

/// Whether `r` is `expected`, with an error standing for an OpenGL error of
/// the same message.
pub open spec fn gl_outcome<T>(r: Result<T, AppError>, expected: Result<T, Seq<char>>) -> bool {
    match r {
        Ok(v) => expected == Ok::<T, Seq<char>>(v),
        Err(e) => e matches AppError::OpenGl(m) && expected == Err::<T, Seq<char>>(m@),
    }
}

/// What checking the dimensions of a `width` by `height` texture gives.
pub open spec fn dimensions_result(width: u32, height: u32) -> Result<(), Seq<char>> {
    if !fits_gl_int(width as nat) {
        Err("a texture is too wide"@)
    } else if !fits_gl_int(height as nat) {
        Err("a texture is too tall"@)
    } else {
        Ok(())
    }
}

/// Checks that OpenGL can take the dimensions of `image`.
pub fn validate_texture_dimensions(image: &Image) -> (r: Result<(), AppError>)
    ensures
        gl_outcome(r, dimensions_result(image.width, image.height)),
{
    if image.width > 2147483647 {
        return Err(AppError::OpenGl(String::from_str("a texture is too wide")));
    }
    if image.height > 2147483647 {
        return Err(AppError::OpenGl(String::from_str("a texture is too tall")));
    }
    Ok(())
}

/// A draw batch in the form an OpenGL draw call takes it.
#[derive(Clone, Copy, Debug, PartialEq, Eq, Structural)]
pub struct RenderBatch {
    pub first_vertex: i32,
    pub vertex_count: i32,
    pub texture: Option<usize>,
    pub normal_map: Option<usize>,
}

/// What converting `batch` for OpenGL gives.
pub open spec fn render_batch_result(batch: DrawBatch) -> Result<RenderBatch, Seq<char>> {
    if !fits_gl_int(batch.first_vertex as nat) {
        Err("the model has too many vertices"@)
    } else if !fits_gl_int(batch.vertex_count as nat) {
        Err("a draw batch has too many vertices"@)
    } else {
        Ok(
            RenderBatch {
                first_vertex: batch.first_vertex as i32,
                vertex_count: batch.vertex_count as i32,
                texture: batch.texture,
                normal_map: batch.normal_map,
            },
        )
    }
}

impl RenderBatch {
    /// The OpenGL form of `batch`; fails when its vertex range does not fit
    /// OpenGL's signed 32-bit counts.
    pub fn try_from(batch: DrawBatch) -> (r: Result<RenderBatch, AppError>)
        ensures
            gl_outcome(r, render_batch_result(batch)),
    {
        if batch.first_vertex > 2147483647 {
            return Err(AppError::OpenGl(String::from_str("the model has too many vertices")));
        }
        if batch.vertex_count > 2147483647 {
            return Err(AppError::OpenGl(String::from_str("a draw batch has too many vertices")));
        }
        Ok(
            RenderBatch {
                first_vertex: batch.first_vertex as i32,
                vertex_count: batch.vertex_count as i32,
                texture: batch.texture,
                normal_map: batch.normal_map,
            },
        )
    }
}

// ---------------------------------------------------------------------------
// The renderer.
// ---------------------------------------------------------------------------

/// What checking the inputs of a renderer gives: the batches in OpenGL
/// form, or the message of the first problem. The material textures must
/// match the model's texture table in number, every texture (the fallback
/// last) must have dimensions OpenGL takes, and every batch must fit
/// OpenGL's counts.
pub open spec fn inputs_result(
    mesh_texture_count: nat,
    textures: Seq<(u32, u32)>,
    fallback: (u32, u32),
    batches: Seq<DrawBatch>,
) -> Result<Seq<RenderBatch>, Seq<char>> {
    if textures.len() != mesh_texture_count {
        Err("material texture count does not match the mesh"@)
    } else {
        match dimensions_run(textures.push(fallback)) {
            Some(m) => Err(m),
            None => render_batches_result(batches),
        }
    }
}

/// The first dimension problem among `sizes`, if any.
pub open spec fn dimensions_run(sizes: Seq<(u32, u32)>) -> Option<Seq<char>>
    decreases sizes.len(),
{
    if sizes.len() == 0 {
        None
    } else {
        match dimensions_run(sizes.drop_last()) {
            Some(m) => Some(m),
            None => match dimensions_result(sizes.last().0, sizes.last().1) {
                Err(m) => Some(m),
                Ok(_) => None,
            },
        }
    }
}

/// What converting all of `batches` gives: the first error stops it.
pub open spec fn render_batches_result(batches: Seq<DrawBatch>) -> Result<
    Seq<RenderBatch>,
    Seq<char>,
>
    decreases batches.len(),
{
    if batches.len() == 0 {
        Ok(Seq::empty())
    } else {
        match render_batches_result(batches.drop_last()) {
            Err(m) => Err(m),
            Ok(v) => match render_batch_result(batches.last()) {
                Err(m) => Err(m),
                Ok(b) => Ok(v.push(b)),
            },
        }
    }
}

/// Converting batches for OpenGL keeps every batch, in order, with the same
/// vertex range, texture and normal map; it succeeds exactly when every
/// first vertex and every vertex count fits OpenGL's signed 32-bit counts.
pub proof fn converting_batches_keeps_each_batch(batches: Seq<DrawBatch>)
    ensures
        render_batches_result(batches) is Ok <==> forall|k: int|
            0 <= k < batches.len() ==> (#[trigger] batches[k]).first_vertex <= i32::MAX
                && batches[k].vertex_count <= i32::MAX,
        render_batches_result(batches) matches Ok(v) ==> (v.len() == batches.len() && forall|k: int|
            0 <= k < batches.len() ==> (#[trigger] v[k]).first_vertex == batches[k].first_vertex
                && v[k].vertex_count == batches[k].vertex_count && v[k].texture
                == batches[k].texture && v[k].normal_map == batches[k].normal_map),
    decreases batches.len(),
{
    if batches.len() > 0 {
        let rest = batches.drop_last();
        converting_batches_keeps_each_batch(rest);
        assert forall|k: int| 0 <= k < rest.len() implies #[trigger] rest[k] == batches[k] by {}
        let last = batches.last();
        assert(last == batches[batches.len() - 1]);
        if render_batches_result(batches) is Ok {
            let v = render_batches_result(batches)->Ok_0;
            let w = render_batches_result(rest)->Ok_0;
            assert forall|k: int| 0 <= k < batches.len() implies (#[trigger] batches[k]).first_vertex
                <= i32::MAX && batches[k].vertex_count <= i32::MAX by {
                if k < rest.len() {
                    assert(rest[k] == batches[k]);
                }
            }
            assert forall|k: int| 0 <= k < batches.len() implies (#[trigger] v[k]).first_vertex
                == batches[k].first_vertex && v[k].vertex_count == batches[k].vertex_count
                && v[k].texture == batches[k].texture && v[k].normal_map
                == batches[k].normal_map by {
                if k < rest.len() {
                    assert(v[k] == w[k]);
                    assert(rest[k] == batches[k]);
                }
            }
        } else if forall|k: int|
            0 <= k < batches.len() ==> (#[trigger] batches[k]).first_vertex <= i32::MAX
                && batches[k].vertex_count <= i32::MAX {
            assert(forall|k: int|
                0 <= k < rest.len() ==> (#[trigger] rest[k]).first_vertex <= i32::MAX
                    && rest[k].vertex_count <= i32::MAX);
        }
    }
}

/// The width and height of each image.
pub open spec fn image_sizes(images: Seq<Image>) -> Seq<(u32, u32)> {
    images.map_values(|image: Image| (image.width, image.height))
}

proof fn lemma_dimensions_run_stops(sizes: Seq<(u32, u32)>, k: int)
    requires
        0 <= k <= sizes.len(),
        dimensions_run(sizes.take(k)) is Some,
    ensures
        dimensions_run(sizes) == dimensions_run(sizes.take(k)),
    decreases sizes.len(),
{
    if k < sizes.len() {
        assert(sizes.drop_last().take(k) =~= sizes.take(k));
        lemma_dimensions_run_stops(sizes.drop_last(), k);
    } else {
        assert(sizes.take(k) =~= sizes);
    }
}

proof fn lemma_render_batches_stop(batches: Seq<DrawBatch>, k: int)
    requires
        0 <= k <= batches.len(),
        render_batches_result(batches.take(k)) is Err,
    ensures
        render_batches_result(batches) == render_batches_result(batches.take(k)),
    decreases batches.len(),
{
    if k < batches.len() {
        assert(batches.drop_last().take(k) =~= batches.take(k));
        lemma_render_batches_stop(batches.drop_last(), k);
    } else {
        assert(batches.take(k) =~= batches);
    }
}

/// Whether the texture of `batch`, if it has one, is among the first `n`.
pub open spec fn texture_below(batch: RenderBatch, n: nat) -> bool {
    match batch.texture {
        Some(t) => t < n,
        None => true,
    }
}

/// A model on the GPU: the names of its OpenGL objects, its textures (the
/// material textures, then the fallback texture), its batches, and whether
/// batches without a texture are drawn with the fallback.
#[derive(Debug)]
pub struct Renderer {
    program: u32,
    vertex_array: u32,
    vertex_buffer: u32,
    textures: Vec<u32>,
    batches: Vec<RenderBatch>,
    fallback_texture: usize,
    use_fallback_for_untextured: bool,
    mvp_location: i32,
    blend_location: i32,
}

/// What a draw call of a batch is: its first vertex, its vertex count and
/// the texture to bind, if any.
pub type DrawCall = (i32, i32, Option<u32>);

impl Renderer {
    #[verifier::type_invariant]
    spec fn textures_exist(self) -> bool {
        &&& self.fallback_texture < self.textures@.len()
        &&& forall|k: int|
            0 <= k < self.batches@.len() ==> texture_below(
                #[trigger] self.batches@[k],
                self.textures@.len(),
            )
    }

    /// The OpenGL names of the textures, in order.
    pub closed spec fn texture_names(self) -> Seq<u32> {
        self.textures@
    }

    /// The batches, in order.
    pub closed spec fn render_batches(self) -> Seq<RenderBatch> {
        self.batches@
    }

    /// The texture that batches without one are drawn with, if any.
    pub closed spec fn fallback(self) -> Option<u32> {
        if self.use_fallback_for_untextured {
            Some(self.textures@[self.fallback_texture as int])
        } else {
            None
        }
    }

    /// Checks what a renderer is made from: `mesh_texture_count` is the
    /// size of the model's texture table, `material_textures` its images and
    /// `fallback` the image drawn on untextured batches.
    pub fn prepare(
        mesh_texture_count: usize,
        material_textures: &Vec<Image>,
        fallback: &Image,
        batches: &Vec<DrawBatch>,
    ) -> (r: Result<Vec<RenderBatch>, AppError>)
        ensures
            match inputs_result(
                mesh_texture_count as nat,
                image_sizes(material_textures@),
                (fallback.width, fallback.height),
                batches@,
            ) {
                Ok(v) => r matches Ok(w) && w@ == v,
                Err(m) => r matches Err(e) && (e matches AppError::OpenGl(message) && message@
                    == m),
            },
    {
        if material_textures.len() != mesh_texture_count {
            return Err(
                AppError::OpenGl(String::from_str("material texture count does not match the mesh")),
            );
        }
        let ghost sizes = image_sizes(material_textures@).push((fallback.width, fallback.height));
        let mut i: usize = 0;
        while i < material_textures.len()
            invariant
                i <= material_textures@.len(),
                sizes == image_sizes(material_textures@).push((fallback.width, fallback.height)),
                dimensions_run(sizes.take(i as int)) is None,
                material_textures@.len() == mesh_texture_count,
            decreases material_textures.len() - i,
        {
            let ghost upto = sizes.take(i + 1);
            assert(upto.drop_last() =~= sizes.take(i as int));
            assert(upto.last() == (material_textures@[i as int].width, material_textures@[i as int].height));
            if let Err(e) = validate_texture_dimensions(&material_textures[i]) {
                proof {
                    lemma_dimensions_run_stops(sizes, i + 1);
                }
                return Err(e);
            }
            i = i + 1;
        }
        assert(sizes.take(i + 1) =~= sizes);
        assert(sizes.take(i + 1).drop_last() =~= sizes.take(i as int));
        validate_texture_dimensions(fallback)?;
        let mut converted: Vec<RenderBatch> = Vec::new();
        let mut k: usize = 0;
        assert(dimensions_run(sizes) is None);
        while k < batches.len()
            invariant
                k <= batches@.len(),
                material_textures@.len() == mesh_texture_count,
                dimensions_run(image_sizes(material_textures@).push((fallback.width, fallback.height)))
                    is None,
                render_batches_result(batches@.take(k as int)) == Ok::<Seq<RenderBatch>, Seq<char>>(
                    converted@,
                ),
            decreases batches.len() - k,
        {
            let ghost upto = batches@.take(k + 1);
            assert(upto.drop_last() =~= batches@.take(k as int));
            let batch = match RenderBatch::try_from(batches[k]) {
                Ok(b) => b,
                Err(e) => {
                    proof {
                        lemma_render_batches_stop(batches@, k + 1);
                    }
                    return Err(e);
                },
            };
            converted.push(batch);
            k = k + 1;
        }
        assert(batches@.take(k as int) =~= batches@);
        Ok(converted)
    }

    /// A renderer over OpenGL objects that the caller created: `textures`
    /// holds the material textures and then the fallback texture, and every
    /// batch names one of them.
    pub fn assemble(
        program: u32,
        vertex_array: u32,
        vertex_buffer: u32,
        textures: Vec<u32>,
        batches: Vec<RenderBatch>,
        use_fallback_for_untextured: bool,
        mvp_location: i32,
        blend_location: i32,
    ) -> (renderer: Renderer)
        requires
            textures@.len() >= 1,
            forall|k: int|
                0 <= k < batches@.len() ==> texture_below(#[trigger] batches@[k], textures@.len()),
        ensures
            renderer.texture_names() == textures@,
            renderer.render_batches() == batches@,
            renderer.fallback() == if use_fallback_for_untextured {
                Some(textures@.last())
            } else {
                None::<u32>
            },
            renderer.gl_objects() == (program, vertex_array, vertex_buffer),
            renderer.uniforms() == (mvp_location, blend_location),
    {
        let fallback_texture = textures.len() - 1;
        Renderer {
            program,
            vertex_array,
            vertex_buffer,
            textures,
            batches,
            fallback_texture,
            use_fallback_for_untextured,
            mvp_location,
            blend_location,
        }
    }

    /// The program, vertex array and vertex buffer names.
    pub closed spec fn gl_objects(self) -> (u32, u32, u32) {
        (self.program, self.vertex_array, self.vertex_buffer)
    }

    /// The locations of the `u_mvp` and `u_texture_blend` uniforms.
    pub closed spec fn uniforms(self) -> (i32, i32) {
        (self.mvp_location, self.blend_location)
    }

    /// The program, vertex array and vertex buffer names.
    pub fn objects(&self) -> (r: (u32, u32, u32))
        ensures
            r == self.gl_objects(),
    {
        (self.program, self.vertex_array, self.vertex_buffer)
    }

    /// The locations of the `u_mvp` and `u_texture_blend` uniforms.
    pub fn uniform_locations(&self) -> (r: (i32, i32))
        ensures
            r == self.uniforms(),
    {
        (self.mvp_location, self.blend_location)
    }

    /// The names of all textures, the fallback last.
    pub fn textures(&self) -> (r: &Vec<u32>)
        ensures
            r@ == self.texture_names(),
    {
        &self.textures
    }

    /// The texture that `batch` is drawn with: its own, or the fallback
    /// when it has none and the model came without a material library.
    pub open spec fn batch_texture(self, batch: RenderBatch) -> Option<u32> {
        match batch.texture {
            Some(t) => Some(self.texture_names()[t as int]),
            None => self.fallback(),
        }
    }

    /// The draw calls of one frame, one per batch and in order.
    pub fn draw_calls(&self) -> (calls: Vec<DrawCall>)
        ensures
            calls@.len() == self.render_batches().len(),
            forall|k: int|
                0 <= k < calls@.len() ==> #[trigger] calls@[k] == (
                    self.render_batches()[k].first_vertex,
                    self.render_batches()[k].vertex_count,
                    self.batch_texture(self.render_batches()[k]),
                ),
    {
        proof {
            use_type_invariant(self);
        }
        let mut calls: Vec<DrawCall> = Vec::new();
        let mut k: usize = 0;
        while k < self.batches.len()
            invariant
                k <= self.batches@.len(),
                calls@.len() == k,
                self.fallback_texture < self.textures@.len(),
                forall|j: int|
                    0 <= j < self.batches@.len() ==> texture_below(
                        #[trigger] self.batches@[j],
                        self.textures@.len(),
                    ),
                forall|j: int|
                    0 <= j < k ==> #[trigger] calls@[j] == (
                        self.render_batches()[j].first_vertex,
                        self.render_batches()[j].vertex_count,
                        self.batch_texture(self.render_batches()[j]),
                    ),
            decreases self.batches.len() - k,
        {
            let batch = self.batches[k];
            let texture = match batch.texture {
                Some(t) => Some(self.textures[t]),
                None => if self.use_fallback_for_untextured {
                    Some(self.textures[self.fallback_texture])
                } else {
                    None
                },
            };
            calls.push((batch.first_vertex, batch.vertex_count, texture));
            k = k + 1;
        }
        calls
    }
}

} // verus!
