use scop::error::AppError;
use scop::mesh::DrawBatch;
use scop::mtl::{Material, MaterialLibrary};
use scop::obj::{
    number_fields, parse_document, parse_face_index, plan_mesh, push_batch, resolve_index,
    material_color, resolve_material_texture, FaceIndex, MaterialTexture, MeshPlan, ObjDocument, Triangle,
};

/// Which number fields of `source` are valid `f32` values.
fn accepted(source: &str) -> Vec<bool> {
    number_fields(source).iter().map(|field| field.parse::<f32>().is_ok()).collect()
}

fn document(source: &str) -> Result<ObjDocument, AppError> {
    parse_document(source, &accepted(source))
}

fn library(entries: Vec<(&str, Material)>) -> MaterialLibrary {
    let mut materials = MaterialLibrary::new();
    for (name, material) in entries {
        materials.insert(name.to_string(), material);
    }
    materials
}

fn painted() -> MaterialLibrary {
    library(vec![(
        "painted",
        Material { diffuse_color: None, diffuse_texture: Some(String::from("paint.ppm")), normal_texture: None },
    )])
}

fn plan(source: &str, materials: &MaterialLibrary) -> Result<MeshPlan, AppError> {
    plan_mesh(&document(source)?, materials)
}

fn corner(position: usize) -> FaceIndex {
    FaceIndex { position, texture: None, normal: None }
}

#[test]
fn triangulates_polygons_and_centers_the_model() {
    let source = "\
            v 10 0 0\n\
            v 12 0 0\n\
            v 12 2 0\n\
            v 10 2 0\n\
            f 1 2 3 4\n";
    let document = document(source).unwrap();
    let mesh = plan_mesh(&document, &MaterialLibrary::new()).unwrap();

    assert_eq!(mesh.triangles.len() * 3, 6);
    assert_eq!(
        mesh.triangles,
        [
            Triangle { face: 0, a: corner(0), b: corner(1), c: corner(2) },
            Triangle { face: 0, a: corner(0), b: corner(2), c: corner(3) },
        ]
    );
    let numbers = number_fields(source);
    let first = document.positions[mesh.triangles[0].a.position];
    assert_eq!(numbers[first], "10");
    assert_eq!(numbers[first + 1], "0");
}

#[test]
fn accepts_negative_indices_and_texture_coordinates() {
    let source = "\
            v 0 0 0\n\
            v 1 0 0\n\
            v 0 1 0\n\
            vt 0.1 0.2\n\
            vt 0.9 0.2\n\
            vt 0.1 0.8\n\
            f -3/-3 -2/-2 -1/-1\n";
    let document = document(source).unwrap();
    let mesh = plan_mesh(&document, &MaterialLibrary::new()).unwrap();
    let numbers = number_fields(source);
    let triangle = mesh.triangles[0];

    let first_uv = document.texture_coordinates[triangle.a.texture.unwrap()];
    assert_eq!(numbers[first_uv].parse::<f32>().unwrap(), 0.1);
    let third_uv = document.texture_coordinates[triangle.c.texture.unwrap()];
    assert_eq!(numbers[third_uv + 1].parse::<f32>().unwrap(), 0.8);
}

#[test]
fn usemtl_assigns_diffuse_texture_to_draw_batch() {
    let mesh = plan(
        "\
            mtllib painted.mtl\n\
            v 0 0 0\n\
            v 1 0 0\n\
            v 0 1 0\n\
            usemtl painted\n\
            f 1 2 3\n",
        &painted(),
    )
    .unwrap();

    assert_eq!(mesh.batches[0].texture, Some(0));
    assert_eq!(mesh.textures, [String::from("paint.ppm")]);
    assert!(mesh.has_material_library);
}

#[test]
fn consecutive_faces_with_same_material_share_draw_batch() {
    let mesh = plan(
        "\
            v 0 0 0\n\
            v 1 0 0\n\
            v 0 1 0\n\
            v 1 1 0\n\
            usemtl painted\n\
            f 1 2 3\n\
            f 2 4 3\n",
        &painted(),
    )
    .unwrap();

    assert_eq!(mesh.batches.len(), 1);
    assert_eq!(mesh.batches[0].vertex_count, 6);
}

#[test]
fn undefined_material_returns_obj_error() {
    let error = plan(
        "\
            v 0 0 0\n\
            v 1 0 0\n\
            v 0 1 0\n\
            usemtl missing\n\
            f 1 2 3\n",
        &MaterialLibrary::new(),
    )
    .unwrap_err();

    assert_eq!(
        error.message(),
        "invalid OBJ at line 0: material 'missing' is not defined"
    );
}

#[test]
fn an_undefined_material_leaves_the_texture_table_alone() {
    let mut textures = vec![String::from("kept.ppm")];
    let error = resolve_material_texture(
        Some("missing"),
        &MaterialLibrary::new(),
        &mut textures,
        MaterialTexture::Diffuse,
    )
    .unwrap_err();

    assert_eq!(error.message(), "invalid OBJ at line 0: material 'missing' is not defined");
    assert_eq!(textures, [String::from("kept.ppm")]);
}

#[test]
fn a_texture_already_in_the_table_is_found_again() {
    let materials = library(vec![
        ("a", Material { diffuse_color: None, diffuse_texture: Some(String::from("assets/wood.ppm")), normal_texture: Some(String::from("n.ppm")) }),
        ("b", Material { diffuse_color: None, diffuse_texture: Some(String::from("assets/./wood.ppm")), normal_texture: None }),
    ]);
    let mut textures = vec![String::from("stone.ppm")];

    let first = resolve_material_texture(Some("a"), &materials, &mut textures, MaterialTexture::Diffuse);
    assert_eq!(first.unwrap(), Some(1));
    assert_eq!(textures, [String::from("stone.ppm"), String::from("assets/wood.ppm")]);

    let again = resolve_material_texture(Some("a"), &materials, &mut textures, MaterialTexture::Diffuse);
    assert_eq!(again.unwrap(), Some(1));
    let equal_path = resolve_material_texture(Some("b"), &materials, &mut textures, MaterialTexture::Diffuse);
    assert_eq!(equal_path.unwrap(), Some(1));
    assert_eq!(textures.len(), 2);

    let normal = resolve_material_texture(Some("b"), &materials, &mut textures, MaterialTexture::Normal);
    assert_eq!(normal.unwrap(), None);
    let none = resolve_material_texture(None, &materials, &mut textures, MaterialTexture::Normal);
    assert_eq!(none.unwrap(), None);
    assert_eq!(textures.len(), 2);
}

#[test]
fn material_color_gives_the_color_of_a_known_material() {
    let bark = (0.2f32.to_bits(), 0.1f32.to_bits(), 0.05f32.to_bits());
    let materials = library(vec![
        ("bark", Material { diffuse_color: Some(bark), diffuse_texture: None, normal_texture: None }),
        ("plain", Material { diffuse_color: None, diffuse_texture: None, normal_texture: None }),
    ]);

    let color = material_color(Some("bark"), &materials).unwrap();
    assert_eq!(
        (f32::from_bits(color.0), f32::from_bits(color.1), f32::from_bits(color.2)),
        (0.2, 0.1, 0.05)
    );
    assert_eq!(material_color(Some("plain"), &materials), None);
    assert_eq!(material_color(Some("missing"), &materials), None);
    assert_eq!(material_color(None, &materials), None);
}

#[test]
fn number_fields_follow_the_coordinate_lines() {
    let source = "v 1 2 3 4\nvt 5\nvn 6 7\n# v 8 8 8\nf 1 1 1\nvt 9 10 11\n";

    assert_eq!(number_fields(source), ["1", "2", "3", "5", "6", "7", "9", "10"]);
}

#[test]
fn parse_document_keeps_the_model_structure() {
    let source = "mtllib a.mtl b.mtl\nv 0 0 0\nv 1 0 0\nv 0 1 0\nvt 0 0\nvn 0 0 1\nusemtl  red   paint\nf 1/1/1 2//1 3/1\nusemtl blue\nf 3 2 1\n";
    let document = document(source).unwrap();

    assert_eq!(document.positions, [0, 3, 6]);
    assert_eq!(document.texture_coordinates, [9]);
    assert_eq!(document.normals, [11]);
    assert_eq!(document.material_libraries, ["a.mtl", "b.mtl"]);
    assert_eq!(document.faces.len(), 2);
    assert_eq!(
        document.faces[0].indices,
        [
            FaceIndex { position: 0, texture: Some(0), normal: Some(0) },
            FaceIndex { position: 1, texture: None, normal: Some(0) },
            FaceIndex { position: 2, texture: Some(0), normal: None },
        ]
    );
    assert_eq!(document.faces[0].material, Some(String::from("red paint")));
    assert_eq!(document.faces[1].material, Some(String::from("blue")));
}

#[test]
fn parse_document_reports_the_first_error_with_its_line() {
    let cases = [
        ("v 1 2\n", "invalid OBJ at line 1: missing vertex z"),
        ("v 1 x 3\n", "invalid OBJ at line 1: invalid vertex y"),
        ("\nvt 1\n", "invalid OBJ at line 2: missing texture v"),
        ("vn a 1 1\n", "invalid OBJ at line 1: invalid vertex x"),
        ("mtllib # nothing\n", "invalid OBJ at line 1: missing material library path"),
        ("usemtl\n", "invalid OBJ at line 1: missing material name"),
        ("v 0 0 0\nf 1 1\n", "invalid OBJ at line 2: a face needs at least three vertices"),
        ("v 0 0 0\nf 1 2 1\n", "invalid OBJ at line 2: vertex index '2' is out of bounds"),
        ("v 0 0 0\nf 1/1 1 1\n", "invalid OBJ at line 2: texture index '1' is out of bounds"),
        ("v 0 0 0\nf 0 1 1\n", "invalid OBJ at line 2: vertex indices start at 1"),
        ("v 0 0 0\nf 1 a 1\nv x 0 0\n", "invalid OBJ at line 2: invalid vertex index 'a'"),
        ("v x 0 0\nf 1 a 1\n", "invalid OBJ at line 1: invalid vertex x"),
        ("# empty\n", "invalid OBJ at line 0: the model does not contain any vertices"),
        ("v 0 0 0\n", "invalid OBJ at line 0: the model does not contain any faces"),
    ];
    for (source, message) in cases {
        assert_eq!(document(source).unwrap_err().message(), message, "source {source:?}");
    }
}

#[test]
fn resolve_index_counts_from_one_and_from_the_end() {
    assert_eq!(resolve_index("1", 4, 7, "vertex").unwrap(), 0);
    assert_eq!(resolve_index("+4", 4, 7, "vertex").unwrap(), 3);
    assert_eq!(resolve_index("-1", 4, 7, "vertex").unwrap(), 3);
    assert_eq!(resolve_index("-4", 4, 7, "vertex").unwrap(), 0);
    assert_eq!(
        resolve_index("-5", 4, 7, "vertex").unwrap_err().message(),
        "invalid OBJ at line 7: vertex index '-5' is out of bounds"
    );
    assert_eq!(
        resolve_index("5", 4, 7, "normal").unwrap_err().message(),
        "invalid OBJ at line 7: normal index '5' is out of bounds"
    );
    assert_eq!(
        resolve_index("-0", 4, 7, "texture").unwrap_err().message(),
        "invalid OBJ at line 7: texture indices start at 1"
    );
    assert_eq!(
        resolve_index("", 4, 7, "vertex").unwrap_err().message(),
        "invalid OBJ at line 7: invalid vertex index ''"
    );
    assert_eq!(
        resolve_index("99999999999999999999", 4, 7, "vertex").unwrap_err().message(),
        "invalid OBJ at line 7: invalid vertex index '99999999999999999999'"
    );
    assert_eq!(
        resolve_index("-", 4, 7, "vertex").unwrap_err().message(),
        "invalid OBJ at line 7: invalid vertex index '-'"
    );
}

#[test]
fn face_indices_read_up_to_three_parts() {
    assert_eq!(
        parse_face_index("2/3/1", 2, 3, 1, 1).unwrap(),
        FaceIndex { position: 1, texture: Some(2), normal: Some(0) }
    );
    assert_eq!(
        parse_face_index("2//1", 2, 0, 1, 1).unwrap(),
        FaceIndex { position: 1, texture: None, normal: Some(0) }
    );
    assert_eq!(
        parse_face_index("2/", 2, 0, 0, 1).unwrap(),
        FaceIndex { position: 1, texture: None, normal: None }
    );
    assert_eq!(
        parse_face_index("1/1/1/junk", 1, 1, 1, 1).unwrap(),
        FaceIndex { position: 0, texture: Some(0), normal: Some(0) }
    );
}

#[test]
fn textures_with_equal_paths_share_one_entry() {
    let materials = library(vec![
        ("a", Material { diffuse_color: None, diffuse_texture: Some(String::from("models/wood.ppm")), normal_texture: Some(String::from("n.ppm")) }),
        ("b", Material { diffuse_color: None, diffuse_texture: Some(String::from("models/./wood.ppm")), normal_texture: None }),
        ("c", Material { diffuse_color: None, diffuse_texture: Some(String::from("models/stone.ppm")), normal_texture: None }),
    ]);
    let mesh = plan(
        "v 0 0 0\nv 1 0 0\nv 0 1 0\nusemtl a\nf 1 2 3\nusemtl b\nf 1 2 3\nusemtl c\nf 1 2 3\nf 1 2 3 1\n",
        &materials,
    )
    .unwrap();

    assert_eq!(mesh.textures, [String::from("models/wood.ppm"), String::from("models/stone.ppm")]);
    assert_eq!(mesh.normal_maps, [String::from("n.ppm")]);
    assert_eq!(
        mesh.batches,
        [
            DrawBatch { first_vertex: 0, vertex_count: 3, texture: Some(0), normal_map: Some(0) },
            DrawBatch { first_vertex: 3, vertex_count: 3, texture: Some(0), normal_map: None },
            DrawBatch { first_vertex: 6, vertex_count: 9, texture: Some(1), normal_map: None },
        ]
    );
    assert!(!mesh.has_material_library);
}

#[test]
fn normal_maps_of_a_parsed_library_reach_the_plan() {
    let materials = scop::mtl::parse(
        "newmtl cottage\nmap_Kd cottage_diffuse.ppm\nmap_Bump cottage_normal.ppm\n",
        "assets",
    )
    .unwrap();
    let mesh = plan("v 0 0 0\nv 1 0 0\nv 0 1 0\nusemtl cottage\nf 1 2 3\n", &materials).unwrap();

    assert_eq!(mesh.textures, [String::from("assets/cottage_diffuse.ppm")]);
    assert_eq!(mesh.normal_maps, [String::from("assets/cottage_normal.ppm")]);
    assert_eq!(
        mesh.batches,
        [DrawBatch { first_vertex: 0, vertex_count: 3, texture: Some(0), normal_map: Some(0) }]
    );
}

#[test]
fn push_batch_merges_only_adjacent_batches_drawn_alike() {
    let mut batches = Vec::new();
    push_batch(&mut batches, DrawBatch { first_vertex: 0, vertex_count: 3, texture: None, normal_map: None });
    push_batch(&mut batches, DrawBatch { first_vertex: 3, vertex_count: 6, texture: None, normal_map: None });
    push_batch(&mut batches, DrawBatch { first_vertex: 9, vertex_count: 3, texture: Some(0), normal_map: None });
    push_batch(&mut batches, DrawBatch { first_vertex: 20, vertex_count: 3, texture: Some(0), normal_map: None });

    assert_eq!(
        batches,
        [
            DrawBatch { first_vertex: 0, vertex_count: 9, texture: None, normal_map: None },
            DrawBatch { first_vertex: 9, vertex_count: 3, texture: Some(0), normal_map: None },
            DrawBatch { first_vertex: 20, vertex_count: 3, texture: Some(0), normal_map: None },
        ]
    );
}

#[test]
fn pushed_batches_tile_the_vertices() {
    let mut batches = Vec::new();
    let counts = [(3, None), (6, None), (3, Some(0)), (3, Some(1)), (9, Some(1)), (3, None)];
    let mut total = 0;
    for (count, texture) in counts {
        push_batch(&mut batches, DrawBatch { first_vertex: total, vertex_count: count, texture, normal_map: None });
        total += count;
        assert_eq!(batches[0].first_vertex, 0);
        for pair in batches.windows(2) {
            assert_eq!(pair[1].first_vertex, pair[0].first_vertex + pair[0].vertex_count);
            assert!(pair[0].texture != pair[1].texture);
        }
        let last = batches.last().unwrap();
        assert_eq!(last.first_vertex + last.vertex_count, total);
        assert_eq!(batches.iter().map(|batch| batch.vertex_count).sum::<usize>(), total);
    }
    assert_eq!(batches.len(), 4);
}
