use scop::mtl::{parse, Material, MaterialLibrary};

#[test]
fn parse_resolves_diffuse_texture_relative_to_mtl_directory() {
    let materials = parse("newmtl painted\nmap_Kd textures/paint.ppm\n", "models").unwrap();

    assert_eq!(
        materials.get("painted").unwrap().diffuse_texture,
        Some(String::from("models/textures/paint.ppm"))
    );
}

#[test]
fn parse_uses_last_map_kd_field_after_options() {
    let materials = parse("newmtl painted\nmap_Kd -s 1 1 1 paint.ppm\n", "models").unwrap();

    assert_eq!(
        materials.get("painted").unwrap().diffuse_texture,
        Some(String::from("models/paint.ppm"))
    );
}

#[test]
fn parse_rejects_texture_before_material_declaration() {
    let error = parse("map_Kd paint.ppm\n", "models").unwrap_err();

    assert_eq!(
        error.message(),
        "invalid MTL at line 1: map_Kd appears before newmtl"
    );
}

#[test]
fn parse_joins_material_names_and_ignores_comments() {
    let source = "# a library\n\nnewmtl  old   wood # trailing\r\nKd 0.5 0.5 0.5\nmap_Kd wood.ppm\n";
    let materials = parse(source, "").unwrap();

    assert_eq!(materials.len(), 1);
    assert_eq!(materials.get("old wood").unwrap().diffuse_texture, Some(String::from("wood.ppm")));
    assert!(materials.get("old").is_none());
}

#[test]
fn parse_keeps_a_redeclared_material() {
    let source = "newmtl a\nmap_Kd first.ppm\nnewmtl b\nnewmtl a\n";
    let materials = parse(source, "dir").unwrap();

    assert_eq!(materials.len(), 2);
    assert_eq!(materials.get("a").unwrap().diffuse_texture, Some(String::from("dir/first.ppm")));
    assert_eq!(materials.get("b").unwrap().diffuse_texture, None);
}

#[test]
fn parse_gives_the_texture_to_the_current_material() {
    let source = "newmtl a\nnewmtl b\nmap_Kd b.ppm\nmap_Kd b2.ppm\n";
    let materials = parse(source, "").unwrap();

    assert_eq!(materials.get("a").unwrap().diffuse_texture, None);
    assert_eq!(materials.get("b").unwrap().diffuse_texture, Some(String::from("b2.ppm")));
}

#[test]
fn parse_reports_missing_names_and_paths() {
    assert_eq!(
        parse("\n\nnewmtl   # nothing\n", "").unwrap_err().message(),
        "invalid MTL at line 3: missing material name"
    );
    assert_eq!(
        parse("newmtl a\nmap_Kd\n", "").unwrap_err().message(),
        "invalid MTL at line 2: missing map_Kd texture path"
    );
}

#[test]
fn parse_reads_normal_maps_under_each_keyword() {
    let source = "newmtl a\nmap_Kd a.ppm\nmap_Bump -bm 1 a_normal.ppm\nnewmtl b\nbump b_normal.ppm\n\
                  newmtl c\nmap_bump c_normal.ppm\nnewmtl d\nnorm d_normal.ppm\n";
    let materials = parse(source, "assets").unwrap();

    assert_eq!(materials.len(), 4);
    let a = materials.get("a").unwrap();
    assert_eq!(a.diffuse_texture, Some(String::from("assets/a.ppm")));
    assert_eq!(a.normal_texture, Some(String::from("assets/a_normal.ppm")));
    let b = materials.get("b").unwrap();
    assert_eq!(b.diffuse_texture, None);
    assert_eq!(b.normal_texture, Some(String::from("assets/b_normal.ppm")));
    assert_eq!(materials.get("c").unwrap().normal_texture, Some(String::from("assets/c_normal.ppm")));
    assert_eq!(materials.get("d").unwrap().normal_texture, Some(String::from("assets/d_normal.ppm")));
}

#[test]
fn parse_keeps_the_diffuse_texture_when_a_normal_map_follows() {
    let materials = parse("newmtl a\nmap_Bump n.ppm\nmap_Kd d.ppm\nmap_Bump n2.ppm\n", "").unwrap();

    let a = materials.get("a").unwrap();
    assert_eq!(a.diffuse_texture, Some(String::from("d.ppm")));
    assert_eq!(a.normal_texture, Some(String::from("n2.ppm")));
}

#[test]
fn parse_skips_misplaced_normal_maps() {
    assert_eq!(parse("map_Bump n.ppm\nnewmtl a\n", "").unwrap().get("a").unwrap().normal_texture, None);
    let materials = parse("newmtl a\nnorm n.ppm\nnorm\nbump # no path\n", "").unwrap();
    assert_eq!(materials.get("a").unwrap().normal_texture, Some(String::from("n.ppm")));
    assert_eq!(parse("norm x.ppm\n", "").unwrap().len(), 0);
}

#[test]
fn parse_of_empty_source_has_no_materials() {
    assert_eq!(parse("", "models").unwrap().len(), 0);
}

#[test]
fn extend_replaces_materials_of_the_same_name() {
    let mut first = MaterialLibrary::new();
    first.insert("a".into(), Material { diffuse_color: None, diffuse_texture: Some("one.ppm".into()), normal_texture: None });
    first.insert("b".into(), Material { diffuse_color: None, diffuse_texture: None, normal_texture: None });
    let mut second = MaterialLibrary::new();
    second.insert("a".into(), Material { diffuse_color: None, diffuse_texture: Some("two.ppm".into()), normal_texture: None });
    second.insert("c".into(), Material { diffuse_color: None, diffuse_texture: None, normal_texture: Some("n.ppm".into()) });

    first.extend(second);

    assert_eq!(first.len(), 3);
    assert_eq!(first.get("a").unwrap().diffuse_texture, Some(String::from("two.ppm")));
    assert_eq!(first.get("c").unwrap().normal_texture, Some(String::from("n.ppm")));
    assert_eq!(first.position("b"), Some(1));
}

#[test]
fn inserting_a_name_again_keeps_one_material_of_that_name() {
    let mut materials = MaterialLibrary::new();
    materials.insert("a".into(), Material { diffuse_color: None, diffuse_texture: Some("one.ppm".into()), normal_texture: None });
    materials.insert("b".into(), Material { diffuse_color: None, diffuse_texture: None, normal_texture: None });
    materials.insert("a".into(), Material { diffuse_color: None, diffuse_texture: Some("two.ppm".into()), normal_texture: None });
    let mut more = MaterialLibrary::new();
    more.insert("b".into(), Material { diffuse_color: None, diffuse_texture: Some("b.ppm".into()), normal_texture: None });
    materials.extend(more);

    assert_eq!(materials.len(), 2);
    assert_eq!(materials.get("a").unwrap().diffuse_texture, Some(String::from("two.ppm")));
    assert_eq!(materials.get("b").unwrap().diffuse_texture, Some(String::from("b.ppm")));
}
