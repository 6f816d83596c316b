use gallery::gcode::{gcode_command, strip_gcode_comments, GcodeCommand, GcodeModes};
use gallery::mtl::{parse_mtl, MtlMaterial};
use gallery::obj::{parse_obj, ObjObject, ObjTriangle};

fn tri(
    p: (u64, u64, u64),
    n: Option<(u64, u64, u64)>,
    t: Option<(u64, u64, u64)>,
) -> ObjTriangle {
    ObjTriangle { position: p, normal: n, uv: t }
}

fn groups(o: &ObjObject) -> Vec<(String, usize, usize)> {
    o.groups
        .iter()
        .map(|g| (String::from_utf8(g.name.clone()).unwrap(), g.start, g.count))
        .collect()
}

#[test]
fn obj_faces_fan_into_triangles_with_groups() {
    let text = "# quad\nv 0 0 0\nv 1 0 0\nv 1 1 0\nv 0 1 0\nvt 0 0\nvn 0 0 1\no first\n\
                usemtl red\nf 1/1/1 2/1/1 3/1/1 4/1/1\nusemtl blue\nf -4 -3 -2\n";
    let objects = parse_obj(text.as_bytes()).objects;
    assert_eq!(objects.len(), 1);
    let o = &objects[0];
    assert_eq!(
        o.triangles,
        vec![
            tri((0, 1, 2), Some((0, 0, 0)), Some((0, 0, 0))),
            tri((0, 2, 3), Some((0, 0, 0)), Some((0, 0, 0))),
            tri((0, 1, 2), None, None),
        ]
    );
    assert!(o.has_uv);
    assert_eq!(
        groups(o),
        vec![("red".to_string(), 0, 6), ("blue".to_string(), 6, 3)]
    );
}

#[test]
fn obj_crlf_and_continued_lines() {
    let text = "v 0 0 0\r\nv 1 0 0\r\nv 0 1 0\r\nusemtl m\r\nf 1 2 \\\n3\r\ng second\r\nf 3 2 1\r\n";
    let objects = parse_obj(text.as_bytes()).objects;
    assert_eq!(objects.len(), 1);
    assert_eq!(
        objects[0].triangles,
        vec![tri((0, 1, 2), None, None), tri((2, 1, 0), None, None)]
    );
    assert!(!objects[0].has_uv);
    assert_eq!(groups(&objects[0]), vec![("m".to_string(), 0, 6)]);
}

#[test]
fn obj_second_object_carries_the_material_over() {
    let text = "v 0 0 0\nv 1 0 0\nv 0 1 0\ng a\nusemtl m\nf 1 2 3\ng b\nf 1 2 3\nusemtl n\nf 1 2 3\n";
    let objects = parse_obj(text.as_bytes()).objects;
    assert_eq!(objects.len(), 2);
    assert_eq!(objects[0].triangles.len(), 1);
    assert_eq!(groups(&objects[0]), vec![("m".to_string(), 0, 3)]);
    assert_eq!(objects[1].triangles.len(), 2);
    assert_eq!(
        groups(&objects[1]),
        vec![("m".to_string(), 0, 3), ("n".to_string(), 3, 3)]
    );
}

#[test]
fn obj_without_material_gets_the_placeholder_group() {
    let objects = parse_obj(b"v 0 0 0\nv 1 0 0\nv 0 1 0\nf 1 2 3\n").objects;
    assert_eq!(objects.len(), 1);
    assert_eq!(groups(&objects[0]), vec![(String::new(), 0, 0)]);
}

#[test]
fn obj_vertex_lines_keep_their_words() {
    let file = parse_obj(b"v 1 2.5 -3\nvn 0 0 1 extra\nvt 0.5\nvx 9\n  v\t4 5 6\n");
    let words = |l: &Vec<Vec<u8>>| {
        l.iter().map(|w| String::from_utf8(w.clone()).unwrap()).collect::<Vec<_>>()
    };
    assert_eq!(file.positions.len(), 2);
    assert_eq!(words(&file.positions[0]), vec!["1", "2.5", "-3"]);
    assert_eq!(words(&file.positions[1]), vec!["4", "5", "6"]);
    assert_eq!(words(&file.normals[0]), vec!["0", "0", "1", "extra"]);
    assert_eq!(words(&file.uvs[0]), vec!["0.5"]);
    assert!(file.objects.is_empty());
}

#[test]
fn obj_objects_without_faces_are_dropped() {
    let objects = parse_obj(b"v 0 0 0\no a\nusemtl x\no b\n# nothing\n").objects;
    assert!(objects.is_empty());
    assert!(parse_obj(b"").objects.is_empty());
}

#[test]
fn obj_index_edge_cases() {
    // One position: `-5` counts back past the start, `x` and `0` are no valid index.
    let objects = parse_obj(b"v 0 0 0\nf -5 x 0 9\n").objects;
    assert_eq!(
        objects[0].triangles,
        vec![tri((0, 0, 0), None, None), tri((0, 0, 8), None, None)]
    );
    // Texture coordinates only when every corner names them; normals likewise.
    let objects = parse_obj(b"v 0 0 0\nvt 0 0\nvt 1 1\nf 1/2 1/1/ 1/2/3\n").objects;
    assert_eq!(objects[0].triangles, vec![tri((0, 0, 0), None, Some((1, 0, 1)))]);
    assert!(objects[0].has_uv);
}

#[test]
fn obj_usemtl_name_is_trimmed_and_empty_groups_pruned() {
    let text = "v 0 0 0\nusemtl  a \nusemtl b\nf 1 1 1\n";
    let objects = parse_obj(text.as_bytes()).objects;
    assert_eq!(groups(&objects[0]), vec![("b".to_string(), 0, 3)]);
}

fn material<'a>(ms: &'a [MtlMaterial], name: &str) -> &'a MtlMaterial {
    ms.iter().find(|m| m.name == name.as_bytes()).expect("material")
}

fn text(v: &Option<Vec<u8>>) -> Option<String> {
    v.as_ref().map(|b| String::from_utf8(b.clone()).unwrap())
}

#[test]
fn mtl_blocks_and_values() {
    let src = "# materials\nKd 1 1 1\nnewmtl red\nKd   1 0 0  \nNs 10\nmap_Kd red.png\n\
               newmtl blue\nKS 0 0 1\nkd 0 0 0.5\nnewmtl red\nKa 1 1 1\n";
    let ms = parse_mtl(src.as_bytes());
    assert_eq!(ms.len(), 2);
    let red = material(&ms, "red");
    assert_eq!(text(&red.kd), None);
    assert_eq!(text(&red.ns), None);
    assert_eq!(text(&red.map_kd), None);
    let blue = material(&ms, "blue");
    assert_eq!(text(&blue.ks), Some("0 0 1".to_string()));
    assert_eq!(text(&blue.kd), Some("0 0 0.5".to_string()));
    assert_eq!(text(&blue.ns), None);
}

#[test]
fn mtl_last_value_wins_and_kelvin_sign_is_k() {
    let src = "newmtl a\nKd 1 0 0\nKd 0 1 0\n\u{212A}s 0.5 0.5 0.5\nNs 7\n";
    let ms = parse_mtl(src.as_bytes());
    let a = material(&ms, "a");
    assert_eq!(text(&a.kd), Some("0 1 0".to_string()));
    assert_eq!(text(&a.ks), Some("0.5 0.5 0.5".to_string()));
    assert_eq!(text(&a.ns), Some("7".to_string()));
    assert_eq!(text(&a.map_kd), None);
}

#[test]
fn mtl_bare_newmtl_names_the_empty_material() {
    let ms = parse_mtl(b"newmtl\nmap_Kd tex.png\n");
    assert_eq!(ms.len(), 1);
    assert!(ms[0].name.is_empty());
    assert_eq!(text(&ms[0].map_kd), Some("tex.png".to_string()));
}

#[test]
fn gcode_comments_are_stripped_per_line() {
    let src = b"G1 X1 ; move\r\nG1 Y2;\nM83\n;only comment\n";
    let out = strip_gcode_comments(src);
    assert_eq!(out, b"G1 X1 \r\nG1 Y2;\nM83\n\n".to_vec());
    assert_eq!(strip_gcode_comments(b""), Vec::<u8>::new());
    assert_eq!(strip_gcode_comments(b";;"), Vec::<u8>::new());
}

#[test]
fn gcode_commands_ignore_case() {
    assert_eq!(gcode_command(b"g1 X1"), GcodeCommand::Move);
    assert_eq!(gcode_command(b"G0"), GcodeCommand::Move);
    assert_eq!(gcode_command(b"G90"), GcodeCommand::Absolute);
    assert_eq!(gcode_command(b"g91 "), GcodeCommand::Relative);
    assert_eq!(gcode_command(b"m82"), GcodeCommand::ExtrusionAbsolute);
    assert_eq!(gcode_command(b"M83"), GcodeCommand::ExtrusionRelative);
    assert_eq!(gcode_command(b"G92 E0"), GcodeCommand::SetPosition);
    assert_eq!(gcode_command(b"G1X"), GcodeCommand::Other);
    assert_eq!(gcode_command(b"G10"), GcodeCommand::Other);
    assert_eq!(gcode_command(b""), GcodeCommand::Other);
}

#[test]
fn gcode_extrusion_mode_follows_the_override() {
    let mut m = GcodeModes::new();
    assert!(!m.e_relative());
    m.apply(GcodeCommand::Relative);
    assert!(m.relative && m.e_relative());
    m.apply(GcodeCommand::ExtrusionAbsolute);
    assert!(m.relative && !m.e_relative());
    m.apply(GcodeCommand::Absolute);
    assert!(!m.extrusion_override && !m.e_relative());
    m.apply(GcodeCommand::ExtrusionRelative);
    assert!(m.e_relative());
    m.apply(GcodeCommand::Move);
    assert!(m.e_relative());
}
