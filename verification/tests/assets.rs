use spark::assets::{
    asset_base, builtin_mesh, derived_from, normalize, push_quad, AssetIndex, AssetKind,
    MeshVertex,
};

#[test]
fn builtins_exist() {
    for name in ["cube", "sphere", "plane", "quad"] {
        let (v, i) = builtin_mesh(name).unwrap();
        assert!(!v.is_empty());
        assert!(!i.is_empty());
    }
    assert!(builtin_mesh("nope").is_none());
}

#[test]
fn builtin_meshes_are_well_formed_triangle_lists() {
    for name in ["cube", "sphere", "plane", "quad"] {
        let (v, i) = builtin_mesh(name).unwrap();
        assert_eq!(i.len() % 3, 0, "{name}");
        assert!(i.iter().all(|&k| (k as usize) < v.len()), "{name}");
    }
}

#[test]
fn builtin_mesh_sizes() {
    let (v, i) = builtin_mesh("cube").unwrap();
    assert_eq!((v.len(), i.len()), (24, 36));
    let (v, i) = builtin_mesh("sphere").unwrap();
    assert_eq!((v.len(), i.len()), (15 * 21, 14 * 20 * 6));
    let (v, i) = builtin_mesh("plane").unwrap();
    assert_eq!((v.len(), i.len()), (4, 6));
    let (v, i) = builtin_mesh("quad").unwrap();
    assert_eq!((v.len(), i.len()), (4, 6));
    assert!(builtin_mesh("Cube").is_none());
    assert!(builtin_mesh("").is_none());
}

#[test]
fn cube_front_face_corners() {
    let (v, i) = builtin_mesh("cube").unwrap();
    // +Z face first: counter-clockwise from (-x, -y), in half units.
    assert_eq!(
        v[0],
        MeshVertex::Lattice { position: (-1, -1, 1), normal: (0, 0, 1), uv: (0, 0) }
    );
    assert_eq!(
        v[2],
        MeshVertex::Lattice { position: (1, 1, 1), normal: (0, 0, 1), uv: (1, 1) }
    );
    // -Y face last.
    assert_eq!(
        v[23],
        MeshVertex::Lattice { position: (-1, -1, 1), normal: (0, -1, 0), uv: (0, 1) }
    );
    assert_eq!(&i[0..6], &[0, 1, 2, 0, 2, 3]);
    assert_eq!(&i[30..36], &[20, 21, 22, 20, 22, 23]);
}

#[test]
fn sphere_grid_indices() {
    let (v, i) = builtin_mesh("sphere").unwrap();
    assert_eq!(
        v[21 + 3],
        MeshVertex::Sphere { stack: 1, sector: 3, stacks: 14, sectors: 20 }
    );
    // First cell: a = 0, b = 21.
    assert_eq!(&i[0..6], &[0, 21, 1, 21, 22, 1]);
    // Last cell: i = 13, j = 19 → a = 292, b = 313.
    let n = i.len();
    assert_eq!(&i[n - 6..], &[292, 313, 293, 313, 314, 293]);
}

#[test]
fn plane_lies_on_xz() {
    let (v, _) = builtin_mesh("plane").unwrap();
    for x in &v {
        match x {
            MeshVertex::Lattice { position, normal, .. } => {
                assert_eq!(position.1, 0);
                assert_eq!(*normal, (0, 1, 0));
            }
            _ => panic!("plane has lattice vertices"),
        }
    }
}

#[test]
fn push_quad_offsets_indices() {
    let mut v = Vec::new();
    let mut i = Vec::new();
    let q = MeshVertex::Lattice { position: (0, 0, 0), normal: (0, 0, 1), uv: (0, 0) };
    push_quad(&mut v, &mut i, [q, q, q, q]);
    push_quad(&mut v, &mut i, [q, q, q, q]);
    assert_eq!(v.len(), 8);
    assert_eq!(i, vec![0, 1, 2, 0, 2, 3, 4, 5, 6, 4, 6, 7]);
}

#[test]
fn extensions_map_to_kinds() {
    for e in ["png", "jpg", "jpeg", "hdr", "bmp", "webp", "tga"] {
        assert_eq!(AssetKind::from_extension(e), AssetKind::Texture);
    }
    assert_eq!(AssetKind::from_extension("glb"), AssetKind::Model);
    assert_eq!(AssetKind::from_extension("gltf"), AssetKind::Model);
    for e in ["wav", "ogg", "mp3", "flac"] {
        assert_eq!(AssetKind::from_extension(e), AssetKind::Sound);
    }
    assert_eq!(AssetKind::from_extension("scene"), AssetKind::Scene);
    assert_eq!(AssetKind::from_extension("ron"), AssetKind::Prefab);
    assert_eq!(AssetKind::from_extension("txt"), AssetKind::Other);
    assert_eq!(AssetKind::from_extension("PNG"), AssetKind::Other);
    assert_eq!(AssetKind::from_extension(""), AssetKind::Other);
}

#[test]
fn asset_refs_resolve_to_their_file() {
    assert_eq!(asset_base("assets/robot.glb#0"), "assets/robot.glb");
    assert_eq!(asset_base("assets/robot.glb#tex1"), "assets/robot.glb");
    assert_eq!(asset_base("assets/player.png"), "assets/player.png");
    assert_eq!(asset_base("a#b#c"), "a");
    assert_eq!(asset_base("#x"), "");
    assert!(derived_from("assets/robot.glb#0", "assets/robot.glb"));
    assert!(!derived_from("assets/robot.glb", "assets/robot.glb"));
    assert!(!derived_from("assets/robot.glbx#0", "assets/robot.glb"));
    assert!(!derived_from("assets/other.glb#0", "assets/robot.glb"));
}

#[test]
fn keys_use_forward_slashes() {
    assert_eq!(normalize("assets\\sfx\\jump.wav"), "assets/sfx/jump.wav");
    assert_eq!(normalize("assets/player.png"), "assets/player.png");
    assert_eq!(normalize(""), "");
}

#[test]
fn index_lists_kinds_sorted() {
    let mut idx = AssetIndex::new();
    assert!(idx.index_mut_for("assets/sfx/jump.wav".to_string(), "wav", true).is_some());
    assert!(idx.index_mut_for("assets/zebra.png".to_string(), "png", true).is_some());
    assert!(idx.index_mut_for("assets/player.png".to_string(), "png", true).is_some());
    // Unknown kinds and directories are not indexed.
    assert!(idx.index_mut_for("notes.txt".to_string(), "txt", true).is_none());
    assert!(idx.index_mut_for("assets/dir.png".to_string(), "png", false).is_none());
    assert_eq!(
        idx.list(AssetKind::Texture),
        vec!["assets/player.png".to_string(), "assets/zebra.png".to_string()]
    );
    assert_eq!(idx.list(AssetKind::Sound), vec!["assets/sfx/jump.wav".to_string()]);
    assert!(idx.list(AssetKind::Model).is_empty());
}

#[test]
fn reload_bumps_version_and_reports_kind() {
    let mut idx = AssetIndex::new();
    idx.index_mut_for("assets/robot.glb".to_string(), "glb", true);
    assert_eq!(idx.meta("assets/robot.glb#0").map(|m| m.version), Some(0));
    assert_eq!(idx.on_file_changed("assets/robot.glb"), Some(AssetKind::Model));
    assert_eq!(idx.on_file_changed("assets/robot.glb"), Some(AssetKind::Model));
    assert_eq!(idx.meta("assets/robot.glb").map(|m| m.version), Some(2));
    assert_eq!(idx.on_file_changed("assets/unknown.png"), None);
    // Indexing an existing key again keeps its version.
    let m = idx.index_mut_for("assets/robot.glb".to_string(), "glb", true).unwrap();
    assert_eq!(m.version, 2);
}
