use mcrs::cubemap::{img_to_vox, Method, PaletteColor, Uv, FACE_SIDE, STRIP_WIDTH};
use mcrs::grid::{Grid, VoxGrid, Voxel, COLLISION_FLAG};
use mcrs::grid_hierarchy::{Grid as CubeGrid, GH};
use mcrs::ivec::IVec3;
use mcrs::vox::{first_vox_model, VoxModel, VoxPoint};
use mcrs::voxel_shapes::{BoolVoxel, Grid as ShapeGrid, VoxelShape, SHAPE_CHUNK_SIDE, SHAPE_CHUNK_VOLUME};

#[test]
fn grid_xyz_to_index_to_xyz() {
    for x in 0..32 {
        for y in 0..32 {
            for z in 0..32 {
                let xyz0 = IVec3 { x, y, z };
                let index = Grid::xyz_to_index(xyz0.clone());
                let xyz1 = Grid::index_to_xyz(index);
                assert_eq!(xyz0, xyz1);
            }
        }
    }
}

#[test]
fn storage_grid_set_get_and_bytes() {
    let mut grid = Grid::empty();
    assert!(Grid::contains(&IVec3::new(31, 0, 0)));
    assert!(!Grid::contains(&IVec3::new(32, 0, 0)));
    let v = Voxel { id: 9, flags: COLLISION_FLAG, light: 3, unused: 0 };
    grid.set_at(IVec3::new(0, 0, 1), v);
    assert_eq!(grid.get_at(IVec3::new(0, 0, 1)), v);
    assert_eq!(grid.get_at(IVec3::new(0, 0, 2)), Voxel::default());
    let bytes = grid.to_bytes();
    assert_eq!(bytes.len(), 32768 * 4);
    assert_eq!(&bytes[4..8], &[9, 16, 3, 0]);
    let filled = Grid::filled();
    assert_eq!(filled.get_at(IVec3::new(5, 31, 5)), Voxel { id: 1, flags: 16, light: 0, unused: 0 });
    let flat = Grid::flatland();
    assert_eq!(flat.get_at(IVec3::new(5, 16, 5)).id, 1);
    assert_eq!(flat.get_at(IVec3::new(5, 17, 5)).id, 0);
}

fn model(size: u32, voxels: Vec<VoxPoint>) -> VoxModel {
    VoxModel { size_x: size, size_y: size, size_z: size, voxels }
}

#[test]
fn vox_grid_places_model_voxels() {
    let m = VoxModel {
        size_x: 2,
        size_y: 4,
        size_z: 3,
        voxels: vec![VoxPoint { x: 0, y: 2, z: 3, i: 7 }, VoxPoint { x: 1, y: 0, z: 0, i: 9 }],
    };
    let g = VoxGrid::from_model(&m).unwrap();
    assert_eq!(g.size, IVec3::new(2, 4, 3));
    assert_eq!(g.voxels.len(), 24);
    // (0, 2, 3) lands at (1, 3, 2): the width is mirrored, y and z swapped
    assert_eq!(g.voxels[1 * 4 * 3 + 3 * 3 + 2], Voxel { id: 7, flags: 16, light: 0, unused: 0 });
    assert_eq!(g.voxels[0], Voxel { id: 9, flags: 16, light: 0, unused: 0 });
    assert_eq!(g.voxels.iter().filter(|v| v.id != 0).count(), 2);
    let swapped = VoxModel { size_x: 2, size_y: 3, size_z: 4, voxels: m.voxels.clone() };
    assert!(VoxGrid::from_model(&swapped).is_err());
    let bytes = g.to_bytes_vec(&vec![0xaa, 0xbb]);
    assert_eq!(&bytes[0..16], &[2, 0, 0, 0, 4, 0, 0, 0, 3, 0, 0, 0, 0, 0, 0, 0]);
    assert_eq!(&bytes[16..18], &[0xaa, 0xbb]);
    assert_eq!(&bytes[18..22], &[9, 16, 0, 0]);
    assert_eq!(bytes.len(), 18 + 24 * 4);
    let empty = VoxGrid::new(IVec3::new(3, 0, 5));
    assert!(empty.voxels.is_empty());
}

#[test]
fn cube_grids() {
    let empty = CubeGrid::empty(4);
    assert_eq!(empty.voxels.len(), 4 * 4 * 4 * 4);
    assert_eq!(empty.get_buffer_u8_size(), 256);
    assert_eq!(empty.get_at(IVec3::new(1, 2, 3)), 0);
    let filled = CubeGrid::filled(2);
    assert_eq!(filled.get_at(IVec3::new(1, 1, 1)), (1 << 8) + 16);
    let flat = CubeGrid::flatland(4);
    assert_eq!(flat.get_at(IVec3::new(0, 2, 0)), (1 << 8) + 16);
    assert_eq!(flat.get_at(IVec3::new(0, 3, 0)), 0);
    assert!(flat.contains(&IVec3::new(3, 3, 3)));
    assert!(!flat.contains(&IVec3::new(4, 0, 0)));
    assert!(!flat.contains(&IVec3::new(0, -1, 0)));
}

#[test]
fn cube_grid_from_model() {
    let m = model(2, vec![VoxPoint { x: 0, y: 1, z: 0, i: 5 }]);
    let g = CubeGrid::from_model(&m).unwrap();
    assert_eq!(g.size, 2);
    // cell (1, 0, 1) has index 5; the bytes written are those at twice it
    assert_eq!(g.voxels[10], 5);
    assert_eq!(g.voxels[11], 16);
    assert_eq!(g.voxels.iter().filter(|b| **b != 0).count(), 2);
    let not_cube = VoxModel { size_x: 2, size_y: 3, size_z: 2, voxels: vec![] };
    assert!(CubeGrid::from_model(&not_cube).is_err());
    assert!(CubeGrid::from_model(&model(2, vec![VoxPoint { x: 2, y: 0, z: 0, i: 1 }])).is_err());
}

#[test]
fn hierarchy_levels_and_offsets() {
    let gh = GH::empty(128);
    assert_eq!(gh.levels, [8, 16, 32, 64, 0, 0, 0, 0]);
    assert_eq!(gh.get_offsets(), [0, 512, 4608, 37376, 299520, 299520, 299520, 299520]);
    assert_eq!(gh.get_buffer_size(), 299520 / 8);
    assert_eq!(GH::get_buffer_size_from_levels(&[8, 0, 0, 0, 0, 0, 0, 0]), 64);
    assert_eq!(gh.texture_data.len(), 128 * 128 * 128 * 2);
    let small = GH::empty(8);
    assert_eq!(small.levels, [0; 8]);
}

#[test]
fn hierarchy_from_model() {
    let m = model(8, vec![VoxPoint { x: 7, y: 0, z: 1, i: 4 }]);
    let gh = GH::from_model(&m).unwrap();
    assert_eq!(gh.texture_size, 8);
    assert_eq!(gh.levels, [0; 8]);
    // (7, 0, 1) lands at (0, 1, 0), cell 8
    assert_eq!(gh.texture_data[16], 4);
    assert_eq!(gh.texture_data[17], 16);
    assert!(GH::from_model(&model(6, vec![])).is_err());
    let not_cube = VoxModel { size_x: 8, size_y: 8, size_z: 16, voxels: vec![] };
    assert!(GH::from_model(&not_cube).is_err());
}

#[test]
fn vox_files_are_read() {
    let data = dot_vox::DotVoxData {
        version: 150,
        index_map: vec![],
        models: vec![dot_vox::Model {
            size: dot_vox::Size { x: 2, y: 3, z: 4 },
            voxels: vec![dot_vox::Voxel { x: 1, y: 2, z: 3, i: 6 }],
        }],
        palette: dot_vox::DEFAULT_PALETTE.to_vec(),
        materials: vec![],
        scenes: vec![],
        layers: vec![],
    };
    let mut bytes: Vec<u8> = Vec::new();
    data.write_vox(&mut bytes).unwrap();
    let m = first_vox_model(&bytes).unwrap();
    assert_eq!((m.size_x, m.size_y, m.size_z), (2, 3, 4));
    assert_eq!(m.voxels, vec![VoxPoint { x: 1, y: 2, z: 3, i: 6 }]);
    assert!(first_vox_model(&[1, 2, 3]).is_err());
}

#[test]
fn shapes_list_their_voxels() {
    assert_eq!(VoxelShape::default(), VoxelShape::FilledCuboid(IVec3::new(16, 16, 16)));
    let opts = VoxelShape::opts();
    assert_eq!(opts.len(), 9);
    assert_eq!(opts[5], VoxelShape::Sphere(8));
    assert_eq!(opts[8], VoxelShape::Random { size: IVec3::new(256, 256, 256), seed: 69 });
    let cuboid = VoxelShape::FilledCuboid(IVec3::new(2, 3, 4)).iter();
    assert_eq!(cuboid.len(), 24);
    assert_eq!(cuboid[0], IVec3::new(0, 0, 0));
    assert_eq!(cuboid[1], IVec3::new(0, 0, 1));
    assert_eq!(cuboid[23], IVec3::new(1, 2, 3));
    assert!(VoxelShape::FilledCuboid(IVec3::new(2, 0, 4)).iter().is_empty());
    let ball = VoxelShape::Sphere(2).iter();
    let expected: Vec<IVec3> = (0..4)
        .flat_map(|x| (0..4).flat_map(move |y| (0..4).map(move |z| IVec3::new(x, y, z))))
        .filter(|p| (p.x - 2) * (p.x - 2) + (p.y - 2) * (p.y - 2) + (p.z - 2) * (p.z - 2) < 4)
        .collect();
    assert_eq!(ball, expected);
    assert_eq!(ball.len(), 27);
    assert!(VoxelShape::Sphere(0).iter().is_empty());
}

#[test]
fn random_shapes_are_reproducible() {
    let shape = VoxelShape::Random { size: IVec3::new(8, 8, 8), seed: 69 };
    let a = shape.iter();
    let b = shape.iter();
    assert_eq!(a, b);
    assert!(a.len() > 128 && a.len() < 384);
    assert!(a.windows(2).all(|w| (w[0].x, w[0].y, w[0].z) < (w[1].x, w[1].y, w[1].z)));
    assert!(a.iter().all(|p| (0..8).contains(&p.x) && (0..8).contains(&p.y) && (0..8).contains(&p.z)));
    let c = VoxelShape::Random { size: IVec3::new(8, 8, 8), seed: 70 }.iter();
    assert_ne!(a, c);
    let mut rng = <rand_chacha::ChaCha8Rng as rand::SeedableRng>::seed_from_u64(69);
    let mut expected = vec![];
    for x in 0..8 {
        for y in 0..8 {
            for z in 0..8 {
                if rand::Rng::gen_bool(&mut rng, 0.5) {
                    expected.push(IVec3::new(x, y, z));
                }
            }
        }
    }
    assert_eq!(a, expected);
}

#[test]
fn shape_grid_holds_exactly_its_points() {
    assert_eq!(SHAPE_CHUNK_SIDE, 16);
    assert_eq!(SHAPE_CHUNK_VOLUME, 4096);
    let grid = ShapeGrid::from_vec(vec![IVec3::new(0, 0, 0), IVec3::new(17, -1, 3)]);
    assert_eq!(grid.chunks.len(), 2);
    assert_eq!(grid.get_at(IVec3::new(0, 0, 0)), Some(BoolVoxel::filled()));
    assert_eq!(grid.get_at(IVec3::new(1, 0, 0)), Some(BoolVoxel::empty()));
    assert_eq!(grid.get_at(IVec3::new(17, -1, 3)), Some(BoolVoxel(true)));
    // chunks are found by division toward zero, so a point just below zero
    // shares the chunk of the points just above it
    assert_eq!(grid.get_at(IVec3::new(17, 15, 3)), Some(BoolVoxel(true)));
    assert_eq!(grid.get_at(IVec3::new(40, 0, 0)), None);
    assert!(BoolVoxel::default().is_empty());
    assert!(!BoolVoxel::filled().is_empty());
}

#[test]
fn cube_faces_from_tiles() {
    let (top, bottom, side) = (Uv(0, 0), Uv(2, 0), Uv(3, 0));
    let m = Method::equal_sides(top, bottom, side);
    assert_eq!(m.face(0), top);
    for z in 1..5 {
        assert_eq!(m.face(z), side);
    }
    assert_eq!(m.face(5), bottom);
    assert_eq!(Method::Single(Uv(4, 1)).face(3), Uv(4, 1));
    assert_eq!(FACE_SIDE * 6, STRIP_WIDTH);
}

#[test]
fn texture_strip_to_voxels() {
    let red = PaletteColor { r: 255, g: 0, b: 0, a: 255 };
    let blue = PaletteColor { r: 0, g: 0, b: 255, a: 255 };
    let img: Vec<PaletteColor> = (0..1536).map(|i| if i % 96 < 16 { red } else { blue }).collect();
    let cube = img_to_vox(&img).unwrap();
    assert_eq!(cube.palette, vec![red, blue]);
    assert_eq!(cube.voxels.len(), 4096 - 14 * 14 * 14);
    assert_eq!(cube.voxels[0], VoxPoint { x: 0, y: 0, z: 0, i: 0 });
    assert!(cube.voxels.contains(&VoxPoint { x: 5, y: 5, z: 15, i: 1 }));
    assert!(cube.voxels.contains(&VoxPoint { x: 5, y: 5, z: 0, i: 0 }));
    assert!(!cube.voxels.iter().any(|v| v.x == 5 && v.y == 5 && v.z == 5));
    let many: Vec<PaletteColor> =
        (0..1536u32).map(|i| PaletteColor { r: (i % 256) as u8, g: (i / 256) as u8, b: 0, a: 255 }).collect();
    assert!(img_to_vox(&many).is_none());
}

#[test]
fn model_errors_say_what_is_wrong() {
    let not_cube = VoxModel { size_x: 2, size_y: 3, size_z: 2, voxels: vec![] };
    assert_eq!(CubeGrid::from_model(&not_cube).unwrap_err(), "Voxel model is not a cube!");
    assert_eq!(GH::from_model(&not_cube).unwrap_err(), "Voxel model is not a cube!");
    assert_eq!(GH::from_model(&model(6, vec![])).unwrap_err(), "Voxel model side is not supported");
    let outside = model(8, vec![VoxPoint { x: 8, y: 0, z: 0, i: 1 }]);
    assert_eq!(GH::from_model(&outside).unwrap_err(), "A voxel lies outside the model");
    assert_eq!(CubeGrid::from_model(&outside).unwrap_err(), "A voxel lies outside the model");
    assert_eq!(VoxGrid::from_model(&outside).unwrap_err(), "A voxel lies outside the model");
}
