use ecs_core::tile::{AnimationDef, AssetError, InstanceFields, Tile, TileAsset, TileDef};

fn ext(text: &str) -> Option<String> {
    Some(String::from(text))
}

#[test]
fn images_are_frames_and_definitions_are_passed_over() {
    let listing = vec![ext("png"), ext("ron"), ext("png"), ext("png")];
    assert_eq!(TileAsset::select_frames(&listing), Ok(vec![0, 2, 3]));
}

#[test]
fn the_first_bad_file_decides() {
    let listing = vec![ext("png"), None, ext("txt")];
    assert_eq!(TileAsset::select_frames(&listing), Err(AssetError::NoExtension(1)));
    let listing = vec![ext("ron"), ext("PNG"), None];
    assert_eq!(TileAsset::select_frames(&listing), Err(AssetError::InvalidExtension(1)));
}

#[test]
fn a_tile_needs_a_frame() {
    assert_eq!(TileAsset::select_frames(&vec![ext("ron")]), Err(AssetError::NoFrames));
    assert_eq!(TileAsset::select_frames(&Vec::new()), Err(AssetError::NoFrames));
}

#[test]
fn an_asset_takes_over_its_definition() {
    let def = TileDef {
        name: String::from("water"),
        tint: [1, 2, 3, 4],
        animation: Some(AnimationDef { frame_time_ms: 250, looped: true }),
    };
    let asset = TileAsset::new(def, vec![String::from("a.png"), String::from("b.png")]);
    assert_eq!(asset.name, "water");
    assert_eq!(asset.tint, [1, 2, 3, 4]);
    assert_eq!(asset.frames, vec![String::from("a.png"), String::from("b.png")]);
    assert_eq!(asset.animation, Some(AnimationDef { frame_time_ms: 250, looped: true }));
}

#[test]
fn instance_fields_of_a_tile() {
    let still = Tile { name: String::from("grass"), tint: [255, 255, 255, 255], frames: vec![7], animation: None };
    assert_eq!(
        still.instance_fields(),
        InstanceFields { base_frame: 7, frame_count: 1, frame_time_ms: 0, color: [255, 255, 255, 255] }
    );
    let moving = Tile {
        name: String::from("water"),
        tint: [0, 0, 255, 128],
        frames: vec![3, 4, 5],
        animation: Some(AnimationDef { frame_time_ms: 120, looped: false }),
    };
    assert_eq!(
        moving.instance_fields(),
        InstanceFields { base_frame: 3, frame_count: 3, frame_time_ms: 120, color: [0, 0, 255, 128] }
    );
}
