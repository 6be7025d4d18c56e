//! Tiles: their definitions, the files of their frames, and what a drawn
//! tile tells the shader.

use vstd::prelude::*;
use crate::atlas::TextureHandle;

verus! {

/// How the frames of a tile follow each other.
#[derive(Clone, Copy, Debug, PartialEq, Eq)]
pub struct AnimationDef {
    pub frame_time_ms: u32,
    pub looped: bool,
}

/// What the definition file of a tile says.
pub struct TileDef {
    pub name: String,
    pub tint: [u8; 4],
    pub animation: Option<AnimationDef>,
}

/// A tile as found on disk: its definition and the files of its frames.
pub struct TileAsset {
    pub name: String,
    pub tint: [u8; 4],
    pub frames: Vec<String>,
    pub animation: Option<AnimationDef>,
}

/// A tile whose frames are in the atlas.
pub struct Tile {
    pub name: String,
    pub tint: [u8; 4],
    pub frames: Vec<TextureHandle>,
    pub animation: Option<AnimationDef>,
}

/// What one drawn instance of a tile tells the shader, but for where it
/// stands.
#[derive(Clone, Copy, Debug, PartialEq, Eq)]
pub struct InstanceFields {
    pub base_frame: TextureHandle,
    pub frame_count: u32,
    pub frame_time_ms: u32,
    pub color: [u8; 4],
}

/// Why the files of a tile cannot be used.
#[derive(Clone, Copy, Debug, PartialEq, Eq)]
pub enum AssetError {
    /// The file at this place in the listing has no extension.
    NoExtension(usize),
    /// The file at this place in the listing is neither a definition nor an
    /// image.
    InvalidExtension(usize),
    /// There is no image among the files.
    NoFrames,
}

/// Whether the extension is that of a definition file.
pub open spec fn is_definition(extension: Option<String>) -> bool {
    extension matches Some(text) && text@ == "ron"@
}

/// Whether the extension is that of a frame.
pub open spec fn is_frame(extension: Option<String>) -> bool {
    extension matches Some(text) && text@ == "png"@
}

/// Whether, with the first `n` files of the listing accepted and the frames
/// among them chosen, the choice is the right one: the chosen places ascend
/// and are those of the frames.
pub open spec fn chosen(extensions: Seq<Option<String>>, n: int, frames: Seq<usize>) -> bool {
    &&& forall|i: int|
        0 <= i < n ==> is_definition(extensions[i]) || is_frame(#[trigger] extensions[i])
    &&& forall|a: int, b: int| 0 <= a < b < frames.len() ==> frames[a] < frames[b]
    &&& forall|a: int| 0 <= a < frames.len() ==> (#[trigger] frames[a]) < n
    &&& forall|i: int|
        0 <= i < n ==> (frames.contains(i as usize) <==> is_frame(#[trigger] extensions[i]))
}

impl TileAsset {
    /// The tile of a definition with the files of its frames.
    pub fn new(def: TileDef, frames: Vec<String>) -> (asset: Self)
        ensures
            asset.name == def.name,
            asset.tint == def.tint,
            asset.frames == frames,
            asset.animation == def.animation,
    {
        Self { name: def.name, tint: def.tint, frames, animation: def.animation }
    }

    /// Goes through the extensions of the files of a tile, in the order of
    /// the listing, and returns the places of the frames.
    ///
    /// A definition file is passed over, an image is a frame. The first file
    /// without an extension or with another one is an error, and so is a
    /// listing without any frame.
    pub fn select_frames(extensions: &Vec<Option<String>>) -> (selected: Result<
        Vec<usize>,
        AssetError,
    >)
        ensures
            match selected {
                Ok(frames) => frames@.len() > 0 && chosen(
                    extensions@,
                    extensions@.len() as int,
                    frames@,
                ),
                Err(AssetError::NoExtension(i)) => {
                    &&& i < extensions@.len()
                    &&& extensions@[i as int] is None
                    &&& exists|frames: Seq<usize>| chosen(extensions@, i as int, frames)
                },
                Err(AssetError::InvalidExtension(i)) => {
                    &&& i < extensions@.len()
                    &&& extensions@[i as int] is Some
                    &&& !is_definition(extensions@[i as int])
                    &&& !is_frame(extensions@[i as int])
                    &&& exists|frames: Seq<usize>| chosen(extensions@, i as int, frames)
                },
                Err(AssetError::NoFrames) => chosen(
                    extensions@,
                    extensions@.len() as int,
                    Seq::empty(),
                ),
            },
    {
        let definition: String = "ron".to_owned();
        let image: String = "png".to_owned();
        let mut frames: Vec<usize> = Vec::new();
        let mut i: usize = 0;
        while i < extensions.len()
            invariant
                i <= extensions@.len(),
                definition@ == "ron"@,
                image@ == "png"@,
                chosen(extensions@, i as int, frames@),
            decreases extensions@.len() - i,
        {
            let ghost before = frames@;
            match &extensions[i] {
                None => {
                    return Err(AssetError::NoExtension(i));
                },
                Some(extension) => {
                    if *extension == definition {
                        proof {
                            assert(is_definition(extensions@[i as int]));
                            if is_frame(extensions@[i as int]) {
                                reveal_strlit("ron");
                                reveal_strlit("png");
                                assert("ron"@[0] != "png"@[0]);
                            }
                        }
                    } else if *extension == image {
                        frames.push(i);
                        proof {
                            assert(frames@[before.len() as int] == i);
                            assert forall|k: int| 0 <= k < i + 1 implies (frames@.contains(
                                k as usize,
                            ) <==> is_frame(#[trigger] extensions@[k])) by {
                                if k < i {
                                    if before.contains(k as usize) {
                                        let a = choose|a: int|
                                            0 <= a < before.len() && before[a] == k as usize;
                                        assert(frames@[a] == k as usize);
                                    }
                                    if frames@.contains(k as usize) {
                                        let a = choose|a: int|
                                            0 <= a < frames@.len() && frames@[a] == k as usize;
                                        assert(before[a] == k as usize);
                                    }
                                }
                            }
                        }
                    } else {
                        return Err(AssetError::InvalidExtension(i));
                    }
                },
            }
            proof {
                if frames@ == before {
                    assert forall|k: int| 0 <= k < i + 1 implies (frames@.contains(k as usize)
                        <==> is_frame(#[trigger] extensions@[k])) by {
                        if k == i && frames@.contains(k as usize) {
                            let a = choose|a: int|
                                0 <= a < frames@.len() && frames@[a] == k as usize;
                        }
                    }
                }
            }
            i += 1;
        }
        if frames.len() == 0 {
            assert(frames@ =~= Seq::empty());
            return Err(AssetError::NoFrames);
        }
        Ok(frames)
    }
}

impl Tile {
    /// What a drawn instance of this tile tells the shader: its first frame,
    /// the number of its frames, the time that a frame is shown, which is 0
    /// for a tile that is not animated, and its tint.
    pub fn instance_fields(&self) -> (fields: InstanceFields)
        requires
            0 < self.frames@.len() <= u32::MAX,
        ensures
            fields.base_frame == self.frames@[0],
            fields.frame_count == self.frames@.len(),
            fields.frame_time_ms == match self.animation {
                Some(animation) => animation.frame_time_ms,
                None => 0,
            },
            fields.color == self.tint,
    {
        InstanceFields {
            base_frame: self.frames[0],
            frame_count: self.frames.len() as u32,
            frame_time_ms: match &self.animation {
                Some(animation) => animation.frame_time_ms,
                None => 0,
            },
            color: self.tint,
        }
    }
}

} // verus!
