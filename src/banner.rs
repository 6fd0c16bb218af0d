//! The `opening.bnr` banner file: its 96x32 picture and its texts.

use vstd::array::ArrayAdditionalExecFns;
use vstd::prelude::*;
use vstd::string::StringSliceAdditionalSpecFns;

verus! {

/// A 96x32 picture in 4x4 tiles of RGB5A1 pixels, two bytes each.
#[derive(Clone, Debug)]
pub struct RGB5A1Image(pub Box<[u8; 0x1800]>);

/// The pixel of a 96-pixel-wide picture that output pixel `k` comes from:
/// the pixels go tile by tile, 24 tiles to a row, each tile row by row.
pub open spec fn source_pixel(k: int) -> int {
    let tile = k / 16;
    let t = k % 16;
    (tile % 24) * 4 + t % 4 + ((tile / 24) * 4 + t / 4) * 96
}

/// The first byte of a pixel: alpha bit, 5 bits of red, the top 2 bits of
/// green (each channel cut to 5 bits).
pub open spec fn rgb5a1_high(p: [u8; 4]) -> u8 {
    (((p[3] >> 7u8) << 7u8) ^ ((p[0] >> 3u8) << 2u8) ^ ((p[1] >> 3u8) >> 3u8)) as u8
}

/// The second byte of a pixel: the low 3 bits of green, 5 bits of blue.
pub open spec fn rgb5a1_low(p: [u8; 4]) -> u8 {
    (((p[1] >> 3u8) << 5u8) ^ (p[2] >> 3u8)) as u8
}

impl RGB5A1Image {
    /// Converts a 96x32 picture of RGBA8 pixels, given row by row.
    ///
    /// The top bit of each alpha becomes the pixel's alpha bit.
    pub fn from_rgba8(data: &[[u8; 4]; 3072]) -> (r: Self)
        ensures
            forall|k: int|
                0 <= k < 3072 ==> {
                    &&& (*r.0)@[2 * k] == rgb5a1_high(data@[source_pixel(k)])
                    &&& (*r.0)@[2 * k + 1] == rgb5a1_low(data@[source_pixel(k)])
                },
    {
        let mut out = [0u8; 0x1800];
        let mut k: usize = 0;
        while k < 3072
            invariant
                k <= 3072,
                forall|j: int|
                    0 <= j < k ==> {
                        &&& out@[2 * j] == rgb5a1_high(data@[source_pixel(j)])
                        &&& out@[2 * j + 1] == rgb5a1_low(data@[source_pixel(j)])
                    },
            decreases 3072 - k,
        {
            let tile = k / 16;
            let t = k % 16;
            let x = (tile % 24) * 4 + t % 4;
            let y = (tile / 24) * 4 + t / 4;
            assert(x < 96 && y < 32) by (nonlinear_arith)
                requires
                    tile == k / 16,
                    t == k % 16,
                    k < 3072,
                    x == (tile % 24) * 4 + t % 4,
                    y == (tile / 24) * 4 + t / 4,
            ;
            assert(x + y * 96 < 3072) by (nonlinear_arith)
                requires
                    x < 96,
                    y < 32,
            ;
            let p = data[x + y * 96];
            let r = p[0] >> 3u8;
            let g = p[1] >> 3u8;
            let b = p[2] >> 3u8;
            let a = p[3] >> 7u8;
            let hi = (a << 7u8) ^ (r << 2u8) ^ (g >> 3u8);
            let lo = (g << 5u8) ^ b;
            out.set(2 * k, hi);
            out.set(2 * k + 1, lo);
            k = k + 1;
        }
        RGB5A1Image(Box::new(out))
    }
}

/// Which banner layout a game uses.
#[derive(Copy, Clone, Debug, PartialEq, Eq)]
pub enum GameRegion {
    UsOrJp,
    Eu,
}

/// What goes into a banner file.
#[derive(Copy, Clone, Debug)]
pub struct GameInfo<'a> {
    pub region: GameRegion,
    /// Must be less than 0x20 bytes.
    pub game_title: &'a str,
    /// Must be less than 0x20 bytes.
    pub developer_title: &'a str,
    /// Must be less than 0x40 bytes.
    pub full_game_title: &'a str,
    /// Must be less than 0x40 bytes.
    pub full_developer_title: &'a str,
    /// Must be less than 0x80 bytes.
    pub game_description: &'a str,
    pub banner: &'a RGB5A1Image,
}

/// Which text of a banner is too long.
#[derive(Copy, Clone, Debug, PartialEq, Eq)]
pub enum CreateOpeningBnrError {
    GameTitleTooLong,
    DevTitleTooLong,
    FullGameTitleTooLong,
    FullDevTitleTooLong,
    GameDescTooLong,
}

/// The first text of `info` that is too long, in the order of the fields.
pub open spec fn first_too_long(info: GameInfo) -> Option<CreateOpeningBnrError> {
    if info.game_title.len() >= 0x20 {
        Some(CreateOpeningBnrError::GameTitleTooLong)
    } else if info.developer_title.len() >= 0x20 {
        Some(CreateOpeningBnrError::DevTitleTooLong)
    } else if info.full_game_title.len() >= 0x40 {
        Some(CreateOpeningBnrError::FullGameTitleTooLong)
    } else if info.full_developer_title.len() >= 0x40 {
        Some(CreateOpeningBnrError::FullDevTitleTooLong)
    } else if info.game_description.len() >= 0x80 {
        Some(CreateOpeningBnrError::GameDescTooLong)
    } else {
        None
    }
}

impl<'a> GameInfo<'a> {
    /// Checks that each text fits its field.
    pub fn verify(&self) -> (r: Result<(), CreateOpeningBnrError>)
        ensures
            r is Ok <==> first_too_long(*self) is None,
            r matches Err(e) ==> first_too_long(*self) == Some(e),
    {
        if self.game_title.len() >= 0x20 {
            return Err(CreateOpeningBnrError::GameTitleTooLong);
        } else if self.developer_title.len() >= 0x20 {
            return Err(CreateOpeningBnrError::DevTitleTooLong);
        } else if self.full_game_title.len() >= 0x40 {
            return Err(CreateOpeningBnrError::FullGameTitleTooLong);
        } else if self.full_developer_title.len() >= 0x40 {
            return Err(CreateOpeningBnrError::FullDevTitleTooLong);
        } else if self.game_description.len() >= 0x80 {
            return Err(CreateOpeningBnrError::GameDescTooLong);
        }
        Ok(())
    }
}

/// Byte `i` of a field at `start` that holds `text`, zero past its end.
pub open spec fn text_byte(text: Seq<u8>, start: int, i: int) -> u8 {
    if start <= i < start + text.len() {
        text[i - start]
    } else {
        0
    }
}

/// The magic word of a region's banner: `BNR1` or `BNR2`.
pub open spec fn region_magic(region: GameRegion) -> Seq<u8> {
    match region {
        GameRegion::UsOrJp => seq![0x42u8, 0x4e, 0x52, 0x31],
        GameRegion::Eu => seq![0x42u8, 0x4e, 0x52, 0x32],
    }
}

/// Byte `i` of the banner file of `info`.
pub open spec fn bnr_byte(info: GameInfo, i: int) -> u8 {
    if i < 4 {
        region_magic(info.region)[i]
    } else if i < 0x20 {
        0
    } else if i < 0x1820 {
        (*info.banner.0)@[i - 0x20]
    } else if i < 0x1840 {
        text_byte(info.game_title.spec_bytes(), 0x1820, i)
    } else if i < 0x1860 {
        text_byte(info.developer_title.spec_bytes(), 0x1840, i)
    } else if i < 0x18a0 {
        text_byte(info.full_game_title.spec_bytes(), 0x1860, i)
    } else if i < 0x18e0 {
        text_byte(info.full_developer_title.spec_bytes(), 0x18a0, i)
    } else {
        text_byte(info.game_description.spec_bytes(), 0x18e0, i)
    }
}

/// Writes `src` into `file` from `start` on.
fn put_bytes(file: &mut [u8; 0x1960], start: usize, src: &[u8])
    requires
        start + src@.len() <= 0x1960,
    ensures
        forall|i: int|
            0 <= i < 0x1960 ==> final(file)@[i] == if start <= i < start + src@.len() {
                src@[i - start]
            } else {
                old(file)@[i]
            },
{
    let mut k: usize = 0;
    while k < src.len()
        invariant
            k <= src@.len(),
            start + src@.len() <= 0x1960,
            forall|i: int|
                0 <= i < 0x1960 ==> file@[i] == if start <= i < start + k {
                    src@[i - start]
                } else {
                    old(file)@[i]
                },
        decreases src@.len() - k,
    {
        file.set(start + k, src[k]);
        k = k + 1;
    }
}

/// Builds the `opening.bnr` file of a game.
pub fn create_opening_bnr(info: GameInfo) -> (r: Result<Box<[u8; 0x1960]>, CreateOpeningBnrError>)
    ensures
        r matches Err(e) ==> first_too_long(info) == Some(e),
        r is Ok <==> first_too_long(info) is None,
        r matches Ok(file) ==> forall|i: int| 0 <= i < 0x1960 ==> (*file)@[i] == bnr_byte(info, i),
{
    match info.verify() {
        Err(e) => {
            return Err(e);
        },
        Ok(()) => {},
    }
    let mut file = [0u8; 0x1960];
    let magic: [u8; 4] = match info.region {
        GameRegion::UsOrJp => [0x42, 0x4e, 0x52, 0x31],
        GameRegion::Eu => [0x42, 0x4e, 0x52, 0x32],
    };
    assert(magic@ =~= region_magic(info.region));
    put_bytes(&mut file, 0, magic.as_slice());
    let banner: &[u8; 0x1800] = &info.banner.0;
    put_bytes(&mut file, 0x20, banner.as_slice());
    let text = info.game_title.as_bytes();
    let _len = text.len();
    put_bytes(&mut file, 0x1820, text);
    let text = info.developer_title.as_bytes();
    let _len = text.len();
    put_bytes(&mut file, 0x1840, text);
    let text = info.full_game_title.as_bytes();
    let _len = text.len();
    put_bytes(&mut file, 0x1860, text);
    let text = info.full_developer_title.as_bytes();
    let _len = text.len();
    put_bytes(&mut file, 0x18a0, text);
    let text = info.game_description.as_bytes();
    let _len = text.len();
    put_bytes(&mut file, 0x18e0, text);
    Ok(Box::new(file))
}

/// Whether `id` has the form of a game ID: four upper-case ASCII letters and
/// two ASCII digits, such as `GALE01`.
pub open spec fn game_id_ok(id: Seq<u8>) -> bool {
    &&& id.len() == 6
    &&& forall|k: int| 0 <= k < 4 ==> 0x41 <= #[trigger] id[k] <= 0x5a
    &&& forall|k: int| 4 <= k < 6 ==> 0x30 <= #[trigger] id[k] <= 0x39
}

/// Whether `id` has the form of a game ID.
pub fn is_valid_game_id(id: &str) -> (r: bool)
    ensures
        r == game_id_ok(id.spec_bytes()),
{
    let b = id.as_bytes();
    if b.len() != 6 {
        return false;
    }
    let mut k: usize = 0;
    while k < 6
        invariant
            k <= 6,
            b@.len() == 6,
            b@ == id.spec_bytes(),
            forall|j: int| 0 <= j < k && j < 4 ==> 0x41 <= #[trigger] b@[j] <= 0x5a,
            forall|j: int| 4 <= j < k ==> 0x30 <= #[trigger] b@[j] <= 0x39,
        decreases 6 - k,
    {
        let ok = if k < 4 {
            0x41 <= b[k] && b[k] <= 0x5a
        } else {
            0x30 <= b[k] && b[k] <= 0x39
        };
        if !ok {
            return false;
        }
        k = k + 1;
    }
    true
}

/// The 0x20-byte title field of a disc header holding `title`, zero-padded;
/// `None` where the title does not fit with room for its NUL.
pub fn header_title(title: &str) -> (r: Option<Vec<u8>>)
    ensures
        r is None <==> title.spec_bytes().len() >= 0x20,
        r matches Some(f) ==> f@.len() == 0x20 && forall|i: int|
            0 <= i < 0x20 ==> f@[i] == text_byte(title.spec_bytes(), 0, i),
{
    let b = title.as_bytes();
    if b.len() >= 0x20 {
        return None;
    }
    let mut f: Vec<u8> = Vec::new();
    let mut k: usize = 0;
    while k < 0x20
        invariant
            k <= 0x20,
            b@.len() < 0x20,
            b@ == title.spec_bytes(),
            f@.len() == k,
            forall|i: int| 0 <= i < k ==> f@[i] == text_byte(b@, 0, i),
        decreases 0x20 - k,
    {
        if k < b.len() {
            f.push(b[k]);
        } else {
            f.push(0u8);
        }
        k = k + 1;
    }
    Some(f)
}

} // verus!
