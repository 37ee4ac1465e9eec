//! Bvh motion capture clips loaded from bytes, with their loop setting and
//! name.
use vstd::prelude::*;

use crate::bvh_check::{bvh_header_checked, check_bvh_header};

verus! {

/// The parsed clip type of `bvh_anim`, carried through without looking
/// inside.
#[verifier::external_type_specification]
#[verifier::external_body]
pub struct ExBvh(bvh_anim::Bvh);

/// The parse error type of `bvh_anim`, carried through without looking
/// inside.
#[verifier::external_type_specification]
#[verifier::external_body]
pub struct ExLoadError(bvh_anim::errors::LoadError);

/// The io error of std, held by [`BvhAssetLoaderError::Io`].
#[verifier::external_type_specification]
#[verifier::external_body]
pub struct ExIoError(std::io::Error);

/// Whether `bytes` parse as a bvh file (see [`parse_bvh`]).
pub uninterp spec fn bvh_parses(bytes: Seq<u8>) -> bool;

/// Whether `clip` is a clip that parsing `bytes` gives (see [`parse_bvh`]).
pub uninterp spec fn bvh_parsed_from(clip: bvh_anim::Bvh, bytes: Seq<u8>) -> bool;

/// Calls `bvh_anim::from_bytes`, which parses the bytes as an in-memory bvh
/// file. Required: the bytes pass [`bvh_header_checked`], which refuses the
/// files on which the parser panics (see `crate::bvh_check`). Left open: the
/// parser's memory reservations, bounded by the check in proportion to the
/// file, may still fail for want of memory.
/// Claimed: the parse succeeds exactly when `bvh_parses(bytes@)`, a property
/// of the bytes alone, and the clip it returns is one parsed from these
/// bytes (`bvh_parsed_from`). Not claimed: anything about the content of the
/// clip or of the error.
#[verifier::external_body]
fn parse_bvh(bytes: &[u8]) -> (result: Result<bvh_anim::Bvh, bvh_anim::errors::LoadError>)
    requires
        bvh_header_checked(bytes@),
    ensures
        result is Ok <==> bvh_parses(bytes@),
        result matches Ok(clip) ==> bvh_parsed_from(clip, bytes@),
{
    bvh_anim::from_bytes(bytes)
}

/// A bvh clip with its loop setting and name.
pub struct BvhAsset {
    bvh: bvh_anim::Bvh,
    loopable: bool,
    name: String,
}

impl BvhAsset {
    /// Whether the clip can be played in a loop.
    pub closed spec fn spec_loopable(&self) -> bool {
        self.loopable
    }

    /// Name of the clip.
    pub closed spec fn spec_name(&self) -> Seq<char> {
        self.name@
    }

    /// The parsed clip held by the asset.
    pub closed spec fn spec_bvh(&self) -> bvh_anim::Bvh {
        self.bvh
    }

    /// Whether the clip can be played in a loop.
    pub fn loopable(&self) -> (loopable: bool)
        ensures
            loopable == self.spec_loopable(),
    {
        self.loopable
    }

    /// Name of the clip.
    pub fn name(&self) -> (name: &String)
        ensures
            name@ == self.spec_name(),
    {
        &self.name
    }

    /// The parsed clip.
    pub fn bvh(&self) -> (bvh: &bvh_anim::Bvh)
        ensures
            *bvh == self.spec_bvh(),
    {
        &self.bvh
    }
}

/// Settings used when loading a bvh clip.
#[derive(Clone, Copy, Debug)]
pub struct BvhAssetSettings {
    /// Whether the clip can be played in a loop.
    pub loopable: bool,
}

impl Default for BvhAssetSettings {
    fn default() -> (settings: Self)
        ensures
            !settings.loopable,
    {
        BvhAssetSettings { loopable: false }
    }
}

/// Possible errors that can be produced by [`BvhAssetLoader`].
pub enum BvhAssetLoaderError {
    /// An io error while reading the file.
    Io(std::io::Error),
    /// The bytes are not a valid bvh file.
    BvhLoadError(bvh_anim::errors::LoadError),
    /// The bytes would make the parser panic (see [`bvh_header_checked`]).
    Rejected,
}

/// Loads bvh clips from the bytes of `.bvh` files.
pub struct BvhAssetLoader;

impl Default for BvhAssetLoader {
    fn default() -> Self {
        BvhAssetLoader
    }
}

impl BvhAssetLoader {
    /// Parse `bytes` as a bvh clip named `name`, loopable as `settings` say.
    /// Bytes on which the parser would panic are refused before parsing
    /// ([`bvh_header_checked`]).
    pub fn load(&self, bytes: &[u8], settings: &BvhAssetSettings, name: String) -> (result: Result<
        BvhAsset,
        BvhAssetLoaderError,
    >)
        ensures
            result is Ok <==> bvh_header_checked(bytes@) && bvh_parses(bytes@),
            result matches Ok(asset) ==> asset.spec_loopable() == settings.loopable
                && asset.spec_name() == name@ && bvh_parsed_from(asset.spec_bvh(), bytes@),
            result matches Err(e) ==> (e is Rejected <==> !bvh_header_checked(bytes@)),
            result matches Err(e) ==> (e is Rejected || e is BvhLoadError),
    {
        if !check_bvh_header(bytes) {
            return Err(BvhAssetLoaderError::Rejected);
        }
        match parse_bvh(bytes) {
            Ok(bvh) => Ok(BvhAsset { bvh, loopable: settings.loopable, name }),
            Err(e) => Err(BvhAssetLoaderError::BvhLoadError(e)),
        }
    }

    /// File extensions of bvh clips.
    pub fn extensions(&self) -> (extensions: &'static [&'static str])
        ensures
            extensions@.len() == 1,
            extensions@[0]@ == seq!['b', 'v', 'h'],
    {
        proof {
            reveal_strlit("bvh");
        }
        let extensions: &'static [&'static str] = &["bvh"];
        extensions
    }
}

} // verus!
