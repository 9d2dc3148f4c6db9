//! Loaders that turn the bytes of a file into an asset.

use crate::assets::Asset;
use crate::error::{EcsError, Result};
use std::string::FromUtf8Error;
use vstd::prelude::*;
use vstd::string::*;
use vstd::utf8::{decode_utf8, valid_utf8};

verus! {

#[verifier::external_type_specification]
#[verifier::external_body]
pub struct ExJsonValue(serde_json::Value);

#[verifier::external_type_specification]
#[verifier::external_body]
pub struct ExJsonError(serde_json::Error);

#[verifier::external_type_specification]
#[verifier::external_body]
pub struct ExFromUtf8Error(FromUtf8Error);

/// Calls `serde_json::Value`'s derived `Clone`. Nothing is claimed of the
/// copy: the value is not one Verus can see into.
#[verifier::external_body]
fn json_value_clone(value: &serde_json::Value) -> serde_json::Value {
    value.clone()
}

/// The path as an owned `String`.
fn path_text(path: &str) -> (r: String)
    ensures
        r@ == path@,
{
    let r = path.to_string();
    proof {
        vstd::string::to_string_from_display_ensures_for_str(path, r);
    }
    r
}

/// Calls `String::from_utf8`, which succeeds exactly on valid UTF-8 and then
/// holds the characters the bytes encode.
#[verifier::external_body]
fn string_from_utf8(bytes: Vec<u8>) -> (r: std::result::Result<String, FromUtf8Error>)
    ensures
        r is Ok <==> valid_utf8(bytes@),
        r matches Ok(s) ==> s@ == decode_utf8(bytes@),
{
    String::from_utf8(bytes)
}

/// Writes a `FromUtf8Error` with its `Display` implementation. The error is
/// not a value Verus can see into, so nothing is claimed of the text.
#[verifier::external_body]
fn utf8_error_text(e: &FromUtf8Error) -> String {
    e.to_string()
}

/// Whether serde_json parses these bytes as one JSON value.
pub uninterp spec fn json_parses(bytes: Seq<u8>) -> bool;

/// Calls `serde_json::from_slice::<serde_json::Value>`. Whether it succeeds
/// depends on the bytes alone; the parsed value is not described.
#[verifier::external_body]
fn json_from_slice(bytes: &[u8]) -> (r: std::result::Result<serde_json::Value, serde_json::Error>)
    ensures
        r is Ok <==> json_parses(bytes@),
{
    serde_json::from_slice(bytes)
}

/// Writes a serde_json error with its `Display` implementation. The error is
/// not a value Verus can see into, so nothing is claimed of the text.
#[verifier::external_body]
fn json_error_text(e: &serde_json::Error) -> String {
    e.to_string()
}

/// Context provided to asset loaders: the file's path, as text, and its bytes.
pub struct LoadContext<'a> {
    pub path: &'a str,
    pub bytes: &'a [u8],
}

/// Trait for loading assets from bytes
pub trait AssetLoader: Send + Sync {
    type Asset: Asset;

    type Settings: Default + Send + Sync;

    /// Load asset from bytes
    fn load(&self, context: LoadContext, settings: &Self::Settings) -> Result<Self::Asset>;

    /// File extensions this loader supports
    fn extensions(&self) -> &[&str];
}

/// Simple binary data asset
#[derive(Clone, Debug)]
pub struct BinaryAsset {
    pub data: Vec<u8>,
    pub path: String,
}

impl Asset for BinaryAsset {
}

/// Binary asset loader
pub struct BinaryLoader;

impl BinaryLoader {
    /// The asset of a binary file: its bytes as they are.
    pub fn read(context: &LoadContext) -> (a: BinaryAsset)
        ensures
            a.data@ == context.bytes@,
            a.path@ == context.path@,
    {
        BinaryAsset { data: vstd::slice::slice_to_vec(context.bytes), path: path_text(context.path) }
    }
}

impl AssetLoader for BinaryLoader {
    type Asset = BinaryAsset;

    type Settings = ();

    fn load(&self, context: LoadContext, _settings: &Self::Settings) -> (r: Result<Self::Asset>)
        ensures
            r matches Ok(a) && a.data@ == context.bytes@ && a.path@ == context.path@,
    {
        Ok(Self::read(&context))
    }

    fn extensions(&self) -> (r: &[&str])
        ensures
            r@.len() == 2,
            r@[0]@ == "bin"@,
            r@[1]@ == "dat"@,
    {
        &["bin", "dat"]
    }
}

/// JSON data asset
#[derive(Debug)]
pub struct JsonAsset {
    pub value: serde_json::Value,
    pub path: String,
}

impl Clone for JsonAsset {
    fn clone(&self) -> (r: Self)
        ensures
            r.path@ == self.path@,
    {
        JsonAsset { value: json_value_clone(&self.value), path: self.path.clone() }
    }
}

impl Asset for JsonAsset {
}

/// JSON asset loader
pub struct JsonLoader;

impl JsonLoader {
    /// The asset of a JSON file: fails with an `AssetLoadError` exactly when
    /// the bytes do not parse.
    pub fn read(context: &LoadContext) -> (r: Result<JsonAsset>)
        ensures
            r is Ok <==> json_parses(context.bytes@),
            r matches Ok(a) ==> a.path@ == context.path@,
            r matches Err(e) ==> e matches EcsError::AssetLoadError(m) && m@.len() >= "JSON parse error: "@.len()
                && m@.subrange(0, "JSON parse error: "@.len() as int) == "JSON parse error: "@,
    {
        match json_from_slice(context.bytes) {
            Ok(value) => Ok(JsonAsset { value, path: path_text(context.path) }),
            Err(e) => {
                let detail = json_error_text(&e);
                let m = String::from_str("JSON parse error: ").concat(detail.as_str());
                assert(m@.subrange(0, "JSON parse error: "@.len() as int) =~= "JSON parse error: "@);
                Err(EcsError::AssetLoadError(m))
            },
        }
    }
}

impl AssetLoader for JsonLoader {
    type Asset = JsonAsset;

    type Settings = ();

    fn load(&self, context: LoadContext, _settings: &Self::Settings) -> (r: Result<Self::Asset>)
        ensures
            r is Ok <==> json_parses(context.bytes@),
            r matches Ok(a) ==> a.path@ == context.path@,
            r matches Err(e) ==> e matches EcsError::AssetLoadError(m) && m@.len() >= "JSON parse error: "@.len()
                && m@.subrange(0, "JSON parse error: "@.len() as int) == "JSON parse error: "@,
    {
        Self::read(&context)
    }

    fn extensions(&self) -> (r: &[&str])
        ensures
            r@.len() == 1,
            r@[0]@ == "json"@,
    {
        &["json"]
    }
}

/// Text file asset
#[derive(Clone, Debug)]
pub struct TextAsset {
    pub content: String,
    pub path: String,
}

impl Asset for TextAsset {
}

/// Text asset loader
pub struct TextLoader;

impl TextLoader {
    /// The asset of a text file: the characters its bytes encode, or an
    /// `AssetLoadError` exactly when the bytes are not valid UTF-8.
    pub fn read(context: &LoadContext) -> (r: Result<TextAsset>)
        ensures
            r is Ok <==> valid_utf8(context.bytes@),
            r matches Ok(a) ==> a.content@ == decode_utf8(context.bytes@) && a.path@ == context.path@,
            r matches Err(e) ==> e matches EcsError::AssetLoadError(m) && m@.len() >= "UTF-8 decode error: "@.len()
                && m@.subrange(0, "UTF-8 decode error: "@.len() as int) == "UTF-8 decode error: "@,
    {
        match string_from_utf8(vstd::slice::slice_to_vec(context.bytes)) {
            Ok(content) => Ok(TextAsset { content, path: path_text(context.path) }),
            Err(e) => {
                let detail = utf8_error_text(&e);
                let m = String::from_str("UTF-8 decode error: ").concat(detail.as_str());
                assert(m@.subrange(0, "UTF-8 decode error: "@.len() as int) =~= "UTF-8 decode error: "@);
                Err(EcsError::AssetLoadError(m))
            },
        }
    }
}

impl AssetLoader for TextLoader {
    type Asset = TextAsset;

    type Settings = ();

    fn load(&self, context: LoadContext, _settings: &Self::Settings) -> (r: Result<Self::Asset>)
        ensures
            r is Ok <==> valid_utf8(context.bytes@),
            r matches Ok(a) ==> a.content@ == decode_utf8(context.bytes@) && a.path@ == context.path@,
            r matches Err(e) ==> e matches EcsError::AssetLoadError(m) && m@.len() >= "UTF-8 decode error: "@.len()
                && m@.subrange(0, "UTF-8 decode error: "@.len() as int) == "UTF-8 decode error: "@,
    {
        Self::read(&context)
    }

    fn extensions(&self) -> (r: &[&str])
        ensures
            r@.len() == 5,
            r@[0]@ == "txt"@,
            r@[1]@ == "md"@,
            r@[2]@ == "toml"@,
            r@[3]@ == "yaml"@,
            r@[4]@ == "yml"@,
    {
        &["txt", "md", "toml", "yaml", "yml"]
    }
}

} // verus!
