use archetype_ecs::assets::loader::{
    AssetLoader, BinaryLoader, JsonLoader, LoadContext, TextLoader,
};
use archetype_ecs::error::EcsError;

#[test]
fn binary_loader_keeps_bytes_and_path() {
    let bytes = [0u8, 159, 146, 150];
    let asset = BinaryLoader
        .load(LoadContext { path: "data/blob.bin", bytes: &bytes }, &())
        .unwrap();
    assert_eq!(asset.data, bytes.to_vec());
    assert_eq!(asset.path, "data/blob.bin");
    assert_eq!(BinaryLoader.extensions(), &["bin", "dat"]);
}

#[test]
fn text_loader_decodes_utf8_or_fails() {
    let asset = TextLoader
        .load(LoadContext { path: "a.txt", bytes: "héllo".as_bytes() }, &())
        .unwrap();
    assert_eq!(asset.content, "héllo");
    let err = TextLoader
        .load(LoadContext { path: "b.txt", bytes: &[0xff, 0xfe] }, &())
        .unwrap_err();
    match err {
        EcsError::AssetLoadError(m) => assert!(m.starts_with("UTF-8 decode error: ")),
        other => panic!("unexpected error {other:?}"),
    }
    assert_eq!(TextLoader.extensions().len(), 5);
}

#[test]
fn json_loader_parses_or_fails() {
    let asset = JsonLoader
        .load(LoadContext { path: "c.json", bytes: br#"{"a": [1, 2]}"# }, &())
        .unwrap();
    assert_eq!(asset.value["a"][1], 2);
    assert_eq!(asset.path, "c.json");
    let copy = asset.clone();
    assert_eq!(copy.value, asset.value);
    let err = JsonLoader
        .load(LoadContext { path: "d.json", bytes: b"{nope" }, &())
        .unwrap_err();
    match err {
        EcsError::AssetLoadError(m) => assert!(m.starts_with("JSON parse error: ")),
        other => panic!("unexpected error {other:?}"),
    }
}
