use ttags::index::TagData;

#[test]
fn pokus() -> Result<(), String> {
    assert_eq!(21, 21);
    Ok(())
}

#[test]
fn empty_index_has_nothing() {
    let data = TagData::new();
    assert!(data.entries().is_empty());
    assert!(data.files().is_empty());
    assert!(data.name_table().is_empty());
}
