use cutlass_captions::caption::group::CaptionFileFormat;

#[test]
fn file_formats_map_from_extensions() {
    assert_eq!(
        CaptionFileFormat::from_extension(".SRT"),
        Some(CaptionFileFormat::Srt)
    );
    assert_eq!(
        CaptionFileFormat::from_extension("vtt"),
        Some(CaptionFileFormat::Vtt)
    );
    assert_eq!(CaptionFileFormat::from_extension("txt"), None);
}
