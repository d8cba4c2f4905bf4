use nyaland::media::extension_of_file_name;
use nyaland::media::{file_path_to_content_uri, get_mime_type, is_media_extension, media_listing};

#[test]
fn mime_types() {
    assert_eq!(get_mime_type("/x/show.mkv"), "video/x-matroska");
    assert_eq!(get_mime_type("a.b.mp4"), "video/mp4");
    assert_eq!(get_mime_type("clip.rmvb"), "application/vnd.rn-realmedia-vbr");
    assert_eq!(get_mime_type("song.flac"), "audio/flac");
    assert_eq!(get_mime_type("song.ogg"), "audio/ogg");
    assert_eq!(get_mime_type("a.MKV"), "*/*");
    assert_eq!(get_mime_type("noext"), "*/*");
    assert_eq!(get_mime_type("mkv"), "video/x-matroska");
    assert_eq!(get_mime_type("trailing."), "*/*");
}

#[test]
fn content_uris() {
    assert_eq!(
        file_path_to_content_uri("/storage/emulated/0/Download/Nyaland/a.mkv"),
        "content://com.nyaland.desktop.fileprovider/external_files/Download/Nyaland/a.mkv"
    );
    assert_eq!(
        file_path_to_content_uri("/storage/emulated/0///x.mp4"),
        "content://com.nyaland.desktop.fileprovider/external_files/x.mp4"
    );
    assert_eq!(file_path_to_content_uri("/data/x.mp4"), "file:///data/x.mp4");
    assert_eq!(file_path_to_content_uri("/storage/emulated/0"), "file:///storage/emulated/0");
}

#[test]
fn media_extensions_ignore_ascii_case() {
    assert!(is_media_extension("mkv"));
    assert!(is_media_extension("MKV"));
    assert!(is_media_extension("Ts"));
    assert!(is_media_extension("rmvb"));
    assert!(!is_media_extension("mp3"));
    assert!(!is_media_extension("mkvv"));
    assert!(!is_media_extension(""));
}

#[test]
fn listing_is_filtered_and_sorted() {
    let entries = vec![
        ("/d/b.mkv".to_string(), Some("mkv".to_string())),
        ("/d/notes.txt".to_string(), Some("txt".to_string())),
        ("/d/a.MP4".to_string(), Some("MP4".to_string())),
        ("/d/README".to_string(), None),
        ("/d/C.avi".to_string(), Some("avi".to_string())),
    ];
    assert_eq!(
        media_listing(entries),
        vec!["/d/C.avi".to_string(), "/d/a.MP4".to_string(), "/d/b.mkv".to_string()]
    );
}

#[test]
fn empty_listing() {
    assert!(media_listing(Vec::new()).is_empty());
}

#[test]
fn file_name_extensions() {
    assert_eq!(extension_of_file_name("show.mkv"), Some("mkv".to_string()));
    assert_eq!(extension_of_file_name("a.b.MP4"), Some("MP4".to_string()));
    assert_eq!(extension_of_file_name("trailing."), Some(String::new()));
    assert_eq!(extension_of_file_name("README"), None);
    assert_eq!(extension_of_file_name(".hidden"), None);
    assert_eq!(extension_of_file_name(".."), None);
    assert_eq!(extension_of_file_name("..."), Some(String::new()));
}
