//! Media files: which extensions count as playable, the MIME type announced for a file,
//! the URI under which Android's file provider serves it, and the sorted listing of the
//! media files of a folder.
use vstd::prelude::*;
use crate::order::{sort_strings, sorted_strings};
use crate::text::{
    chars_of, eq_ignore_ascii_case, eq_ignore_ascii_case_exec, has_prefix, has_prefix_exec,
    last_index_of, last_index_of_exec, lemma_last_index_of, str_equal, string_of_range,
};
use crate::magnet::subvec;

verus! {

/// The extensions of the video files that are listed.
pub open spec fn media_extensions() -> Seq<&'static str> {
    seq!["mkv", "mp4", "avi", "webm", "mov", "flv", "wmv", "m4v", "ts", "rmvb"]
}

/// `ext` is one of the media extensions, ignoring ASCII case.
pub open spec fn is_media_extension_spec(ext: Seq<char>) -> bool {
    exists|i: int|
        0 <= i < media_extensions().len() && eq_ignore_ascii_case(
            ext,
            #[trigger] media_extensions()[i]@,
        )
}

/// The video extensions that are listed, in any ASCII case: Matroska, MPEG-4, AVI, WebM,
/// QuickTime, Flash video, Windows Media video, iTunes video, MPEG transport stream and
/// RealMedia (variable bit rate); nothing else.
pub open spec fn listed_video_extension(ext: Seq<char>) -> bool {
    ||| eq_ignore_ascii_case(ext, "mkv"@)
    ||| eq_ignore_ascii_case(ext, "mp4"@)
    ||| eq_ignore_ascii_case(ext, "avi"@)
    ||| eq_ignore_ascii_case(ext, "webm"@)
    ||| eq_ignore_ascii_case(ext, "mov"@)
    ||| eq_ignore_ascii_case(ext, "flv"@)
    ||| eq_ignore_ascii_case(ext, "wmv"@)
    ||| eq_ignore_ascii_case(ext, "m4v"@)
    ||| eq_ignore_ascii_case(ext, "ts"@)
    ||| eq_ignore_ascii_case(ext, "rmvb"@)
}

/// An extension is a media extension exactly when it names one of the listed video
/// formats, ignoring ASCII case.
pub proof fn law_media_extensions(ext: Seq<char>)
    ensures
        is_media_extension_spec(ext) <==> listed_video_extension(ext),
{
    let l = media_extensions();
    assert(l[0] == "mkv");
    assert(l[1] == "mp4");
    assert(l[2] == "avi");
    assert(l[3] == "webm");
    assert(l[4] == "mov");
    assert(l[5] == "flv");
    assert(l[6] == "wmv");
    assert(l[7] == "m4v");
    assert(l[8] == "ts");
    assert(l[9] == "rmvb");
    if listed_video_extension(ext) {
        if eq_ignore_ascii_case(ext, "mkv"@) {
            assert(eq_ignore_ascii_case(ext, l[0]@));
        } else if eq_ignore_ascii_case(ext, "mp4"@) {
            assert(eq_ignore_ascii_case(ext, l[1]@));
        } else if eq_ignore_ascii_case(ext, "avi"@) {
            assert(eq_ignore_ascii_case(ext, l[2]@));
        } else if eq_ignore_ascii_case(ext, "webm"@) {
            assert(eq_ignore_ascii_case(ext, l[3]@));
        } else if eq_ignore_ascii_case(ext, "mov"@) {
            assert(eq_ignore_ascii_case(ext, l[4]@));
        } else if eq_ignore_ascii_case(ext, "flv"@) {
            assert(eq_ignore_ascii_case(ext, l[5]@));
        } else if eq_ignore_ascii_case(ext, "wmv"@) {
            assert(eq_ignore_ascii_case(ext, l[6]@));
        } else if eq_ignore_ascii_case(ext, "m4v"@) {
            assert(eq_ignore_ascii_case(ext, l[7]@));
        } else if eq_ignore_ascii_case(ext, "ts"@) {
            assert(eq_ignore_ascii_case(ext, l[8]@));
        } else {
            assert(eq_ignore_ascii_case(ext, l[9]@));
        }
    }
    if is_media_extension_spec(ext) {
        let i = choose|i: int| 0 <= i < l.len() && eq_ignore_ascii_case(ext, #[trigger] l[i]@);
        assert(0 <= i < 10);
    }
}

/// The text after the last `.` of a path (all of it when there is none).
pub open spec fn last_dot_field(p: Seq<char>) -> Seq<char> {
    match last_index_of(p, '.') {
        Some(j) => p.subrange(j + 1, p.len() as int),
        None => p,
    }
}

/// The extension of a file name, as `Path::extension` reads it: the text after the last
/// `.`, unless the name has no `.`, its only `.` leads it, or it is `..`.
pub open spec fn file_extension(name: Seq<char>) -> Option<Seq<char>> {
    if name == ".."@ {
        None
    } else {
        match last_index_of(name, '.') {
            Some(j) => if j == 0 {
                None
            } else {
                Some(name.subrange(j + 1, name.len() as int))
            },
            None => None,
        }
    }
}

/// The MIME type announced for a file with extension `ext`.
pub open spec fn mime_for(ext: Seq<char>) -> Seq<char> {
    if ext == "mkv"@ {
        "video/x-matroska"@
    } else if ext == "mp4"@ {
        "video/mp4"@
    } else if ext == "avi"@ {
        "video/x-msvideo"@
    } else if ext == "webm"@ {
        "video/webm"@
    } else if ext == "mov"@ {
        "video/quicktime"@
    } else if ext == "flv"@ {
        "video/x-flv"@
    } else if ext == "wmv"@ {
        "video/x-ms-wmv"@
    } else if ext == "m4v"@ {
        "video/x-m4v"@
    } else if ext == "ts"@ {
        "video/mp2t"@
    } else if ext == "rmvb"@ {
        "application/vnd.rn-realmedia-vbr"@
    } else if ext == "mp3"@ {
        "audio/mpeg"@
    } else if ext == "flac"@ {
        "audio/flac"@
    } else if ext == "wav"@ {
        "audio/wav"@
    } else if ext == "ogg"@ {
        "audio/ogg"@
    } else {
        "*/*"@
    }
}

/// `s` without its leading `c`s.
pub open spec fn trim_leading(s: Seq<char>, c: char) -> Seq<char>
    decreases s.len(),
{
    if s.len() > 0 && s[0] == c {
        trim_leading(s.drop_first(), c)
    } else {
        s
    }
}

/// The shared-storage root that the file provider serves.
pub open spec fn storage_root() -> Seq<char> {
    "/storage/emulated/0/"@
}

/// The prefix of the file provider's URIs.
pub open spec fn provider_prefix() -> Seq<char> {
    "content://com.nyaland.desktop.fileprovider/external_files/"@
}

/// The URI under which a file is handed to another app: a file-provider URI for a file
/// in shared storage, a `file://` URI for any other.
pub open spec fn content_uri(p: Seq<char>) -> Seq<char> {
    if has_prefix(p, storage_root()) {
        provider_prefix() + trim_leading(p.subrange(storage_root().len() as int, p.len() as int), '/')
    } else {
        "file://"@ + p
    }
}

/// The paths of the entries whose extension is a media extension, in order.
pub open spec fn media_paths(entries: Seq<(String, Option<String>)>) -> Seq<String>
    decreases entries.len(),
{
    if entries.len() == 0 {
        seq![]
    } else {
        let e = entries.last();
        let rest = media_paths(entries.drop_last());
        match e.1 {
            Some(ext) => if is_media_extension_spec(ext@) {
                rest.push(e.0)
            } else {
                rest
            },
            None => rest,
        }
    }
}

/// Whether `ext` is one of the media extensions, ignoring ASCII case.
pub fn is_media_extension(ext: &str) -> (r: bool)
    ensures
        r == is_media_extension_spec(ext@),
        r == listed_video_extension(ext@),
{
    proof {
        law_media_extensions(ext@);
    }
    let exts = vec!["mkv", "mp4", "avi", "webm", "mov", "flv", "wmv", "m4v", "ts", "rmvb"];
    assert(exts@ =~= media_extensions());
    let mut i: usize = 0;
    while i < exts.len()
        invariant
            exts@ == media_extensions(),
            i <= exts@.len(),
            forall|k: int| 0 <= k < i ==> !eq_ignore_ascii_case(ext@, #[trigger] exts@[k]@),
        decreases exts.len() - i,
    {
        if eq_ignore_ascii_case_exec(ext, exts[i]) {
            assert(eq_ignore_ascii_case(ext@, media_extensions()[i as int]@));
            return true;
        }
        i = i + 1;
    }
    false
}

/// The text after the last `.` of `path`.
pub fn last_dot_field_exec(path: &str) -> (r: String)
    ensures
        r@ == last_dot_field(path@),
{
    let cs = chars_of(path);
    let n = cs.len();
    match last_index_of_exec(&cs, '.') {
        Some(j) => {
            proof {
                lemma_last_index_of(cs@, '.');
            }
            string_of_range(&cs, j + 1, n)
        },
        None => {
            let r = string_of_range(&cs, 0, n);
            assert(cs@.subrange(0, n as int) =~= cs@);
            r
        },
    }
}

/// The extension of the file name `name` (see `file_extension`).
pub fn extension_of_file_name(name: &str) -> (r: Option<String>)
    ensures
        match file_extension(name@) {
            Some(e) => r matches Some(x) && x@ == e,
            None => r is None,
        },
{
    let cs = chars_of(name);
    if str_equal(name, "..") {
        return None;
    }
    let n = cs.len();
    match last_index_of_exec(&cs, '.') {
        Some(j) => {
            proof {
                lemma_last_index_of(cs@, '.');
            }
            if j == 0 {
                None
            } else {
                Some(string_of_range(&cs, j + 1, n))
            }
        },
        None => None,
    }
}

/// The MIME type announced for the file at `path`, judged by the text after its last `.`.
pub fn get_mime_type(path: &str) -> (r: String)
    ensures
        r@ == mime_for(last_dot_field(path@)),
{
    let ext = last_dot_field_exec(path);
    let e = ext.as_str();
    let m = if str_equal(e, "mkv") {
        "video/x-matroska"
    } else if str_equal(e, "mp4") {
        "video/mp4"
    } else if str_equal(e, "avi") {
        "video/x-msvideo"
    } else if str_equal(e, "webm") {
        "video/webm"
    } else if str_equal(e, "mov") {
        "video/quicktime"
    } else if str_equal(e, "flv") {
        "video/x-flv"
    } else if str_equal(e, "wmv") {
        "video/x-ms-wmv"
    } else if str_equal(e, "m4v") {
        "video/x-m4v"
    } else if str_equal(e, "ts") {
        "video/mp2t"
    } else if str_equal(e, "rmvb") {
        "application/vnd.rn-realmedia-vbr"
    } else if str_equal(e, "mp3") {
        "audio/mpeg"
    } else if str_equal(e, "flac") {
        "audio/flac"
    } else if str_equal(e, "wav") {
        "audio/wav"
    } else if str_equal(e, "ogg") {
        "audio/ogg"
    } else {
        "*/*"
    };
    String::from_str(m)
}

/// `s` without its leading `c`s.
fn trim_leading_exec(s: &Vec<char>, c: char) -> (r: Vec<char>)
    ensures
        r@ == trim_leading(s@, c),
{
    let mut i: usize = 0;
    assert(s@.subrange(0, s@.len() as int) =~= s@);
    while i < s.len() && s[i] == c
        invariant
            i <= s@.len(),
            trim_leading(s@, c) == trim_leading(s@.subrange(i as int, s@.len() as int), c),
        decreases s.len() - i,
    {
        assert(s@.subrange(i as int, s@.len() as int).drop_first() =~= s@.subrange(
            i + 1,
            s@.len() as int,
        ));
        i = i + 1;
    }
    let n = s.len();
    subvec(s, i, n)
}

/// The URI under which the file at `file_path` is handed to another app.
pub fn file_path_to_content_uri(file_path: &str) -> (r: String)
    ensures
        r@ == content_uri(file_path@),
{
    let cs = chars_of(file_path);
    let root = chars_of("/storage/emulated/0/");
    if has_prefix_exec(&cs, &root) {
        let n = cs.len();
        let rest = subvec(&cs, root.len(), n);
        let trimmed = trim_leading_exec(&rest, '/');
        let tail = string_of_range(&trimmed, 0, trimmed.len());
        assert(trimmed@.subrange(0, trimmed@.len() as int) =~= trimmed@);
        let mut out = String::from_str("content://com.nyaland.desktop.fileprovider/external_files/");
        out.append(tail.as_str());
        out
    } else {
        let mut out = String::from_str("file://");
        out.append(file_path);
        out
    }
}

/// The paths of the media files among `entries` (each a path and its extension, if it
/// has one that is text), sorted.
pub fn media_listing(entries: Vec<(String, Option<String>)>) -> (r: Vec<String>)
    ensures
        sorted_strings(r@),
        r@.to_multiset() == media_paths(entries@).to_multiset(),
{
    let mut picked: Vec<String> = Vec::new();
    let mut i: usize = 0;
    while i < entries.len()
        invariant
            i <= entries@.len(),
            picked@ == media_paths(entries@.take(i as int)),
        decreases entries.len() - i,
    {
        let e = &entries[i];
        assert(entries@.take(i + 1).drop_last() =~= entries@.take(i as int));
        assert(entries@.take(i + 1).last() == entries@[i as int]);
        match &e.1 {
            Some(ext) => {
                if is_media_extension(ext.as_str()) {
                    picked.push(e.0.clone());
                }
            },
            None => {},
        }
        i = i + 1;
    }
    assert(entries@.take(entries@.len() as int) =~= entries@);
    sort_strings(picked)
}

} // verus!
