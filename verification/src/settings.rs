//! Application settings and the parameter records of the front end's requests.
use vstd::prelude::*;

verus! {

/// The user's settings.
#[derive(Debug, Clone)]
pub struct AppSettings {
    pub save_path: String,
    pub nyaa_base_url: String,
    pub max_download_speed: i64,
    pub max_upload_speed: i64,
    pub max_connections: i32,
    pub max_active_downloads: i32,
    pub start_on_launch: bool,
}

/// A request to start downloading a magnet link into a folder.
#[derive(Debug, Clone)]
pub struct AddDownloadParams {
    pub magnet: String,
    pub save_path: String,
}

/// A request naming one download by its key.
#[derive(Debug, Clone)]
pub struct DownloadActionParams {
    pub hash: String,
}

/// A request to remove a download, and possibly its files.
#[derive(Debug, Clone)]
pub struct RemoveDownloadParams {
    pub hash: String,
    pub delete_files: bool,
}

/// The view of an optional string.
pub open spec fn opt_str_view(o: Option<String>) -> Option<Seq<char>> {
    match o {
        Some(s) => Some(s@),
        None => None,
    }
}

/// Calls `dirs::download_dir` and converts the folder to text. Nothing is claimed of
/// the result: it depends on the machine and the user's environment.
#[verifier::external_body]
fn download_dir() -> (r: Option<String>) {
    dirs::download_dir().map(|p| p.to_string_lossy().into_owned())
}

/// `part` is a single plain relative path component on every platform: not empty, not
/// `.` or `..`, and free of the separators `/` and `\\` and of the drive marker `:`.
pub open spec fn plain_component(part: Seq<char>) -> bool {
    &&& part.len() > 0
    &&& part != "."@
    &&& part != ".."@
    &&& !part.contains('/')
    &&& !part.contains('\\')
    &&& !part.contains(':')
}

/// `s` ends with `t`.
pub open spec fn ends_with(s: Seq<char>, t: Seq<char>) -> bool {
    t.len() <= s.len() && s.subrange(s.len() - t.len(), s.len() as int) == t
}

/// `s` starts with `t`.
pub open spec fn starts_with(s: Seq<char>, t: Seq<char>) -> bool {
    t.len() <= s.len() && s.subrange(0, t.len() as int) == t
}

/// `base` is a Windows verbatim path (`\\?\...`), which `PathBuf::push` rebuilds from
/// its components instead of extending it as written.
pub open spec fn verbatim_path(base: Seq<char>) -> bool {
    starts_with(base, seq!['\\', '\\', '?', '\\'])
}

/// Calls `std::path::Path::join` and converts the result to text (no text is lost: both
/// arguments are text). Claimed, as the documentation of `Path::join` and `PathBuf::push`
/// gives it: joining a single plain relative component appends it (after a separator
/// where one is needed), so the result ends with it; and, unless `base` is a Windows
/// verbatim path (which `push` normalizes), the result is `base` extended, so it starts
/// with `base` and is at least as long as both together. Which separator is put between
/// them depends on the platform and is not claimed.
#[verifier::external_body]
fn path_join(base: &str, part: &str) -> (r: String)
    ensures
        plain_component(part@) ==> ends_with(r@, part@),
        plain_component(part@) && !verbatim_path(base@) ==> starts_with(r@, base@) && r@.len()
            >= base@.len() + part@.len(),
{
    std::path::Path::new(base).join(part).to_string_lossy().into_owned()
}

/// The folder that downloads go to by default, given the user's download folder (if
/// there is one): the `nyaland` folder inside it, or inside `.` when there is none.
pub open spec fn default_folder_base(download_dir: Option<String>) -> Seq<char> {
    match download_dir {
        Some(d) => d@,
        None => "."@,
    }
}

/// The default settings, with downloads saved into `save_path`.
pub open spec fn settings_with(save_path: Seq<char>, s: AppSettings) -> bool {
    &&& s.save_path@ == save_path
    &&& s.nyaa_base_url@ == "https://nyaa.si"@
    &&& s.max_download_speed == 0
    &&& s.max_upload_speed == 0
    &&& s.max_connections == 200
    &&& s.max_active_downloads == 5
    &&& s.start_on_launch
}

impl AppSettings {
    /// The default settings, with downloads saved into `save_path`.
    pub fn with_save_path(save_path: String) -> (s: Self)
        ensures
            settings_with(save_path@, s),
    {
        AppSettings {
            save_path,
            nyaa_base_url: String::from_str("https://nyaa.si"),
            max_download_speed: 0,
            max_upload_speed: 0,
            max_connections: 200,
            max_active_downloads: 5,
            start_on_launch: true,
        }
    }
}

impl AppSettings {
    /// The default settings for a user whose download folder is `download_dir` (`None`
    /// when there is none): downloads go to a `nyaland` folder joined to that folder, or
    /// to `.` when there is none.
    pub fn settings_in(download_dir: Option<String>) -> (s: Self)
        ensures
            ({
                let base = default_folder_base(download_dir);
                &&& ends_with(s.save_path@, "nyaland"@)
                &&& !verbatim_path(base) ==> starts_with(s.save_path@, base)
                    && s.save_path@.len() >= base.len() + 7
            }),
            s.nyaa_base_url@ == "https://nyaa.si"@,
            s.max_download_speed == 0,
            s.max_upload_speed == 0,
            s.max_connections == 200,
            s.max_active_downloads == 5,
            s.start_on_launch,
    {
        let base = match download_dir {
            Some(d) => d,
            None => String::from_str("."),
        };
        proof {
            reveal_strlit("nyaland");
            reveal_strlit(".");
            reveal_strlit("..");
            assert(plain_component("nyaland"@));
        }
        let folder = path_join(base.as_str(), "nyaland");
        AppSettings::with_save_path(folder)
    }
}

impl Default for AppSettings {
    /// The default settings: downloads go to a `nyaland` folder in the user's download
    /// folder (or in the working folder when there is none); see `settings_in`.
    fn default() -> (s: Self)
        ensures
            ends_with(s.save_path@, "nyaland"@),
            s.nyaa_base_url@ == "https://nyaa.si"@,
            s.max_download_speed == 0,
            s.max_upload_speed == 0,
            s.max_connections == 200,
            s.max_active_downloads == 5,
            s.start_on_launch,
    {
        AppSettings::settings_in(download_dir())
    }
}

} // verus!
