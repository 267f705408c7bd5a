//! The headers of a file of the web application.

use crate::text::{chars_of, contains, has_infix_str, same_text, string_of};
use vstd::prelude::*;

verus! {

/// Which file of the web application a request is for.
#[derive(Debug)]
pub struct AssetPathParam {
    pub path: Vec<String>,
}

/// The media type that `mime_guess` lists first for a file extension, or
/// `application/octet-stream` where it lists none. The list is that of the
/// version of `mime_guess` that the library is built with: another version
/// may list other types.
pub uninterp spec fn guessed_media_type(extension: Seq<char>) -> Seq<char>;

/// Calls `mime_guess::from_ext` and takes its first guess, or
/// `application/octet-stream` where there is none. The result is only
/// named: it is looked up in the table of `mime_guess`, without regard to
/// upper and lower case.
#[verifier::external_body]
fn media_type_of(extension: &str) -> (media_type: String)
    ensures
        media_type@ == guessed_media_type(extension@),
{
    mime_guess::from_ext(extension).first_or_octet_stream().to_string()
}

/// The index after the last `/` among the first `upto` characters of
/// `path`, or 0.
pub open spec fn name_start(path: Seq<char>, upto: int) -> int
    decreases upto,
{
    if upto <= 0 || upto > path.len() {
        0
    } else if path[upto - 1] == '/' {
        upto
    } else {
        name_start(path, upto - 1)
    }
}

/// Where the last part of a path ends among its first `upto` characters:
/// a `/` at the end does not count, nor does a part after a `/` that is a
/// single `.`.
pub open spec fn path_end(path: Seq<char>, upto: int) -> int
    decreases upto,
{
    if upto <= 0 || upto > path.len() {
        0
    } else if path[upto - 1] == '/' {
        path_end(path, upto - 1)
    } else if upto >= 2 && path[upto - 1] == '.' && path[upto - 2] == '/' {
        path_end(path, upto - 1)
    } else {
        upto
    }
}

/// The name of the file that a path leads to: its last part. The parts of
/// a path are set apart by `/`, as in the address of a page.
pub open spec fn file_name(path: Seq<char>) -> Seq<char> {
    let end = path_end(path, path.len() as int);
    path.subrange(name_start(path, end), end)
}

/// The index of the last `.` among the first `upto` characters of `name`,
/// or -1.
pub open spec fn last_dot(name: Seq<char>, upto: int) -> int
    decreases upto,
{
    if upto <= 0 || upto > name.len() {
        -1
    } else if name[upto - 1] == '.' {
        upto - 1
    } else {
        last_dot(name, upto - 1)
    }
}

/// The extension of a file name: what follows its last `.`, unless the
/// name holds none, holds one only as its first character, or is `..`.
pub open spec fn extension_of_name(name: Seq<char>) -> Option<Seq<char>> {
    let dot = last_dot(name, name.len() as int);
    if dot <= 0 || name == ".."@ {
        None
    } else {
        Some(name.skip(dot + 1))
    }
}

/// The extension of the file that a path leads to.
pub open spec fn path_extension(path: Seq<char>) -> Option<Seq<char>> {
    extension_of_name(file_name(path))
}

/// The extension of the file that a path leads to.
pub fn extension_of(path: &str) -> (ext: Option<String>)
    ensures
        match ext {
            Some(e) => path_extension(path@) == Some(e@),
            None => path_extension(path@) is None,
        },
{
    let chars = chars_of(path);
    let n = chars.len();
    let mut end: usize = n;
    while end > 0 && (chars[end - 1] == '/' || (end >= 2 && chars[end - 1] == '.' && chars[end - 2]
        == '/'))
        invariant
            end <= n,
            n == chars@.len(),
            path_end(chars@, end as int) == path_end(chars@, n as int),
        decreases end,
    {
        end -= 1;
    }
    let mut start: usize = end;
    while start > 0 && chars[start - 1] != '/'
        invariant
            start <= end <= n,
            n == chars@.len(),
            name_start(chars@, start as int) == name_start(chars@, end as int),
        decreases start,
    {
        start -= 1;
    }
    let name = &chars[start..end];
    assert(name@ =~= file_name(path@));
    let m = name.len();
    let mut dot: usize = m;
    while dot > 0 && name[dot - 1] != '.'
        invariant
            dot <= m,
            m == name@.len(),
            last_dot(name@, dot as int) == last_dot(name@, m as int),
        decreases dot,
    {
        dot -= 1;
    }
    // the last `.` stands at `dot - 1`, if there is one
    if dot <= 1 {
        return None;
    }
    if m == 2 && name[0] == '.' && name[1] == '.' {
        proof {
            reveal_strlit("..");
            assert(name@ =~= ".."@);
        }
        return None;
    }
    proof {
        reveal_strlit("..");
        if name@ == ".."@ {
            assert(name@.len() == 2 && name@[0] == '.' && name@[1] == '.');
        }
    }
    let ext = &name[dot..m];
    assert(ext@ =~= name@.skip(dot as int));
    Some(string_of(ext))
}

/// Whether a file with this extension is a script, a style sheet or a font.
pub open spec fn is_code_or_font(ext: Seq<char>) -> bool {
    ext == "js"@ || ext == "css"@ || ext == "woff"@ || ext == "woff2"@ || ext == "ttf"@ || ext
        == "eot"@
}

/// Whether a file with this extension is an image.
pub open spec fn is_image(ext: Seq<char>) -> bool {
    ext == "png"@ || ext == "jpg"@ || ext == "jpeg"@ || ext == "gif"@ || ext == "svg"@ || ext
        == "ico"@ || ext == "webp"@
}

/// How long a file may be kept by the one who fetched it, given its path
/// and the extension of the path.
///
/// Scripts, style sheets and fonts under `_app/` or with `immutable` in
/// their path never change and are kept for a year, others for an hour;
/// images for a day; pages, and paths without an extension, for five
/// minutes; anything else is not kept.
pub open spec fn cache_control_for(ext: Option<Seq<char>>, path: Seq<char>) -> Seq<char> {
    match ext {
        None => "public, max-age=300"@,
        Some(e) => if is_code_or_font(e) {
            if contains(path, "immutable"@) || contains(path, "_app/"@) {
                "public, max-age=31536000, immutable"@
            } else {
                "public, max-age=3600"@
            }
        } else if is_image(e) {
            "public, max-age=86400"@
        } else if e == "html"@ {
            "public, max-age=300"@
        } else {
            "no-cache"@
        },
    }
}

/// How long a file may be kept, given its path and the extension of the
/// path.
pub fn cache_control_with(extension: Option<&str>, file_path: &str) -> (policy: &'static str)
    ensures
        policy@ == cache_control_for(
            match extension {
                Some(e) => Some(e@),
                None => None,
            },
            file_path@,
        ),
{
    match extension {
        None => "public, max-age=300",
        Some(e) => {
            if same_text(e, "js") || same_text(e, "css") || same_text(e, "woff") || same_text(
                e,
                "woff2",
            ) || same_text(e, "ttf") || same_text(e, "eot") {
                let path = chars_of(file_path);
                if has_infix_str(path.as_slice(), "immutable") || has_infix_str(
                    path.as_slice(),
                    "_app/",
                ) {
                    "public, max-age=31536000, immutable"
                } else {
                    "public, max-age=3600"
                }
            } else if same_text(e, "png") || same_text(e, "jpg") || same_text(e, "jpeg")
                || same_text(e, "gif") || same_text(e, "svg") || same_text(e, "ico") || same_text(
                e,
                "webp",
            ) {
                "public, max-age=86400"
            } else if same_text(e, "html") {
                "public, max-age=300"
            } else {
                "no-cache"
            }
        },
    }
}

/// How long the file at `file_path` may be kept by the one who fetched it.
pub fn get_cache_control(file_path: &str) -> (policy: &'static str)
    ensures
        policy@ == cache_control_for(path_extension(file_path@), file_path@),
{
    match extension_of(file_path) {
        Some(e) => cache_control_with(Some(e.as_str()), file_path),
        None => cache_control_with(None, file_path),
    }
}

/// The headers of a file of the web application.
#[derive(Debug)]
pub struct StaticHeaders {
    pub content_type: String,
    pub cache_control: &'static str,
}

/// The media type of a file with the given extension, and of a file
/// without one.
pub open spec fn media_type_for(extension: Option<Seq<char>>) -> Seq<char> {
    match extension {
        Some(e) => guessed_media_type(e),
        None => "application/octet-stream"@,
    }
}

/// The headers with which the file at `path` is served: its media type by
/// its extension, and how long it may be kept.
pub fn static_headers(path: &str) -> (headers: StaticHeaders)
    ensures
        headers.content_type@ == media_type_for(path_extension(path@)),
        headers.cache_control@ == cache_control_for(path_extension(path@), path@),
{
    let content_type = match extension_of(path) {
        Some(e) => media_type_of(e.as_str()),
        None => "application/octet-stream".to_owned(),
    };
    StaticHeaders { content_type, cache_control: get_cache_control(path) }
}

/// The path of a file under `_app/`, given the parts of the path after it.
pub open spec fn app_asset_path(segments: Seq<Seq<char>>) -> Seq<char> {
    "_app/"@ + crate::text::joined_with(segments, "/"@)
}

/// The path of a file under `_app/`, given the parts of the path after it.
pub fn asset_path(segments: &[String]) -> (path: String)
    ensures
        path@ == app_asset_path(crate::text::string_views(segments@)),
{
    let parts = crate::text::char_vecs_of(segments);
    let tail = crate::text::join_with(&parts, "/");
    let mut buf: Vec<char> = Vec::new();
    crate::text::push_str(&mut buf, "_app/");
    crate::text::push_all(&mut buf, tail.as_slice());
    assert(buf@ =~= app_asset_path(crate::text::string_views(segments@)));
    crate::text::string_of(buf.as_slice())
}

/// What the service says of how it runs: with the web application built in
/// if its first page is, and as a bare interface if not.
pub fn runtime_name(has_index: bool) -> (name: &'static str)
    ensures
        name@ == if has_index {
            "embedded-frontend"@
        } else {
            "api-only"@
        },
{
    if has_index {
        "embedded-frontend"
    } else {
        "api-only"
    }
}

} // verus!
