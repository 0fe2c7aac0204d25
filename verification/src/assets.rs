//! The front end's static files: which embedded file a request path names,
//! and the content type it is served with.

use vstd::prelude::*;
use include_dir::Dir;
use crate::order::chars_equal;
use crate::text::{chars_of, push_all, string_from_chars, views};

verus! {

/// An embedded directory tree of files.
#[verifier::external_type_specification]
#[verifier::external_body]
pub struct ExDir<'a>(include_dir::Dir<'a>);

/// The contents of the file that `Dir::get_file` finds at `path` in `dir`.
pub uninterp spec fn file_at(dir: Dir<'static>, path: Seq<char>) -> Option<Seq<u8>>;

/// `Dir::get_file`, with the found file's contents taken out: the contents of
/// the file at `path` in `dir`, if there is one. The contract names the
/// result and claims nothing else of it: which entries match a path is
/// decided by the outside crate (it compares paths component by component).
#[verifier::external_body]
fn get_file_contents(dir: &'static Dir<'static>, path: &str) -> (r: Option<&'static [u8]>)
    ensures
        r matches Some(c) ==> file_at(*dir, path@) == Some(c@),
        r is None ==> file_at(*dir, path@) is None,
{
    dir.get_file(path).map(|f| f.contents())
}

/// A file to serve: its bytes and content type.
pub struct StaticFile {
    pub contents: &'static [u8],
    pub content_type: &'static str,
}

/// The parts joined with `/`.
pub open spec fn join_slash(parts: Seq<Seq<char>>) -> Seq<char>
    decreases parts.len(),
{
    if parts.len() == 0 {
        seq![]
    } else if parts.len() == 1 {
        parts[0]
    } else {
        join_slash(parts.drop_last()) + seq!['/'] + parts.last()
    }
}

/// The file a request path names: the comparison app at the root, the same
/// app at `demo`, the benchmark dashboard at `benchmarks`, and any file
/// under `assets/` or `benchmark-data/`, at that path in the build; nothing
/// else.
pub open spec fn asset_path(segments: Seq<Seq<char>>) -> Option<Seq<char>> {
    if segments.len() == 0 {
        Some("index.html"@)
    } else if segments.len() == 1 && segments[0] == "demo"@ {
        Some("demo/index.html"@)
    } else if segments.len() == 1 && segments[0] == "benchmarks"@ {
        Some("benchmarks/index.html"@)
    } else if segments.len() >= 2 && segments[0] == "assets"@ {
        Some("assets/"@ + join_slash(segments.skip(1)))
    } else if segments.len() >= 2 && segments[0] == "benchmark-data"@ {
        Some("benchmark-data/"@ + join_slash(segments.skip(1)))
    } else {
        None
    }
}

/// Whether the segments of a request path name a file of the front end.
pub fn names_asset(segs: &Vec<Vec<char>>) -> (r: bool)
    ensures
        r == asset_path(views(segs@)) is Some,
{
    if segs.len() == 0 {
        return true;
    }
    let first = segs[0].as_slice();
    proof {
        assert(views(segs@)[0] == segs@[0]@);
    }
    if segs.len() == 1 {
        let demo = chars_of("demo");
        let benchmarks = chars_of("benchmarks");
        chars_equal(first, demo.as_slice()) || chars_equal(first, benchmarks.as_slice())
    } else {
        let assets = chars_of("assets");
        let data = chars_of("benchmark-data");
        chars_equal(first, assets.as_slice()) || chars_equal(first, data.as_slice())
    }
}

/// `s` ends with `suffix`.
pub open spec fn ends_with(s: Seq<char>, suffix: Seq<char>) -> bool {
    s.len() >= suffix.len() && s.skip(s.len() - suffix.len()) == suffix
}

/// The content type of a file, by its extension.
pub open spec fn content_type_spec(path: Seq<char>) -> Seq<char> {
    if ends_with(path, ".html"@) {
        "text/html; charset=utf-8"@
    } else if ends_with(path, ".js"@) {
        "application/javascript; charset=utf-8"@
    } else if ends_with(path, ".css"@) {
        "text/css; charset=utf-8"@
    } else if ends_with(path, ".svg"@) {
        "image/svg+xml"@
    } else if ends_with(path, ".png"@) {
        "image/png"@
    } else if ends_with(path, ".ico"@) {
        "image/x-icon"@
    } else if ends_with(path, ".json"@) {
        "application/json; charset=utf-8"@
    } else if ends_with(path, ".woff2"@) {
        "font/woff2"@
    } else {
        "application/octet-stream"@
    }
}

/// Whether `s` ends with `suffix`.
fn ends_with_exec(s: &[char], suffix: &str) -> (r: bool)
    ensures
        r == ends_with(s@, suffix@),
{
    let t = chars_of(suffix);
    if s.len() < t.len() {
        return false;
    }
    let tail = crate::text::slice_chars(s, s.len() - t.len(), s.len());
    proof {
        assert(tail@ =~= s@.skip(s@.len() - t@.len()));
    }
    chars_equal(tail.as_slice(), t.as_slice())
}

/// The content type of a file, by its extension.
pub fn content_type_for_path(path: &str) -> (r: &'static str)
    ensures
        r@ == content_type_spec(path@),
{
    let p = chars_of(path);
    if ends_with_exec(p.as_slice(), ".html") {
        "text/html; charset=utf-8"
    } else if ends_with_exec(p.as_slice(), ".js") {
        "application/javascript; charset=utf-8"
    } else if ends_with_exec(p.as_slice(), ".css") {
        "text/css; charset=utf-8"
    } else if ends_with_exec(p.as_slice(), ".svg") {
        "image/svg+xml"
    } else if ends_with_exec(p.as_slice(), ".png") {
        "image/png"
    } else if ends_with_exec(p.as_slice(), ".ico") {
        "image/x-icon"
    } else if ends_with_exec(p.as_slice(), ".json") {
        "application/json; charset=utf-8"
    } else if ends_with_exec(p.as_slice(), ".woff2") {
        "font/woff2"
    } else {
        "application/octet-stream"
    }
}

/// The characters of each segment.
pub open spec fn segment_views(segments: Seq<&str>) -> Seq<Seq<char>> {
    segments.map_values(|s: &str| s@)
}

/// The segments from position `from` on, joined with `/`.
fn join_segments_from(segments: &[&str], from: usize) -> (r: String)
    requires
        from <= segments@.len(),
    ensures
        r@ == join_slash(segment_views(segments@).skip(from as int)),
{
    let ghost parts = segment_views(segments@).skip(from as int);
    let mut out: Vec<char> = Vec::new();
    let mut i: usize = from;
    proof {
        assert(parts.take(0) =~= Seq::<Seq<char>>::empty());
    }
    while i < segments.len()
        invariant
            from <= i <= segments@.len(),
            parts == segment_views(segments@).skip(from as int),
            out@ == join_slash(parts.take(i - from)),
        decreases segments@.len() - i,
    {
        let ghost prev = out@;
        if i > from {
            out.push('/');
        }
        let c = chars_of(segments[i]);
        push_all(&mut out, c.as_slice());
        proof {
            let k = i - from;
            assert(parts.take(k + 1).drop_last() =~= parts.take(k));
            assert(parts[k] == segments@[i as int]@);
            if k == 0 {
                assert(out@ =~= parts.take(1)[0]);
            } else {
                assert(out@ =~= prev + seq!['/'] + parts[k]);
            }
        }
        i = i + 1;
    }
    proof {
        assert(parts.take(segments@.len() - from) =~= parts);
    }
    string_from_chars(out.as_slice())
}

/// `prefix` followed by the segments after the first, joined with `/`.
fn prefixed_path(prefix: &str, segments: &[&str]) -> (r: String)
    requires
        segments@.len() >= 1,
    ensures
        r@ == prefix@ + join_slash(segment_views(segments@).skip(1)),
{
    let rest = join_segments_from(segments, 1);
    let mut full = chars_of(prefix);
    let tail = chars_of(rest.as_str());
    push_all(&mut full, tail.as_slice());
    string_from_chars(full.as_slice())
}

/// The segments joined with `/`.
pub fn join_segments(segments: &[&str]) -> (r: String)
    ensures
        r@ == join_slash(segment_views(segments@)),
{
    proof {
        assert(segment_views(segments@).skip(0) =~= segment_views(segments@));
    }
    join_segments_from(segments, 0)
}

/// The file of `dir` at `path`, with its content type.
pub fn lookup_path(dir: &'static Dir<'static>, path: &str) -> (r: Option<StaticFile>)
    ensures
        r matches Some(f) ==> file_at(*dir, path@) == Some(f.contents@) && f.content_type@ == content_type_spec(
            path@,
        ),
        r is None ==> file_at(*dir, path@) is None,
{
    match get_file_contents(dir, path) {
        Some(contents) => Some(StaticFile { contents, content_type: content_type_for_path(path) }),
        None => None,
    }
}

/// The file of `dir` that a request path names: the app at the root and at
/// `demo`, the benchmark dashboard at `benchmarks`, and files under
/// `assets/` and `benchmark-data/`.
pub fn lookup(dir: &'static Dir<'static>, segments: &[&str]) -> (r: Option<StaticFile>)
    ensures
        asset_path(segment_views(segments@)) is None ==> r is None,
        asset_path(segment_views(segments@)) matches Some(p) ==> (r matches Some(f) ==> file_at(*dir, p) == Some(
            f.contents@,
        ) && f.content_type@ == content_type_spec(p)) && (r is None ==> file_at(*dir, p) is None),
{
    let ghost segs = segment_views(segments@);
    if segments.len() == 0 {
        return lookup_path(dir, "index.html");
    }
    let first = chars_of(segments[0]);
    let demo = chars_of("demo");
    let benchmarks = chars_of("benchmarks");
    let assets = chars_of("assets");
    let data = chars_of("benchmark-data");
    proof {
        assert(segs[0] == segments@[0]@);
    }
    if segments.len() == 1 && chars_equal(first.as_slice(), demo.as_slice()) {
        return lookup_path(dir, "demo/index.html");
    }
    if segments.len() == 1 && chars_equal(first.as_slice(), benchmarks.as_slice()) {
        return lookup_path(dir, "benchmarks/index.html");
    }
    if segments.len() >= 2 && chars_equal(first.as_slice(), assets.as_slice()) {
        let path = prefixed_path("assets/", segments);
        return lookup_path(dir, path.as_str());
    }
    if segments.len() >= 2 && chars_equal(first.as_slice(), data.as_slice()) {
        let path = prefixed_path("benchmark-data/", segments);
        return lookup_path(dir, path.as_str());
    }
    None
}

} // verus!
