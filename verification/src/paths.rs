//! File names and command-line arguments: which files a command works on.
use vstd::prelude::*;
use vstd::string::{StrSliceExecFns, StringExecFns};
use std::path::{Path, PathBuf};

verus! {

/// The extension that std's `Path::extension` finds in the path `path`
/// (the part of the file name after its last `.`), if any. Paths follow the
/// rules of the platform the program is built for: on Windows both `/` and
/// `\` separate components, elsewhere only `/`.
pub uninterp spec fn std_path_extension(path: Seq<char>) -> Option<Seq<char>>;

/// Calls std's `Path::extension` and `OsStr::to_string_lossy`. The contract
/// claims that the result is [`std_path_extension`] of the path; a path made
/// from a string is valid UTF-8, so nothing is lost.
#[verifier::external_body]
fn path_extension(path: &str) -> (r: Option<String>)
    ensures
        match r {
            Some(e) => std_path_extension(path@) == Some(e@),
            None => std_path_extension(path@) == None::<Seq<char>>,
        },
{
    Path::new(path).extension().map(|e| e.to_string_lossy().into_owned())
}

/// What std's `str::to_lowercase` makes of `s`.
pub uninterp spec fn std_to_lowercase(s: Seq<char>) -> Seq<char>;

/// The ASCII lowercase of `c`.
pub open spec fn ascii_lower(c: char) -> char {
    if 'A' <= c <= 'Z' {
        ((c as u32) + 32) as char
    } else {
        c
    }
}

/// Calls std's `str::to_lowercase`. The contract claims that the result is
/// [`std_to_lowercase`] of `s` and, as std documents for characters whose
/// lowercase is themselves or a single other character, that an ASCII
/// string is lowered letter by letter.
#[verifier::external_body]
fn to_lowercase(s: &str) -> (r: String)
    ensures
        r@ == std_to_lowercase(s@),
        (forall|i: int| 0 <= i < s@.len() ==> (#[trigger] s@[i] as u32) < 128) ==> r@ == s@.map_values(
            |c: char| ascii_lower(c),
        ),
{
    s.to_lowercase()
}

/// The path that std's `PathBuf::set_extension(ext)` makes of `path`, by the
/// path rules of the platform the program is built for (see
/// [`std_path_extension`]).
pub uninterp spec fn std_path_with_extension(path: Seq<char>, ext: Seq<char>) -> Seq<char>;

/// Whether `ext` holds no character that separates path components on any
/// platform (`/`, or `\` on Windows).
pub open spec fn no_separator(ext: Seq<char>) -> bool {
    forall|i: int| 0 <= i < ext.len() ==> #[trigger] ext[i] != '/' && ext[i] != '\\'
}

/// Calls std's `PathBuf::set_extension`. The contract claims that the
/// result is [`std_path_with_extension`] of the arguments. std panics on an
/// extension that holds a path separator, which `requires` rules out.
#[verifier::external_body]
fn path_with_extension(path: &str, ext: &str) -> (r: String)
    requires
        no_separator(ext@),
    ensures
        r@ == std_path_with_extension(path@, ext@),
{
    let mut p = PathBuf::from(path);
    p.set_extension(ext);
    p.to_string_lossy().into_owned()
}

/// The file stem that std's `Path::file_stem` finds in `path` (the file
/// name without its extension), if any, by the path rules of the platform
/// the program is built for (see [`std_path_extension`]).
pub uninterp spec fn std_path_file_stem(path: Seq<char>) -> Option<Seq<char>>;

/// Calls std's `Path::file_stem` and `OsStr::to_string_lossy`. The contract
/// claims that the result is [`std_path_file_stem`] of the path.
#[verifier::external_body]
fn path_file_stem(path: &str) -> (r: Option<String>)
    ensures
        match r {
            Some(e) => std_path_file_stem(path@) == Some(e@),
            None => std_path_file_stem(path@) == None::<Seq<char>>,
        },
{
    Path::new(path).file_stem().map(|e| e.to_string_lossy().into_owned())
}

/// The lowercased extension of a path, empty when it has none.
pub open spec fn spec_lower_ext(path: Seq<char>) -> Seq<char> {
    match std_path_extension(path) {
        Some(e) => std_to_lowercase(e),
        None => Seq::empty(),
    }
}

/// The extension of `path`, lowercased; empty when the path has none.
pub fn lower_ext(path: &str) -> (r: String)
    ensures
        r@ == spec_lower_ext(path@),
{
    match path_extension(path) {
        Some(e) => to_lowercase(e.as_str()),
        None => String::new(),
    }
}

/// Whether `s` is the text `t`.
fn is_text(s: &String, t: &str) -> (r: bool)
    ensures
        r == (s@ == t@),
{
    let t = String::from_str(t);
    *s == t
}

/// Whether a path names a JPEG file: its extension is `jpg` or `jpeg`, in
/// any case.
pub open spec fn spec_is_jpeg_path(path: Seq<char>) -> bool {
    spec_lower_ext(path) == "jpg"@ || spec_lower_ext(path) == "jpeg"@
}

/// Whether the extension of `path` is `jpg` or `jpeg`, in any case.
pub fn is_jpeg_path(path: &str) -> (r: bool)
    ensures
        r == spec_is_jpeg_path(path@),
{
    let ext = lower_ext(path);
    is_text(&ext, "jpg") || is_text(&ext, "jpeg")
}

/// The path of the GPX file written for the recording at `path`: the same
/// path with the extension `gpx`.
pub fn output_gpx_path(path: &str) -> (r: String)
    ensures
        r@ == std_path_with_extension(path@, "gpx"@),
{
    proof {
        reveal_strlit("gpx");
    }
    path_with_extension(path, "gpx")
}

/// The name given to the track written for the recording at `path`: its
/// file stem, empty when it has none.
pub fn gpx_track_name(path: &str) -> (r: String)
    ensures
        r@ == match std_path_file_stem(path@) {
            Some(s) => s,
            None => Seq::<char>::empty(),
        },
{
    match path_file_stem(path) {
        Some(s) => s,
        None => String::new(),
    }
}

/// Which of two paths is the GPX file and which the MP4 file, when one has
/// the extension `gpx` and the other `mp4`, in any case.
pub open spec fn spec_split_gpx_mp4(a: Seq<char>, b: Seq<char>) -> Option<(Seq<char>, Seq<char>)> {
    if spec_lower_ext(a) == "gpx"@ && spec_lower_ext(b) == "mp4"@ {
        Some((a, b))
    } else if spec_lower_ext(a) == "mp4"@ && spec_lower_ext(b) == "gpx"@ {
        Some((b, a))
    } else {
        None
    }
}

pub open spec fn pair_view(r: Option<(String, String)>) -> Option<(Seq<char>, Seq<char>)> {
    match r {
        Some((x, y)) => Some((x@, y@)),
        None => None,
    }
}

/// The GPX path and the MP4 path of two arguments, in either order; `None`
/// unless one has the extension `gpx` and the other `mp4`.
pub fn split_gpx_mp4_args(a: &str, b: &str) -> (r: Option<(String, String)>)
    ensures
        pair_view(r) == spec_split_gpx_mp4(a@, b@),
{
    let a_ext = lower_ext(a);
    let b_ext = lower_ext(b);
    if is_text(&a_ext, "gpx") && is_text(&b_ext, "mp4") {
        Some((String::from_str(a), String::from_str(b)))
    } else if is_text(&a_ext, "mp4") && is_text(&b_ext, "gpx") {
        Some((String::from_str(b), String::from_str(a)))
    } else {
        None
    }
}

/// Which of two paths is the directory of frames and which the GPX file:
/// one is a directory and the other a file-system entry that is not, with
/// the extension `gpx` in any case.
pub open spec fn spec_split_dir_gpx(a: Seq<char>, a_is_dir: bool, b: Seq<char>, b_is_dir: bool) -> Option<(Seq<char>, Seq<char>)> {
    if a_is_dir && !b_is_dir && spec_lower_ext(b) == "gpx"@ {
        Some((a, b))
    } else if !a_is_dir && spec_lower_ext(a) == "gpx"@ && b_is_dir {
        Some((b, a))
    } else {
        None
    }
}

/// The directory path and the GPX path of two arguments, in either order,
/// given whether each names a directory; `None` unless one is a directory
/// and the other is not and has the extension `gpx`.
pub fn split_dir_gpx_args(a: &str, a_is_dir: bool, b: &str, b_is_dir: bool) -> (r: Option<(String, String)>)
    ensures
        pair_view(r) == spec_split_dir_gpx(a@, a_is_dir, b@, b_is_dir),
{
    let a_ext = lower_ext(a);
    let b_ext = lower_ext(b);
    if a_is_dir && !b_is_dir && is_text(&b_ext, "gpx") {
        Some((String::from_str(a), String::from_str(b)))
    } else if !a_is_dir && is_text(&a_ext, "gpx") && b_is_dir {
        Some((String::from_str(b), String::from_str(a)))
    } else {
        None
    }
}

/// The order of the two arguments does not matter: swapped, they are split
/// into the same GPX path and MP4 path.
pub proof fn law_split_gpx_mp4_symmetric(a: Seq<char>, b: Seq<char>)
    ensures
        spec_split_gpx_mp4(a, b) == spec_split_gpx_mp4(b, a),
{
    reveal_strlit("gpx");
    reveal_strlit("mp4");
    assert("gpx"@[0] != "mp4"@[0]);
}

/// The order of the two arguments does not matter: swapped, they are split
/// into the same directory path and GPX path.
pub proof fn law_split_dir_gpx_symmetric(a: Seq<char>, a_is_dir: bool, b: Seq<char>, b_is_dir: bool)
    ensures
        spec_split_dir_gpx(a, a_is_dir, b, b_is_dir) == spec_split_dir_gpx(b, b_is_dir, a, a_is_dir),
{
}

/// What the command-line arguments ask for.
#[derive(Debug)]
pub enum Command {
    /// Print the usage and stop.
    Help,
    /// An argument that starts with `-` and is no known flag.
    UnknownFlag(String),
    /// Work on these paths, in order.
    Paths(Vec<String>),
}

pub enum CommandView {
    Help,
    UnknownFlag(Seq<char>),
    Paths(Seq<Seq<char>>),
}

impl View for Command {
    type V = CommandView;

    open spec fn view(&self) -> CommandView {
        match self {
            Command::Help => CommandView::Help,
            Command::UnknownFlag(a) => CommandView::UnknownFlag(a@),
            Command::Paths(p) => CommandView::Paths(p@.map_values(|s: String| s@)),
        }
    }
}

pub open spec fn is_help_flag(arg: Seq<char>) -> bool {
    arg == "-h"@ || arg == "--help"@
}

/// Reads the arguments from the first on: the first help flag asks for
/// help, and otherwise the first argument that starts with `-` is an
/// unknown flag; all other arguments are paths.
pub open spec fn spec_parse_args(args: Seq<Seq<char>>, i: nat, paths: Seq<Seq<char>>) -> CommandView
    decreases args.len() - i,
{
    if i >= args.len() {
        CommandView::Paths(paths)
    } else if is_help_flag(args[i as int]) {
        CommandView::Help
    } else if args[i as int].len() > 0 && args[i as int][0] == '-' {
        CommandView::UnknownFlag(args[i as int])
    } else {
        spec_parse_args(args, i + 1, paths.push(args[i as int]))
    }
}

/// Whether the first character of `s` is `-`.
fn starts_with_dash(s: &str) -> (r: bool)
    ensures
        r == (s@.len() > 0 && s@[0] == '-'),
{
    s.unicode_len() > 0 && s.get_char(0) == '-'
}

/// What the command-line arguments (without the program's name) ask for.
pub fn parse_args(args: &Vec<String>) -> (r: Command)
    ensures
        r@ == spec_parse_args(args@.map_values(|s: String| s@), 0, Seq::empty()),
{
    let ghost views = args@.map_values(|s: String| s@);
    let mut paths: Vec<String> = Vec::new();
    let mut i: usize = 0;
    assert(paths@.map_values(|s: String| s@) =~= Seq::<Seq<char>>::empty());
    while i < args.len()
        invariant
            i <= args.len(),
            views == args@.map_values(|s: String| s@),
            spec_parse_args(views, i as nat, paths@.map_values(|s: String| s@))
                == spec_parse_args(views, 0, Seq::empty()),
        decreases args.len() - i,
    {
        let arg = &args[i];
        assert(views[i as int] == arg@);
        if is_text(arg, "-h") || is_text(arg, "--help") {
            return Command::Help;
        }
        if starts_with_dash(arg.as_str()) {
            return Command::UnknownFlag(arg.clone());
        }
        let ghost before = paths@;
        paths.push(arg.clone());
        assert(paths@.map_values(|s: String| s@) =~= before.map_values(|s: String| s@).push(arg@));
        i = i + 1;
    }
    Command::Paths(paths)
}

} // verus!
