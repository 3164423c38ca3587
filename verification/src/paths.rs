//! The default name of the graph file written by an import.

use vstd::prelude::*;
use vstd::string::StrSliceExecFns;
use vstd::string::StringExecFns;

use crate::text::{has_suffix, str_has_suffix};

verus! {

/// What the file name of an import's output is derived from its input's file name: an
/// extract named `NAME.osm.pbf` gives `NAME.myroute`; any other input keeps its name with
/// the extension replaced by `myroute`.
#[derive(Clone, Debug, PartialEq, Eq)]
pub enum GraphPathPlan {
    /// Replace the input's file name with this one.
    ReplaceFileName(String),
    /// Replace (or add) the input's extension.
    SetExtension,
}

/// `name` without its `.osm.pbf` suffix, followed by `.myroute`.
pub open spec fn graph_file_name_of(name: Seq<char>) -> Seq<char> {
    name.subrange(0, name.len() - 8) + seq!['.', 'm', 'y', 'r', 'o', 'u', 't', 'e']
}

/// How the output path is derived from the input's file name, if it has one.
pub fn plan_graph_path(file_name: Option<&str>) -> (r: GraphPathPlan)
    ensures
        match file_name {
            Some(name) => if has_suffix(name@, seq!['.', 'o', 's', 'm', '.', 'p', 'b', 'f']) {
                r matches GraphPathPlan::ReplaceFileName(s) && s@ == graph_file_name_of(name@)
            } else {
                r is SetExtension
            },
            None => r is SetExtension,
        },
{
    let name = match file_name {
        Some(name) => name,
        None => {
            return GraphPathPlan::SetExtension;
        },
    };
    let suffix = ".osm.pbf";
    proof {
        reveal_strlit(".osm.pbf");
        assert(suffix@ =~= seq!['.', 'o', 's', 'm', '.', 'p', 'b', 'f']);
    }
    if !str_has_suffix(name, suffix) {
        return GraphPathPlan::SetExtension;
    }
    let n = name.unicode_len();
    let mut out = String::from_str(name.substring_char(0, n - 8));
    let ext = ".myroute";
    proof {
        reveal_strlit(".myroute");
        assert(ext@ =~= seq!['.', 'm', 'y', 'r', 'o', 'u', 't', 'e']);
    }
    out.append(ext);
    proof {
        assert(out@ =~= graph_file_name_of(name@));
    }
    GraphPathPlan::ReplaceFileName(out)
}

/// A single file name that every platform reads the same way: non-empty, without `/`, `\`
/// or `:`, and neither `.` nor `..`.
pub open spec fn is_plain_name(s: Seq<char>) -> bool {
    &&& s.len() > 0
    &&& forall|i: int| 0 <= i < s.len() ==> s[i] != '/' && s[i] != '\\' && s[i] != ':'
    &&& s != seq!['.']
    &&& s != seq!['.', '.']
}

/// A character that some platform reads as a path separator.
pub open spec fn is_path_separator(c: char) -> bool {
    c == '/' || c == '\\'
}

/// `d` is one or more plain names joined by single `/` characters: a relative directory
/// path that every platform splits the same way.
pub open spec fn is_plain_dirs(d: Seq<char>) -> bool {
    &&& d.len() > 0
    &&& d[0] != '/'
    &&& d[d.len() - 1] != '/'
    &&& forall|i: int| 0 <= i < d.len() ==> d[i] != '\\' && d[i] != ':'
    &&& forall|i: int| 0 <= i < d.len() - 1 && #[trigger] d[i] == '/' ==> d[i + 1] != '/'
    &&& forall|i: int|
        0 <= i < d.len() && (i == 0 || d[i - 1] == '/') && #[trigger] d[i] == '.' ==> {
            &&& i + 1 < d.len() && d[i + 1] != '/'
            &&& d[i + 1] == '.' ==> i + 2 < d.len() && d[i + 2] != '/'
        }
}

/// `path` is a plain directory path, `/` at position `k`, and a plain file name.
pub open spec fn is_dir_and_name(path: Seq<char>, k: int) -> bool {
    &&& 0 < k < path.len()
    &&& path[k] == '/'
    &&& is_plain_dirs(path.subrange(0, k))
    &&& is_plain_name(path.subrange(k + 1, path.len() as int))
}

/// The position of the last `.` among the first `n` characters of `s`, or -1.
pub open spec fn last_dot_before(s: Seq<char>, n: int) -> int
    decreases n,
{
    if n <= 0 {
        -1
    } else if s[n - 1] == '.' {
        n - 1
    } else {
        last_dot_before(s, n - 1)
    }
}

/// The stem of a file name: the part before its last `.`, or the whole name when it has no
/// `.` other than a leading one.
pub open spec fn file_stem_of(name: Seq<char>) -> Seq<char> {
    let j = last_dot_before(name, name.len() as int);
    if j > 0 {
        name.subrange(0, j)
    } else {
        name
    }
}

/// The file name that an import of an input named `name` writes by default.
pub open spec fn default_graph_name(name: Seq<char>) -> Seq<char> {
    if has_suffix(name, seq!['.', 'o', 's', 'm', '.', 'p', 'b', 'f']) {
        graph_file_name_of(name)
    } else {
        file_stem_of(name) + seq!['.', 'm', 'y', 'r', 'o', 'u', 't', 'e']
    }
}

/// `Path::file_name`: the final component of `path`, when it has one. A plain name is its
/// own final component, and so is the name in `dirs/name` where `dirs` is plain names joined
/// by `/`; for other text, which part is a component follows the platform's path rules and
/// is left unsaid.
#[verifier::external_body]
fn path_file_name(path: &str) -> (r: Option<String>)
    ensures
        is_plain_name(path@) ==> r is Some && r.unwrap()@ == path@,
        forall|k: int|
            #[trigger] is_dir_and_name(path@, k) ==> r is Some && r.unwrap()@ == path@.subrange(
                k + 1,
                path@.len() as int,
            ),
{
    match std::path::Path::new(path).file_name() {
        Some(name) => Some(name.to_string_lossy().into_owned()),
        None => None,
    }
}

/// A non-empty piece of text with no `/` or `\` in it and not made of dots alone: no path
/// rule splits it or drops it.
pub open spec fn is_plain_tail(t: Seq<char>) -> bool {
    &&& forall|i: int| 0 <= i < t.len() ==> t[i] != '/' && t[i] != '\\'
    &&& exists|i: int| 0 <= i < t.len() && t[i] != '.'
}

/// `Path::with_file_name`: `path` with its final component replaced by `name`, following
/// the platform's path rules. Setting a file name pops the final component and pushes
/// `name`, and pushing appends `name` (or replaces the path by it, when `name` is
/// absolute); only on Windows, under a verbatim prefix, are `.` and `..` components of
/// `name` resolved and its separators rewritten. So the result ends with any final piece of
/// `name` that no path rule splits or drops. For a plain `path` the result is `name`; for
/// `dirs/file`, where the parent `dirs` is plain names joined by `/`, it is `dirs`, the
/// platform's separator, and `name`. Otherwise what comes before `name` is left unsaid.
#[verifier::external_body]
fn path_with_file_name(path: &str, name: &str) -> (r: String)
    ensures
        forall|k: int|
            0 <= k < name@.len() && is_plain_tail(#[trigger] name@.subrange(k, name@.len() as int))
                ==> has_suffix(r@, name@.subrange(k, name@.len() as int)),
        is_plain_name(path@) && is_plain_name(name@) ==> r@ == name@,
        forall|k: int|
            #[trigger] is_dir_and_name(path@, k) && is_plain_name(name@) ==> {
                &&& r@.len() == k + 1 + name@.len()
                &&& r@.subrange(0, k) == path@.subrange(0, k)
                &&& is_path_separator(r@[k])
                &&& r@.subrange(k + 1, r@.len() as int) == name@
            },
{
    std::path::Path::new(path).with_file_name(name).to_string_lossy().into_owned()
}

/// `PathBuf::set_extension`: when `path` has no final component it is left as it is;
/// otherwise the path is cut right after the stem of its final component and `.` and
/// `extension` are appended. For a plain `path`, or `dirs/file` with `dirs` plain names
/// joined by `/` and `file` plain, the final component is the file name; for other text it
/// follows the platform's path rules and is left unsaid. An extension holding a path separator makes the call panic.
#[verifier::external_body]
fn path_set_extension(path: &str, extension: &str) -> (r: String)
    requires
        extension@.len() > 0,
        forall|i: int| 0 <= i < extension@.len() ==> extension@[i] != '/' && extension@[i] != '\\',
    ensures
        r@ == path@ || has_suffix(r@, seq!['.'] + extension@),
        is_plain_name(path@) ==> r@ == file_stem_of(path@) + seq!['.'] + extension@,
        forall|k: int|
            #[trigger] is_dir_and_name(path@, k) ==> r@ == path@.subrange(0, k + 1) + file_stem_of(
                path@.subrange(k + 1, path@.len() as int),
            ) + seq!['.'] + extension@,
{
    let mut buf = std::path::PathBuf::from(path);
    buf.set_extension(extension);
    buf.to_string_lossy().into_owned()
}

proof fn lemma_graph_name_plain(name: Seq<char>)
    requires
        is_plain_name(name),
        has_suffix(name, seq!['.', 'o', 's', 'm', '.', 'p', 'b', 'f']),
    ensures
        is_plain_name(graph_file_name_of(name)),
{
    let g = graph_file_name_of(name);
    let suffix = seq!['.', 'm', 'y', 'r', 'o', 'u', 't', 'e'];
    assert(g.len() == name.len());
    assert forall|i: int| 0 <= i < g.len() implies g[i] != '/' && g[i] != '\\' && g[i] != ':' by {
        if i < name.len() - 8 {
            assert(g[i] == name[i]);
        } else {
            assert(g[i] == suffix[i - (name.len() - 8)]);
        }
    }
    assert(g[g.len() - 1] == 'e');
}

/// The graph file that an import of `input` writes when no output is named: the input's
/// file name with `.osm.pbf` replaced by `.myroute`, or else with its extension replaced by
/// `myroute`. For a plain file name, or a plain file name under directories that are plain
/// names joined by `/`, the result is stated exactly; for other text, which part is the file name follows the platform's path
/// rules, and what is stated is that the result is `input` itself (a path with no file
/// name) or ends with `.myroute`.
pub fn default_graph_path(input: &str) -> (r: String)
    ensures
        r@ == input@ || has_suffix(r@, seq!['.', 'm', 'y', 'r', 'o', 'u', 't', 'e']),
        is_plain_name(input@) ==> r@ == default_graph_name(input@),
        forall|k: int|
            #[trigger] is_dir_and_name(input@, k) ==> {
                &&& r@.len() == k + 1 + default_graph_name(
                    input@.subrange(k + 1, input@.len() as int),
                ).len()
                &&& r@.subrange(0, k) == input@.subrange(0, k)
                &&& is_path_separator(r@[k])
                &&& r@.subrange(k + 1, r@.len() as int) == default_graph_name(
                    input@.subrange(k + 1, input@.len() as int),
                )
            },
{
    let ghost suffix = seq!['.', 'm', 'y', 'r', 'o', 'u', 't', 'e'];
    let file_name = path_file_name(input);
    let name = match &file_name {
        Some(n) => Some(n.as_str()),
        None => None,
    };
    proof {
        reveal_strlit(".osm.pbf");
    }
    match plan_graph_path(name) {
        GraphPathPlan::ReplaceFileName(new_name) => {
            let r = path_with_file_name(input, new_name.as_str());
            proof {
                let n = new_name@;
                let k = n.len() - 8;
                assert(n.subrange(k, n.len() as int) =~= suffix);
                assert(suffix[1] != '.');
                assert(is_plain_tail(n.subrange(k, n.len() as int)));
                if is_plain_name(input@) {
                    lemma_graph_name_plain(input@);
                }
                assert forall|j: int| #[trigger] is_dir_and_name(input@, j) implies {
                    &&& r@.len() == j + 1 + default_graph_name(
                        input@.subrange(j + 1, input@.len() as int),
                    ).len()
                    &&& r@.subrange(0, j) == input@.subrange(0, j)
                    &&& is_path_separator(r@[j])
                    &&& r@.subrange(j + 1, r@.len() as int) == default_graph_name(
                        input@.subrange(j + 1, input@.len() as int),
                    )
                } by {
                    lemma_graph_name_plain(input@.subrange(j + 1, input@.len() as int));
                }
            }
            r
        },
        GraphPathPlan::SetExtension => {
            let ext = "myroute";
            proof {
                reveal_strlit("myroute");
                assert(ext@ =~= seq!['m', 'y', 'r', 'o', 'u', 't', 'e']);
                assert(seq!['.'] + ext@ =~= suffix);
            }
            let r = path_set_extension(input, ext);
            proof {
                assert forall|j: int| #[trigger] is_dir_and_name(input@, j) implies {
                    &&& r@.len() == j + 1 + default_graph_name(
                        input@.subrange(j + 1, input@.len() as int),
                    ).len()
                    &&& r@.subrange(0, j) == input@.subrange(0, j)
                    &&& is_path_separator(r@[j])
                    &&& r@.subrange(j + 1, r@.len() as int) == default_graph_name(
                        input@.subrange(j + 1, input@.len() as int),
                    )
                } by {
                    let dir = input@.subrange(0, j + 1);
                    let rest = file_stem_of(input@.subrange(j + 1, input@.len() as int)) + seq!['.'] + ext@;
                    assert(r@ == dir + rest);
                    assert(r@.subrange(0, j) =~= input@.subrange(0, j));
                    assert(r@[j] == input@[j]);
                    assert(r@.subrange(j + 1, r@.len() as int) =~= rest);
                    assert(rest =~= file_stem_of(input@.subrange(j + 1, input@.len() as int)) + suffix);
                }
            }
            r
        },
    }
}

} // verus!
