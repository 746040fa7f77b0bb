//! The firmlinks of macOS, which show the same directory under two paths.
//!
//! A path to be ignored has to be ignored on both sides of a firmlink. The system lists its
//! firmlinks in a file, one on a line: the path on the system volume, a tab, and the path on
//! the data volume.

use vstd::prelude::*;
use vstd::slice::slice_to_vec;
use vstd::utf8::encode_utf8;
use crate::encoding::{encode_each, lemma_lines_encoded, lemma_split_encoded};
use crate::path::PathBuf;
use crate::path::{components, is_absolute, join, remainder, starts_with};
use crate::text::{lines, split, views};
use crate::text::{lines_of, split_at_each};

verus! {

/// Where the data volume is mounted: the firmlinks file writes its paths as seen from there.
pub const DATA_VOLUME: &'static str = "/System/Volumes/Data";

/// The two sides of each firmlink.
pub open spec fn link_views(links: Seq<(PathBuf, PathBuf)>) -> Seq<(Seq<u8>, Seq<u8>)> {
    links.map_values(|link: (PathBuf, PathBuf)| (link.0@, link.1@))
}

/// The texts of the paths.
pub open spec fn path_views(paths: Seq<PathBuf>) -> Seq<Seq<u8>> {
    paths.map_values(|path: PathBuf| path@)
}

/// The text of the path, where there is one.
pub open spec fn option_view(path: Option<PathBuf>) -> Option<Seq<u8>> {
    match path {
        Some(p) => Some(p@),
        None => None,
    }
}

/// The texts of the paths that are there.
pub open spec fn option_views(paths: Seq<Option<PathBuf>>) -> Seq<Option<Seq<u8>>> {
    paths.map_values(|path: Option<PathBuf>| option_view(path))
}

/// The text of a path behind a reference, where there is one.
pub open spec fn ref_view(path: Option<&PathBuf>) -> Option<Seq<u8>> {
    match path {
        Some(p) => Some(p@),
        None => None,
    }
}

/// The path on the other side of a firmlink, for a path on either side of it. A path on both
/// counts as one on the first.
pub open spec fn other_side(path: Seq<u8>, link: (Seq<u8>, Seq<u8>)) -> Option<Seq<u8>> {
    if starts_with(path, link.0) {
        Some(join(link.1, remainder(path, components(link.0).len())))
    } else if starts_with(path, link.1) {
        Some(join(link.0, remainder(path, components(link.1).len())))
    } else {
        None
    }
}

/// The path on the other side of the first firmlink that has `path` on a side.
pub open spec fn match_path(path: Seq<u8>, links: Seq<(Seq<u8>, Seq<u8>)>) -> Option<Seq<u8>>
    decreases links.len(),
{
    if links.len() == 0 {
        None
    } else if other_side(path, links[0]) is Some {
        other_side(path, links[0])
    } else {
        match_path(path, links.skip(1))
    }
}

/// The firmlink that a line of the firmlinks file states: none if the line has no tab. What
/// stands behind a second tab does not count.
pub open spec fn link_of_line(line: Seq<char>) -> Option<(Seq<u8>, Seq<u8>)> {
    let fields = split(line, '\t');
    if fields.len() >= 2 {
        Some((encode_utf8(fields[0]), join(encode_utf8(DATA_VOLUME@), encode_utf8(fields[1]))))
    } else {
        None
    }
}

/// [`link_of_line`] as a function value.
pub open spec fn line_reader() -> spec_fn(Seq<char>) -> Option<(Seq<u8>, Seq<u8>)> {
    |line: Seq<char>| link_of_line(line)
}

/// The firmlinks that the text of the file states, in its order.
pub open spec fn link_table(text: Seq<char>) -> Seq<(Seq<u8>, Seq<u8>)> {
    lines(text, '\n', '\r').filter_map(line_reader())
}

/// Given a path to ignore and a list of firmlinks, try to find a corresponding path on the
/// other side of a firmlink.
///
/// For example, if the path is /System/Library and there is a firmlink from /System/Library to
/// /System/Volumes/Data/System/Library, the path on the other side is
/// /System/Volumes/Data/System/Library.
pub fn try_match_path(path: &PathBuf, firmlinks: &[(PathBuf, PathBuf)]) -> (expanded: Option<
    PathBuf,
>)
    ensures
        option_view(expanded) == match_path(path@, link_views(firmlinks@)),
{
    let ghost links = link_views(firmlinks@);
    let mut i: usize = 0;
    assert(links.skip(0) =~= links);
    while i < firmlinks.len()
        invariant
            i <= firmlinks@.len(),
            links == link_views(firmlinks@),
            match_path(path@, links.skip(i as int)) == match_path(path@, links),
        decreases firmlinks@.len() - i,
    {
        let link = &firmlinks[i];
        assert(links.skip(i as int)[0] == (link.0@, link.1@));
        if let Some(rest) = path.strip_prefix(&link.0) {
            return Some(link.1.join(&rest));
        }
        if let Some(rest) = path.strip_prefix(&link.1) {
            return Some(link.0.join(&rest));
        }
        assert(links.skip(i as int).skip(1) =~= links.skip(i + 1));
        i = i + 1;
    }
    None
}

/// The firmlinks that the text of the firmlinks file states.
pub fn get_firmlinked_paths(firmlink_string: String) -> (links: Vec<(PathBuf, PathBuf)>)
    ensures
        link_views(links@) == link_table(firmlink_string@),
{
    let ghost text = firmlink_string@;
    let ghost text_lines = lines(text, '\n', '\r');
    let mut links: Vec<(PathBuf, PathBuf)> = Vec::new();
    let data_volume = PathBuf::from(DATA_VOLUME);
    let found = lines_of(firmlink_string.as_str().as_bytes(), 0x0a, 0x0d);
    proof {
        lemma_lines_encoded(text, '\n', '\r', 0x0a, 0x0d);
        assert(views(found@) == encode_each(text_lines));
        assert(found@.len() == views(found@).len());
        assert(encode_each(text_lines).len() == text_lines.len());
        assert(link_views(links@) =~= text_lines.take(0).filter_map(line_reader()));
    }
    let mut i: usize = 0;
    while i < found.len()
        invariant
            i <= found@.len(),
            found@.len() == text_lines.len(),
            views(found@) == encode_each(text_lines),
            data_volume@ == encode_utf8(DATA_VOLUME@),
            link_views(links@) == text_lines.take(i as int).filter_map(line_reader()),
        decreases found@.len() - i,
    {
        let ghost line = text_lines[i as int];
        let ghost before = link_views(links@);
        let fields = split_at_each(found[i], 0x09);
        proof {
            assert(found@[i as int]@ == views(found@)[i as int]);
            assert(found@[i as int]@ == encode_utf8(line));
            lemma_split_encoded(line, '\t', 0x09);
            assert(fields@.len() == views(fields@).len());
            assert(views(fields@) == encode_each(split(line, '\t')));
            assert(fields@.len() == split(line, '\t').len());
            text_lines.lemma_filter_map_take_succ(line_reader(), i as int);
            assert(line_reader()(line) == link_of_line(line));
        }
        if fields.len() >= 2 {
            let src = PathBuf::from_bytes(slice_to_vec(fields[0]));
            let dst = data_volume.join(&PathBuf::from_bytes(slice_to_vec(fields[1])));
            proof {
                assert(views(fields@)[0] == fields@[0]@);
                assert(views(fields@)[1] == fields@[1]@);
            }
            links.push((src, dst));
            assert(link_views(links@) =~= before + seq![(src@, dst@)]);
        }
        i = i + 1;
        assert(link_views(links@) =~= text_lines.take(i as int).filter_map(line_reader()));
    }
    assert(text_lines.take(i as int) =~= text_lines);
    links
}

/// The path that is to be made canonical before `path` can be expanded: none if `path` itself
/// is on a side of a firmlink, or if it is relative and there is no directory to see it from.
pub open spec fn to_canonicalize(
    path: Seq<u8>,
    links: Seq<(Seq<u8>, Seq<u8>)>,
    cwd: Option<Seq<u8>>,
) -> Option<Seq<u8>> {
    if match_path(path, links) is Some {
        None
    } else if is_absolute(path) {
        Some(path)
    } else {
        match cwd {
            Some(dir) => Some(join(dir, path)),
            None => None,
        }
    }
}

/// What `path` expands to, where `canonical` is the canonical form of the path that was to be
/// made canonical, if it has one.
pub open spec fn expansion(
    path: Seq<u8>,
    links: Seq<(Seq<u8>, Seq<u8>)>,
    cwd: Option<Seq<u8>>,
    canonical: Option<Seq<u8>>,
) -> Option<Seq<u8>> {
    if match_path(path, links) is Some {
        match_path(path, links)
    } else if to_canonicalize(path, links, cwd) is Some && canonical is Some {
        match_path(canonical->0, links)
    } else {
        None
    }
}

/// What each path expands to.
pub open spec fn expansion_of_each(
    paths: Seq<Seq<u8>>,
    links: Seq<(Seq<u8>, Seq<u8>)>,
    cwd: Option<Seq<u8>>,
    canonical: Seq<Option<Seq<u8>>>,
) -> Seq<Option<Seq<u8>>> {
    Seq::new(paths.len(), |i: int| expansion(paths[i], links, cwd, canonical[i]))
}

/// Hands on what is there.
pub open spec fn present() -> spec_fn(Option<Seq<u8>>) -> Option<Seq<u8>> {
    |path: Option<Seq<u8>>| path
}

/// The paths that the others expand to, in the order of those.
pub open spec fn expansions(
    paths: Seq<Seq<u8>>,
    links: Seq<(Seq<u8>, Seq<u8>)>,
    cwd: Option<Seq<u8>>,
    canonical: Seq<Option<Seq<u8>>>,
) -> Seq<Seq<u8>> {
    expansion_of_each(paths, links, cwd, canonical).filter_map(present())
}

/// What is to be made canonical for each path: nothing at all if there is no firmlinks file.
pub open spec fn requests(
    paths: Seq<Seq<u8>>,
    content: Option<Seq<char>>,
    cwd: Option<Seq<u8>>,
) -> Seq<Option<Seq<u8>>> {
    Seq::new(
        paths.len(),
        |i: int|
            match content {
                Some(text) => to_canonicalize(paths[i], link_table(text), cwd),
                None => None,
            },
    )
}

/// The text of the firmlinks file, where there is one.
pub open spec fn content_view(content: Option<String>) -> Option<Seq<char>> {
    match content {
        Some(text) => Some(text@),
        None => None,
    }
}

/// The path that is to be made canonical before `path` can be expanded, if any is.
fn path_to_canonicalize(
    path: &PathBuf,
    firmlinks: &[(PathBuf, PathBuf)],
    cwd: Option<&PathBuf>,
) -> (request: Option<PathBuf>)
    ensures
        option_view(request) == to_canonicalize(path@, link_views(firmlinks@), ref_view(cwd)),
{
    if try_match_path(path, firmlinks).is_some() {
        return None;
    }
    if path.is_absolute() {
        return Some(path.clone());
    }
    // A relative path is seen from the current directory.
    match cwd {
        Some(dir) => Some(dir.join(path)),
        None => None,
    }
}

/// For each path the one that is to be made canonical before it can be expanded, if any is.
/// `content` is what the firmlinks file holds.
pub fn paths_to_canonicalize(
    paths: &[PathBuf],
    content: Option<String>,
    cwd: Option<&PathBuf>,
) -> (asked: Vec<Option<PathBuf>>)
    ensures
        option_views(asked@) == requests(
            path_views(paths@),
            content_view(content),
            ref_view(cwd),
        ),
{
    let ghost all = requests(path_views(paths@), content_view(content), ref_view(cwd));
    let firmlinks = match content {
        Some(text) => Some(get_firmlinked_paths(text)),
        None => None,
    };
    let mut asked: Vec<Option<PathBuf>> = Vec::new();
    let mut i: usize = 0;
    while i < paths.len()
        invariant
            i <= paths@.len(),
            asked@.len() == i,
            all == requests(path_views(paths@), content_view(content), ref_view(cwd)),
            content is Some <==> firmlinks is Some,
            firmlinks is Some ==> link_views(firmlinks->0@) == link_table(content->0@),
            forall|j: int| 0 <= j < i ==> option_view(#[trigger] asked@[j]) == all[j],
        decreases paths@.len() - i,
    {
        assert(path_views(paths@)[i as int] == paths@[i as int]@);
        let request = match &firmlinks {
            Some(links) => path_to_canonicalize(&paths[i], links.as_slice(), cwd),
            None => None,
        };
        asked.push(request);
        i = i + 1;
    }
    assert(option_views(asked@) =~= all);
    asked
}

/// What each path expands to: the path on the other side of a firmlink from the path itself,
/// or else from its canonical form, which resolves `..` and relative paths. `canonical` holds
/// the canonical form of what was to be made canonical for each path, where it has one.
pub fn expand_firmlinks_inner(
    paths: &[PathBuf],
    firmlinks: &[(PathBuf, PathBuf)],
    cwd: Option<&PathBuf>,
    canonical: &[Option<PathBuf>],
) -> (extras: Vec<PathBuf>)
    requires
        canonical@.len() == paths@.len(),
    ensures
        path_views(extras@) == expansions(
            path_views(paths@),
            link_views(firmlinks@),
            ref_view(cwd),
            option_views(canonical@),
        ),
{
    let ghost links = link_views(firmlinks@);
    let ghost each = expansion_of_each(
        path_views(paths@),
        links,
        ref_view(cwd),
        option_views(canonical@),
    );
    let mut extras: Vec<PathBuf> = Vec::new();
    let mut i: usize = 0;
    assert(path_views(extras@) =~= each.take(0).filter_map(present()));
    while i < paths.len()
        invariant
            i <= paths@.len(),
            canonical@.len() == paths@.len(),
            links == link_views(firmlinks@),
            each == expansion_of_each(
                path_views(paths@),
                links,
                ref_view(cwd),
                option_views(canonical@),
            ),
            path_views(extras@) == each.take(i as int).filter_map(present()),
        decreases paths@.len() - i,
    {
        let path = &paths[i];
        let ghost before = path_views(extras@);
        proof {
            assert(path_views(paths@)[i as int] == path@);
            assert(option_views(canonical@)[i as int] == option_view(canonical@[i as int]));
            each.lemma_filter_map_take_succ(present(), i as int);
        }
        let expanded = match try_match_path(path, firmlinks) {
            Some(expanded) => Some(expanded),
            None => if path.is_absolute() || cwd.is_some() {
                match &canonical[i] {
                    Some(resolved) => try_match_path(resolved, firmlinks),
                    None => None,
                }
            } else {
                None
            },
        };
        assert(option_view(expanded) == each[i as int]);
        if let Some(extra) = expanded {
            extras.push(extra);
            assert(path_views(extras@) =~= before + seq![extra@]);
        }
        i = i + 1;
        assert(path_views(extras@) =~= each.take(i as int).filter_map(present()));
    }
    assert(each.take(i as int) =~= each);
    extras
}

/// Adds to the paths what they expand to, so that both sides of a firmlink are among them.
/// `content` is what the firmlinks file holds; without it the paths stay as they are.
pub fn expand_with_firmlinks(
    paths: &mut Vec<PathBuf>,
    content: Option<String>,
    cwd: Option<&PathBuf>,
    canonical: &[Option<PathBuf>],
)
    requires
        canonical@.len() == old(paths)@.len(),
    ensures
        content is None ==> final(paths)@ == old(paths)@,
        content matches Some(text) ==> {
            &&& old(paths)@.is_prefix_of(final(paths)@)
            &&& path_views(final(paths)@.skip(old(paths)@.len() as int)) == expansions(
                path_views(old(paths)@),
                link_table(text@),
                ref_view(cwd),
                option_views(canonical@),
            )
        },
{
    let text = match content {
        Some(text) => text,
        None => {
            return ;
        },
    };
    let firmlinks = get_firmlinked_paths(text);
    let mut extras = expand_firmlinks_inner(paths.as_slice(), firmlinks.as_slice(), cwd, canonical);
    let ghost added = extras@;
    paths.append(&mut extras);
    assert(paths@.skip(old(paths)@.len() as int) =~= added);
}

} // verus!
