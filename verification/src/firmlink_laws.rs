//! What holds of crossing firmlinks, and of reading them.

use vstd::prelude::*;
use vstd::utf8::{encode_scalar, encode_utf8, is_ascii_chars, is_ascii_chars_encode_utf8};
use crate::encoding::{lemma_char_number, lemma_encode_add, lemma_encode_ascii, lemma_encode_one};
use crate::firmlinks::{content_view, link_views, option_view, option_views, path_views, ref_view};
use crate::firmlinks::{expansion, expansion_of_each, expansions, present, requests};
use crate::firmlinks::{line_reader, link_of_line, link_table, match_path, other_side};
use crate::firmlinks::{to_canonicalize, DATA_VOLUME};
use crate::path::PathBuf;
use crate::path::{components, is_absolute, join, lead, names, remainder, starts_with};
use crate::path::{lemma_components_join, lemma_names_step, lemma_no_components, lemma_remainder};
use crate::path::{lemma_names_of_body, strip_prefix};
use crate::path::{DOT, SEPARATOR};
use crate::path_laws::lemma_starts_with_iff;
use crate::text::{chomp, head_len, lines, split, lemma_head_len, lemma_head_len_is};
use crate::text::{lemma_lines_single, lemma_split_joined, lemma_split_pieces, lemma_split_whole};

verus! {

/// A path that starts at the root, or at the current directory, is not moved out of the empty
/// path, other than to the empty path.
pub open spec fn can_move(path: Seq<u8>, from: Seq<u8>, to: Seq<u8>) -> bool {
    from.len() > 0 || to.len() == 0 || lead(path).len() == 0
}

/// A path has the same components under the other side of a firmlink that it has under its own.
pub proof fn lemma_other_side(path: Seq<u8>, link: (Seq<u8>, Seq<u8>))
    requires
        starts_with(path, link.0) ==> can_move(path, link.0, link.1),
        !starts_with(path, link.0) && starts_with(path, link.1) ==> can_move(path, link.1, link.0),
    ensures
        other_side(path, link) is Some <==> starts_with(path, link.0) || starts_with(path, link.1),
        starts_with(path, link.0) ==> components(other_side(path, link)->0) == components(link.1)
            + components(path).skip(components(link.0).len() as int),
        !starts_with(path, link.0) && starts_with(path, link.1) ==> components(
            other_side(path, link)->0,
        ) == components(link.0) + components(path).skip(components(link.1).len() as int),
{
    if starts_with(path, link.0) {
        lemma_moved(path, link.0, link.1);
    } else if starts_with(path, link.1) {
        lemma_moved(path, link.1, link.0);
    }
}

/// A path that starts with a directory can be moved to another.
pub proof fn lemma_moved(path: Seq<u8>, from: Seq<u8>, to: Seq<u8>)
    requires
        starts_with(path, from),
        can_move(path, from, to),
    ensures
        components(join(to, remainder(path, components(from).len()))) == components(to)
            + components(path).skip(components(from).len() as int),
{
    let n = components(from).len();
    lemma_no_components(from);
    lemma_remainder(path, n);
    let rest = remainder(path, n);
    lemma_components_join(to, rest);
    if n == 0 {
        assert(components(path).skip(0) =~= components(path));
        lemma_same_components(path, rest);
        if lead(path).len() == 0 {
            assert(components(path) =~= names(path));
        }
    }
    if to.len() == 0 {
        lemma_no_components(to);
        assert(components(to) + components(path).skip(n as int) =~= components(path).skip(n as int));
    }
}

/// The side of a firmlink itself has the other side across: a firmlink from /System/Library
/// to /System/Volumes/Data/System/Library takes the one to the other, and the other to the one
/// unless that is on the first side too.
pub proof fn lemma_sides_match(path: Seq<u8>, link: (Seq<u8>, Seq<u8>))
    ensures
        components(path) == components(link.0) ==> other_side(path, link) is Some && components(
            other_side(path, link)->0,
        ) == components(link.1),
        components(path) == components(link.1) && !starts_with(path, link.0) ==> other_side(
            path,
            link,
        ) is Some && components(other_side(path, link)->0) == components(link.0),
{
    assert(components(path).subrange(0, components(path).len() as int) =~= components(path));
    if components(path) == components(link.0) {
        lemma_all_moved(path, link.0, link.1);
    } else if components(path) == components(link.1) {
        lemma_all_moved(path, link.1, link.0);
    }
}

/// A directory that is moved to another becomes that.
proof fn lemma_all_moved(path: Seq<u8>, from: Seq<u8>, to: Seq<u8>)
    requires
        components(path) == components(from),
    ensures
        components(join(to, remainder(path, components(from).len()))) == components(to),
{
    let n = components(from).len();
    lemma_remainder(path, n);
    lemma_no_components(from);
    lemma_no_components(to);
    let rest = remainder(path, n);
    lemma_no_components(rest);
    assert(components(path).skip(n as int) =~= seq![]);
    lemma_components_join(to, rest);
    if from.len() == 0 {
        lemma_same_components(path, rest);
    }
    assert(names(rest) =~= components(rest));
    assert(components(to) + names(rest) =~= components(to));
}

/// Crossing the firmlink twice can lead back. From the first side it does unless the path across
/// is on the first side too, and the sides differ; from the second it always does, except that a
/// path that starts at the current directory does not find it again in the empty path.
pub open spec fn crosses_back(path: Seq<u8>, link: (Seq<u8>, Seq<u8>)) -> bool {
    if starts_with(path, link.0) {
        ||| !starts_with(other_side(path, link)->0, link.0)
        ||| components(link.0) == components(link.1)
        ||| link.0.len() == 0 && is_absolute(path)
    } else {
        link.1.len() == 0 ==> lead(path) != seq![seq![DOT]]
    }
}

/// Crossing a firmlink twice leads back to the path, as far as it can.
pub proof fn lemma_cross_and_back(path: Seq<u8>, link: (Seq<u8>, Seq<u8>))
    requires
        other_side(path, link) is Some,
        crosses_back(path, link),
    ensures
        other_side(other_side(path, link)->0, link) is Some,
        components(other_side(other_side(path, link)->0, link)->0) == components(path),
{
    let (src, dst) = link;
    let across = other_side(path, link)->0;
    lemma_no_components(src);
    lemma_no_components(dst);
    let n = components(src).len() as int;
    let k = components(dst).len() as int;
    if n == 0 {
        assert(components(across).subrange(0, 0) =~= components(src));
    }
    if starts_with(path, src) {
        assert(components(src) + components(path).skip(n) =~= components(path));
        if n == 0 && is_absolute(path) {
            // Joining an absolute path to anything leaves it as it is.
            lemma_remainder(path, 0);
            lemma_same_components(path, remainder(path, 0));
            lemma_remainder(across, 0);
            lemma_same_components(across, remainder(across, 0));
            lemma_components_join(dst, remainder(path, 0));
            lemma_components_join(dst, remainder(across, 0));
        } else if components(src) == components(dst) {
            lemma_moved(path, src, dst);
            lemma_moved(across, src, dst);
        } else {
            lemma_moved(path, src, dst);
            assert(components(across).subrange(0, k) =~= components(dst));
            if k == 0 {
                lemma_remainder(path, n as nat);
                assert(across =~= remainder(path, n as nat));
                lemma_lead_of_names(across);
            }
            lemma_moved(across, dst, src);
            assert(components(across).skip(k) =~= components(path).skip(n));
        }
    } else {
        assert(components(dst) + components(path).skip(k) =~= components(path));
        if k == 0 && is_absolute(path) {
            lemma_remainder(path, 0);
            lemma_same_components(path, remainder(path, 0));
            lemma_components_join(src, remainder(path, 0));
            assert(components(across).subrange(0, 0) =~= components(dst));
            lemma_remainder(across, 0);
            lemma_same_components(across, remainder(across, 0));
            lemma_same_components(path, across);
            lemma_components_join(src, remainder(across, 0));
        } else {
            lemma_moved(path, dst, src);
            assert(components(across).subrange(0, n) =~= components(src));
            lemma_moved(across, src, dst);
            assert(components(across).skip(n) =~= components(path).skip(k));
        }
    }
}

/// A path that is all names has nothing before them.
proof fn lemma_lead_of_names(p: Seq<u8>)
    requires
        components(p) == names(p),
    ensures
        lead(p).len() == 0,
{
    assert(components(p).len() == lead(p).len() + names(p).len());
}

/// Paths with the same components have the same lead and the same names.
pub proof fn lemma_same_components(p: Seq<u8>, q: Seq<u8>)
    requires
        components(p) == components(q),
    ensures
        lead(p) == lead(q),
        names(p) == names(q),
        is_absolute(p) == is_absolute(q),
{
    lemma_lead_is_no_name(p);
    lemma_lead_is_no_name(q);
    assert(lead(p) =~= lead(q)) by {
        if lead(p).len() > 0 {
            assert(components(p)[0] == lead(p)[0]);
            if lead(q).len() == 0 {
                assert(components(q)[0] == names(q)[0]);
            } else {
                assert(components(q)[0] == lead(q)[0]);
            }
        } else if lead(q).len() > 0 {
            assert(components(q)[0] == lead(q)[0]);
            assert(components(p)[0] == names(p)[0]);
        }
    }
    assert(names(p) =~= components(p).skip(lead(p).len() as int));
    assert(names(q) =~= components(q).skip(lead(q).len() as int));
    let root: Seq<u8> = seq![SEPARATOR];
    let here: Seq<u8> = seq![DOT];
    assert(root[0] != here[0]);
    if is_absolute(p) {
        assert(lead(p)[0] == root);
    }
    if is_absolute(q) {
        assert(lead(q)[0] == root);
    }
}

/// No name of a path is written as the root or the current directory are.
pub proof fn lemma_lead_is_no_name(p: Seq<u8>)
    ensures
        forall|i: int| 0 <= i < names(p).len() ==> #[trigger] names(p)[i] != seq![DOT],
        forall|i: int| 0 <= i < names(p).len() ==> #[trigger] names(p)[i] != seq![SEPARATOR],
    decreases p.len(),
{
    lemma_names_step(p);
    lemma_head_len(p, SEPARATOR);
    let n = head_len(p, SEPARATOR) as int;
    if p.take(n) == seq![SEPARATOR] {
        assert(p.take(n)[0] == p[0]);
    }
    if n < p.len() {
        lemma_lead_is_no_name(p.skip(n + 1));
    }
}

/// The first firmlink that has the path on a side decides, whatever follows it.
pub proof fn lemma_first_match_decides(
    path: Seq<u8>,
    links: Seq<(Seq<u8>, Seq<u8>)>,
    first: int,
)
    requires
        0 <= first < links.len(),
        other_side(path, links[first]) is Some,
        forall|i: int| 0 <= i < first ==> other_side(path, #[trigger] links[i]) is None,
    ensures
        match_path(path, links) == other_side(path, links[first]),
    decreases links.len(),
{
    if first > 0 {
        assert(links.skip(1)[first - 1] == links[first]);
        assert forall|i: int| 0 <= i < first - 1 implies other_side(
            path,
            #[trigger] links.skip(1)[i],
        ) is None by {
            assert(links.skip(1)[i] == links[i + 1]);
        }
        lemma_first_match_decides(path, links.skip(1), first - 1);
    }
}

/// Matching twice leads back, where the same firmlink decides both times and crossing it twice
/// does.
pub proof fn lemma_match_and_back(path: Seq<u8>, links: Seq<(Seq<u8>, Seq<u8>)>, first: int)
    requires
        0 <= first < links.len(),
        other_side(path, links[first]) is Some,
        forall|i: int| 0 <= i < first ==> other_side(path, #[trigger] links[i]) is None,
        forall|i: int|
            0 <= i < first ==> other_side(
                other_side(path, links[first])->0,
                #[trigger] links[i],
            ) is None,
        crosses_back(path, links[first]),
    ensures
        match_path(path, links) is Some,
        match_path(match_path(path, links)->0, links) is Some,
        components(match_path(match_path(path, links)->0, links)->0) == components(path),
{
    lemma_cross_and_back(path, links[first]);
    lemma_first_match_decides(path, links, first);
    lemma_first_match_decides(other_side(path, links[first])->0, links, first);
}

/// A path matches no firmlinks if and only if it is on no side of any of them.
pub proof fn lemma_no_match(path: Seq<u8>, links: Seq<(Seq<u8>, Seq<u8>)>)
    ensures
        match_path(path, links) is None <==> forall|i: int|
            0 <= i < links.len() ==> !starts_with(path, (#[trigger] links[i]).0) && !starts_with(
                path,
                links[i].1,
            ),
    decreases links.len(),
{
    if links.len() > 0 {
        let rest = links.skip(1);
        lemma_no_match(path, rest);
        if match_path(path, links) is None {
            assert forall|i: int| 0 <= i < links.len() implies !starts_with(
                path,
                (#[trigger] links[i]).0,
            ) && !starts_with(path, links[i].1) by {
                if i > 0 {
                    assert(rest[i - 1] == links[i]);
                }
            }
        } else if other_side(path, links[0]) is None {
            let i = choose|i: int|
                0 <= i < rest.len() && (starts_with(path, (#[trigger] rest[i]).0) || starts_with(
                    path,
                    rest[i].1,
                ));
            assert(links[i + 1] == rest[i]);
        }
    }
}

/// A relative path is on no side of a firmlink between absolute paths: ./Users is not /Users.
pub proof fn lemma_relative_path_does_not_match(path: Seq<u8>, links: Seq<(Seq<u8>, Seq<u8>)>)
    requires
        !is_absolute(path),
        forall|i: int|
            0 <= i < links.len() ==> is_absolute((#[trigger] links[i]).0) && is_absolute(
                links[i].1,
            ),
    ensures
        match_path(path, links) is None,
{
    lemma_no_match(path, links);
    assert forall|i: int| 0 <= i < links.len() implies !starts_with(path, (#[trigger] links[i]).0)
        && !starts_with(path, links[i].1) by {
        lemma_root_first(path, links[i].0);
        lemma_root_first(path, links[i].1);
    }
}

/// Only an absolute path starts with one.
pub proof fn lemma_root_first(path: Seq<u8>, base: Seq<u8>)
    requires
        is_absolute(base),
    ensures
        starts_with(path, base) ==> is_absolute(path),
{
    if starts_with(path, base) && !is_absolute(path) {
        let root: Seq<u8> = seq![SEPARATOR];
        let here: Seq<u8> = seq![DOT];
        assert(components(base)[0] == root);
        assert(components(path).subrange(0, components(base).len() as int)[0] == root);
        assert(components(path)[0] == root);
        lemma_lead_is_no_name(path);
        assert(root[0] != here[0]);
        if lead(path).len() > 0 {
            assert(components(path)[0] == here);
        } else {
            assert(components(path)[0] == names(path)[0]);
        }
    }
}

/// Where nothing is to be made canonical for a path, what it expands to does not depend on any
/// canonical form: it is what the path itself matches.
pub proof fn lemma_only_requests_count(
    path: Seq<u8>,
    links: Seq<(Seq<u8>, Seq<u8>)>,
    cwd: Option<Seq<u8>>,
    canonical: Option<Seq<u8>>,
)
    requires
        to_canonicalize(path, links, cwd) is None,
    ensures
        expansion(path, links, cwd, canonical) == match_path(path, links),
{
}

/// A path that resolves to one on a side of a firmlink expands as that one does, whether it
/// is absolute or seen from the current directory.
pub proof fn lemma_resolved_path_expands(
    path: Seq<u8>,
    links: Seq<(Seq<u8>, Seq<u8>)>,
    cwd: Option<Seq<u8>>,
    canonical: Seq<u8>,
)
    requires
        match_path(path, links) is None,
        is_absolute(path) || cwd is Some,
    ensures
        to_canonicalize(path, links, cwd) == Some(
            if is_absolute(path) {
                path
            } else {
                join(cwd->0, path)
            },
        ),
        expansion(path, links, cwd, Some(canonical)) == match_path(canonical, links),
{
}

/// With no current directory to see it from, a relative path expands to nothing across
/// firmlinks between absolute paths.
pub proof fn lemma_relative_path_stays(
    path: Seq<u8>,
    links: Seq<(Seq<u8>, Seq<u8>)>,
    canonical: Option<Seq<u8>>,
)
    requires
        !is_absolute(path),
        forall|i: int|
            0 <= i < links.len() ==> is_absolute((#[trigger] links[i]).0) && is_absolute(
                links[i].1,
            ),
    ensures
        to_canonicalize(path, links, None) is None,
        expansion(path, links, None, canonical) is None,
{
    lemma_relative_path_does_not_match(path, links);
}

/// What is made canonical is absolute wherever the current directory is.
pub proof fn lemma_requests_are_absolute(
    path: Seq<u8>,
    links: Seq<(Seq<u8>, Seq<u8>)>,
    cwd: Option<Seq<u8>>,
)
    requires
        cwd matches Some(dir) ==> is_absolute(dir),
    ensures
        to_canonicalize(path, links, cwd) matches Some(asked) ==> is_absolute(asked),
{
}

/// Whatever a path expands to is among the expansions, and nothing else is: there are no more of
/// them than there are paths.
pub proof fn lemma_expansions(
    paths: Seq<Seq<u8>>,
    links: Seq<(Seq<u8>, Seq<u8>)>,
    cwd: Option<Seq<u8>>,
    canonical: Seq<Option<Seq<u8>>>,
)
    ensures
        expansions(paths, links, cwd, canonical).len() <= paths.len(),
        forall|e: Seq<u8>|
            expansions(paths, links, cwd, canonical).contains(e) <==> exists|i: int|
                0 <= i < paths.len() && #[trigger] expansion(paths[i], links, cwd, canonical[i])
                    == Some(e),
{
    let each = expansion_of_each(paths, links, cwd, canonical);
    let all = expansions(paths, links, cwd, canonical);
    lemma_present_len(each);
    assert forall|e: Seq<u8>| all.contains(e) <==> exists|i: int|
        0 <= i < paths.len() && #[trigger] expansion(paths[i], links, cwd, canonical[i]) == Some(
            e,
        ) by {
        lemma_present(each, e);
        if all.contains(e) {
            let i = each.index_of(Some(e));
            assert(each[i] == Some(e));
            assert(expansion(paths[i], links, cwd, canonical[i]) == Some(e));
        }
        if exists|i: int|
            0 <= i < paths.len() && #[trigger] expansion(paths[i], links, cwd, canonical[i])
                == Some(e) {
            let i = choose|i: int|
                0 <= i < paths.len() && #[trigger] expansion(paths[i], links, cwd, canonical[i])
                    == Some(e);
            assert(each[i] == Some(e));
        }
    }
}

/// What is there is handed on.
proof fn lemma_present(v: Seq<Option<Seq<u8>>>, e: Seq<u8>)
    ensures
        v.filter_map(present()).contains(e) <==> v.contains(Some(e)),
    decreases v.len(),
{
    if v.len() > 0 {
        let init = v.drop_last();
        let kept = init.filter_map(present());
        lemma_present(init, e);
        let out = v.filter_map(present());
        assert(v =~= init.push(v.last()));
        if init.contains(Some(e)) {
            let i = init.index_of(Some(e));
            assert(v[i] == Some(e));
            let j = kept.index_of(e);
            assert(out[j] == e);
        }
        if v.last() == Some(e) {
            assert(v[v.len() - 1] == Some(e));
            assert(out[out.len() - 1] == e);
        }
        if v.contains(Some(e)) && v.last() != Some(e) {
            let i = v.index_of(Some(e));
            assert(init[i] == Some(e));
        }
        if out.contains(e) && !kept.contains(e) {
            let j = out.index_of(e);
            if j < kept.len() {
                assert(kept[j] == e);
            }
        }
    }
}

/// No more is handed on than there is.
proof fn lemma_present_len(v: Seq<Option<Seq<u8>>>)
    ensures
        v.filter_map(present()).len() <= v.len(),
    decreases v.len(),
{
    if v.len() > 0 {
        lemma_present_len(v.drop_last());
    }
}

/// Where the data volume is mounted is an absolute path.
proof fn lemma_data_volume_is_absolute()
    ensures
        is_absolute(encode_utf8(DATA_VOLUME@)),
{
    reveal_strlit("/System/Volumes/Data");
    assert(is_ascii_chars(DATA_VOLUME@));
    is_ascii_chars_encode_utf8(DATA_VOLUME@);
    assert(DATA_VOLUME@[0] == '/');
}

/// The second side of every firmlink that the file states is an absolute path. Where the file
/// writes a relative one, it is on the data volume.
pub proof fn lemma_second_side(line: Seq<char>)
    ensures
        link_of_line(line) matches Some(link) ==> {
            &&& is_absolute(link.1)
            &&& !is_absolute(encode_utf8(split(line, '\t')[1])) ==> starts_with(
                link.1,
                encode_utf8(DATA_VOLUME@),
            )
        },
{
    let volume = encode_utf8(DATA_VOLUME@);
    lemma_data_volume_is_absolute();
    if link_of_line(line) is Some {
        let field = encode_utf8(split(line, '\t')[1]);
        lemma_components_join(volume, field);
        if !is_absolute(field) {
            assert((components(volume) + names(field)).subrange(
                0,
                components(volume).len() as int,
            ) =~= components(volume));
        }
    }
}

/// Every firmlink in the table has an absolute second side.
pub proof fn lemma_table_second_sides(text: Seq<char>)
    ensures
        forall|i: int| 0 <= i < link_table(text).len() ==> is_absolute((#[trigger] link_table(text)[i]).1),
{
    let all = lines(text, '\n', '\r');
    assert forall|i: int| 0 <= i < link_table(text).len() implies is_absolute(
        (#[trigger] link_table(text)[i]).1,
    ) by {
        let link = link_table(text)[i];
        assert(all.filter_map(line_reader()).contains(link));
        all.lemma_filter_map_contains(line_reader(), link);
        let line = choose|line: Seq<char>|
            #[trigger] all.contains(line) && line_reader()(line) == Some(link);
        lemma_second_side(line);
    }
}

/// A line of the file states its firmlink whatever stands before it and after it: reading what
/// two texts hold, the first of them ended by a newline, is reading the one and then the other.
pub proof fn lemma_table_of_two_texts(a: Seq<char>, b: Seq<char>)
    ensures
        link_table(a + seq!['\n'] + b) == link_table(a + seq!['\n']) + link_table(b),
{
    lemma_lines_of_two_texts(a, b, '\n', '\r');
    lemma_read_of_two(lines(a + seq!['\n'], '\n', '\r'), lines(b, '\n', '\r'));
}

/// The lines of two texts, the first of them ended by a newline.
pub proof fn lemma_lines_of_two_texts<A>(a: Seq<A>, b: Seq<A>, lf: A, cr: A)
    ensures
        lines(a + seq![lf] + b, lf, cr) == lines(a + seq![lf], lf, cr) + lines(b, lf, cr),
    decreases a.len(),
{
    let t = a + seq![lf] + b;
    let u = a + seq![lf];
    let n = head_len(a, lf) as int;
    lemma_head_len(a, lf);
    assert forall|i: int| 0 <= i < n implies t[i] != lf && u[i] != lf by {
        assert(t[i] == a[i]);
        assert(u[i] == a[i]);
    }
    assert(t[n] == lf && u[n] == lf) by {
        if n < a.len() {
            assert(t[n] == a[n]);
            assert(u[n] == a[n]);
        }
    }
    lemma_head_len_is(t, lf, n);
    lemma_head_len_is(u, lf, n);
    assert(t.take(n) =~= u.take(n));
    if n < a.len() {
        let rest = a.skip(n + 1);
        lemma_lines_of_two_texts(rest, b, lf, cr);
        assert(t.skip(n + 1) =~= rest + seq![lf] + b);
        assert(u.skip(n + 1) =~= rest + seq![lf]);
    } else {
        assert(t.skip(n + 1) =~= b);
        assert(u.skip(n + 1) =~= seq![]);
        assert(lines(u.skip(n + 1), lf, cr) =~= seq![]);
    }
    assert(lines(u, lf, cr) == seq![chomp(u.take(n), cr)] + lines(u.skip(n + 1), lf, cr));
    assert(lines(t, lf, cr) == seq![chomp(t.take(n), cr)] + lines(t.skip(n + 1), lf, cr));
    assert(lines(t, lf, cr) =~= lines(u, lf, cr) + lines(b, lf, cr));
}

/// Reading two lists of lines in a row.
proof fn lemma_read_of_two(a: Seq<Seq<char>>, b: Seq<Seq<char>>)
    ensures
        (a + b).filter_map(line_reader()) == a.filter_map(line_reader()) + b.filter_map(
            line_reader(),
        ),
    decreases b.len(),
{
    if b.len() == 0 {
        assert(a + b =~= a);
        assert(a.filter_map(line_reader()) + b.filter_map(line_reader()) =~= a.filter_map(
            line_reader(),
        ));
    } else {
        lemma_read_of_two(a, b.drop_last());
        assert((a + b).drop_last() =~= a + b.drop_last());
        assert((a + b).filter_map(line_reader()) =~= a.filter_map(line_reader()) + b.filter_map(
            line_reader(),
        ));
    }
}

/// A path in which something, or nothing, follows the components of the first side of a firmlink
/// is found on the second side with the same behind it.
pub proof fn lemma_first_side_crosses(
    path: Seq<u8>,
    link: (Seq<u8>, Seq<u8>),
    rest: Seq<Seq<u8>>,
)
    requires
        link.0.len() > 0,
        components(path) == components(link.0) + rest,
    ensures
        other_side(path, link) matches Some(across) && components(across) == components(link.1)
            + rest,
{
    let n = components(link.0).len() as int;
    assert(components(path).subrange(0, n) =~= components(link.0));
    lemma_moved(path, link.0, link.1);
    assert(components(path).skip(n) =~= rest);
}

/// A path on the second side of a firmlink, and not on the first, is found on the first side
/// with the same behind it.
pub proof fn lemma_second_side_crosses(
    path: Seq<u8>,
    link: (Seq<u8>, Seq<u8>),
    rest: Seq<Seq<u8>>,
)
    requires
        link.1.len() > 0,
        components(path) == components(link.1) + rest,
        forall|other: Seq<Seq<u8>>| components(path) != #[trigger] (components(link.0) + other),
    ensures
        other_side(path, link) matches Some(across) && components(across) == components(link.0)
            + rest,
{
    let n = components(link.1).len() as int;
    lemma_starts_with_iff(path, link.0);
    assert(components(path).subrange(0, n) =~= components(link.1));
    lemma_moved(path, link.1, link.0);
    assert(components(path).skip(n) =~= rest);
}

/// A path on neither side of a firmlink has nothing across it.
pub proof fn lemma_no_side_crosses(path: Seq<u8>, link: (Seq<u8>, Seq<u8>))
    ensures
        other_side(path, link) is None <==> {
            &&& forall|rest: Seq<Seq<u8>>|
                components(path) != #[trigger] (components(link.0) + rest)
            &&& forall|rest: Seq<Seq<u8>>|
                components(path) != #[trigger] (components(link.1) + rest)
        },
{
    lemma_starts_with_iff(path, link.0);
    lemma_starts_with_iff(path, link.1);
}

/// Every path is on an empty side. An absolute path stays what it is, and any other is seen from
/// the other side, without the `.` that it may start with.
pub proof fn lemma_empty_side_crosses(path: Seq<u8>, side: Seq<u8>)
    ensures
        ({
            let none: Seq<u8> = seq![];
            let own = components(path);
            let behind = if own.len() > 0 && own[0] == seq![0x2eu8] {
                own.skip(1)
            } else {
                own
            };
            &&& other_side(path, (none, side)) matches Some(across) && components(across) == (
            if side.len() == 0 || (path.len() > 0 && path[0] == 0x2f) {
                own
            } else {
                components(side) + behind
            })
            &&& (forall|rest: Seq<Seq<u8>>| own != #[trigger] (components(side) + rest)) ==> (
            other_side(path, (side, none)) matches Some(across) && components(across) == (
            if side.len() == 0 || (path.len() > 0 && path[0] == 0x2f) {
                own
            } else {
                components(side) + behind
            }))
        }),
{
    let none: Seq<u8> = seq![];
    lemma_no_components(none);
    assert(components(path).subrange(0, 0) =~= components(none));
    lemma_starts_with_iff(path, side);
    let rest = remainder(path, 0);
    lemma_remainder(path, 0);
    lemma_same_components(path, rest);
    lemma_components_join(side, rest);
    lemma_lead_is_no_name(path);
    let own = components(path);
    if lead(path).len() > 0 {
        assert(own[0] == lead(path)[0]);
        assert(own.skip(1) =~= names(path));
    } else if own.len() > 0 {
        assert(own[0] == names(path)[0]);
        assert(own =~= names(path));
    } else {
        assert(own =~= names(path));
    }
}

/// The text across a firmlink is what is left of the path, joined to the other side.
pub proof fn lemma_other_side_text(path: Seq<u8>, link: (Seq<u8>, Seq<u8>))
    ensures
        starts_with(path, link.0) ==> strip_prefix(path, link.0) is Some && other_side(path, link)
            == Some(join(link.1, strip_prefix(path, link.0)->0)),
        !starts_with(path, link.0) && starts_with(path, link.1) ==> strip_prefix(
            path,
            link.1,
        ) is Some && other_side(path, link) == Some(join(link.0, strip_prefix(path, link.1)->0)),
{
}

/// Only components count in crossing a firmlink: those of the path, and those of the sides.
pub proof fn lemma_other_side_by_components(
    p: Seq<u8>,
    q: Seq<u8>,
    link: (Seq<u8>, Seq<u8>),
    same: (Seq<u8>, Seq<u8>),
)
    requires
        components(p) == components(q),
        components(link.0) == components(same.0),
        components(link.1) == components(same.1),
    ensures
        other_side(p, link) is Some <==> other_side(q, same) is Some,
        other_side(p, link) is Some ==> components(other_side(p, link)->0) == components(
            other_side(q, same)->0,
        ),
{
    if starts_with(p, link.0) {
        lemma_moved_by_components(p, q, link.0, link.1, same.1);
    } else if starts_with(p, link.1) {
        lemma_moved_by_components(p, q, link.1, link.0, same.0);
    }
}

/// Only components count in moving a path.
proof fn lemma_moved_by_components(
    p: Seq<u8>,
    q: Seq<u8>,
    from: Seq<u8>,
    to: Seq<u8>,
    same_to: Seq<u8>,
)
    requires
        components(p) == components(q),
        components(to) == components(same_to),
        starts_with(p, from),
    ensures
        components(join(to, remainder(p, components(from).len()))) == components(
            join(same_to, remainder(q, components(from).len())),
        ),
{
    let n = components(from).len();
    lemma_remainder(p, n);
    lemma_remainder(q, n);
    let (r, s) = (remainder(p, n), remainder(q, n));
    lemma_same_components(r, s);
    lemma_components_join(to, r);
    lemma_components_join(same_to, s);
    lemma_no_components(to);
    lemma_no_components(same_to);
}

/// Only components count in matching a path: however a path and the sides of the firmlinks are
/// written, with a `/` at the end or without, the same firmlinks match, and what they lead to is
/// the same path.
pub proof fn lemma_match_by_components(
    p: Seq<u8>,
    q: Seq<u8>,
    links: Seq<(Seq<u8>, Seq<u8>)>,
    same: Seq<(Seq<u8>, Seq<u8>)>,
)
    requires
        components(p) == components(q),
        links.len() == same.len(),
        forall|i: int|
            0 <= i < links.len() ==> components((#[trigger] links[i]).0) == components(same[i].0)
                && components(links[i].1) == components(same[i].1),
    ensures
        match_path(p, links) is Some <==> match_path(q, same) is Some,
        match_path(p, links) is Some ==> components(match_path(p, links)->0) == components(
            match_path(q, same)->0,
        ),
    decreases links.len(),
{
    if links.len() > 0 {
        lemma_other_side_by_components(p, q, links[0], same[0]);
        assert forall|i: int| 0 <= i < links.skip(1).len() implies components(
            (#[trigger] links.skip(1)[i]).0,
        ) == components(same.skip(1)[i].0) && components(links.skip(1)[i].1) == components(
            same.skip(1)[i].1,
        ) by {
            assert(links.skip(1)[i] == links[i + 1]);
        }
        lemma_match_by_components(p, q, links.skip(1), same.skip(1));
    }
}

/// Of two lists of firmlinks in a row, the first that matches a path decides; a list of one
/// firmlink matches as that does, and an empty one matches nothing.
pub proof fn lemma_match_in_order(
    path: Seq<u8>,
    a: Seq<(Seq<u8>, Seq<u8>)>,
    b: Seq<(Seq<u8>, Seq<u8>)>,
    link: (Seq<u8>, Seq<u8>),
)
    ensures
        match_path(path, seq![]) is None,
        match_path(path, seq![link]) == other_side(path, link),
        match_path(path, a) is Some ==> match_path(path, a + b) == match_path(path, a),
        match_path(path, a) is None ==> match_path(path, a + b) == match_path(path, b),
    decreases a.len(),
{
    let one = seq![link];
    assert(one[0] == link);
    assert(one.skip(1) =~= seq![]);
    assert(match_path(path, one.skip(1)) is None);
    if a.len() == 0 {
        assert(a + b =~= b);
    } else {
        lemma_match_in_order(path, a.skip(1), b, link);
        assert((a + b).skip(1) =~= a.skip(1) + b);
        assert((a + b)[0] == a[0]);
    }
}

/// A path that is itself on a side of a firmlink expands to the path across, whatever the
/// current directory is and whatever is said of its canonical form, and nothing is to be made
/// canonical for it.
pub proof fn lemma_matching_path_expands(
    path: Seq<u8>,
    links: Seq<(Seq<u8>, Seq<u8>)>,
    cwd: Option<Seq<u8>>,
    canonical: Option<Seq<u8>>,
)
    requires
        match_path(path, links) is Some,
    ensures
        to_canonicalize(path, links, cwd) is None,
        expansion(path, links, cwd, canonical) == match_path(path, links),
{
}

/// A path that is on no side, and has no canonical form or none that can be asked for, expands to
/// nothing. For a relative path without a current directory none can be asked for.
pub proof fn lemma_unresolved_path_stays(
    path: Seq<u8>,
    links: Seq<(Seq<u8>, Seq<u8>)>,
    cwd: Option<Seq<u8>>,
    canonical: Option<Seq<u8>>,
)
    requires
        match_path(path, links) is None,
    ensures
        expansion(path, links, cwd, None) is None,
        !(path.len() > 0 && path[0] == 0x2f) && cwd is None ==> to_canonicalize(
            path,
            links,
            cwd,
        ) is None && expansion(path, links, cwd, canonical) is None,
{
}

/// Two lists of paths in a row expand to what the one expands to, and then what the other does; a
/// single path expands to what it expands to, if to anything; and no path to none.
pub proof fn lemma_expansions_in_order(
    paths: Seq<Seq<u8>>,
    canonical: Seq<Option<Seq<u8>>>,
    more: Seq<Seq<u8>>,
    more_canonical: Seq<Option<Seq<u8>>>,
    path: Seq<u8>,
    resolved: Option<Seq<u8>>,
    links: Seq<(Seq<u8>, Seq<u8>)>,
    cwd: Option<Seq<u8>>,
)
    requires
        paths.len() == canonical.len(),
        more.len() == more_canonical.len(),
    ensures
        expansions(seq![], links, cwd, seq![]) == Seq::<Seq<u8>>::empty(),
        expansion(path, links, cwd, resolved) matches Some(e) ==> expansions(
            seq![path],
            links,
            cwd,
            seq![resolved],
        ) == seq![e],
        expansion(path, links, cwd, resolved) is None ==> expansions(
            seq![path],
            links,
            cwd,
            seq![resolved],
        ) == Seq::<Seq<u8>>::empty(),
        expansions(paths + more, links, cwd, canonical + more_canonical) == expansions(
            paths,
            links,
            cwd,
            canonical,
        ) + expansions(more, links, cwd, more_canonical),
{
    let none: Seq<Option<Seq<u8>>> = seq![];
    assert(expansion_of_each(seq![], links, cwd, none) =~= none);
    assert(none.filter_map(present()) =~= seq![]);
    let one = expansion_of_each(seq![path], links, cwd, seq![resolved]);
    assert(one =~= seq![expansion(path, links, cwd, resolved)]);
    Seq::lemma_filter_map_singleton(expansion(path, links, cwd, resolved), present());
    assert(expansions(seq![path], links, cwd, seq![resolved]) =~= match expansion(
        path,
        links,
        cwd,
        resolved,
    ) {
        Some(e) => seq![e],
        None => seq![],
    });
    let a = expansion_of_each(paths, links, cwd, canonical);
    let b = expansion_of_each(more, links, cwd, more_canonical);
    assert(expansion_of_each(paths + more, links, cwd, canonical + more_canonical) =~= a + b);
    lemma_present_of_two(a, b);
}

/// What is there in two lists in a row.
proof fn lemma_present_of_two(a: Seq<Option<Seq<u8>>>, b: Seq<Option<Seq<u8>>>)
    ensures
        (a + b).filter_map(present()) == a.filter_map(present()) + b.filter_map(present()),
    decreases b.len(),
{
    if b.len() == 0 {
        assert(a + b =~= a);
        assert(a.filter_map(present()) + b.filter_map(present()) =~= a.filter_map(present()));
    } else {
        lemma_present_of_two(a, b.drop_last());
        assert((a + b).drop_last() =~= a + b.drop_last());
        assert((a + b).filter_map(present()) =~= a.filter_map(present()) + b.filter_map(
            present(),
        ));
    }
}

/// For each path it is asked what is to be made canonical for it, and without a firmlinks file
/// nothing is.
pub proof fn lemma_requests(
    paths: Seq<Seq<u8>>,
    content: Option<Seq<char>>,
    cwd: Option<Seq<u8>>,
    i: int,
)
    requires
        0 <= i < paths.len(),
    ensures
        requests(paths, content, cwd).len() == paths.len(),
        content is None ==> requests(paths, content, cwd)[i] is None,
        content matches Some(text) ==> requests(paths, content, cwd)[i] == to_canonicalize(
            paths[i],
            link_table(text),
            cwd,
        ),
{
}

/// The text on which the second sides of firmlinks are written, with what the file writes behind
/// it.
proof fn lemma_on_data_volume(dst: Seq<char>)
    ensures
        is_absolute(encode_utf8(dst)) <==> dst.len() > 0 && dst[0] == '/',
        !is_absolute(encode_utf8(dst)) ==> join(encode_utf8(DATA_VOLUME@), encode_utf8(dst))
            == encode_utf8("/System/Volumes/Data/"@ + dst),
{
    if dst.len() > 0 {
        lemma_encode_ascii(dst[0], 0x2f);
        lemma_char_number(dst[0], '/');
        assert(encode_utf8(dst)[0] == encode_scalar(dst[0] as u32)[0]);
    }
    reveal_strlit("/System/Volumes/Data");
    reveal_strlit("/System/Volumes/Data/");
    assert("/System/Volumes/Data/"@ =~= DATA_VOLUME@ + seq!['/']);
    assert(is_ascii_chars(DATA_VOLUME@));
    is_ascii_chars_encode_utf8(DATA_VOLUME@);
    let volume = encode_utf8(DATA_VOLUME@);
    assert(DATA_VOLUME@[19] == 'a');
    assert(volume.last() != SEPARATOR);
    lemma_encode_add(DATA_VOLUME@, seq!['/']);
    lemma_encode_one('/');
    lemma_encode_ascii('/', 0x2f);
    lemma_encode_add("/System/Volumes/Data/"@, dst);
}

/// A line of two texts with a tab between them states the firmlink from the one to the other: the
/// first is a path as it stands, and so is the second if it starts with `/`; any other second is
/// a path on the data volume. A second tab and what follows it make no difference.
pub proof fn lemma_line_states_link(src: Seq<char>, dst: Seq<char>, more: Seq<char>)
    requires
        !src.contains('\t'),
        !dst.contains('\t'),
    ensures
        dst.len() > 0 && dst[0] == '/' ==> link_of_line(src + seq!['\t'] + dst) == Some(
            (encode_utf8(src), encode_utf8(dst)),
        ),
        !(dst.len() > 0 && dst[0] == '/') ==> link_of_line(src + seq!['\t'] + dst) == Some(
            (encode_utf8(src), encode_utf8("/System/Volumes/Data/"@ + dst)),
        ),
        link_of_line(src + seq!['\t'] + dst + seq!['\t'] + more) == link_of_line(
            src + seq!['\t'] + dst,
        ),
{
    lemma_on_data_volume(dst);
    lemma_split_whole(src, '\t');
    lemma_split_whole(dst, '\t');
    lemma_split_joined(src, '\t', dst);
    let line = src + seq!['\t'] + dst;
    assert(split(line, '\t') =~= seq![src, dst]);
    lemma_split_joined(line, '\t', more);
    lemma_split_pieces(more, '\t');
    let longer = split(line + seq!['\t'] + more, '\t');
    assert(longer[0] == src);
    assert(longer[1] == dst);
}

/// The components of the second side of a firmlink that is written relative to the data volume:
/// those of the volume, and then the ones that the text has at the root, but for the root.
pub proof fn lemma_second_side_components(src: Seq<char>, dst: Seq<char>)
    requires
        !src.contains('\t'),
        !dst.contains('\t'),
        !(dst.len() > 0 && dst[0] == '/'),
    ensures
        link_of_line(src + seq!['\t'] + dst) matches Some(link) && components(link.1)
            == components(encode_utf8("/System/Volumes/Data"@)) + components(
            seq![0x2fu8] + encode_utf8(dst),
        ).skip(1),
{
    lemma_line_states_link(src, dst, seq![]);
    lemma_on_data_volume(dst);
    lemma_data_volume_is_absolute();
    let volume = encode_utf8(DATA_VOLUME@);
    lemma_components_join(volume, encode_utf8(dst));
    let rooted = seq![0x2fu8] + encode_utf8(dst);
    lemma_names_of_body(rooted);
    assert(rooted.skip(1) =~= encode_utf8(dst));
    assert(components(rooted).skip(1) =~= names(encode_utf8(dst)));
}

/// A line states a firmlink if and only if there is a tab in it.
pub proof fn lemma_line_states_nothing(line: Seq<char>)
    ensures
        link_of_line(line) is None <==> !line.contains('\t'),
{
    lemma_split_pieces(line, '\t');
}

/// A line is read wherever it stands: at the start of a text, ended by a newline or by a carriage
/// return and a newline, before all that follows; and at the end of the text, where nothing ends
/// it. With [`lemma_line_states_link`] this says what is read from any text.
pub proof fn lemma_table_of_line(line: Seq<char>, rest: Seq<char>)
    requires
        !line.contains('\n'),
    ensures
        link_of_line(line) matches Some(link) ==> {
            &&& link_table(line) == seq![link]
            &&& line.len() > 0 && line.last() != '\r' ==> link_table(line + seq!['\n'] + rest)
                == seq![link] + link_table(rest)
            &&& link_table(line + seq!['\r'] + seq!['\n'] + rest) == seq![link] + link_table(rest)
        },
        link_of_line(line) is None ==> {
            &&& link_table(line) == Seq::<(Seq<u8>, Seq<u8>)>::empty()
            &&& line.len() == 0 || line.last() != '\r' ==> link_table(line + seq!['\n'] + rest)
                == link_table(rest)
            &&& link_table(line + seq!['\r'] + seq!['\n'] + rest) == link_table(rest)
        },
{
    let f = line_reader();
    lemma_lines_single(line, '\n', '\r');
    Seq::lemma_filter_map_singleton(line, f);
    assert(f(line) == link_of_line(line));
    let none: Seq<Seq<char>> = seq![];
    assert(none.filter_map(f) =~= seq![]);
    if line.len() == 0 {
        lemma_line_states_nothing(line);
    }
    lemma_table_of_two_texts(line, rest);
    lemma_table_of_two_texts(line + seq!['\r'], rest);
    if link_of_line(line) is None {
        assert(Seq::<(Seq<u8>, Seq<u8>)>::empty() + link_table(rest) =~= link_table(rest));
    }
}

/// A firmlink that is written to a file is read from it: for texts without a tab or a newline,
/// the first line gives the first firmlink of the table, and the rest of the text the others.
pub proof fn lemma_written_link_is_read(src: Seq<char>, dst: Seq<char>, rest: Seq<char>)
    requires
        !src.contains('\t'),
        !src.contains('\n'),
        !dst.contains('\t'),
        !dst.contains('\n'),
        !dst.contains('\r'),
    ensures
        dst.len() > 0 && dst[0] == '/' ==> link_table(
            src + seq!['\t'] + dst + seq!['\n'] + rest,
        ) == seq![(encode_utf8(src), encode_utf8(dst))] + link_table(rest),
        !(dst.len() > 0 && dst[0] == '/') ==> link_table(
            src + seq!['\t'] + dst + seq!['\n'] + rest,
        ) == seq![(encode_utf8(src), encode_utf8("/System/Volumes/Data/"@ + dst))] + link_table(
            rest,
        ),
{
    let line = src + seq!['\t'] + dst;
    assert(!line.contains('\n')) by {
        if line.contains('\n') {
            let i = line.index_of('\n');
            if i < src.len() {
                assert(src[i] == '\n');
            } else if i > src.len() {
                assert(dst[i - src.len() - 1] == '\n');
            }
        }
    }
    assert(line.last() != '\r') by {
        if dst.len() > 0 {
            assert(dst.contains(dst.last()));
            assert(line.last() == dst.last());
        } else {
            assert(line.last() == '\t');
        }
    }
    lemma_line_states_link(src, dst, seq![]);
    lemma_table_of_line(line, rest);
}

/// The views of lists and of options look at each path where it stands.
pub proof fn lemma_path_views(
    links: Seq<(PathBuf, PathBuf)>,
    paths: Seq<PathBuf>,
    asked: Seq<Option<PathBuf>>,
    path: PathBuf,
    text: String,
)
    ensures
        link_views(links).len() == links.len(),
        forall|i: int|
            0 <= i < links.len() ==> #[trigger] link_views(links)[i] == (links[i].0@, links[i].1@),
        path_views(paths).len() == paths.len(),
        forall|i: int| 0 <= i < paths.len() ==> #[trigger] path_views(paths)[i] == paths[i]@,
        option_views(asked).len() == asked.len(),
        forall|i: int|
            0 <= i < asked.len() ==> (#[trigger] option_views(asked)[i] is Some <==> asked[i] is Some),
        forall|i: int|
            0 <= i < asked.len() && asked[i] is Some ==> #[trigger] option_views(asked)[i] == Some(
                asked[i]->0@,
            ),
        option_view(Some(path)) == Some(path@),
        option_view(None) is None,
        ref_view(Some(&path)) == Some(path@),
        ref_view(None) is None,
        content_view(Some(text)) == Some(text@),
        content_view(None) is None,
{
}

} // verus!
