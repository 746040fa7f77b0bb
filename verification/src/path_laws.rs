//! What holds of paths, said of their texts.

use vstd::prelude::*;
use vstd::std_specs::cmp::PartialEqSpec;
use crate::firmlink_laws::lemma_same_components;
use crate::path::PathBuf;
use crate::path::{components, drop_names, is_absolute, is_name, join, last_start, lead, names};
use crate::path::{remainder, starts_with, strip_prefix, trim_left, trim_right};
use crate::path::{lemma_components_join, lemma_cut, lemma_drop_names, lemma_last_start};
use crate::path::{lemma_names_empty, lemma_names_joined, lemma_names_of_body, lemma_names_step};
use crate::path::{lemma_no_components, lemma_remainder};
use crate::path::{lemma_trim_left, lemma_trim_right};
use crate::path::{DOT, SEPARATOR};
use crate::text::{head_len, lemma_head_len, lemma_head_len_is, lemma_split_whole};

verus! {

/// The components of a text without `/`, and of one that has a single `/`, at its start: every
/// text but the empty one is a component, the root is written `/`, and after it neither nothing
/// nor `.` is a component.
pub proof fn lemma_components_of_piece(piece: Seq<u8>)
    requires
        !piece.contains(0x2f),
    ensures
        piece.len() == 0 ==> components(piece) == Seq::<Seq<u8>>::empty(),
        piece.len() > 0 ==> components(piece) == seq![piece],
        piece.len() == 0 || piece == seq![0x2eu8] ==> components(seq![0x2fu8] + piece) == seq![
            seq![0x2fu8],
        ],
        piece.len() > 0 && piece != seq![0x2eu8] ==> components(seq![0x2fu8] + piece) == seq![
            seq![0x2fu8],
            piece,
        ],
{
    lemma_piece(piece);
    lemma_rooted(piece);
    let root: Seq<Seq<u8>> = seq![seq![0x2fu8]];
    if is_name(piece) {
        assert(root + seq![piece] =~= seq![seq![0x2fu8], piece]);
    } else {
        assert(root + seq![] =~= root);
    }
}

/// The names and the components of a text without `/`.
proof fn lemma_piece(piece: Seq<u8>)
    requires
        !piece.contains(SEPARATOR),
    ensures
        is_name(piece) ==> names(piece) == seq![piece] && components(piece) == seq![piece],
        !is_name(piece) ==> names(piece) == Seq::<Seq<u8>>::empty(),
        piece.len() == 0 ==> components(piece) == Seq::<Seq<u8>>::empty(),
        piece == seq![DOT] ==> components(piece) == seq![piece],
{
    let n = piece.len() as int;
    lemma_split_whole(piece, SEPARATOR);
    lemma_head_len_is(piece, SEPARATOR, n);
    lemma_names_step(piece);
    assert(piece.take(n) =~= piece);
    if n > 0 {
        assert(piece.contains(piece[0]));
    }
    assert(components(piece) =~= lead(piece) + names(piece));
    if piece == seq![DOT] {
        assert(components(piece) =~= seq![piece]);
    } else {
        assert(lead(piece) =~= seq![]);
        assert(components(piece) =~= names(piece));
    }
}

/// The components of a path at the root.
proof fn lemma_rooted(t: Seq<u8>)
    ensures
        components(seq![SEPARATOR] + t) == seq![seq![SEPARATOR]] + names(t),
{
    let rooted = seq![SEPARATOR] + t;
    assert(rooted[0] == SEPARATOR);
    lemma_names_of_body(rooted);
    assert(rooted.skip(1) =~= t);
}

/// What stands behind a `/` adds the components to a path that it has at the root. With
/// [`lemma_components_of_piece`] this says what the components of any text are.
pub proof fn lemma_components_in_a_row(a: Seq<u8>, b: Seq<u8>)
    requires
        a.len() > 0,
    ensures
        components(a + seq![0x2fu8] + b) == components(a) + components(seq![0x2fu8] + b).skip(1),
{
    let rooted = seq![0x2fu8] + b;
    lemma_names_of_body(rooted);
    assert(rooted.skip(1) =~= b);
    assert(components(rooted).skip(1) =~= names(b));
    let t = a + seq![0x2fu8] + b;
    lemma_names_joined(a, b);
    assert(t[0] == a[0]);
    lemma_cut(t, a.len() as int);
    assert(t.take(a.len() as int) =~= a);
    assert(lead(t) == lead(a));
    assert(components(t) =~= components(a) + names(b));
}

/// A `/` at the end of a path makes no difference, however many there are, and nor does a `.`
/// behind one; a second `/` between components makes none either.
pub proof fn lemma_separators_that_do_not_count(p: Seq<u8>, q: Seq<u8>)
    requires
        p.len() > 0,
    ensures
        components(p + seq![0x2fu8]) == components(p),
        components(p + seq![0x2fu8] + seq![0x2eu8]) == components(p),
        components(p + seq![0x2fu8] + seq![0x2fu8] + q) == components(p + seq![0x2fu8] + q),
{
    let none: Seq<u8> = seq![];
    let here: Seq<u8> = seq![0x2eu8];
    lemma_components_of_piece(none);
    assert(here[0] != 0x2f);
    lemma_components_of_piece(here);
    lemma_components_in_a_row(p, none);
    assert(p + seq![0x2fu8] + none =~= p + seq![0x2fu8]);
    assert(components(seq![0x2fu8] + none).skip(1) =~= seq![]);
    assert(components(p) + seq![] =~= components(p));
    lemma_components_in_a_row(p, here);
    assert(components(seq![0x2fu8] + here).skip(1) =~= seq![]);
    lemma_components_in_a_row(p, q);
    lemma_components_in_a_row(p + seq![0x2fu8], q);
}

/// A path starts with another if and only if the components of the other are followed by some
/// components, or by none, in its own.
pub proof fn lemma_starts_with_iff(p: Seq<u8>, base: Seq<u8>)
    ensures
        starts_with(p, base) <==> exists|rest: Seq<Seq<u8>>|
            components(p) == #[trigger] (components(base) + rest),
{
    let n = components(base).len() as int;
    if starts_with(p, base) {
        let rest = components(p).skip(n);
        assert(components(p) =~= components(base) + rest);
    }
    if exists|rest: Seq<Seq<u8>>| components(p) == #[trigger] (components(base) + rest) {
        let rest = choose|rest: Seq<Seq<u8>>|
            components(p) == #[trigger] (components(base) + rest);
        assert(components(p).subrange(0, n) =~= components(base));
    }
}

/// Only the components count in whether a path starts with another.
pub proof fn lemma_starts_with_by_components(
    p: Seq<u8>,
    q: Seq<u8>,
    base: Seq<u8>,
    other_base: Seq<u8>,
)
    requires
        components(p) == components(q),
        components(base) == components(other_base),
    ensures
        starts_with(p, base) == starts_with(q, other_base),
{
}

/// A path starts with itself, with what it starts with starts with, and with the path that
/// another was joined to.
pub proof fn lemma_starts_with_order(p: Seq<u8>, q: Seq<u8>, r: Seq<u8>)
    ensures
        starts_with(p, p),
        starts_with(p, seq![]),
        starts_with(p, q) && starts_with(q, r) ==> starts_with(p, r),
        starts_with(p, q) && starts_with(q, p) ==> components(p) == components(q),
        !(q.len() > 0 && q[0] == 0x2f) ==> p.len() > 0 ==> starts_with(join(p, q), p),
{
    let none: Seq<u8> = seq![];
    lemma_no_components(none);
    assert(components(none) =~= components(p).subrange(0, 0));
    assert(components(p).subrange(0, components(p).len() as int) =~= components(p));
    if starts_with(p, q) && starts_with(q, r) {
        let n = components(r).len() as int;
        assert(components(p).subrange(0, n) =~= components(p).subrange(
            0,
            components(q).len() as int,
        ).subrange(0, n));
    }
    lemma_components_join(p, q);
    if !is_absolute(q) && p.len() > 0 {
        assert((components(p) + names(q)).subrange(0, components(p).len() as int) =~= components(
            p,
        ));
    }
}

/// A path is absolute if and only if its text starts with `/`, which is if and only if its
/// components do.
pub proof fn lemma_absolute_iff(p: Seq<u8>)
    ensures
        is_absolute(p) <==> p.len() > 0 && p[0] == 0x2f,
        is_absolute(p) <==> components(p).len() > 0 && components(p)[0] == seq![0x2fu8],
{
    let root = seq![0x2fu8];
    if !is_absolute(p) && components(p).len() > 0 && components(p)[0] == root {
        crate::firmlink_laws::lemma_lead_is_no_name(p);
        let here: Seq<u8> = seq![DOT];
        assert(here[0] != root[0]);
        if lead(p).len() > 0 {
            assert(components(p)[0] == here);
        } else {
            assert(components(p)[0] == names(p)[0]);
        }
    }
}

/// The text of a joined path: an absolute path replaces what it is joined to. Any other is
/// written behind it, with one `/` between them, unless there is nothing in front or a `/` at
/// its end.
pub proof fn lemma_join_text(base: Seq<u8>, path: Seq<u8>)
    ensures
        path.len() > 0 && path[0] == 0x2f ==> join(base, path) == path,
        base.len() == 0 ==> join(base, path) == path,
        !(path.len() > 0 && path[0] == 0x2f) && base.len() > 0 && base.last() == 0x2f ==> join(
            base,
            path,
        ) == base + path,
        !(path.len() > 0 && path[0] == 0x2f) && base.len() > 0 && base.last() != 0x2f ==> join(
            base,
            path,
        ) == base + seq![0x2fu8] + path,
{
    if base.len() == 0 {
        assert(base + path =~= path);
    }
}

/// The components of a joined path, for a relative path with no `.` at its start: those of the
/// path that it is joined to, and then its own.
pub proof fn lemma_join_adds_components(base: Seq<u8>, path: Seq<u8>)
    requires
        path.len() > 0 ==> components(path)[0] != seq![0x2fu8] && components(path)[0] != seq![
            0x2eu8,
        ],
    ensures
        components(join(base, path)) == components(base) + components(path),
{
    lemma_no_components(path);
    lemma_no_components(base);
    lemma_components_join(base, path);
    assert(lead(path).len() == 0) by {
        if lead(path).len() > 0 {
            assert(components(path)[0] == lead(path)[0]);
        }
    }
    assert(components(path) =~= names(path));
    if base.len() == 0 {
        assert(components(base) + components(path) =~= components(path));
    }
}

/// What is left of a path is a part of its text. It stands behind the components of the prefix
/// and reaches to the last component, and it begins and ends with a component: nothing that does
/// not count is kept at its ends. Together the prefix and the rest have the components of the
/// path.
pub proof fn lemma_strip_prefix_text(p: Seq<u8>, base: Seq<u8>)
    ensures
        strip_prefix(p, base) is Some <==> starts_with(p, base),
        strip_prefix(p, base) matches Some(rest) ==> {
            &&& components(base) + components(rest) == components(p)
            &&& exists|i: int, j: int|
                {
                    &&& 0 <= i <= j <= p.len()
                    &&& rest == #[trigger] p.subrange(i, j)
                    &&& components(p.take(i)) == components(base)
                    &&& components(p.take(j)) == components(p)
                }
            &&& rest.len() > 0 ==> components(rest).first().is_prefix_of(rest)
            &&& rest.len() > 0 ==> components(rest).last().is_suffix_of(rest)
        },
{
    if starts_with(p, base) {
        let n = components(base).len();
        lemma_remainder(p, n);
        lemma_no_components(base);
        if n == 0 {
            assert(components(base) + components(p) =~= components(p));
            lemma_whole_path_text(p);
            let rest = remainder(p, 0);
            assert(rest == p.subrange(0, rest.len() as int));
            assert(p.take(0) =~= seq![]);
            lemma_no_components(p.take(0));
            assert(components(p.take(0)) =~= components(base));
            assert(p.take(rest.len() as int) =~= rest);
        } else {
            assert(components(base) + components(p).skip(n as int) =~= components(p));
            assert(components(base) =~= components(p).take(n as int));
            let i = lemma_rest_of_path_text(p, n);
        }
    }
}

/// The last piece of a text is its last name, if it is a name.
proof fn lemma_last_name(t: Seq<u8>)
    requires
        is_name(t.skip(last_start(t) as int)),
    ensures
        names(t).len() > 0,
        names(t).last() == t.skip(last_start(t) as int),
{
    lemma_last_start(t);
    let i = last_start(t) as int;
    let piece = t.skip(i);
    assert(!piece.contains(SEPARATOR));
    lemma_piece(piece);
    if i > 0 {
        let a = t.take(i - 1);
        assert(t =~= a + seq![SEPARATOR] + piece);
        lemma_names_joined(a, piece);
    } else {
        assert(t =~= piece);
    }
}

/// What `trim_right` leaves ends with a name.
proof fn lemma_trimmed_end(t: Seq<u8>)
    ensures
        trim_right(t).len() > 0 ==> is_name(trim_right(t).skip(last_start(trim_right(t)) as int)),
    decreases t.len(),
{
    reveal(trim_right);
    lemma_last_start(t);
    let i = last_start(t) as int;
    if !is_name(t.skip(i)) && i > 0 {
        lemma_trimmed_end(t.take(i - 1));
    }
}

/// A text that ends with a name ends with the last of its components.
proof fn lemma_ends_with_component(t: Seq<u8>)
    requires
        is_name(t.skip(last_start(t) as int)),
    ensures
        components(t).last().is_suffix_of(t),
{
    lemma_last_start(t);
    lemma_last_name(t);
    let piece = t.skip(last_start(t) as int);
    assert(components(t).last() == piece);
    assert(t.subrange(t.len() - piece.len(), t.len() as int) =~= piece);
}

/// A text that starts with a name starts with the first of its components.
proof fn lemma_starts_with_component(t: Seq<u8>)
    requires
        is_name(t.take(head_len(t, SEPARATOR) as int)),
    ensures
        components(t).len() > 0,
        components(t).first().is_prefix_of(t),
{
    lemma_names_step(t);
    lemma_head_len(t, SEPARATOR);
    let n = head_len(t, SEPARATOR) as int;
    assert(t.take(n).len() > 0);
    assert(lead(t).len() == 0);
    assert(components(t)[0] == t.take(n));
    assert(t.subrange(0, n) =~= t.take(n));
}

/// A path whose text was cut behind a component or behind its lead still ends with that
/// component, and starts as it did.
proof fn lemma_whole_path_text(p: Seq<u8>)
    ensures
        ({
            let rest = remainder(p, 0);
            &&& rest.len() <= p.len()
            &&& rest == p.subrange(0, rest.len() as int)
            &&& rest.len() > 0 ==> components(rest).first().is_prefix_of(rest)
            &&& rest.len() > 0 ==> components(rest).last().is_suffix_of(rest)
        }),
{
    let l = lead(p).len() as int;
    lemma_names_of_body(p);
    let body = p.skip(l);
    let kept = trim_right(body);
    lemma_trim_right(body);
    lemma_trimmed_end(body);
    lemma_remainder(p, 0);
    let rest = remainder(p, 0);
    assert(rest =~= p.subrange(0, rest.len() as int)) by {
        assert(kept =~= body.take(kept.len() as int));
    }
    lemma_same_components(p, rest);
    if rest.len() > 0 {
        lemma_names_step(rest);
        lemma_names_step(p);
        lemma_head_len(rest, SEPARATOR);
        if l == 1 {
            assert(lead(p)[0] =~= rest.subrange(0, 1)) by {
                if !is_absolute(p) {
                    assert(p.take(head_len(p, SEPARATOR) as int)[0] == p[0]);
                }
            }
        } else {
            let n = head_len(rest, SEPARATOR) as int;
            assert(n > 0);
            assert(rest.take(n).len() > 0);
            lemma_starts_with_component(rest);
        }
        if kept.len() > 0 {
            lemma_last_name(kept);
            let piece = kept.skip(last_start(kept) as int);
            lemma_last_start(kept);
            assert(names(rest) == names(kept));
            assert(components(rest).last() == piece);
            assert(rest.subrange(rest.len() - piece.len(), rest.len() as int) =~= piece);
        } else {
            assert(l == 1);
            assert(names(rest) == names(kept));
            assert(kept =~= seq![]);
            lemma_names_empty();
            assert(components(rest) =~= lead(p));
            assert(rest.subrange(0, rest.len() as int) =~= rest);
        }
    }
}

/// Where `trim_left` cuts.
proof fn lemma_trim_left_at(t: Seq<u8>) -> (y: int)
    ensures
        0 <= y <= t.len(),
        trim_left(t) == t.skip(y),
        0 < y < t.len() ==> t[y - 1] == SEPARATOR,
    decreases t.len(),
{
    reveal(trim_left);
    lemma_head_len(t, SEPARATOR);
    let n = head_len(t, SEPARATOR) as int;
    if is_name(t.take(n)) {
        assert(t.skip(0) =~= t);
        0
    } else if n < t.len() {
        let rest = t.skip(n + 1);
        let z = lemma_trim_left_at(rest);
        assert(t.skip(n + 1 + z) =~= rest.skip(z));
        if z > 0 && n + 1 + z < t.len() {
            assert(t[n + z] == rest[z - 1]);
        }
        n + 1 + z
    } else {
        assert(t.skip(t.len() as int) =~= seq![]);
        t.len() as int
    }
}

/// Where `drop_names` cuts.
proof fn lemma_drop_names_at(t: Seq<u8>, k: nat) -> (x: int)
    ensures
        0 <= x <= t.len(),
        drop_names(t, k) == t.skip(x),
        0 < x < t.len() ==> t[x - 1] == SEPARATOR,
    decreases k,
{
    reveal(drop_names);
    if k == 0 {
        assert(t.skip(0) =~= t);
        0
    } else {
        let y = lemma_trim_left_at(t);
        let u = trim_left(t);
        lemma_head_len(u, SEPARATOR);
        let n = head_len(u, SEPARATOR) as int;
        if n < u.len() {
            let rest = u.skip(n + 1);
            let z = lemma_drop_names_at(rest, (k - 1) as nat);
            assert(t.skip(y + n + 1 + z) =~= rest.skip(z));
            assert(u[n] == t[y + n]);
            if z > 0 && y + n + 1 + z < t.len() {
                assert(t[y + n + z] == rest[z - 1]);
            }
            y + n + 1 + z
        } else {
            assert(t.skip(t.len() as int) =~= seq![]);
            t.len() as int
        }
    }
}

/// Where the text that is left of a path after some components starts.
proof fn lemma_rest_start(p: Seq<u8>, n: nat) -> (i: int)
    requires
        0 < n <= components(p).len(),
    ensures
        0 <= i <= p.len(),
        trim_left(drop_names(p.skip(lead(p).len() as int), (n - lead(p).len()) as nat)) == p.skip(i),
        names(p.skip(i)) == components(p).skip(n as int),
        i < p.len() ==> i > 0 && p[i - 1] == SEPARATOR && is_name(
            p.skip(i).take(head_len(p.skip(i), SEPARATOR) as int),
        ),
{
    let l = lead(p).len() as int;
    lemma_names_of_body(p);
    let body = p.skip(l);
    let k = (n - l) as nat;
    let d = drop_names(body, k);
    let x = lemma_drop_names_at(body, k);
    let y = lemma_trim_left_at(d);
    let u = trim_left(d);
    let i = l + x + y;
    assert(u =~= p.skip(i));
    lemma_trim_left(d);
    lemma_drop_names(body, k);
    assert(components(p).skip(n as int) =~= names(p).skip(k as int));
    if i < p.len() {
        if x + y == 0 {
            lemma_only_lead_dropped(p, n);
        } else if y == 0 {
            assert(body[x - 1] == p[i - 1]);
        } else {
            assert(d[y - 1] == p[i - 1]);
        }
    }
    i
}

/// If a name follows the lead of a path at once, the lead is the root, or nothing.
proof fn lemma_only_lead_dropped(p: Seq<u8>, n: nat)
    requires
        0 < n <= components(p).len(),
        lead(p).len() < p.len(),
        names(p.skip(lead(p).len() as int)) == components(p).skip(n as int),
        is_name(
            p.skip(lead(p).len() as int).take(
                head_len(p.skip(lead(p).len() as int), SEPARATOR) as int,
            ),
        ),
    ensures
        is_absolute(p),
        lead(p).len() == 1,
{
    lemma_names_of_body(p);
    let l = lead(p).len() as int;
    let u = p.skip(l);
    assert(components(p).skip(n as int).len() == components(p).len() - n);
    assert(l == 1);
    if !is_absolute(p) {
        lemma_names_step(p);
        lemma_head_len(p, SEPARATOR);
        assert(p.take(head_len(p, SEPARATOR) as int).len() == 1);
        assert(u[0] == p[1]);
        lemma_head_len_is(u, SEPARATOR, 0);
        assert(u.take(0).len() == 0);
    }
}

/// Up to its last name, a path has all of its components.
proof fn lemma_rest_end(p: Seq<u8>, i: int)
    requires
        0 < i < p.len(),
        p[i - 1] == SEPARATOR,
        is_name(p.skip(i).take(head_len(p.skip(i), SEPARATOR) as int)),
    ensures
        0 < trim_right(p.skip(i)).len() <= p.len() - i,
        components(p.take(i + trim_right(p.skip(i)).len())) == components(p),
{
    let u = p.skip(i);
    let rest = trim_right(u);
    lemma_trim_right(u);
    lemma_names_step(u);
    if rest.len() == 0 {
        assert(rest =~= seq![]);
        lemma_names_empty();
    }
    let j = i + rest.len();
    if rest.len() < u.len() {
        assert(p[j] == u[rest.len() as int]);
        let tail = p.skip(j + 1);
        assert(u =~= rest + seq![SEPARATOR] + tail);
        lemma_names_joined(rest, tail);
        assert(names(tail).len() == 0);
        lemma_components_before(p, j + 1);
        assert(p.take(j + 1) =~= p.take(j) + seq![SEPARATOR]);
        lemma_separators_that_do_not_count(p.take(j), tail);
        assert(components(p.take(j)) + names(tail) =~= components(p.take(j)));
    } else {
        assert(p.take(j) =~= p);
    }
}

/// Where the text that is left of a path after some components starts, and how it ends.
proof fn lemma_rest_of_path_text(p: Seq<u8>, n: nat) -> (i: int)
    requires
        0 < n <= components(p).len(),
    ensures
        ({
            let rest = remainder(p, n);
            &&& 0 <= i <= i + rest.len() <= p.len()
            &&& rest == p.subrange(i, i + rest.len())
            &&& components(p.take(i)) == components(p).take(n as int)
            &&& components(p.take(i + rest.len())) == components(p)
            &&& rest.len() > 0 ==> components(rest).first().is_prefix_of(rest)
            &&& rest.len() > 0 ==> components(rest).last().is_suffix_of(rest)
        }),
{
    let i = lemma_rest_start(p, n);
    let u = p.skip(i);
    let rest = remainder(p, n);
    assert(rest == trim_right(u));
    lemma_trim_right(u);
    assert(rest =~= p.subrange(i, i + rest.len()));
    if i == p.len() {
        assert(u =~= seq![]);
        lemma_names_empty();
        assert(p.take(i) =~= p);
        assert(components(p).take(n as int) =~= components(p));
    } else {
        lemma_rest_end(p, i);
        lemma_components_before(p, i);
        assert(components(p.take(i)) =~= components(p).take(n as int));
        lemma_rest_is_tight(u);
    }
    i
}

/// A text that starts with a name, up to its last one, starts and ends with a component.
proof fn lemma_rest_is_tight(u: Seq<u8>)
    requires
        is_name(u.take(head_len(u, SEPARATOR) as int)),
        trim_right(u).len() > 0,
    ensures
        components(trim_right(u)).first().is_prefix_of(trim_right(u)),
        components(trim_right(u)).last().is_suffix_of(trim_right(u)),
{
    let rest = trim_right(u);
    lemma_trim_right(u);
    lemma_trimmed_end(u);
    lemma_cut(u, rest.len() as int);
    lemma_names_step(u);
    lemma_names_step(rest);
    lemma_starts_with_component(rest);
    lemma_ends_with_component(rest);
}

/// What stands behind a separator adds its names to the components of what stands before it.
proof fn lemma_components_before(p: Seq<u8>, i: int)
    requires
        0 < i <= p.len(),
        p[i - 1] == SEPARATOR,
    ensures
        components(p) == components(p.take(i)) + names(p.skip(i)),
{
    let a = p.take(i - 1);
    let tail = p.skip(i);
    let none: Seq<u8> = seq![];
    lemma_names_empty();
    lemma_rooted(tail);
    lemma_rooted(none);
    if a.len() > 0 {
        lemma_components_in_a_row(a, tail);
        lemma_components_in_a_row(a, none);
        assert(p =~= a + seq![SEPARATOR] + tail);
        assert(p.take(i) =~= a + seq![SEPARATOR] + none);
        assert((seq![seq![SEPARATOR]] + names(tail)).skip(1) =~= names(tail));
        assert((seq![seq![SEPARATOR]] + names(none)).skip(1) =~= seq![]);
        assert(components(p) =~= components(p.take(i)) + names(tail));
    } else {
        assert(p =~= seq![SEPARATOR] + tail);
        assert(p.take(i) =~= seq![SEPARATOR] + none);
        assert(components(p) =~= components(p.take(i)) + names(tail));
    }
}

/// Two paths are equal if and only if they have the same components, and `==` tells so.
pub proof fn lemma_equal_iff(p: PathBuf, q: PathBuf)
    ensures
        PathBuf::obeys_eq_spec(),
        p.eq_spec(&q) <==> components(p@) == components(q@),
{
}

} // verus!
