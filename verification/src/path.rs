//! Paths as Unix systems write them: any bytes, with `/` between the components.
//!
//! Two paths are the same where they have the same components: repeated and trailing
//! separators do not count, nor does a `.`, except at the start of a relative path.

use vstd::prelude::*;
use vstd::slice::{slice_subrange, slice_to_vec};
use vstd::utf8::encode_utf8;
use crate::text::{find_from, split_at_each};
use crate::text::{head_len, split, views};
use crate::text::{lemma_head_len, lemma_head_len_is, lemma_split_joined, lemma_split_step};

verus! {

/// `/`, which stands between components, and for the root at the start of a path.
pub const SEPARATOR: u8 = 0x2f;

/// `.`, which alone stands for the current directory.
pub const DOT: u8 = 0x2e;

/// The path starts at the root.
pub open spec fn is_absolute(p: Seq<u8>) -> bool {
    p.len() > 0 && p[0] == SEPARATOR
}

/// What stands between two separators is a component, unless it is empty or `.`.
pub open spec fn is_name(piece: Seq<u8>) -> bool {
    piece.len() > 0 && piece != seq![DOT]
}

/// [`is_name`] as a function value.
pub open spec fn named() -> spec_fn(Seq<u8>) -> bool {
    |piece: Seq<u8>| is_name(piece)
}

/// The pieces of `t` that are components.
pub open spec fn names(t: Seq<u8>) -> Seq<Seq<u8>> {
    split(t, SEPARATOR).filter(named())
}

/// What a path has before its names: the root, written `/`; or the current directory,
/// written `.`, where a relative path starts with it; or nothing.
pub open spec fn lead(p: Seq<u8>) -> Seq<Seq<u8>> {
    if is_absolute(p) {
        seq![seq![SEPARATOR]]
    } else if split(p, SEPARATOR)[0] == seq![DOT] {
        seq![seq![DOT]]
    } else {
        seq![]
    }
}

/// The components of a path.
pub open spec fn components(p: Seq<u8>) -> Seq<Seq<u8>> {
    lead(p) + names(p)
}

/// The first components of `p` are those of `base`.
pub open spec fn starts_with(p: Seq<u8>, base: Seq<u8>) -> bool {
    components(base).is_prefix_of(components(p))
}

/// `path` as seen from `base`: an absolute path stays what it is, any other is written after
/// `base`, with a separator between them where `base` does not end in one.
pub open spec fn join(base: Seq<u8>, path: Seq<u8>) -> Seq<u8> {
    if is_absolute(path) {
        path
    } else if base.len() > 0 && base.last() != SEPARATOR {
        base + seq![SEPARATOR] + path
    } else {
        base + path
    }
}

/// `t` from its first name on.
#[verifier::opaque]
pub open spec fn trim_left(t: Seq<u8>) -> Seq<u8>
    decreases t.len(),
{
    let n = head_len(t, SEPARATOR) as int;
    if is_name(t.take(n)) {
        t
    } else if n < t.len() {
        trim_left(t.skip(n + 1))
    } else {
        seq![]
    }
}

/// Where the last piece of `t` starts.
#[verifier::opaque]
pub open spec fn last_start(t: Seq<u8>) -> nat
    decreases t.len(),
{
    if t.len() == 0 || t.last() == SEPARATOR {
        t.len()
    } else {
        last_start(t.drop_last())
    }
}

/// `t` up to its last name.
#[verifier::opaque]
pub open spec fn trim_right(t: Seq<u8>) -> Seq<u8>
    decreases t.len(),
{
    let i = last_start(t) as int;
    if is_name(t.skip(i)) {
        t
    } else if 0 < i <= t.len() {
        trim_right(t.take(i - 1))
    } else {
        seq![]
    }
}

/// `t` after its first `k` names.
#[verifier::opaque]
pub open spec fn drop_names(t: Seq<u8>, k: nat) -> Seq<u8>
    decreases k,
{
    if k == 0 {
        t
    } else {
        let u = trim_left(t);
        let n = head_len(u, SEPARATOR) as int;
        if n < u.len() {
            drop_names(u.skip(n + 1), (k - 1) as nat)
        } else {
            seq![]
        }
    }
}

/// What is left of `p` after its first `n` components: from the next name to the last one, as
/// `p` writes them. With `n` zero the start of `p` stays as it is.
pub open spec fn remainder(p: Seq<u8>, n: nat) -> Seq<u8> {
    let l = lead(p).len();
    if n == 0 {
        p.take(l as int) + trim_right(p.skip(l as int))
    } else {
        trim_right(trim_left(drop_names(p.skip(l as int), (n - l) as nat)))
    }
}

/// `p` seen from `base`, for a `base` that `p` starts with.
pub open spec fn strip_prefix(p: Seq<u8>, base: Seq<u8>) -> Option<Seq<u8>> {
    if starts_with(p, base) {
        Some(remainder(p, components(base).len()))
    } else {
        None
    }
}

/// A text without a separator is its only piece; any other starts with the piece before its
/// first separator.
pub proof fn lemma_names_step(t: Seq<u8>)
    ensures
        head_len(t, SEPARATOR) <= t.len(),
        ({
            let n = head_len(t, SEPARATOR) as int;
            let head: Seq<Seq<u8>> = if is_name(t.take(n)) {
                seq![t.take(n)]
            } else {
                seq![]
            };
            names(t) == if n < t.len() {
                head + names(t.skip(n + 1))
            } else {
                head
            }
        }),
        split(t, SEPARATOR)[0] == t.take(head_len(t, SEPARATOR) as int),
{
    lemma_split_step(t, SEPARATOR);
    let n = head_len(t, SEPARATOR) as int;
    let rest: Seq<Seq<u8>> = if n < t.len() {
        split(t.skip(n + 1), SEPARATOR)
    } else {
        seq![]
    };
    if n == t.len() {
        assert(t.take(n) =~= t);
        assert(rest.filter(named()) =~= seq![]) by {
            reveal(Seq::filter);
        }
    }
    assert(split(t, SEPARATOR) =~= seq![t.take(n)] + rest);
    rest.lemma_filter_prepend(t.take(n), named());
    assert(names(t) =~= if n < t.len() {
        (if is_name(t.take(n)) {
            seq![t.take(n)]
        } else {
            seq![]
        }) + names(t.skip(n + 1))
    } else {
        if is_name(t.take(n)) {
            seq![t.take(n)]
        } else {
            seq![]
        }
    });
}

/// The names of two texts that a separator joins are those of the one, then those of the other.
pub proof fn lemma_names_joined(a: Seq<u8>, b: Seq<u8>)
    ensures
        names(a + seq![SEPARATOR] + b) == names(a) + names(b),
{
    lemma_split_joined(a, SEPARATOR, b);
    Seq::filter_distributes_over_add(split(a, SEPARATOR), split(b, SEPARATOR), named());
}

/// A text with nothing in it has no names.
pub proof fn lemma_names_empty()
    ensures
        names(seq![]) == Seq::<Seq<u8>>::empty(),
{
    lemma_names_step(seq![]);
}

/// `trim_left` keeps the names, and what it leaves starts with one.
pub proof fn lemma_trim_left(t: Seq<u8>)
    ensures
        names(trim_left(t)) == names(t),
        trim_left(t).len() > 0 ==> is_name(
            trim_left(t).take(head_len(trim_left(t), SEPARATOR) as int),
        ),
    decreases t.len(),
{
    reveal(trim_left);
    lemma_names_step(t);
    let n = head_len(t, SEPARATOR) as int;
    if is_name(t.take(n)) {
    } else if n < t.len() {
        lemma_trim_left(t.skip(n + 1));
        assert(names(t) =~= names(t.skip(n + 1)));
    } else {
        lemma_names_empty();
    }
}

/// `drop_names` drops as many names as it is told to.
pub proof fn lemma_drop_names(t: Seq<u8>, k: nat)
    requires
        k <= names(t).len(),
    ensures
        names(drop_names(t, k)) == names(t).skip(k as int),
    decreases k,
{
    reveal(drop_names);
    if k == 0 {
        assert(names(t).skip(0) =~= names(t));
    } else {
        let u = trim_left(t);
        lemma_trim_left(t);
        lemma_names_step(u);
        let n = head_len(u, SEPARATOR) as int;
        if u.len() == 0 {
            assert(u =~= seq![]);
            lemma_names_empty();
        }
        if n < u.len() {
            lemma_drop_names(u.skip(n + 1), (k - 1) as nat);
            assert(names(t).skip(k as int) =~= names(u.skip(n + 1)).skip(k - 1));
        } else {
            lemma_names_empty();
            assert(names(t).skip(k as int) =~= seq![]);
        }
    }
}

/// `last_start` is where the last piece starts.
pub proof fn lemma_last_start(t: Seq<u8>)
    ensures
        last_start(t) <= t.len(),
        forall|j: int| last_start(t) <= j < t.len() ==> t[j] != SEPARATOR,
        last_start(t) > 0 ==> t[last_start(t) - 1] == SEPARATOR,
    decreases t.len(),
{
    reveal(last_start);
    if t.len() > 0 && t.last() != SEPARATOR {
        let u = t.drop_last();
        lemma_last_start(u);
        assert forall|j: int| last_start(t) <= j < t.len() implies t[j] != SEPARATOR by {
            if j < t.len() - 1 {
                assert(u[j] == t[j]);
            }
        }
    }
}

/// `trim_right` keeps the names, and cuts at a separator if it cuts at all, unless there is no
/// name to keep.
pub proof fn lemma_trim_right(t: Seq<u8>)
    ensures
        names(trim_right(t)) == names(t),
        trim_right(t).len() <= t.len(),
        trim_right(t) == t.take(trim_right(t).len() as int),
        0 < trim_right(t).len() < t.len() ==> t[trim_right(t).len() as int] == SEPARATOR,
    decreases t.len(),
{
    reveal(trim_right);
    let i = last_start(t) as int;
    lemma_last_start(t);
    let piece = t.skip(i);
    lemma_head_len_is(piece, SEPARATOR, piece.len() as int);
    lemma_names_step(piece);
    assert(piece.take(piece.len() as int) =~= piece);
    if is_name(piece) {
        assert(t.take(t.len() as int) =~= t);
    } else if 0 < i {
        let a = t.take(i - 1);
        lemma_trim_right(a);
        assert(t =~= a + seq![SEPARATOR] + piece);
        lemma_names_joined(a, piece);
        assert(names(t) =~= names(a));
        let m = trim_right(a).len() as int;
        assert(t.take(m) =~= a.take(m));
    } else {
        assert(t =~= piece);
        lemma_names_empty();
        assert(trim_right(t) =~= t.take(0));
    }
}

/// A path without components is the empty one.
pub proof fn lemma_no_components(p: Seq<u8>)
    ensures
        components(p).len() == 0 <==> p.len() == 0,
{
    lemma_names_step(p);
    let n = head_len(p, SEPARATOR) as int;
    if p.len() == 0 {
        assert(p =~= seq![]);
        lemma_names_empty();
        assert(p.take(n).len() == 0);
    } else if !is_absolute(p) {
        lemma_head_len(p, SEPARATOR);
        assert(n > 0);
        assert(p.take(n).len() > 0);
    }
}

/// The components of a joined path: an absolute `path` has its own, and so has one that is
/// joined to the empty path; any other adds its names to the components of `base`.
pub proof fn lemma_components_join(base: Seq<u8>, path: Seq<u8>)
    ensures
        components(join(base, path)) == if is_absolute(path) || base.len() == 0 {
            components(path)
        } else {
            components(base) + names(path)
        },
{
    let j = join(base, path);
    if is_absolute(path) {
    } else if base.len() == 0 {
        assert(j =~= path);
    } else {
        let a = if base.last() == SEPARATOR {
            base.drop_last()
        } else {
            base
        };
        assert(j =~= a + seq![SEPARATOR] + path);
        lemma_names_joined(a, path);
        if base.last() == SEPARATOR {
            let none: Seq<u8> = seq![];
            lemma_names_joined(a, none);
            lemma_names_empty();
            assert(a + seq![SEPARATOR] + none =~= base);
            assert(names(base) =~= names(a));
        }
        assert(j[0] == base[0]);
        if !is_absolute(base) {
            lemma_names_step(base);
            lemma_names_step(j);
            let n = head_len(a, SEPARATOR) as int;
            lemma_head_len(a, SEPARATOR);
            assert forall|i: int| 0 <= i < n implies j[i] != SEPARATOR && base[i] != SEPARATOR by {
                assert(j[i] == a[i]);
                assert(base[i] == a[i]);
            }
            assert(j[n] == SEPARATOR) by {
                if n < a.len() {
                    assert(j[n] == a[n]);
                }
            }
            lemma_head_len_is(j, SEPARATOR, n);
            if n < base.len() {
                assert(base[n] == j[n]);
            }
            lemma_head_len_is(base, SEPARATOR, n);
            assert(j.take(n) =~= base.take(n));
        }
        assert(lead(j) == lead(base));
        assert(components(j) =~= components(base) + names(path));
    }
}

/// Without its lead, a path has the same names.
pub proof fn lemma_names_of_body(p: Seq<u8>)
    ensures
        lead(p).len() <= 1,
        lead(p).len() <= p.len(),
        names(p.skip(lead(p).len() as int)) == names(p),
{
    let l = lead(p).len() as int;
    let body = p.skip(l);
    lemma_names_step(p);
    lemma_head_len(p, SEPARATOR);
    let h = head_len(p, SEPARATOR) as int;
    if is_absolute(p) {
        assert(h == 0);
        assert(names(p) =~= names(p.skip(1)));
    } else if l == 1 {
        assert(p.take(h).len() == 1);
        lemma_names_step(body);
        if p.len() > 1 {
            assert(body[0] == SEPARATOR);
            lemma_head_len_is(body, SEPARATOR, 0);
            assert(body.skip(1) =~= p.skip(2));
            assert(names(p) =~= names(p.skip(2)));
            assert(names(body) =~= names(p.skip(2)));
        } else {
            assert(body =~= seq![]);
            lemma_names_empty();
            assert(names(p) =~= seq![]);
        }
    } else {
        assert(body =~= p);
    }
}

/// A text that is cut at a separator, or not at all, starts with the same piece.
pub proof fn lemma_cut(t: Seq<u8>, m: int)
    requires
        0 <= m <= t.len(),
        m < t.len() ==> t[m] == SEPARATOR,
    ensures
        split(t.take(m), SEPARATOR)[0] == split(t, SEPARATOR)[0],
{
    let r = t.take(m);
    let h = head_len(t, SEPARATOR) as int;
    lemma_head_len(t, SEPARATOR);
    lemma_names_step(t);
    lemma_names_step(r);
    assert(h <= m);
    assert forall|i: int| 0 <= i < h implies r[i] != SEPARATOR by {
        assert(r[i] == t[i]);
    }
    if h < m {
        assert(r[h] == t[h]);
    }
    lemma_head_len_is(r, SEPARATOR, h);
    assert(r.take(h) =~= t.take(h));
}

/// What is left of a path after none of its components has all of them.
pub proof fn lemma_remainder_of_all(p: Seq<u8>)
    ensures
        components(remainder(p, 0)) == components(p),
{
    let l = lead(p).len() as int;
    lemma_names_of_body(p);
    let body = p.skip(l);
    let kept = trim_right(body);
    lemma_trim_right(body);
    let r = remainder(p, 0);
    let m = l + kept.len();
    assert(r =~= p.take(m)) by {
        assert(kept =~= body.take(kept.len() as int));
    }
    assert(lead(r) == lead(p)) by {
        if is_absolute(p) {
            assert(r[0] == p[0]);
        } else {
            assert(m < p.len() && m > 0 ==> p[m] == SEPARATOR) by {
                if kept.len() > 0 && m < p.len() {
                    assert(p[m] == body[kept.len() as int]);
                } else if l == 1 {
                    lemma_names_step(p);
                    lemma_head_len(p, SEPARATOR);
                    assert(p.take(head_len(p, SEPARATOR) as int).len() == 1);
                }
            }
            if m > 0 {
                lemma_cut(p, m);
                assert(r[0] == p[0]);
            } else {
                lemma_names_step(r);
                assert(r.take(0).len() == 0);
            }
        }
    }
    lemma_names_of_body(r);
    assert(r.skip(l) =~= kept);
}

/// What is left of a path after some of its components is relative, and has the others as its
/// names.
pub proof fn lemma_remainder_of_some(p: Seq<u8>, n: nat)
    requires
        0 < n <= components(p).len(),
    ensures
        names(remainder(p, n)) == components(p).skip(n as int),
        lead(remainder(p, n)).len() == 0,
{
    let l = lead(p).len();
    lemma_names_of_body(p);
    let body = p.skip(l as int);
    let k = (n - l) as nat;
    let d = drop_names(body, k);
    lemma_drop_names(body, k);
    let u = trim_left(d);
    lemma_trim_left(d);
    let r = trim_right(u);
    lemma_trim_right(u);
    assert(components(p).skip(n as int) =~= names(p).skip(k as int));
    lemma_names_step(r);
    if r.len() > 0 {
        lemma_cut(u, r.len() as int);
        lemma_names_step(u);
        lemma_head_len(u, SEPARATOR);
        let g = head_len(u, SEPARATOR) as int;
        assert(u.take(g).len() > 0);
        assert(r[0] == u[0]);
    } else {
        assert(r.take(0).len() == 0);
    }
}

/// What is left of a path after some of its components has the others.
pub proof fn lemma_remainder(p: Seq<u8>, n: nat)
    requires
        n <= components(p).len(),
    ensures
        n == 0 ==> components(remainder(p, n)) == components(p),
        n > 0 ==> !is_absolute(remainder(p, n)),
        n > 0 ==> names(remainder(p, n)) == components(p).skip(n as int),
        n > 0 ==> components(remainder(p, n)) == components(p).skip(n as int),
{
    if n == 0 {
        lemma_remainder_of_all(p);
    } else {
        lemma_remainder_of_some(p, n);
        let r = remainder(p, n);
        assert(components(r) =~= names(r));
    }
}

/// Joining what was stripped back onto the prefix gives the path again.
pub proof fn lemma_strip_then_join(p: Seq<u8>, base: Seq<u8>)
    requires
        starts_with(p, base),
    ensures
        components(join(base, strip_prefix(p, base)->0)) == components(p),
{
    let n = components(base).len();
    let r = remainder(p, n);
    lemma_remainder(p, n);
    lemma_components_join(base, r);
    lemma_no_components(base);
    if n > 0 {
        assert(components(base) + components(p).skip(n as int) =~= components(p));
    }
}

/// A path that owns its text.
#[derive(Debug)]
pub struct PathBuf {
    bytes: Vec<u8>,
}

impl View for PathBuf {
    type V = Seq<u8>;

    closed spec fn view(&self) -> Seq<u8> {
        self.bytes@
    }
}

impl Clone for PathBuf {
    fn clone(&self) -> (copy: Self)
        ensures
            copy@ == self@,
    {
        PathBuf { bytes: slice_to_vec(self.bytes.as_slice()) }
    }
}

/// Two paths are equal where their components are.
impl PartialEq for PathBuf {
    fn eq(&self, other: &Self) -> (same: bool) {
        self.same_components(other)
    }
}

impl vstd::std_specs::cmp::PartialEqSpecImpl for PathBuf {
    open spec fn obeys_eq_spec() -> bool {
        true
    }

    open spec fn eq_spec(&self, other: &Self) -> bool {
        components(self@) == components(other@)
    }
}

impl Eq for PathBuf {

}

/// The two slices hold the same bytes.
fn same_bytes(a: &[u8], b: &[u8]) -> (same: bool)
    ensures
        same == (a@ == b@),
{
    if a.len() != b.len() {
        return false;
    }
    let mut i: usize = 0;
    while i < a.len()
        invariant
            i <= a@.len(),
            a@.len() == b@.len(),
            forall|j: int| 0 <= j < i ==> a@[j] == b@[j],
        decreases a@.len() - i,
    {
        if a[i] != b[i] {
            return false;
        }
        i = i + 1;
    }
    assert(a@ =~= b@);
    true
}

/// The piece is a component.
fn piece_is_name(piece: &[u8]) -> (named: bool)
    ensures
        named == is_name(piece@),
{
    if piece.len() == 1 && piece[0] == DOT {
        assert(piece@ =~= seq![DOT]);
        false
    } else {
        assert(piece@.len() != 1 || piece@[0] != DOT ==> piece@ != seq![DOT]);
        piece.len() > 0
    }
}

/// Where the first name at or after `from` starts, or the end of `bytes`.
fn first_name(bytes: &[u8], from: usize) -> (at: usize)
    requires
        from <= bytes@.len(),
    ensures
        from <= at <= bytes@.len(),
        bytes@.skip(at as int) == trim_left(bytes@.skip(from as int)),
{
    let mut at: usize = from;
    loop
        invariant
            from <= at <= bytes@.len(),
            trim_left(bytes@.skip(at as int)) == trim_left(bytes@.skip(from as int)),
        decreases bytes@.len() - at,
    {
        let end = find_from(bytes, at, SEPARATOR);
        let ghost t = bytes@.skip(at as int);
        proof {
            reveal(trim_left);
        }
        let piece = slice_subrange(bytes, at, end);
        assert(piece@ =~= t.take(end - at));
        if piece_is_name(piece) {
            return at;
        }
        if end == bytes.len() {
            assert(bytes@.skip(end as int) =~= seq![]);
            return end;
        }
        assert(t.skip(end - at + 1) =~= bytes@.skip(end + 1));
        at = end + 1;
    }
}

/// Where the text after the first `count` names from `from` on starts.
fn after_names(bytes: &[u8], from: usize, count: usize) -> (at: usize)
    requires
        from <= bytes@.len(),
    ensures
        from <= at <= bytes@.len(),
        bytes@.skip(at as int) == drop_names(bytes@.skip(from as int), count as nat),
{
    let mut at: usize = from;
    let mut left: usize = count;
    proof {
        reveal(drop_names);
    }
    while left > 0
        invariant
            from <= at <= bytes@.len(),
            drop_names(bytes@.skip(at as int), left as nat) == drop_names(
                bytes@.skip(from as int),
                count as nat,
            ),
        decreases left,
    {
        proof {
            reveal(drop_names);
        }
        let start = first_name(bytes, at);
        let end = find_from(bytes, start, SEPARATOR);
        let ghost u = bytes@.skip(start as int);
        if end == bytes.len() {
            assert(bytes@.skip(end as int) =~= seq![]);
            return end;
        }
        assert(u.skip(end - start + 1) =~= bytes@.skip(end + 1));
        at = end + 1;
        left = left - 1;
    }
    at
}

/// Where the last name between `from` and the end of `bytes` ends, or `from` if there is none.
fn last_name_end(bytes: &[u8], from: usize) -> (to: usize)
    requires
        from <= bytes@.len(),
    ensures
        from <= to <= bytes@.len(),
        bytes@.subrange(from as int, to as int) == trim_right(bytes@.skip(from as int)),
{
    let mut to: usize = bytes.len();
    assert(bytes@.subrange(from as int, to as int) =~= bytes@.skip(from as int));
    loop
        invariant
            from <= to <= bytes@.len(),
            trim_right(bytes@.subrange(from as int, to as int)) == trim_right(
                bytes@.skip(from as int),
            ),
        decreases to - from,
    {
        let start = last_piece(bytes, from, to);
        let ghost t = bytes@.subrange(from as int, to as int);
        proof {
            reveal(trim_right);
        }
        let piece = slice_subrange(bytes, start, to);
        assert(piece@ =~= t.skip(start - from));
        if piece_is_name(piece) {
            return to;
        }
        if start == from {
            assert(bytes@.subrange(from as int, from as int) =~= seq![]);
            return from;
        }
        assert(t.take(start - from - 1) =~= bytes@.subrange(from as int, start - 1));
        to = start - 1;
    }
}

/// Where the last piece between `from` and `to` starts.
fn last_piece(bytes: &[u8], from: usize, to: usize) -> (start: usize)
    requires
        from <= to <= bytes@.len(),
    ensures
        from <= start <= to,
        start == from + last_start(bytes@.subrange(from as int, to as int)),
{
    let mut start: usize = to;
    proof {
        reveal(last_start);
    }
    while start > from && bytes[start - 1] != SEPARATOR
        invariant
            from <= start <= to <= bytes@.len(),
            last_start(bytes@.subrange(from as int, start as int)) == last_start(
                bytes@.subrange(from as int, to as int),
            ),
        decreases start,
    {
        proof {
            reveal(last_start);
        }
        assert(bytes@.subrange(from as int, start as int).drop_last() =~= bytes@.subrange(
            from as int,
            start - 1,
        ));
        start = start - 1;
    }
    start
}

impl PathBuf {
    /// The path that a string writes.
    pub fn from(text: &str) -> (path: Self)
        ensures
            path@ == encode_utf8(text@),
    {
        PathBuf { bytes: slice_to_vec(text.as_bytes()) }
    }

    /// The path that the bytes write.
    pub fn from_bytes(bytes: Vec<u8>) -> (path: Self)
        ensures
            path@ == bytes@,
    {
        PathBuf { bytes }
    }

    /// The bytes that write the path.
    pub fn into_bytes(self) -> (bytes: Vec<u8>)
        ensures
            bytes@ == self@,
    {
        self.bytes
    }

    /// The path starts at the root.
    pub fn is_absolute(&self) -> (absolute: bool)
        ensures
            absolute == is_absolute(self@),
    {
        self.bytes.len() > 0 && self.bytes[0] == SEPARATOR
    }

    /// How many bytes the lead of the path takes, which is also how many components it is.
    fn lead_len(&self) -> (len: usize)
        ensures
            len == lead(self@).len(),
            len <= self@.len(),
            len == 1 ==> lead(self@)[0] == self@.subrange(0, 1),
    {
        proof {
            lemma_names_step(self@);
            lemma_head_len(self@, SEPARATOR);
            if self@.len() > 0 {
                assert(self@.subrange(0, 1) =~= seq![self@[0]]);
            }
        }
        if self.is_absolute() {
            return 1;
        }
        let bytes = self.bytes.as_slice();
        let end = find_from(bytes, 0, SEPARATOR);
        assert(self@.skip(0) =~= self@);
        if end == 1 && bytes[0] == DOT {
            assert(self@.take(1) =~= seq![DOT]);
            1
        } else {
            assert(self@.take(end as int) != seq![DOT]) by {
                if self@.take(end as int) == seq![DOT] {
                    assert(self@.take(end as int).len() == 1);
                    assert(self@.take(end as int)[0] == DOT);
                }
            }
            0
        }
    }

    /// The components of the path, with the root as `/`.
    pub fn components(&self) -> (parts: Vec<&[u8]>)
        ensures
            views(parts@) == components(self@),
    {
        let bytes = self.bytes.as_slice();
        let mut parts: Vec<&[u8]> = Vec::new();
        let lead_len = self.lead_len();
        if lead_len > 0 {
            parts.push(slice_subrange(bytes, 0, lead_len));
        }
        assert(views(parts@) =~= lead(self@));
        let pieces = split_at_each(bytes, SEPARATOR);
        let mut i: usize = 0;
        proof {
            assert(views(pieces@).take(0).filter(named()) =~= seq![]) by {
                reveal(Seq::filter);
            }
            assert(views(parts@) =~= lead(self@) + views(pieces@).take(0).filter(named()));
        }
        while i < pieces.len()
            invariant
                i <= pieces@.len(),
                views(parts@) == lead(self@) + views(pieces@).take(i as int).filter(named()),
            decreases pieces@.len() - i,
        {
            let ghost before = views(parts@);
            proof {
                reveal(Seq::filter);
                assert(views(pieces@).take(i + 1).drop_last() =~= views(pieces@).take(i as int));
                assert(views(pieces@).take(i + 1).last() == pieces@[i as int]@);
            }
            if piece_is_name(pieces[i]) {
                parts.push(pieces[i]);
                assert(views(parts@) =~= before.push(pieces@[i as int]@));
            }
            i = i + 1;
            assert(views(parts@) =~= lead(self@) + views(pieces@).take(i as int).filter(named()));
        }
        assert(views(pieces@).take(i as int) =~= views(pieces@));
        parts
    }

    /// The path has the same components as the other.
    fn same_components(&self, other: &PathBuf) -> (same: bool)
        ensures
            same == (components(self@) == components(other@)),
    {
        let parts = self.components();
        let other_parts = other.components();
        if parts.len() != other_parts.len() {
            assert(views(parts@).len() != views(other_parts@).len());
            return false;
        }
        let same = first_parts_are(&parts, &other_parts);
        assert(views(parts@).take(views(other_parts@).len() as int) =~= views(parts@));
        same
    }

    /// The first components of the path are those of `base`.
    pub fn starts_with(&self, base: &PathBuf) -> (starts: bool)
        ensures
            starts == starts_with(self@, base@),
    {
        let parts = self.components();
        let base_parts = base.components();
        base_parts.len() <= parts.len() && first_parts_are(&parts, &base_parts)
    }

    /// The path seen from `base`, if it starts with it.
    pub fn strip_prefix(&self, base: &PathBuf) -> (rest: Option<PathBuf>)
        ensures
            rest is Some <==> starts_with(self@, base@),
            rest matches Some(path) ==> strip_prefix(self@, base@) == Some(path@),
    {
        if !self.starts_with(base) {
            return None;
        }
        let count = base.components().len();
        assert(count == components(base@).len());
        let bytes = self.bytes.as_slice();
        let lead_len = self.lead_len();
        if count == 0 {
            let to = last_name_end(bytes, lead_len);
            let rest = slice_subrange(bytes, 0, to);
            assert(rest@ =~= self@.take(lead_len as int) + self@.subrange(
                lead_len as int,
                to as int,
            ));
            Some(PathBuf { bytes: slice_to_vec(rest) })
        } else {
            let at = after_names(bytes, lead_len, count - lead_len);
            let from = first_name(bytes, at);
            let to = last_name_end(bytes, from);
            Some(PathBuf { bytes: slice_to_vec(slice_subrange(bytes, from, to)) })
        }
    }

    /// `path` as seen from this one.
    pub fn join(&self, path: &PathBuf) -> (joined: PathBuf)
        ensures
            joined@ == join(self@, path@),
    {
        if path.is_absolute() {
            return path.clone();
        }
        let mut bytes: Vec<u8> = slice_to_vec(self.bytes.as_slice());
        let len = bytes.len();
        if len > 0 && bytes[len - 1] != SEPARATOR {
            bytes.push(SEPARATOR);
        }
        bytes.extend_from_slice(path.bytes.as_slice());
        assert(bytes@ =~= join(self@, path@));
        PathBuf { bytes }
    }
}

/// The first of the parts are those of `base`.
fn first_parts_are(parts: &Vec<&[u8]>, base: &Vec<&[u8]>) -> (are: bool)
    requires
        base@.len() <= parts@.len(),
    ensures
        are == (views(base@) == views(parts@).take(base@.len() as int)),
{
    let mut i: usize = 0;
    while i < base.len()
        invariant
            i <= base@.len() <= parts@.len(),
            forall|j: int| 0 <= j < i ==> base@[j]@ == parts@[j]@,
        decreases base@.len() - i,
    {
        if !same_bytes(base[i], parts[i]) {
            assert(views(base@)[i as int] != views(parts@).take(base@.len() as int)[i as int]);
            return false;
        }
        i = i + 1;
    }
    assert(views(base@) =~= views(parts@).take(base@.len() as int));
    true
}

} // verus!
