//! Splitting text at a separator.
//!
//! The definitions are generic, so that they read the same on bytes and on characters; the
//! executable functions work on bytes.

use vstd::prelude::*;
use vstd::slice::slice_subrange;

verus! {

/// How many items of `t` stand before the first `sep`: all of them where there is none.
#[verifier::opaque]
pub open spec fn head_len<A>(t: Seq<A>, sep: A) -> nat
    decreases t.len(),
{
    if t.len() == 0 || t[0] == sep {
        0
    } else {
        1 + head_len(t.skip(1), sep)
    }
}

/// The pieces of `t` between its separators: always one more than there are separators.
#[verifier::opaque]
pub open spec fn split<A>(t: Seq<A>, sep: A) -> Seq<Seq<A>>
    decreases t.len(),
{
    let n = head_len(t, sep) as int;
    if n < t.len() {
        seq![t.take(n)] + split(t.skip(n + 1), sep)
    } else {
        seq![t]
    }
}

/// `line` without the `cr` that ends it, if one does.
pub open spec fn chomp<A>(line: Seq<A>, cr: A) -> Seq<A> {
    if line.len() > 0 && line.last() == cr {
        line.drop_last()
    } else {
        line
    }
}

/// The lines of `t`. Each ends in `lf` or in `cr` and `lf`, which are not part of it; the last
/// may also end where `t` does, and is then all that is left.
pub open spec fn lines<A>(t: Seq<A>, lf: A, cr: A) -> Seq<Seq<A>>
    decreases t.len(),
{
    let n = head_len(t, lf) as int;
    if t.len() == 0 {
        seq![]
    } else if n < t.len() {
        seq![chomp(t.take(n), cr)] + lines(t.skip(n + 1), lf, cr)
    } else {
        seq![t]
    }
}

/// What the slices in `v` hold.
pub open spec fn views(v: Seq<&[u8]>) -> Seq<Seq<u8>> {
    v.map_values(|s: &[u8]| s@)
}

/// `head_len` stops at the first separator.
pub proof fn lemma_head_len<A>(t: Seq<A>, sep: A)
    ensures
        head_len(t, sep) <= t.len(),
        forall|j: int| 0 <= j < head_len(t, sep) ==> t[j] != sep,
        head_len(t, sep) < t.len() ==> t[head_len(t, sep) as int] == sep,
    decreases t.len(),
{
    reveal(head_len);
    if t.len() > 0 && t[0] != sep {
        let u = t.skip(1);
        lemma_head_len(u, sep);
        assert forall|j: int| 0 <= j < head_len(t, sep) implies t[j] != sep by {
            if j > 0 {
                assert(u[j - 1] == t[j]);
            }
        }
    }
}

/// Only one length stops at the first separator.
pub proof fn lemma_head_len_is<A>(t: Seq<A>, sep: A, n: int)
    requires
        0 <= n <= t.len(),
        forall|j: int| 0 <= j < n ==> t[j] != sep,
        n < t.len() ==> t[n] == sep,
    ensures
        head_len(t, sep) == n,
{
    lemma_head_len(t, sep);
    let m = head_len(t, sep) as int;
    if m < n {
        assert(t[m] != sep);
    } else if n < m {
        assert(t[n] != sep);
    }
}

/// A text without a separator is its only piece; any other starts with the piece before its
/// first separator, and the other pieces are those of what follows it.
pub proof fn lemma_split_step<A>(t: Seq<A>, sep: A)
    ensures
        head_len(t, sep) <= t.len(),
        head_len(t, sep) < t.len() ==> split(t, sep) == seq![t.take(head_len(t, sep) as int)]
            + split(t.skip(head_len(t, sep) as int + 1), sep),
        head_len(t, sep) == t.len() ==> split(t, sep) == seq![t],
        split(t, sep).len() > 0,
        split(t, sep)[0] == t.take(head_len(t, sep) as int),
{
    reveal(split);
    lemma_head_len(t, sep);
    assert(t.take(t.len() as int) =~= t);
}

/// Splitting two texts that a separator joins gives the pieces of the one, then those of the
/// other.
pub proof fn lemma_split_joined<A>(a: Seq<A>, sep: A, b: Seq<A>)
    ensures
        split(a + seq![sep] + b, sep) == split(a, sep) + split(b, sep),
    decreases a.len(),
{
    let t = a + seq![sep] + b;
    let n = head_len(a, sep) as int;
    lemma_head_len(a, sep);
    lemma_split_step(a, sep);
    lemma_split_step(t, sep);
    assert forall|j: int| 0 <= j < n implies t[j] != sep by {
        assert(t[j] == a[j]);
    }
    if n < a.len() {
        assert(t[n] == a[n]);
        lemma_head_len_is(t, sep, n);
        lemma_split_joined(a.skip(n + 1), sep, b);
        assert(t.skip(n + 1) =~= a.skip(n + 1) + seq![sep] + b);
        assert(t.take(n) =~= a.take(n));
        assert(split(t, sep) =~= split(a, sep) + split(b, sep));
    } else {
        assert(t[n] == sep);
        lemma_head_len_is(t, sep, n);
        assert(t.take(n) =~= a);
        assert(t.skip(n + 1) =~= b);
    }
}

/// A text that holds no separator is its only piece. With [`lemma_split_joined`] this says what
/// the pieces of any text are.
pub proof fn lemma_split_whole<A>(t: Seq<A>, sep: A)
    requires
        !t.contains(sep),
    ensures
        split(t, sep) == seq![t],
{
    lemma_head_len_is(t, sep, t.len() as int);
    lemma_split_step(t, sep);
}

/// No piece holds a separator, and only a text without one is a single piece.
pub proof fn lemma_split_pieces<A>(t: Seq<A>, sep: A)
    ensures
        split(t, sep).len() >= 1,
        forall|i: int| 0 <= i < split(t, sep).len() ==> !(#[trigger] split(t, sep)[i]).contains(sep),
        split(t, sep).len() == 1 <==> !t.contains(sep),
    decreases t.len(),
{
    let n = head_len(t, sep) as int;
    lemma_split_step(t, sep);
    lemma_head_len(t, sep);
    let pieces = split(t, sep);
    if n < t.len() {
        let rest = t.skip(n + 1);
        lemma_split_pieces(rest, sep);
        assert(t.contains(t[n]));
        assert forall|i: int| 0 <= i < pieces.len() implies !(#[trigger] pieces[i]).contains(
            sep,
        ) by {
            if i > 0 {
                assert(pieces[i] == split(rest, sep)[i - 1]);
            } else {
                assert(pieces[0] =~= t.take(n));
            }
        }
    } else {
        assert(!t.contains(sep));
    }
}

/// What a text without a newline is when it ends where the text does, when a newline ends it,
/// and when a carriage return and a newline do.
pub proof fn lemma_lines_single<A>(t: Seq<A>, lf: A, cr: A)
    requires
        !t.contains(lf),
        lf != cr,
    ensures
        t.len() == 0 ==> lines(t, lf, cr) == Seq::<Seq<A>>::empty(),
        t.len() > 0 ==> lines(t, lf, cr) == seq![t],
        t.len() == 0 || t.last() != cr ==> lines(t + seq![lf], lf, cr) == seq![t],
        lines(t + seq![cr] + seq![lf], lf, cr) == seq![t],
{
    lemma_head_len_is(t, lf, t.len() as int);
    let none: Seq<A> = seq![];
    assert(lines(none, lf, cr) =~= seq![]);
    let a = t + seq![lf];
    assert forall|j: int| 0 <= j < t.len() implies a[j] != lf by {
        assert(a[j] == t[j]);
        assert(t.contains(t[j]));
    }
    lemma_head_len_is(a, lf, t.len() as int);
    assert(a.take(t.len() as int) =~= t);
    assert(a.skip(t.len() as int + 1) =~= none);
    let u = t + seq![cr];
    let b = u + seq![lf];
    assert forall|j: int| 0 <= j < u.len() implies b[j] != lf by {
        assert(b[j] == u[j]);
        if j < t.len() {
            assert(u[j] == t[j]);
            assert(t.contains(t[j]));
        }
    }
    lemma_head_len_is(b, lf, u.len() as int);
    assert(b.take(u.len() as int) =~= u);
    assert(b.skip(u.len() as int + 1) =~= none);
    assert(u.drop_last() =~= t);
    if t.len() == 0 || t.last() != cr {
        assert(chomp(a.take(t.len() as int), cr) == t);
        assert(lines(a, lf, cr) =~= seq![t]);
    }
    assert(chomp(b.take(u.len() as int), cr) == t);
    assert(lines(b, lf, cr) =~= seq![t]);
}

/// Each slice is looked into where it stands.
pub proof fn lemma_views(v: Seq<&[u8]>)
    ensures
        views(v).len() == v.len(),
        forall|i: int| 0 <= i < v.len() ==> #[trigger] views(v)[i] == v[i]@,
{
}

/// Where the first `sep` at or after `from` stands, or the end of `bytes`.
pub fn find_from(bytes: &[u8], from: usize, sep: u8) -> (at: usize)
    requires
        from <= bytes@.len(),
    ensures
        at == from + head_len(bytes@.skip(from as int), sep),
        from <= at <= bytes@.len(),
{
    let mut at: usize = from;
    while at < bytes.len() && bytes[at] != sep
        invariant
            from <= at <= bytes@.len(),
            forall|j: int| from <= j < at ==> bytes@[j] != sep,
        decreases bytes@.len() - at,
    {
        at = at + 1;
    }
    proof {
        let t = bytes@.skip(from as int);
        assert forall|j: int| 0 <= j < at - from implies t[j] != sep by {
            assert(t[j] == bytes@[j + from]);
        }
        lemma_head_len_is(t, sep, at - from);
    }
    at
}

/// The pieces of `bytes` between its separators.
pub fn split_at_each<'a>(bytes: &'a [u8], sep: u8) -> (pieces: Vec<&'a [u8]>)
    ensures
        views(pieces@) == split(bytes@, sep),
{
    let mut pieces: Vec<&'a [u8]> = Vec::new();
    let mut from: usize = 0;
    proof {
        assert(bytes@.skip(0) =~= bytes@);
        assert(views(pieces@) + split(bytes@, sep) =~= split(bytes@, sep));
    }
    loop
        invariant
            from <= bytes@.len(),
            views(pieces@) + split(bytes@.skip(from as int), sep) == split(bytes@, sep),
        decreases bytes@.len() - from,
    {
        let at = find_from(bytes, from, sep);
        let ghost t = bytes@.skip(from as int);
        proof {
            lemma_split_step(t, sep);
        }
        let piece = slice_subrange(bytes, from, at);
        let ghost before = views(pieces@);
        pieces.push(piece);
        proof {
            assert(piece@ =~= t.take(at - from));
            assert(views(pieces@) =~= before.push(piece@));
        }
        if at == bytes.len() {
            proof {
                assert(piece@ =~= t);
                assert(views(pieces@) =~= before + split(t, sep));
            }
            return pieces;
        }
        proof {
            assert(t.skip(at - from + 1) =~= bytes@.skip(at + 1));
            assert(views(pieces@) + split(bytes@.skip(at + 1), sep) =~= before + split(t, sep));
        }
        from = at + 1;
    }
}

/// The lines of `bytes`.
pub fn lines_of<'a>(bytes: &'a [u8], lf: u8, cr: u8) -> (found: Vec<&'a [u8]>)
    ensures
        views(found@) == lines(bytes@, lf, cr),
{
    let mut found: Vec<&'a [u8]> = Vec::new();
    let mut from: usize = 0;
    proof {
        assert(bytes@.skip(0) =~= bytes@);
        assert(views(found@) + lines(bytes@, lf, cr) =~= lines(bytes@, lf, cr));
    }
    while from < bytes.len()
        invariant
            from <= bytes@.len(),
            views(found@) + lines(bytes@.skip(from as int), lf, cr) == lines(bytes@, lf, cr),
        decreases bytes@.len() - from,
    {
        let at = find_from(bytes, from, lf);
        let ghost t = bytes@.skip(from as int);
        let ghost before = views(found@);
        if at == bytes.len() {
            let line = slice_subrange(bytes, from, at);
            found.push(line);
            proof {
                assert(line@ =~= t);
                assert(views(found@) =~= before + lines(t, lf, cr));
            }
            return found;
        }
        let end = if at > from && bytes[at - 1] == cr {
            at - 1
        } else {
            at
        };
        let line = slice_subrange(bytes, from, end);
        found.push(line);
        proof {
            assert(t.take(at - from).len() == at - from);
            assert(line@ =~= chomp(t.take(at - from), cr));
            assert(t.skip(at - from + 1) =~= bytes@.skip(at + 1));
            assert(views(found@) + lines(bytes@.skip(at + 1), lf, cr) =~= before + lines(t, lf, cr));
        }
        from = at + 1;
    }
    assert(views(found@) + lines(bytes@.skip(from as int), lf, cr) =~= views(found@));
    found
}

} // verus!
