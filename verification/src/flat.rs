use vstd::prelude::*;
use vstd::seq_lib::lemma_flatten_concat;

verus! {

/// A concatenation of pieces, cut before and behind piece `i`.
pub proof fn lemma_flatten_split<A>(pieces: Seq<Seq<A>>, i: int)
    requires
        0 <= i < pieces.len(),
    ensures
        pieces.flatten() == pieces.take(i).flatten() + pieces[i] + pieces.skip(i + 1).flatten(),
        pieces.take(i + 1).flatten() == pieces.take(i).flatten() + pieces[i],
{
    let front = pieces.take(i);
    let back = pieces.skip(i + 1);
    assert(pieces =~= front.push(pieces[i]) + back);
    assert(pieces.take(i + 1) =~= front.push(pieces[i]));
    lemma_flatten_concat(front.push(pieces[i]), back);
    front.lemma_flatten_push(pieces[i]);
}

/// Element `j` of piece `i` stands in the concatenation behind the pieces
/// before it.
pub proof fn lemma_flatten_index<A>(pieces: Seq<Seq<A>>, i: int, j: int)
    requires
        0 <= i < pieces.len(),
        0 <= j < pieces[i].len(),
    ensures
        pieces.take(i).flatten().len() + j < pieces.flatten().len(),
        pieces.flatten()[pieces.take(i).flatten().len() + j] == pieces[i][j],
{
    lemma_flatten_split(pieces, i);
}

/// Piece `i` stands in the concatenation behind the pieces before it.
pub proof fn lemma_flatten_piece<A>(pieces: Seq<Seq<A>>, i: int)
    requires
        0 <= i < pieces.len(),
    ensures
        pieces.take(i).flatten().len() + pieces[i].len() <= pieces.flatten().len(),
        pieces.flatten().subrange(
            pieces.take(i).flatten().len() as int,
            pieces.take(i).flatten().len() + pieces[i].len() as int,
        ) == pieces[i],
{
    lemma_flatten_split(pieces, i);
    let start = pieces.take(i).flatten().len() as int;
    assert(pieces.flatten().subrange(start, start + pieces[i].len()) =~= pieces[i]);
}

/// A concatenation of empty pieces is empty.
pub proof fn lemma_flatten_empty_pieces<A>(pieces: Seq<Seq<A>>)
    requires
        forall|i: int| 0 <= i < pieces.len() ==> (#[trigger] pieces[i]).len() == 0,
    ensures
        pieces.flatten().len() == 0,
    decreases pieces.len(),
{
    if pieces.len() > 0 {
        lemma_flatten_empty_pieces(pieces.drop_first());
    }
}


/// The concatenation of the images of the first `i + 1` items is that of the
/// first `i` with the image of item `i` behind it.
pub proof fn lemma_flat_map_step<T, A>(items: Seq<T>, f: spec_fn(T) -> Seq<A>, i: int)
    requires
        0 <= i < items.len(),
    ensures
        items.take(i + 1).map_values(f).flatten() == items.take(i).map_values(f).flatten() + f(
            items[i],
        ),
{
    let pieces = items.map_values(f);
    assert(pieces.take(i) =~= items.take(i).map_values(f));
    assert(pieces.take(i + 1) =~= items.take(i + 1).map_values(f));
    lemma_flatten_split(pieces, i);
}

/// The concatenation of the images of no items is empty.
pub proof fn lemma_flat_map_empty<T, A>(items: Seq<T>, f: spec_fn(T) -> Seq<A>)
    requires
        items.len() == 0,
    ensures
        items.map_values(f).flatten() == Seq::<A>::empty(),
{
    assert(items.map_values(f) =~= Seq::<Seq<A>>::empty());
}

/// The image of item `i` stands in the concatenation of the images behind
/// the images of the items before it.
pub proof fn lemma_flat_map_piece<T, A>(items: Seq<T>, f: spec_fn(T) -> Seq<A>, i: int)
    requires
        0 <= i < items.len(),
    ensures
        items.take(i).map_values(f).flatten().len() + f(items[i]).len() <= items.map_values(
            f,
        ).flatten().len(),
        items.map_values(f).flatten().subrange(
            items.take(i).map_values(f).flatten().len() as int,
            items.take(i).map_values(f).flatten().len() + f(items[i]).len() as int,
        ) == f(items[i]),
{
    let pieces = items.map_values(f);
    assert(pieces.take(i) =~= items.take(i).map_values(f));
    lemma_flatten_piece(pieces, i);
}

/// In a concatenation of pieces of one size, piece `i` stands at `i` times
/// the size.
pub proof fn lemma_flatten_fixed<A>(pieces: Seq<Seq<A>>, size: int, i: int)
    requires
        0 <= size,
        forall|k: int| 0 <= k < pieces.len() ==> (#[trigger] pieces[k]).len() == size,
        0 <= i <= pieces.len(),
    ensures
        pieces.take(i).flatten().len() == i * size,
        pieces.flatten().len() == pieces.len() * size,
    decreases pieces.len(),
{
    if pieces.len() == 0 {
        assert(pieces.take(i) =~= pieces);
    } else {
        let front = pieces.drop_last();
        assert(pieces =~= front.push(pieces.last()));
        front.lemma_flatten_push(pieces.last());
        lemma_flatten_fixed(front, size, front.len() as int);
        assert(front.take(front.len() as int) =~= front);
        assert(pieces.flatten().len() == pieces.len() * size) by (nonlinear_arith)
            requires
                pieces.flatten().len() == front.flatten().len() + size,
                front.flatten().len() == front.len() * size,
                pieces.len() == front.len() + 1,
        ;
        if i < pieces.len() {
            lemma_flatten_fixed(front, size, i);
            assert(pieces.take(i) =~= front.take(i));
        } else {
            assert(pieces.take(i) =~= pieces);
        }
    }
}

/// The concatenation of the images of two lists of items, one after the
/// other.
pub proof fn lemma_flat_map_concat<T, A>(first: Seq<T>, second: Seq<T>, f: spec_fn(T) -> Seq<A>)
    ensures
        (first + second).map_values(f).flatten() == first.map_values(f).flatten()
            + second.map_values(f).flatten(),
{
    assert((first + second).map_values(f) =~= first.map_values(f) + second.map_values(f));
    lemma_flatten_concat(first.map_values(f), second.map_values(f));
}

/// What holds of every element of every piece holds of every element of the
/// concatenation.
pub proof fn lemma_flatten_all<A>(pieces: Seq<Seq<A>>, holds: spec_fn(A) -> bool)
    requires
        forall|i: int, j: int|
            0 <= i < pieces.len() && 0 <= j < pieces[i].len() ==> holds(#[trigger] pieces[i][j]),
    ensures
        forall|k: int| 0 <= k < pieces.flatten().len() ==> holds(#[trigger] pieces.flatten()[k]),
    decreases pieces.len(),
{
    if pieces.len() > 0 {
        let front = pieces.drop_last();
        let last = pieces.last();
        assert(pieces =~= front.push(last));
        front.lemma_flatten_push(last);
        assert forall|i: int, j: int|
            0 <= i < front.len() && 0 <= j < front[i].len() implies holds(
            #[trigger] front[i][j],
        ) by {
            assert(front[i][j] == pieces[i][j]);
        }
        lemma_flatten_all(front, holds);
        assert forall|k: int| 0 <= k < pieces.flatten().len() implies holds(
            #[trigger] pieces.flatten()[k],
        ) by {
            if k < front.flatten().len() {
                assert(pieces.flatten()[k] == front.flatten()[k]);
            } else {
                assert(pieces.flatten()[k] == pieces[pieces.len() - 1][k - front.flatten().len()]);
            }
        }
    }
}

/// The `len` elements of a string from `from` on.
pub open spec fn part<A>(s: Seq<A>, from: int, len: int) -> Seq<A> {
    s.subrange(from, from + len)
}

/// The parts of a concatenation of six strings.
pub proof fn lemma_six_parts<A>(a: Seq<A>, b: Seq<A>, c: Seq<A>, d: Seq<A>, e: Seq<A>, f: Seq<A>)
    ensures
        (a + b + c + d + e + f) == a + (b + c + d + e + f),
        (a + b + c + d + e + f).len() == a.len() + b.len() + c.len() + d.len() + e.len() + f.len(),
        part(a + b + c + d + e + f, a.len() as int, b.len() as int) == b,
        part(a + b + c + d + e + f, (a.len() + b.len()) as int, c.len() as int) == c,
        part(a + b + c + d + e + f, (a.len() + b.len() + c.len()) as int, d.len() as int) == d,
        part(a + b + c + d + e + f, (a.len() + b.len() + c.len() + d.len()) as int, e.len() as int)
            == e,
        part(
            a + b + c + d + e + f,
            (a.len() + b.len() + c.len() + d.len() + e.len()) as int,
            f.len() as int,
        ) == f,
{
    let whole = a + b + c + d + e + f;
    assert(whole =~= a + (b + c + d + e + f));
    assert(part(whole, a.len() as int, b.len() as int) =~= b);
    assert(part(whole, (a.len() + b.len()) as int, c.len() as int) =~= c);
    assert(part(whole, (a.len() + b.len() + c.len()) as int, d.len() as int) =~= d);
    assert(part(whole, (a.len() + b.len() + c.len() + d.len()) as int, e.len() as int) =~= e);
    assert(part(
        whole,
        (a.len() + b.len() + c.len() + d.len() + e.len()) as int,
        f.len() as int,
    ) =~= f);
}

/// The sum of the sizes of a list of items.
pub open spec fn total_size<T>(items: Seq<T>, size: spec_fn(T) -> int) -> int
    decreases items.len(),
{
    if items.len() == 0 {
        0
    } else {
        total_size(items.drop_last(), size) + size(items.last())
    }
}

/// The sum of the sizes of the first `i + 1` items.
pub proof fn lemma_total_size_step<T>(items: Seq<T>, size: spec_fn(T) -> int, i: int)
    requires
        0 <= i < items.len(),
    ensures
        total_size(items.take(i + 1), size) == total_size(items.take(i), size) + size(items[i]),
        total_size(items.take(0), size) == 0,
{
    assert(items.take(i + 1).drop_last() =~= items.take(i));
}

/// The sum of the sizes of the first items is not greater than that of all
/// items, where no size is negative.
pub proof fn lemma_total_size_bounds<T>(items: Seq<T>, size: spec_fn(T) -> int, i: int)
    requires
        forall|j: int| 0 <= j < items.len() ==> size(#[trigger] items[j]) >= 0,
        0 <= i <= items.len(),
    ensures
        0 <= total_size(items.take(i), size) <= total_size(items, size),
        i < items.len() ==> total_size(items.take(i), size) + size(items[i]) <= total_size(
            items,
            size,
        ),
    decreases items.len() - i,
{
    if i == items.len() {
        assert(items.take(i) =~= items);
        lemma_total_size_nonnegative(items, size);
    } else {
        lemma_total_size_step(items, size, i);
        lemma_total_size_bounds(items, size, i + 1);
        lemma_total_size_nonnegative(items.take(i), size);
    }
}

/// The sum of sizes none of which is negative is not negative.
pub proof fn lemma_total_size_nonnegative<T>(items: Seq<T>, size: spec_fn(T) -> int)
    requires
        forall|j: int| 0 <= j < items.len() ==> size(#[trigger] items[j]) >= 0,
    ensures
        0 <= total_size(items, size),
    decreases items.len(),
{
    if items.len() > 0 {
        let front = items.drop_last();
        assert forall|j: int| 0 <= j < front.len() implies size(#[trigger] front[j]) >= 0 by {
            assert(front[j] == items[j]);
        }
        lemma_total_size_nonnegative(front, size);
        assert(size(items[items.len() - 1]) >= 0);
    }
}

/// Pieces that have the sizes of the items take as much room as the sizes
/// sum up to.
pub proof fn lemma_sized_pieces<T, A>(
    items: Seq<T>,
    size: spec_fn(T) -> int,
    pieces: Seq<Seq<A>>,
    i: int,
)
    requires
        pieces.len() == items.len(),
        forall|j: int| 0 <= j < items.len() ==> (#[trigger] pieces[j]).len() == size(items[j]),
        0 <= i <= items.len(),
    ensures
        pieces.take(i).flatten().len() == total_size(items.take(i), size),
    decreases i,
{
    if i == 0 {
        assert(pieces.take(0) =~= Seq::<Seq<A>>::empty());
        assert(items.take(0) =~= Seq::<T>::empty());
    } else {
        lemma_sized_pieces(items, size, pieces, i - 1);
        lemma_flatten_split(pieces, i - 1);
        lemma_total_size_step(items, size, i - 1);
    }
}

} // verus!
