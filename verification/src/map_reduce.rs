//! A fork-join map-reduce evaluator: partition an input sequence into
//! contiguous chunks, left-fold each chunk (mapping every element and
//! combining with a reduction function), then combine the partial results
//! with the same reduction function.
//!
//! The mapping and reduction functions are supplied through the [`MapReduce`]
//! trait, whose specification functions give the contracts here something
//! exact to say. Associativity of the reduction is a caller-supplied
//! invariant: nothing checks it, but the lemmas below show that whenever it
//! holds (together with an identity-like seed) the chunked evaluation agrees
//! with the fully sequential left-fold, however the input is partitioned.

use vstd::arithmetic::div_mod::lemma_fundamental_div_mod;
use vstd::prelude::*;

verus! {

/// A map-reduce problem: a pure mapping of elements `T` to values `U`, and a
/// pure combination of two `U`s. The spec functions say what the executable
/// methods compute; the executable methods must agree with them.
pub trait MapReduce<T, U>: Sized {
    /// What the mapping function returns, as a mathematical function.
    spec fn map_spec(&self, t: T) -> U;

    /// What the reduction function returns, as a mathematical function.
    spec fn reduce_spec(&self, a: U, b: U) -> U;

    /// Apply the mapping function to one element.
    fn map(&self, t: &T) -> (r: U)
        ensures
            r == self.map_spec(*t),
    ;

    /// Combine two partial results.
    fn reduce(&self, a: U, b: U) -> (r: U)
        ensures
            r == self.reduce_spec(a, b),
    ;

    /// Duplicate an accumulator value, without side effects: each partition
    /// of a chunked evaluation starts from its own copy of the seed.
    fn dup(&self, u: &U) -> (r: U)
        ensures
            r == *u,
    ;
}

/// The sequential left-fold of a mapped sequence: starting from `acc`,
/// combine in order the image of every element of `s`.
pub open spec fn fold_map<T, U, Op: MapReduce<T, U>>(op: Op, s: Seq<T>, acc: U) -> U
    decreases s.len(),
{
    if s.len() == 0 {
        acc
    } else {
        fold_map(op, s.drop_first(), op.reduce_spec(acc, op.map_spec(s[0])))
    }
}

/// The value a two-way chunked evaluation produces: an empty input returns
/// the seed unchanged; otherwise the input splits at `len / 2` (the second
/// chunk keeps the remainder), each chunk is folded from its own copy of the
/// seed, and the two partial results are combined.
pub open spec fn map_red_spec<T, U, Op: MapReduce<T, U>>(op: Op, s: Seq<T>, init: U) -> U {
    if s.len() == 0 {
        init
    } else {
        op.reduce_spec(
            fold_map(op, s.take(s.len() as int / 2), init),
            fold_map(op, s.skip(s.len() as int / 2), init),
        )
    }
}

/// Left-fold one contiguous range `[from, to)` of `data`, mapping each
/// element and combining into the accumulator in element order. This is the
/// work of a single partition.
pub fn fold_range<T, U, Op: MapReduce<T, U>>(
    data: &Vec<T>,
    op: &Op,
    from: usize,
    to: usize,
    acc: U,
) -> (r: U)
    requires
        from <= to <= data.len(),
    ensures
        r == fold_map(*op, data@.subrange(from as int, to as int), acc),
{
    let mut result = acc;
    let mut i = from;
    while i < to
        invariant
            from <= i <= to <= data.len(),
            result == fold_map(*op, data@.subrange(from as int, i as int), acc),
        decreases to - i,
    {
        let mapped = op.map(&data[i]);
        proof {
            lemma_fold_map_snoc(*op, data@.subrange(from as int, i as int), data@[i as int], acc);
            assert(data@.subrange(from as int, i as int).push(data@[i as int]) =~= data@.subrange(
                from as int,
                i as int + 1,
            ));
        }
        result = op.reduce(result, mapped);
        i = i + 1;
    }
    result
}

/// Map-reduce over `data`: split it into two contiguous chunks at
/// `data.len() / 2`, fold each chunk from its own copy of `init`, and
/// combine the two partial results with the reduction function. An empty
/// input returns `init` unchanged, and whenever the reduction is associative
/// with `init` as its identity, the result is exactly the sequential
/// left-fold of the mapped input.
pub fn map_red<T, U, Op: MapReduce<T, U>>(data: &Vec<T>, op: &Op, init: U) -> (r: U)
    ensures
        r == map_red_spec(*op, data@, init),
        data@.len() == 0 ==> r == init,
        reduce_associative(*op) && reduce_identity(*op, init) ==> r == fold_map(*op, data@, init),
{
    proof {
        if reduce_associative(*op) && reduce_identity(*op, init) {
            lemma_map_red_spec_is_fold(*op, data@, init);
        }
    }
    if data.len() == 0 {
        return init;
    }
    let mid = data.len() / 2;
    let init_copy = op.dup(&init);
    proof {
        assert(data@.subrange(0, mid as int) =~= data@.take(data@.len() as int / 2));
        assert(data@.subrange(mid as int, data@.len() as int) =~= data@.skip(
            data@.len() as int / 2,
        ));
    }
    let first = fold_range(data, op, 0, mid, init);
    let second = fold_range(data, op, mid, data.len(), init_copy);
    op.reduce(first, second)
}

/// Folding one more element after a sequence is the same as folding the
/// sequence and then combining in that element's image.
pub proof fn lemma_fold_map_snoc<T, U, Op: MapReduce<T, U>>(op: Op, s: Seq<T>, x: T, acc: U)
    ensures
        fold_map(op, s.push(x), acc) == op.reduce_spec(fold_map(op, s, acc), op.map_spec(x)),
    decreases s.len(),
{
    let s1 = s.push(x);
    assert(s1.len() == s.len() + 1);
    if s.len() == 0 {
        assert(s1[0] == x);
        assert(s1.drop_first() =~= Seq::<T>::empty());
        assert(fold_map(op, s1, acc) == fold_map(
            op,
            s1.drop_first(),
            op.reduce_spec(acc, op.map_spec(x)),
        ));
        assert(fold_map(op, s1.drop_first(), op.reduce_spec(acc, op.map_spec(x)))
            == op.reduce_spec(acc, op.map_spec(x)));
        assert(fold_map(op, s, acc) == acc);
    } else {
        assert(s1[0] == s[0]);
        assert(s1.drop_first() =~= s.drop_first().push(x));
        assert(fold_map(op, s1, acc) == fold_map(
            op,
            s.drop_first().push(x),
            op.reduce_spec(acc, op.map_spec(s[0])),
        ));
        lemma_fold_map_snoc(op, s.drop_first(), x, op.reduce_spec(acc, op.map_spec(s[0])));
        assert(fold_map(op, s, acc) == fold_map(
            op,
            s.drop_first(),
            op.reduce_spec(acc, op.map_spec(s[0])),
        ));
    }
}

/// The reduction function is associative: grouping of pairwise combinations
/// does not matter.
pub open spec fn reduce_associative<T, U, Op: MapReduce<T, U>>(op: Op) -> bool {
    forall|a: U, b: U, c: U|
        #[trigger] op.reduce_spec(op.reduce_spec(a, b), c) == op.reduce_spec(
            a,
            op.reduce_spec(b, c),
        )
}

/// `init` is a two-sided identity of the reduction function: combining it
/// with any value, on either side, leaves that value unchanged.
pub open spec fn reduce_identity<T, U, Op: MapReduce<T, U>>(op: Op, init: U) -> bool {
    (forall|a: U| #[trigger] op.reduce_spec(init, a) == a) && (forall|a: U|
        #[trigger] op.reduce_spec(a, init) == a)
}

/// A left-fold over a concatenation folds the first part and continues with
/// the second, unconditionally.
pub proof fn lemma_fold_map_append<T, U, Op: MapReduce<T, U>>(op: Op, s1: Seq<T>, s2: Seq<T>, acc: U)
    ensures
        fold_map(op, s1 + s2, acc) == fold_map(op, s2, fold_map(op, s1, acc)),
    decreases s1.len(),
{
    if s1.len() == 0 {
        assert(s1 + s2 =~= s2);
    } else {
        assert((s1 + s2)[0] == s1[0]);
        assert((s1 + s2).drop_first() =~= s1.drop_first() + s2);
        lemma_fold_map_append(op, s1.drop_first(), s2, op.reduce_spec(acc, op.map_spec(s1[0])));
    }
}

/// For an associative reduction, a value combined into a finished fold can
/// instead be combined into the fold's starting accumulator.
pub proof fn lemma_reduce_into_fold<T, U, Op: MapReduce<T, U>>(op: Op, s: Seq<T>, a: U, b: U)
    requires
        reduce_associative(op),
    ensures
        op.reduce_spec(a, fold_map(op, s, b)) == fold_map(op, s, op.reduce_spec(a, b)),
    decreases s.len(),
{
    if s.len() != 0 {
        lemma_reduce_into_fold(op, s.drop_first(), a, op.reduce_spec(b, op.map_spec(s[0])));
    }
}

/// The central law of the two-way evaluation: for an associative reduction
/// and an identity-like seed, the chunked result equals the fully sequential
/// left-fold of the mapped input.
pub proof fn lemma_map_red_spec_is_fold<T, U, Op: MapReduce<T, U>>(op: Op, s: Seq<T>, init: U)
    requires
        reduce_associative(op),
        reduce_identity(op, init),
    ensures
        map_red_spec(op, s, init) == fold_map(op, s, init),
{
    if s.len() != 0 {
        let mid = s.len() as int / 2;
        let c1 = s.take(mid);
        let c2 = s.skip(mid);
        let f1 = fold_map(op, c1, init);
        lemma_reduce_into_fold(op, c2, f1, init);
        assert(op.reduce_spec(f1, init) == f1);
        lemma_fold_map_append(op, c1, c2, init);
        assert(c1 + c2 =~= s);
    }
}

/// The concatenation, in order, of a sequence of chunks.
pub open spec fn concat_parts<T>(parts: Seq<Seq<T>>) -> Seq<T>
    decreases parts.len(),
{
    if parts.len() == 0 {
        Seq::<T>::empty()
    } else {
        concat_parts(parts.drop_last()) + parts.last()
    }
}

/// The value an evaluation over `parts` partitions produces: each partition
/// folds its chunk from its own copy of the seed, and the partial results
/// are combined in partition order. No partitions at all return the seed
/// unchanged.
pub open spec fn combine_parts<T, U, Op: MapReduce<T, U>>(op: Op, parts: Seq<Seq<T>>, init: U) -> U
    decreases parts.len(),
{
    if parts.len() == 0 {
        init
    } else if parts.len() == 1 {
        fold_map(op, parts[0], init)
    } else {
        op.reduce_spec(combine_parts(op, parts.drop_last(), init), fold_map(op, parts.last(), init))
    }
}

/// Partition invariance: for an associative reduction and an identity-like
/// seed, splitting the input into any number of contiguous chunks — one,
/// two, or N, of any sizes — and combining the per-chunk folds yields
/// exactly the sequential left-fold of the whole input. Two different
/// partitions of the same input therefore agree with each other.
pub proof fn lemma_partition_invariance<T, U, Op: MapReduce<T, U>>(op: Op, parts: Seq<Seq<T>>, init: U)
    requires
        reduce_associative(op),
        reduce_identity(op, init),
    ensures
        combine_parts(op, parts, init) == fold_map(op, concat_parts(parts), init),
    decreases parts.len(),
{
    if parts.len() == 0 {
    } else if parts.len() == 1 {
        assert(parts.drop_last().len() == 0);
        assert(concat_parts(parts.drop_last()) == Seq::<T>::empty());
        assert(parts.last() == parts[0]);
        assert(Seq::<T>::empty() + parts[0] =~= parts[0]);
    } else {
        lemma_partition_invariance(op, parts.drop_last(), init);
        let rest = concat_parts(parts.drop_last());
        let f1 = fold_map(op, rest, init);
        lemma_reduce_into_fold(op, parts.last(), f1, init);
        assert(op.reduce_spec(f1, init) == f1);
        lemma_fold_map_append(op, rest, parts.last(), init);
    }
}

/// The chunk length when a sequence of `len` elements is cut into `n`
/// partitions: the ceiling of `len / n`, so at most `n` chunks cover the
/// whole sequence.
pub open spec fn chunk_len(len: nat, n: nat) -> nat {
    if n == 0 {
        0
    } else if len % n == 0 {
        len / n
    } else {
        len / n + 1
    }
}

/// The contiguous chunks of `s` when cut every `size` elements: all chunks
/// have `size` elements except a possibly shorter final one, and together
/// they cover `s` in order.
pub open spec fn chunks_of<T>(s: Seq<T>, size: nat) -> Seq<Seq<T>>
    decreases s.len(),
{
    if size == 0 || s.len() == 0 {
        Seq::<Seq<T>>::empty()
    } else if s.len() <= size {
        seq![s]
    } else {
        seq![s.take(size as int)] + chunks_of(s.skip(size as int), size)
    }
}

/// `combine_parts` written as a loop walks it: the partial results already
/// combined so far sit in `acc`, and the remaining chunks are folded and
/// combined into it from the left.
pub open spec fn combine_from<T, U, Op: MapReduce<T, U>>(
    op: Op,
    parts: Seq<Seq<T>>,
    init: U,
    acc: U,
) -> U
    decreases parts.len(),
{
    if parts.len() == 0 {
        acc
    } else {
        combine_from(
            op,
            parts.drop_first(),
            init,
            op.reduce_spec(acc, fold_map(op, parts[0], init)),
        )
    }
}

/// Combining one more chunk after a walk is the same as walking first and
/// then combining in that chunk's fold.
pub proof fn lemma_combine_from_snoc<T, U, Op: MapReduce<T, U>>(
    op: Op,
    parts: Seq<Seq<T>>,
    c: Seq<T>,
    init: U,
    acc: U,
)
    ensures
        combine_from(op, parts.push(c), init, acc) == op.reduce_spec(
            combine_from(op, parts, init, acc),
            fold_map(op, c, init),
        ),
    decreases parts.len(),
{
    let extended = parts.push(c);
    assert(extended.len() == parts.len() + 1);
    if parts.len() == 0 {
        assert(extended[0] == c);
        assert(extended.drop_first() =~= Seq::<Seq<T>>::empty());
        assert(combine_from(op, extended, init, acc) == combine_from(
            op,
            extended.drop_first(),
            init,
            op.reduce_spec(acc, fold_map(op, c, init)),
        ));
        assert(combine_from(op, parts, init, acc) == acc);
    } else {
        assert(extended[0] == parts[0]);
        assert(extended.drop_first() =~= parts.drop_first().push(c));
        assert(combine_from(op, extended, init, acc) == combine_from(
            op,
            parts.drop_first().push(c),
            init,
            op.reduce_spec(acc, fold_map(op, parts[0], init)),
        ));
        lemma_combine_from_snoc(
            op,
            parts.drop_first(),
            c,
            init,
            op.reduce_spec(acc, fold_map(op, parts[0], init)),
        );
        assert(combine_from(op, parts, init, acc) == combine_from(
            op,
            parts.drop_first(),
            init,
            op.reduce_spec(acc, fold_map(op, parts[0], init)),
        ));
    }
}

/// The right-recursive `combine_parts` agrees with the left-to-right walk
/// `combine_from` started on the first chunk's fold.
pub proof fn lemma_combine_parts_from<T, U, Op: MapReduce<T, U>>(op: Op, parts: Seq<Seq<T>>, init: U)
    requires
        parts.len() >= 1,
    ensures
        combine_parts(op, parts, init) == combine_from(
            op,
            parts.drop_first(),
            init,
            fold_map(op, parts[0], init),
        ),
    decreases parts.len(),
{
    if parts.len() == 1 {
        assert(parts.drop_first() =~= Seq::<Seq<T>>::empty());
    } else {
        let front = parts.drop_last();
        lemma_combine_parts_from(op, front, init);
        assert(front[0] == parts[0]);
        lemma_combine_from_snoc(
            op,
            front.drop_first(),
            parts.last(),
            init,
            fold_map(op, parts[0], init),
        );
        assert(parts.drop_first() =~= front.drop_first().push(parts.last()));
    }
}

/// Concatenation of chunk sequences distributes over their joining.
pub proof fn lemma_concat_parts_append<T>(parts1: Seq<Seq<T>>, parts2: Seq<Seq<T>>)
    ensures
        concat_parts(parts1 + parts2) == concat_parts(parts1) + concat_parts(parts2),
    decreases parts2.len(),
{
    if parts2.len() == 0 {
        assert(parts1 + parts2 =~= parts1);
        assert(concat_parts(parts1) + Seq::<T>::empty() =~= concat_parts(parts1));
    } else {
        assert((parts1 + parts2).drop_last() =~= parts1 + parts2.drop_last());
        assert((parts1 + parts2).last() == parts2.last());
        lemma_concat_parts_append(parts1, parts2.drop_last());
        assert((concat_parts(parts1) + concat_parts(parts2.drop_last())) + parts2.last()
            =~= concat_parts(parts1) + (concat_parts(parts2.drop_last()) + parts2.last()));
    }
}

/// A single chunk concatenates to itself.
pub proof fn lemma_concat_parts_single<T>(c: Seq<T>)
    ensures
        concat_parts(seq![c]) == c,
{
    let parts = seq![c];
    assert(parts.len() == 1);
    assert(parts.last() == c);
    assert(parts.drop_last() =~= Seq::<Seq<T>>::empty());
    assert(concat_parts(parts) == concat_parts(parts.drop_last()) + c);
    assert(concat_parts(Seq::<Seq<T>>::empty()) == Seq::<T>::empty());
    assert(Seq::<T>::empty() + c =~= c);
}

/// The chunks of `s` cover exactly `s`, in order.
pub proof fn lemma_concat_chunks_of<T>(s: Seq<T>, size: nat)
    requires
        size >= 1,
    ensures
        concat_parts(chunks_of(s, size)) == s,
    decreases s.len(),
{
    if s.len() == 0 {
        assert(concat_parts(chunks_of(s, size)) =~= s);
    } else if s.len() <= size {
        lemma_concat_parts_single(s);
    } else {
        lemma_concat_chunks_of(s.skip(size as int), size);
        lemma_concat_parts_append(seq![s.take(size as int)], chunks_of(s.skip(size as int), size));
        lemma_concat_parts_single(s.take(size as int));
        assert(s.take(size as int) + s.skip(size as int) =~= s);
    }
}

/// Map-reduce over `data` cut into `n` partitions: each chunk of
/// `chunk_len(data.len(), n)` elements is folded from its own copy of
/// `init`, and the partial results are combined in chunk order. An empty
/// input returns `init` unchanged, and whenever the reduction is associative
/// with `init` as its identity, the result is the sequential left-fold of
/// the mapped input — the same value for every `n`.
pub fn map_red_n<T, U, Op: MapReduce<T, U>>(data: &Vec<T>, op: &Op, init: U, n: usize) -> (r: U)
    requires
        1 <= n,
    ensures
        r == combine_parts(*op, chunks_of(data@, chunk_len(data@.len(), n as nat)), init),
        data@.len() == 0 ==> r == init,
        reduce_associative(*op) && reduce_identity(*op, init) ==> r == fold_map(*op, data@, init),
{
    let len = data.len();
    if len == 0 {
        proof {
            assert(chunks_of(data@, chunk_len(0, n as nat)) =~= Seq::<Seq<T>>::empty());
        }
        return init;
    }
    proof {
        let d = (len / n) as int;
        let m = (len % n) as int;
        lemma_fundamental_div_mod(len as int, n as int);
        assert((n as int) * d + m == len);
        if m != 0 {
            assert(d + 1 <= len) by (nonlinear_arith)
                requires
                    (n as int) * d + m == len as int,
                    1 <= m,
                    1 <= n as int,
                    0 <= d,
            ;
        } else {
            assert(1 <= d) by (nonlinear_arith)
                requires
                    (n as int) * d + m == len as int,
                    m == 0,
                    1 <= len as int,
                    1 <= n as int,
                    0 <= d,
            ;
        }
    }
    let size = if len % n == 0 {
        len / n
    } else {
        len / n + 1
    };
    let ghost all_chunks = chunks_of(data@, chunk_len(data@.len(), n as nat));
    proof {
        assert(size as nat == chunk_len(data@.len(), n as nat));
        assert(size >= 1);
        assert(all_chunks.len() >= 1);
        if reduce_associative(*op) && reduce_identity(*op, init) {
            lemma_partition_invariance(*op, all_chunks, init);
            lemma_concat_chunks_of(data@, size as nat);
        }
    }
    let first_end = if size < len {
        size
    } else {
        len
    };
    let seed = op.dup(&init);
    let mut result = fold_range(data, op, 0, first_end, seed);
    let mut start = first_end;
    proof {
        lemma_combine_parts_from(*op, all_chunks, init);
        if size < len {
            assert(all_chunks == seq![data@.take(size as int)] + chunks_of(
                data@.skip(size as int),
                size as nat,
            ));
            assert(all_chunks[0] =~= data@.subrange(0, first_end as int));
            assert(all_chunks.drop_first() =~= chunks_of(data@.skip(first_end as int), size as nat));
        } else {
            assert(all_chunks == seq![data@]);
            assert(all_chunks[0] =~= data@.subrange(0, first_end as int));
            assert(all_chunks.drop_first() =~= Seq::<Seq<T>>::empty());
            assert(data@.skip(first_end as int).len() == 0);
            assert(chunks_of(data@.skip(first_end as int), size as nat)
                =~= Seq::<Seq<T>>::empty());
        }
    }
    while start < len
        invariant
            1 <= size,
            start <= len == data@.len(),
            combine_from(*op, chunks_of(data@.skip(start as int), size as nat), init, result)
                == combine_parts(*op, all_chunks, init),
        decreases len - start,
    {
        let end = if size < len - start {
            start + size
        } else {
            len
        };
        let seed = op.dup(&init);
        let part = fold_range(data, op, start, end, seed);
        proof {
            let rest = data@.skip(start as int);
            assert(rest.len() == len - start);
            if size < len - start {
                assert(rest.take(size as int) =~= data@.subrange(start as int, end as int));
                assert(rest.skip(size as int) =~= data@.skip(end as int));
                assert(chunks_of(rest, size as nat) == seq![rest.take(size as int)] + chunks_of(
                    rest.skip(size as int),
                    size as nat,
                ));
                assert(chunks_of(rest, size as nat)[0] == rest.take(size as int));
                assert(chunks_of(rest, size as nat).drop_first() =~= chunks_of(
                    data@.skip(end as int),
                    size as nat,
                ));
            } else {
                assert(rest =~= data@.subrange(start as int, end as int));
                assert(chunks_of(rest, size as nat) == seq![rest]);
                assert(chunks_of(rest, size as nat)[0] == rest);
                assert(chunks_of(rest, size as nat).drop_first() =~= Seq::<Seq<T>>::empty());
                assert(data@.skip(end as int).len() == 0);
                assert(chunks_of(data@.skip(end as int), size as nat) =~= Seq::<Seq<T>>::empty());
            }
        }
        result = op.reduce(result, part);
        start = end;
    }
    proof {
        assert(data@.skip(len as int).len() == 0);
        assert(chunks_of(data@.skip(len as int), size as nat) =~= Seq::<Seq<T>>::empty());
    }
    result
}

/// The classic length-sum problem: map a string to its character count and
/// reduce by addition. The addition saturates at `usize::MAX`, so the
/// reduction is total; saturating addition is still associative, with `0` as
/// its identity.
pub struct LenSum;

impl MapReduce<String, usize> for LenSum {
    open spec fn map_spec(&self, t: String) -> usize {
        t@.len() as usize
    }

    open spec fn reduce_spec(&self, a: usize, b: usize) -> usize {
        if a + b > usize::MAX {
            usize::MAX
        } else {
            (a + b) as usize
        }
    }

    fn map(&self, t: &String) -> (r: usize) {
        t.as_str().unicode_len()
    }

    fn reduce(&self, a: usize, b: usize) -> (r: usize) {
        if b <= usize::MAX - a {
            a + b
        } else {
            usize::MAX
        }
    }

    fn dup(&self, u: &usize) -> (r: usize) {
        *u
    }
}

/// Saturating addition is associative: both groupings equal the true sum
/// capped at `usize::MAX`.
pub proof fn lemma_len_sum_associative()
    ensures
        reduce_associative::<String, usize, LenSum>(LenSum),
{
    assert forall|a: usize, b: usize, c: usize|
        #[trigger] LenSum.reduce_spec(LenSum.reduce_spec(a, b), c) == LenSum.reduce_spec(
            a,
            LenSum.reduce_spec(b, c),
        ) by {}
}

/// Zero is a two-sided identity of saturating addition.
pub proof fn lemma_len_sum_identity()
    ensures
        reduce_identity::<String, usize, LenSum>(LenSum, 0),
{
}

} // verus!
