//! Fixed-size windows over stored content, addressed by index.

use vstd::arithmetic::div_mod::lemma_fundamental_div_mod;
use vstd::prelude::*;

verus! {

/// The window size used for chunked retrieval, in bytes.
pub const CHUNK_SIZE: usize = 1000000;

/// The number of windows of `size` bytes that cover `len` bytes: the ceiling of `len / size`.
pub open spec fn ceil_div(len: nat, size: nat) -> nat
    recommends
        size > 0,
{
    if len % size == 0 {
        len / size
    } else {
        len / size + 1
    }
}

pub open spec fn min_int(a: int, b: int) -> int {
    if a <= b {
        a
    } else {
        b
    }
}

/// The window of index `i`: bytes `[i * size, min((i + 1) * size, len))`,
/// clamped to the end of the content.
pub open spec fn chunk_of(content: Seq<u8>, i: nat, size: nat) -> Seq<u8> {
    content.subrange(
        min_int((i * size) as int, content.len() as int),
        min_int(((i + 1) * size) as int, content.len() as int),
    )
}

/// The windows of index `0 .. n`, concatenated in order.
pub open spec fn concat_chunks(content: Seq<u8>, size: nat, n: nat) -> Seq<u8>
    decreases n,
{
    if n == 0 {
        Seq::empty()
    } else {
        concat_chunks(content, size, (n - 1) as nat) + chunk_of(content, (n - 1) as nat, size)
    }
}

proof fn lemma_concat_chunks_prefix(content: Seq<u8>, size: nat, n: nat)
    requires
        size > 0,
    ensures
        concat_chunks(content, size, n) == content.subrange(
            0,
            min_int((n * size) as int, content.len() as int),
        ),
    decreases n,
{
    if n == 0 {
        assert(content.subrange(0, 0) =~= Seq::<u8>::empty());
    } else {
        let m = (n - 1) as nat;
        lemma_concat_chunks_prefix(content, size, m);
        assert(n * size == m * size + size) by (nonlinear_arith)
            requires
                n == m + 1,
        ;
        assert(m * size >= 0) by (nonlinear_arith);
        assert(concat_chunks(content, size, n) =~= content.subrange(
            0,
            min_int((n * size) as int, content.len() as int),
        ));
    }
}

/// The ceiling of `len / size` windows cover at least `len` bytes, and one
/// fewer would not.
pub proof fn lemma_ceil_div_bounds(len: nat, size: nat)
    requires
        size > 0,
    ensures
        ceil_div(len, size) * size >= len,
        ceil_div(len, size) > 0 ==> (ceil_div(len, size) - 1) * size < len,
{
    lemma_fundamental_div_mod(len as int, size as int);
    let q = len / size;
    let r = len % size;
    assert(len == size * q + r);
    if r == 0 {
        assert(ceil_div(len, size) * size == len) by (nonlinear_arith)
            requires
                ceil_div(len, size) == q,
                len == size * q + r,
                r == 0,
        ;
        if q > 0 {
            assert((q - 1) * size < len) by (nonlinear_arith)
                requires
                    len == size * q,
                    size > 0,
                    q > 0,
            ;
        }
    } else {
        assert(ceil_div(len, size) * size >= len) by (nonlinear_arith)
            requires
                ceil_div(len, size) == q + 1,
                len == size * q + r,
                r < size,
        ;
        assert(q * size < len) by (nonlinear_arith)
            requires
                len == size * q + r,
                r > 0,
        ;
    }
}

/// Concatenating every window, from index 0 to the last, gives back the content.
pub proof fn lemma_chunks_reassemble(content: Seq<u8>, size: nat)
    requires
        size > 0,
    ensures
        concat_chunks(content, size, ceil_div(content.len(), size)) == content,
{
    lemma_ceil_div_bounds(content.len(), size);
    lemma_concat_chunks_prefix(content, size, ceil_div(content.len(), size));
    assert(content.subrange(0, content.len() as int) =~= content);
}

/// The number of `size`-byte windows needed to cover `len` bytes.
pub fn chunk_count(len: usize, size: usize) -> (r: usize)
    requires
        size > 0,
    ensures
        r == ceil_div(len as nat, size as nat),
{
    if len % size == 0 {
        len / size
    } else {
        proof {
            lemma_fundamental_div_mod(len as int, size as int);
            assert(len / size < len) by (nonlinear_arith)
                requires
                    len == size * (len / size) + len % size,
                    len % size > 0,
                    size > 0,
                    len / size >= 0,
            ;
        }
        len / size + 1
    }
}

/// The window of index `index`, or `None` where `index` is past the last window.
pub fn chunk_at(content: &Vec<u8>, index: usize, size: usize) -> (r: Option<Vec<u8>>)
    requires
        size > 0,
    ensures
        index >= ceil_div(content@.len(), size as nat) ==> r.is_none(),
        index < ceil_div(content@.len(), size as nat) ==> (r matches Some(w) && w@ == chunk_of(
            content@,
            index as nat,
            size as nat,
        )),
{
    let count = chunk_count(content.len(), size);
    if index >= count {
        return None;
    }
    proof {
        lemma_ceil_div_bounds(content@.len(), size as nat);
        assert(index * size < content.len()) by (nonlinear_arith)
            requires
                index < count,
                (count - 1) * size < content.len(),
                size > 0,
        ;
    }
    let start = index * size;
    let end = if content.len() - start > size {
        start + size
    } else {
        content.len()
    };
    assert((index + 1) * size == index * size + size) by (nonlinear_arith);
    let mut w: Vec<u8> = Vec::new();
    let mut i = start;
    while i < end
        invariant
            start <= i <= end,
            end <= content.len(),
            w@ == content@.subrange(start as int, i as int),
        decreases end - i,
    {
        w.push(content[i]);
        assert(content@.subrange(start as int, i + 1) =~= content@.subrange(
            start as int,
            i as int,
        ).push(content@[i as int]));
        i = i + 1;
    }
    Some(w)
}

} // verus!
