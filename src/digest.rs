//! Content digests and the root digest that summarises a set of
//! authentication nodes (key, content digest), taken in key order.

use crate::key::{
    key_lt, lemma_key_lt_asymmetric, lemma_key_lt_irreflexive, KeyView,
};
use vstd::prelude::*;

verus! {

/// The SHA-256 digest of a byte sequence.
pub uninterp spec fn sha256_of(data: Seq<u8>) -> Seq<u8>;

/// Relies on `sha2::Sha256::digest`: the SHA-256 digest of `data`, which is
/// 32 bytes long and depends on the bytes alone.
#[verifier::external_body]
pub(crate) fn sha256(data: &[u8]) -> (r: Vec<u8>)
    ensures
        r@ == sha256_of(data@),
        r@.len() == 32,
{
    <sha2::Sha256 as sha2::Digest>::digest(data).to_vec()
}

/// An authentication node: a key and the digest of the content stored under it.
pub type Leaf = (KeyView, Seq<u8>);

/// Bytes that close an encoded character sequence; no character encodes to
/// them, since a code point's top byte is zero.
pub open spec fn terminator() -> Seq<u8> {
    seq![0xffu8, 0xffu8, 0xffu8, 0xffu8]
}

/// A character as four big-endian bytes of its code point.
pub open spec fn char_bytes(c: char) -> Seq<u8> {
    let x = c as u32;
    seq![(x / 0x1000000) as u8, (x / 0x10000 % 0x100) as u8, (x / 0x100 % 0x100) as u8, (x % 0x100) as u8]
}

/// A character sequence as the concatenation of its characters' bytes.
pub open spec fn encode_chars(s: Seq<char>) -> Seq<u8>
    decreases s.len(),
{
    if s.len() == 0 {
        Seq::empty()
    } else {
        encode_chars(s.drop_last()) + char_bytes(s.last())
    }
}

/// One node: the tenant and the path, each closed by the terminator, then the digest.
pub open spec fn encode_leaf(l: Leaf) -> Seq<u8> {
    encode_chars(l.0.0) + terminator() + encode_chars(l.0.1) + terminator() + l.1
}

pub open spec fn encode_leaves(ls: Seq<Leaf>) -> Seq<u8>
    decreases ls.len(),
{
    if ls.len() == 0 {
        Seq::empty()
    } else {
        encode_leaves(ls.drop_last()) + encode_leaf(ls.last())
    }
}

/// Keys strictly increase along the sequence.
pub open spec fn leaves_sorted(ls: Seq<Leaf>) -> bool {
    forall|i: int, j: int| 0 <= i < j < ls.len() ==> key_lt(#[trigger] ls[i].0, #[trigger] ls[j].0)
}

/// The sequence holds exactly the entries of `m`.
pub open spec fn leaves_represent(ls: Seq<Leaf>, m: Map<KeyView, Seq<u8>>) -> bool {
    &&& forall|i: int|
        0 <= i < ls.len() ==> #[trigger] m.contains_key(ls[i].0) && m[ls[i].0] == ls[i].1
    &&& forall|k: KeyView| #[trigger]
        m.contains_key(k) ==> exists|i: int| 0 <= i < ls.len() && ls[i].0 == k
}

/// The nodes of `m` in key order.
pub open spec fn sorted_leaves(m: Map<KeyView, Seq<u8>>) -> Seq<Leaf> {
    choose|ls: Seq<Leaf>| leaves_sorted(ls) && leaves_represent(ls, m)
}

/// The root digest of a set of nodes: the digest of their encoding in key order.
pub open spec fn root_of(m: Map<KeyView, Seq<u8>>) -> Seq<u8> {
    sha256_of(encode_leaves(sorted_leaves(m)))
}

/// Two key-sorted sequences that hold the same entries are the same sequence.
pub proof fn lemma_sorted_leaves_unique(s1: Seq<Leaf>, s2: Seq<Leaf>, m: Map<KeyView, Seq<u8>>)
    requires
        leaves_sorted(s1),
        leaves_sorted(s2),
        leaves_represent(s1, m),
        leaves_represent(s2, m),
    ensures
        s1 == s2,
    decreases s1.len(),
{
    if s1.len() == 0 {
        if s2.len() > 0 {
            assert(m.contains_key(s2[0].0));
        }
        assert(s1 =~= s2);
    } else {
        if s2.len() == 0 {
            assert(m.contains_key(s1[0].0));
        }
        let k1 = s1[0].0;
        let k2 = s2[0].0;
        assert(m.contains_key(k1));
        assert(m.contains_key(k2));
        let j = choose|j: int| 0 <= j < s2.len() && s2[j].0 == k1;
        let i = choose|i: int| 0 <= i < s1.len() && s1[i].0 == k2;
        if k1 != k2 {
            assert(j > 0 && i > 0);
            assert(key_lt(s2[0].0, s2[j].0));
            assert(key_lt(s1[0].0, s1[i].0));
            lemma_key_lt_asymmetric(k1, k2);
        }
        let m2 = m.remove(k1);
        let t1 = s1.drop_first();
        let t2 = s2.drop_first();
        assert forall|a: int| 0 <= a < t1.len() implies #[trigger] m2.contains_key(t1[a].0)
            && m2[t1[a].0] == t1[a].1 by {
            assert(key_lt(s1[0].0, s1[a + 1].0));
            lemma_key_lt_irreflexive(k1);
        }
        assert forall|a: int| 0 <= a < t2.len() implies #[trigger] m2.contains_key(t2[a].0)
            && m2[t2[a].0] == t2[a].1 by {
            assert(key_lt(s2[0].0, s2[a + 1].0));
            lemma_key_lt_irreflexive(k1);
        }
        assert forall|k: KeyView| #[trigger] m2.contains_key(k) implies exists|a: int|
            0 <= a < t1.len() && t1[a].0 == k by {
            assert(m.contains_key(k));
            let a = choose|a: int| 0 <= a < s1.len() && s1[a].0 == k;
            assert(t1[a - 1].0 == k);
        }
        assert forall|k: KeyView| #[trigger] m2.contains_key(k) implies exists|a: int|
            0 <= a < t2.len() && t2[a].0 == k by {
            assert(m.contains_key(k));
            let a = choose|a: int| 0 <= a < s2.len() && s2[a].0 == k;
            assert(t2[a - 1].0 == k);
        }
        assert forall|a: int, b: int| 0 <= a < b < t1.len() implies key_lt(
            #[trigger] t1[a].0,
            #[trigger] t1[b].0,
        ) by {
            assert(key_lt(s1[a + 1].0, s1[b + 1].0));
        }
        assert forall|a: int, b: int| 0 <= a < b < t2.len() implies key_lt(
            #[trigger] t2[a].0,
            #[trigger] t2[b].0,
        ) by {
            assert(key_lt(s2[a + 1].0, s2[b + 1].0));
        }
        lemma_sorted_leaves_unique(t1, t2, m2);
        assert(s1[0] == s2[0]);
        assert(s1 =~= seq![s1[0]] + t1);
        assert(s2 =~= seq![s2[0]] + t2);
    }
}

/// A key-sorted sequence that holds exactly the nodes of `m` determines its root.
pub proof fn lemma_root_of_sorted(ls: Seq<Leaf>, m: Map<KeyView, Seq<u8>>)
    requires
        leaves_sorted(ls),
        leaves_represent(ls, m),
    ensures
        sorted_leaves(m) == ls,
        root_of(m) == sha256_of(encode_leaves(ls)),
{
    let s = sorted_leaves(m);
    assert(leaves_sorted(s) && leaves_represent(s, m));
    lemma_sorted_leaves_unique(s, ls, m);
}

/// Appends the encoding of a character sequence.
pub fn push_chars(buf: &mut Vec<u8>, s: &Vec<char>)
    ensures
        final(buf)@ == old(buf)@ + encode_chars(s@),
{
    let ghost start = buf@;
    let mut i: usize = 0;
    assert(s@.take(0) =~= Seq::<char>::empty());
    assert(start + encode_chars(s@.take(0)) =~= start);
    while i < s.len()
        invariant
            i <= s.len(),
            buf@ == start + encode_chars(s@.take(i as int)),
        decreases s.len() - i,
    {
        let x: u32 = #[verifier::truncate] (s[i] as u32);
        buf.push((x / 0x1000000) as u8);
        buf.push((x / 0x10000 % 0x100) as u8);
        buf.push((x / 0x100 % 0x100) as u8);
        buf.push((x % 0x100) as u8);
        assert(s@.take(i + 1).drop_last() =~= s@.take(i as int));
        assert(s@.take(i + 1).last() == s@[i as int]);
        i = i + 1;
        assert(buf@ =~= start + encode_chars(s@.take(i as int)));
    }
    assert(s@.take(s.len() as int) =~= s@);
}

/// Appends the encoding of the node (`(tenant, path)`, `digest`).
pub fn push_leaf(buf: &mut Vec<u8>, tenant: &Vec<char>, path: &Vec<char>, digest: &Vec<u8>)
    ensures
        final(buf)@ == old(buf)@ + encode_leaf(((tenant@, path@), digest@)),
{
    let ghost start = buf@;
    push_chars(buf, tenant);
    buf.push(0xff);
    buf.push(0xff);
    buf.push(0xff);
    buf.push(0xff);
    push_chars(buf, path);
    buf.push(0xff);
    buf.push(0xff);
    buf.push(0xff);
    buf.push(0xff);
    let mut i: usize = 0;
    let ghost mid = buf@;
    while i < digest.len()
        invariant
            i <= digest.len(),
            buf@ == mid + digest@.take(i as int),
        decreases digest.len() - i,
    {
        buf.push(digest[i]);
        assert(digest@.take(i + 1) =~= digest@.take(i as int).push(digest@[i as int]));
        i = i + 1;
    }
    assert(digest@.take(digest.len() as int) =~= digest@);
    assert(buf@ =~= start + encode_leaf(((tenant@, path@), digest@)));
}

} // verus!
