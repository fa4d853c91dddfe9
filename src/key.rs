//! Namespaced keys: a tenant identity paired with a logical path, ordered
//! lexicographically as a tuple so that no two (tenant, path) pairs collide.

use vstd::prelude::*;

verus! {

/// The mathematical value of a namespaced key: (tenant, path).
pub type KeyView = (Seq<char>, Seq<char>);

/// Lexicographic order on character sequences, comparing code points.
pub open spec fn chars_lt(a: Seq<char>, b: Seq<char>) -> bool
    decreases a.len(),
{
    if a.len() == 0 {
        b.len() > 0
    } else if b.len() == 0 {
        false
    } else if a[0] != b[0] {
        (a[0] as int) < (b[0] as int)
    } else {
        chars_lt(a.drop_first(), b.drop_first())
    }
}

/// Tuple order on keys: by tenant first, then by path.
pub open spec fn key_lt(a: KeyView, b: KeyView) -> bool {
    chars_lt(a.0, b.0) || (a.0 == b.0 && chars_lt(a.1, b.1))
}

pub proof fn lemma_chars_lt_irreflexive(a: Seq<char>)
    ensures
        !chars_lt(a, a),
    decreases a.len(),
{
    if a.len() > 0 {
        lemma_chars_lt_irreflexive(a.drop_first());
    }
}

pub proof fn lemma_chars_lt_transitive(a: Seq<char>, b: Seq<char>, c: Seq<char>)
    requires
        chars_lt(a, b),
        chars_lt(b, c),
    ensures
        chars_lt(a, c),
    decreases a.len(),
{
    if a.len() > 0 && b.len() > 0 && c.len() > 0 {
        if a[0] == b[0] && b[0] == c[0] {
            lemma_chars_lt_transitive(a.drop_first(), b.drop_first(), c.drop_first());
        }
    }
}

pub proof fn lemma_key_lt_irreflexive(a: KeyView)
    ensures
        !key_lt(a, a),
{
    lemma_chars_lt_irreflexive(a.0);
    lemma_chars_lt_irreflexive(a.1);
}

pub proof fn lemma_key_lt_transitive(a: KeyView, b: KeyView, c: KeyView)
    requires
        key_lt(a, b),
        key_lt(b, c),
    ensures
        key_lt(a, c),
{
    if chars_lt(a.0, b.0) && chars_lt(b.0, c.0) {
        lemma_chars_lt_transitive(a.0, b.0, c.0);
    } else if a.0 == b.0 && b.0 == c.0 {
        lemma_chars_lt_transitive(a.1, b.1, c.1);
    }
}

pub proof fn lemma_key_lt_asymmetric(a: KeyView, b: KeyView)
    requires
        key_lt(a, b),
    ensures
        !key_lt(b, a),
{
    if key_lt(b, a) {
        lemma_key_lt_transitive(a, b, a);
        lemma_key_lt_irreflexive(a);
    }
}

/// Why a request was refused.
#[derive(Clone, Copy, Debug, PartialEq, Eq, Structural)]
pub enum StoreError {
    /// An empty path, empty content, or a commit of an empty upload.
    InvalidInput,
    /// No asset, or no upload session, under the key.
    NotFound,
    /// A chunk index at or past the asset's chunk count.
    OutOfRange,
}

/// A tenant identity and a logical path, kept apart so that no two distinct
/// pairs can name the same key.
pub struct NamespacedKey {
    pub tenant: Vec<char>,
    pub path: Vec<char>,
}

impl View for NamespacedKey {
    type V = KeyView;

    open spec fn view(&self) -> KeyView {
        (self.tenant@, self.path@)
    }
}

impl NamespacedKey {
    pub fn duplicate(&self) -> (r: NamespacedKey)
        ensures
            r@ == self@,
    {
        let t = self.tenant.clone();
        let p = self.path.clone();
        assert(t@ =~= self.tenant@);
        assert(p@ =~= self.path@);
        NamespacedKey { tenant: t, path: p }
    }
}

/// The key under which `tenant` stores `path`; an empty path names nothing.
pub fn derive_key(tenant: &str, path: &str) -> (r: Result<NamespacedKey, StoreError>)
    ensures
        path@.len() == 0 ==> r == Err::<NamespacedKey, StoreError>(StoreError::InvalidInput),
        path@.len() > 0 ==> (r matches Ok(k) && k@ == (tenant@, path@)),
{
    let p = chars_of(path);
    if p.len() == 0 {
        return Err(StoreError::InvalidInput);
    }
    Ok(NamespacedKey { tenant: chars_of(tenant), path: p })
}

/// Copies the characters of `s` into a vector.
pub fn chars_of(s: &str) -> (r: Vec<char>)
    ensures
        r@ == s@,
{
    let n = s.unicode_len();
    let mut r: Vec<char> = Vec::new();
    let mut i: usize = 0;
    while i < n
        invariant
            n == s@.len(),
            i <= n,
            r@ == s@.subrange(0, i as int),
        decreases n - i,
    {
        r.push(s.get_char(i));
        i = i + 1;
    }
    assert(r@ =~= s@);
    r
}

/// Three-way comparison of character sequences: negative, zero or positive
/// as `a` orders before, equal to, or after `b`.
pub fn compare_chars(a: &Vec<char>, b: &Vec<char>) -> (r: i8)
    ensures
        r < 0 <==> chars_lt(a@, b@),
        r == 0 <==> a@ == b@,
        r > 0 <==> chars_lt(b@, a@),
{
    let mut i: usize = 0;
    assert(a@.skip(0) =~= a@);
    assert(b@.skip(0) =~= b@);
    while i < a.len() && i < b.len()
        invariant
            i <= a.len(),
            i <= b.len(),
            a@.subrange(0, i as int) == b@.subrange(0, i as int),
            chars_lt(a@, b@) == chars_lt(a@.skip(i as int), b@.skip(i as int)),
            chars_lt(b@, a@) == chars_lt(b@.skip(i as int), a@.skip(i as int)),
        decreases a.len() - i,
    {
        assert(a@.skip(i as int)[0] == a[i as int]);
        assert(b@.skip(i as int)[0] == b[i as int]);
        if a[i] != b[i] {
            proof {
                if a@ == b@ {
                    assert(a@[i as int] == b@[i as int]);
                }
            }
            if a[i] < b[i] {
                return -1;
            } else {
                return 1;
            }
        }
        assert(a@.skip(i as int).drop_first() =~= a@.skip(i + 1));
        assert(b@.skip(i as int).drop_first() =~= b@.skip(i + 1));
        assert(a@.subrange(0, i + 1) =~= a@.subrange(0, i as int).push(a[i as int]));
        assert(b@.subrange(0, i + 1) =~= b@.subrange(0, i as int).push(b[i as int]));
        i = i + 1;
    }
    if a.len() < b.len() {
        proof {
            if a@ == b@ {
                assert(a@.len() == b@.len());
            }
        }
        -1
    } else if b.len() < a.len() {
        proof {
            if a@ == b@ {
                assert(a@.len() == b@.len());
            }
        }
        1
    } else {
        assert(a@ =~= a@.subrange(0, i as int));
        assert(b@ =~= b@.subrange(0, i as int));
        proof {
            lemma_chars_lt_irreflexive(a@);
        }
        0
    }
}

/// Three-way comparison of keys in tuple order.
pub fn compare_keys(t1: &Vec<char>, p1: &Vec<char>, t2: &Vec<char>, p2: &Vec<char>) -> (r: i8)
    ensures
        r < 0 <==> key_lt((t1@, p1@), (t2@, p2@)),
        r == 0 <==> (t1@, p1@) == (t2@, p2@),
        r > 0 <==> key_lt((t2@, p2@), (t1@, p1@)),
{
    let c = compare_chars(t1, t2);
    if c != 0 {
        proof {
            lemma_chars_lt_irreflexive(t1@);
        }
        c
    } else {
        compare_chars(p1, p2)
    }
}

} // verus!
