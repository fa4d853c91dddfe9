//! The certified store: assets keyed by (tenant, path), one authentication
//! node per asset holding the digest of its content, and a root digest over
//! the nodes in key order that is brought up to date by every mutation.
//! Upload sessions stage content across calls until it is committed.

use crate::chunk::{ceil_div, chunk_at, chunk_count, chunk_of, CHUNK_SIZE};
use crate::digest::{
    encode_leaves, leaves_represent, leaves_sorted, lemma_root_of_sorted, push_leaf, root_of,
    sha256, sha256_of, Leaf,
};
use crate::key::{
    chars_lt, compare_keys, derive_key, key_lt, lemma_key_lt_irreflexive, lemma_key_lt_transitive, KeyView,
    NamespacedKey, StoreError,
};
use crate::mime::{content_type, mime_of};
use vstd::prelude::*;

verus! {

/// One stored asset: its key, its path as text, its content and the digest
/// of the content (its authentication node).
struct Asset {
    key: NamespacedKey,
    name: String,
    content: Vec<u8>,
    digest: Vec<u8>,
}

impl Asset {
    spec fn leaf(&self) -> Leaf {
        (self.key@, self.digest@)
    }

    spec fn wf(&self) -> bool {
        &&& self.name@ == self.key@.1
        &&& self.digest@ == sha256_of(self.content@)
    }
}

/// An open upload: the bytes appended so far, in call order.
struct Session {
    key: NamespacedKey,
    buffer: Vec<u8>,
}

/// The set of paths that `tenant` holds in `assets`.
pub open spec fn tenant_paths(assets: Map<KeyView, Seq<u8>>, tenant: Seq<char>) -> Set<Seq<char>> {
    Set::new(|p: Seq<char>| assets.contains_key((tenant, p)))
}

spec fn sessions_wf(sessions: Seq<Session>, staged: Map<KeyView, Seq<u8>>) -> bool {
    &&& forall|i: int|
        0 <= i < sessions.len() ==> #[trigger] staged.contains_key(sessions[i].key@)
            && staged[sessions[i].key@] == sessions[i].buffer@
    &&& forall|k: KeyView| #[trigger]
        staged.contains_key(k) ==> exists|i: int| 0 <= i < sessions.len() && sessions[i].key@ == k
    &&& forall|i: int, j: int|
        0 <= i < j < sessions.len() ==> #[trigger] sessions[i].key@ != #[trigger] sessions[j].key@
}

pub struct AssetStore {
    assets: Vec<Asset>,
    sessions: Vec<Session>,
    root: Vec<u8>,
    contents: Ghost<Map<KeyView, Seq<u8>>>,
    nodes: Ghost<Map<KeyView, Seq<u8>>>,
    staged: Ghost<Map<KeyView, Seq<u8>>>,
}

impl AssetStore {
    /// The content stored under each key.
    pub closed spec fn assets(&self) -> Map<KeyView, Seq<u8>> {
        self.contents@
    }

    /// The authentication nodes: the digest held for each key.
    pub closed spec fn nodes(&self) -> Map<KeyView, Seq<u8>> {
        self.nodes@
    }

    /// The bytes staged by each open upload session.
    pub closed spec fn sessions(&self) -> Map<KeyView, Seq<u8>> {
        self.staged@
    }

    /// The published root digest.
    pub closed spec fn root(&self) -> Seq<u8> {
        self.root@
    }

    closed spec fn leaves(&self) -> Seq<Leaf> {
        self.assets@.map_values(|a: Asset| a.leaf())
    }

    closed spec fn assets_wf(&self) -> bool {
        &&& forall|i: int| 0 <= i < self.assets.len() ==> (#[trigger] self.assets[i]).wf()
        &&& leaves_sorted(self.leaves())
        &&& leaves_represent(self.leaves(), self.nodes@)
        &&& self.contents@.dom() == self.nodes@.dom()
        &&& forall|i: int|
            0 <= i < self.assets.len() ==> self.contents@[#[trigger] self.assets[i].key@]
                == self.assets[i].content@
    }

    closed spec fn sessions_wf(&self) -> bool {
        sessions_wf(self.sessions@, self.staged@)
    }

    /// The store's invariant: assets in strict key order, one node per asset
    /// holding the digest of its content, the root derived from the nodes,
    /// and at most one session per key.
    pub closed spec fn wf(&self) -> bool {
        &&& self.assets_wf()
        &&& self.root@ == root_of(self.nodes@)
        &&& self.sessions_wf()
    }

    /// An empty store, with no sessions.
    pub fn new() -> (r: AssetStore)
        ensures
            r.wf(),
            r.assets() == Map::<KeyView, Seq<u8>>::empty(),
            r.sessions() == Map::<KeyView, Seq<u8>>::empty(),
            r.root() == root_of(Map::<KeyView, Seq<u8>>::empty()),
    {
        let empty: Vec<u8> = Vec::new();
        let root = sha256(empty.as_slice());
        let r = AssetStore {
            assets: Vec::new(),
            sessions: Vec::new(),
            root,
            contents: Ghost(Map::empty()),
            nodes: Ghost(Map::empty()),
            staged: Ghost(Map::empty()),
        };
        proof {
            assert(r.leaves() =~= Seq::<Leaf>::empty());
            lemma_root_of_sorted(r.leaves(), r.nodes@);
            assert(encode_leaves(r.leaves()) =~= empty@);
        }
        r
    }

    /// Where `k` stands among the assets: the index of the first asset whose
    /// key does not order before `k`, and whether that asset's key is `k`.
    fn position(&self, k: &NamespacedKey) -> (r: (usize, bool))
        requires
            self.wf(),
        ensures
            r.0 <= self.assets.len(),
            forall|i: int| 0 <= i < r.0 ==> key_lt(#[trigger] self.assets[i].key@, k@),
            r.1 ==> r.0 < self.assets.len() && self.assets[r.0 as int].key@ == k@,
            !r.1 && r.0 < self.assets.len() ==> key_lt(k@, self.assets[r.0 as int].key@),
            r.1 == self.assets().contains_key(k@),
    {
        let mut i: usize = 0;
        while i < self.assets.len()
            invariant
                self.wf(),
                i <= self.assets.len(),
                forall|j: int| 0 <= j < i ==> key_lt(#[trigger] self.assets[j].key@, k@),
            decreases self.assets.len() - i,
        {
            let c = compare_keys(
                &self.assets[i].key.tenant,
                &self.assets[i].key.path,
                &k.tenant,
                &k.path,
            );
            if c == 0 {
                proof {
                    assert(self.leaves()[i as int].0 == k@);
                }
                return (i, true);
            }
            if c > 0 {
                proof {
                    self.lemma_absent_between(k@, i as int);
                }
                return (i, false);
            }
            i = i + 1;
        }
        proof {
            self.lemma_absent_between(k@, i as int);
        }
        (i, false)
    }

    proof fn lemma_absent_between(&self, k: KeyView, p: int)
        requires
            self.wf(),
            0 <= p <= self.assets.len(),
            forall|j: int| 0 <= j < p ==> key_lt(#[trigger] self.assets[j].key@, k),
            p < self.assets.len() ==> key_lt(k, self.assets[p].key@),
        ensures
            !self.assets().contains_key(k),
    {
        if self.assets().contains_key(k) {
            assert(self.nodes@.contains_key(k));
            let j = choose|j: int| 0 <= j < self.leaves().len() && self.leaves()[j].0 == k;
            assert(self.assets[j].key@ == k);
            lemma_key_lt_irreflexive(k);
            if j > p {
                assert(key_lt(self.leaves()[p].0, self.leaves()[j].0));
                lemma_key_lt_transitive(k, self.assets[p].key@, k);
            }
        }
    }

    /// Recomputes the root digest from the nodes, in key order.
    fn refresh_root(&mut self)
        requires
            old(self).assets_wf(),
            old(self).sessions_wf(),
        ensures
            final(self).wf(),
            final(self).assets@ == old(self).assets@,
            final(self).sessions@ == old(self).sessions@,
            final(self).contents == old(self).contents,
            final(self).nodes == old(self).nodes,
            final(self).staged == old(self).staged,
    {
        let mut buf: Vec<u8> = Vec::new();
        let mut i: usize = 0;
        assert(self.leaves().take(0) =~= Seq::<Leaf>::empty());
        while i < self.assets.len()
            invariant
                i <= self.assets.len(),
                buf@ == encode_leaves(self.leaves().take(i as int)),
            decreases self.assets.len() - i,
        {
            let a = &self.assets[i];
            push_leaf(&mut buf, &a.key.tenant, &a.key.path, &a.digest);
            assert(self.leaves().take(i + 1).drop_last() =~= self.leaves().take(i as int));
            i = i + 1;
        }
        assert(self.leaves().take(i as int) =~= self.leaves());
        proof {
            lemma_root_of_sorted(self.leaves(), self.nodes@);
        }
        self.root = sha256(buf.as_slice());
    }

    /// Stores `content` under `key`, replacing what was there, and brings the
    /// nodes and the root up to date.
    #[verifier::spinoff_prover]
    fn put(&mut self, key: NamespacedKey, name: String, content: Vec<u8>)
        requires
            old(self).wf(),
            name@ == key@.1,
        ensures
            final(self).wf(),
            final(self).assets() == old(self).assets().insert(key@, content@),
            final(self).sessions@ == old(self).sessions@,
            final(self).staged == old(self).staged,
    {
        let (p, found) = self.position(&key);
        let ghost k = key@;
        let ghost old_assets = self.assets@;
        let ghost old_leaves = self.leaves();
        let digest = sha256(content.as_slice());
        let ghost c = content@;
        let ghost d = digest@;
        let asset = Asset { key, name, content, digest };
        assert(asset.wf());
        if found {
            self.assets.remove(p);
            self.assets.insert(p, asset);
            assert(self.assets@ =~= old_assets.update(p as int, asset));
            assert(self.leaves() =~= old_leaves.update(p as int, (k, d)));
        } else {
            self.assets.insert(p, asset);
            assert(self.assets@ =~= old_assets.insert(p as int, asset));
            assert(self.leaves() =~= old_leaves.insert(p as int, (k, d)));
        }
        let ghost old_nodes = self.nodes@;
        let ghost old_contents = self.contents@;
        self.contents = Ghost(self.contents@.insert(k, c));
        self.nodes = Ghost(self.nodes@.insert(k, d));
        proof {
            let ls = self.leaves();
            assert forall|i: int| 0 <= i < self.assets.len() implies (
            #[trigger] self.assets[i]).wf() by {
                if found {
                    if i != p {
                        assert(self.assets[i] == old_assets[i]);
                    }
                } else if i < p {
                    assert(self.assets[i] == old_assets[i]);
                } else if i > p {
                    assert(self.assets[i] == old_assets[i - 1]);
                }
            }
            // every other key differs from k
            assert forall|i: int| 0 <= i < ls.len() && i != p implies #[trigger] ls[i].0 != k by {
                lemma_key_lt_irreflexive(k);
                if found {
                    if i < p {
                        assert(key_lt(old_leaves[i].0, old_leaves[p as int].0));
                    } else {
                        assert(key_lt(old_leaves[p as int].0, old_leaves[i].0));
                    }
                } else if i < p {
                    assert(key_lt(old_assets[i].key@, k));
                } else {
                    assert(ls[i] == old_leaves[i - 1]);
                    if i - 1 > p {
                        assert(key_lt(old_leaves[p as int].0, old_leaves[i - 1].0));
                        lemma_key_lt_transitive(k, old_leaves[p as int].0, old_leaves[i - 1].0);
                    }
                }
            }
            assert forall|i: int, j: int| 0 <= i < j < ls.len() implies key_lt(
                #[trigger] ls[i].0,
                #[trigger] ls[j].0,
            ) by {
                if found {
                    assert(ls[i].0 == old_leaves[i].0);
                    assert(ls[j].0 == old_leaves[j].0);
                } else {
                    if j < p {
                        assert(ls[j] == old_leaves[j]);
                    } else if j == p {
                        assert(ls[i] == old_leaves[i]);
                    } else if i > p {
                        assert(ls[i] == old_leaves[i - 1]);
                        assert(ls[j] == old_leaves[j - 1]);
                    } else if i == p {
                        assert(ls[j] == old_leaves[j - 1]);
                        if j - 1 > p {
                            assert(key_lt(old_leaves[p as int].0, old_leaves[j - 1].0));
                            lemma_key_lt_transitive(k, old_leaves[p as int].0, old_leaves[j - 1].0);
                        }
                    } else {
                        assert(ls[i] == old_leaves[i]);
                        assert(ls[j] == old_leaves[j - 1]);
                    }
                }
            }
            assert forall|i: int| 0 <= i < ls.len() implies #[trigger] self.nodes@.contains_key(
                ls[i].0,
            ) && self.nodes@[ls[i].0] == ls[i].1 by {
                if i != p {
                    assert(ls[i].0 != k);
                    if found || i < p {
                        assert(ls[i] == old_leaves[i]);
                        assert(old_nodes.contains_key(old_leaves[i].0));
                    } else {
                        assert(ls[i] == old_leaves[i - 1]);
                        assert(old_nodes.contains_key(old_leaves[i - 1].0));
                    }
                }
            }
            assert forall|kk: KeyView| #[trigger] self.nodes@.contains_key(kk) implies exists|i: int|
                0 <= i < ls.len() && ls[i].0 == kk by {
                if kk == k {
                    assert(ls[p as int].0 == kk);
                } else {
                    assert(old_nodes.contains_key(kk));
                    let j = choose|j: int| 0 <= j < old_leaves.len() && old_leaves[j].0 == kk;
                    if found || j < p {
                        assert(ls[j].0 == kk);
                    } else {
                        assert(ls[j + 1].0 == kk);
                    }
                }
            }
            assert(self.contents@.dom() =~= self.nodes@.dom());
            assert forall|i: int| 0 <= i < self.assets.len() implies self.contents@[
                #[trigger] self.assets[i].key@] == self.assets[i].content@ by {
                assert(ls[i].0 == self.assets[i].key@);
                if i != p {
                    if found || i < p {
                        assert(self.assets[i] == old_assets[i]);
                    } else {
                        assert(self.assets[i] == old_assets[i - 1]);
                    }
                }
            }
        }
        self.refresh_root();
    }

    /// Removes the asset at index `p`, with its node, and brings the root up to date.
    #[verifier::spinoff_prover]
    fn remove_at(&mut self, p: usize)
        requires
            old(self).wf(),
            p < old(self).assets.len(),
        ensures
            final(self).wf(),
            final(self).assets() == old(self).assets().remove(old(self).assets[p as int].key@),
            final(self).sessions@ == old(self).sessions@,
            final(self).staged == old(self).staged,
    {
        let ghost old_assets = self.assets@;
        let ghost old_leaves = self.leaves();
        let ghost old_nodes = self.nodes@;
        let ghost k = self.assets[p as int].key@;
        assert(old_leaves[p as int].0 == k);
        self.assets.remove(p);
        assert(self.assets@ =~= old_assets.remove(p as int));
        assert(self.leaves() =~= old_leaves.remove(p as int));
        self.contents = Ghost(self.contents@.remove(k));
        self.nodes = Ghost(self.nodes@.remove(k));
        proof {
            let ls = self.leaves();
            assert forall|i: int| 0 <= i < ls.len() implies #[trigger] ls[i].0 != k by {
                lemma_key_lt_irreflexive(k);
                if i < p {
                    assert(key_lt(old_leaves[i].0, old_leaves[p as int].0));
                } else {
                    assert(key_lt(old_leaves[p as int].0, old_leaves[i + 1].0));
                }
            }
            assert forall|i: int| 0 <= i < self.assets.len() implies (
            #[trigger] self.assets[i]).wf() by {
                if i >= p {
                    assert(self.assets[i] == old_assets[i + 1]);
                }
            }
            assert forall|i: int, j: int| 0 <= i < j < ls.len() implies key_lt(
                #[trigger] ls[i].0,
                #[trigger] ls[j].0,
            ) by {
                let oi = if i < p { i } else { i + 1 };
                let oj = if j < p { j } else { j + 1 };
                assert(ls[i] == old_leaves[oi]);
                assert(ls[j] == old_leaves[oj]);
            }
            assert forall|i: int| 0 <= i < ls.len() implies #[trigger] self.nodes@.contains_key(
                ls[i].0,
            ) && self.nodes@[ls[i].0] == ls[i].1 by {
                let oi = if i < p { i } else { i + 1 };
                assert(ls[i] == old_leaves[oi]);
            }
            assert forall|kk: KeyView| #[trigger] self.nodes@.contains_key(kk) implies exists|i: int|
                0 <= i < ls.len() && ls[i].0 == kk by {
                assert(old_nodes.contains_key(kk));
                let j = choose|j: int| 0 <= j < old_leaves.len() && old_leaves[j].0 == kk;
                if j < p {
                    assert(ls[j].0 == kk);
                } else {
                    assert(ls[j - 1].0 == kk);
                }
            }
            assert(self.contents@.dom() =~= self.nodes@.dom());
            assert forall|i: int| 0 <= i < self.assets.len() implies self.contents@[
                #[trigger] self.assets[i].key@] == self.assets[i].content@ by {
                assert(ls[i].0 == self.assets[i].key@);
                if i >= p {
                    assert(self.assets[i] == old_assets[i + 1]);
                }
            }
        }
        self.refresh_root();
    }

    /// Stores `content` at `path` for `tenant`, replacing any earlier content.
    /// An empty path or empty content is refused and changes nothing.
    pub fn upload_asset(&mut self, tenant: &str, path: &str, content: Vec<u8>) -> (r: Result<
        (),
        StoreError,
    >)
        requires
            old(self).wf(),
        ensures
            final(self).wf(),
            path@.len() == 0 || content@.len() == 0 ==> r == Err::<(), StoreError>(
                StoreError::InvalidInput,
            ) && *final(self) == *old(self),
            path@.len() > 0 && content@.len() > 0 ==> r is Ok && final(self).assets() == old(self).assets().insert((tenant@, path@), content@) && final(self).sessions() == old(self).sessions(),
    {
        let key = match derive_key(tenant, path) {
            Ok(k) => k,
            Err(e) => return Err(e),
        };
        if content.len() == 0 {
            return Err(StoreError::InvalidInput);
        }
        self.put(key, path.to_owned(), content);
        Ok(())
    }

    /// Removes the asset at `path` for `tenant`, with its node.
    pub fn delete_asset(&mut self, tenant: &str, path: &str) -> (r: Result<(), StoreError>)
        requires
            old(self).wf(),
        ensures
            final(self).wf(),
            path@.len() == 0 ==> r == Err::<(), StoreError>(StoreError::InvalidInput),
            path@.len() > 0 && !old(self).assets().contains_key((tenant@, path@)) ==> r == Err::<
                (),
                StoreError,
            >(StoreError::NotFound),
            r is Err ==> *final(self) == *old(self),
            path@.len() > 0 && old(self).assets().contains_key((tenant@, path@)) ==> r is Ok
                && final(self).assets() == old(self).assets().remove((tenant@, path@)) && final(self).sessions() == old(self).sessions(),
    {
        let key = match derive_key(tenant, path) {
            Ok(k) => k,
            Err(e) => return Err(e),
        };
        let (p, found) = self.position(&key);
        if !found {
            return Err(StoreError::NotFound);
        }
        self.remove_at(p);
        Ok(())
    }

    /// The content stored at `path` for `tenant`.
    pub fn get_asset(&self, tenant: &str, path: &str) -> (r: Result<Vec<u8>, StoreError>)
        requires
            self.wf(),
        ensures
            path@.len() == 0 ==> r == Err::<Vec<u8>, StoreError>(StoreError::InvalidInput),
            path@.len() > 0 && !self.assets().contains_key((tenant@, path@)) ==> r == Err::<
                Vec<u8>,
                StoreError,
            >(StoreError::NotFound),
            path@.len() > 0 && self.assets().contains_key((tenant@, path@)) ==> (r matches Ok(c)
                && c@ == self.assets()[(tenant@, path@)]),
    {
        let key = match derive_key(tenant, path) {
            Ok(k) => k,
            Err(e) => return Err(e),
        };
        let (p, found) = self.position(&key);
        if !found {
            return Err(StoreError::NotFound);
        }
        let c = self.assets[p].content.clone();
        assert(c@ =~= self.assets[p as int].content@);
        Ok(c)
    }

    /// The size and media type of the asset at `path` for `tenant`.
    pub fn get_asset_info(&self, tenant: &str, path: &str) -> (r: Option<(usize, String)>)
        requires
            self.wf(),
        ensures
            r is Some <==> path@.len() > 0 && self.assets().contains_key((tenant@, path@)),
            r matches Some(info) ==> info.0 == self.assets()[(tenant@, path@)].len() && info.1@
                == mime_of(path@),
    {
        let key = match derive_key(tenant, path) {
            Ok(k) => k,
            Err(_) => return None,
        };
        let (p, found) = self.position(&key);
        if !found {
            return None;
        }
        Some((self.assets[p].content.len(), content_type(path)))
    }

    /// The paths that `tenant` holds, in increasing order, each once.
    #[verifier::spinoff_prover]
    pub fn list_assets(&self, tenant: &str) -> (r: Vec<String>)
        requires
            self.wf(),
        ensures
            forall|i: int| 0 <= i < r.len() ==> self.assets().contains_key((tenant@, #[trigger] r[i]@)),
            forall|p: Seq<char>| #[trigger]
                self.assets().contains_key((tenant@, p)) ==> exists|i: int|
                    0 <= i < r.len() && r[i]@ == p,
            forall|i: int, j: int|
                0 <= i < j < r.len() ==> chars_lt(#[trigger] r[i]@, #[trigger] r[j]@),
    {
        let t = crate::key::chars_of(tenant);
        let mut r: Vec<String> = Vec::new();
        let ghost mut idx: Seq<int> = Seq::empty();
        let mut i: usize = 0;
        while i < self.assets.len()
            invariant
                self.wf(),
                t@ == tenant@,
                i <= self.assets.len(),
                idx.len() == r.len(),
                forall|a: int| 0 <= a < r.len() ==> 0 <= #[trigger] idx[a] < i,
                forall|a: int|
                    0 <= a < r.len() ==> self.assets[#[trigger] idx[a]].key@ == (tenant@, r[a]@),
                forall|a: int, b: int| 0 <= a < b < r.len() ==> #[trigger] idx[a] < #[trigger] idx[b],
                forall|j: int|
                    0 <= j < i && (#[trigger] self.assets[j]).key@.0 == tenant@ ==> exists|a: int|
                        0 <= a < r.len() && r[a]@ == self.assets[j].key@.1,
            decreases self.assets.len() - i,
        {
            let ghost r0 = r@;
            if crate::key::compare_chars(&self.assets[i].key.tenant, &t) == 0 {
                let name = self.assets[i].name.clone();
                r.push(name);
                proof {
                    idx = idx.push(i as int);
                    assert(r[r.len() - 1]@ == self.assets[i as int].key@.1);
                }
            }
            proof {
                assert forall|j: int|
                    0 <= j <= i && (#[trigger] self.assets[j]).key@.0 == tenant@ implies exists|a: int|
                    0 <= a < r.len() && r[a]@ == self.assets[j].key@.1 by {
                    if j < i {
                        let a = choose|a: int| 0 <= a < r0.len() && r0[a]@ == self.assets[j].key@.1;
                        assert(r[a] == r0[a]);
                    } else {
                        assert(r[r.len() - 1]@ == self.assets[j].key@.1);
                    }
                }
            }
            i = i + 1;
        }
        proof {
            let ls = self.leaves();
            assert forall|a: int| 0 <= a < r.len() implies self.assets().contains_key(
                (tenant@, #[trigger] r[a]@),
            ) by {
                assert(ls[idx[a]].0 == (tenant@, r[a]@));
            }
            assert forall|p: Seq<char>| #[trigger]
                self.assets().contains_key((tenant@, p)) implies exists|a: int|
                0 <= a < r.len() && r[a]@ == p by {
                assert(self.nodes@.contains_key((tenant@, p)));
                let j = choose|j: int| 0 <= j < ls.len() && ls[j].0 == (tenant@, p);
                assert(self.assets[j].key@.0 == tenant@);
            }
            assert forall|a: int, b: int| 0 <= a < b < r.len() implies chars_lt(
                #[trigger] r[a]@,
                #[trigger] r[b]@,
            ) by {
                assert(idx[a] < idx[b]);
                assert(key_lt(ls[idx[a]].0, ls[idx[b]].0));
                crate::key::lemma_chars_lt_irreflexive(tenant@);
            }
        }
        r
    }

    /// The number of windows of `CHUNK_SIZE` bytes that the asset at `path`
    /// for `tenant` takes.
    pub fn get_asset_chunk_count(&self, tenant: &str, path: &str) -> (r: Result<usize, StoreError>)
        requires
            self.wf(),
        ensures
            path@.len() == 0 ==> r == Err::<usize, StoreError>(StoreError::InvalidInput),
            path@.len() > 0 && !self.assets().contains_key((tenant@, path@)) ==> r == Err::<
                usize,
                StoreError,
            >(StoreError::NotFound),
            path@.len() > 0 && self.assets().contains_key((tenant@, path@)) ==> r == Ok::<
                usize,
                StoreError,
            >(ceil_div(self.assets()[(tenant@, path@)].len(), CHUNK_SIZE as nat) as usize),
    {
        let key = match derive_key(tenant, path) {
            Ok(k) => k,
            Err(e) => return Err(e),
        };
        let (p, found) = self.position(&key);
        if !found {
            return Err(StoreError::NotFound);
        }
        Ok(chunk_count(self.assets[p].content.len(), CHUNK_SIZE))
    }

    /// The window of index `index` of the asset at `path` for `tenant`.
    pub fn get_asset_chunk(&self, tenant: &str, path: &str, index: usize) -> (r: Result<
        Vec<u8>,
        StoreError,
    >)
        requires
            self.wf(),
        ensures
            path@.len() == 0 ==> r == Err::<Vec<u8>, StoreError>(StoreError::InvalidInput),
            path@.len() > 0 && !self.assets().contains_key((tenant@, path@)) ==> r == Err::<
                Vec<u8>,
                StoreError,
            >(StoreError::NotFound),
            path@.len() > 0 && self.assets().contains_key((tenant@, path@)) && index >= ceil_div(
                self.assets()[(tenant@, path@)].len(),
                CHUNK_SIZE as nat,
            ) ==> r == Err::<Vec<u8>, StoreError>(StoreError::OutOfRange),
            path@.len() > 0 && self.assets().contains_key((tenant@, path@)) && index < ceil_div(
                self.assets()[(tenant@, path@)].len(),
                CHUNK_SIZE as nat,
            ) ==> (r matches Ok(w) && w@ == chunk_of(
                self.assets()[(tenant@, path@)],
                index as nat,
                CHUNK_SIZE as nat,
            )),
    {
        let key = match derive_key(tenant, path) {
            Ok(k) => k,
            Err(e) => return Err(e),
        };
        let (p, found) = self.position(&key);
        if !found {
            return Err(StoreError::NotFound);
        }
        match chunk_at(&self.assets[p].content, index, CHUNK_SIZE) {
            Some(w) => Ok(w),
            None => Err(StoreError::OutOfRange),
        }
    }

    /// The root digest over every asset's node.
    pub fn root_hash(&self) -> (r: Vec<u8>)
        requires
            self.wf(),
        ensures
            r@ == self.root(),
            r@ == root_of(self.nodes()),
    {
        let r = self.root.clone();
        assert(r@ =~= self.root@);
        r
    }

    /// The index of the open session under `k`, if there is one.
    fn find_session(&self, k: &NamespacedKey) -> (r: Option<usize>)
        requires
            self.wf(),
        ensures
            r is None <==> !self.sessions().contains_key(k@),
            r matches Some(i) ==> i < self.sessions.len() && self.sessions[i as int].key@ == k@,
    {
        let mut i: usize = 0;
        while i < self.sessions.len()
            invariant
                self.wf(),
                i <= self.sessions.len(),
                forall|j: int| 0 <= j < i ==> (#[trigger] self.sessions[j]).key@ != k@,
            decreases self.sessions.len() - i,
        {
            let s = &self.sessions[i];
            if compare_keys(&s.key.tenant, &s.key.path, &k.tenant, &k.path) == 0 {
                assert(self.staged@.contains_key(self.sessions@[i as int].key@));
                return Some(i);
            }
            i = i + 1;
        }
        None
    }

    /// Puts `session` in the place of the session at index `i`, which has the same key.
    #[verifier::spinoff_prover]
    fn replace_session(&mut self, i: usize, session: Session)
        requires
            old(self).wf(),
            i < old(self).sessions.len(),
            session.key@ == old(self).sessions[i as int].key@,
        ensures
            final(self).wf(),
            final(self).sessions() == old(self).sessions().insert(session.key@, session.buffer@),
            final(self).assets() == old(self).assets(),
            final(self).nodes() == old(self).nodes(),
            final(self).root() == old(self).root(),
    {
        let ghost old_sessions = self.sessions@;
        let ghost k = session.key@;
        let ghost b = session.buffer@;
        let ghost old_staged = self.staged@;
        self.sessions.remove(i);
        self.sessions.insert(i, session);
        assert(self.sessions@ =~= old_sessions.update(i as int, session));
        self.staged = Ghost(self.staged@.insert(k, b));
        proof {
            let ss = self.sessions@;
            assert forall|j: int| 0 <= j < ss.len() implies #[trigger] self.staged@.contains_key(
                ss[j].key@,
            ) && self.staged@[ss[j].key@] == ss[j].buffer@ by {
                assert(ss[j] == old_sessions.update(i as int, session)[j]);
                if j < i {
                    assert(old_sessions[j].key@ != old_sessions[i as int].key@);
                    assert(old_staged.contains_key(old_sessions[j].key@));
                } else if j > i {
                    assert(old_sessions[i as int].key@ != old_sessions[j].key@);
                    assert(old_staged.contains_key(old_sessions[j].key@));
                }
            }
            assert forall|kk: KeyView| #[trigger] self.staged@.contains_key(kk) implies exists|j: int|
                0 <= j < ss.len() && ss[j].key@ == kk by {
                if kk == k {
                    assert(ss[i as int].key@ == kk);
                } else {
                    assert(old_staged.contains_key(kk));
                    let j = choose|j: int| 0 <= j < old_sessions.len() && old_sessions[j].key@ == kk;
                    assert(ss[j].key@ == kk);
                }
            }
            assert forall|a: int, c: int| 0 <= a < c < ss.len() implies #[trigger] ss[a].key@
                != #[trigger] ss[c].key@ by {
                assert(old_sessions[a].key@ != old_sessions[c].key@);
            }
        }
    }

    /// Takes out the session at index `i`.
    #[verifier::spinoff_prover]
    fn take_session(&mut self, i: usize) -> (r: Session)
        requires
            old(self).wf(),
            i < old(self).sessions.len(),
        ensures
            final(self).wf(),
            r == old(self).sessions[i as int],
            final(self).sessions() == old(self).sessions().remove(r.key@),
            final(self).assets() == old(self).assets(),
            final(self).nodes() == old(self).nodes(),
            final(self).root() == old(self).root(),
    {
        let ghost old_sessions = self.sessions@;
        let ghost old_staged = self.staged@;
        let r = self.sessions.remove(i);
        let ghost k = r.key@;
        assert(self.sessions@ =~= old_sessions.remove(i as int));
        self.staged = Ghost(self.staged@.remove(k));
        proof {
            let ss = self.sessions@;
            assert forall|j: int| 0 <= j < ss.len() implies #[trigger] self.staged@.contains_key(
                ss[j].key@,
            ) && self.staged@[ss[j].key@] == ss[j].buffer@ by {
                let oj = if j < i { j } else { j + 1 };
                assert(ss[j] == old_sessions[oj]);
                if j < i {
                    assert(old_sessions[j].key@ != old_sessions[i as int].key@);
                } else {
                    assert(old_sessions[i as int].key@ != old_sessions[j + 1].key@);
                }
            }
            assert forall|kk: KeyView| #[trigger] self.staged@.contains_key(kk) implies exists|j: int|
                0 <= j < ss.len() && ss[j].key@ == kk by {
                assert(old_staged.contains_key(kk));
                let j = choose|j: int| 0 <= j < old_sessions.len() && old_sessions[j].key@ == kk;
                if j < i {
                    assert(ss[j].key@ == kk);
                } else {
                    assert(ss[j - 1].key@ == kk);
                }
            }
            assert forall|a: int, c: int| 0 <= a < c < ss.len() implies #[trigger] ss[a].key@
                != #[trigger] ss[c].key@ by {
                let oa = if a < i { a } else { a + 1 };
                let oc = if c < i { c } else { c + 1 };
                assert(ss[a] == old_sessions[oa]);
                assert(ss[c] == old_sessions[oc]);
            }
        }
        r
    }

    /// Opens an empty upload session at `path` for `tenant`; an open session
    /// there is replaced by the empty one.
    #[verifier::spinoff_prover]
    pub fn start_upload(&mut self, tenant: &str, path: &str) -> (r: Result<(), StoreError>)
        requires
            old(self).wf(),
        ensures
            final(self).wf(),
            path@.len() == 0 ==> r == Err::<(), StoreError>(StoreError::InvalidInput) && *final(self) == *old(self),
            path@.len() > 0 ==> r is Ok && final(self).sessions() == old(self).sessions().insert(
                (tenant@, path@),
                Seq::<u8>::empty(),
            ),
            final(self).assets() == old(self).assets(),
            final(self).nodes() == old(self).nodes(),
            final(self).root() == old(self).root(),
    {
        let key = match derive_key(tenant, path) {
            Ok(k) => k,
            Err(e) => return Err(e),
        };
        match self.find_session(&key) {
            Some(i) => {
                self.replace_session(i, Session { key, buffer: Vec::new() });
            },
            None => {
                let ghost old_sessions = self.sessions@;
                let ghost old_staged = self.staged@;
                let ghost k = key@;
                self.sessions.push(Session { key, buffer: Vec::new() });
                self.staged = Ghost(self.staged@.insert(k, Seq::empty()));
                proof {
                    let ss = self.sessions@;
                    let n = old_sessions.len() as int;
                    assert(ss[n].key@ == k);
                    assert forall|j: int| 0 <= j < ss.len() implies #[trigger] self.staged@.contains_key(
                        ss[j].key@,
                    ) && self.staged@[ss[j].key@] == ss[j].buffer@ by {
                        if j < n {
                            assert(ss[j] == old_sessions[j]);
                            assert(old_staged.contains_key(old_sessions[j].key@));
                        } else {
                            assert(ss[j].buffer@ =~= Seq::<u8>::empty());
                        }
                    }
                    assert forall|kk: KeyView| #[trigger] self.staged@.contains_key(kk) implies exists|j: int|
                        0 <= j < ss.len() && ss[j].key@ == kk by {
                        if kk != k {
                            assert(old_staged.contains_key(kk));
                            let j = choose|j: int| 0 <= j < old_sessions.len() && old_sessions[j].key@ == kk;
                            assert(ss[j].key@ == kk);
                        }
                    }
                    assert forall|a: int, c: int| 0 <= a < c < ss.len() implies #[trigger] ss[a].key@
                        != #[trigger] ss[c].key@ by {
                        assert(ss[a] == old_sessions[a]);
                        if c < n {
                            assert(ss[c] == old_sessions[c]);
                        } else {
                            assert(old_staged.contains_key(old_sessions[a].key@));
                        }
                    }
                }
            },
        }
        Ok(())
    }

    /// Appends `bytes` to the open session at `path` for `tenant`.
    pub fn upload_chunk(&mut self, tenant: &str, path: &str, bytes: Vec<u8>) -> (r: Result<
        (),
        StoreError,
    >)
        requires
            old(self).wf(),
        ensures
            final(self).wf(),
            path@.len() == 0 ==> r == Err::<(), StoreError>(StoreError::InvalidInput),
            path@.len() > 0 && !old(self).sessions().contains_key((tenant@, path@)) ==> r == Err::<
                (),
                StoreError,
            >(StoreError::NotFound),
            r is Err ==> *final(self) == *old(self),
            path@.len() > 0 && old(self).sessions().contains_key((tenant@, path@)) ==> r is Ok
                && final(self).sessions() == old(self).sessions().insert(
                (tenant@, path@),
                old(self).sessions()[(tenant@, path@)] + bytes@,
            ),
            final(self).assets() == old(self).assets(),
            final(self).nodes() == old(self).nodes(),
            final(self).root() == old(self).root(),
    {
        let key = match derive_key(tenant, path) {
            Ok(k) => k,
            Err(e) => return Err(e),
        };
        match self.find_session(&key) {
            Some(i) => {
                let mut bytes = bytes;
                let mut buffer = self.sessions[i].buffer.clone();
                assert(buffer@ =~= self.sessions[i as int].buffer@);
                buffer.append(&mut bytes);
                self.replace_session(i, Session { key, buffer });
                Ok(())
            },
            None => Err(StoreError::NotFound),
        }
    }

    /// Stores the bytes of the open session at `path` for `tenant` as the
    /// asset there, and closes the session. A session with no bytes is
    /// refused and left open.
    pub fn commit_upload(&mut self, tenant: &str, path: &str) -> (r: Result<(), StoreError>)
        requires
            old(self).wf(),
        ensures
            final(self).wf(),
            path@.len() == 0 ==> r == Err::<(), StoreError>(StoreError::InvalidInput),
            path@.len() > 0 && !old(self).sessions().contains_key((tenant@, path@)) ==> r == Err::<
                (),
                StoreError,
            >(StoreError::NotFound),
            path@.len() > 0 && old(self).sessions().contains_key((tenant@, path@)) && old(self).sessions()[(tenant@, path@)].len() == 0 ==> r == Err::<
                (),
                StoreError,
            >(StoreError::InvalidInput),
            r is Err ==> *final(self) == *old(self),
            path@.len() > 0 && old(self).sessions().contains_key((tenant@, path@)) && old(self).sessions()[(tenant@, path@)].len() > 0 ==> r is Ok
                && final(self).sessions() == old(self).sessions().remove((tenant@, path@))
                && final(self).assets() == old(self).assets().insert(
                (tenant@, path@),
                old(self).sessions()[(tenant@, path@)],
            ),
    {
        let key = match derive_key(tenant, path) {
            Ok(k) => k,
            Err(e) => return Err(e),
        };
        match self.find_session(&key) {
            Some(i) => {
                if self.sessions[i].buffer.len() == 0 {
                    return Err(StoreError::InvalidInput);
                }
                let session = self.take_session(i);
                self.put(key, path.to_owned(), session.buffer);
                Ok(())
            },
            None => Err(StoreError::NotFound),
        }
    }

    /// Discards the open session at `path` for `tenant`; the stored assets
    /// are left as they are.
    pub fn abort_upload(&mut self, tenant: &str, path: &str) -> (r: Result<(), StoreError>)
        requires
            old(self).wf(),
        ensures
            final(self).wf(),
            path@.len() == 0 ==> r == Err::<(), StoreError>(StoreError::InvalidInput),
            path@.len() > 0 && !old(self).sessions().contains_key((tenant@, path@)) ==> r == Err::<
                (),
                StoreError,
            >(StoreError::NotFound),
            r is Err ==> *final(self) == *old(self),
            path@.len() > 0 && old(self).sessions().contains_key((tenant@, path@)) ==> r is Ok
                && final(self).sessions() == old(self).sessions().remove((tenant@, path@)),
            final(self).assets() == old(self).assets(),
            final(self).nodes() == old(self).nodes(),
            final(self).root() == old(self).root(),
    {
        let key = match derive_key(tenant, path) {
            Ok(k) => k,
            Err(e) => return Err(e),
        };
        match self.find_session(&key) {
            Some(i) => {
                self.take_session(i);
                Ok(())
            },
            None => Err(StoreError::NotFound),
        }
    }
}


/// Every asset has exactly one node, which holds the digest of the asset's
/// content, and the root is derived from exactly those nodes.
pub proof fn lemma_nodes_track_assets(s: &AssetStore)
    requires
        s.wf(),
    ensures
        s.nodes().dom() == s.assets().dom(),
        forall|k: KeyView| #[trigger]
            s.assets().contains_key(k) ==> s.nodes()[k] == sha256_of(s.assets()[k]),
        s.root() == root_of(s.nodes()),
{
    assert forall|k: KeyView| #[trigger] s.assets().contains_key(k) implies s.nodes()[k]
        == sha256_of(s.assets()[k]) by {
        assert(s.nodes@.contains_key(k));
        let i = choose|i: int| 0 <= i < s.leaves().len() && s.leaves()[i].0 == k;
        assert(s.assets[i].key@ == k);
        assert(s.assets[i].wf());
    }
}

/// Two stores that hold the same assets hold the same nodes and publish the
/// same root.
pub proof fn lemma_root_determined_by_assets(s1: &AssetStore, s2: &AssetStore)
    requires
        s1.wf(),
        s2.wf(),
        s1.assets() == s2.assets(),
    ensures
        s1.nodes() == s2.nodes(),
        s1.root() == s2.root(),
{
    lemma_nodes_track_assets(s1);
    lemma_nodes_track_assets(s2);
    assert(s1.nodes() =~= s2.nodes());
}

/// After content is stored under a key, reading the key gives that content;
/// storing the same content under it once more leaves the root unchanged.
pub proof fn lemma_overwrite_idempotent(
    before: &AssetStore,
    once: &AssetStore,
    twice: &AssetStore,
    key: KeyView,
    content: Seq<u8>,
)
    requires
        before.wf(),
        once.wf(),
        twice.wf(),
        once.assets() == before.assets().insert(key, content),
        twice.assets() == once.assets().insert(key, content),
    ensures
        once.assets().contains_key(key),
        once.assets()[key] == content,
        twice.assets() == once.assets(),
        twice.root() == once.root(),
{
    assert(twice.assets() =~= once.assets());
    lemma_root_determined_by_assets(once, twice);
}

/// Deleting a present key removes its asset and its node, so the nodes from
/// which the root is derived change; deleting the only key restores the
/// root of the empty store.
pub proof fn lemma_delete_removes_node(before: &AssetStore, after: &AssetStore, key: KeyView)
    requires
        before.wf(),
        after.wf(),
        before.assets().contains_key(key),
        after.assets() == before.assets().remove(key),
    ensures
        !after.assets().contains_key(key),
        after.nodes() != before.nodes(),
        before.assets().dom() == set![key] ==> after.root() == root_of(
            Map::<KeyView, Seq<u8>>::empty(),
        ),
{
    lemma_nodes_track_assets(before);
    lemma_nodes_track_assets(after);
    assert(before.nodes().contains_key(key));
    assert(!after.nodes().contains_key(key));
    if before.assets().dom() == set![key] {
        assert(after.assets().dom() =~= Set::<KeyView>::empty());
        assert(after.nodes() =~= Map::<KeyView, Seq<u8>>::empty());
    }
}

/// An upload that is started, given `b1` and then `b2`, and committed stores
/// `b1 + b2` under its key and leaves no session there.
pub proof fn lemma_upload_lifecycle(
    s0: &AssetStore,
    s1: &AssetStore,
    s2: &AssetStore,
    s3: &AssetStore,
    s4: &AssetStore,
    key: KeyView,
    b1: Seq<u8>,
    b2: Seq<u8>,
)
    requires
        s1.sessions() == s0.sessions().insert(key, Seq::<u8>::empty()),
        s2.sessions() == s1.sessions().insert(key, s1.sessions()[key] + b1),
        s3.sessions() == s2.sessions().insert(key, s2.sessions()[key] + b2),
        s4.sessions() == s3.sessions().remove(key),
        s4.assets() == s3.assets().insert(key, s3.sessions()[key]),
    ensures
        s4.assets()[key] == b1 + b2,
        !s4.sessions().contains_key(key),
{
    assert(Seq::<u8>::empty() + b1 =~= b1);
}

/// Aborting an upload leaves the assets, and so the root, as they were, and
/// no session under the key.
pub proof fn lemma_abort_keeps_assets(before: &AssetStore, after: &AssetStore, key: KeyView)
    requires
        before.wf(),
        after.wf(),
        after.sessions() == before.sessions().remove(key),
        after.assets() == before.assets(),
    ensures
        !after.sessions().contains_key(key),
        after.root() == before.root(),
{
    lemma_root_determined_by_assets(before, after);
}

/// Storing a path for one tenant leaves the paths of every other tenant as
/// they were.
pub proof fn lemma_tenant_isolation(
    before: &AssetStore,
    after: &AssetStore,
    a: Seq<char>,
    b: Seq<char>,
    path: Seq<char>,
    content: Seq<u8>,
)
    requires
        a != b,
        after.assets() == before.assets().insert((a, path), content),
    ensures
        tenant_paths(after.assets(), b) == tenant_paths(before.assets(), b),
        !before.assets().contains_key((b, path)) ==> !tenant_paths(after.assets(), b).contains(
            path,
        ),
{
    assert(tenant_paths(after.assets(), b) =~= tenant_paths(before.assets(), b));
}

} // verus!
