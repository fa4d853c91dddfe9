//! A per-tenant registry of content-addressed file records: each tenant's
//! records are kept in the order in which they were added.

use crate::key::{chars_of, compare_chars, StoreError};
use vstd::prelude::*;

verus! {

/// A file held elsewhere under a content identifier, as its owner described it.
#[derive(Clone, Debug)]
pub struct IpfsFile {
    pub name: String,
    pub cid: String,
    pub size: u64,
    pub content_type: String,
    pub uploaded_at: u64,
}

/// The value of a record: (name, cid, size, content type, time of upload).
pub type FileView = (Seq<char>, Seq<char>, u64, Seq<char>, u64);

impl View for IpfsFile {
    type V = FileView;

    open spec fn view(&self) -> FileView {
        (self.name@, self.cid@, self.size, self.content_type@, self.uploaded_at)
    }
}

impl IpfsFile {
    /// A copy of the record.
    pub fn duplicate(&self) -> (r: IpfsFile)
        ensures
            r@ == self@,
    {
        IpfsFile {
            name: self.name.clone(),
            cid: self.cid.clone(),
            size: self.size,
            content_type: self.content_type.clone(),
            uploaded_at: self.uploaded_at,
        }
    }
}

pub open spec fn file_views(files: Seq<IpfsFile>) -> Seq<FileView> {
    files.map_values(|f: IpfsFile| f@)
}

/// The records that `tenant` holds in `files`, oldest first.
pub open spec fn listing(files: Map<Seq<char>, Seq<FileView>>, tenant: Seq<char>) -> Seq<FileView> {
    if files.contains_key(tenant) {
        files[tenant]
    } else {
        Seq::empty()
    }
}

/// The records of `files` whose cid is not `cid`, in their order.
pub open spec fn without_cid(files: Seq<FileView>, cid: Seq<char>) -> Seq<FileView> {
    files.filter(|f: FileView| f.1 != cid)
}

struct TenantFiles {
    tenant: Vec<char>,
    files: Vec<IpfsFile>,
}

pub struct FileRegistry {
    entries: Vec<TenantFiles>,
    model: Ghost<Map<Seq<char>, Seq<FileView>>>,
}

impl FileRegistry {
    /// The records of each tenant, oldest first.
    pub closed spec fn files(&self) -> Map<Seq<char>, Seq<FileView>> {
        self.model@
    }

    /// One entry per tenant, each holding that tenant's records.
    pub closed spec fn wf(&self) -> bool {
        &&& forall|i: int|
            0 <= i < self.entries.len() ==> #[trigger] self.model@.contains_key(
                self.entries[i].tenant@,
            ) && self.model@[self.entries[i].tenant@] == file_views(self.entries[i].files@)
        &&& forall|t: Seq<char>| #[trigger]
            self.model@.contains_key(t) ==> exists|i: int|
                0 <= i < self.entries.len() && self.entries[i].tenant@ == t
        &&& forall|i: int, j: int|
            0 <= i < j < self.entries.len() ==> #[trigger] self.entries[i].tenant@
                != #[trigger] self.entries[j].tenant@
    }

    /// A registry with no records.
    pub fn new() -> (r: FileRegistry)
        ensures
            r.wf(),
            r.files() == Map::<Seq<char>, Seq<FileView>>::empty(),
    {
        FileRegistry { entries: Vec::new(), model: Ghost(Map::empty()) }
    }

    fn find(&self, tenant: &Vec<char>) -> (r: Option<usize>)
        requires
            self.wf(),
        ensures
            r is None <==> !self.files().contains_key(tenant@),
            r matches Some(i) ==> i < self.entries.len() && self.entries[i as int].tenant@
                == tenant@,
    {
        let mut i: usize = 0;
        while i < self.entries.len()
            invariant
                self.wf(),
                i <= self.entries.len(),
                forall|j: int| 0 <= j < i ==> (#[trigger] self.entries[j]).tenant@ != tenant@,
            decreases self.entries.len() - i,
        {
            if compare_chars(&self.entries[i].tenant, tenant) == 0 {
                assert(self.model@.contains_key(self.entries@[i as int].tenant@));
                return Some(i);
            }
            i = i + 1;
        }
        None
    }

    /// Gives the tenant of entry `i` the records `files`.
    #[verifier::spinoff_prover]
    fn set_files(&mut self, i: usize, files: Vec<IpfsFile>)
        requires
            old(self).wf(),
            i < old(self).entries.len(),
        ensures
            final(self).wf(),
            final(self).files() == old(self).files().insert(
                old(self).entries[i as int].tenant@,
                file_views(files@),
            ),
    {
        let ghost old_entries = self.entries@;
        let ghost old_model = self.model@;
        let entry = self.entries.remove(i);
        let ghost t = entry.tenant@;
        self.entries.insert(i, TenantFiles { tenant: entry.tenant, files });
        assert(self.entries@ =~= old_entries.update(
            i as int,
            TenantFiles { tenant: self.entries@[i as int].tenant, files: self.entries@[i as int].files },
        ));
        self.model = Ghost(self.model@.insert(t, file_views(files@)));
        proof {
            let es = self.entries@;
            assert forall|j: int| 0 <= j < es.len() implies #[trigger] self.model@.contains_key(
                es[j].tenant@,
            ) && self.model@[es[j].tenant@] == file_views(es[j].files@) by {
                if j < i {
                    assert(old_entries[j].tenant@ != old_entries[i as int].tenant@);
                } else if j > i {
                    assert(old_entries[i as int].tenant@ != old_entries[j].tenant@);
                }
                if j != i {
                    assert(es[j] == old_entries[j]);
                    assert(old_model.contains_key(old_entries[j].tenant@));
                }
            }
            assert forall|tt: Seq<char>| #[trigger] self.model@.contains_key(tt) implies exists|
                j: int,
            | 0 <= j < es.len() && es[j].tenant@ == tt by {
                if tt == t {
                    assert(es[i as int].tenant@ == tt);
                } else {
                    assert(old_model.contains_key(tt));
                    let j = choose|j: int| 0 <= j < old_entries.len() && old_entries[j].tenant@ == tt;
                    assert(es[j].tenant@ == tt);
                }
            }
            assert forall|a: int, c: int| 0 <= a < c < es.len() implies #[trigger] es[a].tenant@
                != #[trigger] es[c].tenant@ by {
                assert(old_entries[a].tenant@ != old_entries[c].tenant@);
            }
        }
    }

    /// Records a file for `tenant` after its earlier records. A record with an
    /// empty name or an empty cid is refused and changes nothing.
    #[verifier::spinoff_prover]
    pub fn add_ipfs_file(
        &mut self,
        tenant: &str,
        name: String,
        cid: String,
        size: u64,
        content_type: String,
        uploaded_at: u64,
    ) -> (r: Result<(), StoreError>)
        requires
            old(self).wf(),
        ensures
            final(self).wf(),
            name@.len() == 0 || cid@.len() == 0 ==> r == Err::<(), StoreError>(
                StoreError::InvalidInput,
            ) && final(self).files() == old(self).files(),
            name@.len() > 0 && cid@.len() > 0 ==> r is Ok && final(self).files() == old(self).files().insert(
                tenant@,
                listing(old(self).files(), tenant@).push(
                    (name@, cid@, size, content_type@, uploaded_at),
                ),
            ),
    {
        if name.unicode_len() == 0 || cid.unicode_len() == 0 {
            return Err(StoreError::InvalidInput);
        }
        let file = IpfsFile { name, cid, size, content_type, uploaded_at };
        let t = chars_of(tenant);
        match self.find(&t) {
            Some(i) => {
                let mut files = copy_files(&self.entries[i].files);
                let ghost before = files@;
                files.push(file);
                proof {
                    assert(file_views(files@) =~= file_views(before).push(file@));
                    assert(listing(self.files(), tenant@) == file_views(self.entries[i as int].files@));
                }
                self.set_files(i, files);
            },
            None => {
                let ghost old_entries = self.entries@;
                let ghost old_model = self.model@;
                let mut files: Vec<IpfsFile> = Vec::new();
                files.push(file);
                proof {
                    assert(file_views(files@) =~= Seq::<FileView>::empty().push(file@));
                }
                self.entries.push(TenantFiles { tenant: t, files });
                self.model = Ghost(self.model@.insert(tenant@, file_views(files@)));
                proof {
                    let es = self.entries@;
                    let n = old_entries.len() as int;
                    assert(es[n].tenant@ == tenant@);
                    assert forall|j: int| 0 <= j < es.len() implies #[trigger] self.model@.contains_key(
                        es[j].tenant@,
                    ) && self.model@[es[j].tenant@] == file_views(es[j].files@) by {
                        if j < n {
                            assert(es[j] == old_entries[j]);
                            assert(old_model.contains_key(old_entries[j].tenant@));
                        }
                    }
                    assert forall|tt: Seq<char>| #[trigger] self.model@.contains_key(tt) implies exists|
                        j: int,
                    | 0 <= j < es.len() && es[j].tenant@ == tt by {
                        if tt != tenant@ {
                            assert(old_model.contains_key(tt));
                            let j = choose|j: int|
                                0 <= j < old_entries.len() && old_entries[j].tenant@ == tt;
                            assert(es[j].tenant@ == tt);
                        }
                    }
                    assert forall|a: int, c: int| 0 <= a < c < es.len() implies #[trigger] es[a].tenant@
                        != #[trigger] es[c].tenant@ by {
                        assert(es[a] == old_entries[a]);
                        if c < n {
                            assert(es[c] == old_entries[c]);
                        } else {
                            assert(old_model.contains_key(old_entries[a].tenant@));
                        }
                    }
                }
            },
        }
        Ok(())
    }

    /// The records of `tenant`, oldest first.
    pub fn list_ipfs_files(&self, tenant: &str) -> (r: Vec<IpfsFile>)
        requires
            self.wf(),
        ensures
            file_views(r@) == listing(self.files(), tenant@),
    {
        let t = chars_of(tenant);
        match self.find(&t) {
            Some(i) => copy_files(&self.entries[i].files),
            None => {
                let r: Vec<IpfsFile> = Vec::new();
                assert(file_views(r@) =~= Seq::<FileView>::empty());
                r
            },
        }
    }

    /// Removes every record of `tenant` whose cid is `cid`, keeping the order
    /// of the others. Fails where `cid` is empty or no record has it.
    #[verifier::spinoff_prover]
    pub fn delete_ipfs_file(&mut self, tenant: &str, cid: String) -> (r: Result<(), StoreError>)
        requires
            old(self).wf(),
        ensures
            final(self).wf(),
            cid@.len() == 0 ==> r == Err::<(), StoreError>(StoreError::InvalidInput),
            cid@.len() > 0 && without_cid(listing(old(self).files(), tenant@), cid@) == listing(
                old(self).files(),
                tenant@,
            ) ==> r == Err::<(), StoreError>(StoreError::NotFound),
            r is Err ==> final(self).files() == old(self).files(),
            cid@.len() > 0 && without_cid(listing(old(self).files(), tenant@), cid@) != listing(
                old(self).files(),
                tenant@,
            ) ==> r is Ok && final(self).files() == old(self).files().insert(
                tenant@,
                without_cid(listing(old(self).files(), tenant@), cid@),
            ),
    {
        if cid.unicode_len() == 0 {
            return Err(StoreError::InvalidInput);
        }
        let t = chars_of(tenant);
        match self.find(&t) {
            Some(i) => {
                let files = &self.entries[i].files;
                let ghost all = file_views(files@);
                let mut kept: Vec<IpfsFile> = Vec::new();
                let mut j: usize = 0;
                assert(all.take(0).filter(|f: FileView| f.1 != cid@) =~= Seq::<FileView>::empty())
                    by {
                    reveal(Seq::filter);
                }
                while j < files.len()
                    invariant
                        j <= files.len(),
                        all == file_views(files@),
                        file_views(kept@) == all.take(j as int).filter(|f: FileView| f.1 != cid@),
                        kept.len() <= j,
                    decreases files.len() - j,
                {
                    assert(all.take(j + 1).drop_last() =~= all.take(j as int));
                    reveal(Seq::filter);
                    if files[j].cid != cid {
                        kept.push(files[j].duplicate());
                        assert(file_views(kept@) =~= all.take(j as int).filter(
                            |f: FileView| f.1 != cid@,
                        ).push(all[j as int]));
                    }
                    j = j + 1;
                }
                assert(all.take(files.len() as int) =~= all);
                if kept.len() == files.len() {
                    proof {
                        all.lemma_filter_len(|f: FileView| f.1 != cid@);
                        lemma_filter_same_len(all, cid@);
                    }
                    return Err(StoreError::NotFound);
                }
                self.set_files(i, kept);
                Ok(())
            },
            None => {
                proof {
                    reveal(Seq::filter);
                }
                Err(StoreError::NotFound)
            },
        }
    }
}

/// Copies of `files`, in order.
fn copy_files(files: &Vec<IpfsFile>) -> (r: Vec<IpfsFile>)
    ensures
        file_views(r@) == file_views(files@),
{
    let mut r: Vec<IpfsFile> = Vec::new();
    let mut j: usize = 0;
    while j < files.len()
        invariant
            j <= files.len(),
            file_views(r@) == file_views(files@).take(j as int),
        decreases files.len() - j,
    {
        let ghost before = r@;
        r.push(files[j].duplicate());
        assert(file_views(r@) =~= file_views(before).push(files@[j as int]@));
        assert(file_views(files@).take(j + 1) =~= file_views(files@).take(j as int).push(
            files@[j as int]@,
        ));
        j = j + 1;
    }
    assert(file_views(files@).take(files.len() as int) =~= file_views(files@));
    r
}

/// A filter that keeps as many records as it was given keeps all of them.
proof fn lemma_filter_same_len(s: Seq<FileView>, cid: Seq<char>)
    requires
        without_cid(s, cid).len() == s.len(),
    ensures
        without_cid(s, cid) == s,
    decreases s.len(),
{
    reveal(Seq::filter);
    if s.len() > 0 {
        s.drop_last().lemma_filter_len(|f: FileView| f.1 != cid);
        lemma_filter_same_len(s.drop_last(), cid);
        assert(s =~= s.drop_last().push(s.last()));
    }
}

/// A greeting for `name`.
pub fn greet(name: &str) -> (r: String)
    ensures
        r@ == "Hello, "@ + name@ + "!"@,
{
    let mut r = "Hello, ".to_owned();
    r.append(name);
    r.append("!");
    r
}

} // verus!
