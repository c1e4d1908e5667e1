//! The page cache: a bounded array of slots over the database file's pages.
use vstd::prelude::*;
use crate::codec::{decode_node, lemma_node_bytes_len, lemma_node_round_trip, node_bytes, zeros};
use crate::layout::{PAGE_MAX_NUM, PAGE_SIZE, lemma_layout};
use crate::node::{DbError, Node, NodeView, blank_leaf};

verus! {

/// Pages of the database file, fetched when first asked for and kept until teardown.
pub struct Pager {
    /// The file's bytes as they were when the pager opened it.
    pub file: Vec<u8>,
    /// Pages known to exist: those of the file and those allocated since.
    pub n_pages: usize,
    /// One slot per page index; a slot is empty until its page is fetched or allocated.
    pub pages: Vec<Option<Node>>,
}

/// The bytes of page `i` of a file image.
pub open spec fn page_of(file: Seq<u8>, i: int) -> Seq<u8> {
    file.subrange(i * PAGE_SIZE, i * PAGE_SIZE + PAGE_SIZE)
}

impl Pager {
    /// Pages that the file held when it was opened.
    pub open spec fn file_pages(self) -> int {
        self.file@.len() as int / PAGE_SIZE as int
    }

    pub open spec fn cached(self, i: int) -> bool {
        0 <= i < self.pages@.len() && self.pages@[i] is Some
    }

    /// The node of page `i`: the cached one, else the one that the file holds there. `None`
    /// where there is no such page or the file's page does not hold a node.
    pub open spec fn node_at(self, i: int) -> Option<NodeView> {
        if self.cached(i) {
            Some(self.pages@[i].unwrap()@)
        } else if 0 <= i < self.file_pages() {
            decode_node(page_of(self.file@, i))
        } else {
            None
        }
    }

    pub open spec fn wf(self) -> bool {
        &&& self.pages@.len() == PAGE_MAX_NUM
        &&& self.file@.len() % (PAGE_SIZE as nat) == 0
        &&& self.file_pages() <= self.n_pages
        &&& forall|i: int|
            0 <= i < PAGE_MAX_NUM ==> {
                &&& (i >= self.n_pages ==> !self.cached(i))
                &&& (self.cached(i) ==> self.pages@[i].unwrap()@.wf())
            }
    }

    /// Opens a file image: its length must be a multiple of the page size.
    pub fn new(file: Vec<u8>) -> (r: Result<Pager, DbError>)
        ensures
            file@.len() % (PAGE_SIZE as nat) != 0 <==> r matches Err(DbError::InvalidFile),
            r is Ok <==> file@.len() % (PAGE_SIZE as nat) == 0,
            r matches Ok(p) ==> {
                &&& p.wf()
                &&& p.file@ == file@
                &&& p.n_pages == file@.len() / (PAGE_SIZE as nat)
                &&& forall|i: int| 0 <= i < PAGE_MAX_NUM ==> !p.cached(i)
            },
    {
        if file.len() % PAGE_SIZE != 0 {
            return Err(DbError::InvalidFile);
        }
        let n_pages = file.len() / PAGE_SIZE;
        let mut pages: Vec<Option<Node>> = Vec::new();
        let mut i: usize = 0;
        while i < PAGE_MAX_NUM
            invariant
                i <= PAGE_MAX_NUM,
                pages@.len() == i,
                forall|j: int| 0 <= j < i ==> pages@[j] is None,
            decreases PAGE_MAX_NUM - i,
        {
            pages.push(None);
            i += 1;
        }
        Ok(Pager { file, n_pages, pages })
    }

    /// The index that the next allocated page gets.
    pub fn get_new_page_index(&self) -> (r: usize)
        ensures
            r == self.n_pages,
    {
        self.n_pages
    }

    /// Makes page `page_index` cached: fetched from the file, or allocated as a blank leaf
    /// where the file does not hold it. Fails where the index reaches the pager's capacity, or
    /// the file's page does not hold a node; then nothing changes.
    pub fn get_page(&mut self, page_index: usize) -> (r: Result<(), DbError>)
        requires
            old(self).wf(),
        ensures
            final(self).wf(),
            final(self).file == old(self).file,
            page_index >= PAGE_MAX_NUM ==> r matches Err(DbError::TableFull),
            page_index < PAGE_MAX_NUM ==> {
                &&& r is Ok <==> old(self).cached(page_index as int) || page_index
                    >= old(self).file_pages() || old(self).node_at(page_index as int) is Some
                &&& r is Err ==> r matches Err(DbError::CorruptNode)
            },
            r is Err ==> *final(self) == *old(self),
            r is Ok ==> final(self).cached(page_index as int),
            r is Ok && (old(self).cached(page_index as int) || page_index < old(
                self,
            ).file_pages()) ==> final(self).n_pages == old(self).n_pages && final(self).node_at(
                page_index as int,
            ) == old(self).node_at(page_index as int),
            r is Ok && !old(self).cached(page_index as int) && page_index >= old(self).file_pages()
                ==> {
                &&& final(self).n_pages == if page_index < old(self).n_pages {
                    old(self).n_pages as int
                } else {
                    page_index + 1
                }
                &&& final(self).node_at(page_index as int) == Some(blank_leaf())
            },
            forall|i: int|
                0 <= i < PAGE_MAX_NUM && i != page_index ==> #[trigger] final(self).node_at(i)
                    == old(self).node_at(i),
            forall|i: int|
                #![trigger final(self).cached(i)]
                #![trigger final(self).pages@[i]]
                0 <= i < PAGE_MAX_NUM && i != page_index ==> final(self).cached(i) == old(
                    self,
                ).cached(i) && final(self).pages@[i] == old(self).pages@[i],
    {
        if page_index >= PAGE_MAX_NUM {
            return Err(DbError::TableFull);
        }
        if self.pages[page_index].is_some() {
            return Ok(());
        }
        if page_index < self.file.len() / PAGE_SIZE {
            self.fetch_page_from_file(page_index)
        } else {
            if page_index >= self.n_pages {
                self.n_pages = page_index + 1;
            }
            self.pages.set(page_index, Some(Node::new_leaf()));
            assert forall|i: int|
                0 <= i < PAGE_MAX_NUM implies {
                    &&& (i >= self.n_pages ==> !self.cached(i))
                    &&& (self.cached(i) ==> self.pages@[i].unwrap()@.wf())
                } by {
                if i != page_index {
                    assert(old(self).cached(i) == self.cached(i));
                    assert(old(self).pages@[i] == self.pages@[i]);
                }
            }
            Ok(())
        }
    }

    /// The cached node of page `page_index`.
    pub fn page(&self, page_index: usize) -> (r: &Node)
        requires
            self.cached(page_index as int),
        ensures
            *r == self.pages@[page_index as int].unwrap(),
            Some(r@) == self.node_at(page_index as int),
    {
        self.pages[page_index].as_ref().unwrap()
    }

    /// Takes the node of a cached page out of its slot, to be put back with `put_page`.
    pub fn take_page(&mut self, page_index: usize) -> (r: Node)
        requires
            old(self).cached(page_index as int),
        ensures
            r == old(self).pages@[page_index as int].unwrap(),
            final(self).pages@ == old(self).pages@.update(page_index as int, None),
            final(self).file == old(self).file,
            final(self).n_pages == old(self).n_pages,
    {
        let slot = self.pages.remove(page_index);
        self.pages.insert(page_index, None);
        assert(self.pages@ =~= old(self).pages@.update(page_index as int, None));
        slot.unwrap()
    }

    /// Puts a node into the slot of page `page_index`.
    pub fn put_page(&mut self, page_index: usize, node: Node)
        requires
            page_index < old(self).pages@.len(),
        ensures
            final(self).pages@ == old(self).pages@.update(page_index as int, Some(node)),
            final(self).file == old(self).file,
            final(self).n_pages == old(self).n_pages,
    {
        self.pages.set(page_index, Some(node));
    }

    /// What page `i` of the file holds at teardown: the cached node's encoding, else the
    /// file's own bytes, else zeros.
    pub open spec fn image_page(self, i: int) -> Seq<u8> {
        if self.cached(i) {
            node_bytes(self.pages@[i].unwrap()@)
        } else if 0 <= i < self.file_pages() {
            page_of(self.file@, i)
        } else {
            zeros(PAGE_SIZE as nat)
        }
    }

    /// The first `k` pages of the file at teardown.
    pub open spec fn image_prefix(self, k: nat) -> Seq<u8>
        decreases k,
    {
        if k == 0 {
            Seq::empty()
        } else {
            self.image_prefix((k - 1) as nat) + self.image_page(k - 1)
        }
    }

    /// The whole file at teardown: every known page.
    pub open spec fn image(self) -> Seq<u8> {
        self.image_prefix(self.n_pages as nat)
    }

    /// The file as teardown writes it: each known page, encoded from its cached node where it
    /// was fetched or allocated.
    pub fn file_image(&self) -> (r: Vec<u8>)
        requires
            self.wf(),
        ensures
            r@ == self.image(),
            r@.len() == self.n_pages * PAGE_SIZE,
            r@.len() % PAGE_SIZE as nat == 0,
    {
        proof {
            lemma_image_page_aligned(*self);
        }
        let mut out: Vec<u8> = Vec::new();
        let mut i: usize = 0;
        let flen = self.file.len();
        let n_file_pages = flen / PAGE_SIZE;
        while i < self.n_pages
            invariant
                self.wf(),
                n_file_pages == self.file_pages(),
                flen == self.file@.len(),
                i <= self.n_pages,
                out@ == self.image_prefix(i as nat),
                out@.len() == i * PAGE_SIZE,
            decreases self.n_pages - i,
        {
            proof {
                lemma_layout();
            }
            if i < PAGE_MAX_NUM && self.pages[i].is_some() {
                let node = self.pages[i].as_ref().unwrap();
                proof {
                    assert(self.cached(i as int));
                    lemma_node_bytes_len(node@);
                }
                let mut bytes = node.encode();
                out.append(&mut bytes);
            } else if i < n_file_pages {
                proof {
                    assert(i * PAGE_SIZE + PAGE_SIZE <= self.file@.len()) by (nonlinear_arith)
                        requires
                            i < self.file@.len() as int / 4096,
                            PAGE_SIZE == 4096,
                    ;
                }
                let mut j: usize = i * PAGE_SIZE;
                let end = j + PAGE_SIZE;
                let ghost start = out@.len();
                while j < end
                    invariant
                        i * PAGE_SIZE <= j <= end,
                        end == i * PAGE_SIZE + PAGE_SIZE,
                        end <= self.file@.len(),
                        out@.len() == start + (j - i * PAGE_SIZE),
                        out@ == self.image_prefix(i as nat) + self.file@.subrange(
                            i * PAGE_SIZE,
                            j as int,
                        ),
                    decreases end - j,
                {
                    out.push(self.file[j]);
                    j += 1;
                    assert(self.file@.subrange(i * PAGE_SIZE, j as int) =~= self.file@.subrange(
                        i * PAGE_SIZE,
                        j - 1,
                    ).push(self.file@[j - 1]));
                }
            } else {
                let mut j: usize = 0;
                while j < PAGE_SIZE
                    invariant
                        j <= PAGE_SIZE,
                        out@ == self.image_prefix(i as nat) + zeros(j as nat),
                    decreases PAGE_SIZE - j,
                {
                    out.push(0u8);
                    j += 1;
                    assert(zeros(j as nat) =~= zeros((j - 1) as nat).push(0u8));
                }
            }
            i += 1;
            assert(out@ == self.image_prefix(i as nat));
        }
        out
    }

    /// Decodes page `page_index` of the file into its empty slot.
    fn fetch_page_from_file(&mut self, page_index: usize) -> (r: Result<(), DbError>)
        requires
            old(self).wf(),
            page_index < PAGE_MAX_NUM,
            page_index < old(self).file_pages(),
            !old(self).cached(page_index as int),
        ensures
            final(self).wf(),
            r is Ok <==> old(self).node_at(page_index as int) is Some,
            r is Err ==> (r matches Err(DbError::CorruptNode)) && *final(self) == *old(self),
            r is Ok ==> final(self).pages@ == old(self).pages@.update(
                page_index as int,
                final(self).pages@[page_index as int],
            ) && final(self).cached(page_index as int) && final(self).node_at(page_index as int)
                == old(self).node_at(page_index as int) && final(self).file == old(self).file
                && final(self).n_pages == old(self).n_pages,
    {
        proof {
            lemma_layout();
            assert(page_index * PAGE_SIZE + PAGE_SIZE <= self.file@.len()) by (nonlinear_arith)
                requires
                    page_index < self.file@.len() as int / 4096,
                    PAGE_SIZE == 4096,
            ;
        }
        let node = Node::read_at(self.file.as_slice(), page_index * PAGE_SIZE)?;
        proof {
            crate::codec::lemma_decoded_wf(page_of(self.file@, page_index as int));
        }
        self.pages.set(page_index, Some(node));
        assert forall|i: int|
            0 <= i < PAGE_MAX_NUM implies {
                &&& (i >= self.n_pages ==> !self.cached(i))
                &&& (self.cached(i) ==> self.pages@[i].unwrap()@.wf())
            } by {
            if i != page_index {
                assert(old(self).cached(i) == self.cached(i));
                assert(old(self).pages@[i] == self.pages@[i]);
            }
        }
        Ok(())
    }
}

/// Length of the first `k` pages of the image, and where each page lies in it.
pub proof fn lemma_image_prefix(p: Pager, k: nat)
    requires
        p.wf(),
    ensures
        p.image_prefix(k).len() == k * PAGE_SIZE,
        forall|i: int| 0 <= i < k ==> #[trigger] page_of(p.image_prefix(k), i) == p.image_page(i),
    decreases k,
{
    lemma_layout();
    if k > 0 {
        let k1 = (k - 1) as nat;
        lemma_image_prefix(p, k1);
        let i1 = k1 as int;
        if p.cached(i1) {
            assert(p.pages@[i1].unwrap()@.wf());
            lemma_node_bytes_len(p.pages@[i1].unwrap()@);
        } else if 0 <= i1 < p.file_pages() {
            assert(i1 * PAGE_SIZE + PAGE_SIZE <= p.file@.len()) by (nonlinear_arith)
                requires
                    i1 < p.file@.len() as int / 4096,
                    PAGE_SIZE == 4096,
            ;
        }
        assert(p.image_page(i1).len() == PAGE_SIZE);
        assert(k1 * PAGE_SIZE + PAGE_SIZE == k * PAGE_SIZE) by (nonlinear_arith)
            requires
                k1 + 1 == k,
        ;
        let whole = p.image_prefix(k);
        assert forall|i: int| 0 <= i < k implies #[trigger] page_of(whole, i) == p.image_page(i) by {
            if i < k1 {
                assert(i * PAGE_SIZE + PAGE_SIZE <= k1 * PAGE_SIZE) by (nonlinear_arith)
                    requires
                        i < k1,
                        PAGE_SIZE == 4096,
                ;
                assert(page_of(whole, i) =~= page_of(p.image_prefix(k1), i));
            } else {
                assert(page_of(whole, i) =~= p.image_page(i));
            }
        }
    }
}

/// The file that teardown writes is a whole number of pages.
pub proof fn lemma_image_page_aligned(p: Pager)
    requires
        p.wf(),
    ensures
        p.image().len() == p.n_pages * PAGE_SIZE,
        p.image().len() % PAGE_SIZE as nat == 0,
{
    lemma_layout();
    lemma_image_prefix(p, p.n_pages as nat);
    assert((p.n_pages * 4096) % 4096 == 0) by (nonlinear_arith);
}

proof fn lemma_zero_page()
    ensures
        decode_node(zeros(PAGE_SIZE as nat)) is None,
{
    lemma_layout();
    assert(zeros(PAGE_SIZE as nat)[0] == 0u8);
}

proof fn lemma_reopen_page(p: Pager, q: Pager, i: int)
    requires
        p.wf(),
        0 <= i < p.n_pages,
        q.file_pages() == p.n_pages,
        page_of(q.file@, i) == p.image_page(i),
        !q.cached(i),
    ensures
        q.node_at(i) == p.node_at(i),
{
    if p.cached(i) {
        assert(p.pages@[i].unwrap()@.wf());
        lemma_node_round_trip(p.pages@[i].unwrap()@);
    } else if i >= p.file_pages() {
        lemma_zero_page();
    }
}

/// A pager opened on the file that teardown wrote finds every page's node as it was.
pub proof fn lemma_reopen(p: Pager, q: Pager)
    requires
        p.wf(),
        q.wf(),
        q.file@ == p.image(),
        forall|i: int| 0 <= i < PAGE_MAX_NUM ==> !q.cached(i),
    ensures
        q.file_pages() == p.n_pages,
        forall|i: int| 0 <= i < p.n_pages ==> #[trigger] q.node_at(i) == p.node_at(i),
{
    lemma_layout();
    lemma_image_prefix(p, p.n_pages as nat);
    assert((p.n_pages * 4096) / 4096 == p.n_pages) by (nonlinear_arith);
    assert forall|i: int| 0 <= i < p.n_pages implies #[trigger] q.node_at(i) == p.node_at(i) by {
        assert(page_of(q.file@, i) == p.image_page(i));
        lemma_reopen_page(p, q, i);
    }
}

} // verus!
