use vstd::prelude::*;
use crate::prune::{AnchorBlockId, Storage, StorageError, copy_bytes, lemma_bytes_deep_view};

verus! {

/// One changes trie as the in-memory store keeps it: its root, its key/value
/// entries, and the hashes of its nodes.
#[derive(Debug)]
pub struct StoredTrie {
    pub root: Vec<u8>,
    pub entries: Vec<(Vec<u8>, Vec<u8>)>,
    pub nodes: Vec<Vec<u8>>,
}

/// Changes tries held in memory, one branch only: later insertions for a
/// block or a root shadow earlier ones. The root records of the blocks in
/// `damaged` cannot be read; the nodes in `deleted` are gone.
#[derive(Debug)]
pub struct InMemoryStorage {
    pub roots: Vec<(u64, Vec<u8>)>,
    pub tries: Vec<StoredTrie>,
    pub damaged: Vec<u64>,
    pub deleted: Vec<Vec<u8>>,
}

/// Whether `key` starts with `prefix`.
pub open spec fn has_prefix(key: Seq<u8>, prefix: Seq<u8>) -> bool {
    prefix.len() <= key.len() && key.subrange(0, prefix.len() as int) == prefix
}

/// The entries whose keys start with `prefix`, in order.
pub open spec fn with_prefix(entries: Seq<(Seq<u8>, Seq<u8>)>, prefix: Seq<u8>) -> Seq<
    (Seq<u8>, Seq<u8>),
>
    decreases entries.len(),
{
    if entries.len() == 0 {
        Seq::empty()
    } else {
        let rest = with_prefix(entries.drop_last(), prefix);
        if has_prefix(entries.last().0, prefix) {
            rest.push(entries.last())
        } else {
            rest
        }
    }
}

/// Index of the last of the first `n` root records that is for `block`, or -1.
pub open spec fn root_index(roots: Seq<(u64, Vec<u8>)>, block: u64, n: int) -> int
    decreases n,
{
    if n <= 0 {
        -1
    } else if roots[n - 1].0 == block {
        n - 1
    } else {
        root_index(roots, block, n - 1)
    }
}

/// Index of the last of the first `n` tries whose root is `root`, or -1.
pub open spec fn trie_index(tries: Seq<StoredTrie>, root: Seq<u8>, n: int) -> int
    decreases n,
{
    if n <= 0 {
        -1
    } else if tries[n - 1].root@ == root {
        n - 1
    } else {
        trie_index(tries, root, n - 1)
    }
}

pub proof fn lemma_index_range(tries: Seq<StoredTrie>, root: Seq<u8>, n: int)
    requires
        n >= 0,
    ensures
        -1 <= trie_index(tries, root, n) < n,
        trie_index(tries, root, n) >= 0 ==> tries[trie_index(tries, root, n)].root@ == root,
    decreases n,
{
    if n > 0 {
        lemma_index_range(tries, root, n - 1);
    }
}

fn bytes_eq(a: &Vec<u8>, b: &Vec<u8>) -> (r: bool)
    ensures
        r == (a@ == b@),
{
    if a.len() != b.len() {
        return false;
    }
    let mut i: usize = 0;
    while i < a.len()
        invariant
            a.len() == b.len(),
            i <= a.len(),
            a@.subrange(0, i as int) == b@.subrange(0, i as int),
        decreases a.len() - i,
    {
        if a[i] != b[i] {
            assert(a@.subrange(0, i + 1)[i as int] != b@.subrange(0, i + 1)[i as int]);
            return false;
        }
        assert(a@.subrange(0, i + 1) =~= a@.subrange(0, i as int).push(a[i as int]));
        assert(b@.subrange(0, i + 1) =~= b@.subrange(0, i as int).push(b[i as int]));
        i = i + 1;
    }
    assert(a@ =~= a@.subrange(0, i as int));
    assert(b@ =~= b@.subrange(0, i as int));
    true
}

fn starts_with(key: &Vec<u8>, prefix: &Vec<u8>) -> (r: bool)
    ensures
        r == has_prefix(key@, prefix@),
{
    if prefix.len() > key.len() {
        return false;
    }
    let mut i: usize = 0;
    while i < prefix.len()
        invariant
            prefix.len() <= key.len(),
            i <= prefix.len(),
            key@.subrange(0, i as int) == prefix@.subrange(0, i as int),
        decreases prefix.len() - i,
    {
        if key[i] != prefix[i] {
            assert(key@.subrange(0, prefix.len() as int)[i as int] != prefix@[i as int]);
            return false;
        }
        assert(key@.subrange(0, i + 1) =~= key@.subrange(0, i as int).push(key[i as int]));
        assert(prefix@.subrange(0, i + 1) =~= prefix@.subrange(0, i as int).push(prefix[i as int]));
        i = i + 1;
    }
    assert(prefix@ =~= prefix@.subrange(0, i as int));
    true
}

impl InMemoryStorage {
    /// An empty store.
    pub fn new() -> (r: InMemoryStorage)
        ensures
            r.roots@.len() == 0,
            r.tries@.len() == 0,
            r.damaged@.len() == 0,
            r.deleted@.len() == 0,
    {
        InMemoryStorage { roots: Vec::new(), tries: Vec::new(), damaged: Vec::new(), deleted: Vec::new() }
    }

    /// Deletes the node with hash `hash`.
    pub fn delete_node(&mut self, hash: Vec<u8>)
        ensures
            final(self).roots@ == old(self).roots@,
            final(self).tries@ == old(self).tries@,
            final(self).damaged@ == old(self).damaged@,
            final(self).deleted@ == old(self).deleted@.push(hash),
    {
        self.deleted.push(hash);
    }

    fn is_deleted(&self, hash: &Vec<u8>) -> (r: bool)
        ensures
            r == self.deleted.deep_view().contains(hash@),
    {
        let mut i: usize = 0;
        while i < self.deleted.len()
            invariant
                i <= self.deleted.len(),
                forall|k: int| 0 <= k < i ==> self.deleted.deep_view()[k] != hash@,
            decreases self.deleted.len() - i,
        {
            proof {
                lemma_bytes_deep_view(self.deleted@[i as int]);
            }
            if bytes_eq(&self.deleted[i], hash) {
                assert(self.deleted.deep_view()[i as int] == hash@);
                return true;
            }
            i = i + 1;
        }
        false
    }

    /// Makes the root record of `block` unreadable.
    pub fn damage(&mut self, block: u64)
        ensures
            final(self).roots@ == old(self).roots@,
            final(self).tries@ == old(self).tries@,
            final(self).deleted@ == old(self).deleted@,
            final(self).damaged@ == old(self).damaged@.push(block),
    {
        self.damaged.push(block);
    }

    /// Records the trie of `block`: its root, entries and nodes.
    pub fn insert(
        &mut self,
        block: u64,
        root: Vec<u8>,
        entries: Vec<(Vec<u8>, Vec<u8>)>,
        nodes: Vec<Vec<u8>>,
    )
        ensures
            final(self).roots@ == old(self).roots@.push((block, root)),
            final(self).damaged@ == old(self).damaged@,
            final(self).deleted@ == old(self).deleted@,
            final(self).tries@.len() == old(self).tries@.len() + 1,
            final(self).tries@.subrange(0, old(self).tries@.len() as int) == old(self).tries@,
            final(self).tries@.last().root@ == root@,
            final(self).tries@.last().entries == entries,
            final(self).tries@.last().nodes == nodes,
    {
        let trie_root = copy_bytes(&root);
        self.roots.push((block, root));
        self.tries.push(StoredTrie { root: trie_root, entries, nodes });
    }

    /// Records a child trie, reachable only through its parent's entries.
    pub fn insert_child(&mut self, root: Vec<u8>, entries: Vec<(Vec<u8>, Vec<u8>)>, nodes: Vec<Vec<u8>>)
        ensures
            final(self).roots@ == old(self).roots@,
            final(self).damaged@ == old(self).damaged@,
            final(self).deleted@ == old(self).deleted@,
            final(self).tries@ == old(self).tries@.push(StoredTrie { root, entries, nodes }),
    {
        self.tries.push(StoredTrie { root, entries, nodes });
    }

    fn find_trie(&self, root: &Vec<u8>) -> (r: Option<usize>)
        ensures
            match r {
                Some(i) => i as int == trie_index(self.tries@, root@, self.tries@.len() as int),
                None => trie_index(self.tries@, root@, self.tries@.len() as int) == -1,
            },
    {
        let mut i: usize = self.tries.len();
        while i > 0
            invariant
                i <= self.tries.len(),
                trie_index(self.tries@, root@, self.tries@.len() as int) == trie_index(
                    self.tries@,
                    root@,
                    i as int,
                ),
            decreases i,
        {
            if bytes_eq(&self.tries[i - 1].root, root) {
                return Some(i - 1);
            }
            i = i - 1;
        }
        None
    }
}

impl Storage for InMemoryStorage {
    open spec fn root_at(&self, anchor: AnchorBlockId, block: u64) -> Option<Seq<u8>> {
        let i = root_index(self.roots@, block, self.roots@.len() as int);
        if i >= 0 {
            Some(self.roots@[i].1@)
        } else {
            None
        }
    }

    open spec fn entries_at(&self, root: Seq<u8>, prefix: Seq<u8>) -> Seq<(Seq<u8>, Seq<u8>)> {
        let i = trie_index(self.tries@, root, self.tries@.len() as int);
        if i >= 0 {
            with_prefix(self.tries@[i].entries.deep_view(), prefix)
        } else {
            Seq::empty()
        }
    }

    open spec fn root_fails(&self, anchor: AnchorBlockId, block: u64) -> bool {
        self.damaged@.contains(block)
    }

    open spec fn node_stored(&self, hash: Seq<u8>) -> bool {
        trie_index(self.tries@, hash, self.tries@.len() as int) >= 0
            && !self.deleted.deep_view().contains(hash)
    }

    fn contains_node(&self, hash: &Vec<u8>) -> (r: bool) {
        match self.find_trie(hash) {
            None => false,
            Some(_) => !self.is_deleted(hash),
        }
    }

    open spec fn nodes_at(&self, root: Seq<u8>) -> Seq<Seq<u8>> {
        let i = trie_index(self.tries@, root, self.tries@.len() as int);
        if i >= 0 {
            self.tries@[i].nodes.deep_view()
        } else {
            Seq::empty()
        }
    }

    fn root(&self, anchor: &AnchorBlockId, block: u64) -> (r: Result<Option<Vec<u8>>, StorageError>)
        ensures
            r is Err <==> self.damaged@.contains(block),
    {
        let mut d: usize = 0;
        while d < self.damaged.len()
            invariant
                d <= self.damaged.len(),
                forall|k: int| 0 <= k < d ==> self.damaged@[k] != block,
            decreases self.damaged.len() - d,
        {
            if self.damaged[d] == block {
                return Err(StorageError { reason: String::from_str("damaged root record") });
            }
            d = d + 1;
        }
        assert(!self.damaged@.contains(block));
        let mut i: usize = self.roots.len();
        while i > 0
            invariant
                i <= self.roots.len(),
                !self.damaged@.contains(block),
                root_index(self.roots@, block, self.roots@.len() as int) == root_index(
                    self.roots@,
                    block,
                    i as int,
                ),
            decreases i,
        {
            if self.roots[i - 1].0 == block {
                return Ok(Some(copy_bytes(&self.roots[i - 1].1)));
            }
            i = i - 1;
        }
        Ok(None)
    }

    fn key_values_with_prefix(&self, root: &Vec<u8>, prefix: &Vec<u8>) -> (r: Vec<(Vec<u8>, Vec<u8>)>) {
        let mut r: Vec<(Vec<u8>, Vec<u8>)> = Vec::new();
        let found = self.find_trie(root);
        proof {
            lemma_index_range(self.tries@, root@, self.tries@.len() as int);
        }
        match found {
            None => {
                assert(r.deep_view() =~= Seq::<(Seq<u8>, Seq<u8>)>::empty());
                r
            },
            Some(t) => {
                let entries = &self.tries[t].entries;
                let mut i: usize = 0;
                while i < entries.len()
                    invariant
                        i <= entries.len(),
                        r.deep_view() == with_prefix(entries.deep_view().subrange(0, i as int), prefix@),
                    decreases entries.len() - i,
                {
                    let ghost prev = entries.deep_view().subrange(0, i as int);
                    let ghost next = entries.deep_view().subrange(0, i + 1);
                    assert(next.drop_last() =~= prev);
                    proof {
                        lemma_bytes_deep_view(entries@[i as int].0);
                        lemma_bytes_deep_view(entries@[i as int].1);
                    }
                    if starts_with(&entries[i].0, prefix) {
                        let k = copy_bytes(&entries[i].0);
                        let v = copy_bytes(&entries[i].1);
                        r.push((k, v));
                    }
                    assert(r.deep_view() =~= with_prefix(next, prefix@));
                    i = i + 1;
                }
                assert(entries.deep_view().subrange(0, entries.len() as int) =~= entries.deep_view());
                r
            },
        }
    }

    fn record_all_nodes(&self, root: &Vec<u8>) -> (r: Vec<Vec<u8>>) {
        let mut r: Vec<Vec<u8>> = Vec::new();
        let found = self.find_trie(root);
        proof {
            lemma_index_range(self.tries@, root@, self.tries@.len() as int);
        }
        match found {
            None => {
                assert(r.deep_view() =~= Seq::<Seq<u8>>::empty());
                r
            },
            Some(t) => {
                let nodes = &self.tries[t].nodes;
                let mut i: usize = 0;
                while i < nodes.len()
                    invariant
                        i <= nodes.len(),
                        r.deep_view() == nodes.deep_view().subrange(0, i as int),
                    decreases nodes.len() - i,
                {
                    proof {
                        lemma_bytes_deep_view(nodes@[i as int]);
                    }
                    let c = copy_bytes(&nodes[i]);
                    let ghost prev = r.deep_view();
                    r.push(c);
                    assert(r.deep_view() =~= prev.push(c.deep_view()));
                    assert(nodes.deep_view().subrange(0, i + 1) =~= nodes.deep_view().subrange(
                        0,
                        i as int,
                    ).push(nodes.deep_view()[i as int]));
                    assert(r.deep_view() =~= nodes.deep_view().subrange(0, i + 1));
                    i = i + 1;
                }
                assert(nodes.deep_view().subrange(0, nodes.len() as int) =~= nodes.deep_view());
                r
            },
        }
    }
}

} // verus!
