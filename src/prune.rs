use vstd::prelude::*;

verus! {

/// The chain position that root lookups are resolved against.
#[derive(Clone, Debug, PartialEq, Eq)]
pub struct AnchorBlockId {
    pub hash: Vec<u8>,
    pub number: u64,
}

/// A failed read from the node storage.
#[derive(Clone, Debug, PartialEq, Eq)]
pub struct StorageError {
    pub reason: String,
}

/// Tag byte that starts the key of a child-index entry.
pub const CHILD_INDEX_TAG: u8 = 3;

/// Length in bytes of a trie root or node hash.
pub const HASH_LEN: usize = 32;

/// Read access to the changes tries of a chain: the root of each block's
/// trie, the entries of a trie under a key prefix, and the nodes that a walk
/// from a root touches.
pub trait Storage {
    /// The root of `block`'s trie on the branch of `anchor`, if there is one.
    spec fn root_at(&self, anchor: AnchorBlockId, block: u64) -> Option<Seq<u8>>;

    /// The key/value entries of the trie at `root` whose keys start with `prefix`.
    spec fn entries_at(&self, root: Seq<u8>, prefix: Seq<u8>) -> Seq<(Seq<u8>, Seq<u8>)>;

    /// The hashes of the nodes that a walk of the trie at `root` touches.
    spec fn nodes_at(&self, root: Seq<u8>) -> Seq<Seq<u8>>;

    /// Whether reading the root of `block` fails.
    spec fn root_fails(&self, anchor: AnchorBlockId, block: u64) -> bool;

    /// Whether the node with hash `hash` is still stored.
    spec fn node_stored(&self, hash: Seq<u8>) -> bool;

    /// Looks up the root of `block`'s trie; the read itself may fail.
    fn root(&self, anchor: &AnchorBlockId, block: u64) -> (r: Result<Option<Vec<u8>>, StorageError>)
        ensures
            r is Ok ==> r->Ok_0.deep_view() == self.root_at(*anchor, block),
            r is Err <==> self.root_fails(*anchor, block),
    ;

    /// Whether the node with hash `hash` is still stored.
    fn contains_node(&self, hash: &Vec<u8>) -> (r: bool)
        ensures
            r == self.node_stored(hash@),
    ;

    /// The entries of the trie at `root` whose keys start with `prefix`.
    fn key_values_with_prefix(&self, root: &Vec<u8>, prefix: &Vec<u8>) -> (r: Vec<(Vec<u8>, Vec<u8>)>)
        ensures
            r.deep_view() == self.entries_at(root@, prefix@),
    ;

    /// Walks the trie at `root` and records every node it touches.
    fn record_all_nodes(&self, root: &Vec<u8>) -> (r: Vec<Vec<u8>>)
        ensures
            r.deep_view() == self.nodes_at(root@),
    ;
}

/// The little-endian value of `s`.
pub open spec fn le_value(s: Seq<u8>) -> nat
    decreases s.len(),
{
    if s.len() == 0 {
        0
    } else {
        s[0] as nat + 256 * le_value(s.subrange(1, s.len() as int))
    }
}

/// A SCALE compact `u32` at the start of `input`: its value and how many
/// bytes it takes. The two low bits of the first byte give the mode; each
/// mode accepts only the values that no shorter mode can hold.
pub open spec fn compact_u32(input: Seq<u8>) -> Option<(nat, nat)> {
    if input.len() == 0 {
        None
    } else if input[0] % 4 == 0 {
        Some(((input[0] / 4) as nat, 1))
    } else if input[0] % 4 == 1 {
        let x = le_value(input.subrange(0, 2)) / 4;
        if input.len() >= 2 && 64 <= x <= 16383 {
            Some((x, 2))
        } else {
            None
        }
    } else if input[0] % 4 == 2 {
        let x = le_value(input.subrange(0, 4)) / 4;
        if input.len() >= 4 && 16384 <= x <= 1073741823 {
            Some((x, 4))
        } else {
            None
        }
    } else {
        let x = le_value(input.subrange(1, 5));
        if input[0] / 4 == 0 && input.len() >= 5 && x > 1073741823 {
            Some((x, 5))
        } else {
            None
        }
    }
}

/// SCALE decoding of a length-prefixed byte string at the start of `input`:
/// a compact length, then that many bytes; `None` where the input holds
/// no such string.
pub open spec fn scale_bytes(input: Seq<u8>) -> Option<Seq<u8>> {
    match compact_u32(input) {
        None => None,
        Some((n, h)) => if h + n <= input.len() {
            Some(input.subrange(h as int, (h + n) as int))
        } else {
            None
        },
    }
}

/// Relies on parity-scale-codec's `Decode` for `Vec<u8>`, run on the bytes of
/// `input` from `start` on: a compact `u32` length, then that many bytes; it
/// fails, without panicking, where the input is too short or malformed.
#[verifier::external_body]
fn decode_bytes(input: &Vec<u8>, start: usize) -> (r: Option<Vec<u8>>)
    requires
        start <= input.len(),
    ensures
        r.deep_view() == scale_bytes(input@.subrange(start as int, input@.len() as int)),
{
    <Vec<u8> as parity_scale_codec::Decode>::decode(&mut &input[start..]).ok()
}

/// The little-endian bytes of `n`, `k` of them.
pub open spec fn le_bytes(n: nat, k: nat) -> Seq<u8>
    decreases k,
{
    if k == 0 {
        Seq::empty()
    } else {
        seq![(n % 256) as u8] + le_bytes(n / 256, (k - 1) as nat)
    }
}

/// The key prefix under which `block`'s trie keeps its child-index entries:
/// the tag, then the block number in eight little-endian bytes.
pub open spec fn child_prefix_spec(block: u64) -> Seq<u8> {
    seq![CHILD_INDEX_TAG] + le_bytes(block as nat, 8)
}

/// The child root that an entry names, given the decoding of its key's tail
/// (`key_tail`) and of its value (`value`): a child-index key whose storage
/// key decodes, with a value that decodes to a hash.
pub open spec fn accepted_child_root(
    key: Seq<u8>,
    key_tail: Option<Seq<u8>>,
    value: Option<Seq<u8>>,
) -> Option<Seq<u8>> {
    if key.len() > 8 && key[0] == CHILD_INDEX_TAG && key_tail is Some && value is Some
        && value->0.len() == HASH_LEN {
        value
    } else {
        None
    }
}

/// The child root that a key/value entry of a trie names, if any.
pub open spec fn child_root_spec(key: Seq<u8>, value: Seq<u8>) -> Option<Seq<u8>> {
    if key.len() > 8 {
        accepted_child_root(key, scale_bytes(key.subrange(9, key.len() as int)), scale_bytes(value))
    } else {
        None
    }
}

/// The child roots that `entries` name, in order.
pub open spec fn child_roots_spec(entries: Seq<(Seq<u8>, Seq<u8>)>) -> Seq<Seq<u8>>
    decreases entries.len(),
{
    if entries.len() == 0 {
        Seq::empty()
    } else {
        let rest = child_roots_spec(entries.drop_last());
        match child_root_spec(entries.last().0, entries.last().1) {
            Some(c) => rest.push(c),
            None => rest,
        }
    }
}

/// A byte vector's deep view is its view.
pub proof fn lemma_bytes_deep_view(v: Vec<u8>)
    ensures
        v.deep_view() == v@,
{
    assert(v.deep_view() =~= v@);
}

/// The prefix of child-index keys of `block`.
pub fn child_index_prefix(block: u64) -> (r: Vec<u8>)
    ensures
        r@ == child_prefix_spec(block),
{
    let mut r: Vec<u8> = Vec::new();
    r.push(CHILD_INDEX_TAG);
    let mut rest: u64 = block;
    let mut i: usize = 0;
    while i < 8
        invariant
            i <= 8,
            r@ + le_bytes(rest as nat, (8 - i) as nat) == child_prefix_spec(block),
        decreases 8 - i,
    {
        let ghost before = r@;
        assert(le_bytes(rest as nat, (8 - i) as nat) == seq![(rest % 256) as u8] + le_bytes(
            (rest / 256) as nat,
            (8 - i - 1) as nat,
        ));
        r.push((rest % 256) as u8);
        assert(r@ == before + seq![(rest % 256) as u8]);
        assert(before + (seq![(rest % 256) as u8] + le_bytes((rest / 256) as nat, (8 - i - 1) as nat))
            =~= r@ + le_bytes((rest / 256) as nat, (8 - i - 1) as nat));
        rest = rest / 256;
        i = i + 1;
    }
    assert(r@ + le_bytes(rest as nat, 0) =~= r@);
    r
}

/// The child root named by an entry with key `key`, given what decoding the
/// key's tail and the value gave.
pub fn accept_child_root(key: &Vec<u8>, key_tail: Option<Vec<u8>>, value: Option<Vec<u8>>) -> (r:
    Option<Vec<u8>>)
    ensures
        r.deep_view() == accepted_child_root(key@, key_tail.deep_view(), value.deep_view()),
{
    if key.len() > 8 && key[0] == CHILD_INDEX_TAG && key_tail.is_some() {
        match value {
            Some(v) => {
                if v.len() == HASH_LEN {
                    Some(v)
                } else {
                    None
                }
            },
            None => None,
        }
    } else {
        None
    }
}

/// The child root that the entry `key` -> `value` names, if it is a
/// child-index entry.
pub fn child_root_of(key: &Vec<u8>, value: &Vec<u8>) -> (r: Option<Vec<u8>>)
    ensures
        r.deep_view() == child_root_spec(key@, value@),
{
    if key.len() <= 8 {
        return None;
    }
    let key_tail = decode_bytes(key, 9);
    let decoded = decode_bytes(value, 0);
    assert(value@.subrange(0, value@.len() as int) =~= value@);
    accept_child_root(key, key_tail, decoded)
}

/// The child roots that a trie's child-index entries name, in order.
pub fn child_roots(entries: &Vec<(Vec<u8>, Vec<u8>)>) -> (r: Vec<Vec<u8>>)
    ensures
        r.deep_view() == child_roots_spec(entries.deep_view()),
{
    let mut r: Vec<Vec<u8>> = Vec::new();
    let mut i: usize = 0;
    while i < entries.len()
        invariant
            i <= entries.len(),
            r.deep_view() == child_roots_spec(entries.deep_view().subrange(0, i as int)),
        decreases entries.len() - i,
    {
        let ghost prev = entries.deep_view().subrange(0, i as int);
        let ghost next = entries.deep_view().subrange(0, i + 1);
        assert(next.drop_last() =~= prev);
        proof {
            lemma_bytes_deep_view(entries@[i as int].0);
            lemma_bytes_deep_view(entries@[i as int].1);
        }
        assert(next.last() == (entries[i as int].0@, entries[i as int].1@));
        let c = child_root_of(&entries[i].0, &entries[i].1);
        match c {
            Some(c) => {
                r.push(c);
            },
            None => {},
        }
        assert(r.deep_view() =~= child_roots_spec(next));
        i = i + 1;
    }
    assert(entries.deep_view().subrange(0, entries.len() as int) =~= entries.deep_view());
    r
}

/// What pruning one trie removes: its root, then every node a walk touches;
/// nothing once its root node is gone.
pub open spec fn trie_removal<S: Storage>(s: &S, root: Seq<u8>) -> Seq<Seq<u8>> {
    if s.node_stored(root) {
        seq![root] + s.nodes_at(root)
    } else {
        Seq::empty()
    }
}

/// What pruning the tries at `children` removes, in order.
pub open spec fn children_removal<S: Storage>(s: &S, children: Seq<Seq<u8>>) -> Seq<Seq<u8>>
    decreases children.len(),
{
    if children.len() == 0 {
        Seq::empty()
    } else {
        children_removal(s, children.drop_last()) + trie_removal(s, children.last())
    }
}

/// The child roots that the trie of `block` at `root` names.
pub open spec fn block_children<S: Storage>(s: &S, block: u64, root: Seq<u8>) -> Seq<Seq<u8>> {
    child_roots_spec(s.entries_at(root, child_prefix_spec(block)))
}

/// What pruning `block` removes: nothing without a root record, or once its
/// root node is gone; else the tries of its children, then its own trie.
pub open spec fn block_removal<S: Storage>(s: &S, anchor: AnchorBlockId, block: u64) -> Seq<Seq<u8>> {
    match s.root_at(anchor, block) {
        None => Seq::empty(),
        Some(root) => if s.node_stored(root) {
            children_removal(s, block_children(s, block, root)) + trie_removal(s, root)
        } else {
            Seq::empty()
        },
    }
}

/// What pruning the blocks `first .. end` removes, block by block in
/// ascending order, skipping the blocks in `unreadable`.
pub open spec fn range_removal<S: Storage>(
    s: &S,
    anchor: AnchorBlockId,
    first: int,
    end: int,
    unreadable: Set<u64>,
) -> Seq<Seq<u8>>
    decreases end - first,
{
    if end <= first {
        Seq::empty()
    } else {
        range_removal(s, anchor, first, end - 1, unreadable) + if unreadable.contains(
            (end - 1) as u64,
        ) {
            Seq::<Seq<u8>>::empty()
        } else {
            block_removal(s, anchor, (end - 1) as u64)
        }
    }
}

/// Only the skipped blocks inside the range matter to what it removes.
pub proof fn lemma_range_removal_frame<S: Storage>(
    s: &S,
    anchor: AnchorBlockId,
    first: int,
    end: int,
    u1: Set<u64>,
    u2: Set<u64>,
)
    requires
        0 <= first,
        end <= u64::MAX + 1,
        forall|b: u64| first <= b < end ==> (u1.contains(b) <==> u2.contains(b)),
    ensures
        range_removal(s, anchor, first, end, u1) == range_removal(s, anchor, first, end, u2),
    decreases end - first,
{
    if end > first {
        lemma_range_removal_frame(s, anchor, first, end - 1, u1, u2);
    }
}

/// A fresh copy of `v`.
pub(crate) fn copy_bytes(v: &Vec<u8>) -> (r: Vec<u8>)
    ensures
        r@ == v@,
        r.deep_view() == v@,
{
    let mut r: Vec<u8> = Vec::new();
    let mut i: usize = 0;
    while i < v.len()
        invariant
            i <= v.len(),
            r@ == v@.subrange(0, i as int),
        decreases v.len() - i,
    {
        r.push(v[i]);
        assert(r@ =~= v@.subrange(0, i + 1));
        i = i + 1;
    }
    assert(r@ =~= v@);
    proof {
        lemma_bytes_deep_view(r);
    }
    r
}

/// Delivers the root and every node of the trie at `root` to `removed`.
fn prune_trie<S: Storage>(storage: &S, root: &Vec<u8>, removed: &mut Vec<Vec<u8>>)
    ensures
        final(removed).deep_view() == old(removed).deep_view() + trie_removal(storage, root@),
{
    let ghost base = removed.deep_view();
    if !storage.contains_node(root) {
        assert(removed.deep_view() =~= base + trie_removal(storage, root@));
        return;
    }
    let mut nodes = storage.record_all_nodes(root);
    let ghost nodes_view = nodes.deep_view();
    let root_copy = copy_bytes(root);
    removed.push(root_copy);
    assert(removed.deep_view() =~= base.push(root@));
    let ghost with_root = removed.deep_view();
    removed.append(&mut nodes);
    assert(removed.deep_view() =~= with_root + nodes_view);
    assert(base + trie_removal(storage, root@) =~= base.push(root@) + nodes_view);
}

/// Prunes the tries at `children`, in order.
fn prune_children<S: Storage>(storage: &S, children: &Vec<Vec<u8>>, removed: &mut Vec<Vec<u8>>)
    ensures
        final(removed).deep_view() == old(removed).deep_view() + children_removal(
            storage,
            children.deep_view(),
        ),
{
    let ghost base = removed.deep_view();
    let mut i: usize = 0;
    while i < children.len()
        invariant
            i <= children.len(),
            removed.deep_view() == base + children_removal(
                storage,
                children.deep_view().subrange(0, i as int),
            ),
        decreases children.len() - i,
    {
        let ghost prev = children.deep_view().subrange(0, i as int);
        let ghost next = children.deep_view().subrange(0, i + 1);
        assert(next.drop_last() =~= prev);
        proof {
            lemma_bytes_deep_view(children@[i as int]);
        }
        assert(next.last() == children[i as int]@);
        prune_trie(storage, &children[i], removed);
        assert(base + children_removal(storage, next) =~= base + children_removal(storage, prev)
            + trie_removal(storage, children[i as int]@));
        i = i + 1;
    }
    assert(children.deep_view().subrange(0, children.len() as int) =~= children.deep_view());
}

/// The blocks of a list of failed reads.
pub open spec fn failed_blocks(u: Seq<(u64, StorageError)>) -> Seq<u64> {
    u.map_values(|f: (u64, StorageError)| f.0)
}

/// Prunes the changes tries of the blocks `first ..= last` on the branch of
/// `anchor`, delivering every node hash to delete to `removed`. Blocks go in
/// ascending order; in each, the child tries come before the block's own
/// trie, whose root comes before its other nodes. A block without a root
/// record, or whose root node is already gone, is skipped, as is a child trie
/// whose root node is gone. A block whose root cannot be read is skipped too,
/// and the pruning goes on; exactly those blocks are returned, with the read's
/// error, in ascending order.
pub fn prune<S: Storage>(
    storage: &S,
    first: u64,
    last: u64,
    anchor: &AnchorBlockId,
    removed: &mut Vec<Vec<u8>>,
) -> (unreadable: Vec<(u64, StorageError)>)
    ensures
        forall|i: int|
            0 <= i < unreadable.len() ==> first <= #[trigger] unreadable@[i].0 <= last,
        forall|b: u64|
            first <= b <= last ==> (storage.root_fails(*anchor, b) <==> #[trigger] failed_blocks(
                unreadable@,
            ).contains(b)),
        forall|i: int, j: int| 0 <= i < j < unreadable.len() ==> unreadable@[i].0 < unreadable@[j].0,
        final(removed).deep_view() == old(removed).deep_view() + range_removal(
            storage,
            *anchor,
            first as int,
            last + 1,
            failed_blocks(unreadable@).to_set(),
        ),
{
    let ghost base = removed.deep_view();
    let mut unreadable: Vec<(u64, StorageError)> = Vec::new();
    if first > last {
        assert(removed.deep_view() =~= base + Seq::<Seq<u8>>::empty());
        return unreadable;
    }
    let mut block: u64 = first;
    let mut done = false;
    assert(removed.deep_view() =~= base + Seq::<Seq<u8>>::empty());
    while !done
        invariant
            first <= block <= last,
            done ==> block == last,
            forall|i: int|
                0 <= i < unreadable.len() ==> first <= #[trigger] unreadable@[i].0 <= last,
            forall|b: u64|
                first <= b < block ==> (storage.root_fails(*anchor, b) <==> #[trigger] failed_blocks(
                    unreadable@,
                ).contains(b)),
            done ==> (storage.root_fails(*anchor, block as u64) <==> failed_blocks(
                unreadable@,
            ).contains(block)),
            forall|i: int| 0 <= i < unreadable.len() ==> !done ==> #[trigger] unreadable@[i].0 < block,
            forall|i: int, j: int|
                0 <= i < j < unreadable.len() ==> unreadable@[i].0 < unreadable@[j].0,
            !done ==> removed.deep_view() == base + range_removal(
                storage,
                *anchor,
                first as int,
                block as int,
                failed_blocks(unreadable@).to_set(),
            ),
            done ==> removed.deep_view() == base + range_removal(
                storage,
                *anchor,
                first as int,
                last + 1,
                failed_blocks(unreadable@).to_set(),
            ),
        decreases last - block + if done {
            0int
        } else {
            1int
        },
    {
        let ghost u0 = failed_blocks(unreadable@);
        let ghost before = removed.deep_view();
        let looked_up = storage.root(anchor, block);
        let ghost read_failed = looked_up is Err;
        match looked_up {
            Ok(Some(root)) => {
                proof {
                    lemma_bytes_deep_view(root);
                }
                if !storage.contains_node(&root) {
                    assert(removed.deep_view() =~= before + block_removal(storage, *anchor, block));
                } else {
                    let prefix = child_index_prefix(block);
                    let entries = storage.key_values_with_prefix(&root, &prefix);
                    let children = child_roots(&entries);
                    prune_children(storage, &children, removed);
                    prune_trie(storage, &root, removed);
                    assert(removed.deep_view() =~= before + block_removal(storage, *anchor, block));
                }
            },
            Ok(None) => {
                assert(removed.deep_view() =~= before + block_removal(storage, *anchor, block));
            },
            Err(error) => {
                unreadable.push((block, error));
                assert(removed.deep_view() =~= before + Seq::<Seq<u8>>::empty());
            },
        }
        proof {
            let u1 = failed_blocks(unreadable@);
            assert(u1.len() == unreadable@.len());
            assert(forall|k: int| 0 <= k < u1.len() ==> u1[k] == #[trigger] unreadable@[k].0);
            assert(forall|k: int| 0 <= k < u0.len() ==> u0[k] == u1[k]);
            assert forall|b: u64| first <= b < block implies (u0.to_set().contains(b)
                <==> u1.to_set().contains(b)) by {
                if u1.to_set().contains(b) {
                    let k = choose|k: int| 0 <= k < u1.len() && u1[k] == b;
                    if k == u0.len() {
                        assert(false);
                    } else {
                        assert(u0[k] == b);
                    }
                }
                if u0.to_set().contains(b) {
                    let k = choose|k: int| 0 <= k < u0.len() && u0[k] == b;
                    assert(u1[k] == b);
                }
            }
            lemma_range_removal_frame(
                storage,
                *anchor,
                first as int,
                block as int,
                u0.to_set(),
                u1.to_set(),
            );
            if u1.len() > u0.len() {
                assert(u1[u1.len() - 1] == block);
                assert(u1.to_set().contains(block));
            } else {
                assert(u1 =~= u0);
                assert(!u1.to_set().contains(block)) by {
                    if u1.to_set().contains(block) {
                        let k = choose|k: int| 0 <= k < u1.len() && u1[k] == block;
                        assert(unreadable@[k].0 < block);
                    }
                }
            }
            assert(removed.deep_view() =~= base + range_removal(
                storage,
                *anchor,
                first as int,
                block + 1,
                u1.to_set(),
            ));
            assert forall|b: u64| first <= b <= block implies (storage.root_fails(*anchor, b)
                <==> #[trigger] u1.contains(b)) by {
                if b < block {
                    assert(u0.contains(b) <==> u0.to_set().contains(b));
                    assert(u1.contains(b) <==> u1.to_set().contains(b));
                } else {
                    assert(read_failed <==> storage.root_fails(*anchor, block));
                    assert(u1.contains(b) <==> u1.to_set().contains(b));
                }
            }
        }
        if block == last {
            done = true;
        } else {
            block = block + 1;
        }
    }
    assert forall|b: u64| first <= b <= last implies (storage.root_fails(*anchor, b)
        <==> #[trigger] failed_blocks(unreadable@).contains(b)) by {
        if b < block {
        } else {
            assert(b == block);
        }
    }
    unreadable
}

/// Pruning a range in which no block has a stored root node removes nothing:
/// an already-pruned range, whose root nodes are gone, or one where no trie
/// was ever built.
pub proof fn lemma_prune_without_roots_removes_nothing<S: Storage>(
    s: &S,
    anchor: AnchorBlockId,
    first: int,
    end: int,
    unreadable: Set<u64>,
)
    requires
        0 <= first,
        end <= u64::MAX + 1,
        forall|b: u64|
            first <= b < end ==> s.root_at(anchor, b) is None || !s.node_stored(
                s.root_at(anchor, b)->0,
            ),
    ensures
        range_removal(s, anchor, first, end, unreadable) == Seq::<Seq<u8>>::empty(),
    decreases end - first,
{
    if end > first {
        lemma_prune_without_roots_removes_nothing(s, anchor, first, end - 1, unreadable);
        assert(range_removal(s, anchor, first, end, unreadable) =~= Seq::<Seq<u8>>::empty());
    }
}

/// Every hash that pruning a range removes belongs to the removal of a block
/// inside that range.
pub proof fn lemma_prune_stays_in_range<S: Storage>(
    s: &S,
    anchor: AnchorBlockId,
    first: int,
    end: int,
    unreadable: Set<u64>,
)
    requires
        0 <= first,
        end <= u64::MAX + 1,
    ensures
        forall|k: int|
            0 <= k < range_removal(s, anchor, first, end, unreadable).len() ==> exists|b: u64|
                first <= b < end && !unreadable.contains(b) && block_removal(s, anchor, b).contains(
                    #[trigger] range_removal(s, anchor, first, end, unreadable)[k],
                ),
    decreases end - first,
{
    if end > first {
        lemma_prune_stays_in_range(s, anchor, first, end - 1, unreadable);
        let prev = range_removal(s, anchor, first, end - 1, unreadable);
        let all = range_removal(s, anchor, first, end, unreadable);
        let last_block = (end - 1) as u64;
        assert forall|k: int| 0 <= k < all.len() implies exists|b: u64|
            first <= b < end && !unreadable.contains(b) && block_removal(s, anchor, b).contains(
                #[trigger] all[k],
            ) by {
            if k < prev.len() {
                assert(all[k] == prev[k]);
                let b = choose|b: u64|
                    first <= b < end - 1 && !unreadable.contains(b) && block_removal(
                        s,
                        anchor,
                        b,
                    ).contains(#[trigger] prev[k]);
                assert(first <= b < end);
            } else {
                assert(!unreadable.contains(last_block));
                let own = block_removal(s, anchor, last_block);
                assert(all[k] == own[k - prev.len()]);
                assert(own.contains(all[k]));
            }
        }
    }
}

/// The removal of the tries at `children` holds every hash of the trie of
/// each of them.
pub proof fn lemma_children_removal_holds<S: Storage>(s: &S, children: Seq<Seq<u8>>, c: Seq<u8>)
    requires
        children.contains(c),
    ensures
        forall|x: Seq<u8>|
            trie_removal(s, c).contains(x) ==> #[trigger] children_removal(s, children).contains(x),
    decreases children.len(),
{
    let all = children_removal(s, children);
    let prev = children_removal(s, children.drop_last());
    let own = trie_removal(s, children.last());
    if children.last() == c {
        assert forall|x: Seq<u8>| trie_removal(s, c).contains(x) implies #[trigger] all.contains(
            x,
        ) by {
            let k = choose|k: int| 0 <= k < own.len() && own[k] == x;
            assert(all[prev.len() + k] == x);
        }
    } else {
        let j = choose|j: int| 0 <= j < children.len() && children[j] == c;
        assert(children.drop_last()[j] == c);
        lemma_children_removal_holds(s, children.drop_last(), c);
        assert forall|x: Seq<u8>| trie_removal(s, c).contains(x) implies #[trigger] all.contains(
            x,
        ) by {
            assert(prev.contains(x));
            let k = choose|k: int| 0 <= k < prev.len() && prev[k] == x;
            assert(all[k] == x);
        }
    }
}

/// Pruning a range removes every hash of `block`'s removal when `block` is in
/// the range and was readable.
pub proof fn lemma_range_removal_holds_block<S: Storage>(
    s: &S,
    anchor: AnchorBlockId,
    first: int,
    end: int,
    unreadable: Set<u64>,
    block: u64,
)
    requires
        0 <= first <= block < end <= u64::MAX + 1,
        !unreadable.contains(block),
    ensures
        forall|x: Seq<u8>|
            block_removal(s, anchor, block).contains(x) ==> #[trigger] range_removal(
                s,
                anchor,
                first,
                end,
                unreadable,
            ).contains(x),
    decreases end - first,
{
    let all = range_removal(s, anchor, first, end, unreadable);
    let prev = range_removal(s, anchor, first, end - 1, unreadable);
    if block == end - 1 {
        let own = block_removal(s, anchor, block);
        assert forall|x: Seq<u8>| own.contains(x) implies #[trigger] all.contains(x) by {
            let k = choose|k: int| 0 <= k < own.len() && own[k] == x;
            assert(all[prev.len() + k] == x);
        }
    } else {
        lemma_range_removal_holds_block(s, anchor, first, end - 1, unreadable, block);
        assert forall|x: Seq<u8>| block_removal(s, anchor, block).contains(x) implies #[trigger] all.contains(x) by {
            assert(prev.contains(x));
            let k = choose|k: int| 0 <= k < prev.len() && prev[k] == x;
            assert(all[k] == x);
        }
    }
}

/// When a pruned block whose root node is still stored names a child trie,
/// every hash of that child trie is removed with the block, and all of them
/// come before the block's own root.
pub proof fn lemma_prune_takes_children_first<S: Storage>(
    s: &S,
    anchor: AnchorBlockId,
    first: u64,
    last: u64,
    unreadable: Set<u64>,
    block: u64,
    child: Seq<u8>,
)
    requires
        first <= block <= last,
        !unreadable.contains(block),
        s.root_at(anchor, block) is Some,
        s.node_stored(s.root_at(anchor, block)->0),
        block_children(s, block, s.root_at(anchor, block)->0).contains(child),
    ensures
        forall|x: Seq<u8>|
            trie_removal(s, child).contains(x) ==> #[trigger] range_removal(
                s,
                anchor,
                first as int,
                last + 1,
                unreadable,
            ).contains(x),
        ({
            let root = s.root_at(anchor, block)->0;
            let own = block_removal(s, anchor, block);
            let at = children_removal(s, block_children(s, block, root)).len() as int;
            &&& own[at] == root
            &&& forall|x: Seq<u8>|
                trie_removal(s, child).contains(x) ==> exists|k: int|
                    0 <= k < at && #[trigger] own[k] == x
        }),
{
    let root = s.root_at(anchor, block)->0;
    let children = block_children(s, block, root);
    let own = block_removal(s, anchor, block);
    let before = children_removal(s, children);
    lemma_children_removal_holds(s, children, child);
    lemma_range_removal_holds_block(s, anchor, first as int, last + 1, unreadable, block);
    assert forall|x: Seq<u8>| trie_removal(s, child).contains(x) implies #[trigger] range_removal(
        s,
        anchor,
        first as int,
        last + 1,
        unreadable,
    ).contains(x) by {
        assert(before.contains(x));
        let k = choose|k: int| 0 <= k < before.len() && before[k] == x;
        assert(own[k] == x);
        assert(own.contains(x));
    }
    assert(own[before.len() as int] == root);
    assert forall|x: Seq<u8>| trie_removal(s, child).contains(x) implies exists|k: int|
        0 <= k < before.len() && #[trigger] own[k] == x by {
        assert(before.contains(x));
        let k = choose|k: int| 0 <= k < before.len() && before[k] == x;
        assert(own[k] == x);
    }
}

} // verus!
