//! The records of a two-level tree, as blocks of leaf records under ascending separators.
use vstd::prelude::*;
use crate::node::{LeafCell, keys_ascending};

verus! {

/// The records of consecutive blocks, one after the other.
pub open spec fn concat(bs: Seq<Seq<LeafCell>>) -> Seq<LeafCell>
    decreases bs.len(),
{
    if bs.len() == 0 {
        Seq::empty()
    } else {
        concat(bs.drop_last()) + bs.last()
    }
}

/// Blocks of records under separator keys: each block is nonempty and ascending, each
/// separator is the largest key of its block, every key of a block is greater than the
/// separator before it, and the separators ascend.
pub open spec fn blocks_ordered(seps: Seq<i64>, bs: Seq<Seq<LeafCell>>) -> bool {
    &&& bs.len() == seps.len() + 1
    &&& forall|t: int| 0 <= t < bs.len() ==> #[trigger] bs[t].len() > 0 && keys_ascending(bs[t])
    &&& forall|t: int| 0 <= t < seps.len() ==> #[trigger] bs[t].last().key == seps[t]
    &&& forall|t: int, k: int|
        1 <= t < bs.len() && 0 <= k < bs[t].len() ==> #[trigger] bs[t][k].key > seps[t - 1]
    &&& forall|i: int, j: int| 0 <= i < j < seps.len() ==> seps[i] < seps[j]
}

/// The block that a key belongs in: the first whose separator is not below the key, or the
/// last block.
pub open spec fn slot_ok(seps: Seq<i64>, key: i64, s: int) -> bool {
    &&& 0 <= s <= seps.len()
    &&& forall|t: int| 0 <= t < s ==> seps[t] < key
    &&& s < seps.len() ==> key <= seps[s]
}

pub proof fn lemma_concat_append(a: Seq<Seq<LeafCell>>, b: Seq<Seq<LeafCell>>)
    ensures
        concat(a + b) == concat(a) + concat(b),
    decreases b.len(),
{
    if b.len() == 0 {
        assert(a + b =~= a);
        assert(concat(a) + concat(b) =~= concat(a));
    } else {
        lemma_concat_append(a, b.drop_last());
        assert((a + b).drop_last() =~= a + b.drop_last());
        assert(concat(a + b) =~= concat(a) + concat(b));
    }
}

pub proof fn lemma_concat_one(x: Seq<LeafCell>)
    ensures
        concat(seq![x]) == x,
{
    assert(seq![x].drop_last() =~= Seq::<Seq<LeafCell>>::empty());
    assert(concat(Seq::<Seq<LeafCell>>::empty()) == Seq::<LeafCell>::empty());
    assert(concat(seq![x]) == concat(seq![x].drop_last()) + x);
    assert(concat(seq![x]) =~= x);
}

/// Replacing block `s` by the blocks `mid` replaces its records by theirs.
pub proof fn lemma_concat_replace(bs: Seq<Seq<LeafCell>>, s: int, mid: Seq<Seq<LeafCell>>)
    requires
        0 <= s < bs.len(),
    ensures
        bs =~= bs.subrange(0, s) + seq![bs[s]] + bs.subrange(s + 1, bs.len() as int),
        concat(bs) == concat(bs.subrange(0, s)) + bs[s] + concat(
            bs.subrange(s + 1, bs.len() as int),
        ),
        concat(bs.subrange(0, s) + mid + bs.subrange(s + 1, bs.len() as int)) == concat(
            bs.subrange(0, s),
        ) + concat(mid) + concat(bs.subrange(s + 1, bs.len() as int)),
{
    let a = bs.subrange(0, s);
    let c = bs.subrange(s + 1, bs.len() as int);
    assert(bs =~= a + seq![bs[s]] + c);
    lemma_concat_append(a + seq![bs[s]], c);
    lemma_concat_append(a, seq![bs[s]]);
    lemma_concat_one(bs[s]);
    lemma_concat_append(a + mid, c);
    lemma_concat_append(a, mid);
}

/// Every record of the blocks has a key below `bound` where every block's records do.
pub proof fn lemma_concat_bound(bs: Seq<Seq<LeafCell>>, bound: i64)
    requires
        forall|t: int, k: int| 0 <= t < bs.len() && 0 <= k < bs[t].len() ==> bs[t][k].key < bound,
    ensures
        forall|i: int| 0 <= i < concat(bs).len() ==> #[trigger] concat(bs)[i].key < bound,
    decreases bs.len(),
{
    if bs.len() > 0 {
        lemma_concat_bound(bs.drop_last(), bound);
        let init = concat(bs.drop_last());
        assert forall|i: int| 0 <= i < concat(bs).len() implies #[trigger] concat(bs)[i].key
            < bound by {
            if i >= init.len() {
                assert(concat(bs)[i] == bs[bs.len() - 1][i - init.len()]);
            } else {
                assert(concat(bs)[i] == init[i]);
            }
        }
    }
}

/// Records of ordered blocks, one after the other, have strictly ascending keys.
pub proof fn lemma_concat_ascending(seps: Seq<i64>, bs: Seq<Seq<LeafCell>>)
    requires
        blocks_ordered(seps, bs),
    ensures
        keys_ascending(concat(bs)),
    decreases bs.len(),
{
    if bs.len() > 1 {
        let n = bs.len() - 1;
        let init_s = seps.drop_last();
        let init_b = bs.drop_last();
        assert(blocks_ordered(init_s, init_b)) by {
            assert forall|t: int| 0 <= t < init_b.len() implies #[trigger] init_b[t].len() > 0
                && keys_ascending(init_b[t]) by {
                assert(init_b[t] == bs[t]);
            }
            assert forall|t: int, k: int|
                1 <= t < init_b.len() && 0 <= k < init_b[t].len() implies #[trigger] init_b[t][k].key
                > init_s[t - 1] by {
                assert(init_b[t] == bs[t]);
            }
        }
        lemma_concat_ascending(init_s, init_b);
        let last = bs[n];
        assert forall|t: int, k: int|
            0 <= t < init_b.len() && 0 <= k < init_b[t].len() implies init_b[t][k].key
            <= seps[n - 1] by {
            let b = bs[t];
            assert(b.last().key == seps[t]);
            if k < b.len() - 1 {
                assert(b[k].key < b[b.len() - 1].key);
            }
            if t < n - 1 {
                assert(seps[t] < seps[n - 1]);
            }
        }
        assert(seps[n - 1] < last[0].key);
        lemma_concat_bound(init_b, last[0].key);
        let whole = concat(bs);
        let front = concat(init_b);
        assert forall|i: int, j: int| 0 <= i < j < whole.len() implies whole[i].key
            < whole[j].key by {
            if j < front.len() {
                assert(whole[i] == front[i] && whole[j] == front[j]);
            } else if i >= front.len() {
                assert(whole[i] == last[i - front.len()] && whole[j] == last[j - front.len()]);
            } else {
                assert(whole[i] == front[i] && whole[j] == last[j - front.len()]);
                assert(front[i].key < last[0].key);
                if j - front.len() > 0 {
                    assert(last[0].key < last[j - front.len()].key);
                }
            }
        }
    } else if bs.len() == 1 {
        lemma_concat_one(bs[0]);
        assert(bs =~= seq![bs[0]]);
    }
}

/// Every key of a block with one record inserted lies above the separator before the block.
proof fn lemma_inserted_above(
    seps: Seq<i64>,
    bs: Seq<Seq<LeafCell>>,
    s: int,
    pos: int,
    c: LeafCell,
)
    requires
        blocks_ordered(seps, bs),
        0 < s < bs.len(),
        0 <= pos <= bs[s].len(),
        slot_ok(seps, c.key, s),
    ensures
        forall|k: int|
            0 <= k < bs[s].insert(pos, c).len() ==> #[trigger] bs[s].insert(pos, c)[k].key
                > seps[s - 1],
{
    let m = bs[s].insert(pos, c);
    assert forall|k: int| 0 <= k < m.len() implies #[trigger] m[k].key > seps[s - 1] by {
        if k < pos {
            assert(m[k] == bs[s][k]);
        } else if k > pos {
            assert(m[k] == bs[s][k - 1]);
        }
    }
}

/// The last record of a block stays last where a smaller key is inserted.
proof fn lemma_inserted_last(seps: Seq<i64>, bs: Seq<Seq<LeafCell>>, s: int, pos: int, c: LeafCell)
    requires
        blocks_ordered(seps, bs),
        0 <= s < seps.len(),
        0 <= pos <= bs[s].len(),
        c.key < seps[s],
        keys_ascending(bs[s].insert(pos, c)),
    ensures
        bs[s].insert(pos, c).last() == bs[s].last(),
{
    let m = bs[s].insert(pos, c);
    if pos == bs[s].len() {
        assert(m[m.len() - 2] == bs[s].last());
        assert(m.last() == c);
    }
}

/// Inserting a record into the block that its key belongs in keeps the blocks ordered.
pub proof fn lemma_blocks_insert(
    seps: Seq<i64>,
    bs: Seq<Seq<LeafCell>>,
    s: int,
    pos: int,
    c: LeafCell,
)
    requires
        blocks_ordered(seps, bs),
        slot_ok(seps, c.key, s),
        s < seps.len() ==> c.key < seps[s],
        0 <= pos <= bs[s].len(),
        keys_ascending(bs[s].insert(pos, c)),
    ensures
        blocks_ordered(seps, bs.update(s, bs[s].insert(pos, c))),
{
    let m = bs[s].insert(pos, c);
    let nbs = bs.update(s, m);
    if s < seps.len() {
        lemma_inserted_last(seps, bs, s, pos, c);
    }
    if s > 0 {
        lemma_inserted_above(seps, bs, s, pos, c);
    }
    assert forall|t: int, k: int|
        1 <= t < nbs.len() && 0 <= k < nbs[t].len() implies #[trigger] nbs[t][k].key > seps[t
        - 1] by {
        if t != s {
            assert(nbs[t] == bs[t]);
        }
    }
    assert forall|t: int| 0 <= t < seps.len() implies #[trigger] nbs[t].last().key == seps[t] by {
        if t != s {
            assert(nbs[t] == bs[t]);
        }
    }
}

/// Inserting a record into the block that its key belongs in and splitting that block in two
/// keeps the blocks ordered, with the left part's largest key as a new separator before it.
pub proof fn lemma_blocks_split(
    seps: Seq<i64>,
    bs: Seq<Seq<LeafCell>>,
    s: int,
    pos: int,
    c: LeafCell,
    left: Seq<LeafCell>,
    right: Seq<LeafCell>,
)
    requires
        blocks_ordered(seps, bs),
        slot_ok(seps, c.key, s),
        s < seps.len() ==> c.key < seps[s],
        0 <= pos <= bs[s].len(),
        left + right == bs[s].insert(pos, c),
        left.len() > 0,
        right.len() > 0,
        keys_ascending(left + right),
    ensures
        blocks_ordered(
            seps.insert(s, left.last().key),
            bs.subrange(0, s) + seq![left, right] + bs.subrange(s + 1, bs.len() as int),
        ),
{
    let m = left + right;
    let nseps = seps.insert(s, left.last().key);
    let nbs = bs.subrange(0, s) + seq![left, right] + bs.subrange(s + 1, bs.len() as int);
    let ml = left.last().key;
    assert(nbs.len() == bs.len() + 1);
    assert(nbs[s] == left);
    assert(nbs[s + 1] == right);
    assert forall|t: int| 0 <= t < s implies #[trigger] nbs[t] == bs[t] by {}
    assert forall|t: int| s + 1 < t < nbs.len() implies #[trigger] nbs[t] == bs[t - 1] by {}
    assert(left =~= m.subrange(0, left.len() as int));
    assert(right =~= m.subrange(left.len() as int, m.len() as int));
    assert(keys_ascending(left));
    assert(keys_ascending(right)) by {
        assert forall|i: int, j: int| 0 <= i < j < right.len() implies right[i].key
            < right[j].key by {
            assert(right[i] == m[left.len() + i] && right[j] == m[left.len() + j]);
        }
    }
    assert(ml < right[0].key) by {
        assert(left.last() == m[left.len() - 1] && right[0] == m[left.len() as int]);
    }
    if s < seps.len() {
        lemma_inserted_last(seps, bs, s, pos, c);
        assert(right.last() == m.last());
        assert(right[0].key <= right.last().key) by {
            if right.len() > 1 {
                assert(right[0].key < right[right.len() - 1].key);
            }
        }
    }
    if s > 0 {
        lemma_inserted_above(seps, bs, s, pos, c);
        assert(ml > seps[s - 1]) by {
            assert(left.last() == m[left.len() - 1]);
        }
    }
    assert forall|t: int| 0 <= t < nbs.len() implies #[trigger] nbs[t].len() > 0 && keys_ascending(
        nbs[t],
    ) by {
        if t < s {
            assert(nbs[t] == bs[t]);
        } else if t > s + 1 {
            assert(nbs[t] == bs[t - 1]);
        }
    }
    assert forall|t: int| 0 <= t < nseps.len() implies #[trigger] nbs[t].last().key == nseps[t] by {
        if t < s {
            assert(nbs[t] == bs[t]);
        } else if t > s + 1 {
            assert(nbs[t] == bs[t - 1]);
        }
    }
    assert forall|t: int, k: int|
        1 <= t < nbs.len() && 0 <= k < nbs[t].len() implies #[trigger] nbs[t][k].key > nseps[t
        - 1] by {
        if t < s {
            assert(nbs[t] == bs[t]);
        } else if t == s {
            assert(left[k] == m[k]);
        } else if t == s + 1 {
            if k > 0 {
                assert(right[0].key < right[k].key);
            }
        } else {
            assert(nbs[t] == bs[t - 1]);
        }
    }
    assert forall|i: int, j: int| 0 <= i < j < nseps.len() implies nseps[i] < nseps[j] by {
        if j < s {
        } else if j == s {
            if i < s - 1 {
                assert(seps[i] < seps[s - 1]);
            }
        } else if i == s {
            if j > s + 1 {
                assert(seps[s] < seps[j - 1]);
            }
        } else if i < s {
            if j == s + 1 {
            }
        }
    }
}

/// Each record of the blocks, one after the other, comes from some block.
pub proof fn lemma_concat_index(bs: Seq<Seq<LeafCell>>, i: int) -> (r: (int, int))
    requires
        0 <= i < concat(bs).len(),
    ensures
        0 <= r.0 < bs.len(),
        0 <= r.1 < bs[r.0].len(),
        concat(bs)[i] == bs[r.0][r.1],
    decreases bs.len(),
{
    let init = concat(bs.drop_last());
    if i < init.len() {
        let r = lemma_concat_index(bs.drop_last(), i);
        (r.0, r.1)
    } else {
        (bs.len() - 1, i - init.len())
    }
}

/// A record of block `t` appears among the records of all blocks.
pub proof fn lemma_concat_contains(bs: Seq<Seq<LeafCell>>, t: int, k: int)
    requires
        0 <= t < bs.len(),
        0 <= k < bs[t].len(),
    ensures
        exists|i: int| 0 <= i < concat(bs).len() && concat(bs)[i] == bs[t][k],
{
    lemma_concat_replace(bs, t, seq![bs[t]]);
    let a = concat(bs.subrange(0, t));
    assert(concat(bs)[a.len() + k] == bs[t][k]);
}

/// Under ordered blocks, a key of block `t` belongs in block `t`.
pub proof fn lemma_key_slot(seps: Seq<i64>, bs: Seq<Seq<LeafCell>>, t: int, k: int)
    requires
        blocks_ordered(seps, bs),
        0 <= t < bs.len(),
        0 <= k < bs[t].len(),
    ensures
        slot_ok(seps, bs[t][k].key, t),
{
    let key = bs[t][k].key;
    if t < seps.len() {
        assert(bs[t].last().key == seps[t]);
        if k < bs[t].len() - 1 {
            assert(bs[t][k].key < bs[t][bs[t].len() - 1].key);
        }
        assert(key <= seps[t]);
    }
    assert forall|u: int| 0 <= u < t implies seps[u] < key by {
        assert(key > seps[t - 1]);
        if u < t - 1 {
            assert(seps[u] < seps[t - 1]);
        }
    }
}

/// At most one block is where a key belongs.
pub proof fn lemma_slot_unique(seps: Seq<i64>, key: i64, s1: int, s2: int)
    requires
        slot_ok(seps, key, s1),
        slot_ok(seps, key, s2),
    ensures
        s1 == s2,
{
    if s1 < s2 {
        assert(seps[s1] < key);
    } else if s2 < s1 {
        assert(seps[s2] < key);
    }
}

} // verus!
