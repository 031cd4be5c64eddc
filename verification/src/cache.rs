//! The memo of a search: scored moves remembered by position and
//! perspective, in a hash map keyed by a hash of the position.

use std::collections::HashMap;
use vstd::prelude::*;
use crate::board::{piece_code, piece_to_int, FullMove, Game, Piece, Position};
use crate::search::FullMoveEvaluation;

verus! {

/// A game state together with the side in whose eyes it is scored.
#[derive(Copy, Clone, PartialEq, Eq, Hash, Debug)]
pub struct GamePerspective {
    pub game: Game,
    pub piece: Piece,
}

impl View for GamePerspective {
    type V = (Position, Piece);

    open spec fn view(&self) -> (Position, Piece) {
        (self.game@, self.piece)
    }
}

/// What a search has remembered: for some positions and perspectives, a
/// move and its score.
pub type Memo = Map<(Position, Piece), (FullMove, int)>;

/// One remembered result.
#[derive(Copy, Clone)]
struct CacheEntry {
    key: GamePerspective,
    value: FullMoveEvaluation,
}

/// The memo of one search. It belongs to one top-level search and is
/// handed down by reference; entries are never taken out.
pub struct Cache {
    buckets: HashMap<u64, Vec<CacheEntry>>,
}

/// One step of the hash: the running value `h` takes in `code`.
spec fn mix(h: int, code: int) -> int {
    (h * 31 + code) % 4294967291
}

/// Hash of the first `n` squares.
spec fn hash_squares(squares: Seq<Piece>, n: nat) -> int
    decreases n,
{
    if n == 0 {
        7
    } else {
        mix(hash_squares(squares, (n - 1) as nat), piece_code(squares[n - 1]) as int)
    }
}

/// Hash of a position and perspective: the bucket its entry lives in.
#[verifier::opaque]
spec fn key_hash(k: (Position, Piece)) -> int {
    mix(
        mix(
            hash_squares(k.0.squares, 100),
            if k.0.turn {
                1
            } else {
                0
            },
        ),
        piece_code(k.1) as int,
    )
}

fn hash_key(key: &GamePerspective) -> (h: u64)
    ensures
        h == key_hash(key@),
{
    proof {
        reveal(key_hash);
    }
    let mut h: u64 = 7;
    let mut n: usize = 0;
    while n < 100
        invariant
            n <= 100,
            h == hash_squares(key@.0.squares, n as nat),
            h < 4294967291,
        decreases 100 - n,
    {
        let code: u64 = piece_to_int(key.game.board[n]) as u64;
        h = (h * 31 + code) % 4294967291;
        n += 1;
    }
    let turn_code: u64 = if key.game.turn {
        1
    } else {
        0
    };
    h = (h * 31 + turn_code) % 4294967291;
    h = (h * 31 + piece_to_int(key.piece) as u64) % 4294967291;
    h
}

/// Tests whether two keys stand for the same position and perspective.
fn same_key(a: &GamePerspective, b: &GamePerspective) -> (r: bool)
    ensures
        r == (a@ == b@),
{
    if a.piece != b.piece || a.game.turn != b.game.turn {
        return false;
    }
    let mut n: usize = 0;
    while n < 100
        invariant
            n <= 100,
            forall|s: int| 0 <= s < n ==> a.game.board@[s] == b.game.board@[s],
        decreases 100 - n,
    {
        if a.game.board[n] != b.game.board[n] {
            return false;
        }
        n += 1;
    }
    assert(a@.0.squares =~= b@.0.squares);
    true
}

/// The entry of `bucket` at `i` is the one remembered for `k`.
spec fn holds(bucket: Seq<CacheEntry>, i: int, k: (Position, Piece)) -> bool {
    0 <= i < bucket.len() && bucket[i].key@ == k
}

/// The entries of `bucket` belong to the bucket `h`, one at most for a key.
spec fn bucket_ok(bucket: Seq<CacheEntry>, h: int) -> bool {
    &&& forall|i: int| 0 <= i < bucket.len() ==> key_hash((#[trigger] bucket[i]).key@) == h
    &&& forall|i: int, j: int|
        0 <= i < j < bucket.len() ==> (#[trigger] bucket[i]).key@ != (#[trigger] bucket[j]).key@
}

/// What a table of buckets remembers for `k`, if anything.
spec fn remembered(table: Map<u64, Vec<CacheEntry>>, k: (Position, Piece)) -> Option<(FullMove, int)> {
    let h = key_hash(k) as u64;
    if table.contains_key(h) && exists|i: int| holds(table[h]@, i, k) {
        let i = choose|i: int| holds(table[h]@, i, k);
        Some((table[h]@[i].value.full_move, table[h]@[i].value.score as int))
    } else {
        None
    }
}

/// Every bucket of the table is in order.
spec fn table_ok(table: Map<u64, Vec<CacheEntry>>) -> bool {
    forall|h: u64| #[trigger] table.contains_key(h) ==> bucket_ok(table[h]@, h as int)
}

impl Cache {
    /// The cache is in order: every entry sits in the bucket of its key,
    /// and no key has two entries.
    pub closed spec fn wf(&self) -> bool {
        table_ok(self.buckets@)
    }

    /// The memo that the cache holds.
    pub closed spec fn view(&self) -> Memo {
        Map::new(
            |k: (Position, Piece)| remembered(self.buckets@, k) is Some,
            |k: (Position, Piece)| remembered(self.buckets@, k)->0,
        )
    }

    /// A cache that remembers nothing.
    pub fn new() -> (cache: Cache)
        ensures
            cache.wf(),
            cache@ == Map::<(Position, Piece), (FullMove, int)>::empty(),
    {
        let cache = Cache { buckets: HashMap::new() };
        assert(cache@ =~= Map::<(Position, Piece), (FullMove, int)>::empty());
        cache
    }

    /// Looks up what is remembered for `key`.
    pub fn get(&self, key: &GamePerspective) -> (found: Option<FullMoveEvaluation>)
        requires
            self.wf(),
        ensures
            match found {
                Some(e) => self@.contains_key(key@) && self@[key@] == (e.full_move, e.score as int),
                None => !self@.contains_key(key@),
            },
    {
        broadcast use vstd::std_specs::hash::group_hash_axioms;

        proof {
            lemma_key_hash_range(key@);
        }
        let h = hash_key(key);
        match self.buckets.get(&h) {
            None => None,
            Some(bucket) => {
                let mut i: usize = 0;
                while i < bucket.len()
                    invariant
                        i <= bucket.len(),
                        h == key_hash(key@),
                        bucket_ok(bucket@, h as int),
                        self.buckets@.contains_key(h),
                        self.buckets@[h]@ == bucket@,
                        forall|j: int| 0 <= j < i ==> !holds(bucket@, j, key@),
                    decreases bucket.len() - i,
                {
                    if same_key(&bucket[i].key, key) {
                        proof {
                            assert(holds(bucket@, i as int, key@));
                            let c = choose|c: int| holds(bucket@, c, key@);
                            assert(c == i);
                        }
                        return Some(bucket[i].value);
                    }
                    i += 1;
                }
                None
            },
        }
    }

    /// Remembers `value` for `key`, in place of what was remembered for it.
    pub fn insert(&mut self, key: GamePerspective, value: FullMoveEvaluation)
        requires
            old(self).wf(),
        ensures
            final(self).wf(),
            final(self)@ == old(self)@.insert(key@, (value.full_move, value.score as int)),
    {
        broadcast use vstd::std_specs::hash::group_hash_axioms;

        proof {
            lemma_key_hash_range(key@);
        }
        let ghost before = self.buckets@;
        let h = hash_key(&key);
        let entry = CacheEntry { key: key, value: value };
        let mut bucket: Vec<CacheEntry> = match self.buckets.remove(&h) {
            Some(bucket) => bucket,
            None => Vec::new(),
        };
        let ghost old_bucket = bucket@;
        assert(old_bucket == bucket_at(before, h));
        let mut i: usize = 0;
        let mut found: bool = false;
        while i < bucket.len()
            invariant_except_break
                !found,
            invariant
                i <= bucket.len(),
                bucket@ == old_bucket,
                forall|j: int| 0 <= j < i ==> !holds(bucket@, j, key@),
            ensures
                found ==> holds(old_bucket, i as int, key@),
                !found ==> i == old_bucket.len(),
            decreases bucket.len() - i,
        {
            if same_key(&bucket[i].key, &key) {
                found = true;
                break ;
            }
            i += 1;
        }
        if found {
            bucket[i] = entry;
        } else {
            bucket.push(entry);
        }
        self.buckets.insert(h, bucket);
        proof {
            let after = self.buckets@;
            assert(after == before.remove(h).insert(h, bucket));
            lemma_table_insert(before, after, h, i as int, entry);
            let goal = old(self)@.insert(key@, (value.full_move, value.score as int));
            let now = self@;
            assert forall|k: (Position, Piece)| #[trigger]
                goal.dom().contains(k) == now.dom().contains(k) by {
                lemma_remembered_after(before, after, h, i as int, entry, k);
            }
            assert forall|k: (Position, Piece)| goal.dom().contains(k) implies #[trigger] goal[k]
                == now[k] by {
                lemma_remembered_after(before, after, h, i as int, entry, k);
            }
            assert(now =~= goal);
        }
    }
}

/// The entries of the bucket `h` of a table.
spec fn bucket_at(table: Map<u64, Vec<CacheEntry>>, h: u64) -> Seq<CacheEntry> {
    if table.contains_key(h) {
        table[h]@
    } else {
        Seq::empty()
    }
}

/// `after` is `before` with `entry` written to the position `slot` of the
/// bucket `h`: over an entry of the same key, or behind all entries where
/// the key had none.
spec fn written(
    before: Map<u64, Vec<CacheEntry>>,
    after: Map<u64, Vec<CacheEntry>>,
    h: u64,
    slot: int,
    entry: CacheEntry,
) -> bool {
    let old_bucket = bucket_at(before, h);
    &&& table_ok(before)
    &&& h == key_hash(entry.key@)
    &&& after.contains_key(h)
    &&& forall|g: u64|
        g != h ==> after.contains_key(g) == before.contains_key(g) && (after.contains_key(g)
            ==> #[trigger] after[g] == before[g])
    &&& 0 <= slot <= old_bucket.len()
    &&& slot < old_bucket.len() ==> old_bucket[slot].key@ == entry.key@ && after[h]@
        == old_bucket.update(slot, entry)
    &&& slot == old_bucket.len() ==> after[h]@ == old_bucket.push(entry) && forall|j: int|
        0 <= j < old_bucket.len() ==> (#[trigger] old_bucket[j]).key@ != entry.key@
}

proof fn lemma_table_insert(
    before: Map<u64, Vec<CacheEntry>>,
    after: Map<u64, Vec<CacheEntry>>,
    h: u64,
    slot: int,
    entry: CacheEntry,
)
    requires
        table_ok(before),
        h == key_hash(entry.key@),
        0 <= slot <= bucket_at(before, h).len(),
        slot < bucket_at(before, h).len() ==> holds(bucket_at(before, h), slot, entry.key@),
        slot == bucket_at(before, h).len() ==> forall|j: int|
            0 <= j < bucket_at(before, h).len() ==> !holds(bucket_at(before, h), j, entry.key@),
        after == before.remove(h).insert(
            h,
            after[h],
        ),
        slot < bucket_at(before, h).len() ==> after[h]@ == bucket_at(before, h).update(slot, entry),
        slot == bucket_at(before, h).len() ==> after[h]@ == bucket_at(before, h).push(entry),
    ensures
        written(before, after, h, slot, entry),
        table_ok(after),
{
    let old_bucket = bucket_at(before, h);
    let new_bucket = after[h]@;
    if before.contains_key(h) {
        assert(bucket_ok(old_bucket, h as int));
    }
    assert forall|j: int| 0 <= j < old_bucket.len() && j != slot implies (
    #[trigger] old_bucket[j]).key@ != entry.key@ by {
        if slot < old_bucket.len() {
            assert(old_bucket[slot].key@ == entry.key@);
        } else {
            assert(!holds(old_bucket, j, entry.key@));
        }
    }
    assert(bucket_ok(new_bucket, h as int)) by {
        assert forall|i: int| 0 <= i < new_bucket.len() implies key_hash(
            (#[trigger] new_bucket[i]).key@,
        ) == h by {
            if i != slot {
                assert(new_bucket[i] == old_bucket[i]);
            }
        }
        assert forall|i: int, j: int| 0 <= i < j < new_bucket.len() implies (
        #[trigger] new_bucket[i]).key@ != (#[trigger] new_bucket[j]).key@ by {
            if i != slot {
                assert(new_bucket[i] == old_bucket[i]);
            }
            if j != slot {
                assert(new_bucket[j] == old_bucket[j]);
            }
        }
    }
    assert forall|g: u64| #[trigger] after.contains_key(g) implies bucket_ok(
        after[g]@,
        g as int,
    ) by {
        if g != h {
            assert(before.contains_key(g));
        }
    }
}

proof fn lemma_remembered_after(
    before: Map<u64, Vec<CacheEntry>>,
    after: Map<u64, Vec<CacheEntry>>,
    h: u64,
    slot: int,
    entry: CacheEntry,
    k: (Position, Piece),
)
    requires
        written(before, after, h, slot, entry),
        table_ok(after),
    ensures
        remembered(after, k) == if k == entry.key@ {
            Some((entry.value.full_move, entry.value.score as int))
        } else {
            remembered(before, k)
        },
{
    lemma_key_hash_range(k);
    let hk = key_hash(k) as u64;
    let old_bucket = bucket_at(before, h);
    let new_bucket = after[h]@;
    assert(bucket_ok(new_bucket, h as int));
    if k == entry.key@ {
        assert(holds(new_bucket, slot, k));
        let c = choose|c: int| holds(new_bucket, c, k);
        assert(c == slot);
    } else if hk == h {
        if exists|c: int| holds(new_bucket, c, k) {
            let c = choose|c: int| holds(new_bucket, c, k);
            assert(c != slot);
            assert(new_bucket[c] == old_bucket[c]);
            assert(holds(old_bucket, c, k));
            assert(before.contains_key(h));
            assert(bucket_ok(before[h]@, h as int));
            let c0 = choose|c0: int| holds(before[h]@, c0, k);
            assert(c0 == c);
        } else {
            if before.contains_key(h) && exists|c: int| holds(before[h]@, c, k) {
                let c0 = choose|c0: int| holds(before[h]@, c0, k);
                assert(new_bucket[c0] == old_bucket[c0]);
                assert(holds(new_bucket, c0, k));
            }
        }
    } else {
        assert(after.contains_key(hk) == before.contains_key(hk));
        if after.contains_key(hk) {
            assert(after[hk] == before[hk]);
        }
    }
}

proof fn lemma_key_hash_range(k: (Position, Piece))
    ensures
        0 <= key_hash(k) < 4294967291,
{
    reveal(key_hash);
}

} // verus!
