//! The ephemeral index an archive scan produces: a mapping from decoded
//! logical path to the entry's table offset, with a later entry for the
//! same path overwriting an earlier one.

use vstd::prelude::*;

verus! {

/// A point-in-time mapping from logical path to the table offset of that
/// path's entry record. Viewed as a `Map<Seq<char>, u64>`.
#[derive(Debug)]
pub struct Index {
    pairs: Vec<(String, u64)>,
}

/// The map a pair list denotes, a later pair overriding an earlier one
/// with the same path.
spec fn pair_map(pairs: Seq<(String, u64)>) -> Map<Seq<char>, u64>
    decreases pairs.len(),
{
    if pairs.len() == 0 {
        Map::empty()
    } else {
        pair_map(pairs.drop_last()).insert(pairs.last().0@, pairs.last().1)
    }
}

impl View for Index {
    type V = Map<Seq<char>, u64>;

    closed spec fn view(&self) -> Map<Seq<char>, u64> {
        pair_map(self.pairs@)
    }
}

/// If position `j` holds the last pair with path `k`, that pair's offset is
/// what the map stores for `k`.
proof fn lemma_pair_map_found(pairs: Seq<(String, u64)>, k: Seq<char>, j: int)
    requires
        0 <= j < pairs.len(),
        pairs[j].0@ == k,
        forall|i: int| j < i < pairs.len() ==> pairs[i].0@ != k,
    ensures
        pair_map(pairs).contains_key(k),
        pair_map(pairs)[k] == pairs[j].1,
    decreases pairs.len(),
{
    if j < pairs.len() - 1 {
        lemma_pair_map_found(pairs.drop_last(), k, j);
    }
}

/// A path no pair holds is absent from the map.
proof fn lemma_pair_map_absent(pairs: Seq<(String, u64)>, k: Seq<char>)
    requires
        forall|i: int| 0 <= i < pairs.len() ==> pairs[i].0@ != k,
    ensures
        !pair_map(pairs).contains_key(k),
    decreases pairs.len(),
{
    if pairs.len() > 0 {
        lemma_pair_map_absent(pairs.drop_last(), k);
    }
}

impl Index {
    /// An empty index.
    pub fn new() -> (r: Index)
        ensures
            r@ == Map::<Seq<char>, u64>::empty(),
    {
        Index { pairs: Vec::new() }
    }

    /// Records that `path`'s entry starts at `table_offset`, overwriting
    /// what an earlier record said of the same path.
    pub fn insert(&mut self, path: String, table_offset: u64)
        ensures
            final(self)@ == old(self)@.insert(path@, table_offset),
    {
        let ghost pv = path@;
        let ghost before = self.pairs@;
        self.pairs.push((path, table_offset));
        proof {
            assert(self.pairs@.drop_last() =~= before);
        }
    }

    /// The table offset recorded for `res_path`, if any.
    pub fn get(&self, res_path: &str) -> (r: Option<u64>)
        ensures
            match r {
                Some(v) => self@.contains_key(res_path@) && v == self@[res_path@],
                None => !self@.contains_key(res_path@),
            },
    {
        let key: String = res_path.to_owned();
        let n = self.pairs.len();
        let mut j = n;
        while j > 0
            invariant
                j <= n,
                n == self.pairs.len(),
                key@ == res_path@,
                forall|i: int| j <= i < n ==> self.pairs@[i].0@ != res_path@,
            decreases j,
        {
            j -= 1;
            if self.pairs[j].0 == key {
                proof {
                    lemma_pair_map_found(self.pairs@, res_path@, j as int);
                }
                return Some(self.pairs[j].1);
            }
        }
        proof {
            lemma_pair_map_absent(self.pairs@, res_path@);
        }
        None
    }
}

} // verus!
