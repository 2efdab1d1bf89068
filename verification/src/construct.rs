//! Construction of the perfect table: random displacement tables are drawn
//! and kept only when the key graph they induce is a forest and the derived
//! slot mapping is collision free; the loop retries up to a caller-chosen
//! bound.

use vstd::prelude::*;
use vstd::arithmetic::div_mod::lemma_div_nonincreasing;
use crate::hashing::{gen_table, hash_pair, spec_hash, ByteCounter};
use crate::keygraph::{
    assign_displacements, check_slots_assigned, compute_slots, edges_wf, graph_is_valid,
    injective_slots, lemma_injective_slots_cover, slot_covered,
};
use crate::table::HashMap;

verus! {

/// Why construction failed.
#[derive(Debug, PartialEq, Eq)]
pub enum ConstructionError {
    /// The retry bound was exhausted without finding an acyclic,
    /// collision-free trial.
    ConstructionExhausted,
}

/// An owned copy of one key's bytes.
fn clone_key(k: &Vec<u8>) -> (r: Vec<u8>)
    ensures
        r@ == k@,
{
    let mut r: Vec<u8> = Vec::new();
    let mut i: usize = 0;
    while i < k.len()
        invariant
            i <= k@.len(),
            r@ == k@.take(i as int),
        decreases k@.len() - i,
    {
        r.push(k[i]);
        proof {
            assert(r@ =~= k@.take(i as int + 1));
        }
        i = i + 1;
    }
    proof {
        assert(k@.take(k@.len() as int) =~= k@);
    }
    r
}

/// The longest byte representation among a sequence of keys; zero when
/// there are none.
pub open spec fn spec_max_key_len(keys: Seq<Seq<u8>>) -> int
    decreases keys.len(),
{
    if keys.len() == 0 {
        0
    } else {
        let rest = spec_max_key_len(keys.drop_last());
        if keys.last().len() > rest {
            keys.last().len() as int
        } else {
            rest
        }
    }
}

/// The longest byte representation among the known keys, measured with a
/// byte counter; it sizes the displacement tables.
fn max_key_len(keys: &Vec<Vec<u8>>) -> (r: usize)
    ensures
        r == spec_max_key_len(keys@.map_values(|k: Vec<u8>| k@)),
        forall|j: int| 0 <= j < keys@.len() ==> keys@[j]@.len() <= r,
{
    let ghost keyseq = keys@.map_values(|k: Vec<u8>| k@);
    let mut best: usize = 0;
    let mut j: usize = 0;
    while j < keys.len()
        invariant
            j <= keys@.len(),
            keyseq == keys@.map_values(|k: Vec<u8>| k@),
            best == spec_max_key_len(keyseq.take(j as int)),
            forall|i: int| 0 <= i < j ==> keys@[i]@.len() <= best,
        decreases keys@.len() - j,
    {
        proof {
            assert(keyseq.take(j as int + 1).drop_last() =~= keyseq.take(j as int));
            assert(keyseq.take(j as int + 1).last() == keys@[j as int]@);
        }
        let mut counter = ByteCounter::new();
        let key = &keys[j];
        // A key is held in memory, so its byte length fits a machine word
        // and cannot overflow the fresh counter.
        let _key_bytes: usize = key.len();
        counter.write(key.as_slice());
        let len = counter.get_count();
        if len > best {
            best = len;
        }
        j = j + 1;
    }
    proof {
        assert(keyseq.take(keys@.len() as int) =~= keyseq);
    }
    best
}

/// One edge per key: the pair of bucket indices the key hashes to.
fn compute_edges(keys: &Vec<Vec<u8>>, t1: &Vec<usize>, t2: &Vec<usize>, n: usize, m: usize) -> (
    edges: Vec<(usize, usize)>)
    requires
        n >= 1,
        t1@.len() == t2@.len(),
    ensures
        edges@.len() == keys@.len(),
        edges_wf(edges@, n as int),
        forall|j: int|
            0 <= j < keys@.len() ==> edges@[j].0 == spec_hash(t1@, keys@[j]@, n as int)
                && edges@[j].1 == spec_hash(t2@, keys@[j]@, n as int),
{
    let mut edges: Vec<(usize, usize)> = Vec::new();
    let mut j: usize = 0;
    while j < keys.len()
        invariant
            j <= keys@.len(),
            n >= 1,
            t1@.len() == t2@.len(),
            edges@.len() == j,
            edges_wf(edges@, n as int),
            forall|i: int|
                0 <= i < j ==> edges@[i].0 == spec_hash(t1@, keys@[i]@, n as int)
                    && edges@[i].1 == spec_hash(t2@, keys@[i]@, n as int),
        decreases keys@.len() - j,
    {
        let (f1, f2) = hash_pair(&keys[j], t1, t2, n, m);
        edges.push((f1, f2));
        j = j + 1;
    }
    edges
}

/// The perfect slot table for keys whose slots are collision free: each key
/// sits in its own slot, with no value yet, and every slot is taken.
fn build_table<V>(keys: &Vec<Vec<u8>>, slots: &Vec<usize>) -> (table: Vec<
    Option<(Vec<u8>, Option<V>)>,
>)
    requires
        slots@.len() == keys@.len(),
        forall|j: int| 0 <= j < slots@.len() ==> slots@[j] < keys@.len(),
        injective_slots(slots@),
    ensures
        table@.len() == keys@.len(),
        forall|j: int|
            0 <= j < keys@.len() ==> (table@[(#[trigger] slots@[j]) as int] matches Some(pair) && pair.0@
                == keys@[j]@ && pair.1 is None),
        forall|s: int| 0 <= s < table@.len() ==> table@[s] is Some,
        forall|s: int|
            0 <= s < table@.len() && #[trigger] table@[s] is Some ==> exists|j: int|
                0 <= j < keys@.len() && slots@[j] == s,
{
    let m = keys.len();
    let mut table: Vec<Option<(Vec<u8>, Option<V>)>> = Vec::new();
    let mut s: usize = 0;
    while s < m
        invariant
            m == keys@.len(),
            s <= keys@.len(),
            table@.len() == s,
            forall|i: int| 0 <= i < s ==> table@[i] is None,
        decreases keys@.len() - s,
    {
        table.push(None);
        s = s + 1;
    }
    let mut j: usize = 0;
    while j < m
        invariant
            m == keys@.len(),
            j <= keys@.len(),
            slots@.len() == keys@.len(),
            forall|i: int| 0 <= i < slots@.len() ==> slots@[i] < keys@.len(),
            injective_slots(slots@),
            table@.len() == keys@.len(),
            forall|i: int|
                0 <= i < j ==> (table@[(#[trigger] slots@[i]) as int] matches Some(pair) && pair.0@
                    == keys@[i]@ && pair.1 is None),
            forall|s2: int|
                0 <= s2 < table@.len() && #[trigger] table@[s2] is Some ==> exists|i: int|
                    0 <= i < j && slots@[i] == s2,
        decreases keys@.len() - j,
    {
        let key = clone_key(&keys[j]);
        let slot = slots[j];
        table[slot] = Some((key, None));
        proof {
            assert forall|s2: int|
                0 <= s2 < table@.len() && #[trigger] table@[s2] is Some implies exists|i: int|
                0 <= i < j + 1 && slots@[i] == s2 by {
                if s2 == slot as int {
                    assert(slots@[j as int] == s2);
                }
            }
        }
        j = j + 1;
    }
    proof {
        lemma_injective_slots_cover(slots@, keys@.len() as int);
        assert forall|s2: int| 0 <= s2 < table@.len() implies table@[s2] is Some by {
            assert(slot_covered(slots@, s2));
            let i = choose|i: int| 0 <= i < slots@.len() && slots@[i] == s2;
            assert(table@[slots@[i] as int] is Some);
        }
    }
    table
}

/// The key graph builder's acceptance guarantee, stated over the trial's
/// inputs alone: under tables `t1`, `t2` and bucket count `n`, no key's two
/// bucket indices coincide, and no two keys induce the same unordered
/// bucket pair.  A trial whose keys violate either is always discarded.
pub open spec fn distinct_key_edges(
    keys: Seq<Seq<u8>>,
    t1: Seq<usize>,
    t2: Seq<usize>,
    n: int,
) -> bool {
    &&& forall|j: int|
        0 <= j < keys.len() ==> spec_hash(t1, #[trigger] keys[j], n) != spec_hash(t2, keys[j], n)
    &&& forall|j1: int, j2: int|
        #![trigger keys[j1], keys[j2]]
        0 <= j1 < j2 < keys.len() ==> !((spec_hash(t1, keys[j1], n) == spec_hash(t1, keys[j2], n)
            && spec_hash(t2, keys[j1], n) == spec_hash(t2, keys[j2], n)) || (spec_hash(
            t1,
            keys[j1],
            n,
        ) == spec_hash(t2, keys[j2], n) && spec_hash(t2, keys[j1], n) == spec_hash(
            t1,
            keys[j2],
            n,
        )))
}

impl<V> HashMap<V> {
    /// The guarantees a successful construction hands out: the table is
    /// well formed, empty as a map, sized by the known keys, and the key
    /// with index `j` is resident in slot `j` — the slot map is the
    /// identity on `[0, m)`, a bijection — with all `m` slots taken.
    pub open spec fn freshly_built(self, keys: Seq<Seq<u8>>) -> bool {
        &&& self.wf()
        &&& self@ == Map::<Seq<u8>, V>::empty()
        &&& self.spec_m() == keys.len()
        &&& forall|j: int| 0 <= j < keys.len() ==> self.key_resident(keys[j])
        &&& forall|j: int| 0 <= j < keys.len() ==> #[trigger] self.spec_slot(keys[j]) == j
        &&& forall|s: int| 0 <= s < self.spec_m() ==> self.slot_full(s)
    }

    /// One construction trial over the given displacement tables.  The
    /// outcome is a function of the arguments alone, which makes trials
    /// reproducible; the randomized retry loop in `new` draws fresh tables
    /// for each trial.  With no known keys the trial always succeeds and
    /// every later operation routes through the backup store; with one
    /// known key it succeeds exactly when the key's two bucket indices
    /// differ.  For larger key sets the exact acceptance condition — the
    /// induced graph a forest with distinct edges and the propagated
    /// displacements placing key `j` in slot `j` — would have to restate
    /// the whole solver as a spec function to appear here; what acceptance
    /// guarantees is stated instead, on the `Some` side.
    pub fn build_with_tables(known_vals: &Vec<Vec<u8>>, t1: Vec<usize>, t2: Vec<usize>) -> (r:
        Option<HashMap<V>>)
        requires
            known_vals@.len() * 3 <= usize::MAX,
            t1@.len() == t2@.len(),
        ensures
            match r {
                Some(h) => h.freshly_built(known_vals@.map_values(|k: Vec<u8>| k@)) && h.t1@
                    == t1@ && h.t2@ == t2@ && distinct_key_edges(
                    known_vals@.map_values(|k: Vec<u8>| k@),
                    t1@,
                    t2@,
                    crate::table::spec_bucket_count(known_vals@.len() as int),
                ),
                None => known_vals@.len() >= 1,
            },
            known_vals@.len() == 0 ==> r is Some,
            known_vals@.len() == 1 ==> (r is Some <==> spec_hash(
                t1@,
                known_vals@[0]@,
                crate::table::spec_bucket_count(1),
            ) != spec_hash(t2@, known_vals@[0]@, crate::table::spec_bucket_count(1))),
    {
        let ghost keyseq = known_vals@.map_values(|k: Vec<u8>| k@);
        let m = known_vals.len();
        if m == 0 {
            let h = HashMap {
                nodes: Vec::new(),
                t1,
                t2,
                table: Vec::new(),
                backup: None,
            };
            proof {
                assert(h.perfect_view() =~= Map::<Seq<u8>, V>::empty());
                assert(h@ =~= Map::<Seq<u8>, V>::empty());
            }
            return Some(h);
        }
        proof {
            lemma_div_nonincreasing(m as int, 12);
        }
        let n = 2 * m + m / 12;
        let edges = compute_edges(known_vals, &t1, &t2, n, m);
        if !graph_is_valid(&edges, n) {
            proof {
                // A lone edge is only ever rejected as a self edge: the
                // key's two bucket indices coincide.
                if m == 1 {
                    assert(edges@[0].0 == edges@[0].1);
                }
            }
            return None;
        }
        let g = assign_displacements(&edges, n, m);
        let slots = compute_slots(&edges, &g, m);
        if !check_slots_assigned(&slots) {
            proof {
                // With one key every displacement is zero and the one slot
                // is zero, so a lone key never fails this check.
                if m == 1 {
                    vstd::arithmetic::div_mod::lemma_mod_bound(
                        g@[edges@[0].0 as int] + g@[edges@[0].1 as int],
                        1,
                    );
                    assert(slots@[0] == 0);
                    assert(false);
                }
            }
            return None;
        }
        proof {
            assert(injective_slots(slots@));
        }
        proof {
            assert forall|j1: int, j2: int|
                #![trigger keyseq[j1], keyseq[j2]]
                0 <= j1 < j2 < keyseq.len() implies !((spec_hash(t1@, keyseq[j1], n as int)
                == spec_hash(t1@, keyseq[j2], n as int) && spec_hash(t2@, keyseq[j1], n as int)
                == spec_hash(t2@, keyseq[j2], n as int)) || (spec_hash(t1@, keyseq[j1], n as int)
                == spec_hash(t2@, keyseq[j2], n as int) && spec_hash(t2@, keyseq[j1], n as int)
                == spec_hash(t1@, keyseq[j2], n as int))) by {
                assert(keyseq[j1] == known_vals@[j1]@);
                assert(keyseq[j2] == known_vals@[j2]@);
                assert(!((edges@[j1].0 == edges@[j2].0 && edges@[j1].1 == edges@[j2].1) || (
                edges@[j1].0 == edges@[j2].1 && edges@[j1].1 == edges@[j2].0)));
            }
            assert forall|j: int| 0 <= j < keyseq.len() implies spec_hash(
                t1@,
                #[trigger] keyseq[j],
                n as int,
            ) != spec_hash(t2@, keyseq[j], n as int) by {
                assert(keyseq[j] == known_vals@[j]@);
                assert(edges@[j].0 != edges@[j].1);
            }
            assert(distinct_key_edges(keyseq, t1@, t2@, crate::table::spec_bucket_count(
                keyseq.len() as int,
            )));
            assert(keyseq[0] == known_vals@[0]@);
        }
        let table = build_table(known_vals, &slots);
        let h = HashMap { nodes: g, t1, t2, table, backup: None };
        proof {
            assert forall|j: int| 0 <= j < keyseq.len() implies #[trigger] h.spec_slot(keyseq[j])
                == slots@[j] by {
                assert(keyseq[j] == known_vals@[j]@);
            }
            assert forall|s: int| 0 <= s < h.spec_m() && #[trigger] h.slot_full(s)
                implies h.spec_slot(h.slot_key(s)) == s by {
                let j = choose|j: int| 0 <= j < keyseq.len() && slots@[j] == s;
                assert(h.slot_key(s) == keyseq[j]);
                assert(h.spec_slot(keyseq[j]) == slots@[j]);
            }
            assert forall|j: int| 0 <= j < keyseq.len() implies h.key_resident(keyseq[j]) by {
                assert(h.table@[slots@[j] as int] is Some);
            }
            assert(h.perfect_view() =~= Map::<Seq<u8>, V>::empty());
            assert(h@ =~= Map::<Seq<u8>, V>::empty());
        }
        Some(h)
    }

    /// Construct a table for the given known keys, drawing fresh random
    /// displacement tables for each trial, up to `max_attempts` trials.  On
    /// success every known key owns its own slot — the slot map is a
    /// bijection onto `[0, m)` — and the table holds no values yet; past
    /// the bound the typed failure is handed back instead of looping on.
    pub fn new(known_vals: Vec<Vec<u8>>, max_attempts: usize) -> (r: Result<
        HashMap<V>,
        ConstructionError,
    >)
        requires
            known_vals@.len() * 3 <= usize::MAX,
        ensures
            match r {
                Ok(h) => {
                    &&& h.freshly_built(known_vals@.map_values(|k: Vec<u8>| k@))
                    &&& h.t1@.len() == spec_max_key_len(known_vals@.map_values(|k: Vec<u8>| k@))
                    &&& h.t2@.len() == h.t1@.len()
                    &&& forall|i: int| 0 <= i < h.t1@.len() ==> #[trigger] h.t1@[i] < h.spec_n()
                    &&& forall|i: int| 0 <= i < h.t2@.len() ==> #[trigger] h.t2@[i] < h.spec_n()
                    &&& distinct_key_edges(
                        known_vals@.map_values(|k: Vec<u8>| k@),
                        h.t1@,
                        h.t2@,
                        h.spec_n(),
                    )
                },
                Err(e) => e == ConstructionError::ConstructionExhausted,
            },
            known_vals@.len() == 0 ==> r is Ok,
    {
        let m = known_vals.len();
        if m == 0 {
            let r = Self::build_with_tables(&known_vals, Vec::new(), Vec::new());
            match r {
                Some(h) => {
                    return Ok(h);
                },
                None => {
                    return vstd::pervasive::unreached();
                },
            }
        }
        proof {
            lemma_div_nonincreasing(m as int, 12);
        }
        let n = 2 * m + m / 12;
        let table_len = max_key_len(&known_vals);
        let mut attempt: usize = 0;
        while attempt < max_attempts
            invariant
                known_vals@.len() == m,
                known_vals@.len() * 3 <= usize::MAX,
                n >= 1,
                m >= 1,
                n == 2 * m + m / 12,
                table_len == spec_max_key_len(known_vals@.map_values(|k: Vec<u8>| k@)),
            decreases max_attempts - attempt,
        {
            let t1 = gen_table(n, table_len);
            let t2 = gen_table(n, table_len);
            let r = Self::build_with_tables(&known_vals, t1, t2);
            match r {
                Some(h) => {
                    proof {
                        assert(h.spec_n() == n);
                    }
                    return Ok(h);
                },
                None => {},
            }
            attempt = attempt + 1;
        }
        Err(ConstructionError::ConstructionExhausted)
    }
}

/// Slot `s` is the slot of one of the given keys under `h`.
pub open spec fn slot_owned_by_key<V>(h: HashMap<V>, keys: Seq<Seq<u8>>, s: int) -> bool {
    exists|j: int| 0 <= j < keys.len() && h.spec_slot(keys[j]) == s
}

/// The bijection property: after a successful construction the slot map is
/// injective over the known keys and its image is exactly `[0, m)` — every
/// slot index below `m` is some known key's slot.  Both follow from the
/// construction-time assertion that the key with index `j` sits in slot `j`.
pub proof fn lemma_construction_bijection<V>(h: HashMap<V>, keys: Seq<Seq<u8>>)
    requires
        h.freshly_built(keys),
    ensures
        forall|j1: int, j2: int|
            0 <= j1 < j2 < keys.len() ==> h.spec_slot(keys[j1]) != h.spec_slot(keys[j2]),
        forall|s: int| 0 <= s < keys.len() ==> #[trigger] slot_owned_by_key(h, keys, s),
{
    assert forall|s: int| 0 <= s < keys.len() implies #[trigger] slot_owned_by_key(
        h,
        keys,
        s,
    ) by {
        assert(h.spec_slot(keys[s]) == s);
    }
}

} // verus!
