use std::collections::BTreeSet;
use vstd::prelude::*;
use crate::util::{no_sequential_duplicates_spec, sorted_spec};
use vstd::std_specs::btree::{increasing_seq, spec_btree_keys_iter};
use vstd::laws_cmp::obeys_cmp;
use vstd::std_specs::cmp::OrdSpec;
use vstd::std_specs::iter::IteratorSpec;

verus! {

broadcast use {vstd::std_specs::btree::group_btree_axioms, vstd::laws_cmp::group_laws_cmp};

/// The least element of a set (meaningful when the set has one).
pub open spec fn set_min(s: Set<u64>) -> u64 {
    choose|m: u64| s.contains(m) && forall|x: u64| #[trigger] s.contains(x) ==> m <= x
}

/// The least element of `set`, or `None` when it is empty.
fn least(set: &BTreeSet<u64>) -> (r: Option<u64>)
    ensures
        r is None <==> set@ == Set::<u64>::empty(),
        r matches Some(m) ==> set@.contains(m) && m == set_min(set@),
{
    let ghost keys = spec_btree_keys_iter(set).remaining();
    let mut r: Option<u64> = None;
    for x in it: set.iter()
        invariant_except_break
            r is None,
            it.index() == 0,
        invariant
            it.seq() == keys,
        ensures
            r is None ==> keys.len() == 0,
            r matches Some(m) ==> keys.len() > 0 && m == *keys[0],
    {
        r = Some(*x);
        break;
    }
    proof {
        assert(keys.unref().to_set() == set@);
        assert(obeys_cmp::<u64>());
        assert(obeys_cmp::<&u64>());
        assert(increasing_seq(keys));
        if r is None {
            assert(set@ =~= Set::<u64>::empty());
        }
        if let Some(m) = r {
            assert(set@.contains(m)) by {
                assert(keys.unref()[0] == m);
            }
            assert forall|x: u64| #[trigger] set@.contains(x) implies m <= x by {
                assert(keys.unref().to_set().contains(x));
                let k = choose|k: int| 0 <= k < keys.len() && keys.unref()[k] == x;
                if k > 0 {
                    assert(OrdSpec::cmp_spec(&keys[0], &keys[k]) is Less);
                }
            }
        }
    }
    r
}

/// Why a sequencer could not be made.
#[derive(Debug, Clone, Copy, PartialEq, Eq, Structural)]
pub enum SequencerError {
    /// The cache of recently emitted items must hold at least one item.
    ZeroCacheSize,
}

/// Whether `item` passes the sequencer: it is not among the recently
/// emitted items and not below the last emitted one.
pub open spec fn admits(cache: Set<u64>, last_seen: Option<u64>, item: u64) -> bool {
    &&& !cache.contains(item)
    &&& last_seen matches Some(l) ==> l <= item
}

/// The cache after making room for one more item: when it is full, its
/// least (oldest) item leaves.
pub open spec fn evict(cache: Set<u64>, cache_size_max: usize) -> Set<u64> {
    if cache.len() >= cache_size_max {
        cache.remove(set_min(cache))
    } else {
        cache
    }
}

/// Turns a merged feed of items into a strictly increasing stream: items
/// wait in `queue`, the least of them goes out, and the items sent out most
/// recently are kept in `cache` (at most `cache_size_max` of them) so that
/// repeats are dropped.
pub struct Sequencer {
    pub queue: BTreeSet<u64>,
    pub cache: BTreeSet<u64>,
    pub cache_size_max: usize,
}

impl Sequencer {
    /// A sequencer with an empty queue and cache; refused when the cache
    /// could hold nothing.
    pub fn new(cache_size_max: usize) -> (r: Result<Sequencer, SequencerError>)
        ensures
            r is Err <==> cache_size_max == 0,
            r matches Err(e) ==> e == SequencerError::ZeroCacheSize,
            r matches Ok(s) ==> {
                &&& s.queue@ == Set::<u64>::empty()
                &&& s.cache@ == Set::<u64>::empty()
                &&& s.cache_size_max == cache_size_max
            },
    {
        if cache_size_max == 0 {
            return Err(SequencerError::ZeroCacheSize);
        }
        Ok(Sequencer { queue: BTreeSet::new(), cache: BTreeSet::new(), cache_size_max })
    }

    /// Takes in one item of the feed. A repeat of a cached item, or an item
    /// below `last_seen`, is dropped (`None`); otherwise the item joins the
    /// queue and the least queued item is returned as the one to send out.
    pub fn accept(&mut self, last_seen: Option<u64>, item: u64) -> (r: Option<u64>)
        ensures
            final(self).cache@ == old(self).cache@,
            final(self).cache_size_max == old(self).cache_size_max,
            admits(old(self).cache@, last_seen, item) ==> {
                &&& final(self).queue@ == old(self).queue@.insert(item)
                &&& r == Some(set_min(final(self).queue@))
            },
            !admits(old(self).cache@, last_seen, item) ==> {
                &&& final(self).queue@ == old(self).queue@
                &&& r is None
            },
    {
        if self.cache.contains(&item) {
            return None;
        }
        if let Some(l) = last_seen {
            if item < l {
                return None;
            }
        }
        self.queue.insert(item);
        assert(self.queue@.contains(item));
        least(&self.queue)
    }

    /// Records that `value` was sent out: it leaves the queue, the cache
    /// makes room (dropping its least item when full) and takes `value`, and
    /// `value` becomes the last seen item.
    pub fn commit(&mut self, last_seen: &mut Option<u64>, value: u64)
        requires
            old(self).cache_size_max > 0,
        ensures
            final(self).queue@ == old(self).queue@.remove(value),
            final(self).cache@ == evict(old(self).cache@, old(self).cache_size_max).insert(value),
            final(self).cache_size_max == old(self).cache_size_max,
            *final(last_seen) == Some(value),
    {
        self.queue.remove(&value);
        if self.cache.len() >= self.cache_size_max {
            match least(&self.cache) {
                Some(oldest) => {
                    self.cache.remove(&oldest);
                },
                None => {},
            }
        }
        self.cache.insert(value);
        *last_seen = Some(value);
    }

    /// Feeds `items` in order, sending out what each round offers: the
    /// consuming loop over a batch already at hand. An item still queued
    /// (after a send that failed) takes part as the rounds say.
    pub fn sequence(&mut self, last_seen: &mut Option<u64>, items: &[u64]) -> (out: Vec<u64>)
        requires
            old(self).cache_size_max > 0,
        ensures
            final(self).cache_size_max == old(self).cache_size_max,
            out@ == rounds_outputs(old(self).queue@, old(self).cache@, *old(last_seen), old(self).cache_size_max, items@),
            (final(self).queue@, final(self).cache@, *final(last_seen))
                == rounds_final(old(self).queue@, old(self).cache@, *old(last_seen), old(self).cache_size_max, items@),
    {
        let ghost queue0 = self.queue@;
        let ghost cache0 = self.cache@;
        let ghost last0 = *last_seen;
        let k = self.cache_size_max;
        let mut out: Vec<u64> = Vec::new();
        let n = items.len();
        let mut i: usize = 0;
        assert(items@.take(0) =~= Seq::<u64>::empty());
        while i < n
            invariant
                i <= n,
                n == items@.len(),
                k == self.cache_size_max,
                k > 0,
                out@ == rounds_outputs(queue0, cache0, last0, k, items@.take(i as int)),
                (self.queue@, self.cache@, *last_seen) == rounds_final(queue0, cache0, last0, k, items@.take(i as int)),
            decreases n - i,
        {
            let item = items[i];
            proof {
                lemma_rounds_push(queue0, cache0, last0, k, items@.take(i as int), item);
                assert(items@.take(i + 1) =~= items@.take(i as int).push(item));
            }
            match self.accept(*last_seen, item) {
                Some(v) => {
                    out.push(v);
                    self.commit(last_seen, v);
                },
                None => {},
            }
            i = i + 1;
        }
        assert(items@.take(n as int) =~= items@);
        out
    }
}

/// One round on a feed item: an admitted item joins the queue, the least
/// queued item is sent out, leaves the queue, and goes into the cache (which
/// first makes room) as the last seen item. Gives the queue, cache and last
/// seen item after the round, and the item sent, if any.
pub open spec fn round(queue: Set<u64>, cache: Set<u64>, last_seen: Option<u64>, cache_size_max: usize, item: u64)
    -> (Set<u64>, Set<u64>, Option<u64>, Option<u64>) {
    if admits(cache, last_seen, item) {
        let q = queue.insert(item);
        let v = set_min(q);
        (q.remove(v), evict(cache, cache_size_max).insert(v), Some(v), Some(v))
    } else {
        (queue, cache, last_seen, None)
    }
}

/// The items sent out, in order, over rounds on `items`.
pub open spec fn rounds_outputs(queue: Set<u64>, cache: Set<u64>, last_seen: Option<u64>, cache_size_max: usize, items: Seq<u64>) -> Seq<u64>
    decreases items.len(),
{
    if items.len() == 0 {
        Seq::empty()
    } else {
        let (q, c, l, sent) = round(queue, cache, last_seen, cache_size_max, items[0]);
        sent_seq(sent) + rounds_outputs(q, c, l, cache_size_max, items.drop_first())
    }
}

/// The queue, cache and last seen item after rounds on `items`.
pub open spec fn rounds_final(queue: Set<u64>, cache: Set<u64>, last_seen: Option<u64>, cache_size_max: usize, items: Seq<u64>)
    -> (Set<u64>, Set<u64>, Option<u64>)
    decreases items.len(),
{
    if items.len() == 0 {
        (queue, cache, last_seen)
    } else {
        let (q, c, l, sent) = round(queue, cache, last_seen, cache_size_max, items[0]);
        rounds_final(q, c, l, cache_size_max, items.drop_first())
    }
}

proof fn lemma_rounds_push(queue: Set<u64>, cache: Set<u64>, last_seen: Option<u64>, cache_size_max: usize, items: Seq<u64>, item: u64)
    ensures
        ({
            let (q1, c1, l1) = rounds_final(queue, cache, last_seen, cache_size_max, items);
            let (q2, c2, l2, sent) = round(q1, c1, l1, cache_size_max, item);
            &&& rounds_final(queue, cache, last_seen, cache_size_max, items.push(item)) == (q2, c2, l2)
            &&& rounds_outputs(queue, cache, last_seen, cache_size_max, items.push(item))
                == rounds_outputs(queue, cache, last_seen, cache_size_max, items) + sent_seq(sent)
        }),
    decreases items.len(),
{
    let longer = items.push(item);
    if items.len() == 0 {
        assert(longer.drop_first() =~= Seq::<u64>::empty());
        assert(longer[0] == item);
        let (q2, c2, l2, sent) = round(queue, cache, last_seen, cache_size_max, item);
        assert(rounds_outputs(q2, c2, l2, cache_size_max, longer.drop_first()) =~= Seq::<u64>::empty());
        assert(rounds_final(q2, c2, l2, cache_size_max, longer.drop_first()) == (q2, c2, l2));
        assert(rounds_outputs(queue, cache, last_seen, cache_size_max, items) =~= Seq::<u64>::empty());
        assert(rounds_outputs(queue, cache, last_seen, cache_size_max, longer) =~= sent_seq(sent));
    } else {
        let (q2, c2, l2, sent) = round(queue, cache, last_seen, cache_size_max, items[0]);
        assert(longer.drop_first() =~= items.drop_first().push(item));
        assert(longer[0] == items[0]);
        lemma_rounds_push(q2, c2, l2, cache_size_max, items.drop_first(), item);
        let (q1, c1, l1) = rounds_final(queue, cache, last_seen, cache_size_max, items);
        let (q3, c3, l3, sent2) = round(q1, c1, l1, cache_size_max, item);
        let rest = rounds_outputs(q2, c2, l2, cache_size_max, items.drop_first());
        assert(sent_seq(sent) + (rest + sent_seq(sent2)) =~= (sent_seq(sent) + rest) + sent_seq(sent2));
    }
}

/// From an empty queue the rounds are the steps of `sequence_step`: the
/// queue stays empty and the stream and cache are the ones the stream laws
/// speak of.
pub proof fn law_rounds_from_empty_queue(cache: Set<u64>, last_seen: Option<u64>, cache_size_max: usize, items: Seq<u64>)
    ensures
        rounds_outputs(Set::<u64>::empty(), cache, last_seen, cache_size_max, items)
            == sequence_outputs(cache, last_seen, cache_size_max, items),
        rounds_final(Set::<u64>::empty(), cache, last_seen, cache_size_max, items) == (
            Set::<u64>::empty(),
            sequence_final(cache, last_seen, cache_size_max, items).0,
            sequence_final(cache, last_seen, cache_size_max, items).1,
        ),
    decreases items.len(),
{
    if items.len() > 0 {
        let x = items[0];
        law_round_is_step(cache, last_seen, cache_size_max, x);
        let (c2, l2, sent) = sequence_step(cache, last_seen, cache_size_max, x);
        law_rounds_from_empty_queue(c2, l2, cache_size_max, items.drop_first());
        let rest = sequence_outputs(c2, l2, cache_size_max, items.drop_first());
        assert(sequence_outputs(cache, last_seen, cache_size_max, items) =~= sent_seq(sent) + rest);
    }
}

/// One round of the sequencer on a feed item, starting from an empty queue:
/// the cache after the round, the last seen item after it, and the item sent
/// out, if any.
pub open spec fn sequence_step(cache: Set<u64>, last_seen: Option<u64>, cache_size_max: usize, item: u64) -> (Set<u64>, Option<u64>, Option<u64>) {
    if admits(cache, last_seen, item) {
        (evict(cache, cache_size_max).insert(item), Some(item), Some(item))
    } else {
        (cache, last_seen, None)
    }
}

/// The items the sequencer sends out, in order, when fed `items`.
pub open spec fn sequence_outputs(cache: Set<u64>, last_seen: Option<u64>, cache_size_max: usize, items: Seq<u64>) -> Seq<u64>
    decreases items.len(),
{
    if items.len() == 0 {
        Seq::empty()
    } else {
        let (next_cache, next_last_seen, sent) = sequence_step(cache, last_seen, cache_size_max, items[0]);
        let rest = sequence_outputs(next_cache, next_last_seen, cache_size_max, items.drop_first());
        match sent {
            Some(v) => seq![v] + rest,
            None => rest,
        }
    }
}

/// The cache and last seen item after the sequencer is fed `items`.
pub open spec fn sequence_final(cache: Set<u64>, last_seen: Option<u64>, cache_size_max: usize, items: Seq<u64>) -> (Set<u64>, Option<u64>)
    decreases items.len(),
{
    if items.len() == 0 {
        (cache, last_seen)
    } else {
        let (next_cache, next_last_seen, sent) = sequence_step(cache, last_seen, cache_size_max, items[0]);
        sequence_final(next_cache, next_last_seen, cache_size_max, items.drop_first())
    }
}

/// What one step sends, as a sequence.
pub open spec fn sent_seq(sent: Option<u64>) -> Seq<u64> {
    match sent {
        Some(v) => seq![v],
        None => Seq::empty(),
    }
}

/// A finite non-empty set holds its least element.
pub proof fn lemma_set_min(s: Set<u64>)
    requires
        s.finite(),
        s.len() > 0,
    ensures
        s.contains(set_min(s)),
        forall|x: u64| #[trigger] s.contains(x) ==> set_min(s) <= x,
    decreases s.len(),
{
    let a = s.choose();
    assert(s.contains(a)) by {
        if !s.contains(a) {
            assert(s =~= Set::<u64>::empty());
        }
    }
    let rest = s.remove(a);
    if rest.len() == 0 {
        assert(rest =~= Set::<u64>::empty()) by {
            rest.lemma_len0_is_empty();
        }
        assert forall|x: u64| #[trigger] s.contains(x) implies a <= x by {
            if x != a {
                assert(rest.contains(x));
            }
        }
    } else {
        lemma_set_min(rest);
        let b = set_min(rest);
        let m = if a <= b { a } else { b };
        assert forall|x: u64| #[trigger] s.contains(x) implies m <= x by {
            if x != a {
                assert(rest.contains(x));
            }
        }
        assert(s.contains(m));
    }
}

/// A round from an empty queue (`accept` of the item, then `commit` of what
/// it offers) is `sequence_step`: an admitted item is offered at once, its
/// commit leaves the queue empty again and the cache and last seen item end
/// as the step says; any other item is dropped and changes nothing.
pub proof fn law_round_is_step(cache: Set<u64>, last_seen: Option<u64>, cache_size_max: usize, item: u64)
    ensures
        admits(cache, last_seen, item) ==> {
            let queue = Set::<u64>::empty().insert(item);
            &&& set_min(queue) == item
            &&& queue.remove(item) == Set::<u64>::empty()
            &&& sequence_step(cache, last_seen, cache_size_max, item)
                == (evict(cache, cache_size_max).insert(set_min(queue)), Some(set_min(queue)), Some(set_min(queue)))
        },
        !admits(cache, last_seen, item) ==> sequence_step(cache, last_seen, cache_size_max, item) == (cache, last_seen, None::<u64>),
{
    let q = Set::<u64>::empty().insert(item);
    assert(q.contains(item) && forall|x: u64| #[trigger] q.contains(x) ==> item <= x);
    assert(q.remove(item) =~= Set::<u64>::empty());
}

proof fn lemma_outputs_increasing(cache: Set<u64>, last_seen: Option<u64>, cache_size_max: usize, items: Seq<u64>)
    requires
        last_seen matches Some(l) ==> cache.contains(l),
    ensures
        ({
            let out = sequence_outputs(cache, last_seen, cache_size_max, items);
            &&& forall|i: int, j: int| 0 <= i < j < out.len() ==> out[i] < out[j]
            &&& last_seen matches Some(l) ==> forall|i: int| 0 <= i < out.len() ==> l < #[trigger] out[i]
        }),
    decreases items.len(),
{
    if items.len() > 0 {
        let out = sequence_outputs(cache, last_seen, cache_size_max, items);
        let (c2, l2, sent) = sequence_step(cache, last_seen, cache_size_max, items[0]);
        lemma_outputs_increasing(c2, l2, cache_size_max, items.drop_first());
        let rest = sequence_outputs(c2, l2, cache_size_max, items.drop_first());
        match sent {
            Some(v) => {
                assert(out == seq![v] + rest);
                assert(forall|i: int| 0 <= i < rest.len() ==> v < #[trigger] rest[i]);
                if let Some(l) = last_seen {
                    assert(l < v);
                }
                assert forall|i: int, j: int| 0 <= i < j < out.len() implies out[i] < out[j] by {
                    assert(out[j] == rest[j - 1]);
                    if i > 0 {
                        assert(out[i] == rest[i - 1]);
                    }
                }
                if let Some(l) = last_seen {
                    assert forall|i: int| 0 <= i < out.len() implies l < #[trigger] out[i] by {
                        if i > 0 {
                            assert(out[i] == rest[i - 1]);
                        }
                    }
                }
            },
            None => {
                assert(out == rest);
            },
        }
    }
}

/// When the last seen item is in the cache (as after every round), the
/// items sent out form a strictly increasing sequence above the last seen
/// item: sorted, with no item sent twice.
pub proof fn law_outputs_strictly_increasing(cache: Set<u64>, last_seen: Option<u64>, cache_size_max: usize, items: Seq<u64>)
    requires
        last_seen matches Some(l) ==> cache.contains(l),
    ensures
        ({
            let out = sequence_outputs(cache, last_seen, cache_size_max, items);
            &&& forall|i: int, j: int| 0 <= i < j < out.len() ==> out[i] < out[j]
            &&& last_seen matches Some(l) ==> forall|i: int| 0 <= i < out.len() ==> l < #[trigger] out[i]
            &&& sorted_spec(out)
            &&& no_sequential_duplicates_spec(out)
        }),
{
    lemma_outputs_increasing(cache, last_seen, cache_size_max, items);
    let out = sequence_outputs(cache, last_seen, cache_size_max, items);
    assert forall|i: int| 0 <= i < out.len() - 1 implies #[trigger] out[i] <= out[i + 1] by {
        assert(out[i] < out[i + 1]);
    }
    assert forall|i: int| 0 <= i < out.len() - 1 implies #[trigger] out[i] != out[i + 1] by {
        assert(out[i] < out[i + 1]);
    }
}

/// Every item sent out is an item of the feed.
pub proof fn law_outputs_come_from_feed(cache: Set<u64>, last_seen: Option<u64>, cache_size_max: usize, items: Seq<u64>)
    ensures
        forall|i: int| 0 <= i < sequence_outputs(cache, last_seen, cache_size_max, items).len()
            ==> items.contains(#[trigger] sequence_outputs(cache, last_seen, cache_size_max, items)[i]),
    decreases items.len(),
{
    let out = sequence_outputs(cache, last_seen, cache_size_max, items);
    if items.len() > 0 {
        let (c2, l2, sent) = sequence_step(cache, last_seen, cache_size_max, items[0]);
        law_outputs_come_from_feed(c2, l2, cache_size_max, items.drop_first());
        let rest = sequence_outputs(c2, l2, cache_size_max, items.drop_first());
        assert forall|i: int| 0 <= i < out.len() implies items.contains(#[trigger] out[i]) by {
            match sent {
                Some(v) => {
                    if i == 0 {
                        assert(items[0] == out[0]);
                    } else {
                        assert(out[i] == rest[i - 1]);
                        let k = choose|k: int| 0 <= k < items.drop_first().len() && items.drop_first()[k] == rest[i - 1];
                        assert(items[k + 1] == out[i]);
                    }
                },
                None => {
                    let k = choose|k: int| 0 <= k < items.drop_first().len() && items.drop_first()[k] == rest[i];
                    assert(items[k + 1] == out[i]);
                },
            }
        }
    }
}

/// A round keeps the cache within its bound and keeps the last seen item in
/// the cache.
pub proof fn law_step_keeps_cache_bounded(cache: Set<u64>, last_seen: Option<u64>, cache_size_max: usize, item: u64)
    requires
        cache_size_max > 0,
        cache.finite(),
        cache.len() <= cache_size_max,
        last_seen matches Some(l) ==> cache.contains(l),
    ensures
        ({
            let (c2, l2, sent) = sequence_step(cache, last_seen, cache_size_max, item);
            &&& c2.finite()
            &&& c2.len() <= cache_size_max
            &&& l2 matches Some(l) ==> c2.contains(l)
        }),
{
    if admits(cache, last_seen, item) {
        let e = evict(cache, cache_size_max);
        if cache.len() >= cache_size_max {
            lemma_set_min(cache);
            assert(e.len() == cache.len() - 1);
        }
        assert(!e.contains(item));
        assert(e.insert(item).len() == e.len() + 1);
    }
}

/// The items of `items` that are above `high` and above every item before
/// them: the successive new highs of the feed.
pub open spec fn record_highs(high: Option<u64>, items: Seq<u64>) -> Seq<u64>
    decreases items.len(),
{
    if items.len() == 0 {
        Seq::empty()
    } else if high matches Some(h) && items[0] <= h {
        record_highs(high, items.drop_first())
    } else {
        seq![items[0]] + record_highs(Some(items[0]), items.drop_first())
    }
}

/// The cache holds the last seen item and nothing above it; before any item
/// is seen it is empty. This holds of a new sequencer and after every round.
pub open spec fn settled(cache: Set<u64>, last_seen: Option<u64>) -> bool {
    match last_seen {
        None => cache == Set::<u64>::empty(),
        Some(l) => cache.contains(l) && forall|c: u64| #[trigger] cache.contains(c) ==> c <= l,
    }
}

/// Items above `high`, each above the one before.
pub open spec fn rising_above(high: Option<u64>, s: Seq<u64>) -> bool {
    &&& forall|i: int, j: int| 0 <= i < j < s.len() ==> s[i] < s[j]
    &&& high matches Some(h) ==> forall|i: int| 0 <= i < s.len() ==> h < #[trigger] s[i]
}

/// The sequencer sends out exactly the successive new highs of its feed;
/// whatever the cache size, the cache stays settled.
pub proof fn law_outputs_are_record_highs(cache: Set<u64>, last_seen: Option<u64>, cache_size_max: usize, items: Seq<u64>)
    requires
        settled(cache, last_seen),
    ensures
        sequence_outputs(cache, last_seen, cache_size_max, items) == record_highs(last_seen, items),
        settled(sequence_final(cache, last_seen, cache_size_max, items).0, sequence_final(cache, last_seen, cache_size_max, items).1),
    decreases items.len(),
{
    if items.len() > 0 {
        let (c2, l2, sent) = sequence_step(cache, last_seen, cache_size_max, items[0]);
        lemma_settled_step(cache, last_seen, cache_size_max, items[0]);
        law_outputs_are_record_highs(c2, l2, cache_size_max, items.drop_first());
    }
}

/// From a settled cache, an item passes exactly when it is above the last
/// seen item, and the round leaves the cache settled.
proof fn lemma_settled_step(cache: Set<u64>, last_seen: Option<u64>, cache_size_max: usize, x: u64)
    requires
        settled(cache, last_seen),
    ensures
        admits(cache, last_seen, x) <==> !(last_seen matches Some(h) && x <= h),
        settled(sequence_step(cache, last_seen, cache_size_max, x).0, sequence_step(cache, last_seen, cache_size_max, x).1),
{
    let (c2, l2, sent) = sequence_step(cache, last_seen, cache_size_max, x);
    if admits(cache, last_seen, x) {
        assert forall|c: u64| #[trigger] c2.contains(c) implies c <= x by {
            if c != x {
                assert(cache.contains(c));
            }
        }
    }
}

proof fn lemma_rising_is_its_own_highs(high: Option<u64>, s: Seq<u64>)
    requires
        rising_above(high, s),
    ensures
        record_highs(high, s) == s,
    decreases s.len(),
{
    if s.len() > 0 {
        let rest = s.drop_first();
        assert forall|i: int, j: int| 0 <= i < j < rest.len() implies rest[i] < rest[j] by {
            assert(s[i + 1] < s[j + 1]);
        }
        assert forall|i: int| 0 <= i < rest.len() implies s[0] < #[trigger] rest[i] by {
            assert(s[0] < s[i + 1]);
        }
        lemma_rising_is_its_own_highs(Some(s[0]), rest);
        if let Some(h) = high {
            assert(h < s[0]);
        }
        assert(s =~= seq![s[0]] + rest);
    }
}

/// Two sequencers that differ only in their cache size send out the same
/// stream: the cache bounds memory and never lets a repeat or a lower item
/// through.
pub proof fn law_outputs_independent_of_cache_size(cache: Set<u64>, last_seen: Option<u64>, small: usize, large: usize, items: Seq<u64>)
    requires
        settled(cache, last_seen),
    ensures
        sequence_outputs(cache, last_seen, small, items) == sequence_outputs(cache, last_seen, large, items),
{
    law_outputs_are_record_highs(cache, last_seen, small, items);
    law_outputs_are_record_highs(cache, last_seen, large, items);
}

/// Sequencing an already sequenced stream, with new sequencers of any cache
/// sizes, changes nothing.
pub proof fn law_sequencing_twice_changes_nothing(first_size: usize, second_size: usize, items: Seq<u64>)
    ensures
        ({
            let once = sequence_outputs(Set::<u64>::empty(), None, first_size, items);
            sequence_outputs(Set::<u64>::empty(), None, second_size, once) == once
        }),
{
    let once = sequence_outputs(Set::<u64>::empty(), None, first_size, items);
    law_outputs_strictly_increasing(Set::<u64>::empty(), None, first_size, items);
    law_outputs_are_record_highs(Set::<u64>::empty(), None, second_size, once);
    lemma_rising_is_its_own_highs(None, once);
}

/// The last `k` items of `sent` (all of them when there are fewer), as a set.
pub open spec fn last_sent(sent: Seq<u64>, k: usize) -> Set<u64> {
    let start: int = if sent.len() > k { sent.len() - k } else { 0 };
    sent.subrange(start, sent.len() as int).to_set()
}

proof fn lemma_rising_distinct(s: Seq<u64>)
    requires
        rising_above(None, s),
    ensures
        s.no_duplicates(),
{
    assert forall|i: int, j: int| 0 <= i < s.len() && 0 <= j < s.len() && i != j implies s[i] != s[j] by {
        if i < j {
            assert(s[i] < s[j]);
        } else {
            assert(s[j] < s[i]);
        }
    }
}

/// The window of the last `k` items of a rising `h`: its items are distinct
/// and it stands for `last_sent(h, k)`.
proof fn lemma_window(h: Seq<u64>, k: usize)
    requires
        rising_above(None, h),
    ensures
        ({
            let n: int = h.len() as int;
            let start: int = if n > k { n - k } else { 0 };
            let w = h.subrange(start, n);
            &&& rising_above(None, w)
            &&& w.to_set().len() == w.len()
            &&& last_sent(h, k) == w.to_set()
        }),
{
    let n: int = h.len() as int;
    let start: int = if n > k { n - k } else { 0 };
    let w = h.subrange(start, n);
    assert forall|i: int, j: int| 0 <= i < j < w.len() implies w[i] < w[j] by {
        assert(w[i] == h[start + i] && w[j] == h[start + j]);
    }
    lemma_rising_distinct(w);
    w.unique_seq_to_set();
}

#[verifier::rlimit(40)]
proof fn lemma_last_sent_push_full(h: Seq<u64>, k: usize, x: u64)
    requires
        k > 0,
        h.len() >= k,
        rising_above(None, h),
        h.last() < x,
    ensures
        evict(last_sent(h, k), k).insert(x) == last_sent(h.push(x), k),
{
    let n: int = h.len() as int;
    let w = h.subrange(n - k, n);
    let big = last_sent(h, k);
    let h2 = h.push(x);
    lemma_window(h, k);
    assert(big == w.to_set());
    assert(w.to_set().contains(w[0]));
    assert forall|y: u64| #[trigger] big.contains(y) implies w[0] <= y by {
        let j = choose|j: int| 0 <= j < w.len() && w[j] == y;
        if j > 0 {
            assert(w[0] < w[j]);
        }
    }
    let m = set_min(big);
    assert(big.contains(m) && m <= w[0] && w[0] <= m);
    assert(evict(big, k) == big.remove(w[0]));
    let w2 = h2.subrange(n + 1 - k, n + 1);
    assert(last_sent(h2, k) == w2.to_set());
    assert forall|y: u64| #[trigger] big.remove(w[0]).insert(x).contains(y) implies w2.to_set().contains(y) by {
        if y == x {
            assert(w2[k - 1] == x);
        } else {
            let j = choose|j: int| 0 <= j < w.len() && w[j] == y;
            assert(j != 0);
            assert(w2[j - 1] == y);
        }
    }
    assert forall|y: u64| #[trigger] w2.to_set().contains(y) implies big.remove(w[0]).insert(x).contains(y) by {
        let j = choose|j: int| 0 <= j < w2.len() && w2[j] == y;
        if j < k - 1 {
            assert(w[j + 1] == y);
            assert(w.contains(y));
            assert(w[0] < w[j + 1]);
        }
    }
    assert(big.remove(w[0]).insert(x) =~= w2.to_set());
}

proof fn lemma_last_sent_push_room(h: Seq<u64>, k: usize, x: u64)
    requires
        h.len() < k,
        rising_above(None, h),
    ensures
        evict(last_sent(h, k), k).insert(x) == last_sent(h.push(x), k),
{
    let n: int = h.len() as int;
    let big = last_sent(h, k);
    let h2 = h.push(x);
    lemma_window(h, k);
    assert(h.subrange(0, n) =~= h);
    assert(big == h.to_set());
    assert(evict(big, k) == big);
    assert(h2.subrange(0, n + 1) =~= h2);
    assert(last_sent(h2, k) == h2.to_set());
    assert forall|y: u64| #[trigger] big.insert(x).contains(y) implies h2.to_set().contains(y) by {
        if y == x {
            assert(h2[n] == x);
        } else {
            let j = choose|j: int| 0 <= j < h.len() && h[j] == y;
            assert(h2[j] == y);
        }
    }
    assert forall|y: u64| #[trigger] h2.to_set().contains(y) implies big.insert(x).contains(y) by {
        let j = choose|j: int| 0 <= j < h2.len() && h2[j] == y;
        if j < n {
            assert(h[j] == y);
        }
    }
    assert(big.insert(x) =~= h2.to_set());
}

proof fn lemma_cache_is_last_sent(h: Seq<u64>, cache: Set<u64>, last_seen: Option<u64>, k: usize, items: Seq<u64>)
    requires
        k > 0,
        rising_above(None, h),
        cache == last_sent(h, k),
        last_seen == (if h.len() == 0 { None } else { Some(h.last()) }),
    ensures
        sequence_final(cache, last_seen, k, items).0 == last_sent(h + sequence_outputs(cache, last_seen, k, items), k),
    decreases items.len(),
{
    if items.len() == 0 {
        assert(h + sequence_outputs(cache, last_seen, k, items) =~= h);
    } else {
        let x = items[0];
        let (c2, l2, sent) = sequence_step(cache, last_seen, k, x);
        let rest = sequence_outputs(c2, l2, k, items.drop_first());
        // the cache is settled
        let n: int = h.len() as int;
        let start: int = if n > k { n - k } else { 0 };
        let w = h.subrange(start, n);
        assert(cache == w.to_set());
        if n == 0 {
            assert(cache =~= Set::<u64>::empty());
        } else {
            assert(w[w.len() - 1] == h.last());
            assert(w.contains(h.last()));
            assert forall|c: u64| #[trigger] cache.contains(c) implies c <= h.last() by {
                let j = choose|j: int| 0 <= j < w.len() && w[j] == c;
                if start + j < n - 1 {
                    assert(h[start + j] < h[n - 1]);
                }
            }
        }
        assert(settled(cache, last_seen));
        lemma_settled_step(cache, last_seen, k, x);
        if admits(cache, last_seen, x) {
            let h2 = h.push(x);
            if n >= k {
                lemma_last_sent_push_full(h, k, x);
            } else {
                lemma_last_sent_push_room(h, k, x);
            }
            assert(rising_above(None, h2)) by {
                assert forall|i: int, j: int| 0 <= i < j < h2.len() implies h2[i] < h2[j] by {
                    if j == n {
                        if i < n - 1 {
                            assert(h[i] < h[n - 1]);
                        }
                    } else {
                        assert(h[i] < h[j]);
                    }
                }
            }
            assert(h2.last() == x);
            lemma_cache_is_last_sent(h2, c2, l2, k, items.drop_first());
            assert(h2 + rest =~= h + (seq![x] + rest));
        } else {
            lemma_cache_is_last_sent(h, c2, l2, k, items.drop_first());
        }
    }
}

/// From a new sequencer, the cache always holds exactly the last
/// `cache_size_max` items sent (all of them while fewer were sent).
pub proof fn law_cache_holds_last_sent(cache_size_max: usize, items: Seq<u64>)
    requires
        cache_size_max > 0,
    ensures
        sequence_final(Set::<u64>::empty(), None, cache_size_max, items).0
            == last_sent(sequence_outputs(Set::<u64>::empty(), None, cache_size_max, items), cache_size_max),
{
    let h = Seq::<u64>::empty();
    assert(last_sent(h, cache_size_max) =~= Set::<u64>::empty());
    lemma_cache_is_last_sent(h, Set::<u64>::empty(), None, cache_size_max, items);
    assert(h + sequence_outputs(Set::<u64>::empty(), None, cache_size_max, items)
        =~= sequence_outputs(Set::<u64>::empty(), None, cache_size_max, items));
}

} // verus!
