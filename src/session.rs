//! The session scheduler: builds the review queue from datasets and policies,
//! hands out the current task, checks answers, and moves cards along the deck
//! ladder as answers come in.
use std::collections::VecDeque;
use vstd::prelude::*;
use vstd::utf8::encode_utf8;
use crate::card::{
    cards_view, due_spec, strings_view, with_deck, CardView, DatasetView, VocaCardDataset, Vocab,
    VocabMetadata,
};
use crate::config::{DeckConfig, DeckInverval, FilterMode, MemorizationConfig, ValidationConfig};
use crate::text::{edit_distance, levenshtein};
use crate::timestamp::Timestamp;

verus! {

broadcast use vstd::seq_lib::group_seq_properties;

/// A task as the review screen shows it: the prompt, the expected answer
/// with its accepted variants, and whether the answer is shown at once.
pub struct VocabTask<'a> {
    pub query: &'a str,
    pub answer: &'a str,
    pub answer_variants: &'a [String],
    pub show_answer: bool,
}

/// Whether `answer` is close enough to one accepted variant: a variant shorter
/// than `min_len` bytes (its UTF-8 length, as `str::len` gives it) must be typed exactly; a longer one may be off by at
/// most `tolerance` edits.
pub open spec fn variant_accepts(
    variant: Seq<char>,
    answer: Seq<char>,
    tolerance: usize,
    min_len: usize,
) -> bool {
    if (encode_utf8(variant).len() as usize) < min_len {
        answer == variant
    } else {
        levenshtein(variant, answer) <= tolerance
    }
}

/// Whether any of the variants accepts `answer`.
pub open spec fn answer_accepted(
    variants: Seq<Seq<char>>,
    answer: Seq<char>,
    tolerance: usize,
    min_len: usize,
) -> bool {
    exists|i: int|
        0 <= i < variants.len() && variant_accepts(#[trigger] variants[i], answer, tolerance, min_len)
}

impl<'a> VocabTask<'a> {
    /// Whether `answer` matches one of the accepted variants within the tolerance.
    pub fn is_correct(&self, answer: &str, val_config: &ValidationConfig) -> (r: bool)
        ensures
            r == answer_accepted(
                strings_view(self.answer_variants@),
                answer@,
                val_config.error_tolerance,
                val_config.tolerance_min_length,
            ),
    {
        let ghost vs = strings_view(self.answer_variants@);
        let typed = crate::text::owned(answer);
        let mut i: usize = 0;
        while i < self.answer_variants.len()
            invariant
                vs == strings_view(self.answer_variants@),
                typed@ == answer@,
                i <= vs.len(),
                forall|k: int|
                    0 <= k < i ==> !variant_accepts(
                        #[trigger] vs[k],
                        answer@,
                        val_config.error_tolerance,
                        val_config.tolerance_min_length,
                    ),
            decreases vs.len() - i,
        {
            let variant = self.answer_variants[i].as_str();
            assert(vs[i as int] == variant@);
            if variant.len() < val_config.tolerance_min_length {
                if typed == self.answer_variants[i] {
                    assert(variant_accepts(vs[i as int], answer@, val_config.error_tolerance, val_config.tolerance_min_length));
                    return true;
                }
            } else if edit_distance(variant, answer) <= val_config.error_tolerance {
                assert(variant_accepts(vs[i as int], answer@, val_config.error_tolerance, val_config.tolerance_min_length));
                return true;
            }
            i += 1;
        }
        false
    }
}

/// One unit of work in the queue: a card by dataset and card index, the
/// direction it is asked in, and whether it is an ungraded exposure.
#[derive(Debug, Clone, Copy, PartialEq, Eq, Structural)]
pub struct VocabItem {
    pub dataset: usize,
    pub card: usize,
    pub reverse: bool,
    pub memorization_card: bool,
}

/// A card by dataset index and card index.
pub type CardRef = (usize, usize);

/// The views of a sequence of datasets.
pub open spec fn datasets_view(v: Seq<VocaCardDataset>) -> Seq<DatasetView> {
    v.map_values(|d: VocaCardDataset| d@)
}

/// Whether `r` names a card of `ds`.
pub open spec fn ref_valid(ds: Seq<DatasetView>, r: CardRef) -> bool {
    r.0 < ds.len() && r.1 < ds[r.0 as int].cards.len()
}

/// The card that `r` names.
pub open spec fn card_at(ds: Seq<DatasetView>, r: CardRef) -> CardView {
    ds[r.0 as int].cards[r.1 as int]
}

/// Every card of every dataset, dataset by dataset, each in file order.
pub open spec fn flat_refs(ds: Seq<DatasetView>) -> Seq<CardRef>
    decreases ds.len(),
{
    if ds.len() == 0 {
        Seq::empty()
    } else {
        flat_refs(ds.drop_last()) + Seq::new(
            ds.last().cards.len(),
            |j: int| ((ds.len() - 1) as usize, j as usize),
        )
    }
}

/// Collects every card of the datasets, in dataset order, then file order.
fn flatten(datasets: &Vec<VocaCardDataset>) -> (r: Vec<CardRef>)
    ensures
        r@ == flat_refs(datasets_view(datasets@)),
        forall|k: int| 0 <= k < r@.len() ==> ref_valid(datasets_view(datasets@), #[trigger] r@[k]),
{
    let ghost ds = datasets_view(datasets@);
    let mut r: Vec<CardRef> = Vec::new();
    let mut i: usize = 0;
    while i < datasets.len()
        invariant
            ds == datasets_view(datasets@),
            i <= datasets.len(),
            r@ == flat_refs(ds.take(i as int)),
            forall|k: int| 0 <= k < r@.len() ==> ref_valid(ds, #[trigger] r@[k]),
        decreases datasets.len() - i,
    {
        let n = datasets[i].cards.len();
        let mut j: usize = 0;
        let ghost base = r@;
        while j < n
            invariant
                ds == datasets_view(datasets@),
                i < datasets.len(),
                n == ds[i as int].cards.len(),
                j <= n,
                r@ == base + Seq::new(j as nat, |c: int| (i, c as usize)),
                forall|k: int| 0 <= k < r@.len() ==> ref_valid(ds, #[trigger] r@[k]),
            decreases n - j,
        {
            r.push((i, j));
            assert(r@ =~= base + Seq::new((j + 1) as nat, |c: int| (i, c as usize)));
            j += 1;
        }
        assert(ds.take(i + 1).drop_last() =~= ds.take(i as int));
        assert(r@ =~= flat_refs(ds.take(i + 1)));
        i += 1;
    }
    assert(ds.take(i as int) =~= ds);
    r
}

/// The metadata of the card that `r` names.
pub open spec fn meta_at(ds: Seq<DatasetView>, r: CardRef) -> Option<VocabMetadata> {
    card_at(ds, r).metadata
}

/// Whether a card with metadata `a` sorts strictly after one with `b`: new
/// cards come first, seen cards follow by forward due date.
pub open spec fn sorts_after(a: Option<VocabMetadata>, b: Option<VocabMetadata>) -> bool {
    match (a, b) {
        (Some(x), Some(y)) => x.due_date.secs > y.due_date.secs,
        (Some(_), None) => true,
        _ => false,
    }
}

fn meta_sorts_after(a: Option<VocabMetadata>, b: Option<VocabMetadata>) -> (r: bool)
    ensures
        r == sorts_after(a, b),
{
    match (a, b) {
        (Some(x), Some(y)) => x.due_date.secs > y.due_date.secs,
        (Some(_), None) => true,
        _ => false,
    }
}

/// Where a stable insertion puts `x` into `s`: after every card that does not
/// sort after it.
pub open spec fn insert_pos(ds: Seq<DatasetView>, s: Seq<CardRef>, x: CardRef) -> int
    decreases s.len(),
{
    if s.len() == 0 {
        0
    } else if sorts_after(meta_at(ds, s[0]), meta_at(ds, x)) {
        0
    } else {
        1 + insert_pos(ds, s.drop_first(), x)
    }
}

/// `s` sorted stably: new cards first in their order, then seen cards by
/// forward due date, equal dates in their order.
pub open spec fn sorted_refs(ds: Seq<DatasetView>, s: Seq<CardRef>) -> Seq<CardRef>
    decreases s.len(),
{
    if s.len() == 0 {
        Seq::empty()
    } else {
        let t = sorted_refs(ds, s.drop_last());
        t.insert(insert_pos(ds, t, s.last()), s.last())
    }
}

proof fn lemma_insert_pos_bounds(ds: Seq<DatasetView>, s: Seq<CardRef>, x: CardRef)
    ensures
        0 <= insert_pos(ds, s, x) <= s.len(),
    decreases s.len(),
{
    if s.len() > 0 {
        lemma_insert_pos_bounds(ds, s.drop_first(), x);
    }
}

/// Whether card `a` comes before card `b` in file order: by dataset, then
/// by position in the dataset.
pub open spec fn ref_before(a: CardRef, b: CardRef) -> bool {
    a.0 < b.0 || (a.0 == b.0 && a.1 < b.1)
}

/// Whether `s` lists cards in strictly increasing file order.
pub open spec fn in_file_order(s: Seq<CardRef>) -> bool {
    forall|i: int, j: int| 0 <= i < j < s.len() ==> ref_before(#[trigger] s[i], #[trigger] s[j])
}

/// Whether `r` lists cards by due date, new cards first, cards of equal rank
/// in file order.
pub open spec fn sorted_stably(ds: Seq<DatasetView>, r: Seq<CardRef>) -> bool {
    forall|i: int, j: int|
        0 <= i < j < r.len() ==> !sorts_after(meta_at(ds, #[trigger] r[i]), meta_at(ds, #[trigger] r[j]))
            && (sorts_after(meta_at(ds, r[j]), meta_at(ds, r[i])) || ref_before(r[i], r[j]))
}

proof fn lemma_insert_pos_facts(ds: Seq<DatasetView>, t: Seq<CardRef>, x: CardRef)
    ensures
        forall|k: int|
            0 <= k < insert_pos(ds, t, x) ==> !sorts_after(meta_at(ds, #[trigger] t[k]), meta_at(ds, x)),
        insert_pos(ds, t, x) < t.len() ==> sorts_after(
            meta_at(ds, t[insert_pos(ds, t, x)]),
            meta_at(ds, x),
        ),
    decreases t.len(),
{
    lemma_insert_pos_bounds(ds, t, x);
    if t.len() > 0 && !sorts_after(meta_at(ds, t[0]), meta_at(ds, x)) {
        let t1 = t.drop_first();
        lemma_insert_pos_facts(ds, t1, x);
        let p1 = insert_pos(ds, t1, x);
        lemma_insert_pos_bounds(ds, t1, x);
        assert(insert_pos(ds, t, x) == p1 + 1);
        if p1 < t1.len() {
            assert(t[p1 + 1] == t1[p1]);
        }
        assert forall|k: int| 0 <= k < insert_pos(ds, t, x) implies !sorts_after(
            meta_at(ds, #[trigger] t[k]),
            meta_at(ds, x),
        ) by {
            if k > 0 {
                assert(t[k] == t1[k - 1]);
            }
        }
    }
}

proof fn lemma_insert_contains(t: Seq<CardRef>, p: int, x: CardRef)
    requires
        0 <= p <= t.len(),
    ensures
        t.insert(p, x).len() == t.len() + 1,
        forall|e: CardRef| t.insert(p, x).contains(e) <==> (t.contains(e) || e == x),
{
    let r = t.insert(p, x);
    assert forall|e: CardRef| r.contains(e) <==> (t.contains(e) || e == x) by {
        if r.contains(e) {
            let i = choose|i: int| 0 <= i < r.len() && r[i] == e;
            if i < p {
                assert(t[i] == e);
            } else if i > p {
                assert(t[i - 1] == e);
            }
        }
        if t.contains(e) {
            let i = choose|i: int| 0 <= i < t.len() && t[i] == e;
            if i < p {
                assert(r[i] == e);
            } else {
                assert(r[i + 1] == e);
            }
        }
        if e == x {
            assert(r[p] == e);
        }
    }
}

proof fn lemma_insert_keeps_sorted(ds: Seq<DatasetView>, t: Seq<CardRef>, x: CardRef)
    requires
        sorted_stably(ds, t),
        forall|k: int| 0 <= k < t.len() ==> ref_before(#[trigger] t[k], x),
    ensures
        sorted_stably(ds, t.insert(insert_pos(ds, t, x), x)),
{
    let p = insert_pos(ds, t, x);
    lemma_insert_pos_bounds(ds, t, x);
    lemma_insert_pos_facts(ds, t, x);
    let r = t.insert(p, x);
    assert forall|i: int, j: int| 0 <= i < j < r.len() implies !sorts_after(
        meta_at(ds, #[trigger] r[i]),
        meta_at(ds, #[trigger] r[j]),
    ) && (sorts_after(meta_at(ds, r[j]), meta_at(ds, r[i])) || ref_before(r[i], r[j])) by {
        if j < p {
            assert(r[i] == t[i] && r[j] == t[j]);
        } else if j == p {
            assert(r[i] == t[i]);
        } else if i < p {
            assert(r[i] == t[i] && r[j] == t[j - 1]);
        } else if i == p {
            assert(r[j] == t[j - 1]);
            if j - 1 > p {
                assert(!sorts_after(meta_at(ds, t[p]), meta_at(ds, t[j - 1])));
            }
        } else {
            assert(r[i] == t[i - 1] && r[j] == t[j - 1]);
        }
    }
}

proof fn lemma_sorted_refs_facts(ds: Seq<DatasetView>, s: Seq<CardRef>)
    requires
        in_file_order(s),
    ensures
        sorted_refs(ds, s).len() == s.len(),
        forall|e: CardRef| sorted_refs(ds, s).contains(e) <==> s.contains(e),
        sorted_stably(ds, sorted_refs(ds, s)),
    decreases s.len(),
{
    if s.len() > 0 {
        let s0 = s.drop_last();
        let x = s.last();
        assert(in_file_order(s0)) by {
            assert forall|i: int, j: int| 0 <= i < j < s0.len() implies ref_before(
                #[trigger] s0[i],
                #[trigger] s0[j],
            ) by {
                assert(s0[i] == s[i] && s0[j] == s[j]);
            }
        }
        lemma_sorted_refs_facts(ds, s0);
        let t = sorted_refs(ds, s0);
        let p = insert_pos(ds, t, x);
        lemma_insert_pos_bounds(ds, t, x);
        assert forall|k: int| 0 <= k < t.len() implies ref_before(#[trigger] t[k], x) by {
            assert(t.contains(t[k]));
            assert(s0.contains(t[k]));
            let a = choose|a: int| 0 <= a < s0.len() && s0[a] == t[k];
            assert(s0[a] == s[a]);
            assert(ref_before(s[a], s[s.len() - 1]));
        }
        lemma_insert_keeps_sorted(ds, t, x);
        lemma_insert_contains(t, p, x);
        assert forall|e: CardRef| s.contains(e) <==> (s0.contains(e) || e == x) by {
            if s.contains(e) {
                let a = choose|a: int| 0 <= a < s.len() && s[a] == e;
                if a < s.len() - 1 {
                    assert(s0[a] == e);
                }
            }
            if s0.contains(e) {
                let a = choose|a: int| 0 <= a < s0.len() && s0[a] == e;
                assert(s[a] == e);
            }
            if e == x {
                assert(s[s.len() - 1] == e);
            }
        }
    }
}

proof fn lemma_flat_refs_in_file_order(ds: Seq<DatasetView>)
    requires
        ds.len() <= usize::MAX,
        forall|d: int| 0 <= d < ds.len() ==> #[trigger] ds[d].cards.len() <= usize::MAX,
    ensures
        in_file_order(flat_refs(ds)),
        forall|k: int| 0 <= k < flat_refs(ds).len() ==> (#[trigger] flat_refs(ds)[k]).0 < ds.len(),
    decreases ds.len(),
{
    if ds.len() > 0 {
        let init = ds.drop_last();
        assert forall|d: int| 0 <= d < init.len() implies #[trigger] init[d].cards.len() <= usize::MAX by {
            assert(init[d] == ds[d]);
        }
        lemma_flat_refs_in_file_order(init);
    }
}

/// Sorting the cards of the datasets, as a session with sorting on does,
/// lists every card once, new cards first in file order, then seen cards by
/// forward due date, cards with equal due dates in file order.
pub proof fn lemma_sorted_order(ds: Seq<DatasetView>)
    requires
        ds.len() <= usize::MAX,
        forall|d: int| 0 <= d < ds.len() ==> #[trigger] ds[d].cards.len() <= usize::MAX,
    ensures
        ({
            let flat = flat_refs(ds);
            let r = queue_order(ds, true);
            &&& flat.no_duplicates()
            &&& r.len() == flat.len()
            &&& forall|e: CardRef| r.contains(e) <==> flat.contains(e)
            &&& sorted_stably(ds, r)
        }),
{
    lemma_flat_refs_in_file_order(ds);
    let flat = flat_refs(ds);
    assert forall|i: int, j: int| 0 <= i < flat.len() && 0 <= j < flat.len() && i != j implies flat[i]
        != flat[j] by {
        if i < j {
            assert(ref_before(flat[i], flat[j]));
        } else {
            assert(ref_before(flat[j], flat[i]));
        }
    }
    lemma_sorted_refs_facts(ds, flat);
}

/// Sorts cards stably by due date, new cards first.
fn sort_by_due(datasets: &Vec<VocaCardDataset>, refs: Vec<CardRef>) -> (r: Vec<CardRef>)
    requires
        forall|k: int| 0 <= k < refs@.len() ==> ref_valid(datasets_view(datasets@), #[trigger] refs@[k]),
    ensures
        r@ == sorted_refs(datasets_view(datasets@), refs@),
        forall|k: int| 0 <= k < r@.len() ==> ref_valid(datasets_view(datasets@), #[trigger] r@[k]),
{
    let ghost ds = datasets_view(datasets@);
    let mut out: Vec<CardRef> = Vec::new();
    let mut k: usize = 0;
    while k < refs.len()
        invariant
            ds == datasets_view(datasets@),
            k <= refs@.len(),
            forall|i: int| 0 <= i < refs@.len() ==> ref_valid(ds, #[trigger] refs@[i]),
            out@ == sorted_refs(ds, refs@.take(k as int)),
            forall|i: int| 0 <= i < out@.len() ==> ref_valid(ds, #[trigger] out@[i]),
        decreases refs@.len() - k,
    {
        let x = refs[k];
        assert(ref_valid(ds, x));
        let x_meta = datasets[x.0].cards[x.1].metadata;
        assert(x_meta == meta_at(ds, x));
        let mut p: usize = 0;
        proof {
            lemma_insert_pos_bounds(ds, out@, x);
            assert(out@.skip(0) =~= out@);
        }
        while p < out.len() && !meta_sorts_after(datasets[out[p].0].cards[out[p].1].metadata, x_meta)
            invariant
                ds == datasets_view(datasets@),
                p <= out@.len(),
                forall|i: int| 0 <= i < out@.len() ==> ref_valid(ds, #[trigger] out@[i]),
                x_meta == meta_at(ds, x),
                insert_pos(ds, out@, x) == p + insert_pos(ds, out@.skip(p as int), x),
            decreases out@.len() - p,
        {
            assert(out@.skip(p as int).drop_first() =~= out@.skip(p + 1));
            p += 1;
        }
        proof {
            if p < out@.len() {
                assert(out@.skip(p as int)[0] == out@[p as int]);
            }
        }
        out.insert(p, x);
        assert(refs@.take(k + 1).drop_last() =~= refs@.take(k as int));
        k += 1;
    }
    assert(refs@.take(k as int) =~= refs@);
    out
}

/// The three parts of the queue being built, and the cards taken so far.
pub struct Plan {
    pub memorize: Seq<VocabItem>,
    pub forward: Seq<VocabItem>,
    pub reverse: Seq<VocabItem>,
    pub used: Seq<CardRef>,
}

/// Whether the card `r` is due in either direction.
pub open spec fn card_used(ds: Seq<DatasetView>, r: CardRef, mode: FilterMode, now: Timestamp) -> bool {
    due_spec(meta_at(ds, r), false, mode, now) || due_spec(meta_at(ds, r), true, mode, now)
}

/// Whether the limit on distinct cards has been reached by `taken` cards.
pub open spec fn limit_reached(limit: Option<usize>, taken: int) -> bool {
    limit matches Some(l) && taken >= l
}

/// Walking `order` card by card until `limit` cards have been taken: a card
/// due in a direction adds an item for that direction; a new card due in
/// either direction adds an exposure when the memorization round is on.
pub open spec fn plan_of(
    ds: Seq<DatasetView>,
    order: Seq<CardRef>,
    mode: FilterMode,
    now: Timestamp,
    limit: Option<usize>,
    memorize: bool,
    memorize_reversed: bool,
) -> Plan
    decreases order.len(),
{
    if order.len() == 0 {
        Plan { memorize: Seq::empty(), forward: Seq::empty(), reverse: Seq::empty(), used: Seq::empty() }
    } else {
        let p = plan_of(ds, order.drop_last(), mode, now, limit, memorize, memorize_reversed);
        let r = order.last();
        let fwd = due_spec(meta_at(ds, r), false, mode, now);
        let rev = due_spec(meta_at(ds, r), true, mode, now);
        if limit_reached(limit, p.used.len() as int) {
            p
        } else {
            Plan {
                memorize: if meta_at(ds, r) is None && memorize && (fwd || rev) {
                    p.memorize.push(
                        VocabItem {
                            dataset: r.0,
                            card: r.1,
                            reverse: memorize_reversed,
                            memorization_card: true,
                        },
                    )
                } else {
                    p.memorize
                },
                forward: if fwd {
                    p.forward.push(
                        VocabItem { dataset: r.0, card: r.1, reverse: false, memorization_card: false },
                    )
                } else {
                    p.forward
                },
                reverse: if rev {
                    p.reverse.push(
                        VocabItem { dataset: r.0, card: r.1, reverse: true, memorization_card: false },
                    )
                } else {
                    p.reverse
                },
                used: if fwd || rev {
                    p.used.push(r)
                } else {
                    p.used
                },
            }
        }
    }
}

/// The order in which cards are considered: as loaded, or sorted by due date.
pub open spec fn queue_order(ds: Seq<DatasetView>, sorted: bool) -> Seq<CardRef> {
    if sorted {
        sorted_refs(ds, flat_refs(ds))
    } else {
        flat_refs(ds)
    }
}

/// The queue a session starts with: exposures, then forward items, then
/// reverse items.
pub open spec fn initial_queue(
    ds: Seq<DatasetView>,
    mode: FilterMode,
    sorted: bool,
    limit: Option<usize>,
    memorize: bool,
    memorize_reversed: bool,
    now: Timestamp,
) -> Seq<VocabItem> {
    let p = plan_of(ds, queue_order(ds, sorted), mode, now, limit, memorize, memorize_reversed);
    p.memorize + p.forward + p.reverse
}

proof fn lemma_plan_stops_at_limit(
    ds: Seq<DatasetView>,
    order: Seq<CardRef>,
    k: int,
    mode: FilterMode,
    now: Timestamp,
    limit: Option<usize>,
    memorize: bool,
    memorize_reversed: bool,
)
    requires
        0 <= k <= order.len(),
        limit_reached(
            limit,
            plan_of(ds, order.take(k), mode, now, limit, memorize, memorize_reversed).used.len() as int,
        ),
    ensures
        plan_of(ds, order, mode, now, limit, memorize, memorize_reversed) == plan_of(
            ds,
            order.take(k),
            mode,
            now,
            limit,
            memorize,
            memorize_reversed,
        ),
    decreases order.len() - k,
{
    if k < order.len() {
        assert(order.drop_last().take(k) =~= order.take(k));
        lemma_plan_stops_at_limit(ds, order.drop_last(), k, mode, now, limit, memorize, memorize_reversed);
    } else {
        assert(order.take(k) =~= order);
    }
}

/// Whether every item of `q` names a card of `ds`.
pub open spec fn items_valid(ds: Seq<DatasetView>, q: Seq<VocabItem>) -> bool {
    forall|i: int| 0 <= i < q.len() ==> ref_valid(ds, (#[trigger] q[i].dataset, q[i].card))
}

/// Items that named cards before still do once a card's metadata changed,
/// and a queue made of them stays valid.
proof fn lemma_items_valid_after(
    ds: Seq<DatasetView>,
    q: Seq<VocabItem>,
    ds2: Seq<DatasetView>,
    q2: Seq<VocabItem>,
)
    requires
        items_valid(ds, q),
        q.len() > 0,
        ds2.len() == ds.len(),
        forall|i: int| 0 <= i < ds.len() ==> #[trigger] ds2[i].cards.len() == ds[i].cards.len(),
        q2 == q.drop_first() || q2 == q.drop_first().push(q[0]),
    ensures
        items_valid(ds2, q2),
{
    assert forall|i: int| 0 <= i < q2.len() implies ref_valid(ds2, (#[trigger] q2[i].dataset, q2[i].card)) by {
        if i < q.len() - 1 {
            assert(q2[i] == q[i + 1]);
        } else {
            assert(q2[i] == q[0]);
        }
        assert(ds2[q2[i].dataset as int].cards.len() == ds[q2[i].dataset as int].cards.len());
    }
}

fn append_items(q: &mut VecDeque<VocabItem>, items: &Vec<VocabItem>)
    ensures
        final(q)@ == old(q)@ + items@,
{
    let mut k: usize = 0;
    while k < items.len()
        invariant
            k <= items@.len(),
            q@ == old(q)@ + items@.take(k as int),
        decreases items@.len() - k,
    {
        q.push_back(items[k]);
        assert(items@.take(k + 1) =~= items@.take(k as int).push(items@[k as int]));
        k += 1;
    }
    assert(items@.take(k as int) =~= items@);
}

/// The scheduler of one review pass.
pub struct VocaSession {
    datasets: Vec<VocaCardDataset>,
    queue: VecDeque<VocabItem>,
    has_changes: bool,
    total_due: usize,
}

pub struct SessionView {
    pub datasets: Seq<DatasetView>,
    pub queue: Seq<VocabItem>,
    pub has_changes: bool,
    pub total_due: nat,
}

impl SessionView {
    /// Every queued item names a card, and the queue never outgrows the
    /// number of tasks the session started with.
    pub open spec fn wf(self) -> bool {
        &&& items_valid(self.datasets, self.queue)
        &&& self.queue.len() <= self.total_due
    }

    /// Tasks finished so far.
    pub open spec fn progress(self) -> int {
        self.total_due - self.queue.len()
    }
}

/// A task, seen as plain values.
pub struct TaskView {
    pub query: Seq<char>,
    pub answer: Seq<char>,
    pub answer_variants: Seq<Seq<char>>,
    pub show_answer: bool,
}

impl<'a> View for VocabTask<'a> {
    type V = TaskView;

    open spec fn view(&self) -> TaskView {
        TaskView {
            query: self.query@,
            answer: self.answer@,
            answer_variants: strings_view(self.answer_variants@),
            show_answer: self.show_answer,
        }
    }
}

/// The datasets with the metadata of card `c` of dataset `d` replaced by `m`.
pub open spec fn set_metadata(ds: Seq<DatasetView>, d: int, c: int, m: VocabMetadata) -> Seq<
    DatasetView,
> {
    ds.update(
        d,
        DatasetView {
            cards: ds[d].cards.update(c, CardView { metadata: Some(m), ..ds[d].cards[c] }),
            ..ds[d]
        },
    )
}

/// The deck after an answer on a ladder of `rungs` decks: one up on a correct
/// answer, one down on a wrong one, never below 0 nor above the top deck.
pub open spec fn next_deck(current: u8, correct: bool, rungs: int) -> u8 {
    let moved = if correct {
        current + 1
    } else if current >= 1 {
        current - 1
    } else {
        0
    };
    if moved <= rungs - 1 {
        moved as u8
    } else {
        (rungs - 1) as u8
    }
}

/// The deck of a direction, 0 for a new card.
pub open spec fn deck_or_zero(meta: Option<VocabMetadata>, reverse: bool) -> u8 {
    match meta {
        Some(m) => m.deck_of(reverse),
        None => 0,
    }
}

impl SessionView {
    /// The front item as a task, if any.
    pub open spec fn task(self) -> Option<TaskView> {
        if self.queue.len() == 0 {
            None
        } else {
            let it = self.queue[0];
            let card = card_at(self.datasets, (it.dataset, it.card));
            let query = if it.reverse {
                card.word_b
            } else {
                card.word_a
            };
            let answer = if it.reverse {
                card.word_a
            } else {
                card.word_b
            };
            Some(
                TaskView {
                    query: query.base,
                    answer: answer.base,
                    answer_variants: answer.variants,
                    show_answer: it.memorization_card,
                },
            )
        }
    }

    /// The language the front item is answered in.
    pub open spec fn target_lang(self) -> Option<Seq<char>> {
        if self.queue.len() == 0 {
            None
        } else {
            let d = self.datasets[self.queue[0].dataset as int];
            Some(
                if self.queue[0].reverse {
                    d.lang_a
                } else {
                    d.lang_b
                },
            )
        }
    }

    /// After an answer to the front item at `now` on the ladder `ladder`.
    /// An exposure sets the card to the default seen state and leaves the
    /// queue. A graded item moves its direction one deck up or down, due
    /// after that deck's interval; a wrong answer sends it to the back.
    pub open spec fn advanced(self, correct: bool, ladder: Seq<DeckInverval>, now: Timestamp) -> SessionView {
        if self.queue.len() == 0 {
            self
        } else {
            let it = self.queue[0];
            let rest = self.queue.drop_first();
            let meta = card_at(self.datasets, (it.dataset, it.card)).metadata;
            if it.memorization_card {
                SessionView {
                    datasets: set_metadata(
                        self.datasets,
                        it.dataset as int,
                        it.card as int,
                        VocabMetadata::default_spec(),
                    ),
                    queue: rest,
                    has_changes: true,
                    ..self
                }
            } else {
                let deck = next_deck(deck_or_zero(meta, it.reverse), correct, ladder.len() as int);
                let due = now.plus_spec(ladder[deck as int].0);
                SessionView {
                    datasets: set_metadata(
                        self.datasets,
                        it.dataset as int,
                        it.card as int,
                        with_deck(meta, deck, due, it.reverse),
                    ),
                    queue: if correct {
                        rest
                    } else {
                        rest.push(it)
                    },
                    has_changes: true,
                    ..self
                }
            }
        }
    }

    /// After skipping the front item: an exposure counts as done and sets the
    /// card to the default seen state; a graded item goes to the back unchanged.
    pub open spec fn skipped(self) -> SessionView {
        if self.queue.len() == 0 {
            self
        } else {
            let it = self.queue[0];
            let rest = self.queue.drop_first();
            if it.memorization_card {
                SessionView {
                    datasets: set_metadata(
                        self.datasets,
                        it.dataset as int,
                        it.card as int,
                        VocabMetadata::default_spec(),
                    ),
                    queue: rest,
                    has_changes: true,
                    ..self
                }
            } else {
                SessionView { queue: rest.push(it), ..self }
            }
        }
    }
}

impl View for VocaSession {
    type V = SessionView;

    closed spec fn view(&self) -> SessionView {
        SessionView {
            datasets: datasets_view(self.datasets@),
            queue: self.queue@,
            has_changes: self.has_changes,
            total_due: self.total_due as nat,
        }
    }
}

impl VocaSession {
    /// The session's invariant: every queued item names a card, and the
    /// queue is no longer than the number of tasks it started with.
    pub open spec fn wf(&self) -> bool {
        self@.wf()
    }

    /// Builds the queue from the datasets and policies at the current instant.
    pub fn new(
        datasets: Vec<VocaCardDataset>,
        filter_mode: FilterMode,
        sorted: bool,
        limit: Option<usize>,
        memorization_config: &MemorizationConfig,
    ) -> (r: Self)
        ensures
            r.wf(),
            r@.datasets == datasets_view(datasets@),
            exists|now: Timestamp|
                r@.queue == initial_queue(
                    datasets_view(datasets@),
                    filter_mode,
                    sorted,
                    limit,
                    memorization_config.do_memorization_round,
                    memorization_config.memorization_reversed,
                    now,
                ),
            r@.total_due == r@.queue.len(),
            !r@.has_changes,
    {
        let now = Timestamp::now();
        VocaSession::new_at(datasets, filter_mode, sorted, limit, memorization_config, now)
    }

    /// Whether any card's metadata changed.
    pub fn has_changes(&self) -> (r: bool)
        ensures
            r == self@.has_changes,
    {
        self.has_changes
    }

    /// The front item as a task, or nothing once the queue is empty.
    pub fn current_task(&self) -> (r: Option<VocabTask<'_>>)
        requires
            self.wf(),
        ensures
            match r {
                Some(t) => self@.task() == Some(t@),
                None => self@.task() is None,
            },
    {
        if self.queue.len() == 0 {
            return None;
        }
        let item = self.queue[0];
        assert(ref_valid(self@.datasets, (item.dataset, item.card)));
        let card = &self.datasets[item.dataset].cards[item.card];
        assert(card@ == card_at(self@.datasets, (item.dataset, item.card)));
        let query = if item.reverse {
            &card.word_b
        } else {
            &card.word_a
        };
        let answer = if item.reverse {
            &card.word_a
        } else {
            &card.word_b
        };
        Some(
            VocabTask {
                query: query.base.as_str(),
                answer: answer.base.as_str(),
                answer_variants: answer.variants.as_slice(),
                show_answer: item.memorization_card,
            },
        )
    }

    /// The language the front item is answered in.
    pub fn current_target_lang(&self) -> (r: Option<&str>)
        requires
            self.wf(),
        ensures
            match r {
                Some(l) => self@.target_lang() == Some(l@),
                None => self@.target_lang() is None,
            },
    {
        if self.queue.len() == 0 {
            return None;
        }
        let item = self.queue[0];
        assert(ref_valid(self@.datasets, (item.dataset, item.card)));
        let d = &self.datasets[item.dataset];
        if item.reverse {
            Some(d.lang_a.as_str())
        } else {
            Some(d.lang_b.as_str())
        }
    }

    /// Tasks finished so far: those that left the queue for good.
    pub fn current_progress(&self) -> (r: usize)
        requires
            self.wf(),
        ensures
            r == self@.progress(),
    {
        self.total_due - self.queue.len()
    }

    /// The number of tasks the session started with.
    pub fn total_tasks(&self) -> (r: usize)
        ensures
            r == self@.total_due,
    {
        self.total_due
    }

    /// The queue, front first.
    pub fn queue(&self) -> (r: &VecDeque<VocabItem>)
        ensures
            r@ == self@.queue,
    {
        &self.queue
    }

    /// The datasets, with the metadata as the session has changed it.
    pub fn datasets(&self) -> (r: &Vec<VocaCardDataset>)
        ensures
            datasets_view(r@) == self@.datasets,
    {
        &self.datasets
    }

    /// Sets the metadata of one card.
    fn set_card_metadata(&mut self, d: usize, c: usize, m: VocabMetadata)
        requires
            ref_valid(old(self)@.datasets, (d, c)),
        ensures
            final(self)@ == (SessionView {
                datasets: set_metadata(old(self)@.datasets, d as int, c as int, m),
                ..old(self)@
            }),
            final(self).total_due == old(self).total_due,
            final(self).queue@ == old(self).queue@,
    {
        let ghost old_ds = self@.datasets;
        self.datasets[d].cards[c].metadata = Some(m);
        assert(cards_view(self.datasets@[d as int].cards@) =~= old_ds[d as int].cards.update(
            c as int,
            CardView { metadata: Some(m), ..old_ds[d as int].cards[c as int] },
        ));
        assert(self@.datasets =~= set_metadata(old_ds, d as int, c as int, m));
    }

    /// Moves one direction of one card to `deck`, due at `due`.
    fn update_card(&mut self, d: usize, c: usize, deck: u8, due: Timestamp, reverse: bool)
        requires
            ref_valid(old(self)@.datasets, (d, c)),
        ensures
            final(self)@ == (SessionView {
                datasets: set_metadata(
                    old(self)@.datasets,
                    d as int,
                    c as int,
                    with_deck(card_at(old(self)@.datasets, (d, c)).metadata, deck, due, reverse),
                ),
                ..old(self)@
            }),
            final(self).total_due == old(self).total_due,
            final(self).queue@ == old(self).queue@,
    {
        let ghost old_ds = self@.datasets;
        let ghost m = with_deck(card_at(old_ds, (d, c)).metadata, deck, due, reverse);
        self.datasets[d].cards[c].update_metadata(deck, due, reverse);
        assert(cards_view(self.datasets@[d as int].cards@) =~= old_ds[d as int].cards.update(
            c as int,
            CardView { metadata: Some(m), ..old_ds[d as int].cards[c as int] },
        ));
        assert(self@.datasets =~= set_metadata(old_ds, d as int, c as int, m));
    }

    /// Skips the front item: an exposure counts as done, a graded item goes
    /// to the back of the queue unchanged.
    pub fn skip_card(&mut self)
        requires
            old(self).wf(),
        ensures
            final(self).wf(),
            final(self)@ == old(self)@.skipped(),
    {
        let ghost q = self@.queue;
        if let Some(item) = self.queue.pop_front() {
            assert(ref_valid(self@.datasets, (item.dataset, item.card))) by {
                assert(q[0] == item);
            }
            if !item.memorization_card {
                self.queue.push_back(item);
            } else {
                self.set_card_metadata(item.dataset, item.card, VocabMetadata::default());
                self.has_changes = true;
            }
            proof {
                lemma_items_valid_after(old(self)@.datasets, q, self@.datasets, self@.queue);
            }
        }
    }

    /// Records the answer to the front item at the instant `now`, moving its
    /// card along the ladder of `deck_config`.
    pub fn next_card_at(&mut self, answer_correct: bool, deck_config: &DeckConfig, now: Timestamp)
        requires
            old(self).wf(),
            deck_config.is_ladder(),
        ensures
            final(self).wf(),
            final(self)@ == old(self)@.advanced(answer_correct, deck_config.deck_intervals@, now),
    {
        let ghost q = self@.queue;
        let item = match self.queue.pop_front() {
            Some(i) => i,
            None => {
                return;
            },
        };
        assert(q[0] == item);
        assert(ref_valid(self@.datasets, (item.dataset, item.card)));
        if item.memorization_card {
            self.set_card_metadata(item.dataset, item.card, VocabMetadata::default());
            self.has_changes = true;
            proof {
                lemma_items_valid_after(old(self)@.datasets, q, self@.datasets, self@.queue);
            }
            return;
        }
        let current_deck = match self.datasets[item.dataset].cards[item.card].get_deck(item.reverse) {
            Some(d) => d,
            None => 0,
        };
        let n = deck_config.deck_intervals.len();
        let moved: usize = if answer_correct {
            current_deck as usize + 1
        } else if current_deck >= 1 {
            current_deck as usize - 1
        } else {
            0
        };
        let new_deck: u8 = if moved <= n - 1 {
            moved as u8
        } else {
            (n - 1) as u8
        };
        let due = now.plus_seconds(deck_config.deck_intervals[new_deck as usize].0);
        self.update_card(item.dataset, item.card, new_deck, due, item.reverse);
        if !answer_correct {
            self.queue.push_back(item);
        }
        self.has_changes = true;
        proof {
            lemma_items_valid_after(old(self)@.datasets, q, self@.datasets, self@.queue);
        }
    }

    /// Records the answer to the front item at the current instant.
    pub fn next_card(&mut self, answer_correct: bool, deck_config: &DeckConfig)
        requires
            old(self).wf(),
            deck_config.is_ladder(),
        ensures
            final(self).wf(),
            exists|now: Timestamp|
                final(self)@ == old(self)@.advanced(answer_correct, deck_config.deck_intervals@, now),
    {
        let now = Timestamp::now();
        self.next_card_at(answer_correct, deck_config, now);
    }

    /// Builds the queue at the instant `now`.
    pub fn new_at(
        datasets: Vec<VocaCardDataset>,
        filter_mode: FilterMode,
        sorted: bool,
        limit: Option<usize>,
        memorization_config: &MemorizationConfig,
        now: Timestamp,
    ) -> (r: Self)
        ensures
            r.wf(),
            r@.datasets == datasets_view(datasets@),
            r@.queue == initial_queue(
                datasets_view(datasets@),
                filter_mode,
                sorted,
                limit,
                memorization_config.do_memorization_round,
                memorization_config.memorization_reversed,
                now,
            ),
            r@.total_due == r@.queue.len(),
            !r@.has_changes,
    {
        let ghost ds = datasets_view(datasets@);
        let memorize = memorization_config.do_memorization_round;
        let memorize_reversed = memorization_config.memorization_reversed;
        let flat = flatten(&datasets);
        let order = if sorted {
            sort_by_due(&datasets, flat)
        } else {
            flat
        };
        assert(order@ == queue_order(ds, sorted));
        let mut memorize_q: Vec<VocabItem> = Vec::new();
        let mut forward_q: Vec<VocabItem> = Vec::new();
        let mut reverse_q: Vec<VocabItem> = Vec::new();
        let ghost mut used: Seq<CardRef> = Seq::empty();
        let mut num_cards: usize = 0;
        let mut k: usize = 0;
        assert(order@.take(0) =~= Seq::<CardRef>::empty());
        while k < order.len()
            invariant
                ds == datasets_view(datasets@),
                k <= order@.len(),
                forall|i: int| 0 <= i < order@.len() ==> ref_valid(ds, #[trigger] order@[i]),
                plan_of(ds, order@.take(k as int), filter_mode, now, limit, memorize, memorize_reversed)
                    == (Plan { memorize: memorize_q@, forward: forward_q@, reverse: reverse_q@, used }),
                num_cards == used.len(),
                num_cards <= k,
                items_valid(ds, memorize_q@),
                items_valid(ds, forward_q@),
                items_valid(ds, reverse_q@),
            ensures
                plan_of(ds, order@, filter_mode, now, limit, memorize, memorize_reversed)
                    == (Plan { memorize: memorize_q@, forward: forward_q@, reverse: reverse_q@, used }),
                items_valid(ds, memorize_q@),
                items_valid(ds, forward_q@),
                items_valid(ds, reverse_q@),
            decreases order@.len() - k,
        {
            if let Some(l) = limit {
                if num_cards >= l {
                    proof {
                        lemma_plan_stops_at_limit(ds, order@, k as int, filter_mode, now, limit, memorize, memorize_reversed);
                    }
                    break;
                }
            }
            let r = order[k];
            assert(ref_valid(ds, r));
            let card = &datasets[r.0].cards[r.1];
            assert(card.metadata == meta_at(ds, r));
            let add_forward = card.is_due(false, filter_mode, now);
            let add_reverse = card.is_due(true, filter_mode, now);
            let card_used = add_forward || add_reverse;
            assert(order@.take(k + 1).drop_last() =~= order@.take(k as int));
            if card.metadata.is_none() && memorize && card_used {
                memorize_q.push(
                    VocabItem {
                        dataset: r.0,
                        card: r.1,
                        reverse: memorize_reversed,
                        memorization_card: true,
                    },
                );
            }
            if add_forward {
                forward_q.push(VocabItem { dataset: r.0, card: r.1, reverse: false, memorization_card: false });
            }
            if add_reverse {
                reverse_q.push(VocabItem { dataset: r.0, card: r.1, reverse: true, memorization_card: false });
            }
            if card_used {
                num_cards = num_cards + 1;
                proof {
                    used = used.push(r);
                }
            }
            k += 1;
            proof {
                if k == order@.len() {
                    assert(order@.take(k as int) =~= order@);
                }
            }
        }
        proof {
            if order@.len() == 0 {
                assert(order@.take(0) =~= order@);
            }
        }
        let mut queue: VecDeque<VocabItem> = VecDeque::new();
        append_items(&mut queue, &memorize_q);
        append_items(&mut queue, &forward_q);
        append_items(&mut queue, &reverse_q);
        let total_due = queue.len();
        let r = VocaSession { datasets, queue, has_changes: false, total_due };
        assert(r@.queue == memorize_q@ + forward_q@ + reverse_q@);
        assert(items_valid(ds, r@.queue)) by {
            assert forall|i: int| 0 <= i < r@.queue.len() implies ref_valid(ds, (#[trigger] r@.queue[i].dataset, r@.queue[i].card)) by {
                if i < memorize_q@.len() {
                    assert(r@.queue[i] == memorize_q@[i]);
                } else if i < memorize_q@.len() + forward_q@.len() {
                    assert(r@.queue[i] == forward_q@[i - memorize_q@.len()]);
                } else {
                    assert(r@.queue[i] == reverse_q@[i - memorize_q@.len() - forward_q@.len()]);
                }
            }
        }
        r
    }
}

/// The card an item names.
pub open spec fn item_ref(it: VocabItem) -> CardRef {
    (it.dataset, it.card)
}

/// What each part of a plan holds: forward and reverse items of cards due in
/// that direction, exposures of new cards due in some direction, all of them
/// among the cards taken, and no more cards taken than the limit allows.
proof fn lemma_plan_facts(
    ds: Seq<DatasetView>,
    order: Seq<CardRef>,
    mode: FilterMode,
    now: Timestamp,
    limit: Option<usize>,
    memorize: bool,
    memorize_reversed: bool,
)
    ensures
        ({
            let p = plan_of(ds, order, mode, now, limit, memorize, memorize_reversed);
            &&& forall|i: int|
                0 <= i < p.forward.len() ==> due_spec(
                    meta_at(ds, item_ref(#[trigger] p.forward[i])),
                    false,
                    mode,
                    now,
                ) && p.used.contains(item_ref(p.forward[i]))
            &&& forall|i: int|
                0 <= i < p.reverse.len() ==> due_spec(
                    meta_at(ds, item_ref(#[trigger] p.reverse[i])),
                    true,
                    mode,
                    now,
                ) && p.used.contains(item_ref(p.reverse[i]))
            &&& forall|i: int|
                0 <= i < p.memorize.len() ==> meta_at(ds, item_ref(#[trigger] p.memorize[i])) is None
                    && card_used(ds, item_ref(p.memorize[i]), mode, now) && p.used.contains(
                    item_ref(p.memorize[i]),
                )
            &&& limit matches Some(l) ==> p.used.len() <= l
        }),
    decreases order.len(),
{
    if order.len() > 0 {
        lemma_plan_facts(ds, order.drop_last(), mode, now, limit, memorize, memorize_reversed);
        let p0 = plan_of(ds, order.drop_last(), mode, now, limit, memorize, memorize_reversed);
        let p = plan_of(ds, order, mode, now, limit, memorize, memorize_reversed);
        let r = order.last();
        if !limit_reached(limit, p0.used.len() as int) && card_used(ds, r, mode, now) {
            assert(p.used == p0.used.push(r));
            assert forall|x: CardRef| p0.used.contains(x) implies p.used.contains(x) by {
                let k = choose|k: int| 0 <= k < p0.used.len() && p0.used[k] == x;
                assert(p.used[k] == x);
            }
            assert(p.used[p.used.len() - 1] == r);
        }
    }
}

/// The distinct cards that items of `q` name.
pub open spec fn queued_cards(q: Seq<VocabItem>) -> Set<CardRef> {
    Set::new(|r: CardRef| exists|i: int| 0 <= i < q.len() && item_ref(q[i]) == r)
}

/// Whether card `r` appears in `order`.
pub open spec fn appears_in(order: Seq<CardRef>, r: CardRef) -> bool {
    exists|a: int| 0 <= a < order.len() && order[a] == r
}

/// Whether card `r1` appears in `order` somewhere before card `r2`.
pub open spec fn appears_before(order: Seq<CardRef>, r1: CardRef, r2: CardRef) -> bool {
    exists|a: int, b: int| 0 <= a < b < order.len() && order[a] == r1 && order[b] == r2
}

/// Whether the items of `seg` name cards of `order`, in the order of `order`.
pub open spec fn follows_order(seg: Seq<VocabItem>, order: Seq<CardRef>) -> bool {
    &&& forall|i: int| 0 <= i < seg.len() ==> appears_in(order, item_ref(#[trigger] seg[i]))
    &&& forall|i: int, j: int|
        0 <= i < j < seg.len() ==> appears_before(
            order,
            item_ref(#[trigger] seg[i]),
            item_ref(#[trigger] seg[j]),
        )
}

proof fn lemma_appears_push(order: Seq<CardRef>, r: CardRef)
    ensures
        forall|x: CardRef| appears_in(order, x) ==> appears_in(order.push(r), x),
        forall|x: CardRef, y: CardRef|
            appears_before(order, x, y) ==> appears_before(order.push(r), x, y),
        forall|x: CardRef| appears_in(order, x) ==> appears_before(order.push(r), x, r),
        appears_in(order.push(r), r),
{
    let o = order.push(r);
    assert forall|x: CardRef| appears_in(order, x) implies appears_in(o, x) by {
        let a = choose|a: int| 0 <= a < order.len() && order[a] == x;
        assert(o[a] == x);
    }
    assert forall|x: CardRef, y: CardRef| appears_before(order, x, y) implies appears_before(o, x, y) by {
        let (a, b) = choose|a: int, b: int| 0 <= a < b < order.len() && order[a] == x && order[b] == y;
        assert(o[a] == x && o[b] == y);
    }
    assert forall|x: CardRef| appears_in(order, x) implies appears_before(o, x, r) by {
        let a = choose|a: int| 0 <= a < order.len() && order[a] == x;
        assert(o[a] == x && o[order.len() as int] == r);
    }
    assert(o[order.len() as int] == r);
}

proof fn lemma_follows_order_push(seg: Seq<VocabItem>, order: Seq<CardRef>, r: CardRef, it: VocabItem)
    requires
        follows_order(seg, order),
        item_ref(it) == r,
    ensures
        follows_order(seg, order.push(r)),
        follows_order(seg.push(it), order.push(r)),
{
    let o = order.push(r);
    lemma_appears_push(order, r);
    let s2 = seg.push(it);
    assert forall|i: int| 0 <= i < s2.len() implies appears_in(o, item_ref(#[trigger] s2[i])) by {
        if i < seg.len() {
            assert(s2[i] == seg[i]);
        }
    }
    assert forall|i: int, j: int| 0 <= i < j < s2.len() implies appears_before(
        o,
        item_ref(#[trigger] s2[i]),
        item_ref(#[trigger] s2[j]),
    ) by {
        assert(s2[i] == seg[i]);
        if j < seg.len() {
            assert(s2[j] == seg[j]);
        }
    }
}

proof fn lemma_plan_follows_order(
    ds: Seq<DatasetView>,
    order: Seq<CardRef>,
    mode: FilterMode,
    now: Timestamp,
    limit: Option<usize>,
    memorize: bool,
    memorize_reversed: bool,
)
    ensures
        ({
            let p = plan_of(ds, order, mode, now, limit, memorize, memorize_reversed);
            &&& follows_order(p.memorize, order)
            &&& follows_order(p.forward, order)
            &&& follows_order(p.reverse, order)
        }),
    decreases order.len(),
{
    if order.len() > 0 {
        let o0 = order.drop_last();
        let r = order.last();
        assert(o0.push(r) =~= order);
        lemma_plan_follows_order(ds, o0, mode, now, limit, memorize, memorize_reversed);
        let p0 = plan_of(ds, o0, mode, now, limit, memorize, memorize_reversed);
        lemma_follows_order_push(
            p0.memorize,
            o0,
            r,
            VocabItem { dataset: r.0, card: r.1, reverse: memorize_reversed, memorization_card: true },
        );
        lemma_follows_order_push(
            p0.forward,
            o0,
            r,
            VocabItem { dataset: r.0, card: r.1, reverse: false, memorization_card: false },
        );
        lemma_follows_order_push(
            p0.reverse,
            o0,
            r,
            VocabItem { dataset: r.0, card: r.1, reverse: true, memorization_card: false },
        );
    } else {
        let p = plan_of(ds, order, mode, now, limit, memorize, memorize_reversed);
        assert(p.memorize.len() == 0 && p.forward.len() == 0 && p.reverse.len() == 0);
    }
}

proof fn lemma_part_sorted(ds: Seq<DatasetView>, seg: Seq<VocabItem>, order: Seq<CardRef>)
    requires
        follows_order(seg, order),
        sorted_stably(ds, order),
    ensures
        forall|i: int, j: int|
            0 <= i < j < seg.len() ==> !sorts_after(
                meta_at(ds, item_ref(#[trigger] seg[i])),
                meta_at(ds, item_ref(#[trigger] seg[j])),
            ) && (sorts_after(meta_at(ds, item_ref(seg[j])), meta_at(ds, item_ref(seg[i])))
                || ref_before(item_ref(seg[i]), item_ref(seg[j]))),
{
    assert forall|i: int, j: int| 0 <= i < j < seg.len() implies !sorts_after(
        meta_at(ds, item_ref(#[trigger] seg[i])),
        meta_at(ds, item_ref(#[trigger] seg[j])),
    ) && (sorts_after(meta_at(ds, item_ref(seg[j])), meta_at(ds, item_ref(seg[i]))) || ref_before(
        item_ref(seg[i]),
        item_ref(seg[j]),
    )) by {
        assert(appears_before(order, item_ref(seg[i]), item_ref(seg[j])));
        let (a, b) = choose|a: int, b: int|
            0 <= a < b < order.len() && order[a] == item_ref(seg[i]) && order[b] == item_ref(seg[j]);
        assert(!sorts_after(meta_at(ds, order[a]), meta_at(ds, order[b])));
    }
}

/// With sorting on, each part of the starting queue (exposures, forward
/// items, reverse items) lists its cards new ones first, then by forward due
/// date, cards of equal rank in file order.
pub proof fn lemma_sorted_queue_parts(
    ds: Seq<DatasetView>,
    mode: FilterMode,
    limit: Option<usize>,
    memorize: bool,
    memorize_reversed: bool,
    now: Timestamp,
)
    requires
        ds.len() <= usize::MAX,
        forall|d: int| 0 <= d < ds.len() ==> #[trigger] ds[d].cards.len() <= usize::MAX,
    ensures
        ({
            let p = plan_of(ds, queue_order(ds, true), mode, now, limit, memorize, memorize_reversed);
            &&& initial_queue(ds, mode, true, limit, memorize, memorize_reversed, now) == p.memorize
                + p.forward + p.reverse
            &&& forall|i: int, j: int|
                0 <= i < j < p.forward.len() ==> !sorts_after(
                    meta_at(ds, item_ref(#[trigger] p.forward[i])),
                    meta_at(ds, item_ref(#[trigger] p.forward[j])),
                ) && (sorts_after(
                    meta_at(ds, item_ref(p.forward[j])),
                    meta_at(ds, item_ref(p.forward[i])),
                ) || ref_before(item_ref(p.forward[i]), item_ref(p.forward[j])))
            &&& forall|i: int, j: int|
                0 <= i < j < p.reverse.len() ==> !sorts_after(
                    meta_at(ds, item_ref(#[trigger] p.reverse[i])),
                    meta_at(ds, item_ref(#[trigger] p.reverse[j])),
                ) && (sorts_after(
                    meta_at(ds, item_ref(p.reverse[j])),
                    meta_at(ds, item_ref(p.reverse[i])),
                ) || ref_before(item_ref(p.reverse[i]), item_ref(p.reverse[j])))
            &&& forall|i: int, j: int|
                0 <= i < j < p.memorize.len() ==> !sorts_after(
                    meta_at(ds, item_ref(#[trigger] p.memorize[i])),
                    meta_at(ds, item_ref(#[trigger] p.memorize[j])),
                ) && (sorts_after(
                    meta_at(ds, item_ref(p.memorize[j])),
                    meta_at(ds, item_ref(p.memorize[i])),
                ) || ref_before(item_ref(p.memorize[i]), item_ref(p.memorize[j])))
        }),
{
    let order = queue_order(ds, true);
    lemma_sorted_order(ds);
    lemma_plan_follows_order(ds, order, mode, now, limit, memorize, memorize_reversed);
    let p = plan_of(ds, order, mode, now, limit, memorize, memorize_reversed);
    lemma_part_sorted(ds, p.memorize, order);
    lemma_part_sorted(ds, p.forward, order);
    lemma_part_sorted(ds, p.reverse, order);
}

/// With a limit of `limit` cards, the items of the starting queue name at
/// most `limit` distinct cards, whatever directions and exposures they add.
pub proof fn lemma_limit_bounds_cards(
    ds: Seq<DatasetView>,
    mode: FilterMode,
    sorted: bool,
    limit: usize,
    memorize: bool,
    memorize_reversed: bool,
    now: Timestamp,
)
    ensures
        queued_cards(
            initial_queue(ds, mode, sorted, Some(limit), memorize, memorize_reversed, now),
        ).finite(),
        queued_cards(
            initial_queue(ds, mode, sorted, Some(limit), memorize, memorize_reversed, now),
        ).len() <= limit,
{
    let order = queue_order(ds, sorted);
    let p = plan_of(ds, order, mode, now, Some(limit), memorize, memorize_reversed);
    let q = initial_queue(ds, mode, sorted, Some(limit), memorize, memorize_reversed, now);
    lemma_plan_facts(ds, order, mode, now, Some(limit), memorize, memorize_reversed);
    assert(q == p.memorize + p.forward + p.reverse);
    assert(queued_cards(q).subset_of(p.used.to_set())) by {
        assert forall|r: CardRef| queued_cards(q).contains(r) implies p.used.to_set().contains(r) by {
            let i = choose|i: int| 0 <= i < q.len() && item_ref(q[i]) == r;
            if i < p.memorize.len() {
                assert(q[i] == p.memorize[i]);
            } else if i < p.memorize.len() + p.forward.len() {
                assert(q[i] == p.forward[i - p.memorize.len()]);
            } else {
                assert(q[i] == p.reverse[i - p.memorize.len() - p.forward.len()]);
            }
        }
    }
    p.used.lemma_cardinality_of_set();
    vstd::set_lib::lemma_len_subset(queued_cards(q), p.used.to_set());
}

/// Filter mode `Seen` queues no card without metadata, and `Unseen` no card
/// with metadata.
pub proof fn lemma_filter_mode_respected(
    ds: Seq<DatasetView>,
    mode: FilterMode,
    sorted: bool,
    limit: Option<usize>,
    memorize: bool,
    memorize_reversed: bool,
    now: Timestamp,
)
    ensures
        ({
            let q = initial_queue(ds, mode, sorted, limit, memorize, memorize_reversed, now);
            &&& mode == FilterMode::Seen ==> forall|i: int|
                0 <= i < q.len() ==> meta_at(ds, item_ref(#[trigger] q[i])) is Some
            &&& mode == FilterMode::Unseen ==> forall|i: int|
                0 <= i < q.len() ==> meta_at(ds, item_ref(#[trigger] q[i])) is None
        }),
{
    let order = queue_order(ds, sorted);
    let p = plan_of(ds, order, mode, now, limit, memorize, memorize_reversed);
    let q = initial_queue(ds, mode, sorted, limit, memorize, memorize_reversed, now);
    lemma_plan_facts(ds, order, mode, now, limit, memorize, memorize_reversed);
    assert forall|i: int| 0 <= i < q.len() implies (mode == FilterMode::Seen ==> meta_at(
        ds,
        item_ref(#[trigger] q[i]),
    ) is Some) && (mode == FilterMode::Unseen ==> meta_at(ds, item_ref(q[i])) is None) by {
        if i < p.memorize.len() {
            assert(q[i] == p.memorize[i]);
        } else if i < p.memorize.len() + p.forward.len() {
            assert(q[i] == p.forward[i - p.memorize.len()]);
        } else {
            assert(q[i] == p.reverse[i - p.memorize.len() - p.forward.len()]);
        }
    }
}

/// After a graded answer the card's deck in that direction lies on the
/// ladder: a correct answer never lifts it above the top deck, and a wrong
/// one never takes it below deck 0.
pub proof fn lemma_answer_keeps_deck_on_ladder(
    s: SessionView,
    correct: bool,
    ladder: Seq<DeckInverval>,
    now: Timestamp,
)
    requires
        s.wf(),
        s.queue.len() > 0,
        !s.queue[0].memorization_card,
        1 <= ladder.len() <= 256,
    ensures
        ({
            let it = s.queue[0];
            let m = meta_at(s.advanced(correct, ladder, now).datasets, item_ref(it));
            &&& m is Some
            &&& 0 <= m->0.deck_of(it.reverse) <= ladder.len() - 1
        }),
{
    assert(ref_valid(s.datasets, item_ref(s.queue[0])));
}

/// A wrong graded answer leaves the queue length and the progress as they
/// were; a correct one shortens the queue by one and advances the progress
/// by one.
pub proof fn lemma_answer_progress(
    s: SessionView,
    correct: bool,
    ladder: Seq<DeckInverval>,
    now: Timestamp,
)
    requires
        s.wf(),
        s.queue.len() > 0,
        !s.queue[0].memorization_card,
    ensures
        ({
            let t = s.advanced(correct, ladder, now);
            &&& t.total_due == s.total_due
            &&& correct ==> t.queue.len() == s.queue.len() - 1 && t.progress() == s.progress() + 1
            &&& !correct ==> t.queue.len() == s.queue.len() && t.progress() == s.progress()
        }),
{
}

/// An exposure leaves the queue whether it is answered or skipped, and in
/// both cases its card ends in the default seen state.
pub proof fn lemma_exposure_leaves_queue(
    s: SessionView,
    correct: bool,
    ladder: Seq<DeckInverval>,
    now: Timestamp,
)
    requires
        s.wf(),
        s.queue.len() > 0,
        s.queue[0].memorization_card,
    ensures
        ({
            let it = s.queue[0];
            let a = s.advanced(correct, ladder, now);
            let k = s.skipped();
            &&& a.queue == s.queue.drop_first()
            &&& k.queue == s.queue.drop_first()
            &&& meta_at(a.datasets, item_ref(it)) == Some(VocabMetadata::default_spec())
            &&& meta_at(k.datasets, item_ref(it)) == Some(VocabMetadata::default_spec())
        }),
{
    assert(ref_valid(s.datasets, item_ref(s.queue[0])));
}

} // verus!
