//! The review scheduler: which items are due at a given time, and in what
//! order they should be reviewed.
//!
//! An item is due at time `now` exactly when `last_reviewed + review_after_secs
//! <= now`. Due items are reviewed in ascending order of that due time — the
//! longer an item has been overdue, the earlier it comes — with ties broken by
//! ascending id.

use vstd::prelude::*;
use vstd::seq_lib::*;

use crate::model::Flashcard;
use crate::model::FlashcardModel;
use crate::text::str_eq;

verus! {

broadcast use vstd::seq_lib::group_to_multiset_ensures;

/// The sequence of model values of a sequence of cards.
pub open spec fn deck_view(s: Seq<Flashcard>) -> Seq<FlashcardModel> {
    Seq::new(s.len(), |i: int| s[i]@)
}

/// The moment a card falls due: the end of its review interval.
pub open spec fn due_time(card: FlashcardModel) -> int {
    card.last_reviewed + card.review_after_secs
}

/// A card is due at `now` exactly when its due time has arrived or passed.
pub open spec fn is_due(card: FlashcardModel, now: int) -> bool {
    due_time(card) <= now
}

/// The review order: earlier due time first, ties broken by ascending id.
pub open spec fn key_le(a: FlashcardModel, b: FlashcardModel) -> bool {
    ||| due_time(a) < due_time(b)
    ||| (due_time(a) == due_time(b) && a.id <= b.id)
}

/// A sequence of cards stands in review order.
pub open spec fn sorted_for_review(s: Seq<FlashcardModel>) -> bool {
    forall|i: int, j: int| 0 <= i < j < s.len() ==> key_le(#[trigger] s[i], #[trigger] s[j])
}

/// A card carries the given tag.
pub open spec fn has_tag(card: FlashcardModel, tag: Seq<char>) -> bool {
    card.tags.contains(tag)
}

/// The due predicate at a fixed time, as a value to filter with.
pub open spec fn due_pred(now: int) -> spec_fn(FlashcardModel) -> bool {
    |m: FlashcardModel| is_due(m, now)
}

/// The due-and-tagged predicate at a fixed time, as a value to filter with.
pub open spec fn due_tag_pred(now: int, tag: Seq<char>) -> spec_fn(FlashcardModel) -> bool {
    |m: FlashcardModel| is_due(m, now) && has_tag(m, tag)
}

/// What `due_items` promises: the result holds exactly the due cards of the
/// input, in review order.
pub open spec fn due_items_post(items: Seq<FlashcardModel>, now: int, r: Seq<FlashcardModel>) -> bool {
    &&& r.to_multiset() == items.filter(due_pred(now)).to_multiset()
    &&& sorted_for_review(r)
    &&& forall|m: FlashcardModel|
        #![trigger r.contains(m)]
        #![trigger items.contains(m)]
        r.contains(m) <==> (items.contains(m) && is_due(m, now))
}

/// What `due_items_by_tag` promises: the result holds exactly the due cards
/// of the input that carry the tag, in the same review order.
pub open spec fn due_by_tag_post(
    items: Seq<FlashcardModel>,
    tag: Seq<char>,
    now: int,
    r: Seq<FlashcardModel>,
) -> bool {
    &&& r.to_multiset() == items.filter(due_tag_pred(now, tag)).to_multiset()
    &&& sorted_for_review(r)
    &&& forall|m: FlashcardModel|
        #![trigger r.contains(m)]
        #![trigger items.contains(m)]
        r.contains(m) <==> (items.contains(m) && is_due(m, now) && has_tag(m, tag))
}

/// Every due card of `items`, in review order.
pub fn due_items(items: &Vec<Flashcard>, now: i64) -> (r: Vec<Flashcard>)
    ensures
        due_items_post(deck_view(items@), now as int, deck_view(r@)),
{
    let ghost pred = due_pred(now as int);
    let due = due_filter(items, now);
    let r = sort_for_review(due);
    proof {
        lemma_filter_membership(deck_view(items@), pred);
        lemma_multiset_membership(deck_view(r@), deck_view(items@).filter(pred));
    }
    r
}

/// The next card to review: the first element of `due_items`, if any.
pub fn next_due_item(items: &Vec<Flashcard>, now: i64) -> (r: Option<Flashcard>)
    ensures
        match r {
            Some(x) => deck_view(items@).contains(x@) && is_due(x@, now as int)
                && forall|y: FlashcardModel|
                    deck_view(items@).contains(y) && is_due(y, now as int) ==> key_le(x@, y),
            None => forall|y: FlashcardModel|
                deck_view(items@).contains(y) ==> !is_due(y, now as int),
        },
{
    let mut best: usize = 0;
    let mut found = false;
    let mut i: usize = 0;
    while i < items.len()
        invariant
            i <= items.len(),
            found ==> best < i,
            found ==> is_due(deck_view(items@)[best as int], now as int),
            found ==> forall|j: int|
                0 <= j < i && is_due(#[trigger] deck_view(items@)[j], now as int)
                    ==> key_le(deck_view(items@)[best as int], deck_view(items@)[j]),
            !found ==> forall|j: int|
                0 <= j < i ==> !is_due(#[trigger] deck_view(items@)[j], now as int),
        decreases items.len() - i,
    {
        if is_due_exec(&items[i], now) {
            if !found {
                best = i;
                found = true;
            } else if !key_le_exec(&items[best], &items[i]) {
                best = i;
            }
        }
        i = i + 1;
    }
    if found {
        let x = items[best].clone();
        proof {
            assert(deck_view(items@).contains(x@)) by {
                assert(deck_view(items@)[best as int] == x@);
            }
            assert forall|y: FlashcardModel|
                deck_view(items@).contains(y) && is_due(y, now as int) implies key_le(x@, y) by {
                let j = choose|j: int| 0 <= j < deck_view(items@).len() && deck_view(items@)[j] == y;
                assert(key_le(deck_view(items@)[best as int], deck_view(items@)[j]));
            }
        }
        Some(x)
    } else {
        proof {
            assert forall|y: FlashcardModel|
                deck_view(items@).contains(y) implies !is_due(y, now as int) by {
                let j = choose|j: int| 0 <= j < deck_view(items@).len() && deck_view(items@)[j] == y;
                assert(!is_due(deck_view(items@)[j], now as int));
            }
        }
        None
    }
}

/// Every due card of `items` that carries `tag`, in review order.
pub fn due_items_by_tag(items: &Vec<Flashcard>, tag: &str, now: i64) -> (r: Vec<Flashcard>)
    ensures
        due_by_tag_post(deck_view(items@), tag@, now as int, deck_view(r@)),
{
    let ghost pred = due_tag_pred(now as int, tag@);
    let due = due_filter_by_tag(items, tag, now);
    let r = sort_for_review(due);
    proof {
        lemma_filter_membership(deck_view(items@), pred);
        lemma_multiset_membership(deck_view(r@), deck_view(items@).filter(pred));
    }
    r
}

/// The next card with the given tag to review, if any.
pub fn next_due_item_by_tag(items: &Vec<Flashcard>, tag: &str, now: i64) -> (r: Option<Flashcard>)
    ensures
        match r {
            Some(x) => deck_view(items@).contains(x@) && is_due(x@, now as int)
                && has_tag(x@, tag@)
                && forall|y: FlashcardModel|
                    deck_view(items@).contains(y) && is_due(y, now as int) && has_tag(y, tag@)
                        ==> key_le(x@, y),
            None => forall|y: FlashcardModel|
                deck_view(items@).contains(y) && has_tag(y, tag@) ==> !is_due(y, now as int),
        },
{
    let mut best: usize = 0;
    let mut found = false;
    let mut i: usize = 0;
    while i < items.len()
        invariant
            i <= items.len(),
            found ==> best < i,
            found ==> is_due(deck_view(items@)[best as int], now as int)
                && has_tag(deck_view(items@)[best as int], tag@),
            found ==> forall|j: int|
                0 <= j < i && is_due(#[trigger] deck_view(items@)[j], now as int)
                    && has_tag(deck_view(items@)[j], tag@)
                    ==> key_le(deck_view(items@)[best as int], deck_view(items@)[j]),
            !found ==> forall|j: int|
                0 <= j < i
                    ==> !(is_due(#[trigger] deck_view(items@)[j], now as int)
                        && has_tag(deck_view(items@)[j], tag@)),
        decreases items.len() - i,
    {
        if is_due_exec(&items[i], now) && has_tag_exec(&items[i], tag) {
            if !found {
                best = i;
                found = true;
            } else if !key_le_exec(&items[best], &items[i]) {
                best = i;
            }
        }
        i = i + 1;
    }
    if found {
        let x = items[best].clone();
        proof {
            assert(deck_view(items@).contains(x@)) by {
                assert(deck_view(items@)[best as int] == x@);
            }
            assert forall|y: FlashcardModel|
                deck_view(items@).contains(y) && is_due(y, now as int) && has_tag(y, tag@)
                implies key_le(x@, y) by {
                let j = choose|j: int| 0 <= j < deck_view(items@).len() && deck_view(items@)[j] == y;
                assert(key_le(deck_view(items@)[best as int], deck_view(items@)[j]));
            }
        }
        Some(x)
    } else {
        proof {
            assert forall|y: FlashcardModel|
                deck_view(items@).contains(y) && has_tag(y, tag@)
                implies !is_due(y, now as int) by {
                let j = choose|j: int| 0 <= j < deck_view(items@).len() && deck_view(items@)[j] == y;
                assert(!(is_due(deck_view(items@)[j], now as int)
                    && has_tag(deck_view(items@)[j], tag@)));
            }
        }
        None
    }
}

/// Items that fell due longest ago come first: if two cards both appear in a
/// result of `due_items` and one's due time is strictly earlier, it stands at
/// a strictly earlier position.
pub proof fn lemma_longest_overdue_first(
    items: Seq<FlashcardModel>,
    now: int,
    r: Seq<FlashcardModel>,
    a: FlashcardModel,
    b: FlashcardModel,
)
    requires
        due_items_post(items, now, r),
        r.contains(a),
        r.contains(b),
        due_time(a) < due_time(b),
    ensures
        forall|i: int, j: int|
            0 <= i < r.len() && 0 <= j < r.len() && #[trigger] r[i] == a && #[trigger] r[j] == b
                ==> i < j,
{
    assert forall|i: int, j: int|
        0 <= i < r.len() && 0 <= j < r.len() && #[trigger] r[i] == a && #[trigger] r[j] == b
        implies i < j by {
        if i > j {
            assert(key_le(r[j], r[i]));
            assert(false);
        } else if i == j {
            assert(false);
        }
    }
}

/// Two cards stand at the same place in the review order.
pub open spec fn key_eq(a: FlashcardModel, b: FlashcardModel) -> bool {
    due_time(a) == due_time(b) && a.id == b.id
}

/// No two distinct cards share a place in the review order — what unique ids
/// give a snapshot.
pub open spec fn distinct_keys(s: Seq<FlashcardModel>) -> bool {
    forall|a: FlashcardModel, b: FlashcardModel|
        #![trigger s.contains(a), s.contains(b)]
        s.contains(a) && s.contains(b) && key_eq(a, b) ==> a == b
}

/// Breaking ties by id makes the review order deterministic: over a snapshot
/// whose cards have distinct scheduling keys, any two sequences that satisfy
/// the contract of `due_items` are equal.
pub proof fn lemma_review_order_deterministic(
    items: Seq<FlashcardModel>,
    now: int,
    r1: Seq<FlashcardModel>,
    r2: Seq<FlashcardModel>,
)
    requires
        distinct_keys(items),
        due_items_post(items, now, r1),
        due_items_post(items, now, r2),
    ensures
        r1 == r2,
{
    assert forall|a: FlashcardModel, b: FlashcardModel|
        #![trigger r1.contains(a), r1.contains(b)]
        r1.contains(a) && r1.contains(b) && key_eq(a, b) implies a == b by {
        assert(items.contains(a));
        assert(items.contains(b));
    }
    lemma_sorted_unique_under_distinct_keys(r1, r2);
}

/// Two sorted sequences holding the same cards, no two of which share a
/// scheduling key, are equal.
proof fn lemma_sorted_unique_under_distinct_keys(r1: Seq<FlashcardModel>, r2: Seq<FlashcardModel>)
    requires
        r1.to_multiset() == r2.to_multiset(),
        sorted_for_review(r1),
        sorted_for_review(r2),
        distinct_keys(r1),
    ensures
        r1 == r2,
    decreases r1.len(),
{
    broadcast use vstd::seq_lib::group_to_multiset_ensures;

    if r1.len() == 0 {
        assert(r1.to_multiset().len() == 0);
        assert(r2.len() == 0);
        assert(r1 =~= r2);
    } else {
        assert(r2.to_multiset().len() == r1.len());
        assert(r2.len() == r1.len());
        let x1 = r1[0];
        let x2 = r2[0];
        assert(r1.contains(x1));
        assert(r2.contains(x2));
        assert(r1.to_multiset().count(x1) > 0);
        assert(r2.to_multiset().count(x2) > 0);
        assert(r1.contains(x2));
        assert(r2.contains(x1));
        let i1 = choose|i: int| 0 <= i < r1.len() && r1[i] == x2;
        let i2 = choose|i: int| 0 <= i < r2.len() && r2[i] == x1;
        assert(key_le(x1, x2)) by {
            if i1 > 0 {
                assert(key_le(r1[0], r1[i1]));
            }
        }
        assert(key_le(x2, x1)) by {
            if i2 > 0 {
                assert(key_le(r2[0], r2[i2]));
            }
        }
        assert(key_eq(x1, x2));
        assert(x1 == x2);
        let t1 = r1.drop_first();
        let t2 = r2.drop_first();
        assert(t1.to_multiset() =~= r1.to_multiset().remove(x1)) by {
            assert(r1.remove(0) =~= t1);
            assert(r1.remove(0).to_multiset() =~= r1.to_multiset().remove(r1[0]));
        }
        assert(t2.to_multiset() =~= r2.to_multiset().remove(x2)) by {
            assert(r2.remove(0) =~= t2);
            assert(r2.remove(0).to_multiset() =~= r2.to_multiset().remove(r2[0]));
        }
        assert(sorted_for_review(t1)) by {
            assert forall|i: int, j: int| 0 <= i < j < t1.len()
                implies key_le(#[trigger] t1[i], #[trigger] t1[j]) by {
                assert(key_le(r1[i + 1], r1[j + 1]));
            }
        }
        assert(sorted_for_review(t2)) by {
            assert forall|i: int, j: int| 0 <= i < j < t2.len()
                implies key_le(#[trigger] t2[i], #[trigger] t2[j]) by {
                assert(key_le(r2[i + 1], r2[j + 1]));
            }
        }
        assert(distinct_keys(t1)) by {
            assert forall|a: FlashcardModel, b: FlashcardModel|
                #![trigger t1.contains(a), t1.contains(b)]
                t1.contains(a) && t1.contains(b) && key_eq(a, b) implies a == b by {
                let ia = choose|i: int| 0 <= i < t1.len() && t1[i] == a;
                let ib = choose|i: int| 0 <= i < t1.len() && t1[i] == b;
                assert(r1[ia + 1] == a);
                assert(r1[ib + 1] == b);
                assert(r1.contains(a));
                assert(r1.contains(b));
            }
        }
        lemma_sorted_unique_under_distinct_keys(t1, t2);
        assert(r1 =~= r2) by {
            assert forall|k: int| 0 <= k < r1.len() implies r1[k] == r2[k] by {
                if k > 0 {
                    assert(t1[k - 1] == t2[k - 1]);
                }
            }
        }
    }
}

fn is_due_exec(card: &Flashcard, now: i64) -> (r: bool)
    ensures
        r == is_due(card@, now as int),
{
    let due = card.last_reviewed as i128 + card.review_after_secs as i128;
    due <= now as i128
}

fn key_le_exec(a: &Flashcard, b: &Flashcard) -> (r: bool)
    ensures
        r == key_le(a@, b@),
{
    let da = a.last_reviewed as i128 + a.review_after_secs as i128;
    let db = b.last_reviewed as i128 + b.review_after_secs as i128;
    da < db || (da == db && a.id <= b.id)
}

fn has_tag_exec(card: &Flashcard, tag: &str) -> (r: bool)
    ensures
        r == has_tag(card@, tag@),
{
    let mut i: usize = 0;
    while i < card.tags.len()
        invariant
            i <= card.tags.len(),
            forall|k: int| 0 <= k < i ==> card@.tags[k] != tag@,
        decreases card.tags.len() - i,
    {
        if str_eq(card.tags[i].as_str(), tag) {
            assert(card@.tags[i as int] == tag@);
            return true;
        }
        i = i + 1;
    }
    false
}

/// The due cards of `items`, in input order.
fn due_filter(items: &Vec<Flashcard>, now: i64) -> (r: Vec<Flashcard>)
    ensures
        deck_view(r@) == deck_view(items@).filter(due_pred(now as int)),
{
    let ghost pred = due_pred(now as int);
    let mut r: Vec<Flashcard> = Vec::new();
    let mut i: usize = 0;
    proof {
        reveal(Seq::filter);
        assert(deck_view(r@) =~= deck_view(items@).subrange(0, 0).filter(pred));
    }
    while i < items.len()
        invariant
            i <= items.len(),
            deck_view(r@) == deck_view(items@).subrange(0, i as int).filter(
                due_pred(now as int),
            ),
        decreases items.len() - i,
    {
        let ghost prefix = deck_view(items@).subrange(0, i as int);
        let ghost prefix1 = deck_view(items@).subrange(0, i + 1 as int);
        let ghost old_rs = r@;
        if is_due_exec(&items[i], now) {
            let c = items[i].clone();
            let ghost cm = c@;
            r.push(c);
            proof {
                lemma_deck_view_push(old_rs, cm);
                assert(deck_view(r@) == deck_view(old_rs).push(cm)) by {
                    assert(r@ == old_rs.push(r@[old_rs.len() as int]));
                }
            }
        }
        proof {
            reveal(Seq::filter);
            assert(prefix1.drop_last() =~= prefix);
            assert(prefix1.last() == deck_view(items@)[i as int]);
            assert(deck_view(r@) =~= prefix1.filter(due_pred(now as int)));
        }
        i = i + 1;
    }
    proof {
        assert(deck_view(items@).subrange(0, items@.len() as int) =~= deck_view(items@));
    }
    r
}

/// The due cards of `items` carrying `tag`, in input order.
fn due_filter_by_tag(items: &Vec<Flashcard>, tag: &str, now: i64) -> (r: Vec<Flashcard>)
    ensures
        deck_view(r@) == deck_view(items@).filter(due_tag_pred(now as int, tag@)),
{
    let ghost pred = due_tag_pred(now as int, tag@);
    let mut r: Vec<Flashcard> = Vec::new();
    let mut i: usize = 0;
    proof {
        reveal(Seq::filter);
        assert(deck_view(r@) =~= deck_view(items@).subrange(0, 0).filter(pred));
    }
    while i < items.len()
        invariant
            i <= items.len(),
            deck_view(r@) == deck_view(items@).subrange(0, i as int).filter(
                due_tag_pred(now as int, tag@),
            ),
        decreases items.len() - i,
    {
        let ghost prefix = deck_view(items@).subrange(0, i as int);
        let ghost prefix1 = deck_view(items@).subrange(0, i + 1 as int);
        let ghost old_rs = r@;
        if is_due_exec(&items[i], now) && has_tag_exec(&items[i], tag) {
            let c = items[i].clone();
            let ghost cm = c@;
            r.push(c);
            proof {
                lemma_deck_view_push(old_rs, cm);
                assert(deck_view(r@) == deck_view(old_rs).push(cm)) by {
                    assert(r@ == old_rs.push(r@[old_rs.len() as int]));
                }
            }
        }
        proof {
            reveal(Seq::filter);
            assert(prefix1.drop_last() =~= prefix);
            assert(prefix1.last() == deck_view(items@)[i as int]);
            assert(deck_view(r@) =~= prefix1.filter(due_tag_pred(now as int, tag@)));
        }
        i = i + 1;
    }
    proof {
        assert(deck_view(items@).subrange(0, items@.len() as int) =~= deck_view(items@));
    }
    r
}

/// Reorders `v` into review order; the cards themselves are kept exactly.
fn sort_for_review(v: Vec<Flashcard>) -> (r: Vec<Flashcard>)
    ensures
        deck_view(r@).to_multiset() == deck_view(v@).to_multiset(),
        sorted_for_review(deck_view(r@)),
{
    let ghost orig = deck_view(v@);
    let mut rest = v;
    let mut out: Vec<Flashcard> = Vec::new();
    proof {
        assert(deck_view(out@) =~= Seq::<FlashcardModel>::empty());
        assert(deck_view(out@).to_multiset().add(deck_view(rest@).to_multiset())
            =~= orig.to_multiset());
    }
    while rest.len() > 0
        invariant
            deck_view(out@).to_multiset().add(deck_view(rest@).to_multiset())
                == orig.to_multiset(),
            sorted_for_review(deck_view(out@)),
            forall|a: FlashcardModel, b: FlashcardModel|
                #[trigger] deck_view(out@).contains(a) && #[trigger] deck_view(rest@).contains(b)
                    ==> key_le(a, b),
        decreases rest.len(),
    {
        let ghost old_out = deck_view(out@);
        let ghost old_rest = deck_view(rest@);
        let ghost old_rest_s = rest@;
        let ghost old_out_s = out@;
        let m = min_index(&rest);
        let x = rest.remove(m);
        let ghost xm = x@;
        out.push(x);
        proof {
            lemma_deck_view_remove(old_rest_s, m as int);
            assert(deck_view(rest@) == old_rest.remove(m as int));
            lemma_deck_view_push(old_out_s, xm);
            assert(deck_view(out@) == old_out.push(xm)) by {
                assert(out@ == old_out_s.push(out@[old_out_s.len() as int]));
            }
            assert(old_rest[m as int] == xm);
            assert(old_rest.remove(m as int).to_multiset() =~= old_rest.to_multiset().remove(xm));
            assert(old_rest.contains(xm));
            assert(old_rest.to_multiset().count(xm) > 0);
            assert(deck_view(out@).to_multiset().add(deck_view(rest@).to_multiset())
                =~= orig.to_multiset());
            // the pushed card keeps the output sorted: everything already in
            // the output is key_le the minimum of the remainder
            assert forall|a: FlashcardModel, b: FlashcardModel|
                #[trigger] deck_view(out@).contains(a) && #[trigger] deck_view(rest@).contains(b)
                implies key_le(a, b) by {
                let jb = choose|j: int|
                    0 <= j < deck_view(rest@).len() && deck_view(rest@)[j] == b;
                assert(old_rest.remove(m as int)[jb] == b);
                assert(old_rest.contains(b)) by {
                    if jb < m {
                        assert(old_rest[jb] == b);
                    } else {
                        assert(old_rest[jb + 1] == b);
                    }
                }
                let kb = choose|k: int| 0 <= k < old_rest.len() && old_rest[k] == b;
                if old_out.contains(a) {
                    assert(key_le(a, b));
                } else {
                    let ja = choose|j: int|
                        0 <= j < deck_view(out@).len() && deck_view(out@)[j] == a;
                    assert(a == xm);
                    assert(key_le(old_rest[m as int], old_rest[kb]));
                }
            }
            assert forall|i: int, j: int|
                0 <= i < j < deck_view(out@).len()
                implies key_le(deck_view(out@)[i], deck_view(out@)[j]) by {
                if j < old_out.len() {
                    assert(key_le(old_out[i], old_out[j]));
                } else {
                    assert(deck_view(out@)[j] == xm);
                    assert(old_out.contains(old_out[i]));
                    assert(old_rest.contains(xm));
                    assert(key_le(old_out[i], xm));
                }
            }
        }
    }
    proof {
        assert(deck_view(rest@) =~= Seq::<FlashcardModel>::empty());
        assert(deck_view(out@).to_multiset().add(deck_view(rest@).to_multiset())
            =~= deck_view(out@).to_multiset());
    }
    out
}

/// An index of a minimal card of `v` in the review order.
fn min_index(v: &Vec<Flashcard>) -> (m: usize)
    requires
        v@.len() > 0,
    ensures
        m < v@.len(),
        forall|j: int| 0 <= j < v@.len()
            ==> key_le(deck_view(v@)[m as int], #[trigger] deck_view(v@)[j]),
{
    let mut m: usize = 0;
    let mut i: usize = 1;
    while i < v.len()
        invariant
            m < i <= v.len(),
            forall|j: int| 0 <= j < i
                ==> key_le(deck_view(v@)[m as int], #[trigger] deck_view(v@)[j]),
        decreases v.len() - i,
    {
        if !key_le_exec(&v[m], &v[i]) {
            m = i;
        }
        i = i + 1;
    }
    m
}

/// `deck_view` commutes with `push`.
proof fn lemma_deck_view_push(s: Seq<Flashcard>, xm: FlashcardModel)
    ensures
        forall|x: Flashcard| x@ == xm ==> deck_view(#[trigger] s.push(x)) == deck_view(s).push(xm),
{
    assert forall|x: Flashcard| x@ == xm
        implies deck_view(#[trigger] s.push(x)) == deck_view(s).push(xm) by {
        assert forall|k: int| 0 <= k < deck_view(s.push(x)).len()
            implies deck_view(s.push(x))[k] == deck_view(s).push(xm)[k] by {
            if k < s.len() {
                assert(s.push(x)[k] == s[k]);
            } else {
                assert(s.push(x)[k] == x);
            }
        }
        assert(deck_view(s.push(x)) =~= deck_view(s).push(xm));
    }
}

/// `deck_view` commutes with `remove`.
proof fn lemma_deck_view_remove(s: Seq<Flashcard>, i: int)
    requires
        0 <= i < s.len(),
    ensures
        deck_view(s.remove(i)) == deck_view(s).remove(i),
{
    assert forall|k: int| 0 <= k < deck_view(s.remove(i)).len()
        implies deck_view(s.remove(i))[k] == deck_view(s).remove(i)[k] by {
        if k < i {
            assert(s.remove(i)[k] == s[k]);
        } else {
            assert(s.remove(i)[k] == s[k + 1]);
        }
    }
    assert(deck_view(s.remove(i)) =~= deck_view(s).remove(i));
}

/// The members of a filtered sequence are exactly the members of the original
/// that satisfy the predicate.
proof fn lemma_filter_membership<A>(s: Seq<A>, pred: spec_fn(A) -> bool)
    ensures
        forall|x: A| #[trigger] s.filter(pred).contains(x) <==> (s.contains(x) && pred(x)),
    decreases s.len(),
{
    reveal(Seq::filter);
    if s.len() == 0 {
    } else {
        lemma_filter_membership(s.drop_last(), pred);
        assert forall|x: A| s.contains(x) implies (s.drop_last().contains(x) || x == s.last()) by {
            let i = choose|i: int| 0 <= i < s.len() && s[i] == x;
            if i < s.len() - 1 {
                assert(s.drop_last()[i] == x);
            }
        }
        assert forall|x: A| s.drop_last().contains(x) implies s.contains(x) by {
            let i = choose|i: int| 0 <= i < s.drop_last().len() && s.drop_last()[i] == x;
            assert(s[i] == x);
        }
        assert(s.contains(s.last())) by {
            assert(s[s.len() - 1] == s.last());
        }
        let q = s.drop_last().filter(pred);
        if pred(s.last()) {
            assert(s.filter(pred) == q.push(s.last()));
            assert forall|x: A| #[trigger] s.filter(pred).contains(x)
                implies (s.contains(x) && pred(x)) by {
                let i = choose|i: int| 0 <= i < s.filter(pred).len() && s.filter(pred)[i] == x;
                if i < q.len() {
                    assert(q.push(s.last())[i] == q[i]);
                    assert(q.contains(x));
                } else {
                    assert(q.push(s.last())[i] == s.last());
                }
            }
            assert forall|x: A| s.contains(x) && pred(x) implies s.filter(pred).contains(x) by {
                if x == s.last() {
                    assert(q.push(s.last())[q.len() as int] == x);
                } else {
                    assert(q.contains(x));
                    let i = choose|i: int| 0 <= i < q.len() && q[i] == x;
                    assert(q.push(s.last())[i] == x);
                }
            }
        } else {
            assert(s.filter(pred) == q);
            assert forall|x: A| s.contains(x) && pred(x) implies s.filter(pred).contains(x) by {
                assert(x != s.last());
                assert(s.drop_last().contains(x));
            }
        }
    }
}

/// Two sequences with equal multisets have the same members.
proof fn lemma_multiset_membership<A>(x: Seq<A>, y: Seq<A>)
    requires
        x.to_multiset() == y.to_multiset(),
    ensures
        forall|m: A| x.contains(m) <==> y.contains(m),
{
    assert forall|m: A| x.contains(m) <==> y.contains(m) by {
        assert(x.contains(m) <==> x.to_multiset().count(m) > 0);
        assert(y.contains(m) <==> y.to_multiset().count(m) > 0);
    }
}

} // verus!
