//! The review-outcome transition: how one review reschedules a card.
//!
//! A remembered card has its interval doubled, with a floor of one day, so the
//! schedule grows without bound while recall holds. A forgotten card is reset
//! to a fixed one-hour back-off, whatever its interval was, so it is re-tested
//! soon but not immediately.

use vstd::prelude::*;

use crate::model::card_wf;
use crate::model::content_unchanged;
use crate::model::AppError;
use crate::model::Flashcard;
use crate::model::FlashcardAnswer;
use crate::model::FlashcardModel;
use crate::model::ReviewHistory;
use crate::schedule::deck_view;
use crate::schedule::is_due;

verus! {

/// The smallest interval a remembered card is rescheduled with: one day.
pub const MIN_INTERVAL_SECS: i64 = 86400;

/// The fixed back-off after a forgotten card: one hour.
pub const FAILURE_INTERVAL_SECS: i64 = 3600;

/// The interval that one outcome schedules next: doubling with a one-day
/// floor on success, the fixed back-off on failure.
pub open spec fn next_interval(current: int, outcome: FlashcardAnswer) -> int {
    match outcome {
        FlashcardAnswer::Remember => if 2 * current >= MIN_INTERVAL_SECS as int {
            2 * current
        } else {
            MIN_INTERVAL_SECS as int
        },
        FlashcardAnswer::Not => FAILURE_INTERVAL_SECS as int,
    }
}

/// The whole effect of one review at time `now`: the interval moves to
/// `next_interval`, the review time moves to `now`, the content stays.
pub open spec fn transitioned(
    pre: FlashcardModel,
    post: FlashcardModel,
    outcome: FlashcardAnswer,
    now: int,
) -> bool {
    &&& content_unchanged(pre, post)
    &&& post.last_reviewed == now
    &&& post.review_after_secs == next_interval(pre.review_after_secs, outcome)
}

/// The model of the card that `apply_outcome` returns.
pub open spec fn applied(pre: FlashcardModel, outcome: FlashcardAnswer, now: int) -> FlashcardModel {
    FlashcardModel {
        last_reviewed: now,
        review_after_secs: next_interval(pre.review_after_secs, outcome),
        ..pre
    }
}

/// A card holds an index `k` as the first position carrying `id`.
pub open spec fn first_index_with_id(s: Seq<FlashcardModel>, id: int, k: int) -> bool {
    &&& 0 <= k < s.len()
    &&& s[k].id == id
    &&& forall|j: int| 0 <= j < k ==> (#[trigger] s[j]).id != id
}

/// Reschedules one card after a review at time `now`.
pub fn apply_outcome(card: Flashcard, outcome: FlashcardAnswer, now: i64) -> (r: Flashcard)
    requires
        card_wf(card@),
        card@.review_after_secs <= i64::MAX / 2,
    ensures
        r@ == applied(card@, outcome, now as int),
        transitioned(card@, r@, outcome, now as int),
        card_wf(r@),
{
    let new_interval: i64 = match outcome {
        FlashcardAnswer::Remember => {
            let doubled = card.review_after_secs * 2;
            if doubled >= MIN_INTERVAL_SECS {
                doubled
            } else {
                MIN_INTERVAL_SECS
            }
        },
        FlashcardAnswer::Not => FAILURE_INTERVAL_SECS,
    };
    let r = Flashcard {
        last_reviewed: now,
        review_after_secs: new_interval,
        ..card
    };
    proof {
        assert(r@ =~= applied(card@, outcome, now as int));
    }
    r
}

/// Applies an outcome to the first card with the given id, in place. Every
/// other card is untouched. An id that the snapshot does not hold yields
/// `NotFound` and changes nothing.
pub fn apply_outcome_by_id(
    items: &mut Vec<Flashcard>,
    card_id: i64,
    outcome: FlashcardAnswer,
    now: i64,
) -> (r: Result<(), AppError>)
    requires
        forall|k: int| 0 <= k < old(items)@.len()
            ==> card_wf(#[trigger] deck_view(old(items)@)[k])
                && deck_view(old(items)@)[k].review_after_secs <= i64::MAX / 2,
    ensures
        r is Ok <==> exists|k: int|
            0 <= k < deck_view(old(items)@).len()
                && (#[trigger] deck_view(old(items)@)[k]).id == card_id as int,
        r is Err ==> r->Err_0 == AppError::NotFound
            && deck_view(final(items)@) == deck_view(old(items)@),
        forall|k: int| first_index_with_id(deck_view(old(items)@), card_id as int, k)
            ==> deck_view(final(items)@) == deck_view(old(items)@).update(
                k,
                applied(deck_view(old(items)@)[k], outcome, now as int),
            ),
{
    let mut i: usize = 0;
    while i < items.len()
        invariant
            i <= items.len(),
            items@ == old(items)@,
            forall|j: int| 0 <= j < i ==> (#[trigger] deck_view(items@)[j]).id != card_id as int,
            forall|k: int| 0 <= k < old(items)@.len()
                ==> card_wf(#[trigger] deck_view(old(items)@)[k])
                    && deck_view(old(items)@)[k].review_after_secs <= i64::MAX / 2,
        decreases items.len() - i,
    {
        if items[i].id == card_id {
            let ghost dv0 = deck_view(old(items)@);
            proof {
                assert(card_wf(deck_view(old(items)@)[i as int]));
                assert(dv0[i as int] == items@[i as int]@);
            }
            let card = items.remove(i);
            proof {
                assert(card@ == dv0[i as int]);
            }
            let updated = apply_outcome(card, outcome, now);
            let ghost um = updated@;
            items.insert(i, updated);
            proof {
                assert(first_index_with_id(dv0, card_id as int, i as int));
                assert(deck_view(items@) =~= dv0.update(i as int, um)) by {
                    assert forall|k: int| 0 <= k < deck_view(items@).len()
                        implies deck_view(items@)[k] == dv0.update(i as int, um)[k] by {
                        assert(items@ == old(items)@.remove(i as int).insert(
                            i as int,
                            items@[i as int],
                        ));
                        if k < i {
                            assert(items@[k] == old(items)@[k]);
                        } else if k == i {
                            assert(items@[k]@ == um);
                        } else {
                            assert(items@[k] == old(items)@[k]);
                        }
                    }
                }
                assert forall|k: int| first_index_with_id(dv0, card_id as int, k)
                    implies deck_view(items@) == dv0.update(
                        k,
                        applied(dv0[k], outcome, now as int),
                    ) by {
                    assert(k == i as int);
                }
            }
            return Ok(());
        }
        i = i + 1;
    }
    proof {
        assert forall|k: int| 0 <= k < deck_view(old(items)@).len()
            implies (#[trigger] deck_view(old(items)@)[k]).id != card_id as int by {
            assert(deck_view(items@)[k].id != card_id as int);
        }
    }
    Err(AppError::NotFound)
}

/// The history entry that one review at time `now` leaves behind.
pub fn review_record(card_id: i64, outcome: FlashcardAnswer, now: i64) -> (r: ReviewHistory)
    ensures
        r.flashcard_id == card_id,
        r.review_date == now,
        r.remembered == (outcome == FlashcardAnswer::Remember),
{
    ReviewHistory {
        flashcard_id: card_id,
        review_date: now,
        remembered: matches!(outcome, FlashcardAnswer::Remember),
    }
}

/// The doubling law: from a zero interval, one remembered review schedules the
/// minimum interval, a second doubles it, a third doubles it again — whatever
/// the times of the three reviews.
pub proof fn lemma_doubling_from_zero(
    c0: FlashcardModel,
    c1: FlashcardModel,
    c2: FlashcardModel,
    c3: FlashcardModel,
    t1: int,
    t2: int,
    t3: int,
)
    requires
        c0.review_after_secs == 0,
        transitioned(c0, c1, FlashcardAnswer::Remember, t1),
        transitioned(c1, c2, FlashcardAnswer::Remember, t2),
        transitioned(c2, c3, FlashcardAnswer::Remember, t3),
    ensures
        c1.review_after_secs == MIN_INTERVAL_SECS as int,
        c2.review_after_secs == 2 * MIN_INTERVAL_SECS as int,
        c3.review_after_secs == 4 * MIN_INTERVAL_SECS as int,
{
}

/// The failure reset law: a forgotten review yields exactly the fixed
/// back-off, whatever the interval was before.
pub proof fn lemma_failure_resets(pre: FlashcardModel, post: FlashcardModel, t: int)
    requires
        transitioned(pre, post, FlashcardAnswer::Not, t),
    ensures
        post.review_after_secs == FAILURE_INTERVAL_SECS as int,
{
}

/// Applying a remembered outcome is not idempotent: a second application at
/// the same instant still grows the interval, so a double submission differs
/// from a single one.
pub proof fn lemma_remember_twice_differs(
    c0: FlashcardModel,
    c1: FlashcardModel,
    c2: FlashcardModel,
    t: int,
)
    requires
        card_wf(c0),
        transitioned(c0, c1, FlashcardAnswer::Remember, t),
        transitioned(c1, c2, FlashcardAnswer::Remember, t),
    ensures
        c2.review_after_secs > c1.review_after_secs,
        c2 != c1,
{
    assert(c1.review_after_secs >= MIN_INTERVAL_SECS as int);
}

/// Once due, a card stays due until an outcome is applied: the due predicate
/// is monotonic in time.
pub proof fn lemma_due_is_monotonic(card: FlashcardModel, t1: int, t2: int)
    requires
        is_due(card, t1),
        t1 <= t2,
    ensures
        is_due(card, t2),
{
}

} // verus!
