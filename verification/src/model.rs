//! The reviewable item and the types surrounding it.
//!
//! Timestamps are plain Unix seconds and durations are plain seconds, so that
//! every scheduling computation is arithmetic the verifier can reason about.
//! Converting to and from a calendar representation is the caller's concern.

use vstd::prelude::*;

verus! {

/// A single reviewable item.
///
/// The scheduling state is `last_reviewed` (Unix seconds of the most recent
/// review, or of creation if never reviewed) and `review_after_secs` (how many
/// seconds after `last_reviewed` the item falls due again). Everything else is
/// content that scheduling passes through untouched.
pub struct Flashcard {
    pub id: i64,
    pub question: String,
    pub answer: String,
    pub examples: Option<String>,
    pub source: Option<String>,
    pub img: Option<String>,
    pub question_img: Option<String>,
    pub tags: Vec<String>,
    pub last_reviewed: i64,
    pub review_after_secs: i64,
}

/// The mathematical value of a [`Flashcard`]: every contract in this crate
/// speaks of cards through this model.
#[verifier::ext_equal]
pub struct FlashcardModel {
    pub id: int,
    pub question: Seq<char>,
    pub answer: Seq<char>,
    pub examples: Option<Seq<char>>,
    pub source: Option<Seq<char>>,
    pub img: Option<Seq<char>>,
    pub question_img: Option<Seq<char>>,
    pub tags: Seq<Seq<char>>,
    pub last_reviewed: int,
    pub review_after_secs: int,
}

impl View for Flashcard {
    type V = FlashcardModel;

    open spec fn view(&self) -> FlashcardModel {
        FlashcardModel {
            id: self.id as int,
            question: self.question@,
            answer: self.answer@,
            examples: self.examples.deep_view(),
            source: self.source.deep_view(),
            img: self.img.deep_view(),
            question_img: self.question_img.deep_view(),
            tags: self.tags.deep_view(),
            last_reviewed: self.last_reviewed as int,
            review_after_secs: self.review_after_secs as int,
        }
    }
}

impl DeepView for Flashcard {
    type V = FlashcardModel;

    open spec fn deep_view(&self) -> FlashcardModel {
        self.view()
    }
}

/// The data-model invariant: a review interval is never negative.
pub open spec fn card_wf(card: FlashcardModel) -> bool {
    card.review_after_secs >= 0
}

/// The two fields a review outcome may change are the only ones it changes.
pub open spec fn content_unchanged(pre: FlashcardModel, post: FlashcardModel) -> bool {
    &&& post.id == pre.id
    &&& post.question == pre.question
    &&& post.answer == pre.answer
    &&& post.examples == pre.examples
    &&& post.source == pre.source
    &&& post.img == pre.img
    &&& post.question_img == pre.question_img
    &&& post.tags == pre.tags
}

/// The initial review interval of a freshly created card: half a day.
pub const INITIAL_INTERVAL_SECS: i64 = 43200;

impl Flashcard {
    /// A new card, created at time `now`, with no tags and the default
    /// initial review interval.
    pub fn new(question: String, answer: String, now: i64) -> (card: Flashcard)
        ensures
            card@.id == 0,
            card@.question == question@,
            card@.answer == answer@,
            card@.examples is None,
            card@.source is None,
            card@.img is None,
            card@.question_img is None,
            card@.tags == Seq::<Seq<char>>::empty(),
            card@.last_reviewed == now as int,
            card@.review_after_secs == INITIAL_INTERVAL_SECS as int,
            card_wf(card@),
    {
        let card = Flashcard {
            id: 0,
            question,
            answer,
            examples: None,
            source: None,
            img: None,
            question_img: None,
            tags: Vec::new(),
            last_reviewed: now,
            review_after_secs: INITIAL_INTERVAL_SECS,
        };
        assert(card@.tags =~= Seq::<Seq<char>>::empty());
        card
    }

    /// Checks the data-model invariant of a card against its creation (or
    /// load) time: the interval must be non-negative and the last review must
    /// not lie in the future.
    pub fn check_invariant(&self, now: i64) -> (r: Result<(), AppError>)
        ensures
            r is Ok <==> (self@.review_after_secs >= 0 && self@.last_reviewed <= now as int),
            r is Err ==> r->Err_0 == AppError::InvariantViolation,
            r is Ok ==> card_wf(self@),
    {
        if self.review_after_secs >= 0 && self.last_reviewed <= now {
            Ok(())
        } else {
            Err(AppError::InvariantViolation)
        }
    }
}

impl Clone for Flashcard {
    /// Field-for-field copy; the model value is preserved.
    fn clone(&self) -> (r: Self)
        ensures
            r@ == self@,
    {
        let r = Flashcard {
            id: self.id,
            question: self.question.clone(),
            answer: self.answer.clone(),
            examples: clone_opt_string(&self.examples),
            source: clone_opt_string(&self.source),
            img: clone_opt_string(&self.img),
            question_img: clone_opt_string(&self.question_img),
            tags: clone_strings(&self.tags),
            last_reviewed: self.last_reviewed,
            review_after_secs: self.review_after_secs,
        };
        assert(r@ =~= self@);
        r
    }
}

fn clone_opt_string(s: &Option<String>) -> (r: Option<String>)
    ensures
        r == *s,
{
    match s {
        Some(x) => Some(x.clone()),
        None => None,
    }
}

fn clone_strings(v: &Vec<String>) -> (r: Vec<String>)
    ensures
        r@ == v@,
{
    let mut r: Vec<String> = Vec::new();
    let mut i: usize = 0;
    while i < v.len()
        invariant
            i <= v.len(),
            r@ == v@.subrange(0, i as int),
        decreases v.len() - i,
    {
        r.push(v[i].clone());
        assert(r@ =~= v@.subrange(0, i + 1 as int));
        i = i + 1;
    }
    assert(r@ =~= v@);
    r
}

/// The outcome of one review attempt.
#[derive(Clone, Copy, PartialEq, Eq, Structural, Debug)]
pub enum FlashcardAnswer {
    Remember,
    Not,
}

/// One recorded review event.
pub struct ReviewHistory {
    pub flashcard_id: i64,
    pub review_date: i64,
    pub remembered: bool,
}

/// What can go wrong in this core: malformed scheduling state, or an outcome
/// submitted for an id that the loaded snapshot does not hold.
#[derive(Clone, Copy, PartialEq, Eq, Structural, Debug)]
pub enum AppError {
    InvariantViolation,
    NotFound,
}

} // verus!
