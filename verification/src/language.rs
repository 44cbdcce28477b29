//! Parsing of language-model responses, and the sentence material handed to
//! them.
//!
//! A model is prompted to answer inside XML-like tags; the output is rarely
//! perfect, so the parser is deliberately minimal: the content between the
//! first occurrence of the opening tag and the first occurrence of the closing
//! tag, trimmed of surrounding whitespace.

use vstd::prelude::*;
use vstd::string::StrSliceExecFns;
use vstd::string::StringExecFns;

use crate::model::Flashcard;
use crate::text::first_nl;
use crate::text::find_str;
use crate::text::spec_find;
use crate::text::strs_view;
use crate::text::trim_spec;
use crate::text::trim_str;
use crate::text::next_nl;

verus! {

/// The opening form of a tag: `<` tag `>`.
pub open spec fn open_tag(tag: Seq<char>) -> Seq<char> {
    "<"@ + tag + ">"@
}

/// The closing form of a tag: `</` tag `>`.
pub open spec fn close_tag(tag: Seq<char>) -> Seq<char> {
    "</"@ + tag + ">"@
}

/// What `parse_xml_tag` extracts: the trimmed text between the first opening
/// tag and the first closing tag, or nothing when either tag is missing or
/// the closing tag comes first.
pub open spec fn xml_content(text: Seq<char>, tag: Seq<char>) -> Option<Seq<char>> {
    let o = spec_find(text, open_tag(tag));
    let c = spec_find(text, close_tag(tag));
    if o >= 0 && c >= 0 && o + open_tag(tag).len() <= c {
        Some(trim_spec(text.subrange(o + open_tag(tag).len() as int, c)))
    } else {
        None
    }
}

/// The words listed in a tag content: one per line, trimmed, empty lines
/// dropped.
pub open spec fn words_of(s: Seq<char>) -> Seq<Seq<char>>
    decreases s.len(),
{
    let q = first_nl(s);
    let seg = trim_spec(s.subrange(0, q as int));
    let head: Seq<Seq<char>> = if seg.len() == 0 {
        Seq::empty()
    } else {
        seq![seg]
    };
    if q >= s.len() {
        head
    } else {
        head + words_of(s.subrange(q + 1 as int, s.len() as int))
    }
}

/// What `llm_resp_parse_words` returns for a whole response: the words inside
/// the first `words` tag pair, or nothing when the tags are missing.
pub open spec fn parsed_words(response: Seq<char>) -> Seq<Seq<char>> {
    match xml_content(response, "words"@) {
        Some(content) => words_of(content),
        None => Seq::empty(),
    }
}

/// Extracts the trimmed content of the first `<tag>` ... `</tag>` pair.
pub fn parse_xml_tag(text: &str, tag: &str) -> (r: Option<String>)
    ensures
        match r {
            Some(s) => xml_content(text@, tag@) == Some(s@),
            None => xml_content(text@, tag@) is None,
        },
{
    let mut start_tag = String::from_str("<");
    start_tag.append(tag);
    start_tag.append(">");
    let mut end_tag = String::from_str("</");
    end_tag.append(tag);
    end_tag.append(">");
    assert(start_tag@ == open_tag(tag@));
    assert(end_tag@ == close_tag(tag@));
    let o = match find_str(text, start_tag.as_str()) {
        Some(o) => o,
        None => {
            return None;
        },
    };
    let c = match find_str(text, end_tag.as_str()) {
        Some(c) => c,
        None => {
            return None;
        },
    };
    let n = text.unicode_len();
    proof {
        assert(o + open_tag(tag@).len() <= n);
    }
    let content_start = o + start_tag.unicode_len();
    if content_start > c {
        return None;
    }
    let content = text.substring_char(content_start, c);
    Some(trim_str(content))
}

/// Splits an LLM response into the words it lists inside the `words` tag:
/// one word per line, surrounding whitespace dropped, empty lines dropped.
/// A response without the tags yields no words.
pub fn llm_resp_parse_words(response: &str) -> (r: Vec<String>)
    ensures
        strs_view(r@) == parsed_words(response@),
{
    let content = match parse_xml_tag(response, "words") {
        Some(content) => content,
        None => {
            let r: Vec<String> = Vec::new();
            proof {
                assert(strs_view(r@) =~= parsed_words(response@));
            }
            return r;
        },
    };
    let s = content.as_str();
    let n = s.unicode_len();
    let mut out: Vec<String> = Vec::new();
    let mut c: usize = 0;
    proof {
        assert(strs_view(out@) =~= Seq::<Seq<char>>::empty());
        assert(s@.subrange(0, n as int) =~= s@);
    }
    loop
        invariant_except_break
            c <= n,
            n == s@.len(),
            strs_view(out@) + words_of(s@.subrange(c as int, n as int)) == words_of(s@),
        ensures
            strs_view(out@) == words_of(s@),
        decreases n - c,
    {
        let ghost suffix = s@.subrange(c as int, n as int);
        let p = next_nl(s, c);
        proof {
            assert forall|k: int| 0 <= k < p - c implies suffix[k] != '\n' by {
                assert(suffix[k] == s@[c + k]);
            }
            if p < n {
                assert(suffix[p - c] == s@[p as int]);
            }
            crate::text::lemma_first_nl_at(suffix, p - c);
        }
        let piece = s.substring_char(c, p);
        let seg = trim_str(piece);
        proof {
            assert(piece@ == suffix.subrange(0, (p - c) as int)) by {
                assert(s@.subrange(c as int, p as int) =~= suffix.subrange(0, (p - c) as int));
            }
        }
        let ghost old_out = out@;
        if !seg.as_str().is_empty() {
            let ghost segm = seg@;
            out.push(seg);
            proof {
                assert(strs_view(out@) =~= strs_view(old_out).push(segm)) by {
                    assert forall|k: int| 0 <= k < strs_view(out@).len()
                        implies strs_view(out@)[k] == strs_view(old_out).push(segm)[k] by {
                        if k < old_out.len() {
                            assert(out@[k] == old_out[k]);
                        } else {
                            assert(out@[k]@ == segm);
                        }
                    }
                }
            }
        }
        if p == n {
            proof {
                assert(strs_view(out@) =~= words_of(s@));
            }
            break;
        }
        proof {
            assert(s@.subrange(p + 1 as int, n as int) =~= suffix.subrange(
                (p - c + 1) as int,
                suffix.len() as int,
            ));
        }
        c = p + 1;
    }
    out
}

/// All the answers of a set of cards, one per line: the sentence material a
/// language model is shown.
pub fn get_all_sentences(cards: &Vec<Flashcard>) -> (r: String)
    ensures
        r@ == join_lines(card_answers(cards@)),
{
    let mut r = String::new();
    let mut i: usize = 0;
    proof {
        assert(card_answers(cards@).subrange(0, 0) =~= Seq::<Seq<char>>::empty());
    }
    while i < cards.len()
        invariant
            i <= cards.len(),
            r@ == join_lines(card_answers(cards@).subrange(0, i as int)),
        decreases cards.len() - i,
    {
        let ghost prefix = card_answers(cards@).subrange(0, i as int);
        if i > 0 {
            r.append("\n");
        }
        r.append(cards[i].answer.as_str());
        proof {
            lemma_join_lines_push(prefix, cards@[i as int]@.answer);
            assert(prefix.push(cards@[i as int]@.answer) =~= card_answers(cards@).subrange(
                0,
                i + 1 as int,
            ));
            if i == 0 {
                assert(r@ =~= cards@[0]@.answer);
            }
        }
        i = i + 1;
    }
    proof {
        assert(card_answers(cards@).subrange(0, cards@.len() as int) =~= card_answers(cards@));
    }
    r
}

/// The answers of a sequence of cards.
pub open spec fn card_answers(s: Seq<Flashcard>) -> Seq<Seq<char>> {
    Seq::new(s.len(), |i: int| s[i]@.answer)
}

/// Lines joined with a single line break between them.
pub open spec fn join_lines(xs: Seq<Seq<char>>) -> Seq<char>
    decreases xs.len(),
{
    if xs.len() == 0 {
        Seq::empty()
    } else if xs.len() == 1 {
        xs[0]
    } else {
        xs[0] + "\n"@ + join_lines(xs.drop_first())
    }
}

proof fn lemma_join_lines_push(xs: Seq<Seq<char>>, x: Seq<char>)
    ensures
        join_lines(xs.push(x)) == if xs.len() == 0 {
            x
        } else {
            join_lines(xs) + "\n"@ + x
        },
    decreases xs.len(),
{
    let p = xs.push(x);
    if xs.len() == 0 {
        assert(p.len() == 1);
        assert(p[0] == x);
    } else {
        assert(p[0] == xs[0]);
        assert(p.drop_first() =~= xs.drop_first().push(x));
        lemma_join_lines_push(xs.drop_first(), x);
        if xs.len() == 1 {
            assert(xs.drop_first().len() == 0);
            assert(join_lines(p) == xs[0] + "\n"@ + x);
            assert(join_lines(xs) == xs[0]);
        }
    }
}

/// A sentence proposed for learning: its text, the one new word it introduces,
/// and that word's translation.
pub struct NewSentence {
    pub text: String,
    pub new_word: String,
    pub translation: String,
}

/// Reads a generated sentence out of a model response: the `new_sentence`,
/// `new_word` and `translation` tags must all be present.
pub fn new_sentence_from_response(response: &str) -> (r: Option<NewSentence>)
    ensures
        r is Some <==> (xml_content(response@, "new_sentence"@) is Some
            && xml_content(response@, "new_word"@) is Some
            && xml_content(response@, "translation"@) is Some),
        r is Some ==> {
            &&& Some(r->0.text@) == xml_content(response@, "new_sentence"@)
            &&& Some(r->0.new_word@) == xml_content(response@, "new_word"@)
            &&& Some(r->0.translation@) == xml_content(response@, "translation"@)
        },
{
    let text = match parse_xml_tag(response, "new_sentence") {
        Some(t) => t,
        None => {
            return None;
        },
    };
    let new_word = match parse_xml_tag(response, "new_word") {
        Some(t) => t,
        None => {
            return None;
        },
    };
    let translation = match parse_xml_tag(response, "translation") {
        Some(t) => t,
        None => {
            return None;
        },
    };
    Some(NewSentence { text, new_word, translation })
}

} // verus!
