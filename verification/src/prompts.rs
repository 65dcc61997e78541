//! The history of prompts that the up arrow walks.
use vstd::prelude::*;
use crate::keys::holds;
use crate::text;
use crate::text::{begins_with, chars_of, same_text, trim};

verus! {

broadcast use vstd::string::group_string_axioms;

/// Whether a prompt is offered for `query`: it says something, it is not one the
/// user wants to forget, and it begins with what was typed.
pub open spec fn is_offered(prompt: Seq<char>, query: Seq<char>, ignored: Seq<Seq<char>>) -> bool {
    &&& text::trimmed(prompt).len() > 0
    &&& !ignored.contains(prompt)
    &&& text::trimmed(query).is_prefix_of(prompt)
}

/// The prompts offered, oldest first. One that was given more than once stands
/// where it was given last.
pub open spec fn offered(
    prompts: Seq<Seq<char>>,
    query: Seq<char>,
    ignored: Seq<Seq<char>>,
) -> Seq<Seq<char>>
    decreases prompts.len(),
{
    if prompts.len() == 0 {
        Seq::empty()
    } else {
        let rest = prompts.skip(1);
        if is_offered(prompts[0], query, ignored) && !rest.contains(prompts[0]) {
            seq![prompts[0]] + offered(rest, query, ignored)
        } else {
            offered(rest, query, ignored)
        }
    }
}

fn recurs(prompts: &Vec<String>, at: usize) -> (found: bool)
    requires
        at < prompts.len(),
    ensures
        found == text::texts(prompts@).skip(at + 1).contains(prompts@[at as int]@),
{
    let ghost later = text::texts(prompts@).skip(at + 1);
    let mut i: usize = at + 1;
    while i < prompts.len()
        invariant
            at < i <= prompts@.len(),
            at < prompts@.len(),
            later == text::texts(prompts@).skip(at + 1),
            forall|j: int| 0 <= j < i - at - 1 ==> #[trigger] later[j] != prompts@[at as int]@,
        decreases prompts@.len() - i,
    {
        if same_text(prompts[i].as_str(), prompts[at].as_str()) {
            assert(later[i - at - 1] == prompts@[at as int]@);
            return true;
        }
        assert(later[i - at - 1] == prompts@[i as int]@);
        i += 1;
    }
    assert forall|j: int| 0 <= j < later.len() implies #[trigger] later[j]
        != prompts@[at as int]@ by {}
    false
}

/// The prompts that the up arrow offers, oldest first, for what is typed.
/// `prompts` holds all that were given, oldest first, and `ignored` those the
/// user wants to forget. White space around the query does not count.
pub fn tui_prompt_history(prompts: &Vec<String>, query: &str, ignored: &Vec<String>) -> (history:
    Vec<String>)
    ensures
        text::texts(history@) == offered(text::texts(prompts@), query@, text::texts(ignored@)),
{
    let ghost all = text::texts(prompts@);
    let ghost forgotten = text::texts(ignored@);
    let typed = trim(query);
    let mut history: Vec<String> = Vec::new();
    let mut i: usize = 0;
    proof {
        assert(all.skip(0) =~= all);
        assert(text::texts(history@) + offered(all, query@, forgotten) =~= offered(
            all,
            query@,
            forgotten,
        ));
    }
    while i < prompts.len()
        invariant
            i <= prompts@.len(),
            all == text::texts(prompts@),
            forgotten == text::texts(ignored@),
            typed@ == text::trimmed(query@),
            offered(all, query@, forgotten) == text::texts(history@) + offered(
                all.skip(i as int),
                query@,
                forgotten,
            ),
        decreases prompts@.len() - i,
    {
        let prompt = prompts[i].as_str();
        proof {
            assert(all.skip(i as int)[0] == prompt@);
            assert(all.skip(i as int).skip(1) =~= all.skip(i + 1));
        }
        let says_something = chars_of(trim(prompt).as_str()).len() > 0;
        if says_something && !holds(ignored, prompt) && begins_with(prompt, typed.as_str())
            && !recurs(prompts, i) {
            let ghost before = text::texts(history@);
            history.push(prompts[i].clone());
            proof {
                let rest = offered(all.skip(i + 1), query@, forgotten);
                assert(text::texts(history@) =~= before.push(prompt@));
                assert(before + (seq![prompt@] + rest) =~= text::texts(history@) + rest);
            }
        }
        i += 1;
    }
    proof {
        assert(all.skip(i as int) =~= Seq::empty());
        assert(text::texts(history@) + Seq::<Seq<char>>::empty() =~= text::texts(history@));
    }
    history
}

/// Every prompt that may be offered is, once; nothing else is.
pub proof fn history_offers_each_prompt_once(
    prompts: Seq<Seq<char>>,
    query: Seq<char>,
    ignored: Seq<Seq<char>>,
    prompt: Seq<char>,
)
    ensures
        offered(prompts, query, ignored).contains(prompt) <==> prompts.contains(prompt)
            && is_offered(prompt, query, ignored),
        offered(prompts, query, ignored).no_duplicates(),
    decreases prompts.len(),
{
    let all = offered(prompts, query, ignored);
    if prompts.len() > 0 {
        let first = prompts[0];
        let rest = prompts.skip(1);
        let later = offered(rest, query, ignored);
        history_offers_each_prompt_once(rest, query, ignored, prompt);
        history_offers_each_prompt_once(rest, query, ignored, first);
        if prompts.contains(prompt) {
            let at = prompts.index_of(prompt);
            if at > 0 {
                assert(rest[at - 1] == prompt);
            }
        }
        if rest.contains(prompt) {
            let at = rest.index_of(prompt);
            assert(prompts[at + 1] == prompt);
        }
        if is_offered(first, query, ignored) && !rest.contains(first) {
            assert(all =~= seq![first] + later);
            assert(all[0] == first);
            if later.contains(prompt) {
                let at = later.index_of(prompt);
                assert(all[at + 1] == prompt);
            }
            if all.contains(prompt) {
                let at = all.index_of(prompt);
                if at > 0 {
                    assert(later[at - 1] == prompt);
                }
            }
            assert forall|i: int, j: int| 0 <= i < all.len() && 0 <= j < all.len() && i
                != j implies all[i] != all[j] by {
                if i > 0 && j > 0 {
                    assert(all[i] == later[i - 1]);
                    assert(all[j] == later[j - 1]);
                } else if i == 0 {
                    assert(all[j] == later[j - 1]);
                    assert(later.contains(later[j - 1]));
                } else {
                    assert(all[i] == later[i - 1]);
                    assert(later.contains(later[i - 1]));
                }
            }
        }
    }
}

/// A prompt given last is offered last.
pub proof fn newest_prompt_comes_last(
    prompts: Seq<Seq<char>>,
    query: Seq<char>,
    ignored: Seq<Seq<char>>,
)
    requires
        prompts.len() > 0,
        is_offered(prompts.last(), query, ignored),
    ensures
        offered(prompts, query, ignored).len() > 0,
        offered(prompts, query, ignored).last() == prompts.last(),
    decreases prompts.len(),
{
    let rest = prompts.skip(1);
    if rest.len() > 0 {
        assert(rest.last() == prompts.last());
        newest_prompt_comes_last(rest, query, ignored);
    } else {
        assert(offered(rest, query, ignored) =~= Seq::empty());
    }
}

/// A prompt is offered when it is not blank, is not ignored and starts with the
/// words that were typed, the white space around them left out.
pub proof fn history_offers_what_was_typed(
    prompt: Seq<char>,
    front: Seq<char>,
    typed: Seq<char>,
    back: Seq<char>,
    ignored: Seq<Seq<char>>,
)
    requires
        forall|i: int| 0 <= i < front.len() ==> text::is_space(#[trigger] front[i]),
        forall|i: int| 0 <= i < back.len() ==> text::is_space(#[trigger] back[i]),
        typed.len() > 0 ==> !text::is_space(typed[0]) && !text::is_space(typed.last()),
    ensures
        is_offered(prompt, front + typed + back, ignored) <==> (exists|i: int|
            0 <= i < prompt.len() && !text::is_space(#[trigger] prompt[i])) && !ignored.contains(
            prompt,
        ) && typed.len() <= prompt.len() && (forall|i: int|
            0 <= i < typed.len() ==> #[trigger] typed[i] == prompt[i]),
{
    text::trimming_takes_only_the_ends(front, typed, back);
    lemma_blank(prompt);
    if typed.len() <= prompt.len() && (forall|i: int|
        0 <= i < typed.len() ==> #[trigger] typed[i] == prompt[i]) {
        assert(typed =~= prompt.subrange(0, typed.len() as int));
    }
}

proof fn lemma_blank(prompt: Seq<char>)
    ensures
        text::trimmed(prompt).len() > 0 <==> exists|i: int|
            0 <= i < prompt.len() && !text::is_space(#[trigger] prompt[i]),
    decreases prompt.len(),
{
    if prompt.len() > 0 {
        if text::is_space(prompt[0]) {
            let rest = prompt.drop_first();
            lemma_blank(rest);
            if exists|i: int| 0 <= i < prompt.len() && !text::is_space(#[trigger] prompt[i]) {
                let i = choose|i: int| 0 <= i < prompt.len() && !text::is_space(#[trigger] prompt[i]);
                assert(rest[i - 1] == prompt[i]);
            }
            if exists|i: int| 0 <= i < rest.len() && !text::is_space(#[trigger] rest[i]) {
                let i = choose|i: int| 0 <= i < rest.len() && !text::is_space(#[trigger] rest[i]);
                assert(prompt[i + 1] == rest[i]);
            }
        } else if text::is_space(prompt.last()) {
            let rest = prompt.drop_last();
            lemma_blank(rest);
            assert(rest[0] == prompt[0]);
        }
    }
}

/// The prompts that are offered keep their order: of two, the one that was last
/// entered earlier comes first.
pub proof fn history_keeps_the_order(
    prompts: Seq<Seq<char>>,
    query: Seq<char>,
    ignored: Seq<Seq<char>>,
    a: int,
    b: int,
) -> (at: (int, int))
    requires
        0 <= a < b < prompts.len(),
        is_offered(prompts[a], query, ignored),
        is_offered(prompts[b], query, ignored),
        forall|i: int| a < i < prompts.len() ==> #[trigger] prompts[i] != prompts[a],
        forall|i: int| b < i < prompts.len() ==> #[trigger] prompts[i] != prompts[b],
    ensures
        0 <= at.0 < at.1 < offered(prompts, query, ignored).len(),
        offered(prompts, query, ignored)[at.0] == prompts[a],
        offered(prompts, query, ignored)[at.1] == prompts[b],
    decreases prompts.len(),
{
    let rest = prompts.skip(1);
    let later = offered(rest, query, ignored);
    let front: int = if is_offered(prompts[0], query, ignored) && !rest.contains(prompts[0]) {
        1
    } else {
        0
    };
    if a > 0 {
        assert(rest[a - 1] == prompts[a] && rest[b - 1] == prompts[b]);
        assert forall|i: int| a - 1 < i < rest.len() implies #[trigger] rest[i] != rest[a - 1] by {
            assert(rest[i] == prompts[i + 1]);
        }
        assert forall|i: int| b - 1 < i < rest.len() implies #[trigger] rest[i] != rest[b - 1] by {
            assert(rest[i] == prompts[i + 1]);
        }
        let at = history_keeps_the_order(rest, query, ignored, a - 1, b - 1);
        (at.0 + front, at.1 + front)
    } else {
        assert(!rest.contains(prompts[0])) by {
            if rest.contains(prompts[0]) {
                let k = choose|k: int| 0 <= k < rest.len() && rest[k] == prompts[0];
                assert(prompts[k + 1] == prompts[0]);
            }
        }
        assert(rest[b - 1] == prompts[b]);
        assert(rest.contains(prompts[b]));
        history_offers_each_prompt_once(rest, query, ignored, prompts[b]);
        let k = choose|k: int| 0 <= k < later.len() && later[k] == prompts[b];
        (0, k + 1)
    }
}

} // verus!
