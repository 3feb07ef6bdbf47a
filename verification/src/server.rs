//! The requests of the memory server's tools and the replies it builds.
use vstd::prelude::*;
use crate::text::{push_char, push_str};

verus! {

broadcast use vstd::string::group_string_axioms;

/// Store a memory.
pub struct RememberRequest {
    pub channel_id: String,
    pub author_id: String,
    pub role: String,
    pub content: String,
}

/// Search memories by meaning.
pub struct SearchRequest {
    pub channel_id: String,
    pub role: String,
    pub query: String,
}

/// Read the recent conversation of a channel.
pub struct HistoryRequest {
    pub channel_id: String,
    pub limit: i64,
}

/// One line of the history reply: `[role] content`.
pub open spec fn history_line(role: Seq<char>, content: Seq<char>) -> Seq<char> {
    seq!['['] + role + seq![']', ' '] + content
}

/// The lines of the history reply, separated by newlines.
pub open spec fn history_lines(items: Seq<(String, String)>) -> Seq<char>
    decreases items.len(),
{
    if items.len() == 0 {
        Seq::empty()
    } else if items.len() == 1 {
        history_line(items[0].0@, items[0].1@)
    } else {
        history_lines(items.drop_last()) + seq!['\n'] + history_line(
            items.last().0@,
            items.last().1@,
        )
    }
}

/// The reply of the history tool: one `[role] content` line per message,
/// oldest first, or a notice when the channel has no history.
pub fn format_history(items: &Vec<(String, String)>) -> (res: String)
    ensures
        items@.len() == 0 ==> res@ == "No conversation history found."@,
        items@.len() > 0 ==> res@ == history_lines(items@),
{
    if items.len() == 0 {
        return "No conversation history found.".to_owned();
    }
    let mut res = String::new();
    let mut i: usize = 0;
    while i < items.len()
        invariant
            i <= items@.len(),
            res@ == history_lines(items@.take(i as int)),
        decreases items@.len() - i,
    {
        if i > 0 {
            push_char(&mut res, '\n');
        }
        push_char(&mut res, '[');
        push_str(&mut res, items[i].0.as_str());
        push_char(&mut res, ']');
        push_char(&mut res, ' ');
        push_str(&mut res, items[i].1.as_str());
        proof {
            let next = items@.take(i + 1);
            assert(next.drop_last() =~= items@.take(i as int));
            assert(next.last() == items@[i as int]);
            assert(res@ =~= history_lines(next));
        }
        i = i + 1;
    }
    assert(items@.take(items@.len() as int) =~= items@);
    res
}

/// A single message gives the line `[role] content`.
pub proof fn lemma_history_single_line(item: (String, String))
    ensures
        history_lines(seq![item]) == seq!['['] + item.0@ + seq![']', ' '] + item.1@,
{
}

/// The history reply is its lines joined by newlines: splitting the messages
/// anywhere splits the reply at one newline between the two parts.
pub proof fn lemma_history_lines_join(items: Seq<(String, String)>, k: int)
    requires
        0 < k < items.len(),
    ensures
        history_lines(items) == history_lines(items.take(k)) + seq!['\n'] + history_lines(
            items.skip(k),
        ),
    decreases items.len(),
{
    let n = items.len() as int;
    let front = items.drop_last();
    if k == n - 1 {
        assert(items.take(k) =~= front);
        assert(items.skip(k) =~= seq![items.last()]);
        assert(history_lines(seq![items.last()]) == history_line(items.last().0@, items.last().1@));
    } else {
        lemma_history_lines_join(front, k);
        assert(front.take(k) =~= items.take(k));
        let rest = items.skip(k);
        assert(rest.len() >= 2);
        assert(rest.drop_last() =~= front.skip(k));
        assert(rest.last() == items.last());
        assert(history_lines(rest) == history_lines(front.skip(k)) + seq!['\n'] + history_line(
            items.last().0@,
            items.last().1@,
        ));
        assert(history_lines(items) =~= history_lines(items.take(k)) + seq!['\n']
            + history_lines(rest));
    }
}

}
