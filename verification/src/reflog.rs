//! Reflog messages: which branch a message of the `HEAD` log names.
//!
//! Two shapes of message name a branch. A checkout,
//! `checkout: moving from main to topic`, names the branch that was checked
//! out. A rename, `Branch: renamed refs/heads/a to refs/heads/b`, names the
//! branch under its new name. In both the branch is the last word of the
//! message. Any other message names none.

use crate::text::{char_is_space, chars_of, has_no_space, is_space};
use vstd::prelude::*;

verus! {

/// What a checkout message starts with.
pub open spec fn checkout_mark() -> Seq<char> {
    "checkout:"@
}

/// What a rename message starts with.
pub open spec fn rename_mark() -> Seq<char> {
    "Branch: renamed "@
}

/// What stands between the old name and the new name in a rename message.
pub open spec fn rename_link() -> Seq<char> {
    " to refs/heads/"@
}

/// Whether `message` is a checkout of `branch`: the mark, then some text of
/// at least one character on the same line, then the branch as the whole last
/// word of the message.
pub open spec fn checkout_with(message: Seq<char>, filler: Seq<char>, branch: Seq<char>) -> bool {
    &&& message == checkout_mark() + filler + branch
    &&& filler.len() >= 1
    &&& !filler.contains('\n')
    &&& branch.len() >= 1
    &&& has_no_space(branch)
    &&& (filler.len() == 1 || is_space(filler.last()))
}

/// Whether `message` is a rename of the branch `old` to `branch`: the mark,
/// the old name (any text of at least one character on the same line), the
/// link, and the new name as one word that ends the message.
pub open spec fn rename_with(message: Seq<char>, old: Seq<char>, branch: Seq<char>) -> bool {
    &&& message == rename_mark() + old + rename_link() + branch
    &&& old.len() >= 1
    &&& !old.contains('\n')
    &&& branch.len() >= 1
    &&& has_no_space(branch)
}

/// Whether `message` names `branch`, as a checkout of it or as a rename to
/// it.
pub open spec fn names_branch(message: Seq<char>, branch: Seq<char>) -> bool {
    ||| exists|filler: Seq<char>| #[trigger] checkout_with(message, filler, branch)
    ||| exists|old: Seq<char>| #[trigger] rename_with(message, old, branch)
}

/// Where the last word of `s` starts: the index after the last white-space
/// character, and 0 where there is none.
pub open spec fn last_word_start(s: Seq<char>) -> int
    decreases s.len(),
{
    if s.len() == 0 {
        0
    } else if is_space(s.last()) {
        s.len() as int
    } else {
        last_word_start(s.drop_last())
    }
}

/// Whether `word` stands in `s` at index `at`.
pub open spec fn stands_at(s: Seq<char>, at: int, word: Seq<char>) -> bool {
    0 <= at && at + word.len() <= s.len() && s.subrange(at, at + word.len()) == word
}

/// The branch that a reflog message names, if it names one.
///
/// In a checkout message the branch starts where the last word starts, but
/// no earlier than one character after the mark. In a rename message the
/// last word is `refs/heads/` and the branch, and the link's ` to ` stands
/// right before it, after at least one character of the old name. A message
/// that holds a line break names no branch.
pub open spec fn referenced_branch(message: Seq<char>) -> Option<Seq<char>> {
    let word = last_word_start(message);
    if message.contains('\n') {
        None
    } else if stands_at(message, 0, checkout_mark()) {
        let start = if word > checkout_mark().len() + 1 {
            word
        } else {
            checkout_mark().len() as int + 1
        };
        if message.len() > start {
            Some(message.skip(start))
        } else {
            None
        }
    } else if stands_at(message, 0, rename_mark()) {
        let link_at = word - 4;
        if link_at >= rename_mark().len() + 1 && message.len() > link_at + rename_link().len()
            && stands_at(message, link_at, rename_link()) {
            Some(message.skip(link_at + rename_link().len()))
        } else {
            None
        }
    } else {
        None
    }
}

/// The last word of a text holds no white space.
pub proof fn lemma_last_word_has_no_space(s: Seq<char>)
    ensures
        0 <= last_word_start(s) <= s.len(),
        has_no_space(s.skip(last_word_start(s))),
        last_word_start(s) > 0 ==> is_space(s[last_word_start(s) - 1]),
    decreases s.len(),
{
    if s.len() > 0 && !is_space(s.last()) {
        let init = s.drop_last();
        lemma_last_word_has_no_space(init);
        let at = last_word_start(init);
        assert forall|i: int| 0 <= i < s.skip(at).len() implies !is_space(
            #[trigger] s.skip(at)[i],
        ) by {
            if i < init.skip(at).len() {
                assert(s.skip(at)[i] == init.skip(at)[i]);
            }
        }
    }
}

/// Characters that are not white space, added at the end of a text, leave
/// the start of its last word where it was.
pub proof fn lemma_last_word_start_append(s: Seq<char>, word: Seq<char>)
    requires
        has_no_space(word),
    ensures
        last_word_start(s + word) == last_word_start(s),
    decreases word.len(),
{
    if word.len() == 0 {
        assert(s + word =~= s);
    } else {
        let whole = s + word;
        assert(whole.last() == word.last());
        assert(whole.drop_last() =~= s + word.drop_last());
        assert(has_no_space(word.drop_last())) by {
            assert forall|i: int| 0 <= i < word.drop_last().len() implies !is_space(
                #[trigger] word.drop_last()[i],
            ) by {
                assert(word.drop_last()[i] == word[i]);
            }
        }
        lemma_last_word_start_append(s, word.drop_last());
    }
}

/// A text without white space holds no line break.
proof fn lemma_no_space_no_newline(s: Seq<char>)
    requires
        has_no_space(s),
    ensures
        !s.contains('\n'),
{
    if s.contains('\n') {
        let i = choose|i: int| 0 <= i < s.len() && s[i] == '\n';
        assert(is_space(s[i]));
    }
}

/// A text holds a character exactly if one of its two parts does.
proof fn lemma_contains_concat(a: Seq<char>, b: Seq<char>, c: char)
    ensures
        (a + b).contains(c) <==> a.contains(c) || b.contains(c),
{
    let whole = a + b;
    if whole.contains(c) {
        let i = choose|i: int| 0 <= i < whole.len() && whole[i] == c;
        if i < a.len() {
            assert(a[i] == c);
        } else {
            assert(b[i - a.len()] == c);
        }
    }
    if a.contains(c) {
        let i = choose|i: int| 0 <= i < a.len() && a[i] == c;
        assert(whole[i] == c);
    }
    if b.contains(c) {
        let i = choose|i: int| 0 <= i < b.len() && b[i] == c;
        assert(whole[i + a.len()] == c);
    }
}

/// What the three marks hold, character by character.
proof fn lemma_marks()
    ensures
        checkout_mark() =~= seq!['c', 'h', 'e', 'c', 'k', 'o', 'u', 't', ':'],
        rename_mark() =~= seq![
            'B',
            'r',
            'a',
            'n',
            'c',
            'h',
            ':',
            ' ',
            'r',
            'e',
            'n',
            'a',
            'm',
            'e',
            'd',
            ' ',
        ],
        rename_link() =~= seq![
            ' ',
            't',
            'o',
            ' ',
            'r',
            'e',
            'f',
            's',
            '/',
            'h',
            'e',
            'a',
            'd',
            's',
            '/',
        ],
        !checkout_mark().contains('\n'),
        !rename_mark().contains('\n'),
        !rename_link().contains('\n'),
{
    reveal_strlit("checkout:");
    reveal_strlit("Branch: renamed ");
    reveal_strlit(" to refs/heads/");
}

/// A checkout message names the branch that was checked out.
pub proof fn lemma_checkout_names_branch(
    message: Seq<char>,
    filler: Seq<char>,
    branch: Seq<char>,
)
    requires
        checkout_with(message, filler, branch),
    ensures
        referenced_branch(message) == Some(branch),
{
    lemma_marks();
    let mark = checkout_mark();
    let head = mark + filler;
    lemma_contains_concat(mark, filler, '\n');
    lemma_contains_concat(head, branch, '\n');
    lemma_no_space_no_newline(branch);
    lemma_last_word_start_append(head, branch);
    lemma_last_word_has_no_space(head);
    assert(message.subrange(0, mark.len() as int) =~= mark);
    let word = last_word_start(message);
    assert(word <= head.len());
    if is_space(filler.last()) {
        assert(head.last() == filler.last());
        assert(word == head.len());
    } else {
        assert(filler.len() == 1);
        assert(head.len() == mark.len() + 1);
    }
    assert(message.skip(head.len() as int) =~= branch);
}

/// A rename message names the branch under its new name.
pub proof fn lemma_rename_names_branch(message: Seq<char>, old: Seq<char>, branch: Seq<char>)
    requires
        rename_with(message, old, branch),
    ensures
        referenced_branch(message) == Some(branch),
{
    lemma_marks();
    let mark = rename_mark();
    let link = rename_link();
    let to = link.subrange(0, 4);
    let refs = link.subrange(4, 15);
    assert(link =~= to + refs);
    let head = mark + old + to;
    let tail = refs + branch;
    assert(message =~= head + tail);
    assert(has_no_space(tail)) by {
        assert forall|i: int| 0 <= i < tail.len() implies !is_space(#[trigger] tail[i]) by {
            if i < 11 {
                assert(tail[i] == link[i + 4]);
            } else {
                assert(tail[i] == branch[i - 11]);
            }
        }
    }
    lemma_last_word_start_append(head, tail);
    assert(head.last() == ' ');
    assert(last_word_start(head) == head.len());
    lemma_contains_concat(mark, old, '\n');
    lemma_contains_concat(mark + old, link, '\n');
    lemma_contains_concat(mark + old + link, branch, '\n');
    lemma_no_space_no_newline(branch);
    assert(message.subrange(0, mark.len() as int) =~= mark);
    assert(!stands_at(message, 0, checkout_mark())) by {
        if stands_at(message, 0, checkout_mark()) {
            assert(message.subrange(0, 9)[0] == 'c');
            assert(message[0] == 'B');
        }
    }
    let link_at = (mark.len() + old.len()) as int;
    assert(message.subrange(link_at, link_at + link.len()) =~= link);
    assert(message.skip(link_at + link.len()) =~= branch);
}

/// A message that names a branch is a checkout of it or a rename to it.
pub proof fn lemma_referenced_branch_is_named(message: Seq<char>, branch: Seq<char>)
    requires
        referenced_branch(message) == Some(branch),
    ensures
        names_branch(message, branch),
{
    lemma_marks();
    lemma_last_word_has_no_space(message);
    let word = last_word_start(message);
    if stands_at(message, 0, checkout_mark()) {
        let mark = checkout_mark();
        let start = if word > mark.len() + 1 {
            word
        } else {
            mark.len() as int + 1
        };
        let filler = message.subrange(mark.len() as int, start);
        assert(branch == message.skip(start));
        assert(message =~= mark + filler + branch);
        assert(has_no_space(branch)) by {
            assert forall|i: int| 0 <= i < branch.len() implies !is_space(
                #[trigger] branch[i],
            ) by {
                assert(branch[i] == message.skip(word)[i + start - word]);
            }
        }
        if filler.contains('\n') {
            let i = choose|i: int| 0 <= i < filler.len() && filler[i] == '\n';
            assert(message[i + mark.len()] == '\n');
        }
        if filler.len() != 1 {
            assert(filler.last() == message[word - 1]);
        }
        assert(checkout_with(message, filler, branch));
    } else {
        let mark = rename_mark();
        let link = rename_link();
        let link_at = word - 4;
        let old = message.subrange(mark.len() as int, link_at);
        assert(message.subrange(0, mark.len() as int) == mark);
        assert(message.subrange(link_at, link_at + link.len()) == link);
        assert(message =~= mark + old + link + branch) by {
            let built = mark + old + link + branch;
            assert(built.len() == message.len());
            assert forall|i: int| 0 <= i < message.len() implies message[i] == built[i] by {
                if i < mark.len() {
                    assert(message.subrange(0, mark.len() as int)[i] == mark[i]);
                } else if link_at <= i < link_at + link.len() {
                    assert(message.subrange(link_at, link_at + link.len())[i - link_at]
                        == link[i - link_at]);
                }
            }
        }
        assert(has_no_space(branch)) by {
            assert forall|i: int| 0 <= i < branch.len() implies !is_space(
                #[trigger] branch[i],
            ) by {
                assert(branch[i] == message.skip(word)[i + 11]);
            }
        }
        if old.contains('\n') {
            let i = choose|i: int| 0 <= i < old.len() && old[i] == '\n';
            assert(message[i + mark.len()] == '\n');
        }
        assert(rename_with(message, old, branch));
    }
}

/// A message names at most one branch, and `referenced_branch` tells which.
pub proof fn lemma_named_branch_is_referenced(message: Seq<char>, branch: Seq<char>)
    requires
        names_branch(message, branch),
    ensures
        referenced_branch(message) == Some(branch),
{
    if exists|filler: Seq<char>| #[trigger] checkout_with(message, filler, branch) {
        let filler = choose|filler: Seq<char>| #[trigger] checkout_with(message, filler, branch);
        lemma_checkout_names_branch(message, filler, branch);
    } else {
        let old = choose|old: Seq<char>| #[trigger] rename_with(message, old, branch);
        lemma_rename_names_branch(message, old, branch);
    }
}

/// Where the last word of the text starts.
fn find_last_word(chars: &Vec<char>) -> (at: usize)
    ensures
        at == last_word_start(chars@),
        at <= chars.len(),
{
    let mut at: usize = chars.len();
    assert(chars@.take(at as int) =~= chars@);
    while at > 0 && !char_is_space(chars[at - 1])
        invariant
            at <= chars.len(),
            last_word_start(chars@) == last_word_start(chars@.take(at as int)),
        decreases at,
    {
        assert(chars@.take(at as int).drop_last() =~= chars@.take(at - 1));
        at -= 1;
    }
    at
}

/// Whether the text holds a line break.
fn has_line_break(chars: &Vec<char>) -> (r: bool)
    ensures
        r == chars@.contains('\n'),
{
    let mut i: usize = 0;
    while i < chars.len()
        invariant
            i <= chars.len(),
            forall|j: int| 0 <= j < i ==> chars@[j] != '\n',
        decreases chars.len() - i,
    {
        if chars[i] == '\n' {
            return true;
        }
        i += 1;
    }
    false
}

/// Whether `word` stands in the text at index `at`.
fn word_at(chars: &Vec<char>, at: usize, word: &str) -> (r: bool)
    ensures
        r == stands_at(chars@, at as int, word@),
{
    let letters = chars_of(word);
    if at > chars.len() || letters.len() > chars.len() - at {
        return false;
    }
    let mut i: usize = 0;
    while i < letters.len()
        invariant
            i <= letters.len(),
            letters@ == word@,
            at + letters.len() <= chars.len(),
            forall|j: int| 0 <= j < i ==> chars@[at + j] == letters@[j],
        decreases letters.len() - i,
    {
        if chars[at + i] != letters[i] {
            assert(chars@.subrange(at as int, at + word@.len())[i as int] != word@[i as int]);
            return false;
        }
        i += 1;
    }
    assert(chars@.subrange(at as int, at + word@.len()) =~= word@);
    true
}

/// The branch that a reflog message names, if it names one: the target of
/// a checkout, or the new name of a renamed branch.
pub fn branch_of_message(message: &str) -> (r: Option<String>)
    ensures
        r.deep_view() == referenced_branch(message@),
        match r {
            Some(branch) => names_branch(message@, branch@),
            None => forall|branch: Seq<char>| !names_branch(message@, branch),
        },
{
    proof {
        lemma_marks();
        match referenced_branch(message@) {
            Some(branch) => {
                lemma_referenced_branch_is_named(message@, branch);
            },
            None => {
                assert forall|branch: Seq<char>| !names_branch(message@, branch) by {
                    if names_branch(message@, branch) {
                        lemma_named_branch_is_referenced(message@, branch);
                    }
                }
            },
        }
    }
    let chars = chars_of(message);
    let n = chars.len();
    if has_line_break(&chars) {
        return None;
    }
    let word = find_last_word(&chars);
    if word_at(&chars, 0, "checkout:") {
        let start: usize = if word > 10 {
            word
        } else {
            10
        };
        if n > start {
            Some(message.substring_char(start, n).to_owned())
        } else {
            None
        }
    } else if word_at(&chars, 0, "Branch: renamed ") {
        if word >= 21 && n - word > 11 && word_at(&chars, word - 4, " to refs/heads/") {
            Some(message.substring_char(word + 11, n).to_owned())
        } else {
            None
        }
    } else {
        None
    }
}

} // verus!
