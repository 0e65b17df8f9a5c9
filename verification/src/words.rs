//! Words: what separates them, which of them may open a sentence and which
//! close one, and how a text is split into them and joined again.

use vstd::prelude::*;

verus! {

/// The characters that Unicode classes as `White_Space`.
pub open spec fn is_whitespace(c: char) -> bool {
    let n = c as u32;
    ||| 0x09 <= n <= 0x0D
    ||| n == 0x20
    ||| n == 0x85
    ||| n == 0xA0
    ||| n == 0x1680
    ||| 0x2000 <= n <= 0x200A
    ||| n == 0x2028
    ||| n == 0x2029
    ||| n == 0x202F
    ||| n == 0x205F
    ||| n == 0x3000
}

/// A word may open a sentence when its first character is one of `A` to `Z`.
pub open spec fn is_entry_word(word: Seq<char>) -> bool {
    word.len() > 0 && 'A' <= word[0] <= 'Z'
}

/// A word closes a sentence when its last character is `!`, `.` or `?`.
pub open spec fn is_terminal(word: Seq<char>) -> bool {
    word.len() > 0 && (word.last() == '!' || word.last() == '.' || word.last() == '?')
}

/// The word in progress as a sequence of finished words: none when it is empty.
pub open spec fn flush(current: Seq<char>) -> Seq<Seq<char>> {
    if current.len() > 0 {
        seq![current]
    } else {
        seq![]
    }
}

/// The words of `current + rest`, where `current` is a word in progress that
/// holds no whitespace.
pub open spec fn split_from(current: Seq<char>, rest: Seq<char>) -> Seq<Seq<char>>
    decreases rest.len(),
{
    if rest.len() == 0 {
        flush(current)
    } else if is_whitespace(rest[0]) {
        flush(current) + split_from(seq![], rest.drop_first())
    } else {
        split_from(current.push(rest[0]), rest.drop_first())
    }
}

/// The words of a text: its maximal runs of characters that are not
/// whitespace, in order.
pub open spec fn split_words(text: Seq<char>) -> Seq<Seq<char>> {
    split_from(seq![], text)
}

/// The words joined into one text, with a single space between neighbours.
pub open spec fn join_words(words: Seq<Seq<char>>) -> Seq<char>
    decreases words.len(),
{
    if words.len() == 0 {
        seq![]
    } else if words.len() == 1 {
        words[0]
    } else {
        join_words(words.drop_last()) + seq![' '] + words.last()
    }
}

/// A word holds at least one character and no whitespace.
pub open spec fn is_word(word: Seq<char>) -> bool {
    word.len() > 0 && forall|i: int| 0 <= i < word.len() ==> !is_whitespace(#[trigger] word[i])
}

/// Every word found behind a word in progress is a word, and there are no
/// more of them than characters left, and one for the word in progress.
pub proof fn lemma_split_from(current: Seq<char>, rest: Seq<char>)
    requires
        forall|i: int| 0 <= i < current.len() ==> !is_whitespace(#[trigger] current[i]),
    ensures
        forall|i: int|
            0 <= i < split_from(current, rest).len() ==> is_word(
                #[trigger] split_from(current, rest)[i],
            ),
        split_from(current, rest).len() <= flush(current).len() + rest.len(),
    decreases rest.len(),
{
    if rest.len() == 0 {
    } else if is_whitespace(rest[0]) {
        lemma_split_from(seq![], rest.drop_first());
    } else {
        lemma_split_from(current.push(rest[0]), rest.drop_first());
    }
}

/// Every word of a text is a word, and a text has no more words than
/// characters.
pub proof fn lemma_split_words(text: Seq<char>)
    ensures
        forall|i: int|
            0 <= i < split_words(text).len() ==> is_word(#[trigger] split_words(text)[i]),
        split_words(text).len() <= text.len(),
{
    lemma_split_from(seq![], text);
}

/// Characters that are no whitespace go to the word in progress.
pub proof fn lemma_split_absorb(current: Seq<char>, word: Seq<char>, rest: Seq<char>)
    requires
        forall|i: int| 0 <= i < word.len() ==> !is_whitespace(#[trigger] word[i]),
    ensures
        split_from(current, word + rest) == split_from(current + word, rest),
    decreases word.len(),
{
    if word.len() == 0 {
        assert(word + rest == rest);
        assert(current + word == current);
    } else {
        let text = word + rest;
        assert(text[0] == word[0]);
        assert(text.drop_first() == word.drop_first() + rest);
        assert(current.push(word[0]) + word.drop_first() == current + word);
        lemma_split_absorb(current.push(word[0]), word.drop_first(), rest);
    }
}

/// Whitespace ends the word in progress: what stands behind it is split on
/// its own.
pub proof fn lemma_split_from_break(
    current: Seq<char>,
    front: Seq<char>,
    space: char,
    back: Seq<char>,
)
    requires
        is_whitespace(space),
    ensures
        split_from(current, front + seq![space] + back) == split_from(current, front)
            + split_words(back),
    decreases front.len(),
{
    let text = front + seq![space] + back;
    if front.len() == 0 {
        assert(text[0] == space);
        assert(text.drop_first() == back);
    } else {
        let rest = front.drop_first();
        assert(text[0] == front[0]);
        assert(text.drop_first() == rest + seq![space] + back);
        if is_whitespace(front[0]) {
            lemma_split_from_break(seq![], rest, space, back);
            assert(flush(current) + (split_from(seq![], rest) + split_words(back)) == (flush(
                current,
            ) + split_from(seq![], rest)) + split_words(back));
        } else {
            lemma_split_from_break(current.push(front[0]), rest, space, back);
        }
    }
}

/// A text is split at every whitespace character: its words are those
/// before the character and those behind it.
pub proof fn lemma_split_at_whitespace(front: Seq<char>, space: char, back: Seq<char>)
    requires
        is_whitespace(space),
    ensures
        split_words(front + seq![space] + back) == split_words(front) + split_words(back),
{
    lemma_split_from_break(seq![], front, space, back);
}

/// A word is the one word of itself, and the empty text has none.
pub proof fn lemma_split_word(word: Seq<char>)
    requires
        is_word(word),
    ensures
        split_words(word) == seq![word],
        split_words(Seq::<char>::empty()) == Seq::<Seq<char>>::empty(),
{
    assert(word + Seq::<char>::empty() == word);
    assert(Seq::<char>::empty() + word == word);
    lemma_split_absorb(seq![], word, seq![]);
}

/// A joined text of two words or more is its first word, a space, and the
/// other words joined.
pub proof fn lemma_join_front(words: Seq<Seq<char>>)
    requires
        words.len() >= 2,
    ensures
        join_words(words) == words[0] + (seq![' '] + join_words(words.drop_first())),
    decreases words.len(),
{
    let front = words.drop_last();
    let tail = words.drop_first();
    if words.len() == 2 {
        assert(front.len() == 1 && tail.len() == 1);
        assert(join_words(front) == words[0]);
        assert(join_words(tail) == words[1]);
        assert(words[0] + seq![' '] + words[1] == words[0] + (seq![' '] + words[1]));
    } else {
        lemma_join_front(front);
        assert(front.drop_first() == tail.drop_last());
        assert(tail.last() == words.last());
        let inner = join_words(front.drop_first());
        assert(words[0] + (seq![' '] + inner) + seq![' '] + words.last() == words[0] + (seq![' ']
            + (inner + seq![' '] + words.last())));
    }
}

/// Splitting a text that was joined from words gives the words back.
pub proof fn lemma_split_join(words: Seq<Seq<char>>)
    requires
        forall|i: int| 0 <= i < words.len() ==> is_word(#[trigger] words[i]),
    ensures
        split_words(join_words(words)) == words,
    decreases words.len(),
{
    if words.len() == 0 {
    } else if words.len() == 1 {
        lemma_split_word(words[0]);
        assert(words == seq![words[0]]);
    } else {
        let word = words[0];
        let tail = words.drop_first();
        let rest = join_words(tail);
        lemma_join_front(words);
        assert forall|i: int| 0 <= i < tail.len() implies is_word(#[trigger] tail[i]) by {
            assert(tail[i] == words[i + 1]);
        }
        lemma_split_join(tail);
        lemma_split_absorb(seq![], word, seq![' '] + rest);
        assert(Seq::<char>::empty() + word == word);
        let spaced = seq![' '] + rest;
        assert(spaced[0] == ' ');
        assert(spaced.drop_first() == rest);
        assert(seq![word] + tail == words);
    }
}

/// A joined text ends as its last word ends and begins as its first word
/// begins.
pub proof fn lemma_join_ends(words: Seq<Seq<char>>)
    requires
        words.len() >= 1,
    ensures
        join_words(words).len() >= words.last().len(),
        join_words(words).len() >= words[0].len(),
        words.last().len() > 0 ==> join_words(words).last() == words.last().last(),
        words[0].len() > 0 ==> join_words(words)[0] == words[0][0],
    decreases words.len(),
{
    if words.len() >= 2 {
        lemma_join_ends(words.drop_last());
    }
}

/// Tells whether `c` is whitespace.
pub fn is_space(c: char) -> (b: bool)
    ensures
        b == is_whitespace(c),
{
    let n: u32 = c as u32;
    (0x09 <= n && n <= 0x0D) || n == 0x20 || n == 0x85 || n == 0xA0 || n == 0x1680 || (0x2000 <= n
        && n <= 0x200A) || n == 0x2028 || n == 0x2029 || n == 0x202F || n == 0x205F || n == 0x3000
}

/// Tells whether `word` may open a sentence.
pub fn starts_uppercase(word: &str) -> (b: bool)
    ensures
        b == is_entry_word(word@),
{
    let mut it = word.chars();
    match it.next() {
        Some(c) => 'A' <= c && c <= 'Z',
        None => false,
    }
}

/// Tells whether `word` closes a sentence.
pub fn ends_sentence(word: &str) -> (b: bool)
    ensures
        b == is_terminal(word@),
{
    let mut last: Option<char> = None;
    for c in it: word.chars()
        invariant
            it.seq() == word@,
            last == (if it.index() == 0 {
                None
            } else {
                Some(word@[it.index() - 1])
            }),
    {
        last = Some(c);
    }
    match last {
        Some(c) => c == '!' || c == '.' || c == '?',
        None => false,
    }
}

/// `String::push`: `c` is appended to `s`.
#[verifier::external_body]
fn push_char(s: &mut String, c: char)
    ensures
        final(s)@ == old(s)@.push(c),
{
    s.push(c);
}

/// Splits `text` into its words.
pub fn split(text: &str) -> (words: Vec<String>)
    ensures
        words.deep_view() == split_words(text@),
{
    let mut words: Vec<String> = Vec::new();
    let mut current = String::new();
    proof {
        assert(text@.skip(0) == text@);
        assert(words.deep_view() == Seq::<Seq<char>>::empty());
        assert(Seq::<Seq<char>>::empty() + split_words(text@) == split_words(text@));
    }
    for c in it: text.chars()
        invariant
            it.seq() == text@,
            split_words(text@) == words.deep_view() + split_from(
                current@,
                text@.skip(it.index()),
            ),
    {
        let ghost rest = text@.skip(it.index());
        let ghost done = words.deep_view();
        let ghost word = current@;
        proof {
            assert(rest.len() > 0 && rest[0] == c);
            assert(rest.drop_first() == text@.skip(it.index() + 1));
        }
        if is_space(c) {
            if !current.as_str().is_empty() {
                words.push(current);
                current = String::new();
            }
            proof {
                let tail = split_from(seq![], rest.drop_first());
                assert(current@ == Seq::<char>::empty());
                assert(words.deep_view() == done + flush(word));
                assert(done + (flush(word) + tail) == (done + flush(word)) + tail);
            }
        } else {
            push_char(&mut current, c);
        }
    }
    let ghost done = words.deep_view();
    let ghost word = current@;
    proof {
        assert(text@.skip(text@.len() as int) == Seq::<char>::empty());
    }
    if !current.as_str().is_empty() {
        words.push(current);
    }
    proof {
        assert(words.deep_view() == done + flush(word));
    }
    words
}

/// Joins `words` into one text, with a single space between neighbours.
pub fn join(words: &Vec<String>) -> (text: String)
    ensures
        text@ == join_words(words.deep_view()),
{
    let mut text = String::new();
    let mut i: usize = 0;
    while i < words.len()
        invariant
            i <= words.len(),
            text@ == join_words(words.deep_view().take(i as int)),
        decreases words.len() - i,
    {
        let ghost before = words.deep_view().take(i as int);
        let ghost after = words.deep_view().take(i + 1);
        proof {
            assert(after.drop_last() == before);
            assert(after.last() == words[i as int]@);
        }
        if i > 0 {
            push_char(&mut text, ' ');
        }
        text.append(words[i].as_str());
        proof {
            assert(seq![' '] == Seq::<char>::empty().push(' '));
            if i == 0 {
                assert(after.len() == 1);
                assert(Seq::<char>::empty() + words[i as int]@ == words[i as int]@);
            }
        }
        i = i + 1;
    }
    proof {
        assert(words.deep_view().take(words.len() as int) == words.deep_view());
    }
    text
}

} // verus!
