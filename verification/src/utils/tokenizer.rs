use vstd::prelude::*;

verus! {

/// The characters that separate words: those with the Unicode property
/// `White_Space`.
pub open spec fn is_space(c: char) -> bool {
    let n = c as u32;
    ||| 0x09 <= n <= 0x0D
    ||| n == 0x20
    ||| n == 0x85
    ||| n == 0xA0
    ||| n == 0x1680
    ||| 0x2000 <= n <= 0x200A
    ||| n == 0x2028
    ||| n == 0x2029
    ||| n == 0x202F
    ||| n == 0x205F
    ||| n == 0x3000
}

/// No character of `word` separates words.
pub open spec fn is_unbroken(word: Seq<char>) -> bool {
    forall|i: int| 0 <= i < word.len() ==> !is_space(#[trigger] word[i])
}

/// The words of a text: its maximal runs of characters that are not
/// separators, in order. Reading the text character by character, a
/// separator ends the word before it, a character after a separator or at
/// the start begins a word, and any other character extends the last word.
pub open spec fn split_words(text: Seq<char>) -> Seq<Seq<char>>
    decreases text.len(),
{
    if text.len() == 0 {
        Seq::empty()
    } else {
        let front = text.drop_last();
        let before = split_words(front);
        if is_space(text.last()) {
            before
        } else if front.len() > 0 && !is_space(front.last()) {
            before.drop_last().push(before.last().push(text.last()))
        } else {
            before.push(seq![text.last()])
        }
    }
}

/// The sequences of `parts` joined end to end.
pub open spec fn concatenation(parts: Seq<Seq<u32>>) -> Seq<u32>
    decreases parts.len(),
{
    if parts.len() == 0 {
        Seq::empty()
    } else {
        concatenation(parts.drop_last()) + parts.last()
    }
}

/// The token ids that the `r50k_base` byte-pair encoding gives to a word,
/// with its special tokens recognised.
pub uninterp spec fn r50k_encoding(word: Seq<char>) -> Seq<u32>;

/// The token ids of a text: those of its words, word after word.
pub open spec fn text_tokens(text: Seq<char>) -> Seq<u32> {
    concatenation(split_words(text).map_values(|w: Seq<char>| r50k_encoding(w)))
}

/// Every word of a text is non-empty and holds no separator, and a text
/// that ends in a word has that word last.
pub proof fn lemma_words_are_unbroken(text: Seq<char>)
    ensures
        forall|k: int|
            0 <= k < split_words(text).len() ==> (#[trigger] split_words(text)[k]).len() > 0
                && is_unbroken(split_words(text)[k]),
        text.len() > 0 && !is_space(text.last()) ==> split_words(text).len() > 0,
    decreases text.len(),
{
    if text.len() > 0 {
        let front = text.drop_last();
        lemma_words_are_unbroken(front);
        let before = split_words(front);
        let after = split_words(text);
        if !is_space(text.last()) {
            assert forall|k: int| 0 <= k < after.len() implies (#[trigger] after[k]).len() > 0
                && is_unbroken(after[k]) by {
                if k < after.len() - 1 {
                    assert(after[k] == before[k]);
                } else if front.len() > 0 && !is_space(front.last()) {
                    assert(is_unbroken(before.last()));
                }
            }
        }
    }
}

/// A non-empty text without a separator is a single word.
pub proof fn lemma_unbroken_text_is_one_word(word: Seq<char>)
    requires
        word.len() > 0,
        is_unbroken(word),
    ensures
        split_words(word) == seq![word],
    decreases word.len(),
{
    let front = word.drop_last();
    assert(!is_space(word[word.len() - 1]));
    if front.len() == 0 {
        assert(split_words(front) =~= Seq::empty());
        assert(seq![word.last()] =~= word);
        assert(split_words(front).push(seq![word.last()]) =~= seq![word]);
    } else {
        assert(is_unbroken(front)) by {
            assert forall|i: int| 0 <= i < front.len() implies !is_space(#[trigger] front[i]) by {
                assert(front[i] == word[i]);
            }
        }
        lemma_unbroken_text_is_one_word(front);
        assert(!is_space(front[front.len() - 1]));
        assert(front.push(word.last()) =~= word);
        assert(seq![front].drop_last().push(seq![front].last().push(word.last())) =~= seq![word]);
    }
}

/// A separator between two texts splits them apart: the words of the whole
/// are the words of the first text followed by the words of the second.
pub proof fn lemma_separator_splits(first: Seq<char>, c: char, second: Seq<char>)
    requires
        is_space(c),
    ensures
        split_words(first.push(c) + second) == split_words(first) + split_words(second),
    decreases second.len(),
{
    let whole = first.push(c) + second;
    if second.len() == 0 {
        assert(whole =~= first.push(c));
        assert(whole.drop_last() =~= first);
        assert(split_words(first) + split_words(second) =~= split_words(first));
    } else {
        let shorter = second.drop_last();
        let x = second.last();
        lemma_separator_splits(first, c, shorter);
        lemma_words_are_unbroken(shorter);
        assert(whole.drop_last() =~= first.push(c) + shorter);
        assert(whole.last() == x);
        let before = split_words(first) + split_words(shorter);
        if is_space(x) {
        } else if shorter.len() > 0 && !is_space(shorter.last()) {
            assert(whole.drop_last().last() == shorter.last());
            assert(before.drop_last() =~= split_words(first) + split_words(shorter).drop_last());
            assert(before.last() == split_words(shorter).last());
            assert(before.drop_last().push(before.last().push(x)) =~= split_words(first)
                + split_words(second));
        } else {
            if shorter.len() == 0 {
                assert(whole.drop_last().last() == c);
            } else {
                assert(whole.drop_last().last() == shorter.last());
            }
            assert(before.push(seq![x]) =~= split_words(first) + split_words(second));
        }
    }
}

/// Whether `c` separates words.
pub fn separates(c: char) -> (b: bool)
    ensures
        b == is_space(c),
{
    let n = c as u32;
    (0x09 <= n && n <= 0x0D) || n == 0x20 || n == 0x85 || n == 0xA0 || n == 0x1680 || (0x2000 <= n
        && n <= 0x200A) || n == 0x2028 || n == 0x2029 || n == 0x202F || n == 0x205F || n == 0x3000
}

/// What has been split off the first `i` characters of `text`: the
/// finished words, and the word in progress from `start` where `inside`.
spec fn split_so_far(
    text: Seq<char>,
    i: int,
    words: Seq<Seq<char>>,
    inside: bool,
    start: int,
) -> bool {
    if inside {
        &&& 0 <= start < i
        &&& !is_space(text[i - 1])
        &&& words.push(text.subrange(start, i)) == split_words(text.take(i))
    } else {
        &&& i > 0 ==> is_space(text[i - 1])
        &&& words == split_words(text.take(i))
    }
}

/// Splits a text into its words.
pub fn split_whitespace(text: &str) -> (words: Vec<String>)
    ensures
        words.deep_view() == split_words(text@),
{
    let n = text.unicode_len();
    let mut words: Vec<String> = Vec::new();
    let mut start: usize = 0;
    let mut inside = false;
    let mut i: usize = 0;
    proof {
        assert(text@.take(0) =~= Seq::empty());
        assert(words.deep_view() =~= Seq::empty());
    }
    for c in it: text.chars()
        invariant
            i == it.index(),
            it.seq() == text@,
            n == text@.len(),
            split_so_far(text@, i as int, words.deep_view(), inside, start as int),
    {
        let ghost before = words.deep_view();
        proof {
            assert(text@.take(i + 1).drop_last() =~= text@.take(i as int));
            assert(text@.take(i + 1).last() == c);
            if i > 0 {
                assert(text@.take(i as int).last() == text@[i - 1]);
            }
        }
        if separates(c) {
            if inside {
                words.push(text.substring_char(start, i).to_owned());
                inside = false;
                proof {
                    assert(words.deep_view() =~= before.push(text@.subrange(start as int, i as int)));
                }
            }
        } else {
            if !inside {
                start = i;
                inside = true;
                proof {
                    assert(text@.subrange(i as int, i + 1) =~= seq![c]);
                }
            } else {
                proof {
                    let run = text@.subrange(start as int, i as int);
                    assert(before.push(run).drop_last() =~= before);
                    assert(run.push(c) =~= text@.subrange(start as int, i + 1));
                }
            }
        }
        i += 1;
    }
    proof {
        assert(text@.take(i as int) =~= text@);
    }
    if inside {
        let ghost before = words.deep_view();
        words.push(text.substring_char(start, i).to_owned());
        proof {
            assert(words.deep_view() =~= before.push(text@.subrange(start as int, i as int)));
        }
    }
    words
}

/// Joins the token ids of the parts end to end.
pub fn join_tokens(parts: &Vec<Vec<u32>>) -> (all: Vec<u32>)
    ensures
        all@ == concatenation(parts.deep_view()),
{
    let mut all: Vec<u32> = Vec::new();
    let mut k: usize = 0;
    proof {
        assert(parts.deep_view().take(0) =~= Seq::empty());
    }
    while k < parts.len()
        invariant
            k <= parts.len(),
            all@ == concatenation(parts.deep_view().take(k as int)),
        decreases parts.len() - k,
    {
        let part = &parts[k];
        let ghost joined = all@;
        proof {
            let shown = parts.deep_view();
            assert(shown.take(k + 1).drop_last() =~= shown.take(k as int));
            assert(shown.take(k + 1).last() =~= part@);
        }
        let mut j: usize = 0;
        while j < part.len()
            invariant
                j <= part.len(),
                all@ == joined + part@.take(j as int),
            decreases part.len() - j,
        {
            all.push(part[j]);
            proof {
                assert(part@.take(j + 1) =~= part@.take(j as int).push(part@[j as int]));
            }
            j += 1;
        }
        proof {
            assert(part@.take(j as int) =~= part@);
        }
        k += 1;
    }
    proof {
        assert(parts.deep_view().take(k as int) =~= parts.deep_view());
    }
    all
}

/// Encodes one word with the `r50k_base` tokenizer.
///
/// Calls `tiktoken_rs::r50k_base_singleton` for the tokenizer and
/// `CoreBPE::encode_with_special_tokens` on it. The tokenizer is built once
/// from the vocabulary that ships with the crate, so the token ids depend on
/// the word alone; the contract gives them a name and says nothing more of
/// them. It is claimed only of words without separators, which are all that
/// this library encodes.
#[verifier::external_body]
fn encode_word(word: &str) -> (tokens: Vec<u32>)
    requires
        is_unbroken(word@),
    ensures
        tokens@ == r50k_encoding(word@),
{
    tiktoken_rs::r50k_base_singleton().encode_with_special_tokens(word)
}

/// Turns a text into token ids: the text is split into words, and each
/// word is encoded by itself.
pub fn create_string_tokens(email: &str) -> (tokens: Vec<u32>)
    ensures
        tokens@ == text_tokens(email@),
{
    let words = split_whitespace(email);
    let ghost encoded = split_words(email@).map_values(|w: Seq<char>| r50k_encoding(w));
    let mut parts: Vec<Vec<u32>> = Vec::new();
    let mut k: usize = 0;
    proof {
        lemma_words_are_unbroken(email@);
    }
    while k < words.len()
        invariant
            k <= words.len(),
            words.deep_view() == split_words(email@),
            encoded == split_words(email@).map_values(|w: Seq<char>| r50k_encoding(w)),
            parts.len() == k,
            forall|j: int| 0 <= j < k ==> (#[trigger] parts@[j])@ == encoded[j],
            forall|j: int|
                0 <= j < split_words(email@).len() ==> is_unbroken(
                    #[trigger] split_words(email@)[j],
                ),
        decreases words.len() - k,
    {
        assert(words[k as int]@ == split_words(email@)[k as int]);
        let part = encode_word(words[k].as_str());
        parts.push(part);
        k += 1;
    }
    proof {
        assert(words.deep_view().len() == words.len());
        assert forall|j: int| 0 <= j < parts.len() implies #[trigger] parts.deep_view()[j]
            == encoded[j] by {
            assert(parts.deep_view()[j] =~= parts@[j]@);
        }
        assert(parts.deep_view() =~= encoded);
    }
    join_tokens(&parts)
}

} // verus!
