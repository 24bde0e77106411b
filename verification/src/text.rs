//! Text primitives: whitespace, placeholder substitution, joining and
//! splitting of command lines.

use vstd::prelude::*;
use vstd::string::*;
use vstd::std_specs::iter::IteratorSpec;

verus! {

/// The views of a list of strings.
pub open spec fn texts(v: Seq<String>) -> Seq<Seq<char>> {
    Seq::new(v.len(), |i: int| v[i]@)
}

/// The views of a list with one more string are the views of the list with
/// one more view.
pub proof fn lemma_texts_push(v: Seq<String>, s: String)
    ensures
        texts(v.push(s)) == texts(v).push(s@),
{
    assert(texts(v.push(s)) =~= texts(v).push(s@));
}

/// `String::push` of the standard library: the string afterwards is the
/// string before with `c` as one more character at its end.
pub assume_specification[ String::push ](s: &mut String, c: char)
    ensures
        final(s)@ == old(s)@.push(c),
;

/// The characters of `s`.
pub fn chars_of(s: &str) -> (out: Vec<char>)
    ensures
        out@ == s@,
{
    broadcast use vstd::string::axiom_spec_iter, vstd::string::next_postcondition;

    let mut out: Vec<char> = Vec::new();
    let mut it = s.chars();
    loop
        invariant
            out@ + it.remaining() == s@,
            it.decrease() is Some,
        ensures
            out@ == s@,
        decreases it.decrease()->0,
    {
        let ghost before = it.remaining();
        match it.next() {
            Some(c) => {
                proof {
                    assert(out@.push(c) + before.drop_first() =~= out@ + before);
                }
                out.push(c);
            },
            None => {
                proof {
                    assert(out@ + before =~= out@);
                }
                break ;
            },
        }
    }
    out
}

/// The text of the characters of `chars` from `from` up to `to`.
pub fn text_between(chars: &[char], from: usize, to: usize) -> (out: String)
    requires
        from <= to <= chars@.len(),
    ensures
        out@ == chars@.subrange(from as int, to as int),
{
    let mut out = String::new();
    let mut i: usize = from;
    proof {
        assert(out@ =~= chars@.subrange(from as int, from as int));
    }
    while i < to
        invariant
            from <= i <= to <= chars@.len(),
            out@ == chars@.subrange(from as int, i as int),
        decreases to - i,
    {
        proof {
            assert(chars@.subrange(from as int, i as int).push(chars@[i as int])
                =~= chars@.subrange(from as int, i + 1));
        }
        out.push(chars[i]);
        i += 1;
    }
    out
}

/// Whether `c` is one of the characters that Unicode gives the property
/// White_Space.
pub open spec fn is_space(c: char) -> bool {
    let u = c as u32;
    ||| 0x09 <= u <= 0x0D
    ||| u == 0x20
    ||| u == 0x85
    ||| u == 0xA0
    ||| u == 0x1680
    ||| 0x2000 <= u <= 0x200A
    ||| u == 0x2028
    ||| u == 0x2029
    ||| u == 0x202F
    ||| u == 0x205F
    ||| u == 0x3000
}

/// Decides `is_space`.
pub fn is_space_char(c: char) -> (b: bool)
    ensures
        b == is_space(c),
{
    let u: u32 = c as u32;
    (0x09 <= u && u <= 0x0D) || u == 0x20 || u == 0x85 || u == 0xA0 || u == 0x1680 || (0x2000 <= u
        && u <= 0x200A) || u == 0x2028 || u == 0x2029 || u == 0x202F || u == 0x205F || u == 0x3000
}

/// The placeholder that a command template holds.
pub open spec fn placeholder() -> char {
    '$'
}

/// `template` with every placeholder replaced by `value`.
pub open spec fn substitute(template: Seq<char>, value: Seq<char>) -> Seq<char>
    decreases template.len(),
{
    if template.len() == 0 {
        Seq::empty()
    } else if template.last() == placeholder() {
        substitute(template.drop_last(), value) + value
    } else {
        substitute(template.drop_last(), value).push(template.last())
    }
}

/// A template without placeholder is kept as it is.
pub proof fn lemma_substitute_plain(template: Seq<char>, value: Seq<char>)
    requires
        forall|i: int| 0 <= i < template.len() ==> template[i] != placeholder(),
    ensures
        substitute(template, value) == template,
    decreases template.len(),
{
    if template.len() > 0 {
        lemma_substitute_plain(template.drop_last(), value);
        assert(template.drop_last().push(template.last()) =~= template);
    }
}

/// In a template with one placeholder, the value takes the placeholder's
/// place and the rest is kept.
pub proof fn substitute_fills_the_placeholder(template: Seq<char>, value: Seq<char>, at: int)
    requires
        0 <= at < template.len(),
        template[at] == placeholder(),
        forall|i: int| 0 <= i < template.len() && i != at ==> template[i] != placeholder(),
    ensures
        substitute(template, value) == template.take(at) + value + template.skip(at + 1),
    decreases template.len(),
{
    let init = template.drop_last();
    if at == template.len() - 1 {
        lemma_substitute_plain(init, value);
        assert(template.take(at) =~= init);
        assert(template.skip(at + 1) =~= Seq::<char>::empty());
        assert(init + value + Seq::<char>::empty() =~= init + value);
    } else {
        substitute_fills_the_placeholder(init, value, at);
        assert(init.take(at) =~= template.take(at));
        assert((init.take(at) + value + init.skip(at + 1)).push(template.last())
            =~= template.take(at) + value + template.skip(at + 1));
    }
}

/// The items of `items` in order, with one space between neighbours.
pub open spec fn join_spaced(items: Seq<Seq<char>>) -> Seq<char>
    decreases items.len(),
{
    if items.len() == 0 {
        Seq::empty()
    } else if items.len() == 1 {
        items[0]
    } else {
        join_spaced(items.drop_last()).push(' ') + items.last()
    }
}

/// The length of the longest prefix of `s` that holds no whitespace.
pub open spec fn word_len(s: Seq<char>) -> int
    decreases s.len(),
{
    if s.len() == 0 || is_space(s[0]) {
        0
    } else {
        1 + word_len(s.drop_first())
    }
}

/// The maximal runs of non-whitespace characters of `s`, in order.
pub open spec fn tokens(s: Seq<char>) -> Seq<Seq<char>>
    decreases s.len(),
{
    if s.len() == 0 {
        Seq::empty()
    } else if is_space(s[0]) {
        tokens(s.drop_first())
    } else {
        let n = word_len(s);
        if 0 < n <= s.len() {
            seq![s.take(n)] + tokens(s.skip(n))
        } else {
            Seq::empty()
        }
    }
}

/// `word_len` is the index of the first whitespace character, or the length
/// where there is none.
pub proof fn lemma_word_len(s: Seq<char>, k: int)
    requires
        0 <= k <= s.len(),
        forall|j: int| 0 <= j < k ==> !is_space(#[trigger] s[j]),
        k == s.len() || is_space(s[k]),
    ensures
        word_len(s) == k,
    decreases k,
{
    if k > 0 {
        let t = s.drop_first();
        assert forall|j: int| 0 <= j < k - 1 implies !is_space(#[trigger] t[j]) by {
            assert(t[j] == s[j + 1]);
        }
        lemma_word_len(t, k - 1);
    }
}

/// `word_len` lies within `s`, and before it stands no whitespace.
pub proof fn lemma_word_len_bounds(s: Seq<char>)
    ensures
        0 <= word_len(s) <= s.len(),
        forall|j: int| 0 <= j < word_len(s) ==> !is_space(#[trigger] s[j]),
        s.len() > 0 && !is_space(s[0]) ==> word_len(s) > 0,
    decreases s.len(),
{
    if !(s.len() == 0 || is_space(s[0])) {
        let t = s.drop_first();
        lemma_word_len_bounds(t);
        assert forall|j: int| 0 <= j < word_len(s) implies !is_space(#[trigger] s[j]) by {
            if j > 0 {
                assert(s[j] == t[j - 1]);
            }
        }
    }
}

/// Whether `w` has a character and none that is whitespace.
pub open spec fn is_word(w: Seq<char>) -> bool {
    w.len() > 0 && forall|j: int| 0 <= j < w.len() ==> !is_space(#[trigger] w[j])
}

/// Every word that a line is split into has a character, and none of its
/// characters is whitespace.
pub proof fn words_hold_no_whitespace(s: Seq<char>)
    ensures
        forall|i: int| 0 <= i < tokens(s).len() ==> is_word(#[trigger] tokens(s)[i]),
    decreases s.len(),
{
    if s.len() == 0 {
        assert(tokens(s).len() == 0);
    } else {
        if is_space(s[0]) {
            words_hold_no_whitespace(s.drop_first());
            assert(tokens(s) == tokens(s.drop_first()));
        } else {
            let n = word_len(s);
            lemma_word_len_bounds(s);
            words_hold_no_whitespace(s.skip(n));
            let word = s.take(n);
            assert(tokens(s) == seq![word] + tokens(s.skip(n)));
            assert forall|j: int| 0 <= j < word.len() implies !is_space(#[trigger] word[j]) by {
                assert(word[j] == s[j]);
            }
            assert(is_word(word));
            assert forall|i: int| 0 <= i < tokens(s).len() implies is_word(
                #[trigger] tokens(s)[i],
            ) by {
                if i == 0 {
                    assert(tokens(s)[0] == word);
                } else {
                    assert(tokens(s)[i] == tokens(s.skip(n))[i - 1]);
                }
            }
        }
    }
}

/// Replaces every placeholder of `template` by `value`.
pub fn replace_placeholder(template: &str, value: &str) -> (out: String)
    ensures
        out@ == substitute(template@, value@),
{
    let chars = chars_of(template);
    let n = chars.len();
    let mut out = String::new();
    let mut i: usize = 0;
    while i < n
        invariant
            i <= n,
            n == template@.len(),
            chars@ == template@,
            out@ == substitute(template@.take(i as int), value@),
        decreases n - i,
    {
        proof {
            assert(template@.take(i + 1).drop_last() =~= template@.take(i as int));
        }
        if chars[i] == '$' {
            out.append(value);
        } else {
            out.push(chars[i]);
        }
        i += 1;
    }
    proof {
        assert(template@.take(n as int) =~= template@);
    }
    out
}

/// Joins `items` with one space between neighbours.
pub fn join_with_spaces(items: &[String]) -> (out: String)
    ensures
        out@ == join_spaced(texts(items@)),
{
    let mut out = String::new();
    let mut i: usize = 0;
    while i < items.len()
        invariant
            i <= items.len(),
            out@ == join_spaced(texts(items@).take(i as int)),
        decreases items.len() - i,
    {
        proof {
            let next = texts(items@).take(i + 1);
            assert(next.drop_last() =~= texts(items@).take(i as int));
            assert(next.last() == items@[i as int]@);
            reveal_strlit(" ");
            assert(" "@ =~= seq![' ']);
            assert(i == 0 ==> out@ =~= Seq::<char>::empty());
            assert(i == 0 ==> Seq::<char>::empty() + items@[i as int]@ =~= items@[i as int]@);
            assert(out@ + seq![' '] =~= out@.push(' '));
        }
        if i > 0 {
            out.append(" ");
        }
        out.append(items[i].as_str());
        i += 1;
    }
    proof {
        assert(texts(items@).take(items.len() as int) =~= texts(items@));
    }
    out
}

/// Splits `s` at whitespace into its words.
pub fn split_whitespace(s: &str) -> (out: Vec<String>)
    ensures
        texts(out@) == tokens(s@),
{
    let chars = chars_of(s);
    let n = chars.len();
    let mut out: Vec<String> = Vec::new();
    let mut i: usize = 0;
    proof {
        assert(s@.skip(0) =~= s@);
        assert(texts(out@) + tokens(s@) =~= tokens(s@));
    }
    while i < n
        invariant
            i <= n,
            n == s@.len(),
            chars@ == s@,
            texts(out@) + tokens(s@.skip(i as int)) == tokens(s@),
        decreases n - i,
    {
        let ghost rest = s@.skip(i as int);
        if is_space_char(chars[i]) {
            proof {
                assert(rest.drop_first() =~= s@.skip(i + 1));
            }
            i += 1;
        } else {
            let start = i;
            while i < n && !is_space_char(chars[i])
                invariant
                    start <= i <= n,
                    n == s@.len(),
                    chars@ == s@,
                    forall|k: int| start <= k < i ==> !is_space(#[trigger] s@[k]),
                decreases n - i,
            {
                i += 1;
            }
            let word = text_between(chars.as_slice(), start, i);
            proof {
                let k = i - start;
                assert forall|j: int| 0 <= j < k implies !is_space(#[trigger] rest[j]) by {
                    assert(rest[j] == s@[start + j]);
                }
                lemma_word_len(rest, k);
                assert(rest.take(k) =~= s@.subrange(start as int, i as int));
                assert(rest.skip(k) =~= s@.skip(i as int));
                assert(texts(out@.push(word)) =~= texts(out@).push(word@));
                assert(texts(out@).push(word@) + tokens(s@.skip(i as int)) =~= texts(out@) + (
                seq![word@] + tokens(s@.skip(i as int))));
            }
            out.push(word);
        }
    }
    proof {
        assert(s@.skip(n as int) =~= Seq::<char>::empty());
        assert(texts(out@) + Seq::<Seq<char>>::empty() =~= texts(out@));
    }
    out
}

} // verus!
