//! Text handling that the rendered screen needs: Unicode whitespace, words, lines.
use vstd::prelude::*;
use vstd::string::StrSliceExecFns;
use vstd::string::StringExecFns;

verus! {

/// Whether `c` has the Unicode `White_Space` property, the set that `char::is_whitespace`
/// documents: tab through carriage return, space, next line, no-break space, ogham
/// space mark, en quad through hair space, line and paragraph separators, narrow
/// no-break space, medium mathematical space and ideographic space.
pub open spec fn is_whitespace(c: char) -> bool {
    let u = c as u32;
    (0x09 <= u && u <= 0x0d) || u == 0x20 || u == 0x85 || u == 0xa0 || u == 0x1680
        || (0x2000 <= u && u <= 0x200a) || u == 0x2028 || u == 0x2029 || u == 0x202f
        || u == 0x205f || u == 0x3000
}

pub fn char_is_whitespace(c: char) -> (r: bool)
    ensures
        r == is_whitespace(c),
{
    let u = c as u32;
    (0x09 <= u && u <= 0x0d) || u == 0x20 || u == 0x85 || u == 0xa0 || u == 0x1680
        || (0x2000 <= u && u <= 0x200a) || u == 0x2028 || u == 0x2029 || u == 0x202f
        || u == 0x205f || u == 0x3000
}

/// `String::push`: appends `c`.
#[verifier::external_body]
pub(crate) fn push_char(s: &mut String, c: char)
    ensures
        final(s)@ == old(s)@.push(c),
{
    s.push(c)
}

/// The run of non-whitespace characters that starts `s`.
pub open spec fn first_word(s: Seq<char>) -> Seq<char>
    decreases s.len(),
{
    if s.len() == 0 || is_whitespace(s[0]) {
        Seq::empty()
    } else {
        seq![s[0]] + first_word(s.drop_first())
    }
}

/// The maximal runs of non-whitespace characters of `s`, in order.
pub open spec fn words(s: Seq<char>) -> Seq<Seq<char>>
    decreases s.len(),
{
    if s.len() == 0 {
        Seq::empty()
    } else if is_whitespace(s[0]) {
        words(s.drop_first())
    } else {
        let w = first_word(s);
        proof {
            lemma_first_word_len(s);
        }
        seq![w] + words(s.skip(w.len() as int))
    }
}

/// `parts` with `sep` between each two.
pub open spec fn join(parts: Seq<Seq<char>>, sep: Seq<char>) -> Seq<char>
    decreases parts.len(),
{
    if parts.len() == 0 {
        Seq::empty()
    } else if parts.len() == 1 {
        parts[0]
    } else {
        join(parts.drop_last(), sep) + sep + parts.last()
    }
}

/// The first word is no longer than the text, and not empty where the text starts
/// with a non-whitespace character.
pub proof fn lemma_first_word_len(s: Seq<char>)
    ensures
        first_word(s).len() <= s.len(),
        s.len() > 0 && !is_whitespace(s[0]) ==> first_word(s).len() > 0,
    decreases s.len(),
{
    if s.len() > 0 && !is_whitespace(s[0]) {
        lemma_first_word_len(s.drop_first());
    }
}

/// The first word of `s` from `i` is `s[i..end]` where `end` ends the run.
proof fn lemma_first_word_run(s: Seq<char>, i: int, end: int)
    requires
        0 <= i <= end <= s.len(),
        forall|k: int| i <= k < end ==> !is_whitespace(#[trigger] s[k]),
        end == s.len() || is_whitespace(s[end]),
    ensures
        first_word(s.skip(i)) == s.subrange(i, end),
    decreases end - i,
{
    if i < end {
        lemma_first_word_run(s, i + 1, end);
        assert(s.skip(i).drop_first() =~= s.skip(i + 1));
        assert(s.subrange(i, end) =~= seq![s[i]] + s.subrange(i + 1, end));
    } else {
        assert(s.subrange(i, end) =~= Seq::<char>::empty());
    }
}

/// The words of `s`, each as a string.
pub fn split_whitespace(s: &str) -> (r: Vec<String>)
    ensures
        r@.map_values(|w: String| w@) == words(s@),
{
    let n = s.unicode_len();
    let mut out: Vec<String> = Vec::new();
    let mut i: usize = 0;
    assert(s@.skip(0) =~= s@);
    while i < n
        invariant
            n == s@.len(),
            i <= n,
            words(s@) == out@.map_values(|w: String| w@) + words(s@.skip(i as int)),
        decreases n - i,
    {
        if char_is_whitespace(s.get_char(i)) {
            assert(s@.skip(i as int).drop_first() =~= s@.skip(i + 1));
            i = i + 1;
        } else {
            let start = i;
            while i < n && !char_is_whitespace(s.get_char(i))
                invariant
                    n == s@.len(),
                    start <= i <= n,
                    forall|k: int| start <= k < i ==> !is_whitespace(#[trigger] s@[k]),
                decreases n - i,
            {
                i = i + 1;
            }
            let word = String::from_str(s.substring_char(start, i));
            proof {
                lemma_first_word_run(s@, start as int, i as int);
                let rest = s@.skip(start as int);
                assert(rest.skip((i - start) as int) =~= s@.skip(i as int));
                assert(words(rest) == seq![first_word(rest)] + words(rest.skip(first_word(rest).len() as int)));
            }
            let ghost before = out@.map_values(|w: String| w@);
            out.push(word);
            assert(out@.map_values(|w: String| w@) =~= before.push(word@));
        }
    }
    assert(words(s@.skip(n as int)) =~= Seq::<Seq<char>>::empty()) by {
        assert(s@.skip(n as int).len() == 0);
    }
    assert(out@.map_values(|w: String| w@) + Seq::<Seq<char>>::empty() =~= out@.map_values(|w: String| w@));
    out
}

/// `parts` joined with `sep` between each two.
pub fn join_strings(parts: &Vec<String>, sep: &str) -> (r: String)
    ensures
        r@ == join(parts@.map_values(|w: String| w@), sep@),
{
    let ghost views = parts@.map_values(|w: String| w@);
    let mut out = String::new();
    let mut i: usize = 0;
    while i < parts.len()
        invariant
            i <= parts@.len(),
            views == parts@.map_values(|w: String| w@),
            out@ == join(views.take(i as int), sep@),
        decreases parts@.len() - i,
    {
        if i > 0 {
            out.append(sep);
        }
        out.append(parts[i].as_str());
        assert(views.take(i + 1).drop_last() =~= views.take(i as int));
        if i == 0 {
            assert(views.take(1) =~= seq![views[0]]);
        }
        i = i + 1;
    }
    assert(views.take(parts@.len() as int) =~= views);
    out
}

} // verus!
