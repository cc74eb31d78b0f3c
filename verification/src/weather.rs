//! The weather report shown in the corner of the screen: the fetched text, trimmed,
//! split into lines, dedented by the smallest indentation of its non-blank lines, with
//! trailing whitespace removed, and the size of the box it needs.
use vstd::prelude::*;
use vstd::string::StrSliceExecFns;
use vstd::string::StringExecFns;
use vstd::utf8::encode_utf8;
use crate::text::{char_is_whitespace, is_whitespace, join, join_strings};

verus! {

/// The number of bytes `s` takes in UTF-8.
pub open spec fn byte_len(s: Seq<char>) -> nat {
    encode_utf8(s).len()
}

/// `s` without the newlines and spaces that end it.
pub open spec fn trim_end_newlines(s: Seq<char>) -> Seq<char>
    decreases s.len(),
{
    if s.len() > 0 && (s.last() == '\n' || s.last() == ' ') {
        trim_end_newlines(s.drop_last())
    } else {
        s
    }
}

/// `s` without the whitespace that ends it.
pub open spec fn trim_end_whitespace(s: Seq<char>) -> Seq<char>
    decreases s.len(),
{
    if s.len() > 0 && is_whitespace(s.last()) {
        trim_end_whitespace(s.drop_last())
    } else {
        s
    }
}

/// The index of the first newline of `s`, or its length where there is none.
pub open spec fn newline_index(s: Seq<char>) -> nat
    decreases s.len(),
{
    if s.len() == 0 || s[0] == '\n' {
        0
    } else {
        1 + newline_index(s.drop_first())
    }
}

/// `line` without a carriage return that ends it.
pub open spec fn strip_cr(line: Seq<char>) -> Seq<char> {
    if line.len() > 0 && line.last() == '\r' { line.drop_last() } else { line }
}

/// The lines of `s` as `str::lines` gives them: split at each newline, a carriage return
/// before the newline dropped; a final newline ends the last line rather than starting
/// an empty one, and a carriage return that ends the text stays.
pub open spec fn text_lines(s: Seq<char>) -> Seq<Seq<char>>
    decreases s.len(),
{
    if s.len() == 0 {
        Seq::empty()
    } else {
        let e = newline_index(s);
        if e >= s.len() {
            seq![s]
        } else {
            proof {
                lemma_newline_index_bound(s);
            }
            seq![strip_cr(s.take(e as int))] + text_lines(s.skip((e + 1) as int))
        }
    }
}

/// How many whitespace characters start `s`.
pub open spec fn leading_whitespace(s: Seq<char>) -> nat
    decreases s.len(),
{
    if s.len() > 0 && is_whitespace(s[0]) {
        1 + leading_whitespace(s.drop_first())
    } else {
        0
    }
}

/// Whether `s` is whitespace only.
pub open spec fn is_blank(s: Seq<char>) -> bool {
    leading_whitespace(s) == s.len()
}

/// The indentation of `s` in bytes.
pub open spec fn indent_bytes(s: Seq<char>) -> nat {
    byte_len(s.take(leading_whitespace(s) as int))
}

/// The smallest indentation of the non-blank lines, or 0 where all are blank.
pub open spec fn common_indent(lines: Seq<Seq<char>>) -> nat
    decreases lines.len(),
{
    if lines.len() == 0 {
        0
    } else {
        let rest = common_indent(lines.drop_last());
        let l = lines.last();
        if is_blank(l) {
            rest
        } else if all_blank(lines.drop_last()) || indent_bytes(l) < rest {
            indent_bytes(l)
        } else {
            rest
        }
    }
}

/// Whether every line is blank.
pub open spec fn all_blank(lines: Seq<Seq<char>>) -> bool {
    forall|i: int| 0 <= i < lines.len() ==> is_blank(#[trigger] lines[i])
}

/// The number of characters of `s` that take `bytes` bytes, where a character ends
/// exactly there.
pub open spec fn chars_in_bytes(s: Seq<char>, bytes: nat) -> Option<nat>
    decreases s.len(),
{
    if bytes == 0 {
        Some(0)
    } else if s.len() == 0 {
        None
    } else {
        let w = byte_len(seq![s[0]]);
        if w > bytes {
            None
        } else {
            match chars_in_bytes(s.drop_first(), (bytes - w) as nat) {
                Some(k) => Some(k + 1),
                None => None,
            }
        }
    }
}

/// `line` without its first `indent` bytes, or empty where no character ends there.
pub open spec fn dedent(line: Seq<char>, indent: nat) -> Seq<char> {
    match chars_in_bytes(line, indent) {
        Some(k) => line.skip(k as int),
        None => Seq::empty(),
    }
}

/// The lines of the weather report as shown.
pub open spec fn report_lines(raw: Seq<char>) -> Seq<Seq<char>> {
    let lines = text_lines(trim_end_newlines(raw));
    let indent = common_indent(lines);
    lines.map_values(|l: Seq<char>| trim_end_whitespace(dedent(l, indent)))
}

/// The length of the longest line, or 0 where there is none.
pub open spec fn longest(lines: Seq<Seq<char>>) -> nat
    decreases lines.len(),
{
    if lines.len() == 0 {
        0
    } else {
        let rest = longest(lines.drop_last());
        if lines.last().len() > rest { lines.last().len() } else { rest }
    }
}

// ---------------------------------------------------------------------------
// Facts.
// ---------------------------------------------------------------------------

pub proof fn lemma_newline_index_bound(s: Seq<char>)
    ensures
        newline_index(s) <= s.len(),
        newline_index(s) < s.len() ==> s[newline_index(s) as int] == '\n',
        forall|k: int| 0 <= k < newline_index(s) ==> s[k] != '\n',
    decreases s.len(),
{
    if s.len() > 0 && s[0] != '\n' {
        lemma_newline_index_bound(s.drop_first());
        assert forall|k: int| 0 <= k < newline_index(s) implies s[k] != '\n' by {
            if k > 0 {
                assert(s[k] == s.drop_first()[k - 1]);
            }
        }
    }
}

/// The UTF-8 text of one character is that character's encoding.
proof fn lemma_encode_one(c: char)
    ensures
        encode_utf8(seq![c]) == vstd::utf8::encode_scalar(c as u32),
        1 <= encode_utf8(seq![c]).len() <= 4,
{
    assert(seq![c].drop_first() =~= Seq::<char>::empty());
    assert(encode_utf8(Seq::<char>::empty()) =~= Seq::<u8>::empty());
    assert(encode_utf8(seq![c]) =~= vstd::utf8::encode_scalar(c as u32));
    vstd::utf8::char_is_scalar(c);
}

proof fn lemma_encode_concat(a: Seq<char>, b: Seq<char>)
    ensures
        encode_utf8(a + b) == encode_utf8(a) + encode_utf8(b),
    decreases a.len(),
{
    if a.len() == 0 {
        assert(a + b =~= b);
    } else {
        lemma_encode_concat(a.drop_first(), b);
        assert((a + b).drop_first() =~= a.drop_first() + b);
        lemma_encode_one(a[0]);
        assert(encode_utf8(a) == encode_utf8(seq![a[0]]) + encode_utf8(a.drop_first()));
        assert((a + b)[0] == a[0]);
        assert(encode_utf8(a + b) == encode_utf8(seq![a[0]]) + encode_utf8((a + b).drop_first()));
        assert(encode_utf8(a + b) =~= encode_utf8(a) + encode_utf8(b));
    }
}

/// The byte length of a prefix grows by the width of each next character.
pub proof fn lemma_byte_len_push(s: Seq<char>, k: int)
    requires
        0 <= k < s.len(),
    ensures
        byte_len(s.take(k + 1)) == byte_len(s.take(k)) + byte_len(seq![s[k]]),
        1 <= byte_len(seq![s[k]]) <= 4,
{
    assert(s.take(k + 1) =~= s.take(k) + seq![s[k]]);
    lemma_encode_concat(s.take(k), seq![s[k]]);
    lemma_encode_one(s[k]);
}

/// Counting characters by bytes from position `k` on.
proof fn lemma_chars_in_bytes_skip(s: Seq<char>, bytes: nat, k: int)
    requires
        0 <= k <= s.len(),
        byte_len(s.take(k)) <= bytes,
        forall|j: int| 0 <= j < k ==> byte_len(s.take(j)) < bytes,
    ensures
        chars_in_bytes(s, bytes) == match chars_in_bytes(s.skip(k), (bytes - byte_len(s.take(k))) as nat) {
            Some(c) => Some(c + k as nat),
            None => None::<nat>,
        },
    decreases k,
{
    if k > 0 {
        assert(byte_len(s.take(0)) < bytes);
        assert(s.take(0) =~= Seq::<char>::empty());
        let w = byte_len(seq![s[0]]);
        lemma_byte_len_push(s, 0);
        assert(s.take(1) =~= seq![s[0]]);
        let t = s.drop_first();
        assert forall|j: int| 0 <= j < k - 1 implies byte_len(t.take(j)) < bytes - w by {
            lemma_byte_len_prefix(s, j);
        }
        lemma_byte_len_prefix(s, k - 1);
        lemma_chars_in_bytes_skip(t, (bytes - w) as nat, k - 1);
        assert(t.skip(k - 1) =~= s.skip(k));
    } else {
        assert(s.skip(0) =~= s);
        assert(s.take(0) =~= Seq::<char>::empty());
    }
}

/// The bytes of `s[..j + 1]` are those of `s[0]` then those of `s[1..j + 1]`.
proof fn lemma_byte_len_prefix(s: Seq<char>, j: int)
    requires
        0 <= j < s.len(),
    ensures
        byte_len(s.take(j + 1)) == byte_len(seq![s[0]]) + byte_len(s.drop_first().take(j)),
{
    assert(s.take(j + 1) =~= seq![s[0]] + s.drop_first().take(j));
    lemma_encode_concat(seq![s[0]], s.drop_first().take(j));
}


proof fn lemma_newline_index_at(s: Seq<char>, start: int, e: int)
    requires
        0 <= start <= e <= s.len(),
        forall|k: int| start <= k < e ==> #[trigger] s[k] != '\n',
        e == s.len() || s[e] == '\n',
    ensures
        newline_index(s.skip(start)) == e - start,
    decreases e - start,
{
    if start < e {
        lemma_newline_index_at(s, start + 1, e);
        assert(s.skip(start).drop_first() =~= s.skip(start + 1));
    }
}

proof fn lemma_leading_whitespace_at(s: Seq<char>, k: int)
    requires
        0 <= k <= s.len(),
        forall|j: int| 0 <= j < k ==> is_whitespace(#[trigger] s[j]),
        k == s.len() || !is_whitespace(s[k]),
    ensures
        leading_whitespace(s.skip(0)) == k,
    decreases k,
{
    assert(s.skip(0) =~= s);
    if k > 0 {
        let t = s.drop_first();
        assert forall|j: int| 0 <= j < k - 1 implies is_whitespace(#[trigger] t[j]) by {
            assert(t[j] == s[j + 1]);
        }
        lemma_leading_whitespace_at(t, k - 1);
        assert(t.skip(0) =~= t);
    }
}

proof fn lemma_trim_end_prefix(s: Seq<char>, t: int)
    requires
        0 <= t <= s.len(),
        forall|j: int| t <= j < s.len() ==> is_whitespace(#[trigger] s[j]),
    ensures
        trim_end_whitespace(s) == trim_end_whitespace(s.take(t)),
    decreases s.len() - t,
{
    if t < s.len() {
        assert(s.drop_last().len() == s.len() - 1);
        lemma_trim_end_prefix(s.drop_last(), t);
        assert(s.drop_last().take(t) =~= s.take(t));
    } else {
        assert(s.take(t) =~= s);
    }
}

proof fn lemma_trim_end_newlines_prefix(s: Seq<char>, e: int)
    requires
        0 <= e <= s.len(),
        forall|j: int| e <= j < s.len() ==> (#[trigger] s[j] == '\n' || s[j] == ' '),
    ensures
        trim_end_newlines(s) == trim_end_newlines(s.take(e)),
    decreases s.len() - e,
{
    if e < s.len() {
        lemma_trim_end_newlines_prefix(s.drop_last(), e);
        assert(s.drop_last().take(e) =~= s.take(e));
    } else {
        assert(s.take(e) =~= s);
    }
}

// ---------------------------------------------------------------------------
// Computation.
// ---------------------------------------------------------------------------

/// The bytes `c` takes in UTF-8.
fn utf8_width(c: char) -> (r: u128)
    ensures
        r == byte_len(seq![c]),
        1 <= r <= 4,
{
    proof {
        lemma_encode_one(c);
    }
    let u = c as u32;
    if u <= 0x7f {
        1
    } else if u <= 0x7ff {
        2
    } else if u <= 0xffff {
        3
    } else {
        4
    }
}

/// `s` without the newlines and spaces that end it.
fn trim_end_newlines_exec(s: &str) -> (r: &str)
    ensures
        r@ == trim_end_newlines(s@),
{
    let n = s.unicode_len();
    let mut e: usize = n;
    while e > 0 && (s.get_char(e - 1) == '\n' || s.get_char(e - 1) == ' ')
        invariant
            n == s@.len(),
            e <= n,
            forall|j: int| e <= j < n ==> (#[trigger] s@[j] == '\n' || s@[j] == ' '),
        decreases e,
    {
        e = e - 1;
    }
    proof {
        lemma_trim_end_newlines_prefix(s@, e as int);
    }
    let r = s.substring_char(0, e);
    assert(r@ =~= s@.take(e as int));
    r
}

/// The lines of `s`, as `str::lines` splits them.
fn split_lines(s: &str) -> (r: Vec<String>)
    ensures
        r@.map_values(|l: String| l@) == text_lines(s@),
{
    let n = s.unicode_len();
    let mut out: Vec<String> = Vec::new();
    let mut start: usize = 0;
    assert(s@.skip(0) =~= s@);
    while start < n
        invariant
            n == s@.len(),
            start <= n,
            text_lines(s@) == out@.map_values(|l: String| l@) + text_lines(s@.skip(start as int)),
        decreases n - start,
    {
        let mut e: usize = start;
        while e < n && s.get_char(e) != '\n'
            invariant
                n == s@.len(),
                start <= e <= n,
                forall|k: int| start <= k < e ==> #[trigger] s@[k] != '\n',
            decreases n - e,
        {
            e = e + 1;
        }
        proof {
            lemma_newline_index_at(s@, start as int, e as int);
        }
        let ghost rest = s@.skip(start as int);
        let ghost before = out@.map_values(|l: String| l@);
        if e < n {
            let end = if e > start && s.get_char(e - 1) == '\r' { e - 1 } else { e };
            let line = String::from_str(s.substring_char(start, end));
            proof {
                assert(rest.take((e - start) as int) =~= s@.subrange(start as int, e as int));
                assert(line@ =~= strip_cr(rest.take((e - start) as int)));
                assert(rest.skip((e - start + 1) as int) =~= s@.skip(e + 1));
            }
            out.push(line);
            assert(out@.map_values(|l: String| l@) =~= before.push(strip_cr(rest.take((e - start) as int))));
            start = e + 1;
        } else {
            let line = String::from_str(s.substring_char(start, n));
            proof {
                assert(line@ =~= rest);
                assert(s@.skip(n as int) =~= Seq::<char>::empty());
            }
            out.push(line);
            assert(out@.map_values(|l: String| l@) =~= before.push(rest));
            start = n;
        }
    }
    assert(s@.skip(n as int) =~= Seq::<char>::empty());
    assert(out@.map_values(|l: String| l@) + Seq::<Seq<char>>::empty() =~= out@.map_values(|l: String| l@));
    out
}

/// How many whitespace characters start `s`.
fn count_leading_whitespace(s: &str) -> (r: usize)
    ensures
        r == leading_whitespace(s@),
        r <= s@.len(),
{
    let n = s.unicode_len();
    let mut k: usize = 0;
    while k < n && char_is_whitespace(s.get_char(k))
        invariant
            n == s@.len(),
            k <= n,
            forall|j: int| 0 <= j < k ==> is_whitespace(#[trigger] s@[j]),
        decreases n - k,
    {
        k = k + 1;
    }
    proof {
        lemma_leading_whitespace_at(s@, k as int);
        assert(s@.skip(0) =~= s@);
    }
    k
}

/// The number of bytes the first `k` characters of `s` take.
fn prefix_bytes(s: &str, k: usize) -> (r: u128)
    requires
        k <= s@.len(),
    ensures
        r == byte_len(s@.take(k as int)),
{
    let mut j: usize = 0;
    let mut b: u128 = 0;
    assert(s@.take(0) =~= Seq::<char>::empty());
    assert(encode_utf8(Seq::<char>::empty()) =~= Seq::<u8>::empty());
    while j < k
        invariant
            k <= s@.len(),
            j <= k,
            b == byte_len(s@.take(j as int)),
            b <= 4 * j,
        decreases k - j,
    {
        proof {
            lemma_byte_len_push(s@, j as int);
        }
        b = b + utf8_width(s.get_char(j));
        j = j + 1;
    }
    b
}

/// The smallest indentation, in bytes, of the non-blank lines.
fn common_indent_exec(lines: &Vec<String>) -> (r: u128)
    ensures
        r == common_indent(lines@.map_values(|l: String| l@)),
{
    let ghost views = lines@.map_values(|l: String| l@);
    let mut indent: u128 = 0;
    let mut found = false;
    let mut i: usize = 0;
    assert(views.take(0) =~= Seq::<Seq<char>>::empty());
    while i < lines.len()
        invariant
            i <= lines@.len(),
            views == lines@.map_values(|l: String| l@),
            found == !all_blank(views.take(i as int)),
            indent == common_indent(views.take(i as int)),
        decreases lines@.len() - i,
    {
        let l = lines[i].as_str();
        let k = count_leading_whitespace(l);
        let n = l.unicode_len();
        let ghost prev = views.take(i as int);
        assert(views.take(i + 1).drop_last() =~= prev);
        assert(views.take(i + 1).last() == l@);
        if k < n {
            let bytes = prefix_bytes(l, k);
            assert(bytes == indent_bytes(l@));
            assert(!is_blank(l@));
            if !found || bytes < indent {
                indent = bytes;
            }
            found = true;
            assert(!all_blank(views.take(i + 1))) by {
                assert(!is_blank(views.take(i + 1)[i as int]));
            }
        } else {
            assert(all_blank(views.take(i + 1)) == all_blank(prev)) by {
                if all_blank(prev) {
                    assert forall|j: int| 0 <= j < i + 1 implies is_blank(#[trigger] views.take(i + 1)[j]) by {
                        if j < i {
                            assert(views.take(i + 1)[j] == prev[j]);
                        }
                    }
                } else {
                    let j = choose|j: int| 0 <= j < i && !is_blank(#[trigger] prev[j]);
                    assert(views.take(i + 1)[j] == prev[j]);
                }
            }
        }
        i = i + 1;
    }
    assert(views.take(lines@.len() as int) =~= views);
    indent
}

/// `line` without its first `indent` bytes, or empty where no character ends there,
/// and without trailing whitespace.
fn shown_line(line: &str, indent: u128) -> (r: String)
    ensures
        r@ == trim_end_whitespace(dedent(line@, indent as nat)),
{
    let n = line.unicode_len();
    let mut j: usize = 0;
    let mut b: u128 = 0;
    assert(line@.take(0) =~= Seq::<char>::empty());
    assert(encode_utf8(Seq::<char>::empty()) =~= Seq::<u8>::empty());
    while j < n && b < indent
        invariant
            n == line@.len(),
            j <= n,
            b == byte_len(line@.take(j as int)),
            b <= 4 * j,
            forall|jj: int| 0 <= jj < j ==> byte_len(line@.take(jj)) < indent,
        decreases n - j,
    {
        proof {
            lemma_byte_len_push(line@, j as int);
        }
        b = b + utf8_width(line.get_char(j));
        j = j + 1;
    }
    let dedented: &str = if b == indent {
        proof {
            lemma_chars_in_bytes_skip(line@, indent as nat, j as int);
            assert(chars_in_bytes(line@.skip(j as int), 0) == Some(0nat));
        }
        let d = line.substring_char(j, n);
        assert(d@ =~= line@.skip(j as int));
        d
    } else {
        proof {
            if b < indent {
                lemma_chars_in_bytes_skip(line@, indent as nat, j as int);
                assert(line@.skip(j as int).len() == 0);
            } else {
                lemma_byte_len_push(line@, j - 1);
                lemma_chars_in_bytes_skip(line@, indent as nat, j - 1);
                assert(line@.skip(j - 1)[0] == line@[j - 1]);
            }
            reveal_strlit("");
        }
        ""
    };
    assert(dedented@ =~= dedent(line@, indent as nat));
    let m = dedented.unicode_len();
    let mut t: usize = m;
    while t > 0 && char_is_whitespace(dedented.get_char(t - 1))
        invariant
            m == dedented@.len(),
            t <= m,
            forall|jj: int| t <= jj < m ==> is_whitespace(#[trigger] dedented@[jj]),
        decreases t,
    {
        t = t - 1;
    }
    proof {
        lemma_trim_end_prefix(dedented@, t as int);
        assert(dedented@.take(t as int).len() == 0 || !is_whitespace(dedented@.take(t as int).last()));
    }
    let r = String::from_str(dedented.substring_char(0, t));
    assert(r@ =~= dedented@.take(t as int));
    r
}

/// The text of a fetch: `None` where it failed.
pub open spec fn fetched_text(fetched: Option<String>) -> Option<Seq<char>> {
    match fetched {
        Some(t) => Some(t@),
        None => None,
    }
}

/// The report shown once the first fetch gave `first` and the later polls gave `later`,
/// in order (`None`: that fetch failed): the latest text fetched, or, where every later
/// fetch failed, the first fetch's text or a notice that the weather is unavailable.
pub open spec fn report_after_polls(first: Option<Seq<char>>, later: Seq<Option<Seq<char>>>) -> Seq<char>
    decreases later.len(),
{
    if later.len() == 0 {
        match first {
            Some(t) => t,
            None => "Weather unavailable"@,
        }
    } else {
        match later.last() {
            Some(t) => t,
            None => report_after_polls(first, later.drop_last()),
        }
    }
}

/// The text shown until a fetch succeeds: the first fetch's text, or a notice that the
/// weather is unavailable.
pub fn initial_report(fetched: Option<String>) -> (r: String)
    ensures
        fetched matches Some(t) ==> r@ == t@,
        fetched is None ==> r@ == "Weather unavailable"@,
        r@ == report_after_polls(fetched_text(fetched), Seq::empty()),
{
    match fetched {
        Some(t) => t,
        None => String::from_str("Weather unavailable"),
    }
}

/// What a later poll of the weather service does with the fetch it made.
pub enum PollStep {
    /// Show this report from now on.
    Publish(String),
    /// Keep showing the report shown so far.
    KeepPrevious,
}

/// The step after a later fetch: a fetched report replaces the one shown; a failed fetch
/// leaves the shown report in place until the next poll.
pub fn after_fetch(fetched: Option<String>) -> (r: PollStep)
    ensures
        match fetched {
            Some(t) => r matches PollStep::Publish(s) && s@ == t@,
            None => r is KeepPrevious,
        },
        forall|first: Option<Seq<char>>, later: Seq<Option<Seq<char>>>| match r {
            PollStep::Publish(s) => s@ == #[trigger] report_after_polls(first, later.push(fetched_text(fetched))),
            PollStep::KeepPrevious => report_after_polls(first, later.push(fetched_text(fetched)))
                == report_after_polls(first, later),
        },
{
    assert forall|first: Option<Seq<char>>, later: Seq<Option<Seq<char>>>| match fetched {
        Some(t) => t@ == #[trigger] report_after_polls(first, later.push(fetched_text(fetched))),
        None => report_after_polls(first, later.push(fetched_text(fetched))) == report_after_polls(first, later),
    } by {
        lemma_report_after_polls(first, later, fetched_text(fetched));
    }
    match fetched {
        Some(t) => PollStep::Publish(t),
        None => PollStep::KeepPrevious,
    }
}

/// The common indent is the smallest indent of the non-blank lines: no non-blank line
/// is indented less, some non-blank line is indented exactly that much, and where every
/// line is blank (or there is none) it is 0. Blank lines never count.
pub proof fn lemma_common_indent_is_min(lines: Seq<Seq<char>>)
    ensures
        forall|i: int| 0 <= i < lines.len() && !is_blank(#[trigger] lines[i]) ==> common_indent(lines) <= indent_bytes(lines[i]),
        (forall|i: int| 0 <= i < lines.len() ==> is_blank(#[trigger] lines[i])) ==> common_indent(lines) == 0,
        (exists|i: int| 0 <= i < lines.len() && !is_blank(#[trigger] lines[i])) ==> exists|i: int|
            0 <= i < lines.len() && !is_blank(#[trigger] lines[i]) && indent_bytes(lines[i]) == common_indent(lines),
    decreases lines.len(),
{
    if lines.len() > 0 {
        let prev = lines.drop_last();
        lemma_common_indent_is_min(prev);
        let l = lines.last();
        let last = lines.len() - 1;
        let c = common_indent(lines);
        let cp = common_indent(prev);
        assert(lines[last] == l);
        assert forall|i: int| 0 <= i < prev.len() implies #[trigger] prev[i] == lines[i] by {}
        assert forall|i: int| 0 <= i < lines.len() && !is_blank(#[trigger] lines[i]) implies c <= indent_bytes(lines[i]) by {
            if i < last {
                assert(prev[i] == lines[i]);
                assert(!all_blank(prev)) by {
                    assert(!is_blank(prev[i]));
                }
            }
        }
        if forall|i: int| 0 <= i < lines.len() ==> is_blank(#[trigger] lines[i]) {
            assert(is_blank(lines[last]));
            assert forall|i: int| 0 <= i < prev.len() implies is_blank(#[trigger] prev[i]) by {
                assert(is_blank(lines[i]));
            }
        }
        if exists|i: int| 0 <= i < lines.len() && !is_blank(#[trigger] lines[i]) {
            if !is_blank(l) && (all_blank(prev) || indent_bytes(l) < cp) {
                assert(!is_blank(lines[last]) && indent_bytes(lines[last]) == c);
            } else if !is_blank(l) && !all_blank(prev) {
                let j = choose|j: int| 0 <= j < prev.len() && !is_blank(#[trigger] prev[j]);
                assert(exists|i: int| 0 <= i < prev.len() && !is_blank(#[trigger] prev[i]));
                let k = choose|k: int| 0 <= k < prev.len() && !is_blank(#[trigger] prev[k]) && indent_bytes(prev[k]) == cp;
                assert(lines[k] == prev[k]);
                assert(!is_blank(lines[k]) && indent_bytes(lines[k]) == c);
            } else {
                let i0 = choose|i: int| 0 <= i < lines.len() && !is_blank(#[trigger] lines[i]);
                assert(i0 != last);
                assert(prev[i0] == lines[i0]);
                assert(exists|i: int| 0 <= i < prev.len() && !is_blank(#[trigger] prev[i]));
                let k = choose|k: int| 0 <= k < prev.len() && !is_blank(#[trigger] prev[k]) && indent_bytes(prev[k]) == cp;
                assert(lines[k] == prev[k]);
                assert(!is_blank(lines[k]) && indent_bytes(lines[k]) == c);
            }
        }
    }
}

/// A blank line inserted anywhere into a report leaves the common indent unchanged.
pub proof fn lemma_blank_line_ignored(before: Seq<Seq<char>>, blank: Seq<char>, after: Seq<Seq<char>>)
    requires
        is_blank(blank),
    ensures
        common_indent(before + seq![blank] + after) == common_indent(before + after),
{
    let a = before + seq![blank] + after;
    let b = before + after;
    lemma_common_indent_is_min(a);
    lemma_common_indent_is_min(b);
    let n: int = before.len() as int;
    // Non-blank lines of `a` are those of `b`, shifted past the blank line.
    assert forall|i: int| 0 <= i < b.len() implies #[trigger] b[i] == if i < n { a[i] } else { a[i + 1] } by {}
    assert forall|i: int| 0 <= i < a.len() && i != n implies #[trigger] a[i] == if i < n { b[i] } else { b[i - 1] } by {}
    assert(a[n] == blank);
    if exists|i: int| 0 <= i < b.len() && !is_blank(#[trigger] b[i]) {
        let j = choose|j: int| 0 <= j < b.len() && !is_blank(#[trigger] b[j]) && indent_bytes(b[j]) == common_indent(b);
        let ja = if j < n { j } else { j + 1 };
        assert(a[ja] == b[j]);
        assert(exists|i: int| 0 <= i < a.len() && !is_blank(#[trigger] a[i]));
        let k = choose|k: int| 0 <= k < a.len() && !is_blank(#[trigger] a[k]) && indent_bytes(a[k]) == common_indent(a);
        assert(k != n);
        let kb = if k < n { k } else { k - 1 };
        assert(b[kb] == a[k]);
    } else {
        assert forall|i: int| 0 <= i < a.len() implies is_blank(#[trigger] a[i]) by {
            if i != n {
                let ib = if i < n { i } else { i - 1 };
                assert(b[ib] == a[i]);
            }
        }
    }
}

/// What the poller shows: it starts with what `initial_report` gives for the first
/// fetch; after each later poll the report becomes the fetched text where the fetch
/// succeeded (`after_fetch` publishes it) and stays as it was where it failed
/// (`after_fetch` keeps it).
pub proof fn lemma_report_after_polls(first: Option<Seq<char>>, later: Seq<Option<Seq<char>>>, next: Option<Seq<char>>)
    ensures
        report_after_polls(first, Seq::empty()) == match first {
            Some(t) => t,
            None => "Weather unavailable"@,
        },
        next matches Some(t) ==> report_after_polls(first, later.push(next)) == t,
        next is None ==> report_after_polls(first, later.push(next)) == report_after_polls(first, later),
{
    assert(later.push(next).drop_last() =~= later);
}

/// No line is longer than the longest.
pub proof fn lemma_longest_bounds(lines: Seq<Seq<char>>)
    ensures
        forall|i: int| 0 <= i < lines.len() ==> (#[trigger] lines[i]).len() <= longest(lines),
        lines.len() > 0 ==> exists|i: int| 0 <= i < lines.len() && (#[trigger] lines[i]).len() == longest(lines),
    decreases lines.len(),
{
    if lines.len() > 0 {
        let prev = lines.drop_last();
        lemma_longest_bounds(prev);
        assert forall|i: int| 0 <= i < lines.len() implies (#[trigger] lines[i]).len() <= longest(lines) by {
            if i < lines.len() - 1 {
                assert(lines[i] == prev[i]);
            }
        }
        if lines.last().len() > longest(prev) {
            assert(lines[lines.len() - 1].len() == longest(lines));
        } else if prev.len() > 0 {
            let i = choose|i: int| 0 <= i < prev.len() && (#[trigger] prev[i]).len() == longest(prev);
            assert(lines[i] == prev[i]);
        } else {
            assert(lines[0].len() == longest(lines));
        }
    }
}

/// A line trimmed at its end does not end with whitespace.
pub proof fn lemma_trimmed_line_end(s: Seq<char>)
    ensures
        trim_end_whitespace(s).len() > 0 ==> !is_whitespace(trim_end_whitespace(s).last()),
        trim_end_whitespace(s).len() <= s.len(),
    decreases s.len(),
{
    if s.len() > 0 && is_whitespace(s.last()) {
        lemma_trimmed_line_end(s.drop_last());
    }
}

/// The weather report as shown, and the size of the box it takes.
pub struct WeatherBlock {
    pub lines: Vec<String>,
    /// The lines joined with newlines.
    pub text: String,
    /// The length of the longest line, in characters (modulo 2^16).
    pub width: u16,
    /// The number of lines (modulo 2^16).
    pub height: u16,
}

/// Lays out the fetched weather text for display.
pub fn weather_block(raw: &str) -> (r: WeatherBlock)
    ensures
        r.lines@.map_values(|l: String| l@) == report_lines(raw@),
        r.text@ == join(report_lines(raw@), "\n"@),
        r.width == longest(report_lines(raw@)) as u16,
        r.height == report_lines(raw@).len() as u16,
{
    let trimmed = trim_end_newlines_exec(raw);
    let lines = split_lines(trimmed);
    let indent = common_indent_exec(&lines);
    let ghost views = lines@.map_values(|l: String| l@);
    let ghost shown = views.map_values(|l: Seq<char>| trim_end_whitespace(dedent(l, indent as nat)));
    let mut out: Vec<String> = Vec::new();
    let mut widest: usize = 0;
    let mut i: usize = 0;
    while i < lines.len()
        invariant
            i <= lines@.len(),
            views == lines@.map_values(|l: String| l@),
            shown == views.map_values(|l: Seq<char>| trim_end_whitespace(dedent(l, indent as nat))),
            out@.len() == i,
            forall|k: int| 0 <= k < i ==> (#[trigger] out@[k])@ == shown[k],
            widest == longest(shown.take(i as int)),
        decreases lines@.len() - i,
    {
        let line = shown_line(lines[i].as_str(), indent);
        let len = line.as_str().unicode_len();
        assert(shown.take(i + 1).drop_last() =~= shown.take(i as int));
        if len > widest {
            widest = len;
        }
        out.push(line);
        i = i + 1;
    }
    assert(shown.take(lines@.len() as int) =~= shown);
    assert(out@.map_values(|l: String| l@) =~= shown);
    let text = join_strings(&out, "\n");
    let height = out.len();
    WeatherBlock { lines: out, text, width: widest as u16, height: height as u16 }
}

} // verus!
