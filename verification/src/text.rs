//! Character-level text operations used by the metadata formats.

use vstd::prelude::*;
use vstd::utf8::{decode_utf8, encode_scalar, encode_utf8, valid_utf8};

verus! {

/// Whether `c` has the Unicode `White_Space` property.
pub open spec fn is_ws(c: char) -> bool {
    let u = c as u32;
    ||| 0x09 <= u <= 0x0d
    ||| u == 0x20
    ||| u == 0x85
    ||| u == 0xa0
    ||| u == 0x1680
    ||| 0x2000 <= u <= 0x200a
    ||| u == 0x2028
    ||| u == 0x2029
    ||| u == 0x202f
    ||| u == 0x205f
    ||| u == 0x3000
}

/// Executable form of [`is_ws`].
pub fn is_whitespace(c: char) -> (b: bool)
    ensures
        b == is_ws(c),
{
    let u = c as u32;
    (0x09 <= u && u <= 0x0d) || u == 0x20 || u == 0x85 || u == 0xa0 || u == 0x1680 || (0x2000
        <= u && u <= 0x200a) || u == 0x2028 || u == 0x2029 || u == 0x202f || u == 0x205f || u
        == 0x3000
}

/// `s` without its leading whitespace.
pub open spec fn trim_start(s: Seq<char>) -> Seq<char>
    decreases s.len(),
{
    if s.len() > 0 && is_ws(s[0]) {
        trim_start(s.drop_first())
    } else {
        s
    }
}

/// `s` without its trailing whitespace.
pub open spec fn trim_end(s: Seq<char>) -> Seq<char>
    decreases s.len(),
{
    if s.len() > 0 && is_ws(s.last()) {
        trim_end(s.drop_last())
    } else {
        s
    }
}

/// `s` without leading and trailing whitespace.
pub open spec fn trim(s: Seq<char>) -> Seq<char> {
    trim_end(trim_start(s))
}

proof fn lemma_trim_start_skip(s: Seq<char>, i: int)
    requires
        0 <= i <= s.len(),
        forall|k: int| 0 <= k < i ==> is_ws(#[trigger] s[k]),
    ensures
        trim_start(s) == trim_start(s.skip(i)),
    decreases i,
{
    if i > 0 {
        assert(s.drop_first().skip(i - 1) =~= s.skip(i));
        lemma_trim_start_skip(s.drop_first(), i - 1);
    } else {
        assert(s.skip(0) =~= s);
    }
}

proof fn lemma_trim_end_take(s: Seq<char>, j: int)
    requires
        0 <= j <= s.len(),
        forall|k: int| j <= k < s.len() ==> is_ws(#[trigger] s[k]),
    ensures
        trim_end(s) == trim_end(s.take(j)),
    decreases s.len() - j,
{
    if j < s.len() {
        assert(s.drop_last().take(j) =~= s.take(j));
        lemma_trim_end_take(s.drop_last(), j);
    } else {
        assert(s.take(j) =~= s);
    }
}

proof fn lemma_trim_end_prefix(s: Seq<char>)
    ensures
        trim_end(s).len() <= s.len(),
        trim_end(s) == s.take(trim_end(s).len() as int),
        trim_end(s).len() == 0 || !is_ws(trim_end(s).last()),
    decreases s.len(),
{
    if s.len() > 0 && is_ws(s.last()) {
        lemma_trim_end_prefix(s.drop_last());
        assert(s.drop_last().take(trim_end(s).len() as int) =~= s.take(trim_end(s).len() as int));
    } else {
        assert(s.take(s.len() as int) =~= s);
    }
}

proof fn lemma_trim_start_first(s: Seq<char>)
    ensures
        trim_start(s).len() == 0 || !is_ws(trim_start(s)[0]),
    decreases s.len(),
{
    if s.len() > 0 && is_ws(s[0]) {
        lemma_trim_start_first(s.drop_first());
    }
}

/// Trimmed text is its own trim, and every character of it is one of `s`.
pub proof fn lemma_trim_idem(s: Seq<char>)
    ensures
        trim(trim(s)) == trim(s),
        forall|c: char| trim(s).contains(c) ==> s.contains(c),
{
    let t = trim_start(s);
    let u = trim_end(t);
    lemma_trim_start_suffix(s);
    lemma_trim_start_first(s);
    lemma_trim_end_prefix(t);
    // `u` starts as `t` does, so nothing leading is left to trim
    if u.len() > 0 {
        assert(u[0] == t[0]);
    }
    assert(trim_start(u) == u);
    // and `u` ends in no whitespace
    assert(trim_end(u) == u);
    assert forall|c: char| trim(s).contains(c) implies s.contains(c) by {
        let k = choose|k: int| 0 <= k < u.len() && u[k] == c;
        assert(u[k] == t[k]);
        assert(t[k] == s[s.len() - t.len() + k]);
    }
}

/// The characters of `s`, one by one.
pub fn chars_of(s: &str) -> (v: Vec<char>)
    ensures
        v@ == s@,
{
    let n = s.unicode_len();
    let mut v: Vec<char> = Vec::new();
    let mut i: usize = 0;
    while i < n
        invariant
            n == s@.len(),
            i <= n,
            v@ == s@.take(i as int),
        decreases n - i,
    {
        v.push(s.get_char(i));
        assert(s@.take(i + 1) =~= s@.take(i as int).push(s@[i as int]));
        i = i + 1;
    }
    assert(s@.take(n as int) =~= s@);
    v
}

/// `s` with leading and trailing whitespace removed, as `str::trim` does.
pub fn trim_str(s: &str) -> (r: String)
    ensures
        r@ == trim(s@),
{
    let cs = chars_of(s);
    let n = cs.len();
    let mut i: usize = 0;
    while i < n && is_whitespace(cs[i])
        invariant
            cs@ == s@,
            n == cs@.len(),
            i <= n,
            forall|k: int| 0 <= k < i ==> is_ws(#[trigger] cs@[k]),
        decreases n - i,
    {
        i = i + 1;
    }
    proof {
        lemma_trim_start_skip(s@, i as int);
    }
    let mut j: usize = n;
    while j > i && is_whitespace(cs[j - 1])
        invariant
            cs@ == s@,
            n == cs@.len(),
            i <= j <= n,
            forall|k: int| j <= k < n ==> is_ws(#[trigger] cs@[k]),
        decreases j - i,
    {
        j = j - 1;
    }
    let ghost t = s@.skip(i as int);
    proof {
        assert(i == n || !is_ws(t[0]));
        assert(trim_start(t) == t);
        assert forall|k: int| j - i <= k < t.len() implies is_ws(#[trigger] t[k]) by {
            assert(t[k] == s@[k + i]);
        }
        lemma_trim_end_take(t, j - i);
        let u = t.take(j - i);
        assert(u =~= s@.subrange(i as int, j as int));
        assert(j == i || !is_ws(u.last()));
        assert(trim_end(u) == u);
    }
    s.substring_char(i, j).to_owned()
}


/// Number of leading characters of `s` that are not whitespace.
pub open spec fn word_len(s: Seq<char>) -> nat
    decreases s.len(),
{
    if s.len() == 0 || is_ws(s[0]) {
        0
    } else {
        1 + word_len(s.drop_first())
    }
}

pub proof fn lemma_trim_start_len(s: Seq<char>)
    ensures
        trim_start(s).len() <= s.len(),
        trim_start(s).len() == 0 || !is_ws(trim_start(s)[0]),
    decreases s.len(),
{
    if s.len() > 0 && is_ws(s[0]) {
        lemma_trim_start_len(s.drop_first());
    }
}

pub proof fn lemma_word_len_bound(s: Seq<char>)
    ensures
        word_len(s) <= s.len(),
    decreases s.len(),
{
    if s.len() > 0 && !is_ws(s[0]) {
        lemma_word_len_bound(s.drop_first());
    }
}

/// The whitespace-separated words of `s`, as `str::split_whitespace` yields them.
pub open spec fn split_ws(s: Seq<char>) -> Seq<Seq<char>>
    decreases s.len(),
{
    let t = trim_start(s);
    if t.len() == 0 {
        seq![]
    } else {
        let n = word_len(t);
        proof {
            lemma_trim_start_len(s);
            lemma_word_len_bound(t);
        }
        seq![t.take(n as int)] + split_ws(t.skip(n as int))
    }
}

proof fn lemma_word_len_skip(s: Seq<char>, i: int, j: int)
    requires
        0 <= i <= j <= s.len(),
        forall|k: int| i <= k < j ==> !is_ws(#[trigger] s[k]),
        j == s.len() || is_ws(s[j]),
    ensures
        word_len(s.skip(i)) == j - i,
    decreases j - i,
{
    if i < j {
        assert(s.skip(i).drop_first() =~= s.skip(i + 1));
        lemma_word_len_skip(s, i + 1, j);
    } else if j < s.len() {
        assert(s.skip(i)[0] == s[j]);
    }
}


/// `w` is one word: not empty, and without whitespace.
pub open spec fn is_word(w: Seq<char>) -> bool {
    w.len() > 0 && forall|i: int| 0 <= i < w.len() ==> !is_ws(#[trigger] w[i])
}

proof fn lemma_trim_start_concat(x: Seq<char>, y: Seq<char>)
    ensures
        trim_start(x).len() > 0 ==> trim_start(x + y) == trim_start(x) + y,
        trim_start(x).len() == 0 ==> trim_start(x + y) == trim_start(y),
    decreases x.len(),
{
    if x.len() == 0 {
        assert(x + y =~= y);
    } else {
        assert((x + y)[0] == x[0]);
        if is_ws(x[0]) {
            assert((x + y).drop_first() =~= x.drop_first() + y);
            lemma_trim_start_concat(x.drop_first(), y);
        }
    }
}

proof fn lemma_word_len_concat(t: Seq<char>, y: Seq<char>)
    requires
        word_len(t) < t.len() || y.len() == 0 || is_ws(y[0]),
    ensures
        word_len(t + y) == word_len(t),
    decreases t.len(),
{
    lemma_word_len_bound(t);
    if t.len() == 0 {
        assert(t + y =~= y);
    } else {
        assert((t + y)[0] == t[0]);
        if !is_ws(t[0]) {
            assert((t + y).drop_first() =~= t.drop_first() + y);
            lemma_word_len_concat(t.drop_first(), y);
        }
    }
}

proof fn lemma_split_ws_trim(s: Seq<char>)
    ensures
        split_ws(s) == split_ws(trim_start(s)),
    decreases s.len(),
{
    lemma_trim_start_len(s);
    lemma_trim_start_idem(s);
}

proof fn lemma_trim_start_idem(s: Seq<char>)
    ensures
        trim_start(trim_start(s)) == trim_start(s),
    decreases s.len(),
{
    if s.len() > 0 && is_ws(s[0]) {
        lemma_trim_start_idem(s.drop_first());
    }
}

/// Splitting text that breaks between `x` and `y` (at whitespace, or at an end)
/// gives the words of `x`, then those of `y`.
pub proof fn lemma_split_ws_concat(x: Seq<char>, y: Seq<char>)
    requires
        x.len() == 0 || is_ws(x.last()) || y.len() == 0 || is_ws(y[0]),
    ensures
        split_ws(x + y) == split_ws(x) + split_ws(y),
    decreases x.len(),
{
    let t = trim_start(x);
    lemma_trim_start_concat(x, y);
    lemma_trim_start_len(x);
    lemma_trim_start_len(x + y);
    if t.len() == 0 {
        lemma_split_ws_trim(y);
        assert(split_ws(x) =~= Seq::<Seq<char>>::empty());
        assert(split_ws(x) + split_ws(y) =~= split_ws(y));
    } else {
        let n = word_len(t);
        lemma_word_len_bound(t);
        // `t` is a suffix of `x`, so it ends as `x` does
        assert(t.last() == x.last()) by {
            lemma_trim_start_suffix(x);
        }
        if n == t.len() {
            assert(!is_ws(t.last())) by {
                lemma_word_len_all(t);
            }
        }
        lemma_word_len_concat(t, y);
        assert((t + y).take(n as int) =~= t.take(n as int));
        assert((t + y).skip(n as int) =~= t.skip(n as int) + y);
        lemma_trim_start_suffix(x);
        let rest = t.skip(n as int);
        assert(rest.len() == 0 || rest.last() == x.last());
        lemma_split_ws_concat(rest, y);
        assert(split_ws(x + y) =~= seq![t.take(n as int)] + (split_ws(rest) + split_ws(y)));
    }
}

proof fn lemma_trim_start_suffix(s: Seq<char>)
    ensures
        trim_start(s).len() <= s.len(),
        trim_start(s) == s.skip(s.len() - trim_start(s).len()),
    decreases s.len(),
{
    if s.len() > 0 && is_ws(s[0]) {
        lemma_trim_start_suffix(s.drop_first());
        assert(s.drop_first().skip(s.drop_first().len() - trim_start(s).len()) =~= s.skip(
            s.len() - trim_start(s).len(),
        ));
    } else {
        assert(s.skip(0) =~= s);
    }
}

proof fn lemma_word_len_all(t: Seq<char>)
    ensures
        forall|i: int| 0 <= i < word_len(t) ==> !is_ws(#[trigger] t[i]),
    decreases t.len(),
{
    lemma_word_len_bound(t);
    if t.len() > 0 && !is_ws(t[0]) {
        lemma_word_len_all(t.drop_first());
        assert forall|i: int| 0 <= i < word_len(t) implies !is_ws(#[trigger] t[i]) by {
            if i > 0 {
                assert(t[i] == t.drop_first()[i - 1]);
            }
        }
    }
}

/// A single word splits into itself.
pub proof fn lemma_split_ws_word(w: Seq<char>)
    requires
        is_word(w),
    ensures
        split_ws(w) == seq![w],
{
    assert(trim_start(w) == w);
    lemma_word_len_skip(w, 0, w.len() as int);
    assert(w.skip(0) =~= w);
    assert(w.take(w.len() as int) =~= w);
    assert(w.skip(w.len() as int) =~= Seq::<char>::empty());
    assert(split_ws(w.skip(w.len() as int)) =~= Seq::<Seq<char>>::empty());
}


/// Every piece that whitespace splitting yields is one word.
pub proof fn lemma_split_ws_words(s: Seq<char>)
    ensures
        forall|j: int| 0 <= j < split_ws(s).len() ==> is_word(#[trigger] split_ws(s)[j]),
    decreases s.len(),
{
    let t = trim_start(s);
    lemma_trim_start_len(s);
    if t.len() > 0 {
        let n = word_len(t);
        lemma_word_len_bound(t);
        lemma_word_len_all(t);
        assert(n >= 1) by {
            assert(!is_ws(t[0]));
        }
        let w = t.take(n as int);
        assert(is_word(w)) by {
            assert forall|i: int| 0 <= i < w.len() implies !is_ws(#[trigger] w[i]) by {
                assert(w[i] == t[i]);
            }
        }
        lemma_split_ws_words(t.skip(n as int));
        let rest = split_ws(t.skip(n as int));
        assert(split_ws(s) == seq![w] + rest);
        assert forall|j: int| 0 <= j < split_ws(s).len() implies is_word(#[trigger] split_ws(s)[j]) by {
            if j > 0 {
                assert(split_ws(s)[j] == rest[j - 1]);
            }
        }
    }
}

/// Splits `s` into its whitespace-separated words.
pub fn split_whitespace(s: &str) -> (words: Vec<String>)
    ensures
        words@.map_values(|w: String| w@) == split_ws(s@),
{
    let cs = chars_of(s);
    let n = cs.len();
    let mut words: Vec<String> = Vec::new();
    let mut i: usize = 0;
    proof {
        assert(s@.skip(0) =~= s@);
        assert(words@.map_values(|w: String| w@) =~= Seq::<Seq<char>>::empty());
    }
    while i < n
        invariant
            cs@ == s@,
            n == cs@.len(),
            i <= n,
            split_ws(s@) == words@.map_values(|w: String| w@) + split_ws(s@.skip(i as int)),
        decreases n - i,
    {
        if is_whitespace(cs[i]) {
            proof {
                let t = s@.skip(i as int);
                assert(t.drop_first() =~= s@.skip(i + 1));
                assert(trim_start(t) == trim_start(t.drop_first()));
            }
            i = i + 1;
        } else {
            let mut j: usize = i;
            while j < n && !is_whitespace(cs[j])
                invariant
                    cs@ == s@,
                    n == cs@.len(),
                    i <= j <= n,
                    forall|k: int| i <= k < j ==> !is_ws(#[trigger] cs@[k]),
                decreases n - j,
            {
                j = j + 1;
            }
            let w = s.substring_char(i, j).to_owned();
            proof {
                let t = s@.skip(i as int);
                assert(trim_start(t) == t);
                lemma_word_len_skip(s@, i as int, j as int);
                assert(t.take(j - i) =~= s@.subrange(i as int, j as int));
                assert(t.skip(j - i) =~= s@.skip(j as int));
                assert(split_ws(t) == seq![t.take(j - i)] + split_ws(t.skip(j - i)));
            }
            let ghost before = words@;
            words.push(w);
            proof {
                assert(words@.map_values(|w: String| w@) =~= before.map_values(|w: String| w@).push(
                    s@.subrange(i as int, j as int),
                ));
                assert(split_ws(s@) == words@.map_values(|w: String| w@) + split_ws(
                    s@.skip(j as int),
                ));
            }
            i = j;
        }
    }
    proof {
        assert(s@.skip(n as int).len() == 0);
        assert(split_ws(s@.skip(n as int)) =~= Seq::<Seq<char>>::empty());
        assert(split_ws(s@) =~= words@.map_values(|w: String| w@));
    }
    words
}



/// The pieces of `s` between occurrences of `c`, as `str::split` with a `char`
/// pattern yields them: one more piece than there are occurrences.
pub open spec fn split_on(s: Seq<char>, c: char) -> Seq<Seq<char>>
    decreases s.len(),
{
    if s.len() == 0 {
        seq![seq![]]
    } else {
        let r = split_on(s.drop_last(), c);
        if s.last() == c {
            r.push(seq![])
        } else {
            r.update(r.len() - 1, r.last().push(s.last()))
        }
    }
}

/// Every split has at least one piece.
pub proof fn lemma_split_on_len(s: Seq<char>, c: char)
    ensures
        split_on(s, c).len() >= 1,
    decreases s.len(),
{
    if s.len() > 0 {
        lemma_split_on_len(s.drop_last(), c);
    }
}

/// Splits `s` at each `c`.
pub fn split_char(s: &str, c: char) -> (parts: Vec<String>)
    ensures
        parts@.map_values(|w: String| w@) == split_on(s@, c),
{
    let cs = chars_of(s);
    let n = cs.len();
    let mut parts: Vec<String> = Vec::new();
    let mut start: usize = 0;
    let mut i: usize = 0;
    proof {
        assert(s@.take(0) =~= Seq::<char>::empty());
        assert(parts@.map_values(|w: String| w@).push(s@.subrange(0, 0)) =~= split_on(
            s@.take(0),
            c,
        ));
    }
    while i < n
        invariant
            cs@ == s@,
            n == s@.len(),
            start <= i <= n,
            split_on(s@.take(i as int), c) == parts@.map_values(|w: String| w@).push(
                s@.subrange(start as int, i as int),
            ),
        decreases n - i,
    {
        proof {
            assert(s@.take(i + 1).drop_last() =~= s@.take(i as int));
            assert(s@.take(i + 1).last() == cs@[i as int]);
        }
        let ghost before = parts@.map_values(|w: String| w@);
        if cs[i] == c {
            let piece = s.substring_char(start, i).to_owned();
            parts.push(piece);
            proof {
                assert(parts@.map_values(|w: String| w@) =~= before.push(
                    s@.subrange(start as int, i as int),
                ));
                assert(s@.subrange(i + 1, i + 1) =~= Seq::<char>::empty());
            }
            start = i + 1;
        } else {
            proof {
                assert(s@.subrange(start as int, i + 1) =~= s@.subrange(start as int, i as int).push(
                    cs@[i as int],
                ));
                let r = before.push(s@.subrange(start as int, i as int));
                assert(r.update(r.len() - 1, r.last().push(cs@[i as int])) =~= before.push(
                    s@.subrange(start as int, i + 1),
                ));
            }
        }
        i = i + 1;
    }
    let last = s.substring_char(start, n).to_owned();
    let ghost before = parts@.map_values(|w: String| w@);
    parts.push(last);
    proof {
        assert(s@.take(n as int) =~= s@);
        assert(parts@.map_values(|w: String| w@) =~= before.push(s@.subrange(start as int, n as int)));
    }
    parts
}


/// The pieces of `v` with `sep` between each two.
pub open spec fn join_with(v: Seq<Seq<char>>, sep: Seq<char>) -> Seq<char>
    decreases v.len(),
{
    if v.len() == 0 {
        seq![]
    } else if v.len() == 1 {
        v[0]
    } else {
        join_with(v.drop_last(), sep) + sep + v.last()
    }
}

/// Joins the strings of `v` with `sep` between each two, as `join(sep)` does.
pub fn join_strs(v: &Vec<String>, sep: &str) -> (s: String)
    ensures
        s@ == join_with(v@.map_values(|w: String| w@), sep@),
{
    let ghost w = v@.map_values(|w: String| w@);
    let mut s = String::new();
    let mut i: usize = 0;
    proof {
        assert(w.take(0) =~= Seq::<Seq<char>>::empty());
    }
    while i < v.len()
        invariant
            w == v@.map_values(|w: String| w@),
            i <= v@.len(),
            s@ == join_with(w.take(i as int), sep@),
        decreases v@.len() - i,
    {
        proof {
            assert(w.take(i + 1).drop_last() =~= w.take(i as int));
            assert(w.take(i + 1).last() == v@[i as int]@);
        }
        if i > 0 {
            s.append(sep);
        } else {
            proof {
                assert(w.take(1) =~= seq![w[0]]);
            }
        }
        s.append(v[i].as_str());
        i = i + 1;
    }
    proof {
        assert(w.take(v@.len() as int) =~= w);
    }
    s
}

proof fn lemma_high_bytes(x: u8)
    by (bit_vector)
    ensures
        (0x80u8 | x) != 64u8,
        (0xC0u8 | x) != 64u8,
        (0xE0u8 | x) != 64u8,
        (0xF0u8 | x) != 64u8,
{
}

/// In UTF-8, only '@' itself is written with the byte 0x40.
pub proof fn lemma_encode_without_at(chars: Seq<char>)
    requires
        !chars.contains('@'),
    ensures
        !encode_utf8(chars).contains(64u8),
    decreases chars.len(),
{
    if chars.len() > 0 {
        let c = chars[0];
        let rest = chars.drop_first();
        assert(!rest.contains('@')) by {
            if rest.contains('@') {
                let k = choose|k: int| 0 <= k < rest.len() && rest[k] == '@';
                assert(chars[k + 1] == '@');
            }
        }
        lemma_encode_without_at(rest);
        let u = c as u32;
        assert(c != '@') by {
            assert(chars[0] == c);
        }
        vstd::utf8::char_is_scalar(c);
        if u == 64u32 {
            assert(('@' as u32) == 64u32);
            vstd::utf8::char_u32_cast(c, u);
            vstd::utf8::char_u32_cast('@', u);
        }
        let e = encode_scalar(u);
        assert(!e.contains(64u8)) by {
            if u <= 0x7F {
                assert(((u & 0x7F) as u8) != 64u8) by (bit_vector)
                    requires
                        u <= 0x7F && u != 64u32,
                ;
                assert(e =~= seq![(u & 0x7F) as u8]);
            } else {
                lemma_high_bytes(((u >> 6) & 0x1F) as u8);
                lemma_high_bytes(((u >> 12) & 0x0F) as u8);
                lemma_high_bytes(((u >> 18) & 0x7) as u8);
                lemma_high_bytes((u & 0x3F) as u8);
                lemma_high_bytes(((u >> 6) & 0x3F) as u8);
                lemma_high_bytes(((u >> 12) & 0x3F) as u8);
                assert forall|k: int| 0 <= k < e.len() implies e[k] != 64u8 by {}
            }
        }
        let all = encode_utf8(chars);
        assert(all == e + encode_utf8(rest));
        if all.contains(64u8) {
            let k = choose|k: int| 0 <= k < all.len() && all[k] == 64u8;
            if k < e.len() {
                assert(e[k] == 64u8);
            } else {
                assert(encode_utf8(rest)[k - e.len()] == 64u8);
            }
        }
    }
}

/// The text that `String::from_utf8_lossy` makes of `bytes`.
pub uninterp spec fn utf8_lossy(bytes: Seq<u8>) -> Seq<char>;

/// Calls `String::from_utf8_lossy`. Its result is named [`utf8_lossy`]; on valid
/// UTF-8 it is the decoded text, which the documentation promises. Invalid
/// sequences become U+FFFD, and in UTF-8 the character '@' is the byte 0x40 alone
/// (every byte of a longer sequence is 0x80 or more), so bytes without 0x40 give
/// text without '@'. Which replacement characters invalid input gives is left unsaid.
#[verifier::external_body]
pub(crate) fn from_utf8_lossy(bytes: &[u8]) -> (s: String)
    ensures
        s@ == utf8_lossy(bytes@),
        valid_utf8(bytes@) ==> s@ == decode_utf8(bytes@),
        !bytes@.contains(64u8) ==> !s@.contains('@'),
{
    String::from_utf8_lossy(bytes).into_owned()
}

} // verus!
