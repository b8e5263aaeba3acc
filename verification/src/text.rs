//! Character-level helpers on strings: splitting on whitespace, joining,
//! comparing, and building strings one character at a time.
use vstd::prelude::*;

verus! {

broadcast use vstd::string::group_string_axioms;

/// `String::push`. Trusted: it appends the character to the end of the
/// string, as std documents.
#[verifier::external_body]
pub(crate) fn push_char(s: &mut String, c: char)
    ensures
        final(s)@ == old(s)@.push(c),
{
    s.push(c);
}

/// The characters of `s`, in order.
pub fn chars_of(s: &str) -> (out: Vec<char>)
    ensures
        out@ == s@,
{
    let mut out: Vec<char> = Vec::new();
    for c in it: s.chars()
        invariant
            out@ == it.seq().take(it.index() as int),
    {
        out.push(c);
    }
    out
}

} // verus!
verus! {

/// The Unicode `White_Space` property, which `char::is_whitespace` and
/// `str::split_whitespace` go by.
pub open spec fn white_space(c: char) -> bool {
    let u = c as u32;
    ||| 0x09 <= u <= 0x0D
    ||| u == 0x20
    ||| u == 0x85
    ||| u == 0xA0
    ||| u == 0x1680
    ||| 0x2000 <= u <= 0x200A
    ||| u == 0x2028
    ||| u == 0x2029
    ||| u == 0x202F
    ||| u == 0x205F
    ||| u == 0x3000
}

pub fn is_white_space(c: char) -> (b: bool)
    ensures
        b == white_space(c),
{
    let u = c as u32;
    (0x09 <= u && u <= 0x0D) || u == 0x20 || u == 0x85 || u == 0xA0 || u == 0x1680 || (0x2000 <= u
        && u <= 0x200A) || u == 0x2028 || u == 0x2029 || u == 0x202F || u == 0x205F || u == 0x3000
}

/// Strict lexicographic order on character sequences, comparing characters by
/// their scalar value; the order `str` has.
pub open spec fn chars_lt(a: Seq<char>, b: Seq<char>) -> bool
    decreases a.len(),
{
    if a.len() == 0 {
        b.len() > 0
    } else if b.len() == 0 {
        false
    } else if (a[0] as u32) != (b[0] as u32) {
        (a[0] as u32) < (b[0] as u32)
    } else {
        chars_lt(a.drop_first(), b.drop_first())
    }
}

pub fn str_lt(a: &str, b: &str) -> (r: bool)
    ensures
        r == chars_lt(a@, b@),
{
    let x = chars_of(a);
    let y = chars_of(b);
    let mut i: usize = 0;
    assert(x@.skip(0) == x@ && y@.skip(0) == y@);
    while i < x.len() && i < y.len()
        invariant
            i <= x@.len(),
            i <= y@.len(),
            x@ == a@,
            y@ == b@,
            chars_lt(x@, y@) == chars_lt(x@.skip(i as int), y@.skip(i as int)),
        decreases x@.len() - i,
    {
        assert(x@.skip(i as int)[0] == x@[i as int] && y@.skip(i as int)[0] == y@[i as int]);
        let xi = x[i] as u32;
        let yi = y[i] as u32;
        if xi != yi {
            assert(chars_lt(x@.skip(i as int), y@.skip(i as int)) == (xi < yi));
            return xi < yi;
        }
        assert(x@.skip(i as int).drop_first() == x@.skip(i + 1));
        assert(y@.skip(i as int).drop_first() == y@.skip(i + 1));
        i = i + 1;
    }
    i < y.len()
}

} // verus!
verus! {

/// The character views of a sequence of strings.
pub open spec fn views(v: Seq<String>) -> Seq<Seq<char>> {
    v.map_values(|w: String| w@)
}

/// Scans `s` left to right, returning the whitespace-separated words already
/// closed off and the word still being read.
pub open spec fn scan_words(s: Seq<char>) -> (Seq<Seq<char>>, Seq<char>)
    decreases s.len(),
{
    if s.len() == 0 {
        (seq![], seq![])
    } else {
        let (done, cur) = scan_words(s.drop_last());
        let c = s.last();
        if white_space(c) {
            if cur.len() > 0 {
                (done.push(cur), seq![])
            } else {
                (done, seq![])
            }
        } else {
            (done, cur.push(c))
        }
    }
}

/// The maximal runs of non-whitespace characters of `s`, in order: what
/// `str::split_whitespace` yields.
pub open spec fn words(s: Seq<char>) -> Seq<Seq<char>> {
    let (done, cur) = scan_words(s);
    if cur.len() > 0 {
        done.push(cur)
    } else {
        done
    }
}

/// `list` joined with `sep` between consecutive items.
pub open spec fn join(list: Seq<Seq<char>>, sep: Seq<char>) -> Seq<char>
    decreases list.len(),
{
    if list.len() == 0 {
        seq![]
    } else if list.len() == 1 {
        list[0]
    } else {
        join(list.drop_last(), sep) + sep + list.last()
    }
}

/// Splits `s` into its whitespace-separated words.
pub fn split_whitespace(s: &str) -> (out: Vec<String>)
    ensures
        views(out@) == words(s@),
{
    let chars = chars_of(s);
    let mut done: Vec<String> = Vec::new();
    let mut cur = String::new();
    let mut i: usize = 0;
    while i < chars.len()
        invariant
            i <= chars@.len(),
            chars@ == s@,
            scan_words(chars@.take(i as int)) == (views(done@), cur@),
        decreases chars@.len() - i,
    {
        let c = chars[i];
        assert(chars@.take(i + 1).drop_last() == chars@.take(i as int));
        if is_white_space(c) {
            if !cur.as_str().is_empty() {
                done.push(cur);
                cur = String::new();
            }
        } else {
            push_char(&mut cur, c);
        }
        i = i + 1;
    }
    assert(chars@.take(i as int) == chars@);
    if !cur.as_str().is_empty() {
        done.push(cur);
    }
    done
}

/// Joins `list` with `sep` between consecutive items.
pub fn join_strings(list: &Vec<String>, sep: &str) -> (out: String)
    ensures
        out@ == join(views(list@), sep@),
{
    let mut out = String::new();
    let mut i: usize = 0;
    while i < list.len()
        invariant
            i <= list@.len(),
            out@ == join(views(list@).take(i as int), sep@),
        decreases list@.len() - i,
    {
        assert(views(list@).take(i + 1).drop_last() == views(list@).take(i as int));
        if i > 0 {
            out.append(sep);
        }
        out.append(list[i].as_str());
        i = i + 1;
    }
    assert(views(list@).take(i as int) == views(list@));
    out
}

} // verus!
verus! {

/// Whether two strings hold the same characters.
pub fn str_eq(a: &str, b: &str) -> (r: bool)
    ensures
        r == (a@ == b@),
{
    let x = a.to_owned();
    let y = b.to_owned();
    x == y
}

} // verus!
verus! {

/// `chars_lt` is a strict total order.
pub proof fn lemma_chars_lt_irreflexive(a: Seq<char>)
    ensures
        !chars_lt(a, a),
    decreases a.len(),
{
    if a.len() > 0 {
        lemma_chars_lt_irreflexive(a.drop_first());
    }
}

pub proof fn lemma_chars_lt_asymmetric(a: Seq<char>, b: Seq<char>)
    ensures
        !(chars_lt(a, b) && chars_lt(b, a)),
    decreases a.len(),
{
    if a.len() > 0 && b.len() > 0 && (a[0] as u32) == (b[0] as u32) {
        lemma_chars_lt_asymmetric(a.drop_first(), b.drop_first());
    }
}

pub proof fn lemma_chars_lt_transitive(a: Seq<char>, b: Seq<char>, c: Seq<char>)
    requires
        chars_lt(a, b),
        chars_lt(b, c),
    ensures
        chars_lt(a, c),
    decreases a.len(),
{
    if a.len() > 0 && b.len() > 0 && c.len() > 0 && (a[0] as u32) == (b[0] as u32) && (b[0] as u32)
        == (c[0] as u32) {
        lemma_chars_lt_transitive(a.drop_first(), b.drop_first(), c.drop_first());
    }
}

pub proof fn lemma_chars_lt_trichotomy(a: Seq<char>, b: Seq<char>)
    ensures
        chars_lt(a, b) || chars_lt(b, a) || a == b,
    decreases a.len(),
{
    if a.len() == 0 && b.len() == 0 {
        assert(a =~= b);
    } else if a.len() > 0 && b.len() > 0 && (a[0] as u32) == (b[0] as u32) {
        lemma_chars_lt_trichotomy(a.drop_first(), b.drop_first());
        if a.drop_first() == b.drop_first() {
            vstd::utf8::char_u32_cast(a[0], a[0] as u32);
            vstd::utf8::char_u32_cast(b[0], b[0] as u32);
            assert(a =~= seq![a[0]] + a.drop_first());
            assert(b =~= seq![b[0]] + b.drop_first());
        }
    }
}

} // verus!
verus! {

pub proof fn lemma_views_push(s: Seq<String>, x: String)
    ensures
        views(s.push(x)) == views(s).push(x@),
{
    assert(views(s.push(x)) =~= views(s).push(x@));
}

} // verus!
verus! {

/// Words are non-empty and hold no whitespace.
pub proof fn lemma_words_are_words(s: Seq<char>)
    ensures
        forall|i: int| 0 <= i < words(s).len() ==> (#[trigger] words(s)[i]).len() > 0,
        forall|i: int, j: int|
            0 <= i < words(s).len() && 0 <= j < words(s)[i].len() ==> !white_space(
                #[trigger] words(s)[i][j],
            ),
{
    lemma_scan_words(s);
}

proof fn lemma_scan_words(s: Seq<char>)
    ensures
        forall|i: int| 0 <= i < scan_words(s).0.len() ==> (#[trigger] scan_words(s).0[i]).len() > 0,
        forall|i: int, j: int|
            0 <= i < scan_words(s).0.len() && 0 <= j < scan_words(s).0[i].len() ==> !white_space(
                #[trigger] scan_words(s).0[i][j],
            ),
        forall|j: int| 0 <= j < scan_words(s).1.len() ==> !white_space(#[trigger] scan_words(s).1[j]),
    decreases s.len(),
{
    if s.len() > 0 {
        lemma_scan_words(s.drop_last());
        let (done, cur) = scan_words(s.drop_last());
        let c = s.last();
        if white_space(c) {
            if cur.len() > 0 {
                let d2 = done.push(cur);
                assert forall|i: int, j: int| 0 <= i < d2.len() && 0 <= j < d2[i].len() implies !white_space(
                    #[trigger] d2[i][j],
                ) by {
                    if i < done.len() {
                        assert(d2[i] == done[i]);
                    }
                }
            }
        } else {
            let c2 = cur.push(c);
            assert forall|j: int| 0 <= j < c2.len() implies !white_space(#[trigger] c2[j]) by {
                if j < cur.len() {
                    assert(c2[j] == cur[j]);
                }
            }
        }
    }
}

/// Joining words with single spaces gives a text whose only whitespace is
/// those spaces.
pub proof fn lemma_join_one_line(ws: Seq<Seq<char>>)
    requires
        forall|i: int, j: int|
            0 <= i < ws.len() && 0 <= j < ws[i].len() ==> !white_space(#[trigger] ws[i][j]),
    ensures
        forall|k: int| 0 <= k < join(ws, " "@).len() && white_space(#[trigger] join(ws, " "@)[k]) ==> join(ws, " "@)[k] == ' ',
    decreases ws.len(),
{
    reveal_strlit(" ");
    if ws.len() > 1 {
        let d = ws.drop_last();
        assert forall|i: int, j: int| 0 <= i < d.len() && 0 <= j < d[i].len() implies !white_space(
            #[trigger] d[i][j],
        ) by {
            assert(d[i] == ws[i]);
        }
        lemma_join_one_line(d);
        let a = join(d, " "@);
        let t = a + " "@ + ws.last();
        assert forall|k: int| 0 <= k < t.len() && white_space(#[trigger] t[k]) implies t[k] == ' ' by {
            if k < a.len() {
                assert(t[k] == a[k]);
            } else if k == a.len() {
            } else {
                assert(t[k] == ws.last()[k - a.len() - 1]);
                assert(ws[ws.len() - 1][k - a.len() - 1] == ws.last()[k - a.len() - 1]);
            }
        }
    } else if ws.len() == 1 {
        assert forall|k: int| 0 <= k < ws[0].len() && white_space(#[trigger] ws[0][k]) implies ws[0][k] == ' ' by {
        }
    }
}

} // verus!
verus! {

/// A sequence of words: each non-empty, none holding whitespace.
pub open spec fn is_words(ws: Seq<Seq<char>>) -> bool {
    forall|i: int|
        0 <= i < ws.len() ==> (#[trigger] ws[i]).len() > 0 && forall|j: int|
            0 <= j < ws[i].len() ==> !white_space(#[trigger] ws[i][j])
}

proof fn lemma_scan_append_word(y: Seq<char>, w: Seq<char>)
    requires
        forall|j: int| 0 <= j < w.len() ==> !white_space(#[trigger] w[j]),
    ensures
        scan_words(y + w) == (scan_words(y).0, scan_words(y).1 + w),
    decreases w.len(),
{
    if w.len() == 0 {
        assert(y + w =~= y);
        assert(scan_words(y).1 + w =~= scan_words(y).1);
    } else {
        let w2 = w.drop_last();
        lemma_scan_append_word(y, w2);
        assert((y + w).drop_last() =~= y + w2);
        assert((y + w).last() == w.last());
        assert(!white_space(w[w.len() - 1]));
        assert((scan_words(y).1 + w2).push(w.last()) =~= scan_words(y).1 + w);
    }
}

proof fn lemma_scan_space(x: Seq<char>)
    ensures
        scan_words(x + " "@) == (words(x), Seq::<char>::empty()),
{
    reveal_strlit(" ");
    assert((x + " "@).drop_last() =~= x);
    assert((x + " "@).last() == ' ');
    assert(white_space(' '));
}

/// Splitting words joined by single spaces gives the words back.
pub proof fn lemma_words_of_join(ws: Seq<Seq<char>>)
    requires
        is_words(ws),
    ensures
        words(join(ws, " "@)) == ws,
    decreases ws.len(),
{
    if ws.len() == 0 {
        assert(words(join(ws, " "@)) =~= ws);
    } else if ws.len() == 1 {
        assert(ws[0].len() > 0);
        lemma_scan_append_word(seq![], ws[0]);
        assert(Seq::<char>::empty() + ws[0] =~= ws[0]);
        assert(words(ws[0]) =~= ws);
    } else {
        let d = ws.drop_last();
        assert(is_words(d)) by {
            assert forall|i: int| 0 <= i < d.len() implies (#[trigger] d[i]).len() > 0 && forall|j: int|
                0 <= j < d[i].len() ==> !white_space(#[trigger] d[i][j]) by {
                assert(d[i] == ws[i]);
            }
        }
        lemma_words_of_join(d);
        let x = join(d, " "@);
        let last = ws.last();
        assert(last == ws[ws.len() - 1]);
        assert(last.len() > 0);
        assert forall|j: int| 0 <= j < last.len() implies !white_space(#[trigger] last[j]) by {
            assert(last[j] == ws[ws.len() - 1][j]);
        }
        lemma_scan_space(x);
        lemma_scan_append_word(x + " "@, last);
        assert(Seq::<char>::empty() + last =~= last);
        assert(words(join(ws, " "@)) =~= d.push(last));
        assert(d.push(last) =~= ws);
    }
}

/// Two sequences of words that make the same rule `... *` are the same.
pub proof fn lemma_join_injective(a: Seq<Seq<char>>, b: Seq<Seq<char>>)
    requires
        is_words(a),
        is_words(b),
        join(a, " "@) + " *"@ == join(b, " "@) + " *"@,
    ensures
        a == b,
{
    reveal_strlit(" *");
    let ja = join(a, " "@);
    let jb = join(b, " "@);
    assert(" *"@.len() == 2);
    assert((ja + " *"@).len() == ja.len() + 2);
    assert((jb + " *"@).len() == jb.len() + 2);
    assert(ja.len() == jb.len());
    assert(ja =~= (ja + " *"@).take(ja.len() as int));
    assert(jb =~= (jb + " *"@).take(jb.len() as int));
    lemma_words_of_join(a);
    lemma_words_of_join(b);
}

} // verus!
verus! {

/// Words separated by single spaces: every whitespace character is a space
/// that follows a character that is not whitespace.
pub open spec fn spaced(s: Seq<char>) -> bool {
    forall|i: int|
        0 <= i < s.len() && white_space(#[trigger] s[i]) ==> s[i] == ' ' && i > 0 && !white_space(
            s[i - 1],
        )
}

proof fn lemma_join_push_char(d: Seq<Seq<char>>, x: Seq<char>, c: char)
    ensures
        join(d.push(x.push(c)), " "@) == join(d.push(x), " "@).push(c),
{
    if d.len() == 0 {
        assert(d.push(x.push(c))[0] == x.push(c));
        assert(d.push(x)[0] == x);
    } else {
        assert(d.push(x.push(c)).drop_last() == d);
        assert(d.push(x).drop_last() == d);
        assert(join(d, " "@) + " "@ + x.push(c) =~= (join(d, " "@) + " "@ + x).push(c));
    }
}

proof fn lemma_scan_spaced(s: Seq<char>)
    requires
        spaced(s),
    ensures
        s.len() == 0 ==> scan_words(s).0.len() == 0 && scan_words(s).1.len() == 0,
        s.len() > 0 && white_space(s.last()) ==> scan_words(s).1.len() == 0 && scan_words(s).0.len()
            > 0 && join(scan_words(s).0, " "@) + " "@ == s,
        s.len() > 0 && !white_space(s.last()) ==> scan_words(s).1.len() > 0 && join(
            scan_words(s).0.push(scan_words(s).1),
            " "@,
        ) == s,
    decreases s.len(),
{
    reveal_strlit(" ");
    if s.len() > 0 {
        let t = s.drop_last();
        let c = s.last();
        assert(spaced(t)) by {
            assert forall|i: int| 0 <= i < t.len() && white_space(#[trigger] t[i]) implies t[i] == ' '
                && i > 0 && !white_space(t[i - 1]) by {
                assert(t[i] == s[i]);
                if i > 0 {
                    assert(t[i - 1] == s[i - 1]);
                }
            }
        }
        lemma_scan_spaced(t);
        let (done, cur) = scan_words(t);
        assert(s == t.push(c));
        if white_space(c) {
            assert(white_space(s[s.len() - 1]));
            assert(c == ' ' && t.len() > 0 && !white_space(t.last()));
            assert(s =~= t + " "@);
        } else if t.len() == 0 {
            assert(scan_words(s) == (done, cur.push(c)));
            assert(done.push(cur.push(c)) =~= seq![seq![c]]);
            assert(join(seq![seq![c]], " "@) == seq![c]);
            assert(s =~= seq![c]);
        } else if white_space(t.last()) {
            let w = seq![c];
            assert(cur.push(c) =~= w);
            assert(done.push(w).drop_last() == done);
            assert(join(done.push(w), " "@) == join(done, " "@) + " "@ + w);
            assert(s =~= join(done, " "@) + " "@ + w);
        } else {
            lemma_join_push_char(done, cur, c);
        }
    }
}

/// Text of words separated by single spaces, ending in a word, is what
/// joining its words with single spaces gives.
pub proof fn lemma_spaced_rejoins(s: Seq<char>)
    requires
        spaced(s),
        s.len() > 0 ==> !white_space(s.last()),
    ensures
        join(words(s), " "@) == s,
{
    lemma_scan_spaced(s);
    if s.len() == 0 {
        assert(words(s) =~= Seq::<Seq<char>>::empty());
    }
}

/// Words joined by single spaces are spaced, and end in a word.
pub proof fn lemma_join_spaced(ws: Seq<Seq<char>>)
    requires
        is_words(ws),
    ensures
        spaced(join(ws, " "@)),
        join(ws, " "@).len() > 0 ==> !white_space(join(ws, " "@).last()),
    decreases ws.len(),
{
    reveal_strlit(" ");
    if ws.len() == 1 {
        assert(ws[0].len() > 0);
        assert(!white_space(ws[0][ws[0].len() - 1]));
    } else if ws.len() > 1 {
        let d = ws.drop_last();
        assert(is_words(d)) by {
            assert forall|i: int| 0 <= i < d.len() implies (#[trigger] d[i]).len() > 0 && forall|j: int|
                0 <= j < d[i].len() ==> !white_space(#[trigger] d[i][j]) by {
                assert(d[i] == ws[i]);
            }
        }
        lemma_join_spaced(d);
        let a = join(d, " "@);
        let w = ws.last();
        assert(w == ws[ws.len() - 1]);
        assert(d[0].len() > 0);
        assert(a.len() > 0) by {
            lemma_join_len(d);
        }
        let t = a + " "@ + w;
        assert(t == join(ws, " "@));
        assert forall|i: int| 0 <= i < t.len() && white_space(#[trigger] t[i]) implies t[i] == ' ' && i
            > 0 && !white_space(t[i - 1]) by {
            if i < a.len() {
                assert(t[i] == a[i]);
                assert(t[i - 1] == a[i - 1]);
            } else if i == a.len() {
                assert(t[i - 1] == a.last());
            } else {
                assert(t[i] == w[i - a.len() - 1]);
                assert(!white_space(ws[ws.len() - 1][i - a.len() - 1]));
            }
        }
        assert(w.len() > 0);
        assert(t.last() == w[w.len() - 1]);
        assert(!white_space(ws[ws.len() - 1][w.len() - 1]));
    }
}

proof fn lemma_join_len(ws: Seq<Seq<char>>)
    requires
        ws.len() > 0,
    ensures
        join(ws, " "@).len() >= ws[0].len(),
    decreases ws.len(),
{
    if ws.len() > 1 {
        lemma_join_len(ws.drop_last());
        assert(ws.drop_last()[0] == ws[0]);
    }
}

} // verus!
