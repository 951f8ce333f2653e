use vstd::prelude::*;

verus! {

/// The elements of `s` in the opposite order.
pub open spec fn reversed<A>(s: Seq<A>) -> Seq<A> {
    Seq::new(s.len(), |i: int| s[s.len() - 1 - i])
}

/// The characters of `s`, in order.
pub fn chars_of(s: &str) -> (r: Vec<char>)
    ensures
        r@ == s@,
{
    let mut r: Vec<char> = Vec::new();
    for c in it: s.chars()
        invariant
            r@ == it.seq().take(it.index() as int),
    {
        r.push(c);
    }
    r
}

/// Whether `a` and `b` hold the same characters.
pub fn str_eq(a: &str, b: &str) -> (r: bool)
    ensures
        r == (a@ == b@),
{
    let x = chars_of(a);
    let y = chars_of(b);
    if x.len() != y.len() {
        return false;
    }
    let mut i: usize = 0;
    while i < x.len()
        invariant
            x@ == a@,
            y@ == b@,
            x.len() == y.len(),
            i <= x.len(),
            forall|j: int| 0 <= j < i ==> x@[j] == y@[j],
        decreases x.len() - i,
    {
        if x[i] != y[i] {
            return false;
        }
        i = i + 1;
    }
    assert(x@ =~= y@);
    true
}

/// Appends `c` to `s` (`String::push`).
#[verifier::external_body]
pub fn push_char(s: &mut String, c: char)
    ensures
        final(s)@ == old(s)@.push(c),
{
    s.push(c);
}

/// The string whose characters are those of `cs`, in order.
pub fn string_of(cs: &Vec<char>) -> (r: String)
    ensures
        r@ == cs@,
{
    let mut r = String::new();
    let mut i: usize = 0;
    while i < cs.len()
        invariant
            i <= cs.len(),
            r@ == cs@.take(i as int),
        decreases cs.len() - i,
    {
        push_char(&mut r, cs[i]);
        i = i + 1;
    }
    r
}

/// `c` is white space (the Unicode `White_Space` property, as
/// `char::is_whitespace` tests it).
pub open spec fn is_ws(c: char) -> bool {
    let u = c as u32;
    u == 0x20 || (0x09 <= u && u <= 0x0d) || u == 0x85 || u == 0xa0 || u == 0x1680 || (0x2000
        <= u && u <= 0x200a) || u == 0x2028 || u == 0x2029 || u == 0x202f || u == 0x205f || u
        == 0x3000
}

/// Tests whether `c` is white space.
pub fn is_whitespace(c: char) -> (r: bool)
    ensures
        r == is_ws(c),
{
    let u = c as u32;
    u == 0x20 || (0x09 <= u && u <= 0x0d) || u == 0x85 || u == 0xa0 || u == 0x1680 || (0x2000
        <= u && u <= 0x200a) || u == 0x2028 || u == 0x2029 || u == 0x202f || u == 0x205f || u
        == 0x3000
}

/// The words of `s`: its maximal runs of characters that are not white space,
/// in order.
pub open spec fn words(s: Seq<char>) -> Seq<Seq<char>>
    decreases s.len(),
{
    if s.len() == 0 {
        seq![]
    } else if is_ws(s.last()) {
        words(s.drop_last())
    } else {
        let w = words(s.drop_last());
        if s.len() >= 2 && !is_ws(s[s.len() - 2]) {
            w.drop_last().push(w.last().push(s.last()))
        } else {
            w.push(seq![s.last()])
        }
    }
}

/// No character of `w` is white space.
pub open spec fn no_ws(w: Seq<char>) -> bool {
    forall|i: int| 0 <= i < w.len() ==> !is_ws(#[trigger] w[i])
}

/// The words of `ws` written one after another, separated by one space.
pub open spec fn joined(ws: Seq<Seq<char>>) -> Seq<char>
    decreases ws.len(),
{
    if ws.len() == 0 {
        seq![]
    } else if ws.len() == 1 {
        ws[0]
    } else {
        joined(ws.drop_last()) + seq![' '] + ws.last()
    }
}

/// Splits `s` into its words (`str::split_whitespace`).
pub fn split_words(s: &str) -> (r: Vec<Vec<char>>)
    ensures
        r@.map_values(|w: Vec<char>| w@) == words(s@),
{
    let cs = chars_of(s);
    let mut out: Vec<Vec<char>> = Vec::new();
    let mut cur: Vec<char> = Vec::new();
    let mut i: usize = 0;
    while i < cs.len()
        invariant
            cs@ == s@,
            i <= cs.len(),
            cur@.len() > 0 ==> (i > 0 && !is_ws(cs@[i - 1])),
            cur@.len() == 0 ==> (i == 0 || is_ws(cs@[i - 1])),
            words(cs@.take(i as int)) == if cur@.len() == 0 {
                out@.map_values(|w: Vec<char>| w@)
            } else {
                out@.map_values(|w: Vec<char>| w@).push(cur@)
            },
        decreases cs.len() - i,
    {
        let c = cs[i];
        let ghost prefix = cs@.take(i + 1);
        assert(prefix.drop_last() == cs@.take(i as int));
        assert(prefix.last() == c);
        if is_whitespace(c) {
            if cur.len() > 0 {
                let ghost before = out@.map_values(|w: Vec<char>| w@);
                let done = cur;
                out.push(done);
                cur = Vec::new();
                assert(out@.map_values(|w: Vec<char>| w@) =~= before.push(done@));
            }
        } else {
            let ghost before = out@.map_values(|w: Vec<char>| w@);
            let ghost old_cur = cur@;
            let had = cur.len() > 0;
            cur.push(c);
            if had {
                assert(prefix.len() >= 2 && prefix[prefix.len() - 2] == cs@[i - 1]);
                assert(before.push(old_cur).drop_last() =~= before);
            } else {
                if i > 0 {
                    assert(prefix[prefix.len() - 2] == cs@[i - 1]);
                }
                assert(cur@ =~= seq![c]);
            }
        }
        i = i + 1;
    }
    if cur.len() > 0 {
        out.push(cur);
    }
    assert(cs@.take(cs.len() as int) == cs@);
    assert(out@.map_values(|w: Vec<char>| w@) =~= words(s@));
    out
}

/// The words of words written with single spaces between them are those
/// words, when none is empty or holds white space: `split_words` undoes the
/// joining.
pub proof fn law_words_of_joined(ws: Seq<Seq<char>>)
    requires
        forall|i: int| 0 <= i < ws.len() ==> (#[trigger] ws[i]).len() > 0 && no_ws(ws[i]),
    ensures
        words(joined(ws)) == ws,
    decreases ws.len(),
{
    if ws.len() == 0 {
    } else if ws.len() == 1 {
        lemma_words_append_word(Seq::<char>::empty(), ws[0]);
        assert(Seq::<char>::empty() + ws[0] == ws[0]);
        assert(words(Seq::<char>::empty()).push(ws[0]) =~= ws);
    } else {
        let init = ws.drop_last();
        law_words_of_joined(init);
        let prefix = joined(init) + seq![' '];
        assert(prefix.drop_last() == joined(init));
        assert(words(prefix) == words(joined(init)));
        lemma_words_append_word(prefix, ws.last());
        assert(joined(ws) == prefix + ws.last());
        assert(init.push(ws.last()) =~= ws);
    }
}

/// Appending a word after white space (or at the start) adds that word.
proof fn lemma_words_append_word(p: Seq<char>, w: Seq<char>)
    requires
        w.len() > 0,
        no_ws(w),
        p.len() == 0 || is_ws(p.last()),
    ensures
        words(p + w) == words(p).push(w),
    decreases w.len(),
{
    let s = p + w;
    assert(s.drop_last() == p + w.drop_last());
    assert(s.last() == w.last());
    assert(!is_ws(w.last()));
    if w.len() == 1 {
        assert(p + w.drop_last() == p);
        assert(w =~= seq![w.last()]);
    } else {
        let u = w.drop_last();
        assert(no_ws(u)) by {
            assert forall|i: int| 0 <= i < u.len() implies !is_ws(#[trigger] u[i]) by {
                assert(u[i] == w[i]);
            }
        }
        lemma_words_append_word(p, u);
        assert(s[s.len() - 2] == w[w.len() - 2]);
        assert(!is_ws(w[w.len() - 2]));
        assert(words(p).push(u).drop_last() =~= words(p));
        assert(u.push(w.last()) =~= w);
    }
}

/// Appends the characters of `t` to `s`.
pub fn append_str(s: &mut String, t: &str)
    ensures
        final(s)@ == old(s)@ + t@,
{
    let cs = chars_of(t);
    let mut i: usize = 0;
    while i < cs.len()
        invariant
            i <= cs.len(),
            cs@ == t@,
            s@ == old(s)@ + cs@.take(i as int),
        decreases cs.len() - i,
    {
        push_char(s, cs[i]);
        assert(cs@.take(i + 1) =~= cs@.take(i as int).push(cs@[i as int]));
        i = i + 1;
    }
    assert(cs@.take(cs.len() as int) =~= cs@);
}

} // verus!
