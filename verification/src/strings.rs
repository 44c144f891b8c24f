//! Character-level helpers shared by the command modules.

use vstd::prelude::*;

verus! {

/// `String::push` appends one character.
pub assume_specification[ String::push ](s: &mut String, ch: char)
    ensures
        final(s)@ == old(s)@.push(ch),
;

/// The characters of `s`, in order.
pub fn to_chars(s: &str) -> (r: Vec<char>)
    ensures
        r@ == s@,
{
    let mut r: Vec<char> = Vec::new();
    for c in it: s.chars()
        invariant
            r@ == it.seq().take(it.index() as int),
            it.seq() == s@,
    {
        r.push(c);
    }
    r
}

/// Whether two strings hold the same characters.
pub fn same_text(a: &String, b: &String) -> (r: bool)
    ensures
        r == (a@ == b@),
{
    a.eq(b)
}

/// A string holding the characters of `chars`.
pub fn string_from(chars: &[char]) -> (r: String)
    ensures
        r@ == chars@,
{
    let mut r = String::new();
    let mut i: usize = 0;
    while i < chars.len()
        invariant
            0 <= i <= chars@.len(),
            r@ == chars@.take(i as int),
        decreases chars@.len() - i,
    {
        r.push(chars[i]);
        i = i + 1;
        proof {
            assert(chars@.take(i as int) =~= chars@.take(i - 1).push(chars@[i - 1]));
        }
    }
    proof {
        assert(chars@.take(chars@.len() as int) =~= chars@);
    }
    r
}

/// The words of `s` that follow the partial word `cur`: `s` is cut at each
/// space and empty pieces are dropped.
pub open spec fn words_after(s: Seq<char>, cur: Seq<char>) -> Seq<Seq<char>>
    decreases s.len(),
{
    if s.len() == 0 {
        if cur.len() > 0 { seq![cur] } else { Seq::empty() }
    } else if s[0] == ' ' {
        (if cur.len() > 0 { seq![cur] } else { Seq::empty() }) + words_after(s.drop_first(), Seq::empty())
    } else {
        words_after(s.drop_first(), cur.push(s[0]))
    }
}

/// The non-empty pieces of `s` between spaces, in order.
pub open spec fn words(s: Seq<char>) -> Seq<Seq<char>> {
    words_after(s, Seq::empty())
}

/// The view of a list of character vectors.
pub open spec fn seqs_view(v: Seq<Vec<char>>) -> Seq<Seq<char>> {
    v.map_values(|w: Vec<char>| w@)
}

/// Cuts `s` at each space, dropping empty pieces.
pub fn split_words(s: &[char]) -> (r: Vec<Vec<char>>)
    ensures
        seqs_view(r@) == words(s@),
{
    let mut out: Vec<Vec<char>> = Vec::new();
    let mut cur: Vec<char> = Vec::new();
    let mut i: usize = 0;
    proof {
        assert(s@.skip(0) =~= s@);
        assert(seqs_view(out@) =~= Seq::empty());
    }
    while i < s.len()
        invariant
            0 <= i <= s@.len(),
            words(s@) == seqs_view(out@) + words_after(s@.skip(i as int), cur@),
        decreases s@.len() - i,
    {
        let ghost rest = s@.skip(i as int);
        let ghost old_out = seqs_view(out@);
        let ghost old_cur = cur@;
        let c = s[i];
        proof {
            assert(rest.drop_first() =~= s@.skip(i + 1));
            assert(rest[0] == c);
        }
        if c == ' ' {
            if cur.len() > 0 {
                let w = cur;
                cur = Vec::new();
                out.push(w);
                proof {
                    assert(seqs_view(out@) =~= old_out + seq![old_cur]);
                    assert(words_after(rest, old_cur) == seq![old_cur] + words_after(rest.drop_first(), Seq::empty()));
                    assert((old_out + seq![old_cur]) + words_after(rest.drop_first(), Seq::empty())
                        =~= old_out + (seq![old_cur] + words_after(rest.drop_first(), Seq::empty())));
                    assert(cur@ =~= Seq::<char>::empty());
                    assert(words(s@) == seqs_view(out@) + words_after(rest.drop_first(), cur@));
                }
            } else {
                proof {
                    assert(old_cur =~= Seq::<char>::empty());
                    assert(words_after(rest, old_cur) =~= words_after(rest.drop_first(), Seq::empty()));
                    assert(words(s@) == seqs_view(out@) + words_after(rest.drop_first(), cur@));
                }
            }
        } else {
            cur.push(c);
            proof {
                assert(words_after(rest, old_cur) == words_after(rest.drop_first(), old_cur.push(c)));
            }
        }
        proof {
            assert(words(s@) == seqs_view(out@) + words_after(rest.drop_first(), cur@));
        }
        i = i + 1;
        proof {
            assert(rest.drop_first() =~= s@.skip(i as int));
        }
    }
    proof {
        assert(s@.skip(i as int) =~= Seq::<char>::empty());
    }
    if cur.len() > 0 {
        let ghost old_out = seqs_view(out@);
        let ghost old_cur = cur@;
        out.push(cur);
        proof {
            assert(seqs_view(out@) =~= old_out + seq![old_cur]);
        }
    } else {
        proof {
            assert(seqs_view(out@) =~= seqs_view(out@) + Seq::<Seq<char>>::empty());
        }
    }
    out
}

/// Whether two texts hold the same characters.
pub fn same_str(a: &str, b: &str) -> (r: bool)
    ensures
        r == (a@ == b@),
{
    let x = to_chars(a);
    let y = to_chars(b);
    if x.len() != y.len() {
        return false;
    }
    let mut i: usize = 0;
    while i < x.len()
        invariant
            x@ == a@,
            y@ == b@,
            x@.len() == y@.len(),
            0 <= i <= x@.len(),
            forall|k: int| 0 <= k < i ==> x@[k] == y@[k],
        decreases x@.len() - i,
    {
        if x[i] != y[i] {
            return false;
        }
        i = i + 1;
    }
    proof {
        assert(x@ =~= y@);
    }
    true
}

/// `needle` occurs in `hay` at position `i`.
pub open spec fn occurs_at(hay: Seq<char>, needle: Seq<char>, i: int) -> bool {
    0 <= i && i + needle.len() <= hay.len() && hay.subrange(i, i + needle.len()) == needle
}

/// `needle` occurs somewhere in `hay`.
pub open spec fn occurs_in(hay: Seq<char>, needle: Seq<char>) -> bool {
    exists|i: int| #[trigger] occurs_at(hay, needle, i)
}

/// Whether `needle` occurs in `hay`.
pub fn contains_str(hay: &str, needle: &str) -> (r: bool)
    ensures
        r == occurs_in(hay@, needle@),
{
    let h = to_chars(hay);
    let n = to_chars(needle);
    if n.len() > h.len() {
        proof {
            assert forall|i: int| !#[trigger] occurs_at(hay@, needle@, i) by {}
        }
        return false;
    }
    let hlen = h.len();
    let last = hlen - n.len();
    let mut i: usize = 0;
    while i <= last
        invariant
            hlen == h@.len(),
            h@ == hay@,
            n@ == needle@,
            n@.len() <= h@.len(),
            last == h@.len() - n@.len(),
            forall|k: int| 0 <= k < i ==> !#[trigger] occurs_at(hay@, needle@, k),
        decreases last + 1 - i,
    {
        let mut j: usize = 0;
        let mut same = true;
        while j < n.len()
            invariant
                h@ == hay@,
                n@ == needle@,
                i <= last,
                last == h@.len() - n@.len(),
                hlen == h@.len(),
                0 <= j <= n@.len(),
                same == forall|k: int| 0 <= k < j ==> h@[i + k] == n@[k],
            decreases n@.len() - j,
        {
            if h[i + j] != n[j] {
                same = false;
            }
            j = j + 1;
        }
        if same {
            proof {
                assert(hay@.subrange(i as int, i + needle@.len()) =~= needle@);
                assert(occurs_at(hay@, needle@, i as int));
            }
            return true;
        }
        proof {
            let k = choose|k: int| 0 <= k < n@.len() && h@[i + k] != n@[k];
            assert(hay@.subrange(i as int, i + needle@.len())[k] != needle@[k]);
        }
        if i == last {
            proof {
                assert forall|k: int| !#[trigger] occurs_at(hay@, needle@, k) by {}
            }
            return false;
        }
        i = i + 1;
    }
    proof {
        assert forall|k: int| !#[trigger] occurs_at(hay@, needle@, k) by {}
    }
    false
}

/// Every character of `s` is ASCII.
pub open spec fn all_ascii(s: Seq<char>) -> bool {
    forall|i: int| 0 <= i < s.len() ==> #[trigger] crate::charset::is_ascii_char(s[i])
}

/// Whether every character of `s` is ASCII.
pub fn is_ascii_text(s: &str) -> (r: bool)
    ensures
        r == all_ascii(s@),
{
    let chars = to_chars(s);
    let mut i: usize = 0;
    while i < chars.len()
        invariant
            chars@ == s@,
            0 <= i <= chars@.len(),
            forall|k: int| 0 <= k < i ==> #[trigger] crate::charset::is_ascii_char(chars@[k]),
        decreases chars@.len() - i,
    {
        if (chars[i] as u32) >= 128 {
            proof {
                assert(!crate::charset::is_ascii_char(s@[i as int]));
            }
            return false;
        }
        i = i + 1;
    }
    true
}

/// `s` begins with `p`.
pub open spec fn has_prefix(s: Seq<char>, p: Seq<char>) -> bool {
    p.len() <= s.len() && s.subrange(0, p.len() as int) == p
}

/// `s` ends with `p`.
pub open spec fn has_suffix(s: Seq<char>, p: Seq<char>) -> bool {
    p.len() <= s.len() && s.subrange(s.len() - p.len(), s.len() as int) == p
}

/// Whether `s` begins with `p`.
pub fn starts_with(s: &[char], p: &[char]) -> (r: bool)
    ensures
        r == has_prefix(s@, p@),
{
    if p.len() > s.len() {
        return false;
    }
    let mut i: usize = 0;
    while i < p.len()
        invariant
            p@.len() <= s@.len(),
            0 <= i <= p@.len(),
            forall|k: int| 0 <= k < i ==> s@[k] == p@[k],
        decreases p@.len() - i,
    {
        if s[i] != p[i] {
            proof {
                assert(s@.subrange(0, p@.len() as int)[i as int] != p@[i as int]);
            }
            return false;
        }
        i = i + 1;
    }
    proof {
        assert(s@.subrange(0, p@.len() as int) =~= p@);
    }
    true
}

/// Whether `s` ends with `p`.
pub fn ends_with(s: &[char], p: &[char]) -> (r: bool)
    ensures
        r == has_suffix(s@, p@),
{
    if p.len() > s.len() {
        return false;
    }
    let off = s.len() - p.len();
    let mut i: usize = 0;
    while i < p.len()
        invariant
            p@.len() <= s@.len(),
            s@.len() <= usize::MAX,
            off == s@.len() - p@.len(),
            0 <= i <= p@.len(),
            forall|k: int| 0 <= k < i ==> s@[off + k] == p@[k],
        decreases p@.len() - i,
    {
        if s[off + i] != p[i] {
            proof {
                assert(s@.subrange(off as int, s@.len() as int)[i as int] != p@[i as int]);
            }
            return false;
        }
        i = i + 1;
    }
    proof {
        assert(s@.subrange(off as int, s@.len() as int) =~= p@);
    }
    true
}

/// The characters of `s` from `from` up to `to`.
pub fn sub_chars(s: &[char], from: usize, to: usize) -> (r: Vec<char>)
    requires
        from <= to <= s@.len(),
    ensures
        r@ == s@.subrange(from as int, to as int),
{
    let mut r: Vec<char> = Vec::new();
    let mut i = from;
    while i < to
        invariant
            from <= i <= to <= s@.len(),
            r@ == s@.subrange(from as int, i as int),
        decreases to - i,
    {
        r.push(s[i]);
        i = i + 1;
        proof {
            assert(r@ =~= s@.subrange(from as int, i as int));
        }
    }
    r
}

/// Each character of a word of `s` (or of the partial word `cur`) is a
/// character of `s` or of `cur`.
pub proof fn lemma_words_chars(s: Seq<char>, cur: Seq<char>)
    ensures
        forall|w: int, k: int|
            0 <= w < words_after(s, cur).len() && 0 <= k < words_after(s, cur)[w].len()
                ==> s.contains(#[trigger] words_after(s, cur)[w][k]) || cur.contains(words_after(s, cur)[w][k]),
    decreases s.len(),
{
    let ws = words_after(s, cur);
    if s.len() == 0 {
        assert forall|w: int, k: int| 0 <= w < ws.len() && 0 <= k < ws[w].len()
            implies s.contains(#[trigger] ws[w][k]) || cur.contains(ws[w][k]) by {
            assert(ws[w] == cur);
        }
    } else if s[0] == ' ' {
        let head: Seq<Seq<char>> = if cur.len() > 0 { seq![cur] } else { Seq::empty() };
        let tail = words_after(s.drop_first(), Seq::empty());
        lemma_words_chars(s.drop_first(), Seq::empty());
        assert(ws == head + tail);
        assert forall|w: int, k: int| 0 <= w < ws.len() && 0 <= k < ws[w].len()
            implies s.contains(#[trigger] ws[w][k]) || cur.contains(ws[w][k]) by {
            if w < head.len() {
                assert(ws[w] == cur);
                assert(cur[k] == ws[w][k]);
            } else {
                assert(ws[w] == tail[w - head.len()]);
                let c = ws[w][k];
                assert(s.drop_first().contains(c) || Seq::<char>::empty().contains(c));
                let j = choose|j: int| 0 <= j < s.drop_first().len() && s.drop_first()[j] == c;
                assert(s[j + 1] == c);
            }
        }
    } else {
        lemma_words_chars(s.drop_first(), cur.push(s[0]));
        assert(ws == words_after(s.drop_first(), cur.push(s[0])));
        assert forall|w: int, k: int| 0 <= w < ws.len() && 0 <= k < ws[w].len()
            implies s.contains(#[trigger] ws[w][k]) || cur.contains(ws[w][k]) by {
            let c = ws[w][k];
            assert(s.drop_first().contains(c) || cur.push(s[0]).contains(c));
            if s.drop_first().contains(c) {
                let j = choose|j: int| 0 <= j < s.drop_first().len() && s.drop_first()[j] == c;
                assert(s[j + 1] == c);
            } else {
                let j = choose|j: int| 0 <= j < cur.push(s[0]).len() && cur.push(s[0])[j] == c;
                if j == cur.len() {
                    assert(s[0] == c);
                } else {
                    assert(cur[j] == c);
                }
            }
        }
    }
}

/// The words of an ASCII text are ASCII.
pub proof fn lemma_words_ascii(s: Seq<char>)
    requires
        all_ascii(s),
    ensures
        forall|w: int| 0 <= w < words(s).len() ==> all_ascii(#[trigger] words(s)[w]),
{
    lemma_words_chars(s, Seq::empty());
    assert forall|w: int| 0 <= w < words(s).len() implies all_ascii(#[trigger] words(s)[w]) by {
        assert forall|k: int| 0 <= k < words(s)[w].len() implies #[trigger] crate::charset::is_ascii_char(words(s)[w][k]) by {
            let c = words(s)[w][k];
            assert(s.contains(c) || Seq::<char>::empty().contains(c));
            let j = choose|j: int| 0 <= j < s.len() && s[j] == c;
        }
    }
}

} // verus!
