//! The command table: patterns such as `?tags create {key} value...` are
//! compiled into one state machine, and each final state is mapped to the
//! command it recognises.

use vstd::prelude::*;
use std::collections::HashMap;
use crate::charset::{CharacterSet, is_ascii_char};
use crate::state_machine::{
    StateMachine, StateView, Match, extends, no_new_finals, machine_wf, keys_ok, is_accepting_run, accepts,
    params_of_run, params_view, earlier, lemma_extends_trans, lemma_extends_refl, lemma_extends_remark, lemma_extends_keeps_edge, lemma_reads_loop,
    reads, lemma_reads_empty, lemma_reads_step, lemma_reads_concat, lemma_reads_extends, lemma_reads_accepts,
    unrecorded, reads_unrecorded, lemma_unrecorded_empty, lemma_unrecorded_step, lemma_unrecorded_concat,
    lemma_unrecorded_loop, lemma_unrecorded_extends, lemma_unrecorded_run, run_records, lemma_one_param_run, lemma_two_param_run, is_path, step_ok,
};
use crate::strings::{
    to_chars, string_from, split_words, words, seqs_view, all_ascii, has_prefix, has_suffix,
    starts_with, ends_with, sub_chars, lemma_words_ascii,
};

verus! {

broadcast use vstd::std_specs::hash::group_hash_axioms;

/// Every message that may be a command starts with this prefix.
pub const PREFIX: &'static str = "?";

/// `b` grows out of `a` by new states and edges, with no new final state.
/// Every state of `a` but `r` records in `b` what it recorded in `a`.
pub open spec fn keys_kept(a: Seq<StateView>, b: Seq<StateView>, r: usize) -> bool {
    forall|s: int| 0 <= s < a.len() && s != r ==> #[trigger] b[s].key == a[s].key
}

/// The state `r`, where a pattern whose last segment is `w` ends, reads
/// only what that segment may end with: exactly the last character of a
/// literal word; for `{name}`, letters but no space; for `name...`, a space
/// too.
pub open spec fn ends_like(m: Seq<StateView>, r: usize, w: Seq<char>) -> bool {
    &&& (literal_word(w) && w.len() > 0 ==> forall|c: char| #[trigger] m[r as int].expected.has(c) == (c == w.last()))
    &&& (param_word(w) ==> !m[r as int].expected.has(' ') && m[r as int].expected.has('a'))
    &&& (rest_word(w) ==> m[r as int].expected.has(' '))
}

pub open spec fn grows(a: Seq<StateView>, b: Seq<StateView>) -> bool {
    &&& machine_wf(b)
    &&& keys_ok(b)
    &&& extends(a, b)
    &&& no_new_finals(a, b)
}

proof fn lemma_grows_trans(a: Seq<StateView>, b: Seq<StateView>, c: Seq<StateView>)
    requires
        grows(a, b),
        extends(b, c),
        no_new_finals(b, c),
        machine_wf(c),
        keys_ok(c),
    ensures
        grows(a, c),
{
    lemma_extends_trans(a, b, c);
}

/// Changing the parse marks of a state keeps the growth.
proof fn lemma_grows_mark_new(a: Seq<StateView>, b: Seq<StateView>, idx: int, c: Seq<StateView>)
    requires
        grows(a, b),
        0 <= idx < b.len(),
        machine_wf(c),
        keys_ok(c),
        c == b.update(idx, StateView { key: c[idx].key, ends_parse: c[idx].ends_parse, ..b[idx] }),
    ensures
        grows(a, c),
{
    lemma_extends_remark(a, b, idx, c);
}

/// The name in a `name={}` segment: the text before the first `={}`, when
/// that text is not empty.
pub open spec fn marker_at(s: Seq<char>, j: int) -> bool {
    &&& 0 <= j
    &&& j + 3 <= s.len()
    &&& s[j] == '='
    &&& s[j + 1] == '{'
    &&& s[j + 2] == '}'
}

/// The name that `key_value_pair` finds in `s`.
pub open spec fn kv_name(s: Seq<char>) -> Option<Seq<char>> {
    if exists|j: int| #[trigger] marker_at(s, j) {
        let j = choose|j: int| #[trigger] marker_at(s, j) && forall|k: int| 0 <= k < j ==> !marker_at(s, k);
        if j > 0 { Some(s.subrange(0, j)) } else { None }
    } else {
        None
    }
}

/// If `s` holds a `name={}` marker, the text before the first one, when it
/// is not empty.
pub fn key_value_pair(s: &str) -> (r: Option<&str>)
    ensures
        r matches Some(name) ==> {
            &&& name@.len() > 0
            &&& marker_at(s@, name@.len() as int)
            &&& forall|k: int| 0 <= k < name@.len() ==> !marker_at(s@, k)
            &&& name@ == s@.subrange(0, name@.len() as int)
        },
        r is None <==> (forall|j: int| !#[trigger] marker_at(s@, j)) || marker_at(s@, 0),
        r matches Some(name) ==> kv_name(s@) == Some(name@),
        r is None ==> kv_name(s@) is None,
{
    let chars = to_chars(s);
    let n = chars.len();
    let mut j: usize = 0;
    while n - j >= 3
        invariant
            j <= n,
            chars@ == s@,
            n == chars@.len(),
            forall|k: int| 0 <= k < j ==> !marker_at(s@, k),
        decreases n - j,
    {
        if chars[j] == '=' && chars[j + 1] == '{' && chars[j + 2] == '}' {
            proof {
                assert(marker_at(s@, j as int));
                let jj = choose|jj: int| #[trigger] marker_at(s@, jj) && forall|k: int| 0 <= k < jj ==> !marker_at(s@, k);
                assert(jj == j);
            }
            if j > 0 {
                let name = s.substring_char(0, j);
                return Some(name);
            } else {
                return None;
            }
        }
        j = j + 1;
    }
    proof {
        assert forall|k: int| !#[trigger] marker_at(s@, k) by {
            if marker_at(s@, k) && k >= j {
                assert(k + 3 <= n);
            }
        }
    }
    None
}

/// A pattern that `Commands::add` can compile: ASCII, and every quoted-code
/// segment long enough to hold its delimiters.
pub open spec fn segment_ok(w: Seq<char>) -> bool {
    if kv_name(w) is Some {
        true
    } else if has_prefix(w, seq!['`', '`', '`', '\n']) && has_suffix(w, seq!['`', '`', '`']) {
        true
    } else if has_prefix(w, seq!['`', '`', '`']) && has_suffix(w, seq!['`', '`', '`']) {
        w.len() >= 6
    } else if has_prefix(w, seq!['`']) && has_suffix(w, seq!['`']) {
        w.len() >= 2
    } else {
        true
    }
}

/// See [`segment_ok`].
pub open spec fn pattern_ok(input: Seq<char>) -> bool {
    &&& all_ascii(input)
    &&& forall|w: int| 0 <= w < words(input).len() ==> segment_ok(#[trigger] words(input)[w])
}

/// Whether the word `w` is a segment that `Commands::add` can compile.
fn segment_valid(w: &[char]) -> (r: bool)
    ensures
        r == segment_ok(w@),
{
    let s = string_from(w);
    if key_value_pair(s.as_str()).is_some() {
        return true;
    }
    let fence = ['`', '`', '`', '\n'];
    let three = ['`', '`', '`'];
    let one = ['`'];
    proof {
        assert(fence@ =~= seq!['`', '`', '`', '\n']);
        assert(three@ =~= seq!['`', '`', '`']);
        assert(one@ =~= seq!['`']);
    }
    if starts_with(w, fence.as_slice()) && ends_with(w, three.as_slice()) {
        true
    } else if starts_with(w, three.as_slice()) && ends_with(w, three.as_slice()) {
        w.len() >= 6
    } else if starts_with(w, one.as_slice()) && ends_with(w, one.as_slice()) {
        w.len() >= 2
    } else {
        true
    }
}

/// Whether `Commands::add` can compile the pattern `input`.
pub fn pattern_valid(input: &str) -> (r: bool)
    ensures
        r == pattern_ok(input@),
{
    if !crate::strings::is_ascii_text(input) {
        return false;
    }
    let chars = to_chars(input);
    let segments = split_words(chars.as_slice());
    let mut j: usize = 0;
    while j < segments.len()
        invariant
            chars@ == input@,
            all_ascii(input@),
            seqs_view(segments@) == words(input@),
            0 <= j <= segments@.len(),
            forall|w: int| 0 <= w < j ==> segment_ok(#[trigger] words(input@)[w]),
        decreases segments@.len() - j,
    {
        proof {
            assert(segments@[j as int]@ == words(input@)[j as int]);
        }
        if !segment_valid(segments[j].as_slice()) {
            return false;
        }
        j = j + 1;
    }
    true
}

/// What `Commands::add` keeps while it compiles a pattern for `command`,
/// starting from machine `start` and command table `old_map`: the machine
/// grows, every final state has a command, each new final state runs
/// `command`, and table entries are only added or set to `command`.
pub open spec fn table_inv<H>(
    start: Seq<StateView>,
    old_map: Map<usize, H>,
    m: Seq<StateView>,
    map: Map<usize, H>,
    command: H,
) -> bool {
    &&& machine_wf(m)
    &&& keys_ok(m)
    &&& extends(start, m)
    &&& forall|s: int|
        0 <= s < m.len() && #[trigger] m[s].is_final ==> map.contains_key(s as usize)
            && ((s < start.len() && start[s].is_final) || map[s as usize] == command)
    &&& forall|k: usize| #[trigger] map.contains_key(k) ==> (k as int) < m.len()
    &&& forall|k: usize|
        #[trigger] map.contains_key(k) ==> (old_map.contains_key(k) && map[k] == old_map[k]) || map[k] == command
    &&& forall|k: usize| #[trigger] old_map.contains_key(k) ==> map.contains_key(k)
}

proof fn lemma_table_inv_grow<H>(
    start: Seq<StateView>,
    old_map: Map<usize, H>,
    m1: Seq<StateView>,
    m2: Seq<StateView>,
    map: Map<usize, H>,
    command: H,
)
    requires
        table_inv(start, old_map, m1, map, command),
        grows(m1, m2),
    ensures
        table_inv(start, old_map, m2, map, command),
{
    lemma_extends_trans(start, m1, m2);
    assert forall|s: int| 0 <= s < m2.len() && #[trigger] m2[s].is_final implies map.contains_key(s as usize)
        && ((s < start.len() && start[s].is_final) || map[s as usize] == command) by {
        assert(m1[s].is_final);
    }
}

proof fn lemma_table_inv_finalize<H>(
    start: Seq<StateView>,
    old_map: Map<usize, H>,
    m1: Seq<StateView>,
    map: Map<usize, H>,
    command: H,
    s: usize,
)
    requires
        table_inv(start, old_map, m1, map, command),
        (s as int) < m1.len(),
    ensures
        table_inv(
            start,
            old_map,
            m1.update(s as int, StateView { is_final: true, ..m1[s as int] }),
            map.insert(s, command),
            command,
        ),
{
    let m2 = m1.update(s as int, StateView { is_final: true, ..m1[s as int] });
    let map2 = map.insert(s, command);
    assert forall|x: int| 0 <= x < start.len() implies #[trigger] crate::state_machine::kept_state(start[x], m2[x]) by {
        assert(crate::state_machine::kept_state(start[x], m1[x]));
    }
    assert forall|x: int, j: int| 0 <= x < m2.len() && 0 <= j < m2[x].next.len() implies (#[trigger] m2[x].next[j] as int) < m2.len() by {
        assert(m2[x].next == m1[x].next);
    }
    assert forall|x: int| 0 <= x < m2.len() && #[trigger] m2[x].is_final implies map2.contains_key(x as usize)
        && ((x < start.len() && start[x].is_final) || map2[x as usize] == command) by {
        if x != s {
            assert(m1[x].is_final);
        }
    }
}

/// A segment that stands for itself: no parameter, option, code block or
/// rest-of-message marker.
pub open spec fn literal_word(w: Seq<char>) -> bool {
    &&& kv_name(w) is None
    &&& !(has_prefix(w, seq!['`']) && has_suffix(w, seq!['`']))
    &&& !(has_prefix(w, seq!['{']) && has_suffix(w, seq!['}']))
    &&& !has_suffix(w, seq!['.', '.', '.'])
}

/// The first `n` words are literal.
pub open spec fn literal_prefix(ws: Seq<Seq<char>>, n: int) -> bool {
    forall|j: int| 0 <= j < n ==> literal_word(#[trigger] ws[j])
}

/// Every character of `v` is in `set`.
pub open spec fn word_in(v: Seq<char>, set: CharacterSet) -> bool {
    forall|k: int| 0 <= k < v.len() ==> set.has(#[trigger] v[k])
}

/// `v` has no space.
pub open spec fn no_space(v: Seq<char>) -> bool {
    forall|k: int| 0 <= k < v.len() ==> #[trigger] v[k] != ' '
}

/// A `{name}` segment: a word recorded as `name`.
pub open spec fn param_word(w: Seq<char>) -> bool {
    &&& kv_name(w) is None
    &&& has_prefix(w, seq!['{'])
    &&& has_suffix(w, seq!['}'])
}

/// A `name...` segment: the rest of the message, recorded as `name`.
pub open spec fn rest_word(w: Seq<char>) -> bool {
    &&& kv_name(w) is None
    &&& !(has_prefix(w, seq!['{']) && has_suffix(w, seq!['}']))
    &&& has_suffix(w, seq!['.', '.', '.'])
    &&& w.len() > 3
}

/// The name that a `{name}` or `name...` segment records its text under.
pub open spec fn segment_name(w: Seq<char>) -> Seq<char> {
    if param_word(w) {
        w.subrange(1, w.len() - 1)
    } else {
        w.subrange(0, w.len() - 3)
    }
}

/// A segment that is a literal word, a `{name}` or a `name...`.
pub open spec fn simple_word(w: Seq<char>) -> bool {
    literal_word(w) || param_word(w) || rest_word(w)
}

/// `v` can stand in a message for the segment `w`: a literal word for
/// itself, `{name}` for any word without a space, `name...` for any text.
pub open spec fn fills(w: Seq<char>, v: Seq<char>) -> bool {
    if param_word(w) {
        v.len() > 0 && no_space(v)
    } else if rest_word(w) {
        v.len() > 0
    } else {
        v == w
    }
}

/// The first `n` segments are simple.
pub open spec fn simple_prefix(ws: Seq<Seq<char>>, n: int) -> bool {
    forall|j: int| 0 <= j < n ==> simple_word(#[trigger] ws[j])
}

/// `vs` stands, word by word, for the first `n` segments `ws`.
pub open spec fn fills_all(ws: Seq<Seq<char>>, vs: Seq<Seq<char>>, n: int) -> bool {
    &&& vs.len() == n
    &&& forall|j: int| 0 <= j < n ==> #[trigger] fills(ws[j], vs[j])
}

/// A run of one or more spaces and newlines: what may stand between two
/// words of a message.
pub open spec fn blank_run(s: Seq<char>) -> bool {
    &&& s.len() > 0
    &&& forall|k: int| 0 <= k < s.len() ==> #[trigger] s[k] == ' ' || s[k] == '\n'
}

/// `j`, then the separator `sep` unless `v` is the first word, then `v`.
pub open spec fn sep_join(j: Seq<char>, sep: Seq<char>, v: Seq<char>, i: int) -> Seq<char> {
    sep_prefix(j, sep, i as int) + v
}

/// The words `vs` joined by the separators `seps`, the last separator
/// standing before the last word.
pub open spec fn join_sep(vs: Seq<Seq<char>>, seps: Seq<Seq<char>>) -> Seq<char>
    decreases vs.len(),
{
    if vs.len() == 0 {
        Seq::empty()
    } else if vs.len() == 1 {
        vs[0]
    } else {
        join_sep(vs.drop_last(), seps.drop_last()) + seps.last() + vs.last()
    }
}

/// `seps` separates `n` words: one blank run between each two.
pub open spec fn seps_ok(seps: Seq<Seq<char>>, n: int) -> bool {
    &&& seps.len() == (if n == 0 { 0 } else { n - 1 })
    &&& forall|j: int| 0 <= j < seps.len() ==> blank_run(#[trigger] seps[j])
}

/// The separators of `n` words joined by single spaces.
pub open spec fn single_spaces(n: nat) -> Seq<Seq<char>> {
    Seq::new(if n == 0 { 0 } else { (n - 1) as nat }, |_j: int| seq![' '])
}

/// Words joined by single spaces are words joined by blank runs.
pub proof fn lemma_join_words_sep(vs: Seq<Seq<char>>)
    ensures
        join_words(vs) == join_sep(vs, single_spaces(vs.len())),
        seps_ok(single_spaces(vs.len()), vs.len() as int),
    decreases vs.len(),
{
    let ss = single_spaces(vs.len());
    assert forall|j: int| 0 <= j < ss.len() implies blank_run(#[trigger] ss[j]) by {
        assert(ss[j] == seq![' ']);
    }
    if vs.len() >= 2 {
        lemma_join_words_sep(vs.drop_last());
        assert(ss.drop_last() =~= single_spaces(vs.drop_last().len()));
        assert(ss.last() == seq![' ']);
    }
}

/// A value of an unquoted `name=value` option: no space, newline or
/// double quote.
pub open spec fn plain_value(v: Seq<char>) -> bool {
    forall|k: int| 0 <= k < v.len() ==> #[trigger] v[k] != ' ' && v[k] != '\n' && v[k] != '"'
}

/// A value of a quoted `name="value"` option: no double quote.
pub open spec fn quoted_value(v: Seq<char>) -> bool {
    forall|k: int| 0 <= k < v.len() ==> #[trigger] v[k] != '"'
}

/// The language tag after an opening ```` ``` ````: no backtick, space or
/// newline.
pub open spec fn fence_tag(v: Seq<char>) -> bool {
    forall|k: int| 0 <= k < v.len() ==> #[trigger] v[k] != '`' && v[k] != ' ' && v[k] != '\n'
}

/// The states of a fenced block compiled from `state`: the opening fence
/// leads, without recording, to `lambda`; `lambda` enters the tag state `t`,
/// which reads exactly the characters a language tag may hold, or the
/// newline state `nl` directly; `t` loops and leads to `nl`, which reads
/// only a newline and enters the body state `k`, which reads anything and
/// records it under `name`; the closing fence leads from `k` to `r`.
pub open spec fn fenced_block_states(
    m: Seq<StateView>,
    state: usize,
    lambda: usize,
    t: usize,
    nl: usize,
    k: usize,
    r: usize,
    name: Seq<char>,
) -> bool {
    &&& (lambda as int) < m.len() && (t as int) < m.len() && (nl as int) < m.len()
    &&& (k as int) < m.len() && (r as int) < m.len()
    &&& reads_unrecorded(m, state, backticks(3), lambda)
    &&& m[lambda as int].next.contains(t)
    &&& m[lambda as int].next.contains(nl)
    &&& m[t as int].next.contains(t)
    &&& m[t as int].next.contains(nl)
    &&& forall|c: char| #[trigger] m[t as int].expected.has(c) == fence_tag(seq![c])
    &&& forall|c: char| #[trigger] m[nl as int].expected.has(c) == (c == '\n')
    &&& m[nl as int].next.contains(k)
    &&& m[k as int].next.contains(k)
    &&& forall|c: char| #[trigger] m[k as int].expected.has(c)
    &&& m[k as int].key == Some(name)
    &&& reads_unrecorded(m, k, backticks(3), r)
}

/// The states of a quoted option item compiled from `state`: `name`, `=`
/// and the opening quote lead, without recording, to `open`; `open` enters
/// the value state `v`, which loops, reads exactly the characters a quoted
/// value may hold and records them under `name`; `v` leads to the closing
/// quote state `r`, which reads only a double quote.
pub open spec fn quoted_item_states(
    m: Seq<StateView>,
    state: usize,
    open: usize,
    v: usize,
    r: usize,
    name: Seq<char>,
) -> bool {
    &&& (open as int) < m.len() && (v as int) < m.len() && (r as int) < m.len()
    &&& reads(m, state, name + seq!['=', '"'], open)
    &&& m[open as int].next.contains(v)
    &&& m[v as int].next.contains(v)
    &&& forall|c: char| #[trigger] m[v as int].expected.has(c) == quoted_value(seq![c])
    &&& m[v as int].key == Some(name)
    &&& m[v as int].next.contains(r)
    &&& forall|c: char| #[trigger] m[r as int].expected.has(c) == (c == '"')
}

/// The states of an unquoted option item compiled from `state`: `name` and
/// `=` lead to `eq`, which enters the value state `v`, which loops, reads
/// exactly the characters an unquoted value may hold and records them under
/// `name`.
pub open spec fn plain_item_states(m: Seq<StateView>, state: usize, eq: usize, v: usize, name: Seq<char>) -> bool {
    &&& (eq as int) < m.len() && (v as int) < m.len()
    &&& reads(m, state, name + seq!['='], eq)
    &&& m[eq as int].next.contains(v)
    &&& m[v as int].next.contains(v)
    &&& forall|c: char| #[trigger] m[v as int].expected.has(c) == plain_value(seq![c])
    &&& m[v as int].key == Some(name)
}

/// The facts gathered while compiling a fenced block make up
/// [`fenced_block_states`].
proof fn lemma_fenced_block_kept(
    m1: Seq<StateView>,
    m5: Seq<StateView>,
    m6: Seq<StateView>,
    m7: Seq<StateView>,
    s0: usize,
    lambda: usize,
    s2: usize,
    s3: usize,
    s4: usize,
    r: usize,
    name: Seq<char>,
    excluded: Seq<char>,
)
    requires
        extends(m1, m5),
        extends(m5, m6),
        extends(m6, m7),
        (lambda as int) < m5.len(),
        (s2 as int) < m5.len(),
        (s3 as int) < m5.len(),
        (s4 as int) < m6.len(),
        (r as int) < m7.len(),
        reads_unrecorded(m1, s0, backticks(3), lambda),
        m5[lambda as int].next.contains(s2),
        m5[lambda as int].next.contains(s3),
        m5[s2 as int].next.contains(s2),
        m5[s2 as int].next.contains(s3),
        excluded == seq!['`', ' ', '\n'],
        forall|c: char| #[trigger] m5[s2 as int].expected.has(c) == !excluded.contains(c),
        forall|c: char| #[trigger] m5[s3 as int].expected.has(c) == (c == '\n'),
        m6[s3 as int].next.contains(s4),
        m6[s4 as int].next.contains(s4),
        forall|c: char| #[trigger] m6[s4 as int].expected.has(c),
        m6[s4 as int].key == Some(name),
        m7[s4 as int].key == m6[s4 as int].key,
        reads_unrecorded(m7, s4, backticks(3), r),
    ensures
        fenced_block_states(m7, s0, lambda, s2, s3, s4, r, name),
{
    lemma_extends_trans(m1, m5, m6);
    lemma_extends_trans(m1, m6, m7);
    lemma_extends_trans(m5, m6, m7);
    lemma_unrecorded_extends(m1, m7, s0, backticks(3), lambda);
    lemma_extends_keeps_edge(m5, m7, lambda as int, s2);
    lemma_extends_keeps_edge(m5, m7, lambda as int, s3);
    lemma_extends_keeps_edge(m5, m7, s2 as int, s2);
    lemma_extends_keeps_edge(m5, m7, s2 as int, s3);
    lemma_extends_keeps_edge(m6, m7, s3 as int, s4);
    lemma_extends_keeps_edge(m6, m7, s4 as int, s4);
    assert(crate::state_machine::kept_state(m5[s2 as int], m7[s2 as int]));
    assert(crate::state_machine::kept_state(m5[s3 as int], m7[s3 as int]));
    assert(crate::state_machine::kept_state(m6[s4 as int], m7[s4 as int]));
    assert forall|c: char| #[trigger] m7[s2 as int].expected.has(c) == fence_tag(seq![c]) by {
        assert(m5[s2 as int].expected.has(c) == !excluded.contains(c));
        assert(seq![c][0] == c);
        if excluded.contains(c) {
            let j = choose|j: int| 0 <= j < excluded.len() && excluded[j] == c;
            assert(!fence_tag(seq![c]));
        } else {
            assert(excluded[0] == '`' && excluded[1] == ' ' && excluded[2] == '\n');
            assert(c != '`' && c != ' ' && c != '\n');
            assert(fence_tag(seq![c]));
        }
    }
    assert forall|c: char| #[trigger] m7[s3 as int].expected.has(c) == (c == '\n') by {
        assert(m5[s3 as int].expected.has(c) == (c == '\n'));
    }
    assert forall|c: char| #[trigger] m7[s4 as int].expected.has(c) by {
        assert(m6[s4 as int].expected.has(c));
    }
}

/// A run that enters a fenced block's tag state from `lambda` and leaves it
/// for the newline state reads, in between, a language tag and then the
/// newline: the tag ends at the first newline and holds no blank or
/// backtick, whatever the rest of the message.
pub proof fn law_fence_tag_in_run(
    m: Seq<StateView>,
    state: usize,
    lambda: usize,
    t: usize,
    nl: usize,
    k: usize,
    r: usize,
    name: Seq<char>,
    input: Seq<char>,
    p: Seq<usize>,
    a: int,
    b: int,
)
    requires
        fenced_block_states(m, state, lambda, t, nl, k, r, name),
        is_path(m, input, 0, p),
        0 <= a < b < p.len(),
        p[b] == nl,
        forall|x: int| a < x < b ==> #[trigger] p[x] == t,
    ensures
        fence_tag(input.subrange(a, b - 1)),
        input[b - 1] == '\n',
{
    assert(step_ok(m, input, 0, p, b - 1));
    assert forall|j: int| 0 <= j < input.subrange(a, b - 1).len()
        implies #[trigger] input.subrange(a, b - 1)[j] != '`' && input.subrange(a, b - 1)[j] != ' '
            && input.subrange(a, b - 1)[j] != '\n' by {
        let c = input[a + j];
        assert(step_ok(m, input, 0, p, a + j));
        assert(p[a + j + 1] == t);
        assert(m[t as int].expected.has(c));
        assert(fence_tag(seq![c]));
        assert(seq![c][0] == c);
    }
}

/// A run that enters a quoted option item's value state from `open` and
/// leaves it for the closing quote reads, in between, a value without a
/// double quote: the value ends at the first double quote.
pub proof fn law_quoted_value_in_run(
    m: Seq<StateView>,
    state: usize,
    open: usize,
    v: usize,
    r: usize,
    name: Seq<char>,
    input: Seq<char>,
    p: Seq<usize>,
    a: int,
    b: int,
)
    requires
        quoted_item_states(m, state, open, v, r, name),
        is_path(m, input, 0, p),
        0 <= a < b < p.len(),
        p[b] == r,
        forall|x: int| a < x < b ==> #[trigger] p[x] == v,
    ensures
        quoted_value(input.subrange(a, b - 1)),
        input[b - 1] == '"',
{
    assert(step_ok(m, input, 0, p, b - 1));
    assert forall|j: int| 0 <= j < input.subrange(a, b - 1).len()
        implies #[trigger] input.subrange(a, b - 1)[j] != '"' by {
        let c = input[a + j];
        assert(step_ok(m, input, 0, p, a + j));
        assert(p[a + j + 1] == v);
        assert(m[v as int].expected.has(c));
        assert(seq![c][0] == c);
    }
}

/// `n` backticks.
pub open spec fn backticks(n: nat) -> Seq<char> {
    Seq::new(n, |_k: int| '`')
}

/// The option text `name=value`.
pub open spec fn kv_text(name: Seq<char>, v: Seq<char>) -> Seq<char> {
    name + seq!['='] + v
}

/// The option text `name="value"`.
pub open spec fn quoted_kv_text(name: Seq<char>, v: Seq<char>) -> Seq<char> {
    name + seq!['=', '"'] + v + seq!['"']
}

/// Code quoted with `n` backticks on each side.
pub open spec fn quoted_code(n: nat, v: Seq<char>) -> Seq<char> {
    backticks(n) + v + backticks(n)
}

/// A fenced code block: ```` ``` ````, the tag, a newline, the code and
/// ```` ``` ````.
pub open spec fn code_block(tag: Seq<char>, v: Seq<char>) -> Seq<char> {
    backticks(3) + tag + seq!['\n'] + v + backticks(3)
}

/// Literal segments are simple, and stand for themselves.
proof fn lemma_literal_fills(ws: Seq<Seq<char>>)
    requires
        literal_prefix(ws, ws.len() as int),
    ensures
        simple_prefix(ws, ws.len() as int),
        fills_all(ws, ws, ws.len() as int),
{
    assert forall|j: int| 0 <= j < ws.len() implies #[trigger] fills(ws[j], ws[j]) by {
        assert(literal_word(ws[j]));
    }
}

/// A segment quoted with backticks is not simple.
proof fn lemma_code_word_not_simple(w: Seq<char>)
    requires
        has_prefix(w, seq!['`']) || has_prefix(w, seq!['`', '`', '`']) || has_prefix(w, seq!['`', '`', '`', '\n']),
        has_suffix(w, seq!['`']) || has_suffix(w, seq!['`', '`', '`']),
    ensures
        !simple_word(w),
{
    assert(w.len() >= 1);
    assert(w[0] == '`') by {
        if has_prefix(w, seq!['`']) {
            assert(w.subrange(0, 1)[0] == w[0]);
        } else if has_prefix(w, seq!['`', '`', '`']) {
            assert(w.subrange(0, 3)[0] == w[0]);
        } else {
            assert(w.subrange(0, 4)[0] == w[0]);
        }
    }
    assert(w[w.len() - 1] == '`') by {
        if has_suffix(w, seq!['`']) {
            assert(w.subrange(w.len() - 1, w.len() as int)[0] == w[w.len() - 1]);
        } else {
            assert(w.subrange(w.len() - 3, w.len() as int)[2] == w[w.len() - 1]);
        }
    }
    assert(has_prefix(w, seq!['`'])) by {
        assert(w.subrange(0, 1) =~= seq!['`']);
    }
    assert(has_suffix(w, seq!['`'])) by {
        assert(w.subrange(w.len() - 1, w.len() as int) =~= seq!['`']);
    }
    assert(!has_prefix(w, seq!['{'])) by {
        assert(w.subrange(0, 1)[0] == w[0]);
    }
    assert(!has_suffix(w, seq!['.', '.', '.'])) by {
        if w.len() >= 3 {
            assert(w.subrange(w.len() - 3, w.len() as int)[2] == w[w.len() - 1]);
        }
    }
}

/// A fenced code segment ```` ```\nname``` ````.
pub open spec fn fenced_code_word(w: Seq<char>) -> bool {
    &&& kv_name(w) is None
    &&& has_prefix(w, seq!['`', '`', '`', '\n'])
    &&& has_suffix(w, seq!['`', '`', '`'])
}

/// A code segment quoted with three backticks, ```` ```name``` ````.
pub open spec fn triple_code_word(w: Seq<char>) -> bool {
    &&& kv_name(w) is None
    &&& !(has_prefix(w, seq!['`', '`', '`', '\n']) && has_suffix(w, seq!['`', '`', '`']))
    &&& has_prefix(w, seq!['`', '`', '`'])
    &&& has_suffix(w, seq!['`', '`', '`'])
}

/// A code segment quoted with one backtick, `` `name` ``.
pub open spec fn single_code_word(w: Seq<char>) -> bool {
    &&& kv_name(w) is None
    &&& !(has_prefix(w, seq!['`', '`', '`', '\n']) && has_suffix(w, seq!['`', '`', '`']))
    &&& !(has_prefix(w, seq!['`', '`', '`']) && has_suffix(w, seq!['`', '`', '`']))
    &&& has_prefix(w, seq!['`'])
    &&& has_suffix(w, seq!['`'])
}

/// A code segment of any of the three kinds.
pub open spec fn code_word(w: Seq<char>) -> bool {
    fenced_code_word(w) || triple_code_word(w) || single_code_word(w)
}

/// A segment other than a `name={}` option or a bare `...`: a literal word,
/// `{name}`, `name...` or a code segment.
pub open spec fn plain_word(w: Seq<char>) -> bool {
    simple_word(w) || code_word(w)
}

/// `v` can stand in a message for the segment `w`: as in [`fills`], and for
/// a code segment, non-empty code inside the segment's backticks (after a
/// fence, an optional tag and a newline).
pub open spec fn stands_for(w: Seq<char>, v: Seq<char>) -> bool {
    if fenced_code_word(w) {
        exists|tag: Seq<char>, c: Seq<char>| #![trigger code_block(tag, c)]
            fence_tag(tag) && c.len() > 0 && v == code_block(tag, c)
    } else if triple_code_word(w) {
        exists|c: Seq<char>| #![trigger quoted_code(3, c)] c.len() > 0 && v == quoted_code(3, c)
    } else if single_code_word(w) {
        exists|c: Seq<char>| #![trigger quoted_code(1, c)] c.len() > 0 && v == quoted_code(1, c)
    } else {
        fills(w, v)
    }
}

/// The first `n` segments are plain.
pub open spec fn plain_prefix(ws: Seq<Seq<char>>, n: int) -> bool {
    forall|j: int| 0 <= j < n ==> plain_word(#[trigger] ws[j])
}

/// `vs` stands, word by word, for the first `n` segments `ws`.
pub open spec fn stands_all(ws: Seq<Seq<char>>, vs: Seq<Seq<char>>, n: int) -> bool {
    &&& vs.len() == n
    &&& forall|j: int| 0 <= j < n ==> #[trigger] stands_for(ws[j], vs[j])
}

/// A code segment is not simple.
proof fn lemma_code_not_simple(w: Seq<char>)
    requires
        code_word(w),
    ensures
        !simple_word(w),
{
    lemma_code_word_not_simple(w);
}

/// Simple segments are plain, and what fills them stands for them.
proof fn lemma_simple_plain(ws: Seq<Seq<char>>, vs: Seq<Seq<char>>, n: int)
    requires
        simple_prefix(ws, n),
    ensures
        plain_prefix(ws, n),
        fills_all(ws, vs, n) ==> stands_all(ws, vs, n),
{
    assert forall|j: int| 0 <= j < n implies plain_word(#[trigger] ws[j]) by {
        assert(simple_word(ws[j]));
    }
    if fills_all(ws, vs, n) {
        assert forall|j: int| 0 <= j < n implies #[trigger] stands_for(ws[j], vs[j]) by {
            assert(simple_word(ws[j]));
            if code_word(ws[j]) {
                lemma_code_not_simple(ws[j]);
            }
            assert(fills(ws[j], vs[j]));
        }
    }
}

/// The segments from `p` to `n` are all `name={}` options, and the one
/// before them, the last of a non-empty prefix, is not.
pub open spec fn option_group(ws: Seq<Seq<char>>, p: int, n: int) -> bool {
    &&& 1 <= p < n <= ws.len()
    &&& kv_name(ws[p - 1]) is None
    &&& forall|j: int| p <= j < n ==> #[trigger] kv_name(ws[j]) is Some
}

/// The option text for `name` and `v`: `name=v`, or `name="v"` when
/// `quoted`.
pub open spec fn option_text(name: Seq<char>, v: Seq<char>, quoted: bool) -> Seq<char> {
    if quoted { quoted_kv_text(name, v) } else { kv_text(name, v) }
}

/// `item` gives a value to one of the options among the segments from `p`
/// to `n`: a non-empty value without space, newline or double quote, or a
/// non-empty value without double quote between double quotes.
pub open spec fn option_item(ws: Seq<Seq<char>>, p: int, n: int, item: Seq<char>) -> bool {
    exists|j: int, v: Seq<char>, quoted: bool| #![trigger option_text(kv_name(ws[j])->0, v, quoted)]
        p <= j < n && kv_name(ws[j]) is Some && v.len() > 0
            && (if quoted { quoted_value(v) } else { plain_value(v) })
            && item == option_text(kv_name(ws[j])->0, v, quoted)
}

/// The items, each after its separator.
pub open spec fn items_text(seps: Seq<Seq<char>>, items: Seq<Seq<char>>) -> Seq<char>
    decreases items.len(),
{
    if items.len() == 0 {
        Seq::empty()
    } else {
        items_text(seps.drop_last(), items.drop_last()) + seps.last() + items.last()
    }
}

/// Any number of option items, in any order and possibly repeated, each
/// after a run of blanks.
pub open spec fn option_items(ws: Seq<Seq<char>>, p: int, n: int, seps: Seq<Seq<char>>, items: Seq<Seq<char>>) -> bool {
    &&& seps.len() == items.len()
    &&& forall|k: int| 0 <= k < items.len() ==> blank_run(#[trigger] seps[k]) && option_item(ws, p, n, items[k])
}

/// State `l` loops on blanks.
pub open spec fn blank_loop(m: Seq<StateView>, l: usize) -> bool {
    &&& (l as int) < m.len()
    &&& m[l as int].next.contains(l)
    &&& m[l as int].expected.has(' ')
    &&& m[l as int].expected.has('\n')
}

/// A state that loops on blanks reads any run of blanks, staying put.
proof fn lemma_blank_loop(m: Seq<StateView>, l: usize, sep: Seq<char>)
    requires
        blank_loop(m, l),
        blank_run(sep),
    ensures
        reads(m, l, sep, l),
{
    assert forall|k: int| 0 <= k < sep.len() implies m[l as int].expected.has(#[trigger] sep[k]) by {
        if sep[k] == ' ' {
        } else {
            assert(sep[k] == '\n');
        }
    }
    lemma_reads_loop(m, l, sep);
}

/// From an edge into a state that loops on blanks, a run of blanks.
proof fn lemma_blank_edge(m: Seq<StateView>, e: usize, l: usize, sep: Seq<char>)
    requires
        blank_loop(m, l),
        blank_run(sep),
        (e as int) < m.len(),
        m[e as int].next.contains(l),
    ensures
        reads(m, e, sep, l),
{
    assert(m[l as int].expected.has(sep[0])) by {
        if sep[0] == ' ' {
        } else {
            assert(sep[0] == '\n');
        }
    }
    lemma_reads_step(m, e, sep[0], l);
    assert(blank_run(sep.drop_first()) || sep.drop_first().len() == 0);
    if sep.drop_first().len() == 0 {
        assert(sep =~= seq![sep[0]]);
    } else {
        assert forall|k: int| 0 <= k < sep.drop_first().len() implies #[trigger] sep.drop_first()[k] == ' ' || sep.drop_first()[k] == '\n' by {
            assert(sep.drop_first()[k] == sep[k + 1]);
        }
        lemma_blank_loop(m, l, sep.drop_first());
        lemma_reads_concat(m, e, seq![sep[0]], l, sep.drop_first(), l);
        assert(seq![sep[0]] + sep.drop_first() =~= sep);
    }
}

/// The machine facts of a trailing option group: `opt[0]` ends the
/// prefix `x` and reads blanks into `l`; every later state of `opt` has an
/// edge back to `l`; and every item leads from `l` to a state of `opt`.
#[verifier::opaque]
pub open spec fn option_machine(
    m: Seq<StateView>,
    opt: Seq<usize>,
    l: usize,
    ws: Seq<Seq<char>>,
    p: int,
    n: int,
) -> bool {
    &&& opt.len() >= 1
    &&& blank_loop(m, l)
    &&& forall|k: int| 0 <= k < opt.len() ==> (#[trigger] opt[k] as int) < m.len()
    &&& forall|sep: Seq<char>| #[trigger] blank_run(sep) ==> reads(m, opt[0], sep, l)
    &&& forall|k: int| 1 <= k < opt.len() ==> m[#[trigger] opt[k] as int].next.contains(l)
    &&& forall|item: Seq<char>| #[trigger] option_item(ws, p, n, item)
        ==> exists|k: int| 1 <= k < opt.len() && #[trigger] reads(m, l, item, opt[k])
}

/// Option items after the prefix lead to a state of `opt`.
#[verifier::rlimit(100)]
#[verifier::spinoff_prover]
proof fn lemma_option_items(
    m: Seq<StateView>,
    opt: Seq<usize>,
    l: usize,
    ws: Seq<Seq<char>>,
    p: int,
    n: int,
    x: Seq<char>,
    seps: Seq<Seq<char>>,
    items: Seq<Seq<char>>,
)
    requires
        option_machine(m, opt, l, ws, p, n),
        reads(m, 0, x, opt[0]),
        option_items(ws, p, n, seps, items),
    ensures
        exists|k: int| 0 <= k < opt.len() && #[trigger] reads(m, 0, x + items_text(seps, items), opt[k]),
    decreases items.len(),
{
    reveal(option_machine);
    if items.len() == 0 {
        assert(x + items_text(seps, items) =~= x);
        assert(reads(m, 0, x + items_text(seps, items), opt[0]));
    } else {
        let ps = seps.drop_last();
        let pi = items.drop_last();
        assert(option_items(ws, p, n, ps, pi)) by {
            assert forall|k: int| 0 <= k < pi.len() implies blank_run(#[trigger] ps[k]) && option_item(ws, p, n, pi[k]) by {
                assert(ps[k] == seps[k] && pi[k] == items[k]);
            }
        }
        lemma_option_items(m, opt, l, ws, p, n, x, ps, pi);
        let k0 = choose|k: int| 0 <= k < opt.len() && #[trigger] reads(m, 0, x + items_text(ps, pi), opt[k]);
        let sep = seps.last();
        let item = items.last();
        assert(blank_run(sep) && option_item(ws, p, n, item)) by {
            assert(blank_run(seps[seps.len() - 1]) && option_item(ws, p, n, items[items.len() - 1]));
        }
        assert(reads(m, opt[k0], sep, l)) by {
            if k0 == 0 {
                assert(reads(m, opt[0], sep, l));
            } else {
                assert(m[opt[k0] as int].next.contains(l));
                lemma_blank_edge(m, opt[k0], l, sep);
            }
        }
        assert(exists|k: int| 1 <= k < opt.len() && #[trigger] reads(m, l, item, opt[k]));
        let k1 = choose|k: int| 1 <= k < opt.len() && #[trigger] reads(m, l, item, opt[k]);
        lemma_reads_concat(m, 0, x + items_text(ps, pi), opt[k0], sep, l);
        lemma_reads_concat(m, 0, x + items_text(ps, pi) + sep, l, item, opt[k1]);
        assert(x + items_text(ps, pi) + sep + item =~= x + items_text(seps, items));
    }
}

/// Extending the machine keeps the facts of an option group.
proof fn lemma_option_machine_extends(
    m1: Seq<StateView>,
    m2: Seq<StateView>,
    opt: Seq<usize>,
    l: usize,
    ws: Seq<Seq<char>>,
    p: int,
    n: int,
)
    requires
        extends(m1, m2),
        option_machine(m1, opt, l, ws, p, n),
    ensures
        option_machine(m2, opt, l, ws, p, n),
{
    reveal(option_machine);
    lemma_extends_keeps_edge(m1, m2, l as int, l);
    assert(crate::state_machine::kept_state(m1[l as int], m2[l as int]));
    assert forall|sep: Seq<char>| #[trigger] blank_run(sep) implies reads(m2, opt[0], sep, l) by {
        lemma_reads_extends(m1, m2, opt[0], sep, l);
    }
    assert forall|k: int| 1 <= k < opt.len() implies m2[#[trigger] opt[k] as int].next.contains(l) by {
        lemma_extends_keeps_edge(m1, m2, opt[k] as int, l);
    }
    assert forall|item: Seq<char>| #[trigger] option_item(ws, p, n, item)
        implies exists|k: int| 1 <= k < opt.len() && #[trigger] reads(m2, l, item, opt[k]) by {
        let k = choose|k: int| 1 <= k < opt.len() && #[trigger] reads(m1, l, item, opt[k]);
        lemma_reads_extends(m1, m2, l, item, opt[k]);
    }
}

/// The prefix `ws[..g]` leads to `e` in `m`.
#[verifier::opaque]
pub open spec fn prefix_reaches(m: Seq<StateView>, ws: Seq<Seq<char>>, g: int, e: usize) -> bool {
    forall|vs: Seq<Seq<char>>, seps: Seq<Seq<char>>|
        #![trigger stands_all(ws, vs, g), join_sep(vs, seps)]
        stands_all(ws, vs, g) && seps_ok(seps, g) ==> reads(m, 0, join_sep(vs, seps), e)
}

/// What the prefix reaches, from its messages.
proof fn lemma_prefix_reaches_intro(m: Seq<StateView>, ws: Seq<Seq<char>>, g: int, e: usize)
    requires
        forall|vs: Seq<Seq<char>>, seps: Seq<Seq<char>>|
            #![trigger stands_all(ws, vs, g), join_sep(vs, seps)]
            stands_all(ws, vs, g) && seps_ok(seps, g) ==> reads(m, 0, join_sep(vs, seps), e),
    ensures
        prefix_reaches(m, ws, g, e),
{
    reveal(prefix_reaches);
}

/// Extending the machine keeps what the prefix reaches.
proof fn lemma_prefix_reaches_extends(m1: Seq<StateView>, m2: Seq<StateView>, ws: Seq<Seq<char>>, g: int, e: usize)
    requires
        extends(m1, m2),
        prefix_reaches(m1, ws, g, e),
    ensures
        prefix_reaches(m2, ws, g, e),
{
    reveal(prefix_reaches);
    assert forall|vs: Seq<Seq<char>>, seps: Seq<Seq<char>>|
        #![trigger stands_all(ws, vs, g), join_sep(vs, seps)]
        stands_all(ws, vs, g) && seps_ok(seps, g) implies reads(m2, 0, join_sep(vs, seps), e) by {
        lemma_reads_extends(m1, m2, 0, join_sep(vs, seps), e);
    }
}

/// One more option segment `ws[i]`, named `name`, keeps the facts of its
/// group: its items lead from `l` to `kv` (unquoted) or `st` (quoted).
proof fn lemma_option_step(
    m_before: Seq<StateView>,
    m_a: Seq<StateView>,
    opt_old: Seq<usize>,
    opt: Seq<usize>,
    was: Option<usize>,
    l: usize,
    pe: usize,
    kv: usize,
    st: usize,
    ws: Seq<Seq<char>>,
    g: int,
    i: int,
    name: Seq<char>,
)
    requires
        extends(m_before, m_a),
        1 <= g <= i < ws.len(),
        kv_name(ws[i]) == Some(name),
        was is None ==> {
            &&& g == i
            &&& opt == seq![pe, kv, st]
            &&& blank_loop(m_a, l)
            &&& (pe as int) < m_a.len()
            &&& (forall|sep: Seq<char>| #[trigger] blank_run(sep) ==> reads(m_a, pe, sep, l))
            &&& prefix_reaches(m_before, ws, g, pe)
        },
        was matches Some(l0) ==> {
            &&& l == l0
            &&& opt == opt_old.push(kv).push(st)
            &&& option_machine(m_before, opt_old, l, ws, g, i)
            &&& prefix_reaches(m_before, ws, g, opt_old[0])
        },
        (kv as int) < m_a.len(),
        (st as int) < m_a.len(),
        m_a[kv as int].next.contains(l),
        m_a[st as int].next.contains(l),
        forall|v: Seq<char>| v.len() > 0 && plain_value(v) ==> reads(m_a, l, #[trigger] kv_text(name, v), kv),
        forall|v: Seq<char>| v.len() > 0 && quoted_value(v) ==> reads(m_a, l, #[trigger] quoted_kv_text(name, v), st),
    ensures
        option_machine(m_a, opt, l, ws, g, i + 1),
        prefix_reaches(m_a, ws, g, opt[0]),
{
    if was is None {
        lemma_option_step_first(m_before, m_a, opt, l, pe, kv, st, ws, g, i, name);
    } else {
        lemma_option_step_next(m_before, m_a, opt_old, opt, l, kv, st, ws, g, i, name);
    }
}

/// The first option segment of a group.
#[verifier::rlimit(100)]
#[verifier::spinoff_prover]
proof fn lemma_option_step_first(
    m_before: Seq<StateView>,
    m_a: Seq<StateView>,
    opt: Seq<usize>,
    l: usize,
    pe: usize,
    kv: usize,
    st: usize,
    ws: Seq<Seq<char>>,
    g: int,
    i: int,
    name: Seq<char>,
)
    requires
        extends(m_before, m_a),
        1 <= g == i < ws.len(),
        kv_name(ws[i]) == Some(name),
        opt == seq![pe, kv, st],
        blank_loop(m_a, l),
        (pe as int) < m_a.len(),
        forall|sep: Seq<char>| #[trigger] blank_run(sep) ==> reads(m_a, pe, sep, l),
        prefix_reaches(m_before, ws, g, pe),
        (kv as int) < m_a.len(),
        (st as int) < m_a.len(),
        m_a[kv as int].next.contains(l),
        m_a[st as int].next.contains(l),
        forall|v: Seq<char>| v.len() > 0 && plain_value(v) ==> reads(m_a, l, #[trigger] kv_text(name, v), kv),
        forall|v: Seq<char>| v.len() > 0 && quoted_value(v) ==> reads(m_a, l, #[trigger] quoted_kv_text(name, v), st),
    ensures
        option_machine(m_a, opt, l, ws, g, i + 1),
        prefix_reaches(m_a, ws, g, opt[0]),
{
    lemma_prefix_reaches_extends(m_before, m_a, ws, g, pe);
    assert forall|item: Seq<char>| #[trigger] option_item(ws, g, i + 1, item)
        implies exists|k: int| 1 <= k < opt.len() && #[trigger] reads(m_a, l, item, opt[k]) by {
        let (j, v, q) = choose|j: int, v: Seq<char>, q: bool| #![trigger option_text(kv_name(ws[j])->0, v, q)]
            g <= j < i + 1 && kv_name(ws[j]) is Some && v.len() > 0
                && (if q { quoted_value(v) } else { plain_value(v) })
                && item == option_text(kv_name(ws[j])->0, v, q);
        assert(j == i);
        if q {
            assert(reads(m_a, l, quoted_kv_text(name, v), opt[2]));
        } else {
            assert(reads(m_a, l, kv_text(name, v), opt[1]));
        }
    }
    assert forall|k: int| 0 <= k < opt.len() implies (#[trigger] opt[k] as int) < m_a.len() by {}
    assert forall|k: int| 1 <= k < opt.len() implies m_a[#[trigger] opt[k] as int].next.contains(l) by {}
    reveal(option_machine);
}

/// A further option segment of a group.
#[verifier::rlimit(100)]
#[verifier::spinoff_prover]
proof fn lemma_option_step_next(
    m_before: Seq<StateView>,
    m_a: Seq<StateView>,
    opt_old: Seq<usize>,
    opt: Seq<usize>,
    l: usize,
    kv: usize,
    st: usize,
    ws: Seq<Seq<char>>,
    g: int,
    i: int,
    name: Seq<char>,
)
    requires
        extends(m_before, m_a),
        1 <= g <= i < ws.len(),
        kv_name(ws[i]) == Some(name),
        opt == opt_old.push(kv).push(st),
        option_machine(m_before, opt_old, l, ws, g, i),
        prefix_reaches(m_before, ws, g, opt_old[0]),
        (kv as int) < m_a.len(),
        (st as int) < m_a.len(),
        m_a[kv as int].next.contains(l),
        m_a[st as int].next.contains(l),
        forall|v: Seq<char>| v.len() > 0 && plain_value(v) ==> reads(m_a, l, #[trigger] kv_text(name, v), kv),
        forall|v: Seq<char>| v.len() > 0 && quoted_value(v) ==> reads(m_a, l, #[trigger] quoted_kv_text(name, v), st),
    ensures
        option_machine(m_a, opt, l, ws, g, i + 1),
        prefix_reaches(m_a, ws, g, opt[0]),
{
    lemma_option_machine_extends(m_before, m_a, opt_old, l, ws, g, i);
    reveal(option_machine);
    lemma_prefix_reaches_extends(m_before, m_a, ws, g, opt_old[0]);
    assert(opt[0] == opt_old[0]);
    assert forall|k: int| 0 <= k < opt.len() implies (#[trigger] opt[k] as int) < m_a.len() by {
        if k < opt_old.len() {
            assert(opt[k] == opt_old[k]);
        }
    }
    assert forall|k: int| 1 <= k < opt.len() implies m_a[#[trigger] opt[k] as int].next.contains(l) by {
        if k < opt_old.len() {
            assert(opt[k] == opt_old[k]);
        }
    }
    assert forall|item: Seq<char>| #[trigger] option_item(ws, g, i + 1, item)
        implies exists|k: int| 1 <= k < opt.len() && #[trigger] reads(m_a, l, item, opt[k]) by {
        let (j, v, q) = choose|j: int, v: Seq<char>, q: bool| #![trigger option_text(kv_name(ws[j])->0, v, q)]
            g <= j < i + 1 && kv_name(ws[j]) is Some && v.len() > 0
                && (if q { quoted_value(v) } else { plain_value(v) })
                && item == option_text(kv_name(ws[j])->0, v, q);
        if j < i {
            assert(option_item(ws, g, i, item));
            let k = choose|k: int| 1 <= k < opt_old.len() && #[trigger] reads(m_a, l, item, opt_old[k]);
            assert(opt[k] == opt_old[k]);
        } else if q {
            assert(reads(m_a, l, quoted_kv_text(name, v), opt[opt.len() - 1]));
        } else {
            assert(reads(m_a, l, kv_text(name, v), opt[opt.len() - 2]));
        }
    }
}

/// The message `msg` leads from the start to the final state `r` of `m`,
/// whose command is `command`.
pub open spec fn ends_in_command<H>(m: Seq<StateView>, handlers: Map<usize, H>, msg: Seq<char>, r: usize, command: H) -> bool {
    &&& (r as int) < m.len()
    &&& m[r as int].is_final
    &&& handlers[r] == command
    &&& reads(m, 0, msg, r)
}

/// `m` recognises, with `command` as the command of the final state, every
/// message made of the plain segments of `ws` before segment `p` and then
/// any number of items of the options from `p` on, in any order and
/// possibly repeated, each after a run of blanks.
pub open spec fn group_recognised<H>(m: Seq<StateView>, handlers: Map<usize, H>, ws: Seq<Seq<char>>, p: int, command: H) -> bool {
    forall|vs: Seq<Seq<char>>, seps: Seq<Seq<char>>, oseps: Seq<Seq<char>>, items: Seq<Seq<char>>|
        stands_all(ws, vs, p) && seps_ok(seps, p) && option_items(ws, p, ws.len() as int, oseps, items)
        ==> #[trigger] group_message_ends(m, handlers, join_sep(vs, seps) + items_text(oseps, items), command)
}

/// `msg` leads from the start of `m` to a final state whose command is
/// `command`.
pub open spec fn group_message_ends<H>(m: Seq<StateView>, handlers: Map<usize, H>, msg: Seq<char>, command: H) -> bool {
    exists|r: usize| #[trigger] ends_in_command(m, handlers, msg, r, command)
}

/// `m` recognises the messages of the pattern `ws` when it ends in a group
/// of options after plain segments: see [`group_recognised`].
#[verifier::opaque]
pub open spec fn recognises_options<H>(m: Seq<StateView>, handlers: Map<usize, H>, ws: Seq<Seq<char>>, command: H) -> bool {
    forall|p: int| #[trigger] option_group(ws, p, ws.len() as int) && plain_prefix(ws, p)
        ==> group_recognised(m, handlers, ws, p, command)
}

/// While `Commands::add` compiles a group of options that starts at
/// segment `g` and runs up to segment `i`: the states `opt` may end the
/// message, and `l` is the blank-reading state the items hang off.
#[verifier::opaque]
pub open spec fn group_inv(m: Seq<StateView>, opt: Seq<usize>, l: usize, ws: Seq<Seq<char>>, g: int, i: int) -> bool {
    &&& 0 <= g < i
    &&& forall|j: int| g <= j < i ==> #[trigger] kv_name(ws[j]) is Some
    &&& (g == 0 || kv_name(ws[g - 1]) is None)
    &&& (g >= 1 && plain_prefix(ws, g) ==> option_machine(m, opt, l, ws, g, i) && prefix_reaches(m, ws, g, opt[0]))
}

/// One more option segment `ws[i]` keeps (or starts) its group.
#[verifier::rlimit(100)]
#[verifier::spinoff_prover]
proof fn lemma_group_step(
    m_before: Seq<StateView>,
    m_a: Seq<StateView>,
    opt_old: Seq<usize>,
    opt: Seq<usize>,
    was: Option<usize>,
    l: usize,
    pe: usize,
    kv: usize,
    st: usize,
    ws: Seq<Seq<char>>,
    g: int,
    i: int,
    name: Seq<char>,
)
    requires
        extends(m_before, m_a),
        0 <= i < ws.len(),
        kv_name(ws[i]) == Some(name),
        was is None ==> {
            &&& g == i
            &&& opt == seq![pe, kv, st]
            &&& (i == 0 || kv_name(ws[i - 1]) is None)
            &&& (i > 0 ==> blank_loop(m_a, l))
            &&& (pe as int) < m_a.len()
            &&& (i > 0 ==> forall|sep: Seq<char>| #[trigger] blank_run(sep) ==> reads(m_a, pe, sep, l))
            &&& (plain_prefix(ws, i) ==> prefix_reaches(m_before, ws, i, pe))
        },
        was matches Some(l0) ==> {
            &&& l == l0
            &&& opt == opt_old.push(kv).push(st)
            &&& group_inv(m_before, opt_old, l, ws, g, i)
        },
        (kv as int) < m_a.len(),
        (st as int) < m_a.len(),
        m_a[kv as int].next.contains(l),
        m_a[st as int].next.contains(l),
        forall|v: Seq<char>| v.len() > 0 && plain_value(v) ==> reads(m_a, l, #[trigger] kv_text(name, v), kv),
        forall|v: Seq<char>| v.len() > 0 && quoted_value(v) ==> reads(m_a, l, #[trigger] quoted_kv_text(name, v), st),
    ensures
        group_inv(m_a, opt, l, ws, g, i + 1),
{
    assert(0 <= g <= i && (g == 0 || kv_name(ws[g - 1]) is None)
        && forall|j: int| g <= j < i ==> #[trigger] kv_name(ws[j]) is Some) by {
        if was is Some {
            reveal(group_inv);
        }
    }
    assert(forall|j: int| g <= j < i + 1 ==> #[trigger] kv_name(ws[j]) is Some);
    if g >= 1 && plain_prefix(ws, g) {
        if was is None {
        } else {
            assert(option_machine(m_before, opt_old, l, ws, g, i) && prefix_reaches(m_before, ws, g, opt_old[0])) by {
                reveal(group_inv);
            }
        }
        lemma_option_step(m_before, m_a, opt_old, opt, was, l, pe, kv, st, ws, g, i, name);
    }
    reveal(group_inv);
}

/// At the end of a pattern that ends in a group of options, with every
/// state of the group final and mapped to `command`.
#[verifier::rlimit(100)]
#[verifier::spinoff_prover]
proof fn lemma_group_final<H>(
    m_pre: Seq<StateView>,
    m: Seq<StateView>,
    handlers: Map<usize, H>,
    opt: Seq<usize>,
    l: usize,
    ws: Seq<Seq<char>>,
    g: int,
    command: H,
)
    requires
        group_inv(m_pre, opt, l, ws, g, ws.len() as int),
        extends(m_pre, m),
        forall|x: int| 0 <= x < opt.len() ==> m[#[trigger] opt[x] as int].is_final && handlers[opt[x]] == command,
    ensures
        recognises_options(m, handlers, ws, command),
{
    let n = ws.len() as int;
    assert(0 <= g < n && (g == 0 || kv_name(ws[g - 1]) is None)
        && (forall|j: int| g <= j < n ==> #[trigger] kv_name(ws[j]) is Some)
        && (g >= 1 && plain_prefix(ws, g) ==> option_machine(m_pre, opt, l, ws, g, n) && prefix_reaches(m_pre, ws, g, opt[0]))) by {
        reveal(group_inv);
    }
    reveal(recognises_options);
    assert forall|p: int| #[trigger] option_group(ws, p, n) && plain_prefix(ws, p)
        implies group_recognised(m, handlers, ws, p, command) by {
        if p < g {
            assert(kv_name(ws[g - 1]) is Some);
        }
        if p > g {
            assert(plain_word(ws[g]));
            assert(kv_name(ws[g]) is Some);
        }
        assert(p == g);
        assert(option_machine(m_pre, opt, l, ws, g, n) && prefix_reaches(m_pre, ws, g, opt[0]));
        lemma_group_final_at(m_pre, m, handlers, opt, l, ws, g, command);
    }
}

/// The messages of a group of options that starts at segment `g` and ends
/// the pattern lead to a state of `opt`.
proof fn lemma_group_final_at<H>(
    m_pre: Seq<StateView>,
    m: Seq<StateView>,
    handlers: Map<usize, H>,
    opt: Seq<usize>,
    l: usize,
    ws: Seq<Seq<char>>,
    g: int,
    command: H,
)
    requires
        option_machine(m_pre, opt, l, ws, g, ws.len() as int),
        prefix_reaches(m_pre, ws, g, opt[0]),
        extends(m_pre, m),
        forall|x: int| 0 <= x < opt.len() ==> m[#[trigger] opt[x] as int].is_final && handlers[opt[x]] == command,
    ensures
        group_recognised(m, handlers, ws, g, command),
{
    let n = ws.len() as int;
    lemma_option_machine_extends(m_pre, m, opt, l, ws, g, n);
    lemma_prefix_reaches_extends(m_pre, m, ws, g, opt[0]);
    assert forall|vs: Seq<Seq<char>>, seps: Seq<Seq<char>>, oseps: Seq<Seq<char>>, items: Seq<Seq<char>>|
        stands_all(ws, vs, g) && seps_ok(seps, g) && option_items(ws, g, ws.len() as int, oseps, items)
        implies #[trigger] group_message_ends(m, handlers, join_sep(vs, seps) + items_text(oseps, items), command) by {
        lemma_group_message(m, handlers, opt, l, ws, g, command, vs, seps, oseps, items);
    }
}

/// One message of such a group.
proof fn lemma_group_message<H>(
    m: Seq<StateView>,
    handlers: Map<usize, H>,
    opt: Seq<usize>,
    l: usize,
    ws: Seq<Seq<char>>,
    g: int,
    command: H,
    vs: Seq<Seq<char>>,
    seps: Seq<Seq<char>>,
    oseps: Seq<Seq<char>>,
    items: Seq<Seq<char>>,
)
    requires
        option_machine(m, opt, l, ws, g, ws.len() as int),
        prefix_reaches(m, ws, g, opt[0]),
        forall|x: int| 0 <= x < opt.len() ==> m[#[trigger] opt[x] as int].is_final && handlers[opt[x]] == command,
        stands_all(ws, vs, g),
        seps_ok(seps, g),
        option_items(ws, g, ws.len() as int, oseps, items),
    ensures
        group_message_ends(m, handlers, join_sep(vs, seps) + items_text(oseps, items), command),
{
    assert(reads(m, 0, join_sep(vs, seps), opt[0])) by {
        reveal(prefix_reaches);
    }
    lemma_option_items(m, opt, l, ws, g, ws.len() as int, join_sep(vs, seps), oseps, items);
    let k = choose|k: int| 0 <= k < opt.len() && #[trigger] reads(m, 0, join_sep(vs, seps) + items_text(oseps, items), opt[k]);
    assert((opt[k] as int) < m.len()) by {
        reveal(option_machine);
    }
    assert(m[opt[k] as int].is_final && handlers[opt[k]] == command);
    assert(ends_in_command(m, handlers, join_sep(vs, seps) + items_text(oseps, items), opt[k], command));
}

/// A pattern that does not end in an option has no group to recognise.
proof fn lemma_no_group<H>(m: Seq<StateView>, handlers: Map<usize, H>, ws: Seq<Seq<char>>, command: H)
    requires
        ws.len() == 0 || kv_name(ws.last()) is None,
    ensures
        recognises_options(m, handlers, ws, command),
{
    reveal(recognises_options);
    let n = ws.len() as int;
    assert forall|p: int| #[trigger] option_group(ws, p, n) && plain_prefix(ws, p)
        implies group_recognised(m, handlers, ws, p, command) by {
        assert(kv_name(ws[n - 1]) is Some);
    }
}

/// One more plain segment `ws[i]` extends the messages of a plain prefix.
#[verifier::spinoff_prover]
proof fn lemma_plain_step(
    m_before: Seq<StateView>,
    m_after: Seq<StateView>,
    ws: Seq<Seq<char>>,
    i: int,
    state_before: usize,
    state: usize,
)
    requires
        0 <= i < ws.len(),
        plain_prefix(ws, i) ==> prefix_reaches(m_before, ws, i, state_before),
        plain_step(m_before, m_after, state_before, i, ws[i], state),
    ensures
        plain_prefix(ws, i + 1) ==> prefix_reaches(m_after, ws, i + 1, state),
{
    reveal(prefix_reaches);
    reveal(plain_step);
    if plain_prefix(ws, i + 1) {
        assert(plain_prefix(ws, i));
        assert(plain_word(ws[i]));
        assert forall|vs: Seq<Seq<char>>, seps: Seq<Seq<char>>|
            #![trigger stands_all(ws, vs, i + 1), join_sep(vs, seps)]
            stands_all(ws, vs, i + 1) && seps_ok(seps, i + 1)
            implies reads(m_after, 0, join_sep(vs, seps), state) by {
            let pre = vs.drop_last();
            let pre_seps = if i == 0 { seps } else { seps.drop_last() };
            let sep = if i == 0 { Seq::<char>::empty() } else { seps.last() };
            assert(stands_all(ws, pre, i)) by {
                assert forall|x: int| 0 <= x < i implies #[trigger] stands_for(ws[x], pre[x]) by {
                    assert(stands_for(ws[x], vs[x]));
                }
            }
            assert(seps_ok(pre_seps, i)) by {
                if i > 0 {
                    assert forall|x: int| 0 <= x < pre_seps.len() implies blank_run(#[trigger] pre_seps[x]) by {
                        assert(pre_seps[x] == seps[x]);
                    }
                }
            }
            assert(reads(m_before, 0, join_sep(pre, pre_seps), state_before));
            assert(stands_for(ws[i], vs[i]));
            if i == 0 {
                assert(pre =~= Seq::<Seq<char>>::empty());
            } else {
                assert(blank_run(seps[seps.len() - 1]));
            }
            assert(reads(m_after, 0, sep_join(join_sep(pre, pre_seps), sep, vs[i], i), state));
            if i == 0 {
                assert(sep_join(join_sep(pre, pre_seps), sep, vs[0], 0) =~= vs[0]);
            } else {
                assert(vs.last() == vs[i]);
                assert(join_sep(vs, seps) == join_sep(pre, pre_seps) + sep + vs.last());
            }
        }
    }
}

/// `m` recognises, with `command` as the command of the final state, every
/// message of a pattern `ws` that ends in a bare `...` after plain
/// segments: the message of those segments, followed by any text or none.
pub open spec fn recognises_rest<H>(m: Seq<StateView>, handlers: Map<usize, H>, ws: Seq<Seq<char>>, command: H) -> bool {
    ws.len() >= 1 && ws.last() == seq!['.', '.', '.'] && plain_prefix(ws, ws.len() - 1) ==>
        forall|vs: Seq<Seq<char>>, seps: Seq<Seq<char>>, t: Seq<char>|
            stands_all(ws, vs, ws.len() - 1) && seps_ok(seps, ws.len() - 1)
            ==> #[trigger] group_message_ends(m, handlers, join_sep(vs, seps) + t, command)
}

/// While `Commands::add` compiles a pattern whose segments before `p` are
/// plain and whose segment `p` is a bare `...`: `d`, where the plain
/// segments end, is final with `command`, and any text leads on to `r`.
#[verifier::opaque]
pub open spec fn dots_inv<H>(m: Seq<StateView>, handlers: Map<usize, H>, ws: Seq<Seq<char>>, p: int, d: usize, r: usize, command: H) -> bool {
    &&& (d as int) < m.len()
    &&& m[d as int].is_final
    &&& handlers[d] == command
    &&& prefix_reaches(m, ws, p, d)
    &&& forall|t: Seq<char>| #![trigger reads(m, d, t, r)] t.len() > 0 ==> reads(m, d, t, r)
}

/// Finishing a pattern that ends in a bare `...`.
proof fn lemma_rest_end<H>(
    m1: Seq<StateView>,
    m: Seq<StateView>,
    map1: Map<usize, H>,
    map: Map<usize, H>,
    ws: Seq<Seq<char>>,
    d: usize,
    r: usize,
    command: H,
)
    requires
        ws.len() >= 1,
        dots_inv(m1, map1, ws, ws.len() - 1, d, r, command),
        extends(m1, m),
        (r as int) < m.len(),
        m[r as int].is_final,
        map == map1.insert(r, command),
    ensures
        recognises_rest(m, map, ws, command),
{
    reveal(dots_inv);
    lemma_prefix_reaches_extends(m1, m, ws, ws.len() - 1, d);
    assert(crate::state_machine::kept_state(m1[d as int], m[d as int]));
    assert forall|t: Seq<char>| #![trigger reads(m, d, t, r)] t.len() > 0 implies reads(m, d, t, r) by {
        lemma_reads_extends(m1, m, d, t, r);
    }
    lemma_rest_final(m, map, ws, d, r, command);
}

/// A bare `...` is no option.
proof fn lemma_dots_no_option()
    ensures
        kv_name(seq!['.', '.', '.']) is None,
{
    let s = seq!['.', '.', '.'];
    assert forall|i: int| 0 <= i < s.len() implies #[trigger] s[i] != '=' by {}
    lemma_no_marker(s);
}

/// The end of a pattern with a bare `...` after plain segments: `d`, where
/// the segments end, is final, and any further text leads to the final
/// state `r`.
proof fn lemma_rest_final<H>(
    m: Seq<StateView>,
    handlers: Map<usize, H>,
    ws: Seq<Seq<char>>,
    d: usize,
    r: usize,
    command: H,
)
    requires
        ws.len() >= 1,
        (d as int) < m.len(),
        (r as int) < m.len(),
        m[d as int].is_final,
        handlers[d] == command,
        m[r as int].is_final,
        handlers[r] == command,
        prefix_reaches(m, ws, ws.len() - 1, d),
        forall|t: Seq<char>| #![trigger reads(m, d, t, r)] t.len() > 0 ==> reads(m, d, t, r),
    ensures
        recognises_rest(m, handlers, ws, command),
{
    let p = ws.len() - 1;
    assert forall|vs: Seq<Seq<char>>, seps: Seq<Seq<char>>, t: Seq<char>|
        stands_all(ws, vs, p) && seps_ok(seps, p)
        implies #[trigger] group_message_ends(m, handlers, join_sep(vs, seps) + t, command) by {
        assert(reads(m, 0, join_sep(vs, seps), d)) by {
            reveal(prefix_reaches);
        }
        if t.len() == 0 {
            assert(join_sep(vs, seps) + t =~= join_sep(vs, seps));
            assert(ends_in_command(m, handlers, join_sep(vs, seps) + t, d, command));
        } else {
            assert(reads(m, d, t, r));
            lemma_reads_concat(m, 0, join_sep(vs, seps), d, t, r);
            assert(ends_in_command(m, handlers, join_sep(vs, seps) + t, r, command));
        }
    }
}

/// The text read before a segment, lifted over the blank state between
/// them.
proof fn lemma_sep_lift(
    m0: Seq<StateView>,
    m1: Seq<StateView>,
    mf: Seq<StateView>,
    last: usize,
    after: usize,
    i: int,
    j: Seq<char>,
    sep: Seq<char>,
)
    requires
        extends(m0, m1),
        extends(m1, mf),
        reads_unrecorded(m0, 0, j, last),
        i >= 0,
        i == 0 ==> after == last,
        i > 0 ==> reads_unrecorded(m1, last, sep, after),
    ensures
        reads_unrecorded(mf, 0, sep_prefix(j, sep, i as int), after),
{
    lemma_unrecorded_extends(m0, m1, 0, j, last);
    if i > 0 {
        lemma_unrecorded_concat(m1, 0, j, last, sep, after);
        lemma_unrecorded_extends(m1, mf, 0, j + sep, after);
    } else {
        lemma_unrecorded_extends(m1, mf, 0, j, after);
    }
}

/// After compiling segment `i`, `seg`, from `state` into `r`: a plain
/// segment extends every text read into `state`, after its separator, by
/// any text that stands for the segment, into `r`.
#[verifier::opaque]
pub open spec fn plain_step(m0: Seq<StateView>, m: Seq<StateView>, state: usize, i: int, seg: Seq<char>, r: usize) -> bool {
    plain_word(seg) ==> forall|j: Seq<char>, sep: Seq<char>, v: Seq<char>|
        #![trigger reads(m0, 0, j, state), stands_for(seg, v), sep_join(j, sep, v, i)]
        reads(m0, 0, j, state) && stands_for(seg, v) && (i == 0 ==> j.len() == 0)
            && (i > 0 ==> blank_run(sep))
            ==> reads(m, 0, sep_join(j, sep, v, i), r)
}

/// After compiling a bare `...` segment from `state` into `r`: `state` is
/// final with `command`, and any text leads from it to `r`.
#[verifier::opaque]
pub open spec fn dots_step<H>(m0: Seq<StateView>, m: Seq<StateView>, handlers: Map<usize, H>, state: usize, seg: Seq<char>, r: usize, command: H) -> bool {
    seg == seq!['.', '.', '.'] ==> {
        &&& m[state as int].is_final
        &&& handlers[state] == command
        &&& extends(m0, m)
        &&& forall|t: Seq<char>| #![trigger reads(m, state, t, r)] t.len() > 0 ==> reads(m, state, t, r)
    }
}

/// A bare `...` after plain segments starts what [`dots_inv`] keeps.
proof fn lemma_dots_step<H>(
    m0: Seq<StateView>,
    m: Seq<StateView>,
    handlers: Map<usize, H>,
    ws: Seq<Seq<char>>,
    i: int,
    state: usize,
    r: usize,
    command: H,
)
    requires
        0 <= i < ws.len(),
        (state as int) < m0.len(),
        ws[i] == seq!['.', '.', '.'],
        plain_prefix(ws, i) ==> prefix_reaches(m0, ws, i, state),
        dots_step(m0, m, handlers, state, ws[i], r, command),
    ensures
        plain_prefix(ws, i) ==> dots_inv(m, handlers, ws, i, state, r, command),
{
    reveal(dots_step);
    reveal(dots_inv);
    if plain_prefix(ws, i) {
        lemma_prefix_reaches_extends(m0, m, ws, i, state);
    }
}

/// After compiling segment `i`, `seg`, from `state` into `r`: a literal
/// word extends every text read without recording into `state`, after its
/// separator, into `r`.
#[verifier::opaque]
pub open spec fn literal_step(m0: Seq<StateView>, m: Seq<StateView>, state: usize, i: int, seg: Seq<char>, r: usize) -> bool {
    literal_word(seg) ==> extends(m0, m)
        && forall|j: Seq<char>, sep: Seq<char>|
            #![trigger reads_unrecorded(m0, 0, j, state), sep_join(j, sep, seg, i)]
            reads_unrecorded(m0, 0, j, state) && (i == 0 ==> j.len() == 0) && (i > 0 ==> blank_run(sep))
                ==> reads_unrecorded(m, 0, sep_join(j, sep, seg, i), r)
}

/// After compiling segment `i`, `seg`, from `state` into `r`: a `{name}` or
/// `name...` segment loops in `r`, which records under its name and reads
/// every text that fills the segment, and is entered from a state where
/// the segment starts.
#[verifier::opaque]
pub open spec fn param_step(m0: Seq<StateView>, m: Seq<StateView>, state: usize, i: int, seg: Seq<char>, r: usize) -> bool {
    param_word(seg) || rest_word(seg) ==> {
        &&& extends(m0, m)
        &&& (r as int) < m.len()
        &&& m[r as int].next.contains(r)
        &&& m[r as int].key == Some(segment_name(seg))
        &&& forall|v: Seq<char>, t: int| fills(seg, v) && 0 <= t < v.len() ==> m[r as int].expected.has(#[trigger] v[t])
        &&& exists|b: usize| #[trigger] enters_param(m, state, i, b, r)
        &&& keys_kept(m0, m, r)
        &&& (param_word(seg) ==> !m[r as int].expected.has(' '))
        &&& (rest_word(seg) ==> m[r as int].expected.has(' '))
    }
}

/// Every text that fills the first `i` segments of `ws` is read without
/// recording into `e`.
#[verifier::opaque]
pub open spec fn literal_reaches(m: Seq<StateView>, ws: Seq<Seq<char>>, i: int, e: usize) -> bool {
    forall|vs: Seq<Seq<char>>, seps: Seq<Seq<char>>|
        #![trigger fills_all(ws, vs, i), join_sep(vs, seps)]
        fills_all(ws, vs, i) && seps_ok(seps, i) ==> reads_unrecorded(m, 0, join_sep(vs, seps), e)
}

/// The text before the last word: the other words and the last separator.
pub open spec fn lead_text(vs: Seq<Seq<char>>, seps: Seq<Seq<char>>) -> Seq<char> {
    if vs.len() <= 1 {
        Seq::empty()
    } else {
        join_sep(vs.drop_last(), seps.drop_last()) + seps.last()
    }
}

/// A pattern of literal words and then one `{name}` or `name...`.
pub open spec fn one_param_pattern(ws: Seq<Seq<char>>) -> bool {
    &&& ws.len() >= 1
    &&& literal_prefix(ws, ws.len() - 1)
    &&& (param_word(ws.last()) || rest_word(ws.last()))
}

/// The last of the first `i` segments of `ws` is a `{name}` or `name...`
/// that loops in `k`, which records under its name, and is entered from
/// `b`, which the text before it reaches without recording.
#[verifier::opaque]
pub open spec fn param_facts(m: Seq<StateView>, ws: Seq<Seq<char>>, i: int, b: usize, k: usize) -> bool {
    &&& (b as int) < m.len()
    &&& (k as int) < m.len()
    &&& m[b as int].next.contains(k)
    &&& m[k as int].next.contains(k)
    &&& m[k as int].key == Some(segment_name(ws[i - 1]))
    &&& forall|v: Seq<char>, t: int| fills(ws[i - 1], v) && 0 <= t < v.len() ==> m[k as int].expected.has(#[trigger] v[t])
    &&& lead_reaches(m, ws, i, b)
    &&& (param_word(ws[i - 1]) ==> !m[k as int].expected.has(' '))
}

/// What a machine reads before the last word, its extensions read so too.
proof fn lemma_lead_reaches_extends(m0: Seq<StateView>, m1: Seq<StateView>, ws: Seq<Seq<char>>, i: int, b: usize)
    requires
        extends(m0, m1),
        lead_reaches(m0, ws, i, b),
    ensures
        lead_reaches(m1, ws, i, b),
{
    reveal(lead_reaches);
    assert forall|vs: Seq<Seq<char>>, seps: Seq<Seq<char>>|
        #![trigger fills_all(ws, vs, i), lead_text(vs, seps)]
        fills_all(ws, vs, i) && seps_ok(seps, i) implies reads_unrecorded(m1, 0, lead_text(vs, seps), b) by {
        lemma_unrecorded_extends(m0, m1, 0, lead_text(vs, seps), b);
    }
}

/// A pattern of literal words, then a `{name}` and then a `name...` under
/// another name.
pub open spec fn two_param_pattern(ws: Seq<Seq<char>>) -> bool {
    &&& ws.len() >= 2
    &&& literal_prefix(ws, ws.len() - 2)
    &&& param_word(ws[ws.len() - 2])
    &&& rest_word(ws.last())
    &&& segment_name(ws[ws.len() - 2]) != segment_name(ws.last())
}

/// The last two of the first `i` segments of `ws` are a `{name}` looping
/// in `k1`, entered from `b1`, which the text before it reaches without
/// recording, and a `name...` looping in `k2`, entered from `b2`, which
/// every run of blanks leads to from `k1` without recording; each records
/// under its name.
#[verifier::opaque]
pub open spec fn param2_facts(m: Seq<StateView>, ws: Seq<Seq<char>>, i: int, b1: usize, k1: usize, b2: usize, k2: usize) -> bool {
    &&& (b1 as int) < m.len()
    &&& (k1 as int) < m.len()
    &&& (b2 as int) < m.len()
    &&& (k2 as int) < m.len()
    &&& m[b1 as int].next.contains(k1)
    &&& m[k1 as int].next.contains(k1)
    &&& m[k1 as int].key == Some(segment_name(ws[i - 2]))
    &&& forall|v: Seq<char>, t: int| fills(ws[i - 2], v) && 0 <= t < v.len() ==> m[k1 as int].expected.has(#[trigger] v[t])
    &&& lead_reaches(m, ws, i - 1, b1)
    &&& forall|sep: Seq<char>| #[trigger] blank_run(sep) ==> reads_unrecorded(m, k1, sep, b2)
    &&& m[b2 as int].next.contains(k2)
    &&& m[k2 as int].next.contains(k2)
    &&& m[k2 as int].key == Some(segment_name(ws[i - 1]))
    &&& forall|v: Seq<char>, t: int| fills(ws[i - 1], v) && 0 <= t < v.len() ==> m[k2 as int].expected.has(#[trigger] v[t])
}

/// `r` is final with `command`, and every message of the two-parameter
/// pattern `ws` has a run into `r` that records exactly its last two words,
/// each under the name of its segment.
pub open spec fn two_param_end<H>(m: Seq<StateView>, handlers: Map<usize, H>, ws: Seq<Seq<char>>, r: usize, command: H) -> bool {
    &&& (r as int) < m.len()
    &&& m[r as int].is_final
    &&& handlers[r] == command
    &&& forall|vs: Seq<Seq<char>>, seps: Seq<Seq<char>>|
        #![trigger fills_all(ws, vs, ws.len() as int), join_sep(vs, seps)]
        fills_all(ws, vs, ws.len() as int) && seps_ok(seps, ws.len() as int)
        ==> run_records(m, join_sep(vs, seps), r, seq![
            (segment_name(ws[ws.len() - 2]), vs[ws.len() - 2]),
            (segment_name(ws.last()), vs.last()),
        ])
}

/// A pattern of literal words, a `{name}` and a `name...` records each
/// parameter's text under its name.
pub open spec fn records_two_params<H>(m: Seq<StateView>, handlers: Map<usize, H>, ws: Seq<Seq<char>>, command: H) -> bool {
    two_param_pattern(ws) ==> exists|r: usize| #[trigger] two_param_end(m, handlers, ws, r, command)
}

/// Every text that fills the first `i` segments of `ws` reads what comes
/// before its last word without recording into `b`.
#[verifier::opaque]
pub open spec fn lead_reaches(m: Seq<StateView>, ws: Seq<Seq<char>>, i: int, b: usize) -> bool {
    forall|vs: Seq<Seq<char>>, seps: Seq<Seq<char>>|
        #![trigger fills_all(ws, vs, i), lead_text(vs, seps)]
        fills_all(ws, vs, i) && seps_ok(seps, i) ==> reads_unrecorded(m, 0, lead_text(vs, seps), b)
}

/// `r` is final with `command`, and every message of the one-parameter
/// pattern `ws` has a run into `r` that records exactly its last word under
/// the parameter's name.
pub open spec fn param_end<H>(m: Seq<StateView>, handlers: Map<usize, H>, ws: Seq<Seq<char>>, r: usize, command: H) -> bool {
    &&& (r as int) < m.len()
    &&& m[r as int].is_final
    &&& handlers[r] == command
    &&& forall|vs: Seq<Seq<char>>, seps: Seq<Seq<char>>|
        fills_all(ws, vs, ws.len() as int) && seps_ok(seps, ws.len() as int)
        ==> #[trigger] run_records(m, join_sep(vs, seps), r, seq![(segment_name(ws.last()), vs.last())])
}

/// A pattern of literal words and one `{name}` or `name...` records the
/// parameter's text under its name.
pub open spec fn records_param<H>(m: Seq<StateView>, handlers: Map<usize, H>, ws: Seq<Seq<char>>, command: H) -> bool {
    one_param_pattern(ws) ==> exists|r: usize| #[trigger] param_end(m, handlers, ws, r, command)
}

/// A literal segment extends what the literal prefix reaches.
proof fn lemma_literal_step_inv(
    m_before: Seq<StateView>,
    m_after: Seq<StateView>,
    ws: Seq<Seq<char>>,
    i: int,
    state_before: usize,
    state: usize,
)
    requires
        0 <= i < ws.len(),
        literal_prefix(ws, i) ==> literal_reaches(m_before, ws, i, state_before),
        literal_step(m_before, m_after, state_before, i, ws[i], state),
    ensures
        literal_prefix(ws, i + 1) ==> literal_reaches(m_after, ws, i + 1, state),
{
    reveal(literal_reaches);
    reveal(literal_step);
    if literal_prefix(ws, i + 1) {
        assert(literal_prefix(ws, i));
        assert(literal_word(ws[i]));
        assert forall|vs: Seq<Seq<char>>, seps: Seq<Seq<char>>|
            #![trigger fills_all(ws, vs, i + 1), join_sep(vs, seps)]
            fills_all(ws, vs, i + 1) && seps_ok(seps, i + 1)
            implies reads_unrecorded(m_after, 0, join_sep(vs, seps), state) by {
            let pre = vs.drop_last();
            let pre_seps = if i == 0 { seps } else { seps.drop_last() };
            let sep = if i == 0 { Seq::<char>::empty() } else { seps.last() };
            assert(fills_all(ws, pre, i)) by {
                assert forall|x: int| 0 <= x < i implies #[trigger] fills(ws[x], pre[x]) by {
                    assert(fills(ws[x], vs[x]));
                }
            }
            assert(seps_ok(pre_seps, i)) by {
                if i > 0 {
                    assert forall|x: int| 0 <= x < pre_seps.len() implies blank_run(#[trigger] pre_seps[x]) by {
                        assert(pre_seps[x] == seps[x]);
                    }
                }
            }
            assert(reads_unrecorded(m_before, 0, join_sep(pre, pre_seps), state_before));
            assert(fills(ws[i], vs[i]));
            assert(vs[i] == ws[i]) by {
                lemma_literal_fills_word(ws[i], vs[i]);
            }
            if i == 0 {
                assert(pre =~= Seq::<Seq<char>>::empty());
            } else {
                assert(blank_run(seps[seps.len() - 1]));
            }
            assert(reads_unrecorded(m_after, 0, sep_join(join_sep(pre, pre_seps), sep, ws[i], i), state));
            if i == 0 {
                assert(sep_join(join_sep(pre, pre_seps), sep, vs[0], 0) =~= vs[0]);
            } else {
                assert(vs.last() == vs[i]);
                assert(join_sep(vs, seps) == join_sep(pre, pre_seps) + sep + vs.last());
            }
        }
    }
}

/// A literal word stands only for itself.
proof fn lemma_literal_fills_word(w: Seq<char>, v: Seq<char>)
    requires
        literal_word(w),
        fills(w, v),
    ensures
        v == w,
{
    assert(!param_word(w));
    assert(!rest_word(w));
}

/// A `{name}` or `name...` segment after a literal prefix gives its facts.
proof fn lemma_param_step_inv(
    m_before: Seq<StateView>,
    m_after: Seq<StateView>,
    ws: Seq<Seq<char>>,
    i: int,
    state_before: usize,
    state: usize,
)
    requires
        0 <= i < ws.len(),
        literal_prefix(ws, i) ==> literal_reaches(m_before, ws, i, state_before),
        param_step(m_before, m_after, state_before, i, ws[i], state),
    ensures
        literal_prefix(ws, i) && (param_word(ws[i]) || rest_word(ws[i]))
            ==> exists|b: usize| #[trigger] param_facts(m_after, ws, i + 1, b, state),
{
    reveal(param_step);
    if literal_prefix(ws, i) && (param_word(ws[i]) || rest_word(ws[i])) {
        let b = choose|b: usize| #[trigger] enters_param(m_after, state_before, i, b, state);
        reveal(lead_reaches);
        assert forall|vs: Seq<Seq<char>>, seps: Seq<Seq<char>>|
            #![trigger fills_all(ws, vs, i + 1), lead_text(vs, seps)]
            fills_all(ws, vs, i + 1) && seps_ok(seps, i + 1)
            implies reads_unrecorded(m_after, 0, lead_text(vs, seps), b) by {
            let pre = vs.drop_last();
            let pre_seps = if i == 0 { seps } else { seps.drop_last() };
            assert(fills_all(ws, pre, i)) by {
                assert forall|x: int| 0 <= x < i implies #[trigger] fills(ws[x], pre[x]) by {
                    assert(fills(ws[x], vs[x]));
                }
            }
            assert(seps_ok(pre_seps, i)) by {
                if i > 0 {
                    assert forall|x: int| 0 <= x < pre_seps.len() implies blank_run(#[trigger] pre_seps[x]) by {
                        assert(pre_seps[x] == seps[x]);
                    }
                }
            }
            assert(reads_unrecorded(m_before, 0, join_sep(pre, pre_seps), state_before)) by {
                reveal(literal_reaches);
            }
            lemma_unrecorded_extends(m_before, m_after, 0, join_sep(pre, pre_seps), state_before);
            if i == 0 {
                assert(pre =~= Seq::<Seq<char>>::empty());
                assert(lead_text(vs, seps) =~= Seq::<char>::empty());
                assert(join_sep(pre, pre_seps) =~= Seq::<char>::empty());
            } else {
                let sep = seps.last();
                assert(blank_run(seps[seps.len() - 1]));
                assert(reads_unrecorded(m_after, state_before, sep, b));
                lemma_unrecorded_concat(m_after, 0, join_sep(pre, pre_seps), state_before, sep, b);
            }
        }
        assert(lead_reaches(m_after, ws, i + 1, b));
        assert(ws[i + 1 - 1] == ws[i]);
        assert forall|v: Seq<char>, t: int| fills(ws[i + 1 - 1], v) && 0 <= t < v.len()
            implies m_after[state as int].expected.has(#[trigger] v[t]) by {
            assert(fills(ws[i], v));
        }
        assert(m_after[b as int].next.contains(state));
        assert(param_word(ws[i + 1 - 1]) ==> !m_after[state as int].expected.has(' '));
        reveal(param_facts);
        assert(param_facts(m_after, ws, i + 1, b, state));
    }
}

/// The end of a one-parameter pattern: its final state records the
/// parameter.
proof fn lemma_param_final<H>(
    m1: Seq<StateView>,
    m: Seq<StateView>,
    handlers: Map<usize, H>,
    ws: Seq<Seq<char>>,
    b: usize,
    k: usize,
    command: H,
)
    requires
        one_param_pattern(ws),
        param_facts(m1, ws, ws.len() as int, b, k),
        extends(m1, m),
        keys_ok(m),
        m[k as int].key == m1[k as int].key,
        m[k as int].is_final,
        handlers[k] == command,
    ensures
        records_param(m, handlers, ws, command),
{
    reveal(param_facts);
    reveal(lead_reaches);
    let n = ws.len() as int;
    lemma_extends_keeps_edge(m1, m, b as int, k);
    lemma_extends_keeps_edge(m1, m, k as int, k);
    assert(crate::state_machine::kept_state(m1[k as int], m[k as int]));
    assert forall|vs: Seq<Seq<char>>, seps: Seq<Seq<char>>|
        fills_all(ws, vs, n) && seps_ok(seps, n)
        implies #[trigger] run_records(m, join_sep(vs, seps), k, seq![(segment_name(ws.last()), vs.last())]) by {
        let v = vs.last();
        assert(fills(ws[n - 1], vs[n - 1]));
        assert(v == vs[n - 1]);
        assert(ws.last() == ws[n - 1]);
        assert(v.len() > 0);
        assert forall|t: int| 0 <= t < v.len() implies m[k as int].expected.has(#[trigger] v[t]) by {
            assert(m1[k as int].expected.has(v[t]));
        }
        assert(fills_all(ws, vs, n) && seps_ok(seps, n));
        let whole = join_sep(vs, seps);
        assert(reads_unrecorded(m1, 0, lead_text(vs, seps), b));
        lemma_unrecorded_extends(m1, m, 0, lead_text(vs, seps), b);
        lemma_one_param_run(m, lead_text(vs, seps), b, k, v, segment_name(ws.last()));
        if n == 1 {
            assert(lead_text(vs, seps) + v =~= join_sep(vs, seps));
        } else {
            assert(lead_text(vs, seps) + v =~= join_sep(vs, seps));
        }
    }
    assert(param_end(m, handlers, ws, k, command));
}

/// The end of a two-parameter pattern: its final state records both
/// parameters.
proof fn lemma_two_param_final<H>(
    m1: Seq<StateView>,
    m: Seq<StateView>,
    handlers: Map<usize, H>,
    ws: Seq<Seq<char>>,
    b1: usize,
    k1: usize,
    b2: usize,
    k2: usize,
    command: H,
)
    requires
        two_param_pattern(ws),
        param2_facts(m1, ws, ws.len() as int, b1, k1, b2, k2),
        extends(m1, m),
        keys_ok(m),
        m[k1 as int].key == m1[k1 as int].key,
        m[k2 as int].key == m1[k2 as int].key,
        m[k2 as int].is_final,
        handlers[k2] == command,
    ensures
        records_two_params(m, handlers, ws, command),
{
    reveal(param2_facts);
    reveal(lead_reaches);
    let n = ws.len() as int;
    lemma_extends_keeps_edge(m1, m, b1 as int, k1);
    lemma_extends_keeps_edge(m1, m, k1 as int, k1);
    lemma_extends_keeps_edge(m1, m, b2 as int, k2);
    lemma_extends_keeps_edge(m1, m, k2 as int, k2);
    assert(crate::state_machine::kept_state(m1[k1 as int], m[k1 as int]));
    assert(crate::state_machine::kept_state(m1[k2 as int], m[k2 as int]));
    assert(ws.last() == ws[n - 1]);
    assert forall|vs: Seq<Seq<char>>, seps: Seq<Seq<char>>|
        #![trigger fills_all(ws, vs, n), join_sep(vs, seps)]
        fills_all(ws, vs, n) && seps_ok(seps, n)
        implies run_records(m, join_sep(vs, seps), k2, seq![
            (segment_name(ws[n - 2]), vs[n - 2]),
            (segment_name(ws.last()), vs.last()),
        ]) by {
        let pre = vs.drop_last();
        let pre_seps = seps.drop_last();
        let v1 = vs[n - 2];
        let v2 = vs.last();
        let sep = seps.last();
        assert(fills(ws[n - 2], vs[n - 2]));
        assert(fills(ws[n - 1], vs[n - 1]));
        assert(v2 == vs[n - 1]);
        assert(fills_all(ws, pre, n - 1)) by {
            assert forall|x: int| 0 <= x < n - 1 implies #[trigger] fills(ws[x], pre[x]) by {
                assert(fills(ws[x], vs[x]));
            }
        }
        assert(seps_ok(pre_seps, n - 1)) by {
            assert forall|x: int| 0 <= x < pre_seps.len() implies blank_run(#[trigger] pre_seps[x]) by {
                assert(pre_seps[x] == seps[x]);
            }
        }
        let y = lead_text(pre, pre_seps);
        assert(reads_unrecorded(m1, 0, y, b1));
        lemma_unrecorded_extends(m1, m, 0, y, b1);
        assert(blank_run(seps[seps.len() - 1]));
        assert(reads_unrecorded(m1, k1, sep, b2));
        lemma_unrecorded_extends(m1, m, k1, sep, b2);
        assert forall|t: int| 0 <= t < v1.len() implies m[k1 as int].expected.has(#[trigger] v1[t]) by {
            assert(m1[k1 as int].expected.has(v1[t]));
        }
        assert forall|t: int| 0 <= t < v2.len() implies m[k2 as int].expected.has(#[trigger] v2[t]) by {
            assert(m1[k2 as int].expected.has(v2[t]));
        }
        lemma_two_param_run(m, y, b1, k1, v1, sep, b2, k2, v2, segment_name(ws[n - 2]), segment_name(ws.last()));
        assert(pre.last() == v1);
        assert(y + v1 =~= join_sep(pre, pre_seps));
        assert(join_sep(vs, seps) == join_sep(pre, pre_seps) + sep + v2);
        assert(y + v1 + sep + v2 =~= join_sep(vs, seps));
    }
    assert(two_param_end(m, handlers, ws, k2, command));
}

/// `r` is where the segments `ws` end: it is final, the only state whose
/// command changed (to `command`), reads what the last segment may end
/// with, and every text that stands for the segments, joined by blank
/// runs, leads to it.
pub open spec fn plain_end<H>(
    old_handlers: Map<usize, H>,
    m: Seq<StateView>,
    handlers: Map<usize, H>,
    ws: Seq<Seq<char>>,
    r: usize,
    command: H,
) -> bool {
    &&& (r as int) < m.len()
    &&& m[r as int].is_final
    &&& handlers == old_handlers.insert(r, command)
    &&& ends_like(m, r, ws.last())
    &&& forall|vs: Seq<Seq<char>>, seps: Seq<Seq<char>>|
        #![trigger stands_all(ws, vs, ws.len() as int), join_sep(vs, seps)]
        stands_all(ws, vs, ws.len() as int) && seps_ok(seps, ws.len() as int)
        ==> reads(m, 0, join_sep(vs, seps), r)
}

/// `r` is where the messages of the pattern `ws` end: it is final, the
/// only state whose command changed (to `command`), reads what the last
/// segment may end with, and every message of the pattern, its words
/// joined by single spaces, leads to it.
pub open spec fn message_end<H>(
    old_handlers: Map<usize, H>,
    m: Seq<StateView>,
    handlers: Map<usize, H>,
    ws: Seq<Seq<char>>,
    r: usize,
    command: H,
) -> bool {
    &&& (r as int) < m.len()
    &&& m[r as int].is_final
    &&& handlers == old_handlers.insert(r, command)
    &&& ends_like(m, r, ws.last())
    &&& forall|vs: Seq<Seq<char>>| #[trigger] fills_all(ws, vs, ws.len() as int) ==> reads(m, 0, join_words(vs), r)
}

/// A bare `...` is not a simple segment.
proof fn lemma_dots_not_simple()
    ensures
        !simple_word(seq!['.', '.', '.']),
{
    let w = seq!['.', '.', '.'];
    assert(w.subrange(0, 3) =~= w);
    assert(has_suffix(w, seq!['.', '.', '.']));
    assert(!literal_word(w));
    assert(!rest_word(w));
    assert(w.subrange(0, 1)[0] == '.');
    assert(!has_prefix(w, seq!['{']));
    assert(!param_word(w));
}

/// `r` is where the help message of `cmd` ends: it is final, the only
/// state whose command changed (to `command`), reads only the last
/// character of `cmd`, and the help message leads to it.
pub open spec fn help_end<H>(
    old_handlers: Map<usize, H>,
    m: Seq<StateView>,
    handlers: Map<usize, H>,
    cmd: Seq<char>,
    r: usize,
    command: H,
) -> bool {
    &&& (r as int) < m.len()
    &&& m[r as int].is_final
    &&& handlers == old_handlers.insert(r, command)
    &&& forall|c: char| #[trigger] m[r as int].expected.has(c) == (c == cmd.last())
    &&& reads(m, 0, help_message(cmd), r)
}

/// What [`Table::add`] keeps while it compiles the segments of `input`
/// before segment `i`: the table grows from `start`; `state` is where the
/// last segment ended; a plain prefix is read into `state`; a bare `...`
/// that ended it is recorded in `dots`; and an open group of options, with
/// its blank state and the states that may end it, starts at `g`.
#[verifier::opaque]
pub open spec fn add_inv<H>(
    start: Seq<StateView>,
    old_map: Map<usize, H>,
    m: Seq<StateView>,
    handlers: Map<usize, H>,
    command: H,
    input: Seq<char>,
    i: int,
    state: usize,
    reused: Option<usize>,
    opt: Seq<usize>,
    g: int,
    dots: usize,
) -> bool {
    &&& pattern_ok(input)
    &&& forall|w: int| 0 <= w < words(input).len() ==> all_ascii(#[trigger] words(input)[w])
    &&& 0 <= i <= words(input).len()
    &&& table_inv(start, old_map, m, handlers, command)
    &&& (state as int) < m.len()
    &&& (reused matches Some(l) ==> (l as int) < m.len())
    &&& forall|j: int| 0 <= j < opt.len() ==> (#[trigger] opt[j] as int) < m.len()
    &&& (plain_prefix(words(input), i) ==> reused is None && prefix_reaches(m, words(input), i, state))
    &&& (i >= 1 && words(input)[i - 1] == seq!['.', '.', '.'] && plain_prefix(words(input), i - 1) ==> {
        &&& reused is None
        &&& dots_inv(m, handlers, words(input), i - 1, dots, state, command)
    })
    &&& (reused is None ==> opt.len() == 0 && (i == 0 || kv_name(words(input)[i - 1]) is None))
    &&& (reused matches Some(l) ==> group_inv(m, opt, l, words(input), g, i))
    &&& param_inv(m, words(input), i, state)
    &&& ((forall|j: int| 0 <= j < i ==> #[trigger] words(input)[j] != seq!['.', '.', '.']) ==> handlers == old_map)
    &&& (i >= 1 ==> ends_like(m, state, words(input)[i - 1]))
}

/// While the first `i` segments of `ws` are compiled into `state`: a
/// literal prefix is read into `state` without recording, and a `{name}` or
/// `name...` right after one has the facts of [`param_facts`].
#[verifier::opaque]
pub open spec fn param_inv(m: Seq<StateView>, ws: Seq<Seq<char>>, i: int, state: usize) -> bool {
    &&& (literal_prefix(ws, i) ==> literal_reaches(m, ws, i, state))
    &&& (i >= 1 && literal_prefix(ws, i - 1) && (param_word(ws[i - 1]) || rest_word(ws[i - 1]))
        ==> exists|b: usize| #[trigger] param_facts(m, ws, i, b, state))
    &&& (i >= 2 && literal_prefix(ws, i - 2) && param_word(ws[i - 2]) && rest_word(ws[i - 1])
        ==> exists|b1: usize, k1: usize, b2: usize| #[trigger] param2_facts(m, ws, i, b1, k1, b2, state))
}

/// A `name...` right after a `{name}` that follows a literal prefix gives
/// the facts of [`param2_facts`].
proof fn lemma_param2_step_inv(
    m_before: Seq<StateView>,
    m_after: Seq<StateView>,
    ws: Seq<Seq<char>>,
    i: int,
    k1: usize,
    k2: usize,
)
    requires
        1 <= i < ws.len(),
        literal_prefix(ws, i - 1),
        param_word(ws[i - 1]),
        rest_word(ws[i]),
        exists|b: usize| #[trigger] param_facts(m_before, ws, i, b, k1),
        param_step(m_before, m_after, k1, i, ws[i], k2),
    ensures
        exists|b1: usize, k: usize, b2: usize| #[trigger] param2_facts(m_after, ws, i + 1, b1, k, b2, k2),
{
    reveal(param_step);
    reveal(param_facts);
    let b1 = choose|b: usize| #[trigger] param_facts(m_before, ws, i, b, k1);
    let b2 = choose|b: usize| #[trigger] enters_param(m_after, k1, i, b, k2);
    assert(crate::state_machine::kept_state(m_before[k1 as int], m_after[k1 as int]));
    assert(!m_after[k1 as int].expected.has(' '));
    assert(k1 != k2);
    assert(m_after[k1 as int].key == m_before[k1 as int].key);
    lemma_extends_keeps_edge(m_before, m_after, b1 as int, k1);
    lemma_extends_keeps_edge(m_before, m_after, k1 as int, k1);
    lemma_lead_reaches_extends(m_before, m_after, ws, i, b1);
    assert(ws[i + 1 - 2] == ws[i - 1]);
    assert(ws[i + 1 - 1] == ws[i]);
    assert(i + 1 - 1 == i);
    assert forall|v: Seq<char>, t: int| fills(ws[i + 1 - 2], v) && 0 <= t < v.len()
        implies m_after[k1 as int].expected.has(#[trigger] v[t]) by {
        assert(m_before[k1 as int].expected.has(v[t]));
    }
    assert forall|v: Seq<char>, t: int| fills(ws[i + 1 - 1], v) && 0 <= t < v.len()
        implies m_after[k2 as int].expected.has(#[trigger] v[t]) by {
        assert(fills(ws[i], v));
    }
    reveal(param2_facts);
    assert(param2_facts(m_after, ws, i + 1, b1, k1, b2, k2));
}

/// A plain segment keeps [`param_inv`].
#[verifier::rlimit(50)]
#[verifier::spinoff_prover]
proof fn lemma_param_inv_step(
    m_before: Seq<StateView>,
    m_after: Seq<StateView>,
    ws: Seq<Seq<char>>,
    i: int,
    state_before: usize,
    state: usize,
)
    requires
        0 <= i < ws.len(),
        param_inv(m_before, ws, i, state_before),
        literal_step(m_before, m_after, state_before, i, ws[i], state),
        param_step(m_before, m_after, state_before, i, ws[i], state),
    ensures
        param_inv(m_after, ws, i + 1, state),
{
    reveal(param_inv);
    lemma_literal_step_inv(m_before, m_after, ws, i, state_before, state);
    lemma_param_step_inv(m_before, m_after, ws, i, state_before, state);
    assert(ws[i + 1 - 1] == ws[i]);
    if literal_prefix(ws, i + 1 - 1) {
        assert(literal_prefix(ws, i));
    }
    if i >= 1 && literal_prefix(ws, i - 1) && param_word(ws[i - 1]) && rest_word(ws[i]) {
        lemma_param2_step_inv(m_before, m_after, ws, i, state_before, state);
        assert(ws[i + 1 - 2] == ws[i - 1]);
    }
}

/// An option segment keeps [`param_inv`]: nothing before it is left to
/// keep.
proof fn lemma_param_inv_option(m: Seq<StateView>, ws: Seq<Seq<char>>, i: int, state: usize)
    requires
        0 <= i < ws.len(),
        kv_name(ws[i]) is Some,
    ensures
        param_inv(m, ws, i + 1, state),
{
    reveal(param_inv);
    assert(!literal_word(ws[i]));
    assert(!literal_prefix(ws, i + 1));
    assert(ws[i + 1 - 1] == ws[i]);
    assert(!rest_word(ws[i]));
}

/// Before any segment, the empty text is read into the start state.
proof fn lemma_literal_reaches_start(m: Seq<StateView>, ws: Seq<Seq<char>>)
    requires
        m.len() > 0,
    ensures
        literal_reaches(m, ws, 0, 0),
{
    reveal(literal_reaches);
    lemma_unrecorded_empty(m, 0);
    assert forall|vs: Seq<Seq<char>>, seps: Seq<Seq<char>>|
        #![trigger fills_all(ws, vs, 0), join_sep(vs, seps)]
        fills_all(ws, vs, 0) && seps_ok(seps, 0) implies reads_unrecorded(m, 0, join_sep(vs, seps), 0) by {
        assert(vs =~= Seq::<Seq<char>>::empty());
        assert(join_sep(vs, seps) =~= Seq::<char>::empty());
    }
}

/// `j`, then `sep` unless the next segment is the first.
pub open spec fn sep_prefix(j: Seq<char>, sep: Seq<char>, i: int) -> Seq<char> {
    if i > 0 { j + sep } else { j }
}

/// State `b` has an edge into `k` and is where segment `i` starts after
/// `state`: `state` itself for the first segment, else the state reached
/// from `state` by any run of blanks, without recording.
pub open spec fn enters_param(m: Seq<StateView>, state: usize, i: int, b: usize, k: usize) -> bool {
    &&& (b as int) < m.len()
    &&& m[b as int].next.contains(k)
    &&& (i == 0 ==> b == state)
    &&& (i > 0 ==> forall|sep: Seq<char>| #[trigger] blank_run(sep) ==> reads_unrecorded(m, state, sep, b))
}

/// The words joined by single spaces.
pub open spec fn join_words(ws: Seq<Seq<char>>) -> Seq<char>
    decreases ws.len(),
{
    if ws.len() == 0 {
        Seq::empty()
    } else if ws.len() == 1 {
        ws[0]
    } else {
        join_words(ws.drop_last()) + seq![' '] + ws.last()
    }
}

/// The message that asks for the help of `cmd`: `?help ` and `cmd` without
/// its first character.
pub open spec fn help_message(cmd: Seq<char>) -> Seq<char> {
    seq!['?', 'h', 'e', 'l', 'p', ' '] + cmd.drop_first()
}

/// The message that asks for the help of `cmd` with the separator `sep`
/// after `?help`.
pub open spec fn help_text(cmd: Seq<char>, sep: Seq<char>) -> Seq<char> {
    seq!['?', 'h', 'e', 'l', 'p'] + sep + cmd.drop_first()
}

/// A text of ordinary characters: ASCII, with no space, `=`, backtick,
/// brace or dot.
pub open spec fn plain_text(s: Seq<char>) -> bool {
    forall|i: int| 0 <= i < s.len() ==> {
        let c = #[trigger] s[i];
        &&& is_ascii_char(c)
        &&& c != ' '
        &&& c != '='
        &&& c != '`'
        &&& c != '{'
        &&& c != '.'
    }
}

/// A text without spaces is one word, after the partial word `cur`.
proof fn lemma_one_word(s: Seq<char>, cur: Seq<char>)
    requires
        forall|i: int| 0 <= i < s.len() ==> #[trigger] s[i] != ' ',
        cur.len() + s.len() > 0,
    ensures
        crate::strings::words_after(s, cur) == seq![cur + s],
    decreases s.len(),
{
    if s.len() == 0 {
        assert(cur + s =~= cur);
    } else {
        assert(s[0] != ' ');
        assert forall|i: int| 0 <= i < s.drop_first().len() implies #[trigger] s.drop_first()[i] != ' ' by {
            assert(s.drop_first()[i] == s[i + 1]);
        }
        lemma_one_word(s.drop_first(), cur.push(s[0]));
        assert(cur.push(s[0]) + s.drop_first() =~= cur + s);
    }
}

/// Reading characters other than spaces extends the partial word.
proof fn lemma_words_after_word(s: Seq<char>, cur: Seq<char>, k: int)
    requires
        0 <= k <= s.len(),
        forall|i: int| 0 <= i < k ==> #[trigger] s[i] != ' ',
    ensures
        crate::strings::words_after(s, cur) == crate::strings::words_after(s.skip(k), cur + s.take(k)),
    decreases k,
{
    if k == 0 {
        assert(s.skip(0) =~= s);
        assert(cur + s.take(0) =~= cur);
    } else {
        assert(s[0] != ' ');
        let t = s.drop_first();
        assert forall|i: int| 0 <= i < k - 1 implies #[trigger] t[i] != ' ' by {
            assert(t[i] == s[i + 1]);
        }
        lemma_words_after_word(t, cur.push(s[0]), k - 1);
        assert(t.skip(k - 1) =~= s.skip(k));
        assert(cur.push(s[0]) + t.take(k - 1) =~= cur + s.take(k));
    }
}

/// A word followed by a space starts the words of a text.
pub proof fn lemma_words_cons(a: Seq<char>, rest: Seq<char>)
    requires
        a.len() > 0,
        no_space(a),
    ensures
        words(a + seq![' '] + rest) == seq![a] + words(rest),
{
    let s = a + seq![' '] + rest;
    let k = a.len() as int;
    assert forall|i: int| 0 <= i < k implies #[trigger] s[i] != ' ' by {
        assert(s[i] == a[i]);
    }
    lemma_words_after_word(s, Seq::empty(), k);
    assert(Seq::<char>::empty() + s.take(k) =~= a);
    assert(s.skip(k)[0] == ' ');
    assert(s.skip(k).drop_first() =~= rest);
}

/// A text without spaces is one word.
pub proof fn lemma_words_single(a: Seq<char>)
    requires
        a.len() > 0,
        no_space(a),
    ensures
        words(a) == seq![a],
{
    lemma_one_word(a, Seq::empty());
    assert(Seq::<char>::empty() + a =~= a);
}

/// A text without `=` holds no `name={}` marker.
pub proof fn lemma_no_marker(s: Seq<char>)
    requires
        forall|i: int| 0 <= i < s.len() ==> #[trigger] s[i] != '=',
    ensures
        kv_name(s) is None,
{
    assert forall|j: int| !#[trigger] marker_at(s, j) by {
        if 0 <= j < s.len() {
            assert(s[j] != '=');
        }
    }
}

/// The kind of a segment, from its characters: a plain word is literal.
pub proof fn lemma_literal_kind(w: Seq<char>)
    requires
        w.len() > 0,
        plain_text(w),
    ensures
        literal_word(w),
        !param_word(w),
        !rest_word(w),
        no_space(w),
{
    lemma_plain_pattern(w);
    lemma_words_single(w);
    assert(literal_word(words(w)[0]));
    assert(!has_prefix(w, seq!['{'])) by {
        assert(w.subrange(0, 1)[0] == w[0]);
    }
    assert(!has_suffix(w, seq!['.', '.', '.'])) by {
        if w.len() >= 3 {
            assert(w.subrange(w.len() - 3, w.len() as int)[2] == w[w.len() - 1]);
        }
    }
}

/// The kind of a segment, from its characters: `{name}` is a parameter.
pub proof fn lemma_param_kind(w: Seq<char>)
    requires
        w.len() >= 2,
        w[0] == '{',
        w[w.len() - 1] == '}',
        forall|i: int| 0 <= i < w.len() ==> #[trigger] w[i] != '=' && w[i] != ' ',
    ensures
        param_word(w),
        !literal_word(w),
        !rest_word(w),
        no_space(w),
{
    lemma_no_marker(w);
    assert(w.subrange(0, 1) =~= seq!['{']);
    assert(w.subrange(w.len() - 1, w.len() as int) =~= seq!['}']);
}

/// The kind of a segment, from its characters: `name...` is the rest of
/// the message.
pub proof fn lemma_rest_kind(w: Seq<char>)
    requires
        w.len() > 3,
        w[0] != '{',
        w[w.len() - 3] == '.',
        w[w.len() - 2] == '.',
        w[w.len() - 1] == '.',
        forall|i: int| 0 <= i < w.len() ==> #[trigger] w[i] != '=' && w[i] != ' ',
    ensures
        rest_word(w),
        !literal_word(w),
        !param_word(w),
        no_space(w),
{
    lemma_no_marker(w);
    assert(w.subrange(w.len() - 3, w.len() as int) =~= seq!['.', '.', '.']);
    assert(!has_prefix(w, seq!['{'])) by {
        assert(w.subrange(0, 1)[0] == w[0]);
    }
}

/// An ASCII pattern of simple segments is one that `Commands::add`
/// compiles.
pub proof fn lemma_simple_pattern_ok(s: Seq<char>)
    requires
        all_ascii(s),
        simple_prefix(words(s), words(s).len() as int),
    ensures
        pattern_ok(s),
{
    assert forall|w: int| 0 <= w < words(s).len() implies segment_ok(#[trigger] words(s)[w]) by {
        let x = words(s)[w];
        assert(simple_word(x));
        if has_prefix(x, seq!['`']) || has_prefix(x, seq!['`', '`', '`']) || has_prefix(x, seq!['`', '`', '`', '\n']) {
            if has_suffix(x, seq!['`']) || has_suffix(x, seq!['`', '`', '`']) {
                lemma_code_word_not_simple(x);
            }
        }
        if has_prefix(x, seq!['`', '`', '`']) {
            assert(x.subrange(0, 1) =~= seq!['`']) by {
                assert(x.subrange(0, 3)[0] == x[0]);
            }
        }
        if has_suffix(x, seq!['`', '`', '`']) {
            assert(x.subrange(x.len() - 1, x.len() as int) =~= seq!['`']) by {
                assert(x.subrange(x.len() - 3, x.len() as int)[2] == x[x.len() - 1]);
            }
        }
    }
}

/// The words of a text of two, three or four words.
pub proof fn lemma_words_of(a: Seq<char>, b: Seq<char>, c: Seq<char>, d: Seq<char>)
    requires
        a.len() > 0 && no_space(a),
        b.len() > 0 && no_space(b),
        c.len() > 0 && no_space(c),
        d.len() > 0 && no_space(d),
    ensures
        words(a + seq![' '] + b) == seq![a, b],
        words(a + seq![' '] + (b + seq![' '] + c)) == seq![a, b, c],
        words(a + seq![' '] + (b + seq![' '] + (c + seq![' '] + d))) == seq![a, b, c, d],
{
    lemma_words_single(b);
    lemma_words_cons(a, b);
    assert(seq![a] + seq![b] =~= seq![a, b]);
    lemma_words_single(c);
    lemma_words_cons(b, c);
    lemma_words_cons(a, b + seq![' '] + c);
    assert(seq![a] + (seq![b] + seq![c]) =~= seq![a, b, c]);
    lemma_words_single(d);
    lemma_words_cons(c, d);
    lemma_words_cons(b, c + seq![' '] + d);
    lemma_words_cons(a, b + seq![' '] + (c + seq![' '] + d));
    assert(seq![a] + (seq![b] + (seq![c] + seq![d])) =~= seq![a, b, c, d]);
}

/// A plain text is a pattern of one literal word, which a message must
/// spell out exactly.
pub proof fn lemma_plain_pattern(s: Seq<char>)
    requires
        s.len() > 0,
        plain_text(s),
    ensures
        pattern_ok(s),
        literal_prefix(words(s), words(s).len() as int),
        join_words(words(s)) == s,
{
    lemma_one_word(s, Seq::empty());
    assert(Seq::<char>::empty() + s =~= s);
    assert(words(s) == seq![s]);
    assert(kv_name(s) is None) by {
        assert forall|j: int| !#[trigger] marker_at(s, j) by {
            if 0 <= j < s.len() {
                assert(s[j] != '=');
            }
        }
    }
    assert(!has_prefix(s, seq!['`'])) by {
        assert(s.subrange(0, 1)[0] == s[0]);
    }
    assert(!has_prefix(s, seq!['{'])) by {
        assert(s.subrange(0, 1)[0] == s[0]);
    }
    assert(!has_suffix(s, seq!['.', '.', '.'])) by {
        if s.len() >= 3 {
            assert(s.subrange(s.len() - 3, s.len() as int)[2] == s[s.len() - 1]);
        }
    }
    assert(!has_prefix(s, seq!['`', '`', '`', '\n'])) by {
        if s.len() >= 4 {
            assert(s.subrange(0, 4)[0] == s[0]);
        }
    }
    assert(!has_prefix(s, seq!['`', '`', '`'])) by {
        if s.len() >= 3 {
            assert(s.subrange(0, 3)[0] == s[0]);
        }
    }
    assert(segment_ok(s));
    assert(literal_word(words(s)[0]));
    assert(all_ascii(s)) by {
        assert forall|i: int| 0 <= i < s.len() implies #[trigger] is_ascii_char(s[i]) by {
            assert(is_ascii_char(s[i]));
        }
    }
}

/// The registered commands and the machine that recognises them; the
/// table keeps no invariant of its own, see [`Commands`].
struct Table<H: Copy> {
    state_machine: StateMachine,
    command_map: HashMap<usize, H>,
}

impl<H: Copy> Table<H> {
    /// The recognising machine.
    spec fn machine(&self) -> Seq<StateView> {
        self.state_machine@
    }

    /// The command of each final state.
    spec fn handlers(&self) -> Map<usize, H> {
        self.command_map@
    }

    /// Every final state of the machine has a command.
    spec fn wf(&self) -> bool {
        &&& machine_wf(self.machine())
        &&& keys_ok(self.machine())
        &&& forall|s: int|
            0 <= s < self.machine().len() && #[trigger] self.machine()[s].is_final
                ==> self.handlers().contains_key(s as usize)
        &&& forall|k: usize| #[trigger] self.handlers().contains_key(k) ==> (k as int) < self.machine().len()
    }

    /// No command yet: the machine has only its start state, which is not final.
    fn new() -> (r: Self)
        ensures
            r.wf(),
            r.machine().len() == 1,
            !r.machine()[0].is_final,
            r.handlers() == Map::<usize, H>::empty(),
    {
        let r = Table { state_machine: StateMachine::new(), command_map: HashMap::new() };
        r
    }

    /// Adds a chain of states that reads `chars` from `state`, and returns
    /// its last state.
    fn add_literal(&mut self, state: usize, chars: &[char]) -> (r: usize)
        requires
            old(self).state_machine.wf(),
            state < old(self).machine().len(),
            all_ascii(chars@),
        ensures
            grows(old(self).machine(), final(self).machine()),
            final(self).handlers() == old(self).handlers(),
            r < final(self).machine().len(),
            chars@.len() == 0 ==> r == state,
            reads(final(self).machine(), state, chars@, r),
            reads_unrecorded(final(self).machine(), state, chars@, r),
            forall|x: usize| keys_kept(old(self).machine(), final(self).machine(), x),
            chars@.len() > 0 ==> forall|c: char| #[trigger] final(self).machine()[r as int].expected.has(c) == (c == chars@.last()),
    {
        let ghost start = self.machine();
        proof {
            lemma_extends_refl(start);
            lemma_reads_empty(start, state);
            lemma_unrecorded_empty(start, state);
            assert(chars@.take(0) =~= Seq::<char>::empty());
        }
        let s0 = state;
        let mut state = state;
        let mut i: usize = 0;
        while i < chars.len()
            invariant
                0 <= i <= chars@.len(),
                all_ascii(chars@),
                grows(start, self.machine()),
                self.handlers() == old(self).handlers(),
                state < self.machine().len(),
                i == 0 ==> state == s0,
                reads(self.machine(), s0, chars@.take(i as int), state),
                reads_unrecorded(self.machine(), s0, chars@.take(i as int), state),
                forall|s: int| 0 <= s < start.len() ==> #[trigger] self.machine()[s].key == start[s].key,
                i > 0 ==> forall|c: char| #[trigger] self.machine()[state as int].expected.has(c) == (c == chars@[i - 1]),
            decreases chars@.len() - i,
        {
            let ghost mid = self.machine();
            let ghost prev = state;
            let ch = chars[i];
            state = self.state_machine.add(state, CharacterSet::from_char(ch));
            assert(forall|s: int| 0 <= s < mid.len() ==> #[trigger] self.machine()[s].key == mid[s].key);
            proof {
                lemma_grows_trans(start, mid, self.machine());
                lemma_reads_extends(mid, self.machine(), s0, chars@.take(i as int), prev);
                lemma_reads_step(self.machine(), prev, ch, state);
                lemma_reads_concat(self.machine(), s0, chars@.take(i as int), prev, seq![ch], state);
                lemma_unrecorded_extends(mid, self.machine(), s0, chars@.take(i as int), prev);
                assert(unrecorded(self.machine(), state)) by {
                    if self.machine()[state as int].expected.has('a') {
                        assert(ch == 'a');
                    }
                }
                lemma_unrecorded_step(self.machine(), prev, ch, state);
                lemma_unrecorded_concat(self.machine(), s0, chars@.take(i as int), prev, seq![ch], state);
                assert(chars@.take(i + 1) =~= chars@.take(i as int) + seq![ch]);
            }
            i = i + 1;
        }
        proof {
            assert(chars@.take(chars@.len() as int) =~= chars@);
            assert forall|x: usize| keys_kept(start, self.machine(), x) by {}
        }
        state
    }

    /// Between two segments, adds a state that reads a run of spaces and
    /// newlines; the first segment needs none.
    fn add_space(&mut self, state: usize, i: usize) -> (r: usize)
        requires
            old(self).state_machine.wf(),
            state < old(self).machine().len(),
        ensures
            grows(old(self).machine(), final(self).machine()),
            final(self).handlers() == old(self).handlers(),
            r < final(self).machine().len(),
            i == 0 ==> r == state && final(self).machine() == old(self).machine(),
            i > 0 ==> reads(final(self).machine(), state, seq![' '], r),
            i > 0 ==> forall|sep: Seq<char>| #[trigger] blank_run(sep) ==> reads(final(self).machine(), state, sep, r),
            i > 0 ==> blank_loop(final(self).machine(), r),
            i > 0 ==> forall|sep: Seq<char>| #[trigger] blank_run(sep) ==> reads_unrecorded(final(self).machine(), state, sep, r),
            forall|x: usize| keys_kept(old(self).machine(), final(self).machine(), x),
    {
        let ghost start = self.machine();
        proof {
            lemma_extends_refl(start);
        }
        let mut state = state;
        if i > 0 {
            let blanks = vec![' ', '\n'];
            let char_set = CharacterSet::from_chars(blanks.as_slice());
            let ghost prev = state;
            state = self.state_machine.add(state, char_set);
            let ghost mid = self.machine();
            assert(forall|s: int| 0 <= s < start.len() ==> #[trigger] mid[s].key == start[s].key);
            self.state_machine.add_next_state(state, state);
            assert(forall|s: int| 0 <= s < start.len() ==> #[trigger] self.machine()[s].key == start[s].key);
            proof {
                lemma_grows_trans(start, mid, self.machine());
                assert(blanks@.contains(' ')) by {
                    assert(blanks@[0] == ' ');
                }
                lemma_extends_keeps_edge(mid, self.machine(), prev as int, state);
                assert(crate::state_machine::kept_state(mid[state as int], self.machine()[state as int]));
                lemma_reads_step(self.machine(), prev, ' ', state);
                let m = self.machine();
                assert(blanks@ =~= seq![' ', '\n']);
                assert(blanks@[0] == ' ' && blanks@[1] == '\n');
                assert(blank_loop(m, state));
                assert forall|sep: Seq<char>| #[trigger] blank_run(sep) implies reads(m, prev, sep, state) by {
                    assert forall|k: int| 0 <= k < sep.len() implies m[state as int].expected.has(#[trigger] sep[k]) by {
                        if sep[k] == ' ' {
                            assert(blanks@[0] == ' ');
                        } else {
                            assert(blanks@[1] == '\n');
                        }
                    }
                    lemma_reads_step(m, prev, sep[0], state);
                    assert forall|k: int| 0 <= k < sep.drop_first().len() implies m[state as int].expected.has(#[trigger] sep.drop_first()[k]) by {
                        assert(sep.drop_first()[k] == sep[k + 1]);
                    }
                    lemma_reads_loop(m, state, sep.drop_first());
                    lemma_reads_concat(m, prev, seq![sep[0]], state, sep.drop_first(), state);
                    assert(seq![sep[0]] + sep.drop_first() =~= sep);
                }
                assert(unrecorded(m, state)) by {
                    assert(!blanks@.contains('a')) by {
                        assert(blanks@[0] != 'a' && blanks@[1] != 'a');
                    }
                }
                assert forall|sep: Seq<char>| #[trigger] blank_run(sep) implies reads_unrecorded(m, prev, sep, state) by {
                    assert forall|k: int| 0 <= k < sep.len() implies m[state as int].expected.has(#[trigger] sep[k]) by {
                        if sep[k] == ' ' {
                            assert(blanks@[0] == ' ');
                        } else {
                            assert(blanks@[1] == '\n');
                        }
                    }
                    lemma_unrecorded_step(m, prev, sep[0], state);
                    assert forall|k: int| 0 <= k < sep.drop_first().len() implies m[state as int].expected.has(#[trigger] sep.drop_first()[k]) by {
                        assert(sep.drop_first()[k] == sep[k + 1]);
                    }
                    lemma_unrecorded_loop(m, state, sep.drop_first());
                    lemma_unrecorded_concat(m, prev, seq![sep[0]], state, sep.drop_first(), state);
                    assert(seq![sep[0]] + sep.drop_first() =~= sep);
                }
            }
        }
        state
    }

    /// Adds the state of a parameter that is the rest of the message.
    fn add_parameter_loop(&mut self, state: usize, char_set: CharacterSet, name: Option<&str>) -> (r: usize)
        requires
            old(self).state_machine.wf(),
            state < old(self).machine().len(),
            name is Some ==> char_set.has('a') && char_set.has('`'),
        ensures
            grows(old(self).machine(), final(self).machine()),
            final(self).handlers() == old(self).handlers(),
            r < final(self).machine().len(),
            forall|v: Seq<char>| v.len() > 0 && #[trigger] word_in(v, char_set) ==> reads(final(self).machine(), state, v, r),
            final(self).machine()[state as int].next.contains(r),
            final(self).machine()[r as int].next.contains(r),
            final(self).machine()[r as int].expected == char_set,
            name matches Some(k) ==> final(self).machine()[r as int].key == Some(k@),
            keys_kept(old(self).machine(), final(self).machine(), r),
    {
        let ghost s0 = state;
        let ghost start = self.machine();
        let state = self.state_machine.add(state, char_set);
        let ghost mid = self.machine();
        assert(keys_kept(start, mid, state));
        self.state_machine.add_next_state(state, state);
        assert(keys_kept(start, self.machine(), state));
        proof {
            lemma_grows_trans(start, mid, self.machine());
        }
        let ghost looped = self.machine();
        proof {
            assert forall|v: Seq<char>| v.len() > 0 && #[trigger] word_in(v, char_set) implies reads(looped, s0, v, state) by {
                lemma_extends_keeps_edge(mid, looped, s0 as int, state);
                assert(crate::state_machine::kept_state(mid[state as int], looped[state as int]));
                assert(looped[state as int].expected.has(v[0]));
                lemma_reads_step(looped, s0, v[0], state);
                assert forall|k: int| 0 <= k < v.drop_first().len() implies looped[state as int].expected.has(#[trigger] v.drop_first()[k]) by {
                    assert(v.drop_first()[k] == v[k + 1]);
                }
                lemma_reads_loop(looped, state, v.drop_first());
                lemma_reads_concat(looped, s0, seq![v[0]], state, v.drop_first(), state);
                assert(seq![v[0]] + v.drop_first() =~= v);
            }
        }
        match name {
            Some(key) => {
                let ghost mid2 = self.machine();
                self.state_machine.start_parse(state, key);
                proof {
                    lemma_grows_mark_new(start, mid2, state as int, self.machine());
                }
                let ghost mid3 = self.machine();
                assert(keys_kept(start, mid3, state));
                self.state_machine.end_parse(state);
                proof {
                    lemma_grows_mark_new(start, mid3, state as int, self.machine());
                }
                assert(keys_kept(start, self.machine(), state));
            },
            None => {},
        }
        proof {
            assert forall|v: Seq<char>| v.len() > 0 && #[trigger] word_in(v, char_set) implies reads(self.machine(), s0, v, state) by {
                lemma_reads_extends(looped, self.machine(), s0, v, state);
            }
            lemma_extends_keeps_edge(mid, looped, s0 as int, state);
            lemma_extends_keeps_edge(looped, self.machine(), s0 as int, state);
            lemma_extends_keeps_edge(looped, self.machine(), state as int, state);
            assert(crate::state_machine::kept_state(mid[state as int], looped[state as int]));
            assert(crate::state_machine::kept_state(looped[state as int], self.machine()[state as int]));
        }
        state
    }

    /// The `?help command` entry: the words `?help` and `cmd`.
    fn add_help_menu(&mut self, cmd: &[char], state: usize) -> (r: usize)
        requires
            old(self).state_machine.wf(),
            state < old(self).machine().len(),
            all_ascii(cmd@),
        ensures
            grows(old(self).machine(), final(self).machine()),
            final(self).handlers() == old(self).handlers(),
            r < final(self).machine().len(),
            reads(final(self).machine(), state, seq!['?', 'h', 'e', 'l', 'p', ' '] + cmd@, r),
            forall|sep: Seq<char>| #[trigger] blank_run(sep)
                ==> reads(final(self).machine(), state, seq!['?', 'h', 'e', 'l', 'p'] + sep + cmd@, r),
            forall|sep: Seq<char>| #[trigger] blank_run(sep)
                ==> reads_unrecorded(final(self).machine(), state, seq!['?', 'h', 'e', 'l', 'p'] + sep + cmd@, r),
            cmd@.len() > 0 ==> forall|c: char| #[trigger] final(self).machine()[r as int].expected.has(c) == (c == cmd@.last()),
    {
        let ghost start = self.machine();
        let s0 = state;
        let help = vec!['?', 'h', 'e', 'l', 'p'];
        proof {
            assert(help@ =~= seq!['?', 'h', 'e', 'l', 'p']);
        }
        let state = self.add_literal(s0, help.as_slice());
        let ghost s1 = state;
        let ghost mid = self.machine();
        let state = self.add_space(state, 1);
        let ghost s2 = state;
        proof {
            lemma_grows_trans(start, mid, self.machine());
            lemma_reads_extends(mid, self.machine(), s0, help@, s1);
            lemma_reads_concat(self.machine(), s0, help@, s1, seq![' '], s2);
        }
        let ghost mid2 = self.machine();
        let state = self.add_literal(state, cmd);
        proof {
            lemma_grows_trans(start, mid2, self.machine());
            lemma_reads_extends(mid2, self.machine(), s0, help@ + seq![' '], s2);
            lemma_reads_concat(self.machine(), s0, help@ + seq![' '], s2, cmd@, state);
            assert(help@ + seq![' '] =~= seq!['?', 'h', 'e', 'l', 'p', ' ']);
            assert forall|sep: Seq<char>| #[trigger] blank_run(sep)
                implies reads(self.machine(), s0, seq!['?', 'h', 'e', 'l', 'p'] + sep + cmd@, state) by {
                assert(reads(mid2, s1, sep, s2));
                lemma_reads_concat(mid2, s0, help@, s1, sep, s2);
                lemma_reads_extends(mid2, self.machine(), s0, help@ + sep, s2);
                lemma_reads_concat(self.machine(), s0, help@ + sep, s2, cmd@, state);
            }
            assert forall|sep: Seq<char>| #[trigger] blank_run(sep)
                implies reads_unrecorded(self.machine(), s0, seq!['?', 'h', 'e', 'l', 'p'] + sep + cmd@, state) by {
                assert(reads_unrecorded(mid2, s1, sep, s2));
                lemma_unrecorded_extends(mid, mid2, s0, help@, s1);
                lemma_unrecorded_concat(mid2, s0, help@, s1, sep, s2);
                lemma_unrecorded_extends(mid2, self.machine(), s0, help@ + sep, s2);
                lemma_unrecorded_concat(self.machine(), s0, help@ + sep, s2, cmd@, state);
            }
        }
        state
    }

    /// A `{name}` segment: one or more characters other than a space.
    fn add_dynamic_segment(&mut self, state: usize, s: &[char]) -> (r: usize)
        requires
            old(self).state_machine.wf(),
            state < old(self).machine().len(),
            s@.len() >= 2,
        ensures
            grows(old(self).machine(), final(self).machine()),
            final(self).handlers() == old(self).handlers(),
            r < final(self).machine().len(),
            forall|v: Seq<char>| v.len() > 0 && #[trigger] no_space(v) ==> reads(final(self).machine(), state, v, r),
            final(self).machine()[state as int].next.contains(r),
            final(self).machine()[r as int].next.contains(r),
            forall|c: char| c != ' ' ==> #[trigger] final(self).machine()[r as int].expected.has(c),
            !final(self).machine()[r as int].expected.has(' '),
            final(self).machine()[r as int].key == Some(s@.subrange(1, s@.len() - 1)),
            keys_kept(old(self).machine(), final(self).machine(), r),
    {
        let name = string_from(sub_chars(s, 1, s.len() - 1).as_slice());
        let mut char_set = CharacterSet::any();
        let space = vec![' '];
        char_set.remove(space.as_slice());
        proof {
            assert(space@ =~= seq![' ']);
            assert(!space@.contains('a') && !space@.contains('`')) by {
                assert(space@[0] == ' ');
            }
        }
        let r = self.add_parameter_loop(state, char_set, Some(name.as_str()));
        proof {
            assert(space@.contains(' ')) by {
                assert(space@[0] == ' ');
            }
            assert forall|c: char| c != ' ' implies #[trigger] self.machine()[r as int].expected.has(c) by {
                assert(!space@.contains(c));
            }
            assert forall|v: Seq<char>| v.len() > 0 && #[trigger] no_space(v) implies reads(self.machine(), state, v, r) by {
                assert forall|k: int| 0 <= k < v.len() implies char_set.has(#[trigger] v[k]) by {
                    assert(v[k] != ' ');
                    assert(!space@.contains(v[k]));
                }
                assert(word_in(v, char_set));
            }
        }
        r
    }

    /// A `name...` segment: the rest of the message, recorded as `name`.
    fn add_remaining_segment(&mut self, state: usize, s: &[char]) -> (r: usize)
        requires
            old(self).state_machine.wf(),
            state < old(self).machine().len(),
            s@.len() >= 3,
        ensures
            grows(old(self).machine(), final(self).machine()),
            final(self).handlers() == old(self).handlers(),
            r < final(self).machine().len(),
            forall|v: Seq<char>| #![trigger reads(final(self).machine(), state, v, r)] v.len() > 0 ==> reads(final(self).machine(), state, v, r),
            final(self).machine()[state as int].next.contains(r),
            final(self).machine()[r as int].next.contains(r),
            forall|c: char| #[trigger] final(self).machine()[r as int].expected.has(c),
            final(self).machine()[r as int].key == Some(s@.subrange(0, s@.len() - 3)),
            keys_kept(old(self).machine(), final(self).machine(), r),
    {
        let name = string_from(sub_chars(s, 0, s.len() - 3).as_slice());
        let any = CharacterSet::any();
        let r = self.add_parameter_loop(state, any, Some(name.as_str()));
        proof {
            assert forall|v: Seq<char>| v.len() > 0 implies #[trigger] reads(self.machine(), state, v, r) by {
                assert(word_in(v, any));
            }
        }
        r
    }

    /// A bare `...` segment: the rest of the message, not recorded.
    fn add_unnamed_remaining_segment(&mut self, state: usize) -> (r: usize)
        requires
            old(self).state_machine.wf(),
            state < old(self).machine().len(),
        ensures
            grows(old(self).machine(), final(self).machine()),
            final(self).handlers() == old(self).handlers(),
            r < final(self).machine().len(),
            forall|v: Seq<char>| #![trigger reads(final(self).machine(), state, v, r)] v.len() > 0 ==> reads(final(self).machine(), state, v, r),
    {
        let any = CharacterSet::any();
        let r = self.add_parameter_loop(state, any, None);
        proof {
            assert forall|v: Seq<char>| v.len() > 0 implies #[trigger] reads(self.machine(), state, v, r) by {
                assert(word_in(v, any));
            }
        }
        r
    }

    /// A segment ```` ```\nname``` ````: a fenced block with an optional
    /// language tag, whose body is recorded as `name`.
    fn add_code_segment_multi_line(&mut self, state: usize, s: &[char]) -> (r: usize)
        requires
            old(self).state_machine.wf(),
            state < old(self).machine().len(),
            s@.len() >= 7,
        ensures
            grows(old(self).machine(), final(self).machine()),
            final(self).handlers() == old(self).handlers(),
            r < final(self).machine().len(),
            forall|tag: Seq<char>, v: Seq<char>| fence_tag(tag) && v.len() > 0
                ==> reads(final(self).machine(), state, #[trigger] code_block(tag, v), r),
            exists|lambda: usize, t: usize, nl: usize, k: usize| #[trigger] fenced_block_states(
                final(self).machine(), state, lambda, t, nl, k, r, s@.subrange(4, s@.len() - 3)),
    {
        let ghost start = self.machine();
        let s0 = state;
        let name = string_from(sub_chars(s, 4, s.len() - 3).as_slice());
        let fence = vec!['`', '`', '`'];
        proof {
            assert(fence@ =~= backticks(3));
        }
        let state = self.add_literal(state, fence.as_slice());
        let lambda = state;
        let ghost m1 = self.machine();

        let mut char_set = CharacterSet::any();
        let excluded = vec!['`', ' ', '\n'];
        char_set.remove(excluded.as_slice());
        let s2 = self.state_machine.add(state, char_set);
        let ghost m2 = self.machine();
        proof { lemma_grows_trans(start, m1, m2); }
        self.state_machine.add_next_state(s2, s2);
        let ghost m3 = self.machine();
        proof { lemma_grows_trans(start, m2, m3); }

        let s3 = self.state_machine.add(s2, CharacterSet::from_char('\n'));
        let ghost m4 = self.machine();
        proof { lemma_grows_trans(start, m3, m4); }

        self.state_machine.add_next_state(lambda, s3);
        let ghost m5 = self.machine();
        proof {
            lemma_grows_trans(start, m4, m5);
            lemma_extends_trans(m2, m3, m4);
            lemma_extends_trans(m2, m4, m5);
            lemma_extends_trans(m3, m4, m5);
            lemma_extends_keeps_edge(m2, m5, lambda as int, s2);
            lemma_extends_keeps_edge(m3, m5, s2 as int, s2);
            lemma_extends_keeps_edge(m4, m5, s2 as int, s3);
            assert(crate::state_machine::kept_state(m2[s2 as int], m5[s2 as int]));
            assert(crate::state_machine::kept_state(m4[s3 as int], m5[s3 as int]));
            assert(m5[s3 as int].expected.has('\n'));
            assert(excluded@ =~= seq!['`', ' ', '\n']);
            // The tag, then the newline, leads from `lambda` to `s3`.
            assert forall|tag: Seq<char>| #[trigger] fence_tag(tag)
                implies reads(m5, lambda, tag + seq!['\n'], s3) by {
                if tag.len() == 0 {
                    lemma_reads_step(m5, lambda, '\n', s3);
                    assert(tag + seq!['\n'] =~= seq!['\n']);
                } else {
                    assert forall|k: int| 0 <= k < tag.len() implies m5[s2 as int].expected.has(#[trigger] tag[k]) by {
                        assert(tag[k] != '`' && tag[k] != ' ' && tag[k] != '\n');
                        assert(!excluded@.contains(tag[k]));
                    }
                    lemma_reads_step(m5, lambda, tag[0], s2);
                    assert forall|k: int| 0 <= k < tag.drop_first().len() implies m5[s2 as int].expected.has(#[trigger] tag.drop_first()[k]) by {
                        assert(tag.drop_first()[k] == tag[k + 1]);
                    }
                    lemma_reads_loop(m5, s2, tag.drop_first());
                    lemma_reads_concat(m5, lambda, seq![tag[0]], s2, tag.drop_first(), s2);
                    assert(seq![tag[0]] + tag.drop_first() =~= tag);
                    lemma_reads_step(m5, s2, '\n', s3);
                    lemma_reads_concat(m5, lambda, tag, s2, seq!['\n'], s3);
                }
            }
        }

        let any = CharacterSet::any();
        let s4 = self.add_parameter_loop(s3, any, Some(name.as_str()));
        let ghost m6 = self.machine();
        proof { lemma_grows_trans(start, m5, m6); }

        let state = self.add_literal(s4, fence.as_slice());
        proof {
            let m7 = self.machine();
            lemma_grows_trans(start, m6, m7);
            lemma_extends_trans(m5, m6, m7);
            lemma_extends_trans(m1, m2, m3);
            lemma_extends_trans(m1, m3, m5);
            lemma_extends_trans(m1, m5, m7);
            lemma_reads_extends(m1, m7, s0, backticks(3), lambda);
            assert forall|tag: Seq<char>, v: Seq<char>| fence_tag(tag) && v.len() > 0
                implies reads(m7, s0, #[trigger] code_block(tag, v), state) by {
                assert(reads(m5, lambda, tag + seq!['\n'], s3));
                lemma_reads_extends(m5, m7, lambda, tag + seq!['\n'], s3);
                assert(word_in(v, any));
                assert(reads(m6, s3, v, s4));
                lemma_reads_extends(m6, m7, s3, v, s4);
                lemma_reads_concat(m7, s0, backticks(3), lambda, tag + seq!['\n'], s3);
                lemma_reads_concat(m7, s0, backticks(3) + (tag + seq!['\n']), s3, v, s4);
                lemma_reads_concat(m7, s0, backticks(3) + (tag + seq!['\n']) + v, s4, backticks(3), state);
                assert(backticks(3) + (tag + seq!['\n']) + v + backticks(3) =~= code_block(tag, v));
            }
            let other: usize = if s4 == 0 { 1 } else { 0 };
            assert(keys_kept(m6, m7, other));
            assert(m7[s4 as int].key == m6[s4 as int].key);
            lemma_fenced_block_kept(m1, m5, m6, m7, s0, lambda, s2, s3, s4, state, name@, excluded@);
            assert(name@ =~= s@.subrange(4, s@.len() - 3));
        }
        state
    }

    /// A segment quoted with `n_backticks` backticks, whose body is recorded.
    fn add_code_segment_single_line(&mut self, state: usize, s: &[char], n_backticks: usize) -> (r: usize)
        requires
            old(self).state_machine.wf(),
            state < old(self).machine().len(),
            n_backticks == 1 || n_backticks == 3,
            s@.len() >= 2 * n_backticks,
        ensures
            grows(old(self).machine(), final(self).machine()),
            final(self).handlers() == old(self).handlers(),
            r < final(self).machine().len(),
            forall|v: Seq<char>| v.len() > 0
                ==> reads(final(self).machine(), state, #[trigger] quoted_code(n_backticks as nat, v), r),
    {
        let ghost start = self.machine();
        let s0 = state;
        let name = string_from(sub_chars(s, n_backticks, s.len() - n_backticks).as_slice());
        let fence = if n_backticks == 3 { vec!['`', '`', '`'] } else { vec!['`'] };
        proof {
            assert(fence@ =~= backticks(n_backticks as nat));
        }
        let state = self.add_literal(state, fence.as_slice());
        let ghost s1 = state;
        let ghost m1 = self.machine();
        let any = CharacterSet::any();
        let state = self.add_parameter_loop(state, any, Some(name.as_str()));
        let ghost s2 = state;
        proof { lemma_grows_trans(start, m1, self.machine()); }
        let ghost m2 = self.machine();
        let state = self.add_literal(state, fence.as_slice());
        proof {
            let m3 = self.machine();
            lemma_grows_trans(start, m2, m3);
            lemma_extends_trans(m1, m2, m3);
            lemma_reads_extends(m1, m3, s0, fence@, s1);
            assert forall|v: Seq<char>| v.len() > 0
                implies reads(m3, s0, #[trigger] quoted_code(n_backticks as nat, v), state) by {
                assert(word_in(v, any));
                assert(reads(m2, s1, v, s2));
                lemma_reads_extends(m2, m3, s1, v, s2);
                lemma_reads_concat(m3, s0, fence@, s1, v, s2);
                lemma_reads_concat(m3, s0, fence@ + v, s2, fence@, state);
            }
        }
        state
    }

    /// An optional `name=value` argument, whose value has no space, newline
    /// or double quote.
    fn add_key_value(&mut self, name: &str, state: usize) -> (r: usize)
        requires
            old(self).state_machine.wf(),
            state < old(self).machine().len(),
            all_ascii(name@),
        ensures
            grows(old(self).machine(), final(self).machine()),
            final(self).handlers() == old(self).handlers(),
            r < final(self).machine().len(),
            forall|v: Seq<char>| v.len() > 0 && plain_value(v)
                ==> reads(final(self).machine(), state, #[trigger] kv_text(name@, v), r),
            exists|eq: usize| #[trigger] plain_item_states(final(self).machine(), state, eq, r, name@),
    {
        let ghost start = self.machine();
        let s0 = state;
        let chars = to_chars(name);
        let state = self.add_literal(state, chars.as_slice());
        let ghost s1 = state;
        let ghost m1 = self.machine();
        let state = self.state_machine.add(state, CharacterSet::from_char('='));
        let ghost s2 = state;
        let ghost m2 = self.machine();
        proof {
            lemma_grows_trans(start, m1, m2);
            lemma_reads_extends(m1, m2, s0, name@, s1);
            lemma_reads_step(m2, s1, '=', s2);
            lemma_reads_concat(m2, s0, name@, s1, seq!['='], s2);
        }
        let mut char_set = CharacterSet::any();
        let excluded = vec![' ', '\n', '"'];
        char_set.remove(excluded.as_slice());
        proof {
            assert(excluded@ =~= seq![' ', '\n', '"']);
            assert(!excluded@.contains('a') && !excluded@.contains('`')) by {
                assert(excluded@[0] == ' ' && excluded@[1] == '\n' && excluded@[2] == '"');
            }
        }
        let state = self.add_parameter_loop(state, char_set, Some(name));
        proof {
            let m3 = self.machine();
            lemma_grows_trans(start, m2, m3);
            lemma_reads_extends(m2, m3, s0, name@ + seq!['='], s2);
            assert(excluded@ =~= seq![' ', '\n', '"']);
            assert forall|v: Seq<char>| v.len() > 0 && plain_value(v)
                implies reads(m3, s0, #[trigger] kv_text(name@, v), state) by {
                assert forall|k: int| 0 <= k < v.len() implies char_set.has(#[trigger] v[k]) by {
                    assert(v[k] != ' ' && v[k] != '\n' && v[k] != '"');
                    assert(!excluded@.contains(v[k]));
                }
                assert(word_in(v, char_set));
                lemma_reads_concat(m3, s0, name@ + seq!['='], s2, v, state);
            }
            assert forall|c: char| #[trigger] m3[state as int].expected.has(c) == plain_value(seq![c]) by {
                assert(seq![c][0] == c);
                assert(excluded@[0] == ' ' && excluded@[1] == '\n' && excluded@[2] == '"');
                if c == ' ' || c == '\n' || c == '"' {
                    assert(excluded@.contains(c));
                    assert(!plain_value(seq![c]));
                } else {
                    assert(!excluded@.contains(c));
                    assert(plain_value(seq![c]));
                }
            }
            assert(plain_item_states(m3, s0, s2, state, name@));
        }
        state
    }

    /// An optional `name="value"` argument, whose value has no double quote.
    fn add_quoted_key_value(&mut self, name: &str, state: usize) -> (r: usize)
        requires
            old(self).state_machine.wf(),
            state < old(self).machine().len(),
            all_ascii(name@),
        ensures
            grows(old(self).machine(), final(self).machine()),
            final(self).handlers() == old(self).handlers(),
            r < final(self).machine().len(),
            forall|v: Seq<char>| v.len() > 0 && quoted_value(v)
                ==> reads(final(self).machine(), state, #[trigger] quoted_kv_text(name@, v), r),
            exists|open: usize, v: usize| #[trigger] quoted_item_states(final(self).machine(), state, open, v, r, name@),
    {
        let ghost start = self.machine();
        let s0 = state;
        let chars = to_chars(name);
        let state = self.add_literal(state, chars.as_slice());
        let ghost s1 = state;
        let ghost m1 = self.machine();
        let state = self.state_machine.add(state, CharacterSet::from_char('='));
        let ghost s2 = state;
        let ghost m2 = self.machine();
        proof { lemma_grows_trans(start, m1, m2); }
        let state = self.state_machine.add(state, CharacterSet::from_char('"'));
        let ghost s3 = state;
        let ghost m3 = self.machine();
        proof {
            lemma_grows_trans(start, m2, m3);
            lemma_extends_trans(m1, m2, m3);
            lemma_reads_extends(m1, m3, s0, name@, s1);
            lemma_extends_keeps_edge(m2, m3, s1 as int, s2);
            assert(crate::state_machine::kept_state(m2[s2 as int], m3[s2 as int]));
            lemma_reads_step(m3, s1, '=', s2);
            lemma_reads_step(m3, s2, '"', s3);
            lemma_reads_concat(m3, s0, name@, s1, seq!['='], s2);
            lemma_reads_concat(m3, s0, name@ + seq!['='], s2, seq!['"'], s3);
            assert(name@ + seq!['='] + seq!['"'] =~= name@ + seq!['=', '"']);
        }
        let mut char_set = CharacterSet::any();
        let excluded = vec!['"'];
        char_set.remove(excluded.as_slice());
        proof {
            assert(excluded@ =~= seq!['"']);
            assert(!excluded@.contains('a') && !excluded@.contains('`')) by {
                assert(excluded@[0] == '"');
            }
        }
        let state = self.add_parameter_loop(state, char_set, Some(name));
        let ghost s4 = state;
        let ghost m4 = self.machine();
        proof { lemma_grows_trans(start, m3, m4); }
        let state = self.state_machine.add(state, CharacterSet::from_char('"'));
        assert(forall|s: int| 0 <= s < m4.len() ==> #[trigger] self.machine()[s].key == m4[s].key);
        proof {
            let m5 = self.machine();
            lemma_grows_trans(start, m4, m5);
            lemma_extends_trans(m3, m4, m5);
            lemma_reads_extends(m3, m5, s0, name@ + seq!['=', '"'], s3);
            lemma_reads_step(m5, s4, '"', state);
            assert(excluded@ =~= seq!['"']);
            assert forall|v: Seq<char>| v.len() > 0 && quoted_value(v)
                implies reads(m5, s0, #[trigger] quoted_kv_text(name@, v), state) by {
                assert forall|k: int| 0 <= k < v.len() implies char_set.has(#[trigger] v[k]) by {
                    assert(v[k] != '"');
                    assert(!excluded@.contains(v[k]));
                }
                assert(word_in(v, char_set));
                assert(reads(m4, s3, v, s4));
                lemma_reads_extends(m4, m5, s3, v, s4);
                lemma_reads_concat(m5, s0, name@ + seq!['=', '"'], s3, v, s4);
                lemma_reads_concat(m5, s0, name@ + seq!['=', '"'] + v, s4, seq!['"'], state);
            }
            lemma_extends_keeps_edge(m4, m5, s3 as int, s4);
            lemma_extends_keeps_edge(m4, m5, s4 as int, s4);
            assert(crate::state_machine::kept_state(m4[s4 as int], m5[s4 as int]));
            assert forall|c: char| #[trigger] m5[s4 as int].expected.has(c) == quoted_value(seq![c]) by {
                assert(seq![c][0] == c);
                assert(m4[s4 as int].expected.has(c) == char_set.has(c));
                if c == '"' {
                    assert(excluded@.contains(c));
                } else {
                    assert(!excluded@.contains(c));
                }
            }
            assert(quoted_item_states(m5, s0, s3, s4, state, name@));
        }
        state
    }

    /// Compiles the pattern `input` and maps its final states to `command`.
    ///
    /// A pattern is a list of segments separated by spaces: a literal word;
    /// `{name}`, a word recorded as `name`; `name...`, the rest of the message
    /// recorded as `name`; `...`, any rest of the message; `name={}`, an
    /// optional argument `name=value` or `name="value"`; or a code block
    /// quoted with one or three backticks, or fenced with ```` ```\n````.
    #[verifier::rlimit(100)]
    #[verifier::spinoff_prover]
    fn add(&mut self, input: &str, command: H)
        requires
            old(self).wf(),
            pattern_ok(input@),
        ensures
            final(self).wf(),
            extends(old(self).machine(), final(self).machine()),
            forall|s: int|
                0 <= s < final(self).machine().len() && #[trigger] final(self).machine()[s].is_final
                    && !(s < old(self).machine().len() && old(self).machine()[s].is_final)
                    ==> final(self).handlers()[s as usize] == command,
            forall|k: usize| #[trigger] final(self).handlers().contains_key(k) ==>
                (old(self).handlers().contains_key(k) && final(self).handlers()[k] == old(self).handlers()[k])
                    || final(self).handlers()[k] == command,
            forall|k: usize| #[trigger] old(self).handlers().contains_key(k) ==> final(self).handlers().contains_key(k),
            plain_prefix(words(input@), words(input@).len() as int) ==> exists|r: usize|
                (r as int) < final(self).machine().len() && #[trigger] final(self).machine()[r as int].is_final
                    && final(self).handlers()[r] == command
                    && forall|vs: Seq<Seq<char>>, seps: Seq<Seq<char>>|
                        #![trigger stands_all(words(input@), vs, words(input@).len() as int), join_sep(vs, seps)]
                        stands_all(words(input@), vs, words(input@).len() as int) && seps_ok(seps, words(input@).len() as int)
                        ==> reads(final(self).machine(), 0, join_sep(vs, seps), r),
            recognises_options(final(self).machine(), final(self).handlers(), words(input@), command),
            recognises_rest(final(self).machine(), final(self).handlers(), words(input@), command),
            records_param(final(self).machine(), final(self).handlers(), words(input@), command),
            records_two_params(final(self).machine(), final(self).handlers(), words(input@), command),
            simple_prefix(words(input@), words(input@).len() as int) && words(input@).len() >= 1
                ==> exists|r: usize| #[trigger] plain_end(old(self).handlers(), final(self).machine(),
                    final(self).handlers(), words(input@), r, command),
    {
        let ghost start = self.machine();
        let ghost old_map = self.handlers();
        let chars = to_chars(input);
        let segments = split_words(chars.as_slice());
        proof {
            lemma_extends_refl(start);
            lemma_words_ascii(input@);
            lemma_reads_empty(start, 0);
            assert forall|vs: Seq<Seq<char>>, seps: Seq<Seq<char>>|
                #![trigger stands_all(words(input@), vs, 0), join_sep(vs, seps)]
                stands_all(words(input@), vs, 0) && seps_ok(seps, 0)
                implies reads(start, 0, join_sep(vs, seps), 0) by {
                assert(vs =~= Seq::<Seq<char>>::empty());
            }
            lemma_prefix_reaches_intro(start, words(input@), 0, 0);
            lemma_literal_reaches_start(start, words(input@));
            reveal(param_inv);
        }
        let mut state: usize = 0;
        let mut reused_space_state: Option<usize> = None;
        let mut opt_final_states: Vec<usize> = Vec::new();
        let mut i: usize = 0;
        let ghost mut g: int = 0;
        let ghost mut dots_state: usize = 0;
        proof {
            reveal(add_inv);
            lemma_words_ascii(input@);
        }
        while i < segments.len()
            invariant
                seqs_view(segments@) == words(input@),
                add_inv(start, old_map, self.machine(), self.handlers(), command, input@, i as int, state,
                    reused_space_state, opt_final_states@, g, dots_state),
            decreases segments@.len() - i,
        {
            proof {
                reveal(add_inv);
                assert(segments@[i as int]@ == words(input@)[i as int]);
            }
            let (st, reused, Ghost(g2), Ghost(d2)) = self.add_segment(&segments[i], i, state, reused_space_state,
                &mut opt_final_states, command, Ghost(start), Ghost(old_map), Ghost(input@), Ghost(g), Ghost(dots_state));
            state = st;
            reused_space_state = reused;
            proof {
                g = g2;
                dots_state = d2;
            }
            i = i + 1;
        }
        proof {
            reveal(add_inv);
        }
        if reused_space_state.is_some() {
            let ghost m_pre = self.machine();
            proof { lemma_extends_refl(m_pre); }
            let mut j: usize = 0;
            while j < opt_final_states.len()
                invariant
                    table_inv(start, old_map, self.machine(), self.handlers(), command),
                    0 <= j <= opt_final_states@.len(),
                    forall|x: int| 0 <= x < opt_final_states@.len() ==>
                        (#[trigger] opt_final_states@[x] as int) < self.machine().len(),
                    extends(m_pre, self.machine()),
                    forall|x: int| 0 <= x < j ==> self.machine()[#[trigger] opt_final_states@[x] as int].is_final
                        && self.handlers()[opt_final_states@[x]] == command,
                decreases opt_final_states@.len() - j,
            {
                let st = opt_final_states[j];
                let ghost m1 = self.machine();
                let ghost map1 = self.handlers();
                self.state_machine.set_final_state(st);
                self.command_map.insert(st, command);
                proof {
                    lemma_table_inv_finalize(start, old_map, m1, map1, command, st);
                    lemma_extends_trans(m_pre, m1, self.machine());
                    assert forall|x: int| 0 <= x < j + 1 implies self.machine()[#[trigger] opt_final_states@[x] as int].is_final
                        && self.handlers()[opt_final_states@[x]] == command by {
                        if opt_final_states@[x] != st {
                            assert(m1[opt_final_states@[x] as int].is_final);
                        }
                    }
                }
                j = j + 1;
            }
            proof {
                lemma_group_final(m_pre, self.machine(), self.handlers(), opt_final_states@, reused_space_state->0,
                    words(input@), g, command);
                let ws = words(input@);
                assert(kv_name(ws[ws.len() - 1]) is Some) by {
                    reveal(group_inv);
                }
                lemma_dots_no_option();
                assert(ws.last() != seq!['.', '.', '.']);
            }
        } else {
            let ghost m1 = self.machine();
            let ghost map1 = self.handlers();
            self.state_machine.set_final_state(state);
            self.command_map.insert(state, command);
            proof {
                lemma_table_inv_finalize(start, old_map, m1, map1, command, state);
                if plain_prefix(words(input@), words(input@).len() as int) {
                    assert(extends(m1, self.machine())) by {
                        assert forall|x: int| 0 <= x < m1.len() implies #[trigger] crate::state_machine::kept_state(m1[x], self.machine()[x]) by {}
                    }
                    reveal(prefix_reaches);
                    assert forall|vs: Seq<Seq<char>>, seps: Seq<Seq<char>>|
                        #![trigger stands_all(words(input@), vs, words(input@).len() as int), join_sep(vs, seps)]
                        stands_all(words(input@), vs, words(input@).len() as int) && seps_ok(seps, words(input@).len() as int)
                        implies reads(self.machine(), 0, join_sep(vs, seps), state) by {
                        lemma_reads_extends(m1, self.machine(), 0, join_sep(vs, seps), state);
                    }
                    assert(self.machine()[state as int].is_final);
                }
                let ws = words(input@);
                if ws.len() > 0 {
                    assert(ws.last() == ws[ws.len() - 1]);
                }
                lemma_no_group(self.machine(), self.handlers(), ws, command);
                if simple_prefix(ws, ws.len() as int) && ws.len() >= 1 {
                    lemma_simple_plain(ws, ws, ws.len() as int);
                    assert forall|j: int| 0 <= j < ws.len() implies #[trigger] ws[j] != seq!['.', '.', '.'] by {
                        assert(simple_word(ws[j]));
                        lemma_dots_not_simple();
                    }
                    assert(map1 == old_map);
                    assert(ws.last() == ws[ws.len() - 1]);
                    assert(self.machine()[state as int].expected == m1[state as int].expected);
                    assert(plain_end(old_map, self.machine(), self.handlers(), ws, state, command));
                }
                if two_param_pattern(ws) {
                    reveal(param_inv);
                    assert(ws[ws.len() - 1] == ws.last());
                    let (b1, k1, b2) = choose|b1: usize, k1: usize, b2: usize|
                        #[trigger] param2_facts(m1, ws, ws.len() as int, b1, k1, b2, state);
                    assert(self.machine()[state as int].key == m1[state as int].key);
                    assert(self.machine()[k1 as int].key == m1[k1 as int].key) by {
                        reveal(param2_facts);
                    }
                    lemma_two_param_final(m1, self.machine(), self.handlers(), ws, b1, k1, b2, state, command);
                }
                if one_param_pattern(ws) {
                    reveal(param_inv);
                    assert(ws.len() - 1 >= 0 && ws[ws.len() - 1] == ws.last());
                    let b = choose|b: usize| #[trigger] param_facts(m1, ws, ws.len() as int, b, state);
                    assert(self.machine()[state as int].key == m1[state as int].key);
                    lemma_param_final(m1, self.machine(), self.handlers(), ws, b, state, command);
                }
                if ws.len() >= 1 && ws.last() == seq!['.', '.', '.'] && plain_prefix(ws, ws.len() - 1) {
                    assert(extends(m1, self.machine())) by {
                        assert forall|x: int| 0 <= x < m1.len() implies #[trigger] crate::state_machine::kept_state(m1[x], self.machine()[x]) by {}
                    }
                    lemma_rest_end(m1, self.machine(), map1, self.handlers(), ws, dots_state, state, command);
                }
            }
        }
        proof {
            if plain_prefix(words(input@), words(input@).len() as int) {
                assert(reused_space_state is None);
            }
        }
    }

    /// Compiles segment `i` of the pattern `input`: the step of
    /// [`Table::add`], which keeps [`add_inv`].
    #[verifier::rlimit(100)]
    #[verifier::spinoff_prover]
    fn add_segment(
        &mut self,
        segment: &Vec<char>,
        i: usize,
        state: usize,
        reused_space_state: Option<usize>,
        opt_final_states: &mut Vec<usize>,
        command: H,
        Ghost(start): Ghost<Seq<StateView>>,
        Ghost(old_map): Ghost<Map<usize, H>>,
        Ghost(input): Ghost<Seq<char>>,
        Ghost(g): Ghost<int>,
        Ghost(dots_state): Ghost<usize>,
    ) -> (r: (usize, Option<usize>, Ghost<int>, Ghost<usize>))
        requires
            add_inv(start, old_map, old(self).machine(), old(self).handlers(), command, input, i as int, state,
                reused_space_state, old(opt_final_states)@, g, dots_state),
            (i as int) < words(input).len(),
            segment@ == words(input)[i as int],
        ensures
            add_inv(start, old_map, final(self).machine(), final(self).handlers(), command, input, i + 1, r.0,
                r.1, final(opt_final_states)@, r.2@, r.3@),
    {
        proof {
            reveal(add_inv);
        }
        let ghost mut g = g;
        let ghost mut dots_state = dots_state;
        let mut state = state;
        let mut reused_space_state = reused_space_state;
        let ghost ws = words(input);
        let ghost m_before = self.machine();
        let ghost state_before = state;
                proof {
            assert(segment@ == words(input)[i as int]);
            assert(segment_ok(segment@));
            assert(all_ascii(segment@));
        }
        let seg_text = string_from(segment.as_slice());
        match key_value_pair(seg_text.as_str()) {
            Some(name) => {
                proof {
                    assert forall|k: int| 0 <= k < name@.len() implies #[trigger] is_ascii_char(name@[k]) by {
                        assert(name@[k] == segment@[k]);
                    }
                    assert(!literal_word(ws[i as int]));
                    assert(!simple_word(ws[i as int]));
                    assert(!simple_prefix(ws, i + 1));
                    assert(!code_word(ws[i as int]));
                    assert(!plain_prefix(ws, i + 1));
                }
                let ghost was = reused_space_state;
                let ghost opt_old = opt_final_states@;
                proof {
                    if was is None {
                        g = i as int;
                    }
                    assert(seg_text@ == ws[i as int]);
                    assert(kv_name(ws[i as int]) == Some(name@));
                }
                let (st, lambda) = self.add_option_segment(name, state, reused_space_state, i, opt_final_states, command, Ghost(start), Ghost(old_map));
                proof {
                    lemma_dots_no_option();
                    assert(ws[i as int] != seq!['.', '.', '.']);
                    let opt = opt_final_states@;
                    if was is None {
                        assert(opt =~= seq![state_before, opt[opt.len() - 2], st]);
                    }
                    lemma_group_step(m_before, self.machine(), opt_old, opt, was, lambda, state_before,
                        opt[opt.len() - 2], st, ws, g, i as int, name@);
                    lemma_param_inv_option(self.machine(), ws, i as int, st);
                    assert(!param_word(ws[i as int]) && !rest_word(ws[i as int]));
                    assert(ends_like(self.machine(), st, ws[i + 1 - 1]));
                }
                state = st;
                reused_space_state = Some(lambda);
            },
            None => {
                reused_space_state = None;
                opt_final_states.truncate(0);
                state = self.add_plain_segment(state, segment, i, command, Ghost(start), Ghost(old_map));
                proof {
                    lemma_param_inv_step(m_before, self.machine(), ws, i as int, state_before, state);
                    assert(ends_like(self.machine(), state, ws[i + 1 - 1]));
                    lemma_plain_step(m_before, self.machine(), ws, i as int, state_before, state);
                    if ws[i as int] == seq!['.', '.', '.'] {
                        dots_state = state_before;
                        lemma_dots_step(m_before, self.machine(), self.handlers(), ws, i as int, state_before, state, command);
                    }
                }
            },
        }
        proof {
            reveal(add_inv);
        }
        (state, reused_space_state, Ghost(g), Ghost(dots_state))
    }

    /// Registers `command` as the answer to `?help` followed by `cmd`
    /// without its first character (`?tags` gives `?help tags`).  The
    /// description is not used.
    fn help(&mut self, cmd: &str, desc: &str, command: H)
        requires
            old(self).wf(),
            cmd@.len() >= 1,
            all_ascii(cmd@),
        ensures
            final(self).wf(),
            extends(old(self).machine(), final(self).machine()),
            forall|sep: Seq<char>| #[trigger] blank_run(sep) ==> exists|p: Seq<usize>|
                #[trigger] is_accepting_run(final(self).machine(), help_text(cmd@, sep), p)
                    && final(self).handlers()[p.last()] == command
                    && params_of_run(final(self).machine(), help_text(cmd@, sep), p, Seq::empty(), help_text(cmd@, sep).len() as int),
            exists|r: usize|
                (r as int) < final(self).machine().len()
                    && #[trigger] final(self).machine()[r as int].is_final
                    && final(self).handlers() == old(self).handlers().insert(r, command)
                    && reads(final(self).machine(), 0, help_message(cmd@), r)
                    && (forall|sep: Seq<char>| #[trigger] blank_run(sep)
                        ==> reads(final(self).machine(), 0, help_text(cmd@, sep), r))
                    && forall|s: int| 0 <= s < final(self).machine().len() && s != r
                        ==> (final(self).machine()[s].is_final <==> (s < old(self).machine().len() && old(self).machine()[s].is_final)),
            cmd@.len() >= 2 ==> exists|r: usize| #[trigger] help_end(old(self).handlers(), final(self).machine(),
                final(self).handlers(), cmd@, r, command),
    {
        let ghost start = self.machine();
        let ghost old_map = self.handlers();
        let chars = to_chars(cmd);
        let base_cmd = sub_chars(chars.as_slice(), 1, chars.len());
        proof {
            assert forall|k: int| 0 <= k < base_cmd@.len() implies #[trigger] is_ascii_char(base_cmd@[k]) by {
                assert(base_cmd@[k] == cmd@[k + 1]);
            }
        }
        let state = self.add_help_menu(base_cmd.as_slice(), 0);
        let ghost m1 = self.machine();
        self.state_machine.set_final_state(state);
        self.command_map.insert(state, command);
        proof {
            lemma_extends_trans(start, m1, self.machine());
            assert(self.handlers() == old_map.insert(state, command));
            assert forall|s: int| 0 <= s < self.machine().len() && s != state
                implies (self.machine()[s].is_final <==> (s < start.len() && start[s].is_final)) by {
                assert(self.machine()[s] == m1[s]);
                if m1[s].is_final {
                    assert(s < start.len() && start[s].is_final);
                }
                if s < start.len() && start[s].is_final {
                    assert(crate::state_machine::kept_state(start[s], m1[s]));
                }
            }
            assert forall|s: int| 0 <= s < self.machine().len() && #[trigger] self.machine()[s].is_final
                implies self.handlers().contains_key(s as usize) by {
                if s != state {
                    assert(m1[s].is_final);
                }
            }
            assert(self.machine()[state as int].is_final);
            assert(base_cmd@ =~= cmd@.drop_first());
            lemma_reads_extends(m1, self.machine(), 0, help_message(cmd@), state);
            assert forall|sep: Seq<char>| #[trigger] blank_run(sep)
                implies reads(self.machine(), 0, help_text(cmd@, sep), state) by {
                assert(reads(m1, 0, seq!['?', 'h', 'e', 'l', 'p'] + sep + base_cmd@, state));
                lemma_reads_extends(m1, self.machine(), 0, help_text(cmd@, sep), state);
            }
            assert forall|sep: Seq<char>| #[trigger] blank_run(sep) implies exists|p: Seq<usize>|
                #[trigger] is_accepting_run(self.machine(), help_text(cmd@, sep), p)
                    && self.handlers()[p.last()] == command
                    && params_of_run(self.machine(), help_text(cmd@, sep), p, Seq::empty(), help_text(cmd@, sep).len() as int) by {
                assert(reads_unrecorded(m1, 0, seq!['?', 'h', 'e', 'l', 'p'] + sep + base_cmd@, state));
                lemma_unrecorded_extends(m1, self.machine(), 0, help_text(cmd@, sep), state);
                lemma_unrecorded_run(self.machine(), help_text(cmd@, sep), state);
            }
            if cmd@.len() >= 2 {
                assert(base_cmd@.len() > 0);
                assert(base_cmd@.last() == cmd@.last());
                assert(self.machine()[state as int].expected == m1[state as int].expected);
                assert(help_end(old_map, self.machine(), self.handlers(), cmd@, state, command));
            }
            assert((state as int) < self.machine().len()
                && self.machine()[state as int].is_final
                && self.handlers() == old_map.insert(state, command)
                && reads(self.machine(), 0, help_message(cmd@), state)
                && (forall|sep: Seq<char>| #[trigger] blank_run(sep)
                    ==> reads(self.machine(), 0, help_text(cmd@, sep), state))
                && forall|s: int| 0 <= s < self.machine().len() && s != state
                    ==> (self.machine()[s].is_final <==> (s < start.len() && start[s].is_final)));
        }
    }

    /// What a message asks for: when `content` is not the bot's own message,
    /// starts with the prefix `?` and is recognised by the machine, the
    /// command of the final state of its first accepting run (runs are tried
    /// edge by edge, in the order the edges were added), with the parameters
    /// that run records.
    fn execute(&self, content: &str, is_own: bool) -> (r: Option<(H, Vec<(String, String)>)>)
        requires
            self.wf(),
        ensures
            r is Some <==> !is_own && has_prefix(content@, seq!['?']) && accepts(self.machine(), content@),
            r matches Some((h, params)) ==> exists|p: Seq<usize>|
                #[trigger] is_accepting_run(self.machine(), content@, p)
                    && self.handlers().contains_key(p.last())
                    && self.handlers()[p.last()] == h
                    && params_of_run(self.machine(), content@, p, params_view(params@), content@.len() as int)
                    && forall|q: Seq<usize>| #[trigger] is_accepting_run(self.machine(), content@, q)
                        ==> !earlier(self.machine(), p, q),
    {
        if is_own {
            return None;
        }
        let chars = to_chars(content);
        let prefix = vec!['?'];
        proof {
            assert(prefix@ =~= seq!['?']);
        }
        if !starts_with(chars.as_slice(), prefix.as_slice()) {
            return None;
        }
        match self.state_machine.process(content) {
            None => None,
            Some(matched) => {
                let ghost p = choose|p: Seq<usize>|
                    #[trigger] is_accepting_run(self.machine(), content@, p) && p.last() == matched.state
                        && params_of_run(self.machine(), content@, p, params_view(matched.params@), content@.len() as int)
                        && forall|q: Seq<usize>| #[trigger] is_accepting_run(self.machine(), content@, q)
                            ==> !earlier(self.machine(), p, q);
                proof {
                    assert(self.machine()[p.last() as int].is_final);
                }
                match self.command_map.get(&matched.state) {
                    Some(h) => Some((*h, matched.params)),
                    None => None,
                }
            },
        }
    }

    /// Compiles one segment other than a `name={}` option, after `state`.
    fn add_plain_segment(
        &mut self,
        state: usize,
        segment: &Vec<char>,
        i: usize,
        command: H,
        Ghost(start): Ghost<Seq<StateView>>,
        Ghost(old_map): Ghost<Map<usize, H>>,
    ) -> (r: usize)
        requires
            table_inv(start, old_map, old(self).machine(), old(self).handlers(), command),
            (state as int) < old(self).machine().len(),
            segment_ok(segment@),
            all_ascii(segment@),
            kv_name(segment@) is None,
        ensures
            table_inv(start, old_map, final(self).machine(), final(self).handlers(), command),
            (r as int) < final(self).machine().len(),
            dots_step(old(self).machine(), final(self).machine(), final(self).handlers(), state, segment@, r, command),
            plain_step(old(self).machine(), final(self).machine(), state, i as int, segment@, r),
            literal_step(old(self).machine(), final(self).machine(), state, i as int, segment@, r),
            param_step(old(self).machine(), final(self).machine(), state, i as int, segment@, r),
            segment@ != seq!['.', '.', '.'] ==> final(self).handlers() == old(self).handlers(),
            ends_like(final(self).machine(), r, segment@),
    {
        let mut state = state;
        let last_state = state;
        let ghost m0 = self.machine();
        state = self.add_space(state, i);
        let ghost after_space = state;
        let ghost m1 = self.machine();
        proof {
            lemma_table_inv_grow(start, old_map, m0, self.machine(), self.handlers(), command);
            assert forall|j: Seq<char>, sep: Seq<char>|
                #[trigger] reads(m0, 0, j, last_state) && (i == 0 ==> j.len() == 0) && (i > 0 ==> #[trigger] blank_run(sep))
                    implies reads(m1, 0, sep_prefix(j, sep, i as int), after_space) by {
                if i > 0 {
                    lemma_reads_extends(m0, m1, 0, j, last_state);
                    lemma_reads_concat(m1, 0, j, last_state, sep, after_space);
                }
            }
        }

        let multi_open = vec!['`', '`', '`', '\n'];
        let fence = vec!['`', '`', '`'];
        let tick = vec!['`'];
        let brace_open = vec!['{'];
        let brace_close = vec!['}'];
        let dots = vec!['.', '.', '.'];
        proof {
            assert(multi_open@ =~= seq!['`', '`', '`', '\n']);
            assert(fence@ =~= seq!['`', '`', '`']);
            assert(tick@ =~= seq!['`']);
            assert(brace_open@ =~= seq!['{']);
            assert(brace_close@ =~= seq!['}']);
            assert(dots@ =~= seq!['.', '.', '.']);
        }
        let ghost map1 = self.handlers();
        proof {
            if segment@ == seq!['.', '.', '.'] {
                assert(!has_prefix(segment@, seq!['`', '`', '`'])) by {
                    assert(segment@.subrange(0, 3)[0] == '.');
                }
                assert(!has_prefix(segment@, seq!['`'])) by {
                    assert(segment@.subrange(0, 1)[0] == '.');
                }
                assert(!has_prefix(segment@, seq!['{'])) by {
                    assert(segment@.subrange(0, 1)[0] == '.');
                }
                assert(has_suffix(segment@, seq!['.', '.', '.'])) by {
                    assert(segment@.subrange(0, 3) =~= seq!['.', '.', '.']);
                }
            }
        }
        if starts_with(segment.as_slice(), multi_open.as_slice()) && ends_with(segment.as_slice(), fence.as_slice()) {
            proof {
                assert(segment@[3] == '\n');
                assert(segment@.len() >= 7) by {
                    if segment@.len() < 7 {
                        assert(segment@.subrange(segment@.len() - 3, segment@.len() as int)[3 - (segment@.len() - 3)] == '`');
                    }
                }
            }
            proof {
                lemma_code_word_not_simple(segment@);
            }
            state = self.add_code_segment_multi_line(state, segment.as_slice());
            proof {
                lemma_table_inv_grow(start, old_map, m1, self.machine(), self.handlers(), command);
                assert forall|j: Seq<char>, sep: Seq<char>, v: Seq<char>|
                    #![trigger reads(m0, 0, j, last_state), stands_for(segment@, v), sep_join(j, sep, v, i as int)]
                    reads(m0, 0, j, last_state) && stands_for(segment@, v) && (i == 0 ==> j.len() == 0)
                        && (i > 0 ==> blank_run(sep))
                        implies reads(self.machine(), 0, sep_join(j, sep, v, i as int), state) by {
                    let spaced = if i > 0 { j + sep } else { j };
                    assert(reads(m1, 0, spaced, after_space));
                    lemma_reads_extends(m1, self.machine(), 0, spaced, after_space);
                    let (tag, c) = choose|tag: Seq<char>, c: Seq<char>| #![trigger code_block(tag, c)]
                        fence_tag(tag) && c.len() > 0 && v == code_block(tag, c);
                    assert(reads(self.machine(), after_space, code_block(tag, c), state));
                    lemma_reads_concat(self.machine(), 0, spaced, after_space, v, state);
                }
            }
        } else if starts_with(segment.as_slice(), fence.as_slice()) && ends_with(segment.as_slice(), fence.as_slice()) {
            proof {
                lemma_code_word_not_simple(segment@);
            }
            state = self.add_code_segment_single_line(state, segment.as_slice(), 3);
            proof {
                lemma_table_inv_grow(start, old_map, m1, self.machine(), self.handlers(), command);
                assert forall|j: Seq<char>, sep: Seq<char>, v: Seq<char>|
                    #![trigger reads(m0, 0, j, last_state), stands_for(segment@, v), sep_join(j, sep, v, i as int)]
                    reads(m0, 0, j, last_state) && stands_for(segment@, v) && (i == 0 ==> j.len() == 0)
                        && (i > 0 ==> blank_run(sep))
                        implies reads(self.machine(), 0, sep_join(j, sep, v, i as int), state) by {
                    let spaced = if i > 0 { j + sep } else { j };
                    assert(reads(m1, 0, spaced, after_space));
                    lemma_reads_extends(m1, self.machine(), 0, spaced, after_space);
                    let c = choose|c: Seq<char>| #![trigger quoted_code(3, c)] c.len() > 0 && v == quoted_code(3, c);
                    assert(reads(self.machine(), after_space, quoted_code(3, c), state));
                    lemma_reads_concat(self.machine(), 0, spaced, after_space, v, state);
                }
            }
        } else if starts_with(segment.as_slice(), tick.as_slice()) && ends_with(segment.as_slice(), tick.as_slice()) {
            proof {
                lemma_code_word_not_simple(segment@);
            }
            state = self.add_code_segment_single_line(state, segment.as_slice(), 1);
            proof {
                lemma_table_inv_grow(start, old_map, m1, self.machine(), self.handlers(), command);
                assert forall|j: Seq<char>, sep: Seq<char>, v: Seq<char>|
                    #![trigger reads(m0, 0, j, last_state), stands_for(segment@, v), sep_join(j, sep, v, i as int)]
                    reads(m0, 0, j, last_state) && stands_for(segment@, v) && (i == 0 ==> j.len() == 0)
                        && (i > 0 ==> blank_run(sep))
                        implies reads(self.machine(), 0, sep_join(j, sep, v, i as int), state) by {
                    let spaced = if i > 0 { j + sep } else { j };
                    assert(reads(m1, 0, spaced, after_space));
                    lemma_reads_extends(m1, self.machine(), 0, spaced, after_space);
                    let c = choose|c: Seq<char>| #![trigger quoted_code(1, c)] c.len() > 0 && v == quoted_code(1, c);
                    assert(reads(self.machine(), after_space, quoted_code(1, c), state));
                    lemma_reads_concat(self.machine(), 0, spaced, after_space, v, state);
                }
            }
        } else if starts_with(segment.as_slice(), brace_open.as_slice()) && ends_with(segment.as_slice(), brace_close.as_slice()) {
            proof {
                assert(segment@.len() >= 2) by {
                    if segment@.len() < 2 {
                        assert(segment@.subrange(0, 1)[0] == '{');
                        assert(segment@.subrange(segment@.len() - 1, segment@.len() as int)[0] == '}');
                    }
                }
                assert(param_word(segment@));
            }
            state = self.add_dynamic_segment(state, segment.as_slice());
            proof {
                lemma_table_inv_grow(start, old_map, m1, self.machine(), self.handlers(), command);
                assert forall|j: Seq<char>, sep: Seq<char>, v: Seq<char>|
                    #![trigger reads(m0, 0, j, last_state), stands_for(segment@, v), sep_join(j, sep, v, i as int)]
                    reads(m0, 0, j, last_state) && stands_for(segment@, v) && (i == 0 ==> j.len() == 0)
                        && (i > 0 ==> blank_run(sep))
                        implies reads(self.machine(), 0, sep_join(j, sep, v, i as int), state) by {
                    let spaced = if i > 0 { j + sep } else { j };
                    assert(reads(m1, 0, spaced, after_space));
                    lemma_reads_extends(m1, self.machine(), 0, spaced, after_space);
                    assert(no_space(v));
                    lemma_reads_concat(self.machine(), 0, spaced, after_space, v, state);
                }
                lemma_extends_trans(m0, m1, self.machine());
                assert(segment_name(segment@) == segment@.subrange(1, segment@.len() - 1));
                assert forall|v: Seq<char>, t: int| fills(segment@, v) && 0 <= t < v.len()
                    implies self.machine()[state as int].expected.has(#[trigger] v[t]) by {
                    assert(no_space(v));
                    assert(v[t] != ' ');
                }
                assert(self.machine()[after_space as int].next.contains(state));
                assert forall|sep: Seq<char>| i > 0 && #[trigger] blank_run(sep)
                        implies reads_unrecorded(self.machine(), last_state, sep, after_space) by {
                        lemma_unrecorded_extends(m1, self.machine(), last_state, sep, after_space);
                    }
                    assert(enters_param(self.machine(), last_state, i as int, after_space, state));
                assert(keys_kept(m1, self.machine(), state));
                assert(keys_kept(m0, m1, state));
                assert(keys_kept(m0, self.machine(), state));
            }
        } else if ends_with(segment.as_slice(), dots.as_slice()) {
            if segment.len() == 3 {
                proof {
                    assert(!simple_word(segment@));
                    assert(segment@ =~= segment@.subrange(segment@.len() - 3, segment@.len() as int));
                    assert(segment@ =~= seq!['.', '.', '.']);
                }
                self.state_machine.set_final_state(last_state);
                self.command_map.insert(last_state, command);
                proof {
                    lemma_table_inv_finalize(start, old_map, m1, map1, command, last_state);
                }
                let ghost m2 = self.machine();
                state = self.add_unnamed_remaining_segment(last_state);
                proof {
                    lemma_table_inv_grow(start, old_map, m2, self.machine(), self.handlers(), command);
                    assert(m2[last_state as int].is_final);
                    assert(crate::state_machine::kept_state(m2[last_state as int], self.machine()[last_state as int]));
                    lemma_extends_trans(m0, m1, m2);
                    lemma_extends_trans(m0, m2, self.machine());
                }
            } else {
                proof {
                    assert(rest_word(segment@));
                    assert(!param_word(segment@));
                }
                state = self.add_remaining_segment(state, segment.as_slice());
                proof {
                    lemma_table_inv_grow(start, old_map, m1, self.machine(), self.handlers(), command);
                    assert forall|j: Seq<char>, sep: Seq<char>, v: Seq<char>|
                        #![trigger reads(m0, 0, j, last_state), stands_for(segment@, v), sep_join(j, sep, v, i as int)]
                        reads(m0, 0, j, last_state) && stands_for(segment@, v) && (i == 0 ==> j.len() == 0)
                            && (i > 0 ==> blank_run(sep))
                            implies reads(self.machine(), 0, sep_join(j, sep, v, i as int), state) by {
                        let spaced = if i > 0 { j + sep } else { j };
                        assert(reads(m1, 0, spaced, after_space));
                        lemma_reads_extends(m1, self.machine(), 0, spaced, after_space);
                        assert(reads(self.machine(), after_space, v, state));
                        lemma_reads_concat(self.machine(), 0, spaced, after_space, v, state);
                    }
                    lemma_extends_trans(m0, m1, self.machine());
                    assert(self.machine()[after_space as int].next.contains(state));
                    assert forall|sep: Seq<char>| i > 0 && #[trigger] blank_run(sep)
                        implies reads_unrecorded(self.machine(), last_state, sep, after_space) by {
                        lemma_unrecorded_extends(m1, self.machine(), last_state, sep, after_space);
                    }
                    assert(enters_param(self.machine(), last_state, i as int, after_space, state));
                    assert(keys_kept(m1, self.machine(), state));
                    assert(keys_kept(m0, m1, state));
                    assert(keys_kept(m0, self.machine(), state));
                    assert(self.machine()[state as int].expected.has(' '));
                }
            }
        } else {
            proof {
                assert(literal_word(segment@));
                assert(!param_word(segment@));
                assert(!rest_word(segment@));
            }
            state = self.add_literal(state, segment.as_slice());
            proof {
                lemma_table_inv_grow(start, old_map, m1, self.machine(), self.handlers(), command);
                assert forall|j: Seq<char>, sep: Seq<char>, v: Seq<char>|
                    #![trigger reads(m0, 0, j, last_state), stands_for(segment@, v), sep_join(j, sep, v, i as int)]
                    reads(m0, 0, j, last_state) && stands_for(segment@, v) && (i == 0 ==> j.len() == 0)
                        && (i > 0 ==> blank_run(sep))
                        implies reads(self.machine(), 0, sep_join(j, sep, v, i as int), state) by {
                    let spaced = if i > 0 { j + sep } else { j };
                    assert(reads(m1, 0, spaced, after_space));
                    lemma_reads_extends(m1, self.machine(), 0, spaced, after_space);
                    assert(v == segment@);
                    lemma_reads_concat(self.machine(), 0, spaced, after_space, segment@, state);
                }
                lemma_extends_trans(m0, m1, self.machine());
                assert forall|j: Seq<char>, sep: Seq<char>|
                    #![trigger reads_unrecorded(m0, 0, j, last_state), sep_join(j, sep, segment@, i as int)]
                    reads_unrecorded(m0, 0, j, last_state) && (i == 0 ==> j.len() == 0) && (i > 0 ==> blank_run(sep))
                    implies reads_unrecorded(self.machine(), 0, sep_join(j, sep, segment@, i as int), state) by {
                    lemma_sep_lift(m0, m1, self.machine(), last_state, after_space, i as int, j, sep);
                    lemma_unrecorded_concat(self.machine(), 0, sep_prefix(j, sep, i as int), after_space, segment@, state);
                }
            }
        }

        proof {
            reveal(literal_step);
            reveal(param_step);
            reveal(dots_step);
            reveal(plain_step);
        }
        state
    }

    /// Compiles a `name={}` option segment.  Options that follow each other
    /// all hang off the same blank-reading state `lambda`, so they may come
    /// in any order, and every state after an option may end the message.
    ///
    /// Returns the state after `name="value"` and `lambda`: the state
    /// `reused_space_state` when there is one, else a new state that reads
    /// a blank after `state` (unless the option comes first).  The states
    /// after `name=value` and after `name="value"` lead back to `lambda` and
    /// are appended to `opt_final_states`, after `state` when there was no
    /// `lambda` yet.
    fn add_option_segment(
        &mut self,
        name: &str,
        state: usize,
        reused_space_state: Option<usize>,
        i: usize,
        opt_final_states: &mut Vec<usize>,
        command: H,
        Ghost(start): Ghost<Seq<StateView>>,
        Ghost(old_map): Ghost<Map<usize, H>>,
    ) -> (r: (usize, usize))
        requires
            table_inv(start, old_map, old(self).machine(), old(self).handlers(), command),
            (state as int) < old(self).machine().len(),
            reused_space_state matches Some(l) ==> (l as int) < old(self).machine().len(),
            forall|j: int| 0 <= j < old(opt_final_states)@.len() ==>
                (#[trigger] old(opt_final_states)@[j] as int) < old(self).machine().len(),
            all_ascii(name@),
        ensures
            table_inv(start, old_map, final(self).machine(), final(self).handlers(), command),
            (r.0 as int) < final(self).machine().len(),
            (r.1 as int) < final(self).machine().len(),
            forall|j: int| 0 <= j < final(opt_final_states)@.len() ==>
                (#[trigger] final(opt_final_states)@[j] as int) < final(self).machine().len(),
            final(self).handlers() == old(self).handlers(),
            reused_space_state matches Some(l) ==> r.1 == l,
            reused_space_state is None && i == 0 ==> r.1 == state,
            reused_space_state is None && i > 0 ==> reads(final(self).machine(), state, seq![' '], r.1),
            extends(old(self).machine(), final(self).machine()),
            reused_space_state is None && i > 0 ==> blank_loop(final(self).machine(), r.1),
            reused_space_state is None && i > 0 ==> forall|sep: Seq<char>| #[trigger] blank_run(sep)
                ==> reads(final(self).machine(), state, sep, r.1),
            final(self).machine()[r.0 as int].next.contains(r.1),
            forall|v: Seq<char>| v.len() > 0 && quoted_value(v)
                ==> reads(final(self).machine(), r.1, #[trigger] quoted_kv_text(name@, v), r.0),
            final(opt_final_states)@ == (if reused_space_state is None {
                old(opt_final_states)@.push(state)
            } else {
                old(opt_final_states)@
            }).push(final(opt_final_states)@[final(opt_final_states)@.len() - 2]).push(r.0),
            final(self).machine()[final(opt_final_states)@[final(opt_final_states)@.len() - 2] as int].next.contains(r.1),
            forall|v: Seq<char>| v.len() > 0 && plain_value(v)
                ==> reads(final(self).machine(), r.1, #[trigger] kv_text(name@, v),
                    final(opt_final_states)@[final(opt_final_states)@.len() - 2]),
    {
        let ghost s0 = state;
        let ghost opt0 = opt_final_states@;
        let ghost m_start = self.machine();
        proof { lemma_extends_refl(m_start); }
        let mut state = state;
        let lambda = match reused_space_state {
            Some(lambda) => lambda,
            None => {
                opt_final_states.push(state);
                let ghost m0 = self.machine();
                state = self.add_space(state, i);
                proof { lemma_table_inv_grow(start, old_map, m0, self.machine(), self.handlers(), command); }
                state
            },
        };
        let ghost opt1 = opt_final_states@;
        let ghost m1 = self.machine();
        state = self.add_key_value(name, lambda);
        let ghost kv = state;
        proof { lemma_table_inv_grow(start, old_map, m1, self.machine(), self.handlers(), command); }
        let ghost m2 = self.machine();
        self.state_machine.add_next_state(state, lambda);
        proof { lemma_table_inv_grow(start, old_map, m2, self.machine(), self.handlers(), command); }
        opt_final_states.push(state);

        let ghost m3 = self.machine();
        state = self.add_quoted_key_value(name, lambda);
        proof { lemma_table_inv_grow(start, old_map, m3, self.machine(), self.handlers(), command); }
        let ghost m4 = self.machine();
        self.state_machine.add_next_state(state, lambda);
        proof {
            let m5 = self.machine();
            lemma_table_inv_grow(start, old_map, m4, self.machine(), self.handlers(), command);
            lemma_extends_trans(m1, m2, m3);
            lemma_extends_trans(m1, m3, m4);
            lemma_extends_trans(m1, m4, m5);
            lemma_extends_trans(m2, m3, m4);
            lemma_extends_trans(m2, m4, m5);
            lemma_extends_trans(m3, m4, m5);
            if reused_space_state is None && i > 0 {
                lemma_reads_extends(m1, m5, s0, seq![' '], lambda);
                assert forall|sep: Seq<char>| #[trigger] blank_run(sep) implies reads(m5, s0, sep, lambda) by {
                    lemma_reads_extends(m1, m5, s0, sep, lambda);
                }
                lemma_extends_keeps_edge(m1, m5, lambda as int, lambda);
                assert(crate::state_machine::kept_state(m1[lambda as int], m5[lambda as int]));
            }
            lemma_extends_trans(m_start, m1, m5);
            lemma_extends_keeps_edge(m3, m5, kv as int, lambda);
            assert forall|v: Seq<char>| v.len() > 0 && plain_value(v)
                implies reads(m5, lambda, #[trigger] kv_text(name@, v), kv) by {
                assert(reads(m2, lambda, kv_text(name@, v), kv));
                lemma_reads_extends(m2, m5, lambda, kv_text(name@, v), kv);
            }
            assert forall|v: Seq<char>| v.len() > 0 && quoted_value(v)
                implies reads(m5, lambda, #[trigger] quoted_kv_text(name@, v), state) by {
                assert(reads(m4, lambda, quoted_kv_text(name@, v), state));
                lemma_reads_extends(m4, m5, lambda, quoted_kv_text(name@, v), state);
            }
        }
        opt_final_states.push(state);
        proof {
            assert(opt1 == (if reused_space_state is None { opt0.push(s0) } else { opt0 }));
            assert(opt_final_states@ == opt1.push(kv).push(state));
            assert(self.machine()[kv as int].next.contains(lambda));
            assert(forall|v: Seq<char>| v.len() > 0 && plain_value(v)
                ==> reads(self.machine(), lambda, #[trigger] kv_text(name@, v), kv));
            assert(opt_final_states@ == (if reused_space_state is None {
                opt0.push(s0)
            } else {
                opt0
            }).push(kv).push(state));
        }
        (state, lambda)
    }
}

/// The registered commands and the machine that recognises them.  Every
/// final state of the machine has a command.
pub struct Commands<H: Copy> {
    table: Table<H>,
}

impl<H: Copy> Commands<H> {
    /// Every final state of the machine has a command.
    #[verifier::type_invariant]
    spec fn well_formed(&self) -> bool {
        self.table.wf()
    }

    /// The recognising machine.
    pub closed spec fn machine(&self) -> Seq<StateView> {
        self.table.machine()
    }

    /// The command of each final state.
    pub closed spec fn handlers(&self) -> Map<usize, H> {
        self.table.handlers()
    }

    /// No command yet: the machine has only its start state, which is not
    /// final.
    pub fn new() -> (r: Self)
        ensures
            r.machine().len() == 1,
            forall|s: int| 0 <= s < r.machine().len() && #[trigger] r.machine()[s].is_final
                ==> r.handlers().contains_key(s as usize),
            !r.machine()[0].is_final,
            r.handlers() == Map::<usize, H>::empty(),
    {
        Commands { table: Table::new() }
    }

    /// Compiles the pattern `input` and maps its final states to `command`.
    ///
    /// A pattern is a list of segments separated by spaces: a literal word;
    /// `{name}`, a word recorded as `name`; `name...`, the rest of the message
    /// recorded as `name`; `...`, any rest of the message; `name={}`, an
    /// optional argument `name=value` or `name="value"`; or a code block
    /// quoted with one or three backticks, or fenced with ```` ```\n````.
    /// States already reached by the same characters from the same state are
    /// shared, so a final state may already have a command, which `command`
    /// then replaces.
    ///
    /// What the table then recognises with `command`: a message made of the
    /// segments in order, separated by runs of spaces and newlines, where a
    /// literal stands for itself, `{name}` for a word without spaces,
    /// `name...` for any non-empty rest and a code segment for non-empty code
    /// in its backticks; and, when the pattern ends in a group of options
    /// after such segments, any number of `name=value` or `name="value"`
    /// items of that group, in any order, each after a run of blanks; and,
    /// when it ends in a bare `...` after such segments, their message
    /// followed by any text or none.  For a pattern of literal words and
    /// then one `{name}` or `name...`, each such message has an accepting run
    /// into a final state with `command` that records exactly one parameter:
    /// the text standing for the last segment, under its name; for literal
    /// words, a `{name}` and a `name...` under another name, such a run
    /// records exactly the two texts, each under its segment's name.  Every
    /// final state keeps a command.
    pub fn add(&mut self, input: &str, command: H)
        requires
            pattern_ok(input@),
        ensures
            forall|s: int| 0 <= s < final(self).machine().len() && #[trigger] final(self).machine()[s].is_final
                ==> final(self).handlers().contains_key(s as usize),
            extends(old(self).machine(), final(self).machine()),
            forall|s: int|
                0 <= s < final(self).machine().len() && #[trigger] final(self).machine()[s].is_final
                    && !(s < old(self).machine().len() && old(self).machine()[s].is_final)
                    ==> final(self).handlers()[s as usize] == command,
            forall|k: usize| #[trigger] final(self).handlers().contains_key(k) ==>
                (old(self).handlers().contains_key(k) && final(self).handlers()[k] == old(self).handlers()[k])
                    || final(self).handlers()[k] == command,
            forall|k: usize| #[trigger] old(self).handlers().contains_key(k) ==> final(self).handlers().contains_key(k),
            plain_prefix(words(input@), words(input@).len() as int) ==> exists|r: usize|
                (r as int) < final(self).machine().len() && #[trigger] final(self).machine()[r as int].is_final
                    && final(self).handlers()[r] == command
                    && forall|vs: Seq<Seq<char>>, seps: Seq<Seq<char>>|
                        #![trigger stands_all(words(input@), vs, words(input@).len() as int), join_sep(vs, seps)]
                        stands_all(words(input@), vs, words(input@).len() as int) && seps_ok(seps, words(input@).len() as int)
                        ==> reads(final(self).machine(), 0, join_sep(vs, seps), r),
            simple_prefix(words(input@), words(input@).len() as int) ==> exists|r: usize|
                (r as int) < final(self).machine().len() && #[trigger] final(self).machine()[r as int].is_final
                    && final(self).handlers()[r] == command
                    && forall|vs: Seq<Seq<char>>, seps: Seq<Seq<char>>|
                        #![trigger fills_all(words(input@), vs, words(input@).len() as int), join_sep(vs, seps)]
                        fills_all(words(input@), vs, words(input@).len() as int) && seps_ok(seps, words(input@).len() as int)
                        ==> reads(final(self).machine(), 0, join_sep(vs, seps), r),
            simple_prefix(words(input@), words(input@).len() as int) ==> exists|r: usize|
                (r as int) < final(self).machine().len() && #[trigger] final(self).machine()[r as int].is_final
                    && final(self).handlers()[r] == command
                    && forall|vs: Seq<Seq<char>>| #[trigger] fills_all(words(input@), vs, words(input@).len() as int)
                        ==> reads(final(self).machine(), 0, join_words(vs), r),
            literal_prefix(words(input@), words(input@).len() as int) ==> exists|r: usize|
                (r as int) < final(self).machine().len() && #[trigger] final(self).machine()[r as int].is_final
                    && final(self).handlers()[r] == command
                    && reads(final(self).machine(), 0, join_words(words(input@)), r),
            recognises_options(final(self).machine(), final(self).handlers(), words(input@), command),
            recognises_rest(final(self).machine(), final(self).handlers(), words(input@), command),
            records_param(final(self).machine(), final(self).handlers(), words(input@), command),
            records_two_params(final(self).machine(), final(self).handlers(), words(input@), command),
            simple_prefix(words(input@), words(input@).len() as int) && words(input@).len() >= 1
                ==> exists|r: usize| #[trigger] message_end(old(self).handlers(), final(self).machine(),
                    final(self).handlers(), words(input@), r, command),
    {
        proof {
            use_type_invariant(&*self);
        }
        let mut table = Table::new();
        std::mem::swap(&mut self.table, &mut table);
        table.add(input, command);
        proof {
            let ws = words(input@);
            let n = ws.len() as int;
            if plain_prefix(ws, n) {
                let r = choose|r: usize|
                    (r as int) < table.machine().len() && #[trigger] table.machine()[r as int].is_final
                        && table.handlers()[r] == command
                        && forall|vs: Seq<Seq<char>>, seps: Seq<Seq<char>>|
                            #![trigger stands_all(ws, vs, n), join_sep(vs, seps)]
                            stands_all(ws, vs, n) && seps_ok(seps, n)
                            ==> reads(table.machine(), 0, join_sep(vs, seps), r);
                assert(table.machine()[r as int].is_final);
            }
            if simple_prefix(ws, n) {
                lemma_simple_plain(ws, ws, n);
                let r = choose|r: usize|
                    (r as int) < table.machine().len() && #[trigger] table.machine()[r as int].is_final
                        && table.handlers()[r] == command
                        && forall|vs: Seq<Seq<char>>, seps: Seq<Seq<char>>|
                            #![trigger stands_all(ws, vs, n), join_sep(vs, seps)]
                            stands_all(ws, vs, n) && seps_ok(seps, n)
                            ==> reads(table.machine(), 0, join_sep(vs, seps), r);
                assert(table.machine()[r as int].is_final);
                assert forall|vs: Seq<Seq<char>>, seps: Seq<Seq<char>>|
                    #![trigger fills_all(ws, vs, n), join_sep(vs, seps)]
                    fills_all(ws, vs, n) && seps_ok(seps, n)
                    implies reads(table.machine(), 0, join_sep(vs, seps), r) by {
                    lemma_simple_plain(ws, vs, n);
                    assert(stands_all(ws, vs, n));
                }
                assert forall|vs: Seq<Seq<char>>| #[trigger] fills_all(ws, vs, n)
                    implies reads(table.machine(), 0, join_words(vs), r) by {
                    lemma_join_words_sep(vs);
                    lemma_simple_plain(ws, vs, n);
                    assert(stands_all(ws, vs, n));
                    assert(reads(table.machine(), 0, join_sep(vs, single_spaces(vs.len())), r));
                }
                if literal_prefix(ws, n) {
                    lemma_literal_fills(ws);
                    assert(fills_all(ws, ws, n));
                    assert(reads(table.machine(), 0, join_words(ws), r));
                }
                if n >= 1 {
                    let e = choose|e: usize| #[trigger] plain_end(old(self).handlers(), table.machine(),
                        table.handlers(), ws, e, command);
                    assert forall|vs: Seq<Seq<char>>| #[trigger] fills_all(ws, vs, n)
                        implies reads(table.machine(), 0, join_words(vs), e) by {
                        lemma_join_words_sep(vs);
                        lemma_simple_plain(ws, vs, n);
                        assert(stands_all(ws, vs, n));
                        assert(reads(table.machine(), 0, join_sep(vs, single_spaces(vs.len())), e));
                    }
                    assert(message_end(old(self).handlers(), table.machine(), table.handlers(), ws, e, command));
                }
            }
            if literal_prefix(ws, n) {
                lemma_literal_fills(ws);
            }
        }
        self.table = table;
        proof {
            use_type_invariant(&*self);
        }
    }

    /// Registers `command` as the answer to `?help` followed by `cmd`
    /// without its first character (`?tags` gives `?help tags`); the run of
    /// such a message records no parameter.  The description is not used.
    pub fn help(&mut self, cmd: &str, desc: &str, command: H)
        requires
            cmd@.len() >= 1,
            all_ascii(cmd@),
        ensures
            forall|s: int| 0 <= s < final(self).machine().len() && #[trigger] final(self).machine()[s].is_final
                ==> final(self).handlers().contains_key(s as usize),
            extends(old(self).machine(), final(self).machine()),
            forall|sep: Seq<char>| #[trigger] blank_run(sep) ==> exists|p: Seq<usize>|
                #[trigger] is_accepting_run(final(self).machine(), help_text(cmd@, sep), p)
                    && final(self).handlers()[p.last()] == command
                    && params_of_run(final(self).machine(), help_text(cmd@, sep), p, Seq::empty(), help_text(cmd@, sep).len() as int),
            exists|r: usize|
                (r as int) < final(self).machine().len()
                    && #[trigger] final(self).machine()[r as int].is_final
                    && final(self).handlers() == old(self).handlers().insert(r, command)
                    && reads(final(self).machine(), 0, help_message(cmd@), r)
                    && (forall|sep: Seq<char>| #[trigger] blank_run(sep)
                        ==> reads(final(self).machine(), 0, help_text(cmd@, sep), r))
                    && forall|s: int| 0 <= s < final(self).machine().len() && s != r
                        ==> (final(self).machine()[s].is_final <==> (s < old(self).machine().len() && old(self).machine()[s].is_final)),
            cmd@.len() >= 2 ==> exists|r: usize| #[trigger] help_end(old(self).handlers(), final(self).machine(),
                final(self).handlers(), cmd@, r, command),
    {
        proof {
            use_type_invariant(&*self);
        }
        let ghost before = self.table;
        let mut table = Table::new();
        std::mem::swap(&mut self.table, &mut table);
        table.help(cmd, desc, command);
        proof {
            let r = choose|r: usize|
                (r as int) < table.machine().len()
                    && #[trigger] table.machine()[r as int].is_final
                    && table.handlers() == before.handlers().insert(r, command)
                    && reads(table.machine(), 0, help_message(cmd@), r)
                    && (forall|sep: Seq<char>| #[trigger] blank_run(sep)
                        ==> reads(table.machine(), 0, help_text(cmd@, sep), r))
                    && forall|s: int| 0 <= s < table.machine().len() && s != r
                        ==> (table.machine()[s].is_final <==> (s < before.machine().len() && before.machine()[s].is_final));
            assert(table.machine()[r as int].is_final);
        }
        self.table = table;
        proof {
            use_type_invariant(&*self);
        }
    }

    /// What a message asks for: when `content` is not the bot's own message,
    /// starts with the prefix `?` and is recognised by the machine, the
    /// command of the final state of its first accepting run (runs are tried
    /// edge by edge, in the order the edges were added), with the parameters
    /// that run records.
    pub fn execute(&self, content: &str, is_own: bool) -> (r: Option<(H, Vec<(String, String)>)>)
        ensures
            r is Some <==> !is_own && has_prefix(content@, seq!['?']) && accepts(self.machine(), content@),
            r matches Some((h, params)) ==> exists|p: Seq<usize>|
                #[trigger] is_accepting_run(self.machine(), content@, p)
                    && self.handlers().contains_key(p.last())
                    && self.handlers()[p.last()] == h
                    && params_of_run(self.machine(), content@, p, params_view(params@), content@.len() as int)
                    && forall|q: Seq<usize>| #[trigger] is_accepting_run(self.machine(), content@, q)
                        ==> !earlier(self.machine(), p, q),
    {
        proof {
            use_type_invariant(self);
        }
        let r = self.table.execute(content, is_own);
        proof {
            if let Some(pair) = &r {
                let h = pair.0;
                let params = &pair.1;
                let p = choose|p: Seq<usize>|
                    #[trigger] is_accepting_run(self.table.machine(), content@, p)
                        && self.table.handlers().contains_key(p.last())
                        && self.table.handlers()[p.last()] == h
                        && params_of_run(self.table.machine(), content@, p, params_view(params@), content@.len() as int)
                        && forall|q: Seq<usize>| #[trigger] is_accepting_run(self.table.machine(), content@, q)
                            ==> !earlier(self.table.machine(), p, q);
                assert(is_accepting_run(self.machine(), content@, p));
            }
        }
        r
    }
}

} // verus!
