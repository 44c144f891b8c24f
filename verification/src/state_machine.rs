//! A nondeterministic state machine over characters that recognises commands
//! and records the characters read by parameter states.
//!
//! State 0 is the start state.  A run over an input reads one character per
//! transition: moving from `s` to one of `s`'s next states `t` reads a
//! character that `t` expects.  A run is accepting when it ends in a final
//! state.  A state marked as parsing a parameter `key` records every character
//! read by a transition into it under `key`.

use vstd::prelude::*;
use crate::charset::CharacterSet;
use crate::strings::to_chars;

verus! {

/// What the matcher knows of one state.
pub ghost struct StateView {
    /// Characters that a transition into this state may read.
    pub expected: CharacterSet,
    /// States reachable in one step, in the order they were added.
    pub next: Seq<usize>,
    /// Whether a run may end here.
    pub is_final: bool,
    /// The parameter whose value this state records, if any.
    pub key: Option<Seq<char>>,
    /// Whether the recorded parameter ends with this state.
    pub ends_parse: bool,
}

/// Every state that records a parameter expects both `a` and a backtick:
/// literal characters, blanks and code-block tags are never recorded.
pub open spec fn keys_ok(m: Seq<StateView>) -> bool {
    forall|s: int| 0 <= s < m.len() ==> (#[trigger] m[s].key) is None
        || (m[s].expected.has('a') && m[s].expected.has('`'))
}

/// Whether `m` is a well-formed machine: it has a start state and every edge
/// leads to an existing state.
pub open spec fn machine_wf(m: Seq<StateView>) -> bool {
    &&& m.len() >= 1
    &&& forall|s: int, j: int|
        0 <= s < m.len() && 0 <= j < m[s].next.len() ==> (#[trigger] m[s].next[j] as int) < m.len()
}

/// Step `k` of path `p` (from `p[k]` to `p[k + 1]`) reads `input[i + k]`.
pub open spec fn step_ok(m: Seq<StateView>, input: Seq<char>, i: int, p: Seq<usize>, k: int) -> bool {
    &&& m[p[k] as int].next.contains(p[k + 1])
    &&& m[p[k + 1] as int].expected.has(input[i + k])
}

/// `p` is a path of states that reads `input` from position `i` to its end.
pub open spec fn is_path(m: Seq<StateView>, input: Seq<char>, i: int, p: Seq<usize>) -> bool {
    &&& 0 <= i <= input.len()
    &&& p.len() == input.len() - i + 1
    &&& forall|k: int| 0 <= k < p.len() ==> (#[trigger] p[k] as int) < m.len()
    &&& forall|k: int| 0 <= k < p.len() - 1 ==> #[trigger] step_ok(m, input, i, p, k)
}

/// `p` is an accepting path that reads `input` from position `i`.
pub open spec fn is_accepting_path(m: Seq<StateView>, input: Seq<char>, i: int, p: Seq<usize>) -> bool {
    &&& is_path(m, input, i, p)
    &&& m[p.last() as int].is_final
}

/// `p` is an accepting run of the whole input from the start state.
pub open spec fn is_accepting_run(m: Seq<StateView>, input: Seq<char>, p: Seq<usize>) -> bool {
    &&& is_accepting_path(m, input, 0, p)
    &&& p[0] == 0
}

/// The machine accepts `input`.
pub open spec fn accepts(m: Seq<StateView>, input: Seq<char>) -> bool {
    exists|p: Seq<usize>| #[trigger] is_accepting_run(m, input, p)
}

/// In the edge list `next`, `a` comes before any occurrence of `b`.
pub open spec fn before_in(next: Seq<usize>, a: usize, b: usize) -> bool {
    exists|j: int| 0 <= j < next.len() && next[j] == a && forall|x: int| 0 <= x <= j ==> #[trigger] next[x] != b
}

/// Path `q` comes before path `p`: they agree up to some state, and there
/// `q` takes an edge that comes before the one `p` takes.  Runs are tried in
/// this order, edges in the order they were added.
pub open spec fn earlier(m: Seq<StateView>, p: Seq<usize>, q: Seq<usize>) -> bool {
    exists|k: int|
        0 <= k < p.len() - 1 && k < q.len() - 1
            && (forall|x: int| 0 <= x <= k ==> #[trigger] p[x] == q[x])
            && #[trigger] before_in(m[p[k] as int].next, q[k + 1], p[k + 1])
}

/// The characters recorded under `key` by the first `n` steps of run `p`.
pub open spec fn captured(m: Seq<StateView>, input: Seq<char>, p: Seq<usize>, key: Seq<char>, n: int) -> Seq<char>
    decreases n,
{
    if n <= 0 {
        Seq::empty()
    } else {
        let prev = captured(m, input, p, key, n - 1);
        if m[p[n] as int].key == Some(key) {
            prev.push(input[n - 1])
        } else {
            prev
        }
    }
}

/// Whether one of the first `n` steps of run `p` enters a state recording `key`.
pub open spec fn key_seen(m: Seq<StateView>, p: Seq<usize>, key: Seq<char>, n: int) -> bool
    decreases n,
{
    if n <= 0 {
        false
    } else {
        m[p[n] as int].key == Some(key) || key_seen(m, p, key, n - 1)
    }
}

/// The view of a parameter list: pairs of name and value.
pub open spec fn params_view(params: Seq<(String, String)>) -> Seq<(Seq<char>, Seq<char>)> {
    params.map_values(|kv: (String, String)| (kv.0@, kv.1@))
}

/// `params` holds, once per name, every parameter that the first `n` steps
/// of run `p` record, each with the characters recorded under it.
pub open spec fn params_of_run(
    m: Seq<StateView>,
    input: Seq<char>,
    p: Seq<usize>,
    params: Seq<(Seq<char>, Seq<char>)>,
    n: int,
) -> bool {
    &&& forall|a: int, b: int|
        0 <= a < b < params.len() ==> #[trigger] params[a].0 != #[trigger] params[b].0
    &&& forall|a: int|
        0 <= a < params.len() ==> key_seen(m, p, #[trigger] params[a].0, n)
            && params[a].1 == captured(m, input, p, params[a].0, n)
    &&& forall|key: Seq<char>|
        #[trigger] key_seen(m, p, key, n) ==> exists|a: int| 0 <= a < params.len() && #[trigger] params[a].0 == key
}

/// Prepending a step to a path from the next position gives a path.
proof fn lemma_path_cons(m: Seq<StateView>, input: Seq<char>, i: int, s: usize, q: Seq<usize>)
    requires
        machine_wf(m),
        0 <= i < input.len(),
        (s as int) < m.len(),
        is_path(m, input, i + 1, q),
        m[s as int].next.contains(q[0]),
        m[q[0] as int].expected.has(input[i]),
    ensures
        is_path(m, input, i, seq![s] + q),
        (seq![s] + q).last() == q.last(),
{
    let p = seq![s] + q;
    assert forall|k: int| 0 <= k < p.len() - 1 implies #[trigger] step_ok(m, input, i, p, k) by {
        if k > 0 {
            assert(step_ok(m, input, i + 1, q, k - 1));
            assert(p[k] == q[k - 1] && p[k + 1] == q[k]);
        }
    }
    assert forall|k: int| 0 <= k < p.len() implies (#[trigger] p[k] as int) < m.len() by {
        if k > 0 {
            assert(p[k] == q[k - 1]);
        }
    }
}

/// Dropping the first step of a path gives a path from the next position.
proof fn lemma_path_tail(m: Seq<StateView>, input: Seq<char>, i: int, p: Seq<usize>)
    requires
        is_path(m, input, i, p),
        i < input.len(),
    ensures
        is_path(m, input, i + 1, p.drop_first()),
        p.drop_first().last() == p.last(),
        step_ok(m, input, i, p, 0),
{
    let q = p.drop_first();
    assert(step_ok(m, input, i, p, 0));
    assert forall|k: int| 0 <= k < q.len() - 1 implies #[trigger] step_ok(m, input, i + 1, q, k) by {
        assert(step_ok(m, input, i, p, k + 1));
    }
    assert forall|k: int| 0 <= k < q.len() implies (#[trigger] q[k] as int) < m.len() by {
        assert(p[k + 1] == q[k]);
    }
}

/// State `y` keeps what state `x` recognises: what it expects, its edges
/// (possibly followed by new ones), and its finality.  What it records may
/// change.
pub open spec fn kept_state(x: StateView, y: StateView) -> bool {
    &&& y.expected == x.expected
    &&& x.next.len() <= y.next.len()
    &&& forall|j: int| 0 <= j < x.next.len() ==> #[trigger] y.next[j] == x.next[j]
    &&& x.is_final ==> y.is_final
}

/// Machine `b` extends machine `a`: it keeps every state of `a` and may add
/// states, edges and final states, and change what states record.
pub open spec fn extends(a: Seq<StateView>, b: Seq<StateView>) -> bool {
    &&& a.len() <= b.len()
    &&& forall|s: int| 0 <= s < a.len() ==> #[trigger] kept_state(a[s], b[s])
}

/// Every final state of `b` is a state of `a` that was already final.
pub open spec fn no_new_finals(a: Seq<StateView>, b: Seq<StateView>) -> bool {
    forall|s: int| 0 <= s < b.len() && #[trigger] b[s].is_final ==> s < a.len() && a[s].is_final
}

/// Extending a machine keeps its edges.
pub proof fn lemma_extends_keeps_edge(a: Seq<StateView>, b: Seq<StateView>, s: int, t: usize)
    requires
        extends(a, b),
        0 <= s < a.len(),
        a[s].next.contains(t),
    ensures
        b[s].next.contains(t),
{
    assert(kept_state(a[s], b[s]));
    let j = choose|j: int| 0 <= j < a[s].next.len() && a[s].next[j] == t;
    assert(b[s].next[j] == t);
}

/// Extension is transitive.
pub proof fn lemma_extends_trans(a: Seq<StateView>, b: Seq<StateView>, c: Seq<StateView>)
    requires
        extends(a, b),
        extends(b, c),
    ensures
        extends(a, c),
        no_new_finals(a, b) && no_new_finals(b, c) ==> no_new_finals(a, c),
{
    assert forall|s: int| 0 <= s < a.len() implies #[trigger] kept_state(a[s], c[s]) by {
        assert(kept_state(a[s], b[s]));
        assert(kept_state(b[s], c[s]));
        assert forall|j: int| 0 <= j < a[s].next.len() implies #[trigger] c[s].next[j] == a[s].next[j] by {
            assert(b[s].next[j] == a[s].next[j]);
        }
    }
}

/// A machine extends itself.
pub proof fn lemma_extends_refl(a: Seq<StateView>)
    ensures
        extends(a, a),
        no_new_finals(a, a),
{
    assert forall|s: int| 0 <= s < a.len() implies #[trigger] kept_state(a[s], a[s]) by {}
}

/// Extending a machine keeps its paths, and their ends final.
pub proof fn lemma_extends_keeps_paths(a: Seq<StateView>, b: Seq<StateView>, input: Seq<char>, i: int, p: Seq<usize>)
    requires
        extends(a, b),
        is_path(a, input, i, p),
    ensures
        is_path(b, input, i, p),
        a[p.last() as int].is_final ==> b[p.last() as int].is_final,
{
    assert forall|k: int| 0 <= k < p.len() - 1 implies #[trigger] step_ok(b, input, i, p, k) by {
        assert(step_ok(a, input, i, p, k));
        let x = p[k] as int;
        let y = p[k + 1] as int;
        assert(kept_state(a[x], b[x]));
        assert(kept_state(a[y], b[y]));
        let j = choose|j: int| 0 <= j < a[x].next.len() && a[x].next[j] == p[k + 1];
        assert(b[x].next[j] == p[k + 1]);
    }
    assert(kept_state(a[p.last() as int], b[p.last() as int]));
}

/// The machine can read `w` on a path from state `from` to state `to`.
pub open spec fn reads(m: Seq<StateView>, from: usize, w: Seq<char>, to: usize) -> bool {
    exists|p: Seq<usize>| #[trigger] is_path(m, w, 0, p) && p[0] == from && p.last() == to
}

/// Every state can read the empty word, staying where it is.
pub proof fn lemma_reads_empty(m: Seq<StateView>, s: usize)
    requires
        (s as int) < m.len(),
    ensures
        reads(m, s, Seq::empty(), s),
{
    let p = seq![s];
    assert(is_path(m, Seq::empty(), 0, p));
}

/// One transition reads one character.
pub proof fn lemma_reads_step(m: Seq<StateView>, s: usize, c: char, t: usize)
    requires
        (s as int) < m.len(),
        (t as int) < m.len(),
        m[s as int].next.contains(t),
        m[t as int].expected.has(c),
    ensures
        reads(m, s, seq![c], t),
{
    let p = seq![s, t];
    assert(step_ok(m, seq![c], 0, p, 0));
    assert(is_path(m, seq![c], 0, p));
}

/// Reading `w1` and then `w2` reads `w1 + w2`.
pub proof fn lemma_reads_concat(m: Seq<StateView>, a: usize, w1: Seq<char>, b: usize, w2: Seq<char>, c: usize)
    requires
        reads(m, a, w1, b),
        reads(m, b, w2, c),
    ensures
        reads(m, a, w1 + w2, c),
{
    let p1 = choose|p: Seq<usize>| #[trigger] is_path(m, w1, 0, p) && p[0] == a && p.last() == b;
    let p2 = choose|p: Seq<usize>| #[trigger] is_path(m, w2, 0, p) && p[0] == b && p.last() == c;
    let w = w1 + w2;
    let p = p1 + p2.drop_first();
    assert forall|k: int| 0 <= k < p.len() implies (#[trigger] p[k] as int) < m.len() by {
        if k < p1.len() {
            assert(p[k] == p1[k]);
        } else {
            assert(p[k] == p2[k - p1.len() + 1]);
        }
    }
    assert forall|k: int| 0 <= k < p.len() - 1 implies #[trigger] step_ok(m, w, 0, p, k) by {
        if k < p1.len() - 1 {
            assert(step_ok(m, w1, 0, p1, k));
            assert(p[k] == p1[k] && p[k + 1] == p1[k + 1] && w[k] == w1[k]);
        } else {
            let k2 = k - (p1.len() - 1);
            assert(step_ok(m, w2, 0, p2, k2));
            if k2 == 0 {
                assert(p[k] == p1.last());
            } else {
                assert(p[k] == p2[k2]);
            }
            assert(p[k + 1] == p2[k2 + 1]);
            assert(w[k] == w2[k2]);
        }
    }
    assert(is_path(m, w, 0, p));
    if p2.len() > 1 {
        assert(p.last() == p2.last());
    } else {
        assert(p.last() == p1.last());
    }
}

/// A state with an edge to itself reads any word of characters it expects,
/// staying where it is.
pub proof fn lemma_reads_loop(m: Seq<StateView>, s: usize, w: Seq<char>)
    requires
        (s as int) < m.len(),
        m[s as int].next.contains(s),
        forall|k: int| 0 <= k < w.len() ==> m[s as int].expected.has(#[trigger] w[k]),
    ensures
        reads(m, s, w, s),
    decreases w.len(),
{
    if w.len() == 0 {
        lemma_reads_empty(m, s);
        assert(w =~= Seq::<char>::empty());
    } else {
        let init = w.drop_last();
        assert forall|k: int| 0 <= k < init.len() implies m[s as int].expected.has(#[trigger] init[k]) by {
            assert(init[k] == w[k]);
        }
        lemma_reads_loop(m, s, init);
        assert(m[s as int].expected.has(w[w.len() - 1]));
        lemma_reads_step(m, s, w.last(), s);
        lemma_reads_concat(m, s, init, s, seq![w.last()], s);
        assert(init + seq![w.last()] =~= w);
    }
}

/// What a machine reads, its extensions read too.
pub proof fn lemma_reads_extends(a: Seq<StateView>, b: Seq<StateView>, from: usize, w: Seq<char>, to: usize)
    requires
        extends(a, b),
        reads(a, from, w, to),
    ensures
        reads(b, from, w, to),
{
    let p = choose|p: Seq<usize>| #[trigger] is_path(a, w, 0, p) && p[0] == from && p.last() == to;
    lemma_extends_keeps_paths(a, b, w, 0, p);
}

/// A whole-message path from the start state to a final state is an
/// accepting run.
pub proof fn lemma_reads_accepts(m: Seq<StateView>, w: Seq<char>, to: usize)
    requires
        reads(m, 0, w, to),
        m[to as int].is_final,
    ensures
        accepts(m, w),
{
    let p = choose|p: Seq<usize>| #[trigger] is_path(m, w, 0, p) && p[0] == 0 && p.last() == to;
    assert(is_accepting_run(m, w, p));
}

/// State `s` never records a parameter: it does not expect both `a` and a
/// backtick.
pub open spec fn unrecorded(m: Seq<StateView>, s: usize) -> bool {
    !(m[s as int].expected.has('a') && m[s as int].expected.has('`'))
}

/// The machine reads `w` from `from` to `to` on a path whose states after
/// the first never record a parameter.
pub open spec fn reads_unrecorded(m: Seq<StateView>, from: usize, w: Seq<char>, to: usize) -> bool {
    exists|p: Seq<usize>| #[trigger] is_path(m, w, 0, p) && p[0] == from && p.last() == to
        && forall|k: int| 1 <= k < p.len() ==> unrecorded(m, #[trigger] p[k])
}

/// Reading without recording is reading.
pub proof fn lemma_unrecorded_reads(m: Seq<StateView>, from: usize, w: Seq<char>, to: usize)
    requires
        reads_unrecorded(m, from, w, to),
    ensures
        reads(m, from, w, to),
{
}

/// The empty word, unrecorded.
pub proof fn lemma_unrecorded_empty(m: Seq<StateView>, s: usize)
    requires
        (s as int) < m.len(),
    ensures
        reads_unrecorded(m, s, Seq::empty(), s),
{
    let p = seq![s];
    assert(is_path(m, Seq::empty(), 0, p));
}

/// One transition into a state that never records.
pub proof fn lemma_unrecorded_step(m: Seq<StateView>, s: usize, c: char, t: usize)
    requires
        (s as int) < m.len(),
        (t as int) < m.len(),
        m[s as int].next.contains(t),
        m[t as int].expected.has(c),
        unrecorded(m, t),
    ensures
        reads_unrecorded(m, s, seq![c], t),
{
    let p = seq![s, t];
    assert(step_ok(m, seq![c], 0, p, 0));
    assert(is_path(m, seq![c], 0, p));
    assert forall|k: int| 1 <= k < p.len() implies unrecorded(m, #[trigger] p[k]) by {
        assert(p[k] == t);
    }
}

/// Reading `w1` and then `w2` without recording.
pub proof fn lemma_unrecorded_concat(m: Seq<StateView>, a: usize, w1: Seq<char>, b: usize, w2: Seq<char>, c: usize)
    requires
        reads_unrecorded(m, a, w1, b),
        reads_unrecorded(m, b, w2, c),
    ensures
        reads_unrecorded(m, a, w1 + w2, c),
{
    let p1 = choose|p: Seq<usize>| #[trigger] is_path(m, w1, 0, p) && p[0] == a && p.last() == b
        && forall|k: int| 1 <= k < p.len() ==> unrecorded(m, #[trigger] p[k]);
    let p2 = choose|p: Seq<usize>| #[trigger] is_path(m, w2, 0, p) && p[0] == b && p.last() == c
        && forall|k: int| 1 <= k < p.len() ==> unrecorded(m, #[trigger] p[k]);
    let w = w1 + w2;
    let p = p1 + p2.drop_first();
    assert forall|k: int| 0 <= k < p.len() implies (#[trigger] p[k] as int) < m.len() by {
        if k < p1.len() {
            assert(p[k] == p1[k]);
        } else {
            assert(p[k] == p2[k - p1.len() + 1]);
        }
    }
    assert forall|k: int| 0 <= k < p.len() - 1 implies #[trigger] step_ok(m, w, 0, p, k) by {
        if k < p1.len() - 1 {
            assert(step_ok(m, w1, 0, p1, k));
            assert(p[k] == p1[k] && p[k + 1] == p1[k + 1] && w[k] == w1[k]);
        } else {
            let k2 = k - (p1.len() - 1);
            assert(step_ok(m, w2, 0, p2, k2));
            if k2 == 0 {
                assert(p[k] == p1.last());
            } else {
                assert(p[k] == p2[k2]);
            }
            assert(p[k + 1] == p2[k2 + 1]);
            assert(w[k] == w2[k2]);
        }
    }
    assert forall|k: int| 1 <= k < p.len() implies unrecorded(m, #[trigger] p[k]) by {
        if k < p1.len() {
            assert(p[k] == p1[k]);
        } else {
            assert(p[k] == p2[k - p1.len() + 1]);
        }
    }
    assert(is_path(m, w, 0, p));
    if p2.len() > 1 {
        assert(p.last() == p2.last());
    } else {
        assert(p.last() == p1.last());
    }
}

/// A self-looping state that never records reads its words staying put.
pub proof fn lemma_unrecorded_loop(m: Seq<StateView>, s: usize, w: Seq<char>)
    requires
        (s as int) < m.len(),
        m[s as int].next.contains(s),
        unrecorded(m, s),
        forall|k: int| 0 <= k < w.len() ==> m[s as int].expected.has(#[trigger] w[k]),
    ensures
        reads_unrecorded(m, s, w, s),
    decreases w.len(),
{
    if w.len() == 0 {
        lemma_unrecorded_empty(m, s);
        assert(w =~= Seq::<char>::empty());
    } else {
        let init = w.drop_last();
        assert forall|k: int| 0 <= k < init.len() implies m[s as int].expected.has(#[trigger] init[k]) by {
            assert(init[k] == w[k]);
        }
        lemma_unrecorded_loop(m, s, init);
        assert(m[s as int].expected.has(w[w.len() - 1]));
        lemma_unrecorded_step(m, s, w.last(), s);
        lemma_unrecorded_concat(m, s, init, s, seq![w.last()], s);
        assert(init + seq![w.last()] =~= w);
    }
}

/// What a machine reads without recording, its extensions read so too.
pub proof fn lemma_unrecorded_extends(a: Seq<StateView>, b: Seq<StateView>, from: usize, w: Seq<char>, to: usize)
    requires
        extends(a, b),
        reads_unrecorded(a, from, w, to),
    ensures
        reads_unrecorded(b, from, w, to),
{
    let p = choose|p: Seq<usize>| #[trigger] is_path(a, w, 0, p) && p[0] == from && p.last() == to
        && forall|k: int| 1 <= k < p.len() ==> unrecorded(a, #[trigger] p[k]);
    lemma_extends_keeps_paths(a, b, w, 0, p);
    assert forall|k: int| 1 <= k < p.len() implies unrecorded(b, #[trigger] p[k]) by {
        assert(unrecorded(a, p[k]));
        assert(kept_state(a[p[k] as int], b[p[k] as int]));
    }
}

/// No state of `p` up to step `n` records.
proof fn lemma_no_key_seen(m: Seq<StateView>, p: Seq<usize>, key: Seq<char>, n: int)
    requires
        n < p.len(),
        forall|k: int| 1 <= k <= n ==> (#[trigger] m[p[k] as int].key) is None,
    ensures
        !key_seen(m, p, key, n),
    decreases n,
{
    if n > 0 {
        assert(m[p[n] as int].key is None);
        lemma_no_key_seen(m, p, key, n - 1);
    }
}

/// A message read without recording, into a final state, has an accepting
/// run that records no parameter.
pub proof fn lemma_unrecorded_run(m: Seq<StateView>, w: Seq<char>, r: usize)
    requires
        keys_ok(m),
        reads_unrecorded(m, 0, w, r),
        m[r as int].is_final,
    ensures
        exists|p: Seq<usize>| #[trigger] is_accepting_run(m, w, p) && p.last() == r
            && params_of_run(m, w, p, Seq::empty(), w.len() as int),
{
    let p = choose|p: Seq<usize>| #[trigger] is_path(m, w, 0, p) && p[0] == 0 && p.last() == r
        && forall|k: int| 1 <= k < p.len() ==> unrecorded(m, #[trigger] p[k]);
    assert(is_accepting_run(m, w, p));
    assert forall|k: int| 1 <= k <= w.len() implies (#[trigger] m[p[k] as int].key) is None by {
        assert(unrecorded(m, p[k]));
        assert(0 <= p[k] < m.len());
        assert(m[p[k] as int] == m[p[k] as int]);
    }
    assert forall|key: Seq<char>| !#[trigger] key_seen(m, p, key, w.len() as int) by {
        lemma_no_key_seen(m, p, key, w.len() as int);
    }
    assert(params_of_run(m, w, p, Seq::empty(), w.len() as int));
}

/// `p` is an accepting run of `w` into `r` that records `params`.
pub open spec fn run_records(m: Seq<StateView>, w: Seq<char>, r: usize, params: Seq<(Seq<char>, Seq<char>)>) -> bool {
    exists|p: Seq<usize>| #[trigger] is_accepting_run(m, w, p) && p.last() == r
        && params_of_run(m, w, p, params, w.len() as int)
}

/// The run of `y` then `v`, where `y` is read without recording into `b`,
/// and `v` is read in the state `k`, which records under `name`.
spec fn one_param_path(p1: Seq<usize>, k: usize, n: nat) -> Seq<usize> {
    p1 + Seq::new(n, |_i: int| k)
}

/// What the first `n` steps of that run record.
proof fn lemma_one_param_captured(
    m: Seq<StateView>,
    y: Seq<char>,
    v: Seq<char>,
    p: Seq<usize>,
    k: usize,
    name: Seq<char>,
    key: Seq<char>,
    n: int,
)
    requires
        keys_ok(m),
        p.len() == y.len() + v.len() + 1,
        0 <= n <= y.len() + v.len(),
        forall|j: int| 1 <= j <= y.len() ==> unrecorded(m, #[trigger] p[j]),
        forall|j: int| 0 <= j < p.len() ==> (#[trigger] p[j] as int) < m.len(),
        forall|j: int| y.len() < j < p.len() ==> #[trigger] p[j] == k,
        m[k as int].key == Some(name),
    ensures
        captured(m, y + v, p, key, n) == (if key == name && n > y.len() { v.take(n - y.len()) } else { Seq::empty() }),
        key_seen(m, p, key, n) == (key == name && n > y.len()),
    decreases n,
{
    if n > 0 {
        lemma_one_param_captured(m, y, v, p, k, name, key, n - 1);
        if n <= y.len() {
            assert(unrecorded(m, p[n]));
            assert(m[p[n] as int].key is None);
        } else {
            assert(p[n] == k);
            if key == name {
                assert((y + v)[n - 1] == v[n - 1 - y.len()]);
                assert(v.take(n - 1 - y.len()).push(v[n - 1 - y.len()]) =~= v.take(n - y.len()));
            }
        }
    }
}

/// A message read without recording into `b`, followed by a non-empty
/// text that the state `k` after `b` loops on, is accepted in `k` with the
/// text recorded under `k`'s name.
pub proof fn lemma_one_param_run(
    m: Seq<StateView>,
    y: Seq<char>,
    b: usize,
    k: usize,
    v: Seq<char>,
    name: Seq<char>,
)
    requires
        keys_ok(m),
        reads_unrecorded(m, 0, y, b),
        (k as int) < m.len(),
        m[b as int].next.contains(k),
        m[k as int].next.contains(k),
        v.len() > 0,
        forall|j: int| 0 <= j < v.len() ==> m[k as int].expected.has(#[trigger] v[j]),
        m[k as int].key == Some(name),
        m[k as int].is_final,
    ensures
        run_records(m, y + v, k, seq![(name, v)]),
{
    let p1 = choose|p: Seq<usize>| #[trigger] is_path(m, y, 0, p) && p[0] == 0 && p.last() == b
        && forall|j: int| 1 <= j < p.len() ==> unrecorded(m, #[trigger] p[j]);
    let w = y + v;
    let p = one_param_path(p1, k, v.len());
    assert(p.len() == w.len() + 1);
    assert forall|j: int| 0 <= j < p.len() implies (#[trigger] p[j] as int) < m.len() by {
        if j < p1.len() {
            assert(p[j] == p1[j]);
        } else {
            assert(p[j] == k);
        }
    }
    assert forall|j: int| 0 <= j < p.len() - 1 implies #[trigger] step_ok(m, w, 0, p, j) by {
        if j < p1.len() - 1 {
            assert(step_ok(m, y, 0, p1, j));
            assert(p[j] == p1[j] && p[j + 1] == p1[j + 1] && w[j] == y[j]);
        } else if j == p1.len() - 1 {
            assert(p[j] == b);
            assert(p[j + 1] == k);
            assert(w[j] == v[0]);
        } else {
            assert(p[j] == k && p[j + 1] == k);
            assert(w[j] == v[j - y.len()]);
        }
    }
    assert(is_path(m, w, 0, p));
    assert(p.last() == k);
    assert(is_accepting_run(m, w, p));
    assert forall|j: int| 1 <= j <= y.len() implies unrecorded(m, #[trigger] p[j]) by {
        assert(p[j] == p1[j]);
    }
    assert forall|j: int| y.len() < j < p.len() implies #[trigger] p[j] == k by {}
    let params = seq![(name, v)];
    assert forall|a: int| 0 <= a < params.len() implies key_seen(m, p, #[trigger] params[a].0, w.len() as int)
        && params[a].1 == captured(m, w, p, params[a].0, w.len() as int) by {
        lemma_one_param_captured(m, y, v, p, k, name, name, w.len() as int);
        assert(v.take(v.len() as int) =~= v);
    }
    assert forall|key: Seq<char>| #[trigger] key_seen(m, p, key, w.len() as int)
        implies exists|a: int| 0 <= a < params.len() && #[trigger] params[a].0 == key by {
        lemma_one_param_captured(m, y, v, p, k, name, key, w.len() as int);
        assert(params[0].0 == key);
    }
    assert(params_of_run(m, w, p, params, w.len() as int));
}

/// What the first `n` steps of a run record when it passes, in order, `l`
/// states that never record, `a` steps in `k1` (which records `n1`), `c`
/// states that never record and then stays in `k2` (which records `n2`),
/// reading `v1` in `k1` and `v2` in `k2`.
proof fn lemma_two_param_captured(
    m: Seq<StateView>,
    w: Seq<char>,
    p: Seq<usize>,
    l: int,
    c: int,
    k1: usize,
    k2: usize,
    n1: Seq<char>,
    n2: Seq<char>,
    v1: Seq<char>,
    v2: Seq<char>,
    key: Seq<char>,
    n: int,
)
    requires
        keys_ok(m),
        n1 != n2,
        l >= 0,
        c >= 0,
        v1.len() > 0,
        p.len() == w.len() + 1,
        w.len() == l + v1.len() + c + v2.len(),
        0 <= n <= w.len(),
        forall|j: int| 0 <= j < p.len() ==> (#[trigger] p[j] as int) < m.len(),
        forall|j: int| 1 <= j <= l ==> unrecorded(m, #[trigger] p[j]),
        forall|j: int| l < j <= l + v1.len() ==> #[trigger] p[j] == k1,
        forall|j: int| l + v1.len() < j <= l + v1.len() + c ==> unrecorded(m, #[trigger] p[j]),
        forall|j: int| l + v1.len() + c < j < p.len() ==> #[trigger] p[j] == k2,
        forall|t: int| 0 <= t < v1.len() ==> #[trigger] w[l + t] == v1[t],
        forall|t: int| 0 <= t < v2.len() ==> #[trigger] w[l + v1.len() + c + t] == v2[t],
        m[k1 as int].key == Some(n1),
        m[k2 as int].key == Some(n2),
    ensures
        captured(m, w, p, key, n) == (if key == n1 && n > l {
            v1.take(if n - l < v1.len() { n - l } else { v1.len() as int })
        } else if key == n2 && n > l + v1.len() + c {
            v2.take(n - l - v1.len() - c)
        } else {
            Seq::empty()
        }),
        key_seen(m, p, key, n) == ((key == n1 && n > l) || (key == n2 && n > l + v1.len() + c)),
    decreases n,
{
    if n > 0 {
        lemma_two_param_captured(m, w, p, l, c, k1, k2, n1, n2, v1, v2, key, n - 1);
        let e1 = l + v1.len();
        let e2 = e1 + c;
        if n <= l {
            assert(unrecorded(m, p[n]));
            assert(m[p[n] as int].key is None);
        } else if n <= e1 {
            assert(p[n] == k1);
            if key == n1 {
                assert(w[l + (n - 1 - l)] == v1[n - 1 - l]);
                assert(v1.take(n - 1 - l).push(v1[n - 1 - l]) =~= v1.take(n - l));
            }
        } else if n <= e2 {
            assert(unrecorded(m, p[n]));
            assert(m[p[n] as int].key is None);
        } else {
            assert(p[n] == k2);
            if key == n2 {
                assert(w[l + v1.len() + c + (n - 1 - e2)] == v2[n - 1 - e2]);
                assert(v2.take(n - 1 - e2).push(v2[n - 1 - e2]) =~= v2.take(n - e2));
            }
        }
    }
}

/// A message read without recording into `b1`, then a non-empty text that
/// `k1` after `b1` loops on, then a text read without recording from `k1`
/// into `b2`, then a non-empty text that the final state `k2` after `b2`
/// loops on, is accepted in `k2` with both texts recorded under the names
/// of `k1` and `k2`.
pub proof fn lemma_two_param_run(
    m: Seq<StateView>,
    y: Seq<char>,
    b1: usize,
    k1: usize,
    v1: Seq<char>,
    sep: Seq<char>,
    b2: usize,
    k2: usize,
    v2: Seq<char>,
    n1: Seq<char>,
    n2: Seq<char>,
)
    requires
        keys_ok(m),
        n1 != n2,
        reads_unrecorded(m, 0, y, b1),
        (k1 as int) < m.len(),
        (k2 as int) < m.len(),
        m[b1 as int].next.contains(k1),
        m[k1 as int].next.contains(k1),
        v1.len() > 0,
        forall|j: int| 0 <= j < v1.len() ==> m[k1 as int].expected.has(#[trigger] v1[j]),
        m[k1 as int].key == Some(n1),
        reads_unrecorded(m, k1, sep, b2),
        m[b2 as int].next.contains(k2),
        m[k2 as int].next.contains(k2),
        v2.len() > 0,
        forall|j: int| 0 <= j < v2.len() ==> m[k2 as int].expected.has(#[trigger] v2[j]),
        m[k2 as int].key == Some(n2),
        m[k2 as int].is_final,
    ensures
        run_records(m, y + v1 + sep + v2, k2, seq![(n1, v1), (n2, v2)]),
{
    let p1 = choose|p: Seq<usize>| #[trigger] is_path(m, y, 0, p) && p[0] == 0 && p.last() == b1
        && forall|j: int| 1 <= j < p.len() ==> unrecorded(m, #[trigger] p[j]);
    let p3 = choose|p: Seq<usize>| #[trigger] is_path(m, sep, 0, p) && p[0] == k1 && p.last() == b2
        && forall|j: int| 1 <= j < p.len() ==> unrecorded(m, #[trigger] p[j]);
    let w = y + v1 + sep + v2;
    let l = y.len() as int;
    let a = v1.len() as int;
    let c = sep.len() as int;
    let e1 = l + a;
    let e2 = e1 + c;
    let p = p1 + Seq::new(v1.len(), |_i: int| k1) + p3.drop_first() + Seq::new(v2.len(), |_i: int| k2);
    assert(p.len() == w.len() + 1);
    assert forall|j: int| 0 <= j < p.len() implies #[trigger] p[j] == (if j <= l { p1[j] } else if j <= e1 { k1 }
        else if j <= e2 { p3[j - e1] } else { k2 }) by {}
    assert forall|j: int| 0 <= j < p.len() implies (#[trigger] p[j] as int) < m.len() by {
        if j <= l {
            assert(p[j] == p1[j]);
        } else if j <= e1 {
            assert(p[j] == k1);
        } else if j <= e2 {
            assert(p[j] == p3[j - e1]);
        } else {
            assert(p[j] == k2);
        }
    }
    assert forall|t: int| 0 <= t < v1.len() implies #[trigger] w[l + t] == v1[t] by {}
    assert forall|t: int| 0 <= t < v2.len() implies #[trigger] w[l + v1.len() + c + t] == v2[t] by {}
    assert forall|j: int| 0 <= j < p.len() - 1 implies #[trigger] step_ok(m, w, 0, p, j) by {
        if j < l {
            assert(step_ok(m, y, 0, p1, j));
            assert(p[j] == p1[j] && p[j + 1] == p1[j + 1] && w[j] == y[j]);
        } else if j == l {
            assert(p[j] == b1);
            assert(p[j + 1] == k1);
            assert(w[j] == v1[0]);
        } else if j < e1 {
            assert(p[j] == k1 && p[j + 1] == k1);
            assert(w[j] == v1[j - l]);
        } else if j < e2 {
            let t = j - e1;
            assert(step_ok(m, sep, 0, p3, t));
            assert(p[j] == p3[t] && p[j + 1] == p3[t + 1]);
            assert(w[j] == sep[t]);
        } else if j == e2 {
            assert(p[j] == p3[c]);
            assert(p3[c] == b2);
            assert(p[j + 1] == k2);
            assert(w[j] == v2[0]);
        } else {
            assert(p[j] == k2 && p[j + 1] == k2);
            assert(w[j] == v2[j - e2]);
        }
    }
    assert(is_path(m, w, 0, p));
    assert(p.last() == k2);
    assert(is_accepting_run(m, w, p));
    assert forall|j: int| 1 <= j <= l implies unrecorded(m, #[trigger] p[j]) by {
        assert(p[j] == p1[j]);
    }
    assert forall|j: int| l < j <= l + v1.len() implies #[trigger] p[j] == k1 by {}
    assert forall|j: int| l + v1.len() < j <= l + v1.len() + c implies unrecorded(m, #[trigger] p[j]) by {
        assert(p[j] == p3[j - e1]);
    }
    assert forall|j: int| l + v1.len() + c < j < p.len() implies #[trigger] p[j] == k2 by {}
    let params = seq![(n1, v1), (n2, v2)];
    let len = w.len() as int;
    assert forall|x: int| 0 <= x < params.len() implies key_seen(m, p, #[trigger] params[x].0, len)
        && params[x].1 == captured(m, w, p, params[x].0, len) by {
        lemma_two_param_captured(m, w, p, l, c, k1, k2, n1, n2, v1, v2, params[x].0, len);
        assert(v1.take(a) =~= v1);
        assert(v2.take(len - l - a - c) =~= v2);
    }
    assert forall|key: Seq<char>| #[trigger] key_seen(m, p, key, len)
        implies exists|x: int| 0 <= x < params.len() && #[trigger] params[x].0 == key by {
        lemma_two_param_captured(m, w, p, l, c, k1, k2, n1, n2, v1, v2, key, len);
        if key == n1 {
            assert(params[0].0 == key);
        } else {
            assert(params[1].0 == key);
        }
    }
    assert(params_of_run(m, w, p, params, len));
}

/// Registering commands never makes a recognised message unrecognised:
/// every message that a machine accepts, an extension of it accepts too.
pub proof fn law_extension_keeps_messages(a: Seq<StateView>, b: Seq<StateView>, input: Seq<char>)
    requires
        extends(a, b),
        accepts(a, input),
    ensures
        accepts(b, input),
{
    let p = choose|p: Seq<usize>| #[trigger] is_accepting_run(a, input, p);
    lemma_extends_keeps_paths(a, b, input, 0, p);
    assert(is_accepting_run(b, input, p));
}

/// The first place where `t` occurs in `s`.
proof fn lemma_first_index(s: Seq<usize>, t: usize) -> (j: int)
    requires
        s.contains(t),
    ensures
        0 <= j < s.len(),
        s[j] == t,
        forall|x: int| 0 <= x < j ==> s[x] != t,
    decreases s.len(),
{
    if s[0] == t {
        0
    } else {
        let w = choose|w: int| 0 <= w < s.len() && s[w] == t;
        assert(s.drop_first()[w - 1] == t);
        let j = lemma_first_index(s.drop_first(), t);
        assert forall|x: int| 0 <= x < j + 1 implies s[x] != t by {
            if x > 0 {
                assert(s[x] == s.drop_first()[x - 1]);
            }
        }
        j + 1
    }
}

/// The first step after `k` where two paths that agree up to `k` part.
proof fn lemma_first_difference(p: Seq<usize>, q: Seq<usize>, k: int, d: int) -> (r: int)
    requires
        p.len() == q.len(),
        0 <= k < d < p.len(),
        p[d] != q[d],
        forall|x: int| 0 <= x <= k ==> #[trigger] p[x] == q[x],
    ensures
        k <= r < p.len() - 1,
        forall|x: int| 0 <= x <= r ==> #[trigger] p[x] == q[x],
        p[r + 1] != q[r + 1],
    decreases d - k,
{
    if p[k + 1] != q[k + 1] {
        k
    } else {
        assert forall|x: int| 0 <= x <= k + 1 implies #[trigger] p[x] == q[x] by {}
        lemma_first_difference(p, q, k + 1, d)
    }
}

/// A message runs one command: of two different accepting runs of the same
/// input, one comes before the other, so only one run comes first.
pub proof fn law_first_run_unique(m: Seq<StateView>, input: Seq<char>, p: Seq<usize>, q: Seq<usize>)
    requires
        machine_wf(m),
        is_accepting_run(m, input, p),
        is_accepting_run(m, input, q),
        !earlier(m, p, q),
        !earlier(m, q, p),
    ensures
        p == q,
{
    if p != q {
        assert(!(p =~= q));
        let d = choose|d: int| 0 <= d < p.len() && p[d] != q[d];
        assert forall|x: int| 0 <= x <= 0 implies #[trigger] p[x] == q[x] by {}
        let k = lemma_first_difference(p, q, 0, d);
        assert(step_ok(m, input, 0, p, k));
        assert(step_ok(m, input, 0, q, k));
        let next = m[p[k] as int].next;
        assert(m[q[k] as int].next == next);
        let jp = lemma_first_index(next, p[k + 1]);
        let jq = lemma_first_index(next, q[k + 1]);
        if jq < jp {
            assert forall|x: int| 0 <= x <= jq implies #[trigger] next[x] != p[k + 1] by {}
            assert(before_in(next, q[k + 1], p[k + 1]));
            assert(earlier(m, p, q));
        } else {
            assert(jp != jq);
            assert forall|x: int| 0 <= x <= jp implies #[trigger] next[x] != q[k + 1] by {}
            assert(before_in(next, p[k + 1], q[k + 1]));
            assert forall|x: int| 0 <= x <= k implies #[trigger] q[x] == p[x] by {}
            assert(earlier(m, q, p));
        }
    }
}

/// Changing what a state records keeps `b` an extension of `a`, with the
/// same final states.
pub proof fn lemma_extends_remark(a: Seq<StateView>, b: Seq<StateView>, idx: int, c: Seq<StateView>)
    requires
        extends(a, b),
        0 <= idx < b.len(),
        c == b.update(idx, StateView { key: c[idx].key, ends_parse: c[idx].ends_parse, ..b[idx] }),
    ensures
        extends(a, c),
        no_new_finals(a, b) ==> no_new_finals(a, c),
        extends(b, c),
        no_new_finals(b, c),
{
    assert forall|s: int| 0 <= s < a.len() implies #[trigger] kept_state(a[s], c[s]) by {
        assert(kept_state(a[s], b[s]));
    }
    assert forall|s: int| 0 <= s < b.len() implies #[trigger] kept_state(b[s], c[s]) by {}
}

/// A key that no step records has captured nothing.
proof fn lemma_unseen_key_captures_nothing(m: Seq<StateView>, input: Seq<char>, p: Seq<usize>, key: Seq<char>, n: int)
    requires
        !key_seen(m, p, key, n),
    ensures
        captured(m, input, p, key, n) == Seq::<char>::empty(),
    decreases n,
{
    if n > 0 {
        lemma_unseen_key_captures_nothing(m, input, p, key, n - 1);
    }
}

/// Some state reached from `index` in `m` expects exactly `expected`.
pub open spec fn shares(m: Seq<StateView>, index: int, expected: CharacterSet) -> bool {
    exists|k: int| 0 <= k < m[index].next.len() && #[trigger] m[m[index].next[k] as int].expected == expected
}

/// The `j`-th edge of `index` is the first one to a state that expects
/// exactly `expected`.
pub open spec fn first_sharing(m: Seq<StateView>, index: int, expected: CharacterSet, j: int) -> bool {
    &&& 0 <= j < m[index].next.len()
    &&& m[m[index].next[j] as int].expected == expected
    &&& forall|k: int| 0 <= k < j ==> (#[trigger] m[m[index].next[k] as int]).expected != expected
}

/// One state of the machine.
pub struct State {
    expected: CharacterSet,
    next_states: Vec<usize>,
    is_final: bool,
    parse_key: Option<String>,
    ends_parse: bool,
}

impl View for State {
    type V = StateView;

    closed spec fn view(&self) -> StateView {
        StateView {
            expected: self.expected,
            next: self.next_states@,
            is_final: self.is_final,
            key: match self.parse_key {
                Some(k) => Some(k@),
                None => None,
            },
            ends_parse: self.ends_parse,
        }
    }
}

/// The outcome of a successful match: the final state reached and the
/// parameters recorded on the way.
pub struct Match {
    pub state: usize,
    pub params: Vec<(String, String)>,
}

/// A command-recognising state machine.
pub struct StateMachine {
    states: Vec<State>,
}

impl View for StateMachine {
    type V = Seq<StateView>;

    closed spec fn view(&self) -> Seq<StateView> {
        self.states@.map_values(|s: State| s@)
    }
}

impl StateMachine {
    /// Well-formedness: see [`machine_wf`].
    pub open spec fn wf(&self) -> bool {
        machine_wf(self@) && keys_ok(self@)
    }

    /// A machine with only the start state, which is not final.
    pub fn new() -> (r: Self)
        ensures
            r.wf(),
            r@ == seq![StateView {
                expected: r@[0].expected,
                next: Seq::empty(),
                is_final: false,
                key: None,
                ends_parse: false,
            }],
            forall|c: char| !#[trigger] r@[0].expected.has(c),
    {
        let mut states: Vec<State> = Vec::new();
        states.push(
            State {
                expected: CharacterSet::new(),
                next_states: Vec::new(),
                is_final: false,
                parse_key: None,
                ends_parse: false,
            },
        );
        let r = StateMachine { states };
        assert(r@ =~= seq![r.states@[0]@]);
        r
    }

    /// The number of states.
    pub fn len(&self) -> (r: usize)
        ensures
            r == self@.len(),
    {
        self.states.len()
    }

    /// The state reached from `index` that expects exactly `expected`, or,
    /// when there is none, a new such state reachable from `index`; returns
    /// its index.  Patterns that begin alike thus share their states.
    pub fn add(&mut self, index: usize, expected: CharacterSet) -> (r: usize)
        requires
            old(self).wf(),
            index < old(self)@.len(),
        ensures
            final(self).wf(),
            (r as int) < final(self)@.len(),
            final(self)@[index as int].next.contains(r),
            final(self)@[r as int].expected == expected,
            extends(old(self)@, final(self)@),
            no_new_finals(old(self)@, final(self)@),
            shares(old(self)@, index as int, expected) ==> final(self)@ == old(self)@
                && exists|j: int| #[trigger] first_sharing(old(self)@, index as int, expected, j)
                    && old(self)@[index as int].next[j] == r,
            !shares(old(self)@, index as int, expected) ==> r == old(self)@.len() && final(self)@ == old(self)@.update(
                index as int,
                StateView { next: old(self)@[index as int].next.push(r), ..old(self)@[index as int] },
            ).push(StateView { expected, next: Seq::empty(), is_final: false, key: None, ends_parse: false }),
    {
        let ghost old_view = self@;
        let n = self.states[index].next_states.len();
        let mut j: usize = 0;
        while j < n
            invariant
                self@ == old_view,
                machine_wf(old_view),
                keys_ok(old_view),
                (index as int) < old_view.len(),
                n == old_view[index as int].next.len(),
                0 <= j <= n,
                forall|k: int| 0 <= k < j ==> (#[trigger] old_view[old_view[index as int].next[k] as int]).expected != expected,
            decreases n - j,
        {
            let t = self.states[index].next_states[j];
            proof {
                assert(t == old_view[index as int].next[j as int]);
                assert((t as int) < old_view.len());
            }
            if self.states[t].expected == expected {
                proof {
                    assert(first_sharing(old_view, index as int, expected, j as int));
                    assert(shares(old_view, index as int, expected));
                    lemma_extends_refl(old_view);
                    assert(old_view[index as int].next[j as int] == t);
                }
                return t;
            }
            j = j + 1;
        }
        proof {
            assert(!shares(old_view, index as int, expected)) by {
                if shares(old_view, index as int, expected) {
                    let k = choose|k: int| 0 <= k < old_view[index as int].next.len()
                        && #[trigger] old_view[old_view[index as int].next[k] as int].expected == expected;
                    assert(old_view[old_view[index as int].next[k] as int].expected != expected);
                }
            }
        }
        let r = self.states.len();
        self.states[index].next_states.push(r);
        self.states.push(
            State { expected, next_states: Vec::new(), is_final: false, parse_key: None, ends_parse: false },
        );
        proof {
            let want = old_view.update(
                index as int,
                StateView { next: old_view[index as int].next.push(r), ..old_view[index as int] },
            ).push(StateView { expected, next: Seq::empty(), is_final: false, key: None, ends_parse: false });
            assert(self@ =~= want);
            assert forall|s: int| 0 <= s < self@.len() implies (#[trigger] self@[s].key) is None
                || (self@[s].expected.has('a') && self@[s].expected.has('`')) by {
                if s < old_view.len() {
                    assert(self@[s].key == old_view[s].key && self@[s].expected == old_view[s].expected);
                }
            }
            assert forall|s: int, j: int|
                0 <= s < self@.len() && 0 <= j < self@[s].next.len() implies (#[trigger] self@[s].next[j] as int) < self@.len() by {
                if s < old_view.len() && !(s == index && j == old_view[s].next.len()) {
                    assert(self@[s].next[j] == old_view[s].next[j]);
                }
            }
            assert forall|s: int| 0 <= s < old_view.len() implies #[trigger] kept_state(old_view[s], self@[s]) by {
                assert forall|j: int| 0 <= j < old_view[s].next.len() implies #[trigger] self@[s].next[j] == old_view[s].next[j] by {}
            }
            assert(self@[index as int].next[old_view[index as int].next.len() as int] == r);
        }
        r
    }

    /// Adds an edge from `from` to `to`, unless there is one.
    pub fn add_next_state(&mut self, from: usize, to: usize)
        requires
            old(self).wf(),
            from < old(self)@.len(),
            to < old(self)@.len(),
        ensures
            final(self).wf(),
            final(self)@[from as int].next.contains(to),
            old(self)@[from as int].next.contains(to) ==> final(self)@ == old(self)@,
            !old(self)@[from as int].next.contains(to) ==> final(self)@ == old(self)@.update(
                from as int,
                StateView { next: old(self)@[from as int].next.push(to), ..old(self)@[from as int] },
            ),
            extends(old(self)@, final(self)@),
            no_new_finals(old(self)@, final(self)@),
    {
        let ghost old_view = self@;
        let n = self.states[from].next_states.len();
        let mut j: usize = 0;
        while j < n
            invariant
                self@ == old_view,
                machine_wf(old_view),
                keys_ok(old_view),
                (from as int) < old_view.len(),
                n == old_view[from as int].next.len(),
                0 <= j <= n,
                forall|k: int| 0 <= k < j ==> old_view[from as int].next[k] != to,
            decreases n - j,
        {
            if self.states[from].next_states[j] == to {
                proof {
                    assert(old_view[from as int].next[j as int] == to);
                    lemma_extends_refl(old_view);
                }
                return;
            }
            j = j + 1;
        }
        self.states[from].next_states.push(to);
        proof {
            assert forall|s: int| 0 <= s < self@.len() implies (#[trigger] self@[s].key) is None
                || (self@[s].expected.has('a') && self@[s].expected.has('`')) by {
                assert(self@[s].key == old_view[s].key && self@[s].expected == old_view[s].expected);
            }
            assert(self@ =~= old_view.update(
                from as int,
                StateView { next: old_view[from as int].next.push(to), ..old_view[from as int] },
            ));
            assert forall|s: int, j: int|
                0 <= s < self@.len() && 0 <= j < self@[s].next.len() implies (#[trigger] self@[s].next[j] as int) < self@.len() by {
                if !(s == from && j == old_view[s].next.len()) {
                    assert(self@[s].next[j] == old_view[s].next[j]);
                }
            }
            assert forall|s: int| 0 <= s < old_view.len() implies #[trigger] kept_state(old_view[s], self@[s]) by {
                assert forall|j: int| 0 <= j < old_view[s].next.len() implies #[trigger] self@[s].next[j] == old_view[s].next[j] by {}
            }
            assert(self@[from as int].next[old_view[from as int].next.len() as int] == to);
        }
    }

    /// Marks `index` as a final state.
    pub fn set_final_state(&mut self, index: usize)
        requires
            old(self).wf(),
            index < old(self)@.len(),
        ensures
            final(self).wf(),
            final(self)@ == old(self)@.update(
                index as int,
                StateView { is_final: true, ..old(self)@[index as int] },
            ),
            extends(old(self)@, final(self)@),
    {
        let ghost old_view = self@;
        self.states[index].is_final = true;
        proof {
            assert(self@ =~= old_view.update(index as int, StateView { is_final: true, ..old_view[index as int] }));
            assert forall|s: int| 0 <= s < old_view.len() implies #[trigger] kept_state(old_view[s], self@[s]) by {
                assert forall|j: int| 0 <= j < old_view[s].next.len() implies #[trigger] self@[s].next[j] == old_view[s].next[j] by {}
            }
            assert forall|s: int, j: int|
                0 <= s < self@.len() && 0 <= j < self@[s].next.len() implies (#[trigger] self@[s].next[j] as int) < self@.len() by {
                assert(self@[s].next[j] == old_view[s].next[j]);
            }
        }
    }

    /// Makes `index` record the characters it reads under the parameter `key`.
    pub fn start_parse(&mut self, index: usize, key: &str)
        requires
            old(self).wf(),
            index < old(self)@.len(),
            old(self)@[index as int].expected.has('a'),
            old(self)@[index as int].expected.has('`'),
        ensures
            final(self).wf(),
            final(self)@ == old(self)@.update(
                index as int,
                StateView { key: Some(key@), ..old(self)@[index as int] },
            ),
            extends(old(self)@, final(self)@),
            no_new_finals(old(self)@, final(self)@),
    {
        let ghost old_view = self@;
        let k = key.to_owned();
        self.states[index].parse_key = Some(k);
        proof {
            assert(self@ =~= old_view.update(index as int, StateView { key: Some(key@), ..old_view[index as int] }));
            lemma_extends_refl(old_view);
            lemma_extends_remark(old_view, old_view, index as int, self@);
            assert forall|s: int, j: int|
                0 <= s < self@.len() && 0 <= j < self@[s].next.len() implies (#[trigger] self@[s].next[j] as int) < self@.len() by {
                assert(self@[s].next[j] == old_view[s].next[j]);
            }
        }
    }

    /// Marks `index` as the state where its parameter ends.
    pub fn end_parse(&mut self, index: usize)
        requires
            old(self).wf(),
            index < old(self)@.len(),
        ensures
            final(self).wf(),
            final(self)@ == old(self)@.update(
                index as int,
                StateView { ends_parse: true, ..old(self)@[index as int] },
            ),
            extends(old(self)@, final(self)@),
            no_new_finals(old(self)@, final(self)@),
    {
        let ghost old_view = self@;
        self.states[index].ends_parse = true;
        proof {
            assert(self@ =~= old_view.update(index as int, StateView { ends_parse: true, ..old_view[index as int] }));
            lemma_extends_refl(old_view);
            lemma_extends_remark(old_view, old_view, index as int, self@);
            assert forall|s: int, j: int|
                0 <= s < self@.len() && 0 <= j < self@[s].next.len() implies (#[trigger] self@[s].next[j] as int) < self@.len() by {
                assert(self@[s].next[j] == old_view[s].next[j]);
            }
        }
    }

    /// Searches for an accepting path that starts in `s` and reads `input`
    /// from position `i`.
    fn find_path(&self, s: usize, input: &Vec<char>, i: usize) -> (r: Option<Vec<usize>>)
        requires
            self.wf(),
            s < self@.len(),
            i <= input@.len(),
        ensures
            r matches Some(p) ==> is_accepting_path(self@, input@, i as int, p@) && p@[0] == s,
            r matches Some(p) ==> forall|q: Seq<usize>|
                #[trigger] is_accepting_path(self@, input@, i as int, q) && q[0] == s ==> !earlier(self@, p@, q),
            r is None ==> forall|p: Seq<usize>|
                #[trigger] is_accepting_path(self@, input@, i as int, p) ==> p[0] != s,
        decreases input@.len() - i,
    {
        if i == input.len() {
            if self.states[s].is_final {
                let mut p: Vec<usize> = Vec::new();
                p.push(s);
                proof {
                    assert(self.states@[s as int]@.is_final);
                    assert(p@.last() == s);
                    assert forall|q: Seq<usize>| #[trigger] is_accepting_path(self@, input@, i as int, q) && q[0] == s
                        implies !earlier(self@, p@, q) by {}
                }
                return Some(p);
            } else {
                proof {
                    assert forall|p: Seq<usize>| #[trigger] is_accepting_path(self@, input@, i as int, p) implies p[0] != s by {
                        if p[0] == s {
                            assert(p.last() == p[0]);
                        }
                    }
                }
                return None;
            }
        }
        let ch = input[i];
        let next_i = i + 1;
        let n = self.states[s].next_states.len();
        let mut j: usize = 0;
        while j < n
            invariant
                self.wf(),
                s < self@.len(),
                i < input@.len(),
                next_i == i + 1,
                ch == input@[i as int],
                n == self@[s as int].next.len(),
                0 <= j <= n,
                forall|q: Seq<usize>, k: int|
                    0 <= k < j && #[trigger] is_accepting_path(self@, input@, i + 1, q)
                        && q[0] == #[trigger] self@[s as int].next[k]
                        ==> !self@[q[0] as int].expected.has(ch),
            decreases n - j,
        {
            let t = self.states[s].next_states[j];
            proof {
                assert(self@[s as int].next[j as int] == t);
                assert((t as int) < self@.len());
            }
            if self.states[t].expected.contains(ch) {
                match self.find_path(t, input, next_i) {
                    Some(rest) => {
                        let mut p: Vec<usize> = Vec::new();
                        p.push(s);
                        let mut rest = rest;
                        let ghost rest_view = rest@;
                        p.append(&mut rest);
                        proof {
                            assert(self@[t as int] == self.states@[t as int]@);
                            assert(self@[s as int].next.contains(t));
                            lemma_path_cons(self@, input@, i as int, s, rest_view);
                            assert(p@ =~= seq![s] + rest_view);
                            let m = self@;
                            assert forall|q: Seq<usize>| #[trigger] is_accepting_path(m, input@, i as int, q) && q[0] == s
                                implies !earlier(m, p@, q) by {
                                if earlier(m, p@, q) {
                                    let k = choose|k: int|
                                        0 <= k < p@.len() - 1 && k < q.len() - 1
                                            && (forall|x: int| 0 <= x <= k ==> #[trigger] p@[x] == q[x])
                                            && #[trigger] before_in(m[p@[k] as int].next, q[k + 1], p@[k + 1]);
                                    lemma_path_tail(m, input@, i as int, q);
                                    let q2 = q.drop_first();
                                    assert(p@[1] == t);
                                    if k == 0 {
                                        assert(p@[0] == s);
                                        let jj = choose|jj: int| 0 <= jj < m[s as int].next.len() && m[s as int].next[jj] == q[1]
                                            && forall|x: int| 0 <= x <= jj ==> #[trigger] m[s as int].next[x] != t;
                                        assert(m[s as int].next[j as int] == t);
                                        assert(jj < j);
                                        assert(step_ok(m, input@, i as int, q, 0));
                                        assert(q2[0] == m[s as int].next[jj]);
                                        assert(is_accepting_path(m, input@, i + 1, q2));
                                        assert(!m[q2[0] as int].expected.has(ch));
                                    } else {
                                        assert(q[1] == p@[1]);
                                        assert(q2[0] == t);
                                        assert(is_accepting_path(m, input@, next_i as int, q2));
                                        assert(forall|x: int| 0 <= x <= k - 1 ==> #[trigger] rest_view[x] == q2[x]) by {
                                            assert forall|x: int| 0 <= x <= k - 1 implies #[trigger] rest_view[x] == q2[x] by {
                                                assert(p@[x + 1] == q[x + 1]);
                                            }
                                        }
                                        assert(rest_view[k - 1] == p@[k]);
                                        assert(q2[k] == q[k + 1]);
                                        assert(rest_view[k] == p@[k + 1]);
                                        assert(before_in(m[rest_view[k - 1] as int].next, q2[k], rest_view[k]));
                                        assert(earlier(m, rest_view, q2));
                                    }
                                }
                            }
                        }
                        return Some(p);
                    }
                    None => {}
                }
            }
            j = j + 1;
        }
        proof {
            assert forall|p: Seq<usize>| #[trigger] is_accepting_path(self@, input@, i as int, p) implies p[0] != s by {
                if p[0] == s {
                    lemma_path_tail(self@, input@, i as int, p);
                    let q = p.drop_first();
                    assert(step_ok(self@, input@, i as int, p, 0));
                    let k = choose|k: int| 0 <= k < self@[s as int].next.len() && self@[s as int].next[k] == p[1];
                    assert(q[0] == self@[s as int].next[k]);
                    assert(is_accepting_path(self@, input@, i + 1, q));
                }
            }
        }
        None
    }

    /// The parameters that accepting run `p` records while reading `input`.
    fn collect_params(&self, input: &Vec<char>, p: &Vec<usize>) -> (r: Vec<(String, String)>)
        requires
            self.wf(),
            is_path(self@, input@, 0, p@),
        ensures
            params_of_run(self@, input@, p@, params_view(r@), input@.len() as int),
    {
        let mut params: Vec<(String, String)> = Vec::new();
        let n = input.len();
        let mut k: usize = 0;
        proof {
            assert(params_view(params@) =~= Seq::empty());
        }
        while k < n
            invariant
                self.wf(),
                n == input@.len(),
                is_path(self@, input@, 0, p@),
                0 <= k <= n,
                params_of_run(self@, input@, p@, params_view(params@), k as int),
            decreases n - k,
        {
            let st = p[k + 1];
            let ch = input[k];
            let ghost pv_old = params_view(params@);
            proof {
                assert((st as int) < self@.len());
                assert(self@[st as int] == self.states@[st as int]@);
            }
            match &self.states[st].parse_key {
                None => {
                    proof {
                        assert forall|key: Seq<char>| #[trigger] key_seen(self@, p@, key, k + 1) implies exists|a: int|
                            0 <= a < pv_old.len() && #[trigger] pv_old[a].0 == key by {
                            assert(key_seen(self@, p@, key, k as int));
                        }
                        assert(params_of_run(self@, input@, p@, pv_old, k + 1));
                    }
                },
                Some(key) => {
                    let ghost kv = key@;
                    let ghost params_old = params@;
                    let mut a: usize = 0;
                    let mut pos: Option<usize> = None;
                    while a < params.len()
                        invariant
                            0 <= a <= params@.len(),
                            kv == key@,
                            pv_old == params_view(params@),
                            pos is None ==> forall|b: int| 0 <= b < a ==> params@[b].0@ != kv,
                            pos matches Some(x) ==> x < params@.len() && params@[x as int].0@ == kv,
                        decreases params@.len() - a,
                    {
                        if pos.is_none() {
                            let same = crate::strings::same_text(&params[a].0, key);
                            if same {
                                pos = Some(a);
                            }
                        }
                        a = a + 1;
                    }
                    let found = pos.is_some();
                    let a: usize = match pos { Some(x) => x, None => 0 };
                    if found {
                        let mut entry = params.remove(a);
                        entry.1.push(ch);
                        params.insert(a, entry);
                    } else {
                        let mut value = String::new();
                        value.push(ch);
                        params.push((key.clone(), value));
                    }
                    proof {
                        let pv = params_view(params@);
                        if found {
                            assert(pv =~= pv_old.update(a as int, (kv, pv_old[a as int].1.push(ch))));
                        } else {
                            assert(pv =~= pv_old.push((kv, seq![ch])));
                            if key_seen(self@, p@, kv, k as int) {
                                let b = choose|b: int| 0 <= b < pv_old.len() && #[trigger] pv_old[b].0 == kv;
                                assert(pv_old[b].0 == params@[b].0@);
                            }
                            lemma_unseen_key_captures_nothing(self@, input@, p@, kv, k as int);
                        }
                        if found {
                            assert(pv_old[a as int].0 == kv);
                        }
                        assert forall|b: int| 0 <= b < pv.len() implies key_seen(self@, p@, #[trigger] pv[b].0, k + 1)
                            && pv[b].1 == captured(self@, input@, p@, pv[b].0, k + 1) by {
                            if b < pv_old.len() {
                                assert(key_seen(self@, p@, pv_old[b].0, k as int));
                                assert(pv_old[b].0 == params_old[b].0@);
                                if found && b == a {
                                    assert(pv[b] == (kv, pv_old[b].1.push(ch)));
                                } else {
                                    assert(pv[b] == pv_old[b]);
                                    assert(pv_old[b].0 != kv);
                                }
                            } else {
                                assert(pv[b] == (kv, seq![ch]));
                                assert(seq![ch] =~= Seq::<char>::empty().push(ch));
                            }
                        }
                        assert forall|key2: Seq<char>| #[trigger] key_seen(self@, p@, key2, k + 1) implies exists|b: int|
                            0 <= b < pv.len() && #[trigger] pv[b].0 == key2 by {
                            if key2 == kv {
                                if found {
                                    assert(pv[a as int].0 == key2);
                                } else {
                                    assert(pv[pv_old.len() as int].0 == key2);
                                }
                            } else {
                                assert(key_seen(self@, p@, key2, k as int));
                                let b = choose|b: int| 0 <= b < pv_old.len() && #[trigger] pv_old[b].0 == key2;
                                assert(pv[b].0 == key2);
                            }
                        }
                        assert forall|x: int, y: int| 0 <= x < y < pv.len() implies #[trigger] pv[x].0 != #[trigger] pv[y].0 by {
                            if !found && y == pv_old.len() {
                                assert(pv_old[x].0 == params_old[x].0@);
                            } else {
                                assert(pv[x].0 == pv_old[x].0 && pv[y].0 == pv_old[y].0);
                            }
                        }
                    }
                },
            }
            k = k + 1;
        }
        params
    }

    /// Runs the machine on `input`.  Returns the final state of an accepting
    /// run from the start state, with the parameters that run records, or
    /// `None` when the machine accepts no run of `input`.
    pub fn process(&self, input: &str) -> (r: Option<Match>)
        requires
            self.wf(),
        ensures
            r is None <==> !accepts(self@, input@),
            r matches Some(m) ==> exists|p: Seq<usize>|
                #[trigger] is_accepting_run(self@, input@, p) && p.last() == m.state
                    && params_of_run(self@, input@, p, params_view(m.params@), input@.len() as int)
                    && forall|q: Seq<usize>| #[trigger] is_accepting_run(self@, input@, q) ==> !earlier(self@, p, q),
    {
        let chars = to_chars(input);
        match self.find_path(0, &chars, 0) {
            None => {
                proof {
                    assert forall|p: Seq<usize>| !#[trigger] is_accepting_run(self@, input@, p) by {
                        if is_accepting_run(self@, input@, p) {
                            assert(is_accepting_path(self@, chars@, 0, p));
                        }
                    }
                }
                None
            },
            Some(p) => {
                let params = self.collect_params(&chars, &p);
                let last = p[p.len() - 1];
                proof {
                    assert(is_accepting_run(self@, input@, p@));
                    assert forall|q: Seq<usize>| #[trigger] is_accepting_run(self@, input@, q) implies !earlier(self@, p@, q) by {
                        assert(is_accepting_path(self@, chars@, 0, q) && q[0] == 0);
                    }
                }
                Some(Match { state: last, params })
            },
        }
    }
}

} // verus!
