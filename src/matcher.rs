use std::collections::HashMap;
use vstd::prelude::*;

use crate::parser::{alt_end, atom_ok, branches_ok, end_of, is_ascii_digit, is_empty_sequence, lemma_branches_first, lemma_nodes_first, nodes_ok, parses_to, repeat_ok, seq_end, seq_ok, stops_seq, Parser, RegexNode, RepeatKind};

verus! {

broadcast use vstd::std_specs::hash::group_hash_axioms;

/// The positions are listed in strictly increasing order.
pub open spec fn ascending(s: Seq<usize>) -> bool {
    forall|i: int, j: int| 0 <= i < j < s.len() ==> s[i] < s[j]
}

/// Every position lies in `lo..=hi`.
pub open spec fn within(s: Seq<usize>, lo: int, hi: int) -> bool {
    forall|i: int| 0 <= i < s.len() ==> lo <= #[trigger] s[i] <= hi
}

/// Every recorded capture is a span `start <= end` inside an input of length `len`.
pub open spec fn spans_ok(g: Map<usize, (usize, usize)>, len: int) -> bool {
    forall|k: usize| #[trigger] g.contains_key(k) ==> g[k].0 <= g[k].1 <= len
}

/// What a one-character matcher yields at `pos`: `pos + 1` when there is a
/// character there and `ok` holds of it, nothing otherwise.
pub open spec fn one_char(input: Seq<char>, pos: int, ok: bool) -> Set<int> {
    if 0 <= pos < input.len() && ok {
        set![pos + 1]
    } else {
        Set::empty()
    }
}

/// The positions listed in `r`.
pub open spec fn pos_set(r: Seq<usize>) -> Set<int> {
    Set::new(|q: int| exists|i: int| 0 <= i < r.len() && r[i] as int == q)
}

/// The positions marked in `m`.
pub open spec fn set_of(m: Seq<bool>) -> Set<int> {
    Set::new(|q: int| 0 <= q < m.len() && m[q])
}

/// The largest position of a non-empty set of positions.
pub open spec fn max_of(r: Set<int>) -> int {
    choose|m: int| r.contains(m) && forall|q: int| r.contains(q) ==> q <= m
}

/// Whether `c` belongs to `chars`, the class being inverted when `negated`.
pub open spec fn in_class(chars: Seq<char>, negated: bool, c: char) -> bool {
    chars.contains(c) != negated
}

/// Whether `input[pos..pos + (e - s)]` repeats `input[s..e]`.
pub open spec fn repeats_span(input: Seq<char>, pos: int, s: int, e: int) -> bool {
    &&& pos + (e - s) <= input.len()
    &&& input.subrange(pos, pos + (e - s)) == input.subrange(s, e)
}

/// What std's `char::is_alphanumeric` says of a character.
pub uninterp spec fn alphanumeric(c: char) -> bool;

/// Relies on char::is_alphanumeric (Unicode Alphabetic or Numeric); ASCII
/// letters and digits are among them.
#[verifier::external_body]
fn is_alphanumeric(c: char) -> (r: bool)
    ensures
        r == alphanumeric(c),
        is_ascii_digit(c) || ('a' <= c <= 'z') || ('A' <= c <= 'Z') ==> r,
{
    c.is_alphanumeric()
}

/// Whether `c` is matched by `\w`.
pub open spec fn word_char(c: char) -> bool {
    alphanumeric(c) || c == '_'
}

fn new_marks(n: usize) -> (m: Vec<bool>)
    ensures
        m@.len() == n,
        forall|i: int| 0 <= i < n ==> !m@[i],
{
    let mut m: Vec<bool> = Vec::new();
    while m.len() < n
        invariant
            m@.len() <= n,
            forall|i: int| 0 <= i < m@.len() ==> !m@[i],
        decreases n - m@.len(),
    {
        m.push(false);
    }
    m
}

/// The marked positions, in increasing order.
fn marked(m: &Vec<bool>) -> (r: Vec<usize>)
    ensures
        ascending(r@),
        forall|i: int| 0 <= i < r@.len() ==> (#[trigger] r@[i] as int) < m@.len() && m@[r@[i] as int],
        forall|p: usize| (p as int) < m@.len() && #[trigger] m@[p as int] ==> r@.contains(p),
        pos_set(r@) == set_of(m@),
{
    let mut r: Vec<usize> = Vec::new();
    let mut i: usize = 0;
    while i < m.len()
        invariant
            i <= m@.len(),
            ascending(r@),
            forall|k: int| 0 <= k < r@.len() ==> (#[trigger] r@[k] as int) < i && m@[r@[k] as int],
            forall|p: usize| p < i && m@[p as int] ==> r@.contains(p),
        decreases m@.len() - i,
    {
        if m[i] {
            let ghost prev = r@;
            r.push(i);
            proof {
                assert forall|p: usize| p < i + 1 && m@[p as int] implies r@.contains(p) by {
                    if p < i {
                        let k = choose|k: int| 0 <= k < prev.len() && prev[k] == p;
                        assert(r@[k] == p);
                    } else {
                        assert(r@[prev.len() as int] == i);
                    }
                }
            }
        }
        i = i + 1;
    }
    assert forall|q: int| pos_set(r@).contains(q) <==> set_of(m@).contains(q) by {
        if set_of(m@).contains(q) {
            let p = q as usize;
            assert(m@[p as int]);
            assert(r@.contains(p));
            let k = choose|k: int| 0 <= k < r@.len() && r@[k] == p;
            assert(r@[k] as int == q);
        }
        if pos_set(r@).contains(q) {
            let k = choose|k: int| 0 <= k < r@.len() && r@[k] as int == q;
            assert(m@[r@[k] as int]);
        }
    }
    assert(pos_set(r@) =~= set_of(m@));
    r
}

/// Marks every position of `ends` in `m`.
fn mark_all(m: &mut Vec<bool>, ends: &Vec<usize>)
    requires
        forall|i: int| 0 <= i < ends@.len() ==> (#[trigger] ends@[i] as int) < old(m)@.len(),
    ensures
        final(m)@.len() == old(m)@.len(),
        forall|p: usize| (p as int) < final(m)@.len() ==> (#[trigger] final(m)@[p as int] <==> (old(m)@[p as int] || ends@.contains(p))),
        set_of(final(m)@) == set_of(old(m)@).union(pos_set(ends@)),
{
    let n = m.len();
    let mut i: usize = 0;
    while i < ends.len()
        invariant
            i <= ends@.len(),
            n == old(m)@.len(),
            m@.len() == old(m)@.len(),
            forall|k: int| 0 <= k < ends@.len() ==> (#[trigger] ends@[k] as int) < old(m)@.len(),
            forall|p: usize| (p as int) < m@.len() ==> (m@[p as int] <==> (old(m)@[p as int] || exists|k: int| 0 <= k < i && #[trigger] ends@[k] == p)),
        decreases ends@.len() - i,
    {
        let e = ends[i];
        let ghost prev = m@;
        m.set(e, true);
        proof {
            assert forall|p: usize| (p as int) < m@.len() implies (m@[p as int] <==> (old(m)@[p as int] || exists|k: int| 0 <= k < i + 1 && #[trigger] ends@[k] == p)) by {
                if p == e {
                    assert(ends@[i as int] == p);
                } else {
                    assert(m@[p as int] == prev[p as int]);
                    if exists|k: int| 0 <= k < i + 1 && #[trigger] ends@[k] == p {
                        let k = choose|k: int| 0 <= k < i + 1 && #[trigger] ends@[k] == p;
                        assert(k != i);
                        assert(0 <= k < i && ends@[k] == p);
                    }
                }
            }
        }
        i = i + 1;
    }
    assert forall|p: usize| (p as int) < m@.len() implies (m@[p as int] <==> (old(m)@[p as int] || ends@.contains(p))) by {
        if ends@.contains(p) {
            let k = choose|k: int| 0 <= k < ends@.len() && ends@[k] == p;
            assert(ends@[k] == p);
        }
    }
    assert forall|q: int| set_of(m@).contains(q) <==> set_of(old(m)@).union(pos_set(ends@)).contains(q) by {
        if pos_set(ends@).contains(q) {
            let k = choose|k: int| 0 <= k < ends@.len() && ends@[k] as int == q;
            let p = ends@[k];
            assert(ends@.contains(p));
            assert(m@[p as int]);
        }
        if set_of(m@).contains(q) {
            let p = q as usize;
            assert(m@[p as int]);
            if ends@.contains(p) {
                let k = choose|k: int| 0 <= k < ends@.len() && ends@[k] == p;
                assert(ends@[k] as int == q);
            }
        }
        if set_of(old(m)@).contains(q) {
            let p = q as usize;
            assert(m@[p as int]);
        }
    }
    assert(set_of(m@) =~= set_of(old(m)@).union(pos_set(ends@)));
}

/// Keeps in `seen` the positions of `next` too, and returns those of them
/// that `seen` did not hold before, with whether there is any.
fn merge_fresh(seen: &mut Vec<bool>, next: &Vec<bool>) -> (r: (Vec<bool>, bool))
    requires
        next@.len() == old(seen)@.len(),
    ensures
        final(seen)@.len() == old(seen)@.len(),
        r.0@.len() == old(seen)@.len(),
        set_of(final(seen)@) == set_of(old(seen)@).union(set_of(next@)),
        set_of(r.0@) == set_of(next@).difference(set_of(old(seen)@)),
        r.1 == (set_of(r.0@) != Set::<int>::empty()),
{
    let n = seen.len();
    let mut fresh: Vec<bool> = Vec::new();
    let mut merged: Vec<bool> = Vec::new();
    let mut any = false;
    let mut i: usize = 0;
    while i < n
        invariant
            n == seen@.len(),
            seen@ == old(seen)@,
            i <= n,
            merged@.len() == i,
            fresh@.len() == i,
            next@.len() == n,
            forall|q: int| 0 <= q < i ==> merged@[q] == (seen@[q] || next@[q]),
            forall|q: int| 0 <= q < i ==> fresh@[q] == (next@[q] && !seen@[q]),
            any == (exists|q: int| 0 <= q < i && #[trigger] fresh@[q]),
        decreases n - i,
    {
        let f = next[i] && !seen[i];
        let ghost prev = fresh@;
        merged.push(seen[i] || next[i]);
        fresh.push(f);
        if f {
            any = true;
            assert(fresh@[i as int]);
        }
        proof {
            if exists|q: int| 0 <= q < i + 1 && #[trigger] fresh@[q] {
                let q = choose|q: int| 0 <= q < i + 1 && #[trigger] fresh@[q];
                if q < i {
                    assert(prev[q]);
                }
            }
            if exists|q: int| 0 <= q < i && #[trigger] prev[q] {
                let q = choose|q: int| 0 <= q < i && #[trigger] prev[q];
                assert(fresh@[q]);
            }
        }
        i = i + 1;
    }
    *seen = merged;
    assert(set_of(seen@) =~= set_of(old(seen)@).union(set_of(next@)));
    assert(set_of(fresh@) =~= set_of(next@).difference(set_of(old(seen)@)));
    proof {
        if any {
            let q = choose|q: int| 0 <= q < i && #[trigger] fresh@[q];
            assert(set_of(fresh@).contains(q));
        } else {
            assert(set_of(fresh@) =~= Set::<int>::empty());
        }
    }
    (fresh, any)
}

/// Whether some position is marked in `m`.
fn any_marked(m: &Vec<bool>) -> (r: bool)
    ensures
        r == (set_of(m@) != Set::<int>::empty()),
{
    let mut i: usize = 0;
    while i < m.len()
        invariant
            i <= m@.len(),
            forall|q: int| 0 <= q < i ==> !m@[q],
        decreases m@.len() - i,
    {
        if m[i] {
            assert(set_of(m@).contains(i as int));
            return true;
        }
        i = i + 1;
    }
    assert(set_of(m@) =~= Set::<int>::empty());
    false
}

/// The meaning of a node: evaluated at `pos` with the captures `caps`, the
/// set of positions where a match of `node` from `pos` can end, and the
/// captures afterwards.
/// - A sequence carries a frontier of positions from node to node, each
///   node being tried from the frontier's positions in increasing order.
/// - An alternation tries every branch on the same captures, unites their
///   ends and keeps the captures of the first branch that matched.
/// - `?` adds `pos` to one try of the inner node; `+` and `*` repeat the
///   inner node from the newly reached positions until no new one comes
///   (the first round is always done; `*` counts `pos` as reached).
/// - A group that matches records `(pos, last end)` over the inner captures.
/// - A backreference repeats the captured span, when there is one.
pub open spec fn eval(node: RegexNode, input: Seq<char>, pos: int, caps: Map<usize, (usize, usize)>) -> (Set<int>, Map<usize, (usize, usize)>)
    decreases node, 0int, 0int,
{
    match node {
        RegexNode::Literal(c) => (one_char(input, pos, input[pos] == c), caps),
        RegexNode::Dot => (one_char(input, pos, true), caps),
        RegexNode::Digit => (one_char(input, pos, is_ascii_digit(input[pos])), caps),
        RegexNode::Word => (one_char(input, pos, word_char(input[pos])), caps),
        RegexNode::CharClass { chars, negated } => (one_char(input, pos, in_class(chars@, negated, input[pos])), caps),
        RegexNode::StartAnchor => (if pos == 0 { set![pos] } else { Set::empty() }, caps),
        RegexNode::EndAnchor => (if pos == input.len() { set![pos] } else { Set::empty() }, caps),
        RegexNode::Backreference(k) => (if caps.contains_key(k) && repeats_span(input, pos, caps[k].0 as int, caps[k].1 as int) {
            set![pos + caps[k].1 - caps[k].0]
        } else {
            Set::empty()
        }, caps),
        RegexNode::Group { group_num, node: inner } => {
            let (r, c) = eval(*inner, input, pos, caps);
            if r == Set::<int>::empty() {
                (r, caps)
            } else {
                (r, c.insert(group_num, (pos as usize, max_of(r) as usize)))
            }
        },
        RegexNode::Sequence(v) => seq_eval(v@, 0, input, set![pos], caps),
        RegexNode::Alternation(v) => {
            let (r, chosen) = alt_eval(v@, 0, input, pos, caps);
            (r, match chosen { Some(c) => c, None => caps })
        },
        RegexNode::Repeat { node: inner, kind } => {
            let (f, c) = eval(*inner, input, pos, caps);
            match kind {
                RepeatKind::ZeroOrOne => (f.insert(pos), c),
                RepeatKind::OneOrMore => rep_loop(*inner, input, f, f, c, (input.len() + 1) as nat),
                RepeatKind::ZeroOrMore => rep_loop(*inner, input, f.insert(pos), f.remove(pos), c, (input.len() + 1) as nat),
            }
        },
    }
}

/// Tries `child` from each position of `front` at or after `p`, in
/// increasing order, threading the captures; unites the ends.
pub open spec fn step_over(child: RegexNode, input: Seq<char>, front: Set<int>, p: int, caps: Map<usize, (usize, usize)>) -> (Set<int>, Map<usize, (usize, usize)>)
    decreases child, 0int, input.len() + 2 - p,
{
    if p > input.len() || p < 0 {
        (Set::empty(), caps)
    } else if front.contains(p) {
        let (r1, c1) = eval(child, input, p, caps);
        let (r2, c2) = step_over(child, input, front, p + 1, c1);
        (r1.union(r2), c2)
    } else {
        step_over(child, input, front, p + 1, caps)
    }
}

/// A sequence from its `k`-th node on, with the frontier `front`.
pub open spec fn seq_eval(nodes: Seq<RegexNode>, k: int, input: Seq<char>, front: Set<int>, caps: Map<usize, (usize, usize)>) -> (Set<int>, Map<usize, (usize, usize)>)
    decreases nodes, 0int, nodes.len() - k,
{
    if k >= nodes.len() || k < 0 {
        (front, caps)
    } else {
        let (n, c) = step_over(nodes[k], input, front, 0, caps);
        if n == Set::<int>::empty() {
            (n, c)
        } else {
            seq_eval(nodes, k + 1, input, n, c)
        }
    }
}

/// The branches from the `k`-th on, each tried at `pos` on `caps`: the union
/// of their ends, and the captures of the first one that matched.
pub open spec fn alt_eval(branches: Seq<RegexNode>, k: int, input: Seq<char>, pos: int, caps: Map<usize, (usize, usize)>) -> (Set<int>, Option<Map<usize, (usize, usize)>>)
    decreases branches, 0int, branches.len() - k,
{
    if k >= branches.len() || k < 0 {
        (Set::empty(), None)
    } else {
        let (r, c) = eval(branches[k], input, pos, caps);
        let (rest, chosen) = alt_eval(branches, k + 1, input, pos, caps);
        (r.union(rest), if r != Set::<int>::empty() { Some(c) } else { chosen })
    }
}

/// The rounds of `+` and `*`: `seen` holds what was reached, `front` what the
/// last round newly reached. A round tries the inner node from `front`; it
/// stops when nothing new is reached. Each round but the last reaches a new
/// position of the line, so `fuel` (one more than the line's length) is
/// never what stops it.
pub open spec fn rep_loop(inner: RegexNode, input: Seq<char>, seen: Set<int>, front: Set<int>, caps: Map<usize, (usize, usize)>, fuel: nat) -> (Set<int>, Map<usize, (usize, usize)>)
    decreases inner, fuel + 1, 0int,
{
    if fuel == 0 || front == Set::<int>::empty() {
        (seen, caps)
    } else {
        let (n, c) = step_over(inner, input, front, 0, caps);
        rep_loop(inner, input, seen.union(n), n.difference(seen), c, (fuel - 1) as nat)
    }
}

/// The captures held by `o`, if any.
pub open spec fn opt_view(o: Option<HashMap<usize, (usize, usize)>>) -> Option<Map<usize, (usize, usize)>> {
    match o {
        Some(g) => Some(g@),
        None => None,
    }
}

/// `a` when it holds something, else `b`.
pub open spec fn first_some(a: Option<Map<usize, (usize, usize)>>, b: Option<Map<usize, (usize, usize)>>) -> Option<Map<usize, (usize, usize)>> {
    if a is Some {
        a
    } else {
        b
    }
}

proof fn lemma_pos_set_one(x: usize)
    ensures
        pos_set(seq![x]) == set![x as int],
{
    assert(seq![x][0] == x);
    assert(pos_set(seq![x]) =~= set![x as int]);
}

proof fn lemma_pos_set_none(r: Seq<usize>)
    requires
        r.len() == 0,
    ensures
        pos_set(r) == Set::<int>::empty(),
{
    assert(pos_set(r) =~= Set::<int>::empty());
}

proof fn lemma_pos_set_last(r: Seq<usize>)
    requires
        ascending(r),
        r.len() > 0,
    ensures
        pos_set(r) != Set::<int>::empty(),
        max_of(pos_set(r)) == r.last() as int,
{
    let s = pos_set(r);
    let l = r.last() as int;
    assert(s.contains(l));
    assert forall|q: int| s.contains(q) implies q <= l by {
        let i = choose|i: int| 0 <= i < r.len() && r[i] as int == q;
        if i < r.len() - 1 {
            assert(r[i] < r[r.len() - 1]);
        }
    }
    let m = max_of(s);
    assert(s.contains(m) && forall|q: int| s.contains(q) ==> q <= m);
}

/// Tries `child` from every marked position of `front`, in increasing order,
/// and marks the positions where it can end.
#[verifier::loop_isolation(false)]
fn step_all(
    child: &RegexNode,
    input: &[char],
    front: &Vec<bool>,
    lo: usize,
    last_group: &mut usize,
    groups: &mut HashMap<usize, (usize, usize)>,
) -> (acc: Vec<bool>)
    requires
        front@.len() == input@.len() + 1,
        input@.len() < usize::MAX,
        spans_ok(old(groups)@, input@.len() as int),
        forall|q: int| set_of(front@).contains(q) ==> lo <= q,
    ensures
        acc@.len() == input@.len() + 1,
        spans_ok(final(groups)@, input@.len() as int),
        *final(last_group) == *old(last_group),
        forall|q: int| set_of(acc@).contains(q) ==> lo <= q,
        set_of(acc@) == step_over(*child, input@, set_of(front@), 0, old(groups)@).0,
        final(groups)@ == step_over(*child, input@, set_of(front@), 0, old(groups)@).1,
    decreases child, 1int,
{
    let len = input.len();
    let ghost f = set_of(front@);
    let ghost total = step_over(*child, input@, f, 0, old(groups)@);
    let mut acc = new_marks(len + 1);
    assert(set_of(acc@) =~= Set::<int>::empty());
    let mut p: usize = 0;
    while p <= len
        invariant
            p <= len + 1,
            len == input@.len(),
            acc@.len() == len + 1,
            spans_ok(groups@, len as int),
            *last_group == *old(last_group),
            forall|q: int| set_of(acc@).contains(q) ==> lo <= q,
            set_of(acc@).union(step_over(*child, input@, f, p as int, groups@).0) == total.0,
            step_over(*child, input@, f, p as int, groups@).1 == total.1,
        decreases len + 1 - p,
    {
        let ghost g0 = groups@;
        let ghost a0 = set_of(acc@);
        if front[p] {
            assert(f.contains(p as int));
            let res = match_node(child, input, p, last_group, groups);
            mark_all(&mut acc, &res);
            proof {
                let r2 = step_over(*child, input@, f, p + 1, groups@);
                assert(set_of(acc@).union(r2.0) =~= a0.union(step_over(*child, input@, f, p as int, g0).0));
                assert forall|q: int| set_of(acc@).contains(q) implies lo <= q by {
                    if pos_set(res@).contains(q) {
                        let i = choose|i: int| 0 <= i < res@.len() && res@[i] as int == q;
                        assert(p <= res@[i]);
                    }
                }
            }
        } else {
            assert(!f.contains(p as int));
        }
        p = p + 1;
    }
    assert(set_of(acc@).union(Set::<int>::empty()) =~= set_of(acc@));
    acc
}

/// Evaluates `node` at `pos`: returns, in increasing order and without
/// repetition, every position at which a match of `node` that starts at
/// `pos` can end, and leaves in `groups` the captures that `eval` gives.
#[verifier::loop_isolation(false)]
#[verifier::rlimit(100)]
#[verifier::spinoff_prover]
pub fn match_node(
    node: &RegexNode,
    input: &[char],
    pos: usize,
    last_group: &mut usize,
    groups: &mut HashMap<usize, (usize, usize)>,
) -> (r: Vec<usize>)
    requires
        pos <= input@.len(),
        input@.len() < usize::MAX,
        spans_ok(old(groups)@, input@.len() as int),
    ensures
        spans_ok(final(groups)@, input@.len() as int),
        *final(last_group) == *old(last_group),
        ascending(r@),
        within(r@, pos as int, input@.len() as int),
        pos_set(r@) == eval(*node, input@, pos as int, old(groups)@).0,
        final(groups)@ == eval(*node, input@, pos as int, old(groups)@).1,
    decreases node, 0int,
{
    let len = input.len();
    match node {
        RegexNode::Group { group_num, node: inner } => {
            let mut local = groups.clone();
            let ends = match_node(inner, input, pos, last_group, &mut local);
            if ends.len() > 0 {
                let last = ends[ends.len() - 1];
                proof {
                    lemma_pos_set_last(ends@);
                }
                local.insert(*group_num, (pos, last));
                *groups = local;
            } else {
                proof {
                    lemma_pos_set_none(ends@);
                }
            }
            ends
        },
        RegexNode::Literal(_) | RegexNode::Dot | RegexNode::Digit | RegexNode::Word | RegexNode::CharClass { .. } => {
            let ok = if pos < len {
                let c = input[pos];
                match node {
                    RegexNode::Literal(l) => c == *l,
                    RegexNode::Dot => true,
                    RegexNode::Digit => '0' <= c && c <= '9',
                    RegexNode::Word => is_alphanumeric(c) || c == '_',
                    RegexNode::CharClass { chars, negated } => {
                        let mut contains = false;
                        let mut i: usize = 0;
                        while i < chars.len()
                            invariant
                                i <= chars@.len(),
                                contains == (exists|k: int| 0 <= k < i && chars@[k] == c),
                            decreases chars@.len() - i,
                        {
                            if chars[i] == c {
                                contains = true;
                            }
                            i = i + 1;
                        }
                        proof {
                            if chars@.contains(c) {
                                let k = choose|k: int| 0 <= k < chars@.len() && chars@[k] == c;
                                assert(chars@[k] == c);
                            }
                        }
                        contains != *negated
                    },
                    _ => false,
                }
            } else {
                false
            };
            if ok {
                let r = vec![pos + 1];
                proof {
                    assert(r@ =~= seq![(pos + 1) as usize]);
                    lemma_pos_set_one((pos + 1) as usize);
                }
                r
            } else {
                let r: Vec<usize> = Vec::new();
                proof {
                    lemma_pos_set_none(r@);
                }
                r
            }
        },
        RegexNode::StartAnchor | RegexNode::EndAnchor => {
            let ok = match node {
                RegexNode::StartAnchor => pos == 0,
                _ => pos == len,
            };
            if ok {
                let r = vec![pos];
                proof {
                    assert(r@ =~= seq![pos]);
                    lemma_pos_set_one(pos);
                }
                r
            } else {
                let r: Vec<usize> = Vec::new();
                proof {
                    lemma_pos_set_none(r@);
                }
                r
            }
        },
        RegexNode::Sequence(nodes) => {
            let mut front = new_marks(len + 1);
            front.set(pos, true);
            assert(set_of(front@) =~= set![pos as int]);
            let mut k: usize = 0;
            while k < nodes.len()
                invariant
                    k <= nodes@.len(),
                    len == input@.len(),
                    front@.len() == len + 1,
                    spans_ok(groups@, len as int),
                    *last_group == *old(last_group),
                    forall|q: int| set_of(front@).contains(q) ==> pos <= q,
                    seq_eval(nodes@, k as int, input@, set_of(front@), groups@) == seq_eval(nodes@, 0, input@, set![pos as int], old(groups)@),
                decreases nodes@.len() - k,
            {
                proof {
                    vstd::std_specs::vec::axiom_vec_index_decreases(*nodes, k as int);
                }
                let acc = step_all(&nodes[k], input, &front, pos, last_group, groups);
                if !any_marked(&acc) {
                    let r: Vec<usize> = Vec::new();
                    proof {
                        lemma_pos_set_none(r@);
                    }
                    return r;
                }
                front = acc;
                k = k + 1;
            }
            let r = marked(&front);
            proof {
                assert forall|i: int| 0 <= i < r@.len() implies pos <= #[trigger] r@[i] <= len by {
                    assert(pos_set(r@).contains(r@[i] as int));
                }
            }
            r
        },
        RegexNode::Alternation(branches) => {
            let ghost total = alt_eval(branches@, 0, input@, pos as int, old(groups)@);
            let mut acc = new_marks(len + 1);
            assert(set_of(acc@) =~= Set::<int>::empty());
            let mut chosen: Option<HashMap<usize, (usize, usize)>> = None;
            let mut k: usize = 0;
            while k < branches.len()
                invariant
                    k <= branches@.len(),
                    len == input@.len(),
                    acc@.len() == len + 1,
                    groups@ == old(groups)@,
                    *last_group == *old(last_group),
                    forall|q: int| set_of(acc@).contains(q) ==> pos <= q,
                    chosen is Some ==> spans_ok(chosen->0@, len as int),
                    set_of(acc@).union(alt_eval(branches@, k as int, input@, pos as int, old(groups)@).0) == total.0,
                    first_some(opt_view(chosen), alt_eval(branches@, k as int, input@, pos as int, old(groups)@).1) == total.1,
                decreases branches@.len() - k,
            {
                let mut branch_groups = groups.clone();
                proof {
                    vstd::std_specs::vec::axiom_vec_index_decreases(*branches, k as int);
                }
                let ghost a0 = set_of(acc@);
                let res = match_node(&branches[k], input, pos, last_group, &mut branch_groups);
                if res.len() > 0 {
                    proof {
                        lemma_pos_set_last(res@);
                    }
                    mark_all(&mut acc, &res);
                    proof {
                        assert(set_of(acc@).union(alt_eval(branches@, k + 1, input@, pos as int, old(groups)@).0)
                            =~= a0.union(alt_eval(branches@, k as int, input@, pos as int, old(groups)@).0));
                        assert forall|q: int| set_of(acc@).contains(q) implies pos <= q by {
                            if pos_set(res@).contains(q) {
                                let i = choose|i: int| 0 <= i < res@.len() && res@[i] as int == q;
                                assert(pos <= res@[i]);
                            }
                        }
                    }
                    if chosen.is_none() {
                        chosen = Some(branch_groups);
                    }
                } else {
                    proof {
                        lemma_pos_set_none(res@);
                        assert(a0.union(alt_eval(branches@, k + 1, input@, pos as int, old(groups)@).0)
                            =~= a0.union(alt_eval(branches@, k as int, input@, pos as int, old(groups)@).0));
                    }
                }
                k = k + 1;
            }
            assert(set_of(acc@).union(Set::<int>::empty()) =~= set_of(acc@));
            let r = marked(&acc);
            if let Some(g) = chosen {
                *groups = g;
            }
            proof {
                assert forall|i: int| 0 <= i < r@.len() implies pos <= #[trigger] r@[i] <= len by {
                    assert(pos_set(r@).contains(r@[i] as int));
                }
            }
            r
        },
        RegexNode::Backreference(n) => {
            match groups.get(n) {
                None => {
                    let r: Vec<usize> = Vec::new();
                    proof {
                        lemma_pos_set_none(r@);
                    }
                    r
                },
                Some(span) => {
                    let (start, end) = *span;
                    assert(groups@.contains_key(*n) && groups@[*n] == (start, end));
                    let length = end - start;
                    if length > len - pos {
                        let r: Vec<usize> = Vec::new();
                        proof {
                            lemma_pos_set_none(r@);
                        }
                        return r;
                    }
                    let mut i: usize = 0;
                    while i < length
                        invariant
                            i <= length,
                            start + length <= input@.len(),
                            pos + length <= input@.len(),
                            forall|t: int| 0 <= t < i ==> #[trigger] input@[start + t] == input@[pos + t],
                        decreases length - i,
                    {
                        if input[start + i] != input[pos + i] {
                            let r: Vec<usize> = Vec::new();
                            proof {
                                let a = input@.subrange(pos as int, pos + length);
                                let b = input@.subrange(start as int, end as int);
                                assert(a[i as int] != b[i as int]);
                                lemma_pos_set_none(r@);
                            }
                            return r;
                        }
                        i = i + 1;
                    }
                    proof {
                        let a = input@.subrange(pos as int, pos + length);
                        let b = input@.subrange(start as int, end as int);
                        assert forall|t: int| 0 <= t < length implies a[t] == b[t] by {
                            assert(input@[start + t] == input@[pos + t]);
                        }
                        assert(a =~= b);
                    }
                    let r = vec![pos + length];
                    proof {
                        assert(r@ =~= seq![(pos + length) as usize]);
                        lemma_pos_set_one((pos + length) as usize);
                    }
                    r
                },
            }
        },
        RegexNode::Repeat { node: inner, kind } => {
            let first = match_node(inner, input, pos, last_group, groups);
            let mut fm = new_marks(len + 1);
            assert(set_of(fm@) =~= Set::<int>::empty());
            mark_all(&mut fm, &first);
            assert(set_of(fm@) =~= pos_set(first@));
            proof {
                assert forall|q: int| set_of(fm@).contains(q) implies pos <= q by {
                    let i = choose|i: int| 0 <= i < first@.len() && first@[i] as int == q;
                    assert(pos <= first@[i]);
                }
            }
            let zero = match kind {
                RepeatKind::ZeroOrOne => {
                    fm.set(pos, true);
                    let r = marked(&fm);
                    proof {
                        assert(set_of(fm@) =~= pos_set(first@).insert(pos as int));
                        assert forall|i: int| 0 <= i < r@.len() implies pos <= #[trigger] r@[i] <= len by {
                            assert(pos_set(r@).contains(r@[i] as int));
                        }
                    }
                    return r;
                },
                RepeatKind::ZeroOrMore => true,
                RepeatKind::OneOrMore => false,
            };
            let mut seen = new_marks(len + 1);
            if zero {
                seen.set(pos, true);
                assert(set_of(seen@) =~= set![pos as int]);
            } else {
                assert(set_of(seen@) =~= Set::<int>::empty());
            }
            let (mut frontier, mut any) = merge_fresh(&mut seen, &fm);
            proof {
                let f = pos_set(first@);
                if zero {
                    assert(set_of(seen@) =~= f.insert(pos as int));
                    assert(set_of(frontier@) =~= f.remove(pos as int));
                } else {
                    assert(set_of(seen@) =~= f);
                    assert(set_of(frontier@) =~= f);
                }
            }
            let ghost total = eval(*node, input@, pos as int, old(groups)@);
            let mut fuel: usize = len + 1;
            while fuel > 0 && any
                invariant
                    len == input@.len(),
                    seen@.len() == len + 1,
                    frontier@.len() == len + 1,
                    spans_ok(groups@, len as int),
                    *last_group == *old(last_group),
                    forall|q: int| set_of(seen@).contains(q) ==> pos <= q,
                    forall|q: int| set_of(frontier@).contains(q) ==> pos <= q,
                    any == (set_of(frontier@) != Set::<int>::empty()),
                    rep_loop(**inner, input@, set_of(seen@), set_of(frontier@), groups@, fuel as nat) == total,
                decreases fuel,
            {
                let next = step_all(inner, input, &frontier, pos, last_group, groups);
                let pair = merge_fresh(&mut seen, &next);
                frontier = pair.0;
                any = pair.1;
                fuel = fuel - 1;
            }
            let r = marked(&seen);
            proof {
                assert forall|i: int| 0 <= i < r@.len() implies pos <= #[trigger] r@[i] <= len by {
                    assert(pos_set(r@).contains(r@[i] as int));
                }
            }
            r
        },
    }
}

/// Whether `ast` matches `line` from some start offset, each start being
/// tried with no captures.
pub open spec fn matches_somewhere(ast: RegexNode, line: Seq<char>) -> bool {
    exists|s: int| 0 <= s <= line.len() && eval(ast, line, s, Map::empty()).0 != Set::<int>::empty()
}

/// Matches a parsed pattern against a line: tries each start offset in
/// increasing order, each with fresh captures, and stops at the first that
/// yields an end position.
pub fn match_tree(ast: &RegexNode, line: &[char]) -> (r: bool)
    requires
        line@.len() < usize::MAX,
    ensures
        r == matches_somewhere(*ast, line@),
{
    let mut start: usize = 0;
    while start <= line.len()
        invariant
            line@.len() < usize::MAX,
            start <= line@.len() + 1,
            forall|s: int| 0 <= s < start ==> #[trigger] eval(*ast, line@, s, Map::empty()).0 == Set::<int>::empty(),
        decreases line@.len() + 1 - start,
    {
        let mut groups: HashMap<usize, (usize, usize)> = HashMap::new();
        let mut last_group: usize = 0;
        assert(groups@ == Map::<usize, (usize, usize)>::empty());
        let ends = match_node(ast, line, start, &mut last_group, &mut groups);
        if ends.len() > 0 {
            proof {
                lemma_pos_set_last(ends@);
            }
            return true;
        }
        proof {
            lemma_pos_set_none(ends@);
        }
        start = start + 1;
    }
    false
}

/// Whether `pattern` matches somewhere in `input_line`: the pattern is parsed,
/// then its tree is matched against the line's characters.
pub fn match_pattern(input_line: &str, pattern: &str) -> (r: bool)
    requires
        input_line@.len() < usize::MAX,
    ensures
        exists|ast: RegexNode| #[trigger] parses_to(pattern@, ast) && r == matches_somewhere(ast, input_line@),
        pattern@.len() == 0 ==> r,
{
    let mut parser = Parser::new(pattern);
    let ast = parser.parse();
    let input_chars = crate::parser::chars_of(input_line);
    proof {
        if pattern@.len() == 0 {
            if let RegexNode::Sequence(v) = &ast {
                assert(seq_eval(v@, 0, input_line@, set![0int], Map::empty()).0 == set![0int]);
            }
            let e = eval(ast, input_line@, 0, Map::empty());
            assert(e.0.contains(0));
        }
    }
    let r = match_tree(&ast, input_chars.as_slice());
    assert(parses_to(pattern@, ast) && r == matches_somewhere(ast, input_line@));
    r
}

proof fn lemma_rep_loop_keeps(inner: RegexNode, input: Seq<char>, seen: Set<int>, front: Set<int>, caps: Map<usize, (usize, usize)>, fuel: nat)
    ensures
        seen.subset_of(rep_loop(inner, input, seen, front, caps, fuel).0),
    decreases fuel,
{
    if fuel > 0 && front != Set::<int>::empty() {
        let (n, c) = step_over(inner, input, front, 0, caps);
        lemma_rep_loop_keeps(inner, input, seen.union(n), n.difference(seen), c, (fuel - 1) as nat);
    }
}

/// A `*` repeat accepts zero occurrences: evaluated at any position of any
/// line, the empty one included, its ends include that very position, so
/// `a*` matches every line at offset 0.
pub proof fn lemma_star_matches_empty(inner: RegexNode, input: Seq<char>, pos: int, caps: Map<usize, (usize, usize)>)
    ensures
        eval(RegexNode::Repeat { node: Box::new(inner), kind: RepeatKind::ZeroOrMore }, input, pos, caps).0.contains(pos),
{
    let (f, c) = eval(inner, input, pos, caps);
    lemma_rep_loop_keeps(inner, input, f.insert(pos), f.remove(pos), c, (input.len() + 1) as nat);
}

/// A negated class such as `[^abc]` takes exactly one character when the
/// character at the position is none of the listed ones, and fails when
/// there is no character left, as on an empty line; it leaves the captures
/// alone.
pub proof fn lemma_negated_class(chars: Vec<char>, input: Seq<char>, pos: int, caps: Map<usize, (usize, usize)>)
    requires
        0 <= pos,
    ensures
        ({
            let e = eval(RegexNode::CharClass { chars, negated: true }, input, pos, caps);
            &&& pos < input.len() && !chars@.contains(input[pos]) ==> e.0 == set![pos + 1]
            &&& pos < input.len() && chars@.contains(input[pos]) ==> e.0 == Set::<int>::empty()
            &&& pos >= input.len() ==> e.0 == Set::<int>::empty()
            &&& e.1 == caps
        }),
{
}

/// `a*` matches every line, the empty one included: whatever tree the
/// pattern parses to, matching it from offset 0 succeeds.
pub proof fn lemma_star_pattern_matches(ast: RegexNode, line: Seq<char>)
    requires
        parses_to(seq!['a', '*'], ast),
    ensures
        matches_somewhere(ast, line),
{
    let t = seq!['a', '*'];
    let caps = Map::<usize, (usize, usize)>::empty();
    match ast {
        RegexNode::Alternation(v) => {
            let q = alt_end(t, 0, v@, 1);
            assert(branches_ok(t, 0, 0, v@, v@.len() as int));
            lemma_branches_first(t, 0, 0, v@, v@.len() as int);
            assert(0 <= q < t.len() && t[q] == '|');
            assert(q == 0 || q == 1);
            assert(false);
        },
        RegexNode::Sequence(v) => {
            let vs = v@;
            assert(nodes_ok(t, 0, 0, vs, vs.len() as int));
            if vs.len() == 0 {
                assert(seq_ok(t, 0, 0, ast));
                assert(seq_end(t, 0, vs, 0) == 0);
                assert(end_of(t, 0, ast) == 0);
                assert(false);
            }
            lemma_nodes_first(t, 0, 0, vs, vs.len() as int);
            let n0 = vs[0];
            assert(repeat_ok(t, 0, 0, n0));
            match n0 {
                RegexNode::Repeat { node, kind } => {
                    assert(atom_ok(t, 0, 0, *node));
                    assert(*node == RegexNode::Literal('a'));
                    assert(end_of(t, 0, *node) == 1);
                    assert(kind == RepeatKind::ZeroOrMore);
                    assert(end_of(t, 0, n0) == 2);
                    if vs.len() >= 2 {
                        lemma_nodes_first(t, 0, 0, vs, vs.len() as int);
                        assert(nodes_ok(t, 0, 0, vs, 2));
                        assert(seq_end(t, 0, vs, 0) == 0);
                        assert(seq_end(t, 0, vs, 1) == 2);
                        assert(!stops_seq(t, seq_end(t, 0, vs, 1)));
                        assert(false);
                    }
                    lemma_star_matches_empty(*node, line, 0, caps);
                    assert(n0 == RegexNode::Repeat { node: Box::new(*node), kind: RepeatKind::ZeroOrMore });
                    let front = set![0int];
                    let (r1, c1) = eval(n0, line, 0, caps);
                    assert(r1.contains(0));
                    let st = step_over(n0, line, front, 0, caps);
                    assert(st.0.contains(0));
                    assert(vs.len() == 1 && vs[0] == n0);
                    assert(seq_eval(vs, 1, line, st.0, st.1) == st);
                    assert(seq_eval(vs, 0, line, front, caps).0 == st.0);
                    assert(eval(ast, line, 0, caps).0 == st.0);
                    assert(eval(ast, line, 0, caps).0 != Set::<int>::empty());
                },
                _ => {
                    assert(atom_ok(t, 0, 0, n0));
                    assert(n0 == RegexNode::Literal('a'));
                    assert(false);
                },
            }
        },
        _ => {},
    }
}

/// `[^abc]` takes one character, so it never matches the empty line,
/// whatever tree the pattern parses to.
pub proof fn lemma_negated_class_pattern_rejects_empty(ast: RegexNode)
    requires
        parses_to(seq!['[', '^', 'a', 'b', 'c', ']'], ast),
    ensures
        !matches_somewhere(ast, Seq::<char>::empty()),
{
    let t = seq!['[', '^', 'a', 'b', 'c', ']'];
    let line = Seq::<char>::empty();
    let caps = Map::<usize, (usize, usize)>::empty();
    assert(t[0] == '[' && t[1] == '^' && t[2] == 'a' && t[3] == 'b' && t[4] == 'c' && t[5] == ']');
    match ast {
        RegexNode::Alternation(v) => {
            let q = alt_end(t, 0, v@, 1);
            lemma_branches_first(t, 0, 0, v@, v@.len() as int);
            assert(q == 0 || q == 1 || q == 2 || q == 3 || q == 4 || q == 5);
            assert(false);
        },
        RegexNode::Sequence(v) => {
            let vs = v@;
            if vs.len() == 0 {
                assert(seq_ok(t, 0, 0, ast));
                assert(seq_end(t, 0, vs, 0) == 0);
                assert(false);
            }
            lemma_nodes_first(t, 0, 0, vs, vs.len() as int);
            let n0 = vs[0];
            match n0 {
                RegexNode::CharClass { chars, negated } => {
                    assert(atom_ok(t, 0, 0, n0));
                    let stop: int = 2 + chars@.len() as int;
                    assert(negated);
                    if stop < 5 {
                        assert(t[stop] != ']');
                        assert(false);
                    }
                    if stop == 6 {
                        assert(t[5] == ']');
                        assert(false);
                    }
                    assert(end_of(t, 0, n0) == 6);
                    if vs.len() >= 2 {
                        assert(nodes_ok(t, 0, 0, vs, 2));
                        assert(seq_end(t, 0, vs, 0) == 0);
                        assert(seq_end(t, 0, vs, 1) == 6);
                        assert(false);
                    }
                    let front = set![0int];
                    assert(eval(n0, line, 0, caps).0 == Set::<int>::empty());
                    let st = step_over(n0, line, front, 0, caps);
                    assert(step_over(n0, line, front, 1, eval(n0, line, 0, caps).1).0 == Set::<int>::empty());
                    assert(st.0 =~= Set::<int>::empty());
                    assert(vs.len() == 1 && vs[0] == n0);
                    assert(seq_eval(vs, 0, line, front, caps) == st);
                    assert(eval(ast, line, 0, caps).0 == Set::<int>::empty());
                    assert forall|s: int| 0 <= s <= line.len() implies eval(ast, line, s, Map::empty()).0 == Set::<int>::empty() by {
                        assert(s == 0);
                    }
                },
                RegexNode::Repeat { node, kind } => {
                    assert(atom_ok(t, 0, 0, *node));
                    match *node {
                        RegexNode::CharClass { chars, negated } => {
                            let stop: int = 2 + chars@.len() as int;
                            if stop < 5 {
                                assert(t[stop] != ']');
                                assert(false);
                            }
                            if stop == 6 {
                                assert(t[5] == ']');
                                assert(false);
                            }
                            assert(end_of(t, 0, *node) == 6);
                            assert(false);
                        },
                        _ => {
                            assert(false);
                        },
                    }
                },
                _ => {
                    assert(atom_ok(t, 0, 0, n0));
                    assert(false);
                },
            }
        },
        _ => {},
    }
}

} // verus!
