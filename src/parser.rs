use vstd::prelude::*;
use vstd::std_specs::iter::IteratorSpec;

verus! {

/// The quantifiers the pattern language knows.
#[derive(Debug, Clone, Copy, PartialEq, Eq, Structural)]
pub enum RepeatKind {
    ZeroOrOne,
    OneOrMore,
    ZeroOrMore,
}

/// The syntax tree of a pattern.
#[derive(Debug)]
pub enum RegexNode {
    Sequence(Vec<RegexNode>),
    Alternation(Vec<RegexNode>),
    Repeat { node: Box<RegexNode>, kind: RepeatKind },
    StartAnchor,
    EndAnchor,
    Dot,
    Digit,
    Word,
    CharClass { chars: Vec<char>, negated: bool },
    Literal(char),
    Backreference(usize),
    Group { group_num: usize, node: Box<RegexNode> },
}

impl Clone for RegexNode {
    fn clone(&self) -> (r: Self)
        decreases self,
    {
        match self {
            RegexNode::Sequence(v) => RegexNode::Sequence(clone_nodes(v)),
            RegexNode::Alternation(v) => RegexNode::Alternation(clone_nodes(v)),
            RegexNode::Repeat { node, kind } => RegexNode::Repeat { node: Box::new((**node).clone()), kind: *kind },
            RegexNode::StartAnchor => RegexNode::StartAnchor,
            RegexNode::EndAnchor => RegexNode::EndAnchor,
            RegexNode::Dot => RegexNode::Dot,
            RegexNode::Digit => RegexNode::Digit,
            RegexNode::Word => RegexNode::Word,
            RegexNode::CharClass { chars, negated } => RegexNode::CharClass { chars: chars.clone(), negated: *negated },
            RegexNode::Literal(c) => RegexNode::Literal(*c),
            RegexNode::Backreference(k) => RegexNode::Backreference(*k),
            RegexNode::Group { group_num, node } => RegexNode::Group {
                group_num: *group_num,
                node: Box::new((**node).clone()),
            },
        }
    }
}

fn clone_nodes(v: &Vec<RegexNode>) -> (r: Vec<RegexNode>)
    decreases v,
{
    let mut out: Vec<RegexNode> = Vec::new();
    let mut i: usize = 0;
    while i < v.len()
        decreases v@.len() - i,
    {
        out.push(v[i].clone());
        i = i + 1;
    }
    out
}

/// Every group number and every backreference in `n` lies in `1..=count`.
pub open spec fn wf_node(n: RegexNode, count: nat) -> bool
    decreases n,
{
    match n {
        RegexNode::Sequence(v) => forall|i: int| 0 <= i < v@.len() ==> wf_node(#[trigger] v@[i], count),
        RegexNode::Alternation(v) => forall|i: int| 0 <= i < v@.len() ==> wf_node(#[trigger] v@[i], count),
        RegexNode::Repeat { node, kind } => wf_node(*node, count),
        RegexNode::Backreference(k) => 1 <= k <= count,
        RegexNode::Group { group_num, node } => 1 <= group_num <= count && wf_node(*node, count),
        RegexNode::Literal(_) => true,
        RegexNode::CharClass { .. } => true,
        RegexNode::StartAnchor | RegexNode::EndAnchor => true,
        RegexNode::Dot | RegexNode::Digit | RegexNode::Word => true,
    }
}

proof fn lemma_literal_wf(c: char, count: nat)
    ensures
        wf_node(RegexNode::Literal(c), count),
{
}

/// A larger group count keeps a tree well formed.
pub proof fn lemma_wf_mono(n: RegexNode, a: nat, b: nat)
    requires
        wf_node(n, a),
        a <= b,
    ensures
        wf_node(n, b),
    decreases n,
{
    match n {
        RegexNode::Sequence(v) => {
            assert forall|i: int| 0 <= i < v@.len() implies wf_node(#[trigger] v@[i], b) by {
                lemma_wf_mono(v@[i], a, b);
            }
        },
        RegexNode::Alternation(v) => {
            assert forall|i: int| 0 <= i < v@.len() implies wf_node(#[trigger] v@[i], b) by {
                lemma_wf_mono(v@[i], a, b);
            }
        },
        RegexNode::Repeat { node, kind } => lemma_wf_mono(*node, a, b),
        RegexNode::Group { group_num, node } => lemma_wf_mono(*node, a, b),
        _ => {},
    }
}

/// Whether `n` is a sequence of no nodes, which matches the empty string.
pub open spec fn is_empty_sequence(n: RegexNode) -> bool {
    match n {
        RegexNode::Sequence(v) => v@.len() == 0,
        _ => false,
    }
}

/// Whether `c` has a meaning of its own at the start of an atom.
pub open spec fn is_special(c: char) -> bool {
    c == '(' || c == '[' || c == '\\' || c == '.' || c == '^' || c == '$'
}

/// The atom that a single character `c` gives when it starts an atom and
/// opens neither a group, a class nor an escape.
pub open spec fn plain_atom(c: char, r: RegexNode) -> bool {
    &&& c == '.' ==> r == RegexNode::Dot
    &&& c == '^' ==> r == RegexNode::StartAnchor
    &&& c == '$' ==> r == RegexNode::EndAnchor
    &&& !is_special(c) ==> r == RegexNode::Literal(c)
    &&& c == '[' ==> r is CharClass
    &&& c == '(' ==> r is Group
}

/// The atom that `\c` gives when `c` is not a digit: `\d` and `\w` are the
/// digit and word classes, any other character stands for itself.
pub open spec fn escaped_atom(c: char, r: RegexNode) -> bool {
    &&& c == 'd' ==> r == RegexNode::Digit
    &&& c == 'w' ==> r == RegexNode::Word
    &&& c != 'd' && c != 'w' && !is_ascii_digit(c) ==> r == RegexNode::Literal(c)
    &&& is_ascii_digit(c) ==> (r is Backreference || r == RegexNode::Literal('\\'))
}

/// The quantifier that `c` writes after an atom, if any.
pub open spec fn quantifier(c: char) -> Option<RepeatKind> {
    if c == '?' {
        Some(RepeatKind::ZeroOrOne)
    } else if c == '+' {
        Some(RepeatKind::OneOrMore)
    } else if c == '*' {
        Some(RepeatKind::ZeroOrMore)
    } else {
        None
    }
}

/// `r` is the class whose text starts at `s` (just after `[`) and that ends
/// the atom at `e`: an optional `^`, then every character up to the next `]`,
/// which is consumed when present.
pub open spec fn class_ok(t: Seq<char>, s: int, r: RegexNode, e: int) -> bool {
    match r {
        RegexNode::CharClass { chars, negated } => {
            let start = if negated { s + 1 } else { s };
            let stop = start + chars@.len();
            &&& negated == (s < t.len() && t[s] == '^')
            &&& stop <= t.len()
            &&& chars@ == t.subrange(start, stop)
            &&& forall|k: int| start <= k < stop ==> t[k] != ']'
            &&& (stop == t.len() && e == stop) || (stop < t.len() && t[stop] == ']' && e == stop + 1)
        },
        _ => false,
    }
}

/// The value of an ASCII digit.
pub open spec fn digit_value(c: char) -> int {
    c as int - '0' as int
}

/// The end of the run of ASCII digits that starts at `q`.
pub open spec fn digit_end(t: Seq<char>, q: int) -> int
    decreases t.len() - q,
{
    if 0 <= q < t.len() && is_ascii_digit(t[q]) {
        digit_end(t, q + 1)
    } else {
        q
    }
}

/// The number written by the digits `t[q..e]`.
pub open spec fn digits_number(t: Seq<char>, q: int, e: int) -> int
    decreases e - q,
{
    if e <= q {
        0
    } else {
        digits_number(t, q, e - 1) * 10 + digit_value(t[e - 1])
    }
}

/// Where the text of node `r`, read from `p`, ends.
pub open spec fn end_of(t: Seq<char>, p: int, r: RegexNode) -> int
    decreases r, 0int,
{
    match r {
        RegexNode::Literal(_) => if 0 <= p < t.len() && t[p] == '\\' {
            if p + 1 >= t.len() {
                p + 1
            } else if is_ascii_digit(t[p + 1]) {
                digit_end(t, p + 1)
            } else {
                p + 2
            }
        } else {
            p + 1
        },
        RegexNode::Dot | RegexNode::StartAnchor | RegexNode::EndAnchor => p + 1,
        RegexNode::Digit | RegexNode::Word => p + 2,
        RegexNode::Backreference(_) => digit_end(t, p + 1),
        RegexNode::CharClass { chars, negated } => {
            let stop = p + 1 + (if negated { 1int } else { 0int }) + chars@.len();
            if stop < t.len() { stop + 1 } else { stop }
        },
        RegexNode::Group { node, .. } => {
            let e1 = end_of(t, p + 1, *node);
            if 0 <= e1 < t.len() && t[e1] == ')' { e1 + 1 } else { e1 }
        },
        RegexNode::Repeat { node, .. } => end_of(t, p, *node) + 1,
        RegexNode::Sequence(v) => seq_end(t, p, v@, v@.len() as int),
        RegexNode::Alternation(v) => alt_end(t, p, v@, v@.len() as int),
    }
}

/// Where the first `i` nodes of `v`, read one after another from `p`, end.
pub open spec fn seq_end(t: Seq<char>, p: int, v: Seq<RegexNode>, i: int) -> int
    decreases v, i,
{
    if i <= 0 || i > v.len() {
        p
    } else {
        end_of(t, seq_end(t, p, v, i - 1), v[i - 1])
    }
}

/// Where the `i`-th of the branches `v`, read from `p` and separated by one
/// character each, ends.
pub open spec fn alt_end(t: Seq<char>, p: int, v: Seq<RegexNode>, i: int) -> int
    decreases v, i,
{
    if i <= 0 || i > v.len() {
        p
    } else if i == 1 {
        end_of(t, p, v[0])
    } else {
        end_of(t, alt_end(t, p, v, i - 1) + 1, v[i - 1])
    }
}

/// The number of groups in `r`.
pub open spec fn ngroups(r: RegexNode) -> int
    decreases r, 0int,
{
    match r {
        RegexNode::Group { node, .. } => 1 + ngroups(*node),
        RegexNode::Repeat { node, .. } => ngroups(*node),
        RegexNode::Sequence(v) => ngroups_seq(v@, v@.len() as int),
        RegexNode::Alternation(v) => ngroups_seq(v@, v@.len() as int),
        _ => 0,
    }
}

/// The number of groups in the first `i` nodes of `v`.
pub open spec fn ngroups_seq(v: Seq<RegexNode>, i: int) -> int
    decreases v, i,
{
    if i <= 0 || i > v.len() {
        0
    } else {
        ngroups_seq(v, i - 1) + ngroups(v[i - 1])
    }
}

/// Where a sequence ends: at the end of the pattern, or before `)` or `|`.
pub open spec fn stops_seq(t: Seq<char>, p: int) -> bool {
    p >= t.len() || t[p] == ')' || t[p] == '|'
}

/// `r` is what the escape whose character stands at `q` (just after the
/// backslash) gives, ending at `e`, with `c` groups opened before it. A digit
/// run names a group opened before it, or else stands for a backslash.
pub open spec fn escape_ok(t: Seq<char>, q: int, c: int, r: RegexNode, e: int) -> bool {
    if q >= t.len() {
        r == RegexNode::Literal('\\') && e == q
    } else if t[q] == 'd' {
        r == RegexNode::Digit && e == q + 1
    } else if t[q] == 'w' {
        r == RegexNode::Word && e == q + 1
    } else if is_ascii_digit(t[q]) {
        let n = digits_number(t, q, e);
        &&& e == digit_end(t, q)
        &&& r == (if 1 <= n <= c { RegexNode::Backreference(n as usize) } else { RegexNode::Literal('\\') })
    } else {
        r == RegexNode::Literal(t[q]) && e == q + 1
    }
}

/// `r` is the atom read from `p`, with `c` groups opened before it. A group
/// takes the next number and holds the alternation read after its `(`.
pub open spec fn atom_ok(t: Seq<char>, p: int, c: int, r: RegexNode) -> bool
    decreases r, 0int,
{
    if p >= t.len() {
        is_empty_sequence(r)
    } else if t[p] == '(' {
        match r {
            RegexNode::Group { group_num, node } => group_num == c + 1 && alt_ok(t, p + 1, c + 1, *node),
            _ => false,
        }
    } else if t[p] == '[' {
        class_ok(t, p + 1, r, end_of(t, p, r))
    } else if t[p] == '\\' {
        escape_ok(t, p + 1, c, r, end_of(t, p, r))
    } else {
        r == (if t[p] == '.' {
            RegexNode::Dot
        } else if t[p] == '^' {
            RegexNode::StartAnchor
        } else if t[p] == '$' {
            RegexNode::EndAnchor
        } else {
            RegexNode::Literal(t[p])
        })
    }
}

/// `r` is the atom read from `p`, wrapped in a repeat when a quantifier
/// follows it.
pub open spec fn repeat_ok(t: Seq<char>, p: int, c: int, r: RegexNode) -> bool
    decreases r, 1int,
{
    match r {
        RegexNode::Repeat { node, kind } => {
            let e1 = end_of(t, p, *node);
            &&& !(*node is Repeat)
            &&& atom_ok(t, p, c, *node)
            &&& 0 <= e1 < t.len()
            &&& quantifier(t[e1]) == Some(kind)
        },
        _ => {
            let e = end_of(t, p, r);
            atom_ok(t, p, c, r) && (e >= t.len() || quantifier(t[e]) is None)
        },
    }
}

/// The first `i` nodes of `v` are repeats read one after another from `p`,
/// with `c` groups opened before them, none starting where a sequence stops.
pub open spec fn nodes_ok(t: Seq<char>, p: int, c: int, v: Seq<RegexNode>, i: int) -> bool
    decreases v, i,
{
    if i <= 0 {
        true
    } else if i > v.len() {
        false
    } else {
        let q = seq_end(t, p, v, i - 1);
        &&& nodes_ok(t, p, c, v, i - 1)
        &&& !stops_seq(t, q)
        &&& repeat_ok(t, q, c + ngroups_seq(v, i - 1), v[i - 1])
    }
}

/// `r` is the sequence read from `p`: repeats up to the end of the pattern,
/// a `)` or a `|`.
pub open spec fn seq_ok(t: Seq<char>, p: int, c: int, r: RegexNode) -> bool
    decreases r, 2int,
{
    match r {
        RegexNode::Sequence(v) => nodes_ok(t, p, c, v@, v@.len() as int) && stops_seq(t, end_of(t, p, r)),
        _ => false,
    }
}

/// The first `i` of the branches `v` are sequences read from `p`, each after
/// the first following a `|`.
pub open spec fn branches_ok(t: Seq<char>, p: int, c: int, v: Seq<RegexNode>, i: int) -> bool
    decreases v, i,
{
    if i <= 0 || i > v.len() {
        false
    } else if i == 1 {
        seq_ok(t, p, c, v[0])
    } else {
        let q = alt_end(t, p, v, i - 1);
        &&& branches_ok(t, p, c, v, i - 1)
        &&& 0 <= q < t.len() && t[q] == '|'
        &&& seq_ok(t, q + 1, c + ngroups_seq(v, i - 1), v[i - 1])
    }
}

/// `r` is the alternation read from `p`, with `c` groups opened before it:
/// one sequence, or two or more separated by `|`, up to the end of the
/// pattern or a `)`.
pub open spec fn alt_ok(t: Seq<char>, p: int, c: int, r: RegexNode) -> bool
    decreases r, 3int,
{
    let e = end_of(t, p, r);
    &&& (e >= t.len() || t[e] == ')')
    &&& match r {
        RegexNode::Alternation(v) => v@.len() >= 2 && branches_ok(t, p, c, v@, v@.len() as int),
        RegexNode::Sequence(_) => seq_ok(t, p, c, r),
        _ => false,
    }
}

proof fn lemma_prefix(t: Seq<char>, p: int, c: int, v: Seq<RegexNode>, x: RegexNode, i: int)
    requires
        0 <= i <= v.len(),
    ensures
        seq_end(t, p, v.push(x), i) == seq_end(t, p, v, i),
        alt_end(t, p, v.push(x), i) == alt_end(t, p, v, i),
        ngroups_seq(v.push(x), i) == ngroups_seq(v, i),
        nodes_ok(t, p, c, v.push(x), i) == nodes_ok(t, p, c, v, i),
        branches_ok(t, p, c, v.push(x), i) == branches_ok(t, p, c, v, i),
    decreases i,
{
    if i > 0 {
        lemma_prefix(t, p, c, v, x, i - 1);
        assert(v.push(x)[i - 1] == v[i - 1]);
        assert(v.push(x)[0] == v[0]);
    }
}

proof fn lemma_literal_atom(t: Seq<char>, p: int, c: int, ch: char)
    requires
        0 <= p < t.len(),
        t[p] == ch,
        !is_special(ch),
    ensures
        atom_ok(t, p, c, RegexNode::Literal(ch)),
        end_of(t, p, RegexNode::Literal(ch)) == p + 1,
        ngroups(RegexNode::Literal(ch)) == 0,
{
}

/// The first node of a sequence that holds `i` nodes starts where the
/// sequence does; so does the first branch of an alternation.
pub proof fn lemma_nodes_first(t: Seq<char>, p: int, c: int, v: Seq<RegexNode>, i: int)
    requires
        1 <= i <= v.len(),
        nodes_ok(t, p, c, v, i),
    ensures
        nodes_ok(t, p, c, v, 1),
        repeat_ok(t, p, c, v[0]),
        !stops_seq(t, p),
        forall|k: int| 1 <= k <= i ==> #[trigger] nodes_ok(t, p, c, v, k),
    decreases i,
{
    if i > 1 {
        lemma_nodes_first(t, p, c, v, i - 1);
    }
    assert(seq_end(t, p, v, 0) == p);
    assert(ngroups_seq(v, 0) == 0);
}

pub proof fn lemma_branches_first(t: Seq<char>, p: int, c: int, v: Seq<RegexNode>, i: int)
    requires
        2 <= i <= v.len(),
        branches_ok(t, p, c, v, i),
    ensures
        branches_ok(t, p, c, v, 2),
        ({
            let q = alt_end(t, p, v, 1);
            0 <= q < t.len() && t[q] == '|'
        }),
    decreases i,
{
    if i > 2 {
        lemma_branches_first(t, p, c, v, i - 1);
    }
}

/// The tree that `pattern` parses to.
pub open spec fn parses_to(pattern: Seq<char>, r: RegexNode) -> bool {
    alt_ok(pattern, 0, 0, r)
}

/// Whether `c` is an ASCII decimal digit.
pub open spec fn is_ascii_digit(c: char) -> bool {
    '0' <= c && c <= '9'
}

/// A recursive-descent parser over the characters of a pattern:
///   alt := seq ('|' seq)*
///   seq := repeat*
///   repeat := atom ('?' | '+' | '*')?
///   atom := '(' alt ')' | '[' '^'? class ']' | '\' esc | '.' | '^' | '$' | literal
pub struct Parser {
    chars: Vec<char>,
    pos: usize,
    ref_count: usize,
}

/// Relies on str::chars: it yields the characters of the string in order.
pub(crate) fn chars_of(s: &str) -> (r: Vec<char>)
    ensures
        r@ == s@,
{
    broadcast use vstd::string::axiom_spec_iter, vstd::string::next_postcondition;

    let mut out: Vec<char> = Vec::new();
    let mut it = s.chars();
    loop
        invariant
            out@ + it.remaining() == s@,
            it.obeys_prophetic_iter_laws(),
            it.decrease() is Some,
        ensures
            out@ == s@,
        decreases it.decrease()->0,
    {
        match it.next() {
            Some(c) => out.push(c),
            None => break,
        }
    }
    out
}

impl Parser {
    /// The characters of the pattern.
    pub closed spec fn text(&self) -> Seq<char> {
        self.chars@
    }

    /// The index of the next character to read.
    pub closed spec fn cursor(&self) -> nat {
        self.pos as nat
    }

    /// How many groups have been opened so far.
    pub closed spec fn group_count(&self) -> nat {
        self.ref_count as nat
    }

    /// The parser's invariant: the cursor is within the pattern and every
    /// opened group consumed a character.
    pub closed spec fn inv(&self) -> bool {
        self.ref_count <= self.pos <= self.chars@.len()
    }

    /// Creates a parser positioned at the start of `pattern`.
    pub fn new(pattern: &str) -> (p: Parser)
        ensures
            p.inv(),
            p.text() == pattern@,
            p.cursor() == 0,
            p.group_count() == 0,
    {
        Parser { chars: chars_of(pattern), pos: 0, ref_count: 0 }
    }

    fn peek(&self) -> (r: Option<char>)
        requires
            self.inv(),
        ensures
            r == (if self.pos < self.chars@.len() {
                Some(self.chars@[self.pos as int])
            } else {
                None::<char>
            }),
    {
        if self.pos < self.chars.len() {
            Some(self.chars[self.pos])
        } else {
            None
        }
    }

    fn advance(&mut self) -> (r: Option<char>)
        requires
            old(self).inv(),
        ensures
            final(self).inv(),
            final(self).chars == old(self).chars,
            final(self).ref_count == old(self).ref_count,
            old(self).pos < old(self).chars@.len() ==> r == Some(old(self).chars@[old(self).pos as int])
                && final(self).pos == old(self).pos + 1,
            old(self).pos >= old(self).chars@.len() ==> r is None && final(self).pos == old(self).pos,
    {
        if self.pos < self.chars.len() {
            let ch = self.chars[self.pos];
            self.pos = self.pos + 1;
            Some(ch)
        } else {
            None
        }
    }

    fn expect(&mut self, expected: char) -> (r: bool)
        requires
            old(self).inv(),
        ensures
            final(self).inv(),
            final(self).chars == old(self).chars,
            final(self).ref_count == old(self).ref_count,
            r == (old(self).pos < old(self).chars@.len() && old(self).chars@[old(self).pos as int] == expected),
            final(self).pos == (if r { old(self).pos + 1 } else { old(self).pos as int }),
    {
        if self.pos < self.chars.len() && self.chars[self.pos] == expected {
            self.advance();
            true
        } else {
            false
        }
    }

    /// Parses the whole pattern from the cursor. Parsing never fails: it stops
    /// at the end of the pattern or at a `)` that closes no group, and the tree
    /// it returns numbers its groups within `1..=group_count()`.
    pub fn parse(&mut self) -> (r: RegexNode)
        requires
            old(self).inv(),
        ensures
            final(self).inv(),
            final(self).text() == old(self).text(),
            old(self).cursor() <= final(self).cursor(),
            old(self).group_count() <= final(self).group_count(),
            wf_node(r, final(self).group_count()),
            final(self).cursor() == final(self).text().len()
                || final(self).text()[final(self).cursor() as int] == ')',
            old(self).cursor() == old(self).text().len() ==> is_empty_sequence(r),
            r is Sequence || r is Alternation,
            r matches RegexNode::Alternation(v) ==> v@.len() >= 2 && forall|i: int| 0 <= i < v@.len() ==> #[trigger] v@[i] is Sequence,
            alt_ok(old(self).text(), old(self).cursor() as int, old(self).group_count() as int, r),
            final(self).cursor() == end_of(old(self).text(), old(self).cursor() as int, r),
            final(self).group_count() == old(self).group_count() + ngroups(r),
    {
        self.parse_alt()
    }

    fn parse_alt(&mut self) -> (r: RegexNode)
        requires
            old(self).inv(),
        ensures
            final(self).inv(),
            final(self).chars == old(self).chars,
            old(self).pos <= final(self).pos,
            old(self).ref_count <= final(self).ref_count,
            wf_node(r, final(self).ref_count as nat),
            final(self).pos == final(self).chars@.len() || final(self).chars@[final(self).pos as int] == ')',
            old(self).pos == old(self).chars@.len() ==> is_empty_sequence(r),
            r is Sequence || r is Alternation,
            r matches RegexNode::Alternation(v) ==> v@.len() >= 2 && forall|i: int| 0 <= i < v@.len() ==> #[trigger] v@[i] is Sequence,
            alt_ok(old(self).chars@, old(self).pos as int, old(self).ref_count as int, r),
            final(self).pos == end_of(old(self).chars@, old(self).pos as int, r),
            final(self).ref_count == old(self).ref_count + ngroups(r),
        decreases old(self).chars@.len() - old(self).pos, 4nat,
    {
        let mut branches: Vec<RegexNode> = Vec::new();
        let first = self.parse_seq();
        branches.push(first);
        assert(branches@[0] == first);
        assert(ngroups_seq(branches@, 0) == 0);
        while self.pos < self.chars.len() && self.chars[self.pos] == '|'
            invariant
                self.inv(),
                old(self).pos == old(self).chars@.len() ==> branches@.len() == 1 && is_empty_sequence(branches@[0]),
                self.chars == old(self).chars,
                old(self).pos <= self.pos,
                old(self).ref_count <= self.ref_count,
                branches@.len() >= 1,
                forall|i: int| 0 <= i < branches@.len() ==> #[trigger] branches@[i] is Sequence,
                branches_ok(self.chars@, old(self).pos as int, old(self).ref_count as int, branches@, branches@.len() as int),
                self.pos == alt_end(self.chars@, old(self).pos as int, branches@, branches@.len() as int),
                self.ref_count == old(self).ref_count + ngroups_seq(branches@, branches@.len() as int),
                forall|i: int| 0 <= i < branches@.len() ==> wf_node(#[trigger] branches@[i], self.ref_count as nat),
                self.pos == self.chars@.len() || self.chars@[self.pos as int] == ')' || self.chars@[self.pos as int] == '|',
            decreases self.chars@.len() - self.pos,
        {
            self.advance();
            let ghost before = self.ref_count as nat;
            let b = self.parse_seq();
            proof {
                assert forall|i: int| 0 <= i < branches@.len() implies wf_node(#[trigger] branches@[i], self.ref_count as nat) by {
                    lemma_wf_mono(branches@[i], before, self.ref_count as nat);
                }
            }
            let ghost prev = branches@;
            branches.push(b);
            proof {
                lemma_prefix(self.chars@, old(self).pos as int, old(self).ref_count as int, prev, b, prev.len() as int);
                assert(branches@ == prev.push(b));
                assert(branches@[prev.len() as int] == b);
            }
        }
        if branches.len() == 1 {
            assert(ngroups_seq(branches@, 0) == 0);
            let r = branches.pop().unwrap();
            r
        } else {
            RegexNode::Alternation(branches)
        }
    }

    fn parse_seq(&mut self) -> (r: RegexNode)
        requires
            old(self).inv(),
        ensures
            final(self).inv(),
            final(self).chars == old(self).chars,
            old(self).pos <= final(self).pos,
            old(self).ref_count <= final(self).ref_count,
            wf_node(r, final(self).ref_count as nat),
            r is Sequence,
            old(self).pos == old(self).chars@.len() ==> is_empty_sequence(r),
            seq_ok(old(self).chars@, old(self).pos as int, old(self).ref_count as int, r),
            final(self).pos == end_of(old(self).chars@, old(self).pos as int, r),
            final(self).ref_count == old(self).ref_count + ngroups(r),
            final(self).pos == final(self).chars@.len() || final(self).chars@[final(self).pos as int] == ')'
                || final(self).chars@[final(self).pos as int] == '|',
        decreases old(self).chars@.len() - old(self).pos, 3nat,
    {
        let mut nodes: Vec<RegexNode> = Vec::new();
        while self.pos < self.chars.len() && self.chars[self.pos] != ')' && self.chars[self.pos] != '|'
            invariant
                self.inv(),
                old(self).pos == old(self).chars@.len() ==> nodes@.len() == 0,
                nodes_ok(self.chars@, old(self).pos as int, old(self).ref_count as int, nodes@, nodes@.len() as int),
                self.pos == seq_end(self.chars@, old(self).pos as int, nodes@, nodes@.len() as int),
                self.ref_count == old(self).ref_count + ngroups_seq(nodes@, nodes@.len() as int),
                self.chars == old(self).chars,
                old(self).pos <= self.pos,
                old(self).ref_count <= self.ref_count,
                forall|i: int| 0 <= i < nodes@.len() ==> wf_node(#[trigger] nodes@[i], self.ref_count as nat),
            decreases self.chars@.len() - self.pos,
        {
            let ghost before = self.ref_count as nat;
            let n = self.parse_repeat();
            proof {
                assert forall|i: int| 0 <= i < nodes@.len() implies wf_node(#[trigger] nodes@[i], self.ref_count as nat) by {
                    lemma_wf_mono(nodes@[i], before, self.ref_count as nat);
                }
            }
            let ghost prev = nodes@;
            nodes.push(n);
            proof {
                lemma_prefix(self.chars@, old(self).pos as int, old(self).ref_count as int, prev, n, prev.len() as int);
                assert(nodes@ == prev.push(n));
                assert(nodes@[prev.len() as int] == n);
            }
        }
        RegexNode::Sequence(nodes)
    }

    fn parse_repeat(&mut self) -> (r: RegexNode)
        requires
            old(self).inv(),
            old(self).pos < old(self).chars@.len(),
        ensures
            final(self).inv(),
            final(self).chars == old(self).chars,
            old(self).pos < final(self).pos,
            old(self).ref_count <= final(self).ref_count,
            wf_node(r, final(self).ref_count as nat),
            r is Repeat ==> quantifier(final(self).chars@[final(self).pos - 1]) == Some(r->kind),
            r matches RegexNode::Repeat { node, .. } ==> !(*node is Repeat),
            repeat_ok(old(self).chars@, old(self).pos as int, old(self).ref_count as int, r),
            final(self).pos == end_of(old(self).chars@, old(self).pos as int, r),
            final(self).ref_count == old(self).ref_count + ngroups(r),
            !(r is Repeat) ==> final(self).pos == final(self).chars@.len()
                || quantifier(final(self).chars@[final(self).pos as int]) is None,
        decreases old(self).chars@.len() - old(self).pos, 2nat,
    {
        let atom = self.parse_atom();
        if self.pos < self.chars.len() {
            let c = self.chars[self.pos];
            if c == '?' {
                self.advance();
                return RegexNode::Repeat { node: Box::new(atom), kind: RepeatKind::ZeroOrOne };
            } else if c == '+' {
                self.advance();
                return RegexNode::Repeat { node: Box::new(atom), kind: RepeatKind::OneOrMore };
            } else if c == '*' {
                self.advance();
                return RegexNode::Repeat { node: Box::new(atom), kind: RepeatKind::ZeroOrMore };
            }
        }
        atom
    }

    fn parse_atom(&mut self) -> (r: RegexNode)
        requires
            old(self).inv(),
        ensures
            final(self).inv(),
            final(self).chars == old(self).chars,
            old(self).pos <= final(self).pos,
            old(self).pos < old(self).chars@.len() ==> old(self).pos < final(self).pos,
            old(self).ref_count <= final(self).ref_count,
            wf_node(r, final(self).ref_count as nat),
            old(self).pos == old(self).chars@.len() ==> is_empty_sequence(r),
            old(self).pos < old(self).chars@.len() ==> plain_atom(old(self).chars@[old(self).pos as int], r),
            !(r is Repeat),
            atom_ok(old(self).chars@, old(self).pos as int, old(self).ref_count as int, r),
            final(self).pos == end_of(old(self).chars@, old(self).pos as int, r),
            final(self).ref_count == old(self).ref_count + ngroups(r),
        decreases old(self).chars@.len() - old(self).pos, 1nat,
    {
        match self.advance() {
            None => {
                let r = RegexNode::Sequence(Vec::new());
                assert(seq_end(old(self).chars@, old(self).pos as int, Seq::<RegexNode>::empty(), 0) == old(self).pos);
                assert(r matches RegexNode::Sequence(v) && v@ == Seq::<RegexNode>::empty());
                assert(ngroups_seq(Seq::<RegexNode>::empty(), 0) == 0);
                r
            },
            Some(c) => {
                assert(c == old(self).chars@[old(self).pos as int]);
                if c == '(' {
                    self.ref_count = self.ref_count + 1;
                    let group_num = self.ref_count;
                    let node = self.parse_alt();
                    let _ = self.expect(')');
                    let r = RegexNode::Group { group_num, node: Box::new(node) };
                    assert(atom_ok(old(self).chars@, old(self).pos as int, old(self).ref_count as int, r));
                    assert(self.pos == end_of(old(self).chars@, old(self).pos as int, r));
                    assert(self.ref_count == old(self).ref_count + ngroups(r));
                    r
                } else if c == '[' {
                    let r = self.parse_char_class();
                    assert(ngroups(r) == 0);
                    assert(self.pos == end_of(old(self).chars@, old(self).pos as int, r));
                    assert(atom_ok(old(self).chars@, old(self).pos as int, old(self).ref_count as int, r));
                    r
                } else if c == '\\' {
                    let r = self.parse_escape();
                    assert(ngroups(r) == 0);
                    assert(self.pos == end_of(old(self).chars@, old(self).pos as int, r));
                    assert(atom_ok(old(self).chars@, old(self).pos as int, old(self).ref_count as int, r));
                    r
                } else if c == '.' {
                    let r = RegexNode::Dot;
                    assert(atom_ok(old(self).chars@, old(self).pos as int, old(self).ref_count as int, r));
                    assert(self.pos == end_of(old(self).chars@, old(self).pos as int, r));
                    r
                } else if c == '^' {
                    let r = RegexNode::StartAnchor;
                    assert(atom_ok(old(self).chars@, old(self).pos as int, old(self).ref_count as int, r));
                    assert(self.pos == end_of(old(self).chars@, old(self).pos as int, r));
                    r
                } else if c == '$' {
                    let r = RegexNode::EndAnchor;
                    assert(atom_ok(old(self).chars@, old(self).pos as int, old(self).ref_count as int, r));
                    assert(self.pos == end_of(old(self).chars@, old(self).pos as int, r));
                    r
                } else {
                    proof {
                        lemma_literal_wf(c, self.ref_count as nat);
                        lemma_literal_atom(old(self).chars@, old(self).pos as int, old(self).ref_count as int, c);
                    }
                    RegexNode::Literal(c)
                }
            },
        }
    }

    /// Parses what follows a backslash.
    fn parse_escape(&mut self) -> (r: RegexNode)
        requires
            old(self).inv(),
        ensures
            final(self).inv(),
            final(self).chars == old(self).chars,
            old(self).pos <= final(self).pos,
            final(self).ref_count == old(self).ref_count,
            wf_node(r, final(self).ref_count as nat),
            old(self).pos == old(self).chars@.len() ==> r == RegexNode::Literal('\\'),
            old(self).pos < old(self).chars@.len() ==> escaped_atom(old(self).chars@[old(self).pos as int], r),
            escape_ok(old(self).chars@, old(self).pos as int, old(self).ref_count as int, r, final(self).pos as int),
    {
        match self.advance() {
            None => RegexNode::Literal('\\'),
            Some(c) => {
                if c == 'd' {
                    RegexNode::Digit
                } else if c == 'w' {
                    RegexNode::Word
                } else if '0' <= c && c <= '9' {
                    let mut val: usize = (c as u32 - '0' as u32) as usize;
                    let mut too_big = false;
                    assert(digits_number(self.chars@, old(self).pos as int, old(self).pos as int) == 0);
                    assert(digits_number(self.chars@, old(self).pos as int, self.pos as int) == val);
                    while self.pos < self.chars.len() && '0' <= self.chars[self.pos] && self.chars[self.pos] <= '9'
                        invariant
                            self.inv(),
                            self.chars == old(self).chars,
                            self.ref_count == old(self).ref_count,
                            old(self).pos < self.pos,
                            digit_end(self.chars@, self.pos as int) == digit_end(self.chars@, old(self).pos as int),
                            !too_big ==> val == digits_number(self.chars@, old(self).pos as int, self.pos as int),
                            too_big ==> digits_number(self.chars@, old(self).pos as int, self.pos as int) > usize::MAX,
                        decreases self.chars@.len() - self.pos,
                    {
                        let d = self.chars[self.pos];
                        let dd = (d as u32 - '0' as u32) as usize;
                        let ghost before = self.pos as int;
                        self.advance();
                        assert(digits_number(self.chars@, old(self).pos as int, before + 1)
                            == digits_number(self.chars@, old(self).pos as int, before) * 10 + dd);
                        if !too_big {
                            if val <= (usize::MAX - dd) / 10 {
                                assert(val * 10 + dd <= usize::MAX) by (nonlinear_arith)
                                    requires
                                        val <= (usize::MAX - dd) / 10,
                                        dd <= 9,
                                ;
                                val = val * 10 + dd;
                            } else {
                                assert(val * 10 + dd > usize::MAX) by (nonlinear_arith)
                                    requires
                                        val > (usize::MAX - dd) / 10,
                                        dd <= 9,
                                ;
                                too_big = true;
                            }
                        }
                    }
                    if too_big || val == 0 || val > self.ref_count {
                        RegexNode::Literal('\\')
                    } else {
                        RegexNode::Backreference(val)
                    }
                } else {
                    proof {
                        lemma_literal_wf(c, self.ref_count as nat);
                    }
                    RegexNode::Literal(c)
                }
            },
        }
    }

    /// Parses a class after its `[`: an optional `^`, then every character up
    /// to the next `]`, taken as it stands.
    fn parse_char_class(&mut self) -> (r: RegexNode)
        requires
            old(self).inv(),
        ensures
            final(self).inv(),
            final(self).chars == old(self).chars,
            old(self).pos <= final(self).pos,
            final(self).ref_count == old(self).ref_count,
            r is CharClass,
            class_ok(old(self).chars@, old(self).pos as int, r, final(self).pos as int),
            ({
                let t = old(self).chars@;
                let negated = old(self).pos < t.len() && t[old(self).pos as int] == '^';
                let start = if negated { old(self).pos + 1 } else { old(self).pos as int };
                let e = start + r->chars@.len();
                &&& r->negated == negated
                &&& e <= t.len()
                &&& r->chars@ == t.subrange(start, e)
                &&& forall|k: int| start <= k < e ==> t[k] != ']'
                &&& (e == t.len() && final(self).pos == e) || (e < t.len() && t[e] == ']' && final(self).pos == e + 1)
            }),
    {
        let negated = self.expect('^');
        let start = self.pos;
        let mut chars_in_class: Vec<char> = Vec::new();
        while self.pos < self.chars.len() && self.chars[self.pos] != ']'
            invariant
                self.inv(),
                self.chars == old(self).chars,
                self.ref_count == old(self).ref_count,
                old(self).pos <= start <= self.pos,
                chars_in_class@ == self.chars@.subrange(start as int, self.pos as int),
                forall|k: int| start <= k < self.pos ==> self.chars@[k] != ']',
            decreases self.chars@.len() - self.pos,
        {
            let c = self.chars[self.pos];
            self.advance();
            chars_in_class.push(c);
            assert(chars_in_class@ =~= self.chars@.subrange(start as int, self.pos as int));
        }
        let _ = self.expect(']');
        RegexNode::CharClass { chars: chars_in_class, negated }
    }
}

} // verus!
