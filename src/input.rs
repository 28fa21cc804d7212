//! Edges read from text, one per line, and the outcome of a whole run.
//!
//! A line ends at a line feed; a carriage return just before the line feed is
//! not part of it. The first two characters of a line are the source and the
//! sink of an edge, and anything after them is ignored. A line with fewer
//! than two characters makes the whole input invalid. A line feed at the very
//! end of the text does not start another line.
use vstd::prelude::*;
use vstd::utf8::{decode_utf8, valid_utf8};
use crate::graph::{build_graph, chars_of, lemma_no_edges_acyclic, GraphView, Node};
use crate::detect::{detect_cycle, CycleResult};

verus! {

/// The outcome of a run.
#[derive(Clone, Copy, Debug, PartialEq, Eq, Structural)]
pub enum Exit {
    NoCycle,
    Cycle,
    InvalidInput,
}

/// The position of the first line feed in `t`, or its length if it has none.
pub open spec fn line_end(t: Seq<char>) -> nat
    decreases t.len(),
{
    if t.len() == 0 || t[0] == '\n' {
        0
    } else {
        1 + line_end(t.drop_first())
    }
}

/// The first line of `t`, without its line feed and a carriage return before it.
pub open spec fn first_line(t: Seq<char>) -> Seq<char> {
    let e = line_end(t) as int;
    if e < t.len() && e > 0 && t[e - 1] == '\r' {
        t.take(e - 1)
    } else {
        t.take(e)
    }
}

/// The edges that the lines of `t` give, in order; `None` when some line has
/// fewer than two characters.
pub open spec fn parse_lines(t: Seq<char>) -> Option<Seq<(Node, Node)>>
    decreases t.len(),
{
    if t.len() == 0 {
        Some(seq![])
    } else {
        let line = first_line(t);
        let e = line_end(t) as int;
        if line.len() < 2 {
            None
        } else {
            let rest = if e < t.len() {
                parse_lines(t.skip(e + 1))
            } else {
                Some(seq![])
            };
            match rest {
                Some(es) => Some(seq![(Node(line[0]), Node(line[1]))] + es),
                None => None,
            }
        }
    }
}

/// What a run on the characters `t` reports: invalid input exactly when a
/// line is too short; otherwise a cycle of the graph of the edges, spelled out
/// node by node, exactly when that graph has one, and a single node when it
/// has a self-loop.
pub open spec fn reports(t: Seq<char>, r: (Exit, Option<String>)) -> bool {
    match parse_lines(t) {
        None => r.0 == Exit::InvalidInput && r.1 is None,
        Some(es) => {
            let g = GraphView::from_edges(es);
            &&& r.0 != Exit::InvalidInput
            &&& (r.0 == Exit::NoCycle <==> !g.has_cycle())
            &&& (r.0 == Exit::NoCycle ==> r.1 is None)
            &&& (r.0 == Exit::Cycle ==> r.1 is Some && exists|c: Seq<Node>|
                chars_of(c) == r.1->0@ && #[trigger] g.is_cycle(c))
            &&& (g.has_self_loop() ==> r.0 == Exit::Cycle && r.1->0@.len() == 1)
        },
    }
}

/// Empty input gives no edges, and so no cycle.
pub proof fn lemma_empty_input(t: Seq<char>)
    requires
        t.len() == 0,
    ensures
        parse_lines(t) == Some(Seq::<(Node, Node)>::empty()),
        !GraphView::from_edges(parse_lines(t)->0).has_cycle(),
{
    lemma_no_edges_acyclic();
}

proof fn lemma_append_one(pre: Seq<(Node, Node)>, x: (Node, Node), post: Seq<(Node, Node)>)
    ensures
        pre + (seq![x] + post) == pre.push(x) + post,
{
    assert(pre + (seq![x] + post) =~= pre.push(x) + post);
}

proof fn lemma_line_end(s: Seq<char>, k: int)
    requires
        0 <= k <= s.len(),
        forall|i: int| 0 <= i < k ==> s[i] != '\n',
        k == s.len() || s[k] == '\n',
    ensures
        line_end(s) == k,
    decreases k,
{
    if k > 0 {
        lemma_line_end(s.drop_first(), k - 1);
    }
}

/// The edges of the lines of `text`, or `None` if a line is too short.
pub fn parse_edges(text: &Vec<char>) -> (r: Option<Vec<(Node, Node)>>)
    ensures
        match r {
            Some(es) => parse_lines(text@) == Some(es@),
            None => parse_lines(text@) is None,
        },
{
    let ghost t = text@;
    let mut edges: Vec<(Node, Node)> = Vec::new();
    let mut pos: usize = 0;
    assert(t.skip(0) =~= t);
    assert(forall|rest: Seq<(Node, Node)>| edges@ + rest =~= rest);
    while pos < text.len()
        invariant
            t == text@,
            pos <= t.len(),
            match parse_lines(t.skip(pos as int)) {
                Some(rest) => parse_lines(t) == Some(edges@ + rest),
                None => parse_lines(t) is None,
            },
        decreases t.len() - pos,
    {
        let ghost s = t.skip(pos as int);
        let mut e: usize = pos;
        while e < text.len() && text[e] != '\n'
            invariant
                t == text@,
                pos <= e <= t.len(),
                forall|i: int| pos <= i < e ==> t[i] != '\n',
            decreases t.len() - e,
        {
            e += 1;
        }
        proof {
            lemma_line_end(s, e - pos);
        }
        let mut stop: usize = e;
        if e < text.len() && e > pos && text[e - 1] == '\r' {
            stop = e - 1;
        }
        assert(first_line(s) =~= t.subrange(pos as int, stop as int));
        if stop - pos < 2 {
            return None;
        }
        let ghost old_edges = edges@;
        let ghost edge = (Node(t[pos as int]), Node(t[pos + 1]));
        edges.push((Node(text[pos]), Node(text[pos + 1])));
        assert(edges@ =~= old_edges.push(edge));
        let ghost p0 = pos as int;
        if e < text.len() {
            pos = e + 1;
            assert(s.skip(e - p0 + 1) =~= t.skip(pos as int));
        } else {
            pos = e;
            assert(t.skip(pos as int) =~= seq![]);
        }
        let ghost rest = parse_lines(t.skip(pos as int));
        assert(parse_lines(s) == match rest {
            Some(es) => Some(seq![edge] + es),
            None => None,
        });
        proof {
            if rest is Some {
                lemma_append_one(old_edges, edge, rest->0);
            }
        }
    }
    assert(t.skip(pos as int).len() == 0);
    assert(edges@ + seq![] =~= edges@);
    Some(edges)
}

/// Relies on `String::push`: appends one character to the string.
#[verifier::external_body]
fn push_char(s: &mut String, c: char)
    ensures
        final(s)@ == old(s)@.push(c),
{
    s.push(c);
}

/// Relies on `std::str::from_utf8`: it accepts exactly the valid UTF-8 byte
/// strings, and the string it gives holds the characters they encode.
#[verifier::external_body]
fn utf8_chars(b: &[u8]) -> (r: Option<Vec<char>>)
    ensures
        match r {
            Some(t) => valid_utf8(b@) && t@ == decode_utf8(b@),
            None => !valid_utf8(b@),
        },
{
    std::str::from_utf8(b).ok().map(|s| s.chars().collect())
}

/// The characters of the nodes of `c`, in order.
pub fn spell(c: &Vec<Node>) -> (s: String)
    ensures
        s@ == chars_of(c@),
{
    let mut s = String::new();
    let mut i: usize = 0;
    while i < c.len()
        invariant
            i <= c@.len(),
            s@ == chars_of(c@.take(i as int)),
        decreases c@.len() - i,
    {
        push_char(&mut s, c[i].0);
        i += 1;
        assert(chars_of(c@.take(i as int)) =~= chars_of(c@.take(i - 1)).push(c@[i - 1].0));
    }
    assert(c@.take(i as int) =~= c@);
    s
}

/// Runs the whole validation on the characters of the input: reads the edges,
/// builds the graph and searches it for a cycle.
pub fn validate_text(text: &Vec<char>) -> (r: (Exit, Option<String>))
    ensures
        reports(text@, r),
{
    match parse_edges(text) {
        None => (Exit::InvalidInput, None),
        Some(edges) => {
            let g = build_graph(&edges);
            match detect_cycle(&g) {
                CycleResult::NoCycle => (Exit::NoCycle, None),
                CycleResult::Cycle(c) => {
                    let s = spell(&c);
                    assert(g@.is_cycle(c@));
                    assert(s@.len() == c@.len());
                    (Exit::Cycle, Some(s))
                },
            }
        },
    }
}

/// Runs the whole validation on the bytes of the input, which must be UTF-8 text;
/// other bytes are invalid input.
pub fn validate_dag(buf: &[u8]) -> (r: (Exit, Option<String>))
    ensures
        !valid_utf8(buf@) ==> r.0 == Exit::InvalidInput && r.1 is None,
        valid_utf8(buf@) ==> reports(decode_utf8(buf@), r),
{
    match utf8_chars(buf) {
        None => (Exit::InvalidInput, None),
        Some(text) => validate_text(&text),
    }
}

} // verus!
