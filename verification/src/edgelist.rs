use vstd::prelude::*;
use crate::graph::{
    Graph, GraphView, add_edges, endpoints, first_appearances, lemma_add_edge, lemma_add_edges_names,
};
use crate::strings::push_char;

verus! {

/// `char::is_whitespace`: the characters with the Unicode `White_Space`
/// property.
pub open spec fn is_space(c: char) -> bool {
    ||| '\u{9}' <= c <= '\u{d}'
    ||| c == ' '
    ||| c == '\u{85}'
    ||| c == '\u{a0}'
    ||| c == '\u{1680}'
    ||| '\u{2000}' <= c <= '\u{200a}'
    ||| c == '\u{2028}'
    ||| c == '\u{2029}'
    ||| c == '\u{202f}'
    ||| c == '\u{205f}'
    ||| c == '\u{3000}'
}

/// The pieces of `s` between newline characters, in order. For a text that
/// ends in a newline the last piece is empty; `str::lines` omits that piece
/// and also drops a `'\r'` before each newline, and neither an empty piece nor
/// a `'\r'` (a whitespace character) can change what a line says.
pub open spec fn line_pieces(s: Seq<char>) -> Seq<Seq<char>>
    decreases s.len(),
{
    if s.len() == 0 {
        seq![Seq::empty()]
    } else {
        let prev = line_pieces(s.drop_last());
        if s.last() == '\n' {
            prev.push(Seq::empty())
        } else {
            prev.update(prev.len() - 1, prev.last().push(s.last()))
        }
    }
}

/// The words of `s`, as `str::split_whitespace` yields them: the maximal
/// runs of non-whitespace characters, in order.
pub open spec fn words(s: Seq<char>) -> Seq<Seq<char>>
    decreases s.len(),
{
    if s.len() == 0 {
        Seq::empty()
    } else {
        let prev = words(s.drop_last());
        let c = s.last();
        if is_space(c) {
            prev
        } else if s.len() >= 2 && !is_space(s[s.len() - 2]) {
            prev.update(prev.len() - 1, prev.last().push(c))
        } else {
            prev.push(seq![c])
        }
    }
}

/// The edge that one line of an edge list gives: its first two words, unless
/// it has fewer than two words or is a comment (its first non-whitespace
/// character is `'#'`). Words after the second are ignored.
pub open spec fn line_edge(line: Seq<char>) -> Option<(Seq<char>, Seq<char>)> {
    let w = words(line);
    if w.len() >= 2 && w[0][0] != '#' {
        Some((w[0], w[1]))
    } else {
        None
    }
}

/// `g` with the edge of `line`, if it has one.
pub open spec fn add_line(g: GraphView, line: Seq<char>) -> GraphView {
    match line_edge(line) {
        Some((u, v)) => g.add_edge(u, v),
        None => g,
    }
}

/// `g` with the edges of `lines` added in order.
pub open spec fn add_lines(g: GraphView, lines: Seq<Seq<char>>) -> GraphView
    decreases lines.len(),
{
    if lines.len() == 0 {
        g
    } else {
        add_line(add_lines(g, lines.drop_last()), lines.last())
    }
}

/// The graph that an edge-list text describes.
pub open spec fn edgelist_graph(s: Seq<char>) -> GraphView {
    add_lines(GraphView::empty(), line_pieces(s))
}

/// Every text has at least one line piece.
proof fn lemma_line_pieces_nonempty(s: Seq<char>)
    ensures
        line_pieces(s).len() >= 1,
    decreases s.len(),
{
    if s.len() > 0 {
        lemma_line_pieces_nonempty(s.drop_last());
    }
}

/// Words are never empty, and a text whose last character is not
/// whitespace ends inside its last word.
proof fn lemma_words_nonempty(s: Seq<char>)
    ensures
        forall|i: int| 0 <= i < words(s).len() ==> (#[trigger] words(s)[i]).len() > 0,
        s.len() > 0 && !is_space(s.last()) ==> words(s).len() > 0,
    decreases s.len(),
{
    if s.len() > 0 {
        let t = s.drop_last();
        lemma_words_nonempty(t);
        let prev = words(t);
        if !is_space(s.last()) && s.len() >= 2 && !is_space(s[s.len() - 2]) {
            assert(t.last() == s[s.len() - 2]);
            assert(prev.len() > 0);
            let w = words(s);
            assert forall|i: int| 0 <= i < w.len() implies (#[trigger] w[i]).len() > 0 by {
                if i < prev.len() - 1 {
                    assert(w[i] == prev[i]);
                }
            }
        }
    }
}

/// Whether `c` is a whitespace character (`char::is_whitespace`).
fn is_space_char(c: char) -> (b: bool)
    ensures
        b == is_space(c),
{
    ('\u{9}' <= c && c <= '\u{d}') || c == ' ' || c == '\u{85}' || c == '\u{a0}' || c == '\u{1680}'
        || ('\u{2000}' <= c && c <= '\u{200a}') || c == '\u{2028}' || c == '\u{2029}' || c == '\u{202f}'
        || c == '\u{205f}' || c == '\u{3000}'
}

/// The line pieces of two texts joined by a newline are those of the first
/// followed by those of the second.
pub proof fn lemma_line_pieces_join(a: Seq<char>, b: Seq<char>)
    ensures
        line_pieces(a.push('\n') + b) == line_pieces(a) + line_pieces(b),
    decreases b.len(),
{
    let t = a.push('\n') + b;
    if b.len() == 0 {
        assert(t =~= a.push('\n'));
        assert(t.drop_last() =~= a);
        assert(line_pieces(t) =~= line_pieces(a) + line_pieces(b));
    } else {
        let b1 = b.drop_last();
        lemma_line_pieces_join(a, b1);
        lemma_line_pieces_nonempty(b1);
        assert(t.drop_last() =~= a.push('\n') + b1);
        assert(t.last() == b.last());
        assert(line_pieces(t) =~= line_pieces(a) + line_pieces(b));
    }
}

/// A text without newlines is a single line piece.
pub proof fn lemma_line_pieces_single(l: Seq<char>)
    requires
        !l.contains('\n'),
    ensures
        line_pieces(l) == seq![l],
    decreases l.len(),
{
    if l.len() > 0 {
        let l1 = l.drop_last();
        assert(!l1.contains('\n')) by {
            if l1.contains('\n') {
                let k = choose|k: int| 0 <= k < l1.len() && l1[k] == '\n';
                assert(l[k] == '\n');
            }
        }
        lemma_line_pieces_single(l1);
        assert(l[l.len() - 1] == l.last());
        assert(l1.push(l.last()) =~= l);
        assert(line_pieces(l) =~= seq![l]);
    } else {
        assert(l =~= Seq::<char>::empty());
    }
}

/// Adding the lines of `x` and then those of `y` is adding those of `x + y`.
pub proof fn lemma_add_lines_append(g: GraphView, x: Seq<Seq<char>>, y: Seq<Seq<char>>)
    ensures
        add_lines(g, x + y) == add_lines(add_lines(g, x), y),
    decreases y.len(),
{
    if y.len() == 0 {
        assert(x + y =~= x);
    } else {
        lemma_add_lines_append(g, x, y.drop_last());
        assert((x + y).drop_last() =~= x + y.drop_last());
        assert((x + y).last() == y.last());
    }
}

/// Parsing is line by line: the graph of two texts joined by a newline is
/// the graph of the first with the edges of the second's lines added.
pub proof fn lemma_edgelist_join(a: Seq<char>, b: Seq<char>)
    ensures
        edgelist_graph(a.push('\n') + b) == add_lines(edgelist_graph(a), line_pieces(b)),
{
    lemma_line_pieces_join(a, b);
    lemma_add_lines_append(GraphView::empty(), line_pieces(a), line_pieces(b));
}

/// A line that gives no edge (blank, a `'#'` comment, or a single word)
/// can be inserted between two lines without changing the graph.
pub proof fn lemma_skipped_line(a: Seq<char>, line: Seq<char>, b: Seq<char>)
    requires
        !line.contains('\n'),
        line_edge(line) is None,
    ensures
        edgelist_graph(a.push('\n') + (line.push('\n') + b)) == edgelist_graph(a.push('\n') + b),
{
    lemma_edgelist_join(a, line.push('\n') + b);
    lemma_edgelist_join(a, b);
    lemma_line_pieces_join(line, b);
    lemma_line_pieces_single(line);
    let g = edgelist_graph(a);
    lemma_add_lines_append(g, seq![line], line_pieces(b));
    assert(seq![line].drop_last() =~= Seq::<Seq<char>>::empty());
    assert(add_lines(g, Seq::<Seq<char>>::empty()) == g);
    assert(seq![line].last() == line);
    assert(add_lines(g, seq![line]) == g);
}

/// A line whose first word starts with `'#'` gives no edge, whatever follows.
pub proof fn lemma_comment_line(line: Seq<char>)
    requires
        words(line).len() > 0,
        words(line)[0][0] == '#',
    ensures
        line_edge(line) is None,
{
}

/// Line `i` of `lines` gives the edge `x`–`y`, in one direction or the other.
pub open spec fn lists_edge(lines: Seq<Seq<char>>, i: int, x: Seq<char>, y: Seq<char>) -> bool {
    line_edge(lines[i]) == Some((x, y)) || line_edge(lines[i]) == Some((y, x))
}

/// Line `i` of `lines` gives an edge with `x` as one of its ends.
pub open spec fn lists_node(lines: Seq<Seq<char>>, i: int, x: Seq<char>) -> bool {
    line_edge(lines[i]) matches Some((u, v)) && (u == x || v == x)
}

/// Adding the edges of some lines to a well-formed graph keeps it
/// well-formed, and its nodes and edges become exactly the old ones plus
/// those that the lines list.
pub proof fn lemma_add_lines(g: GraphView, lines: Seq<Seq<char>>)
    requires
        g.wf(),
    ensures
        add_lines(g, lines).wf(),
        forall|x: Seq<char>|
            #[trigger] add_lines(g, lines).has_node(x) <==> (g.has_node(x) || exists|i: int|
                0 <= i < lines.len() && #[trigger] lists_node(lines, i, x)),
        forall|x: Seq<char>, y: Seq<char>|
            #[trigger] add_lines(g, lines).has_edge(x, y) <==> (g.has_edge(x, y) || exists|i: int|
                0 <= i < lines.len() && #[trigger] lists_edge(lines, i, x, y)),
    decreases lines.len(),
{
    if lines.len() > 0 {
        let init = lines.drop_last();
        let last = lines.last();
        let n = lines.len() - 1;
        lemma_add_lines(g, init);
        let h = add_lines(g, init);
        assert(lines[n] == last);
        assert forall|i: int| 0 <= i < n implies #[trigger] lines[i] == init[i] by {}
        match line_edge(last) {
            Some((u, v)) => {
                lemma_add_edge(h, u, v);
            },
            None => {},
        }
        let r = add_lines(g, lines);
        assert forall|x: Seq<char>| #[trigger] r.has_node(x) <==> (g.has_node(x) || exists|i: int|
            0 <= i < lines.len() && #[trigger] lists_node(lines, i, x)) by {
            if exists|i: int| 0 <= i < lines.len() && #[trigger] lists_node(lines, i, x) {
                let i = choose|i: int| 0 <= i < lines.len() && #[trigger] lists_node(lines, i, x);
                if i < n {
                    assert(lists_node(init, i, x));
                }
            }
            if exists|i: int| 0 <= i < init.len() && #[trigger] lists_node(init, i, x) {
                let i = choose|i: int| 0 <= i < init.len() && #[trigger] lists_node(init, i, x);
                assert(lists_node(lines, i, x));
            }
            if line_edge(last) is Some && lists_node(lines, n, x) {
                assert(lists_node(lines, n, x));
            }
        }
        assert forall|x: Seq<char>, y: Seq<char>| #[trigger] r.has_edge(x, y) <==> (g.has_edge(x, y)
            || exists|i: int| 0 <= i < lines.len() && #[trigger] lists_edge(lines, i, x, y)) by {
            if exists|i: int| 0 <= i < lines.len() && #[trigger] lists_edge(lines, i, x, y) {
                let i = choose|i: int| 0 <= i < lines.len() && #[trigger] lists_edge(lines, i, x, y);
                if i < n {
                    assert(lists_edge(init, i, x, y));
                }
            }
            if exists|i: int| 0 <= i < init.len() && #[trigger] lists_edge(init, i, x, y) {
                let i = choose|i: int| 0 <= i < init.len() && #[trigger] lists_edge(init, i, x, y);
                assert(lists_edge(lines, i, x, y));
            }
            match line_edge(last) {
                Some((u, v)) => {
                    if (x == u && y == v) || (x == v && y == u) {
                        assert(lists_edge(lines, n, x, y));
                    }
                },
                None => {},
            }
        }
    }
}

/// The graph of an edge-list text is well-formed; its nodes are the labels
/// that some line's edge names, and its edges are exactly the lines' edges.
pub proof fn lemma_edgelist_graph(s: Seq<char>)
    ensures
        edgelist_graph(s).wf(),
        forall|x: Seq<char>|
            #[trigger] edgelist_graph(s).has_node(x) <==> exists|i: int|
                0 <= i < line_pieces(s).len() && #[trigger] lists_node(line_pieces(s), i, x),
        forall|x: Seq<char>, y: Seq<char>|
            #[trigger] edgelist_graph(s).has_edge(x, y) <==> exists|i: int|
                0 <= i < line_pieces(s).len() && #[trigger] lists_edge(line_pieces(s), i, x, y),
{
    let e = GraphView::empty();
    assert(e.wf());
    lemma_add_lines(e, line_pieces(s));
}

/// The edges that the lines give, in order.
pub open spec fn line_edges(lines: Seq<Seq<char>>) -> Seq<(Seq<char>, Seq<char>)>
    decreases lines.len(),
{
    if lines.len() == 0 {
        Seq::empty()
    } else {
        match line_edge(lines.last()) {
            Some(e) => line_edges(lines.drop_last()).push(e),
            None => line_edges(lines.drop_last()),
        }
    }
}

/// Adding the lines is adding the edges they give, in order.
pub proof fn lemma_add_lines_edges(g: GraphView, lines: Seq<Seq<char>>)
    ensures
        add_lines(g, lines) == add_edges(g, line_edges(lines)),
    decreases lines.len(),
{
    if lines.len() > 0 {
        lemma_add_lines_edges(g, lines.drop_last());
        let es = line_edges(lines.drop_last());
        match line_edge(lines.last()) {
            Some(e) => {
                assert(es.push(e).drop_last() =~= es);
                assert(es.push(e).last() == e);
            },
            None => {},
        }
    }
}

/// The node labels of an edge-list text's graph are the labels of its
/// lines' edges in order of first appearance (within a line, the first word
/// before the second), each once.
pub proof fn lemma_edgelist_names(s: Seq<char>)
    ensures
        edgelist_graph(s).names == first_appearances(
            Seq::empty(),
            endpoints(line_edges(line_pieces(s))),
        ),
        edgelist_graph(s).names.no_duplicates(),
{
    lemma_add_lines_edges(GraphView::empty(), line_pieces(s));
    lemma_add_edges_names(GraphView::empty(), line_edges(line_pieces(s)));
    lemma_edgelist_graph(s);
}

/// A nonempty text without whitespace is one word: itself.
proof fn lemma_words_single(l: Seq<char>)
    requires
        l.len() > 0,
        forall|i: int| 0 <= i < l.len() ==> !is_space(#[trigger] l[i]),
    ensures
        words(l) == seq![l],
    decreases l.len(),
{
    let init = l.drop_last();
    if init.len() == 0 {
        assert(l =~= seq![l[0]]);
        assert(words(init) =~= Seq::<Seq<char>>::empty());
        assert(words(l) =~= seq![l]);
    } else {
        assert forall|i: int| 0 <= i < init.len() implies !is_space(#[trigger] init[i]) by {
            assert(init[i] == l[i]);
        }
        lemma_words_single(init);
        assert(l[l.len() - 2] == init[init.len() - 1]);
        assert(!is_space(l[l.len() - 1]));
        assert(init.push(l.last()) =~= l);
        assert(words(l) =~= seq![l]);
    }
}

/// Whitespace at the start of a text is not part of any word.
proof fn lemma_words_lead(c: char, l: Seq<char>)
    requires
        is_space(c),
    ensures
        words(seq![c] + l) == words(l),
    decreases l.len(),
{
    let t = seq![c] + l;
    if l.len() == 0 {
        assert(t =~= seq![c]);
        assert(t.drop_last() =~= Seq::<char>::empty());
        assert(l =~= Seq::<char>::empty());
    } else {
        let l1 = l.drop_last();
        lemma_words_lead(c, l1);
        assert(t.drop_last() =~= seq![c] + l1);
        assert(t.last() == l.last());
        if l1.len() > 0 {
            assert(t[t.len() - 2] == l[l.len() - 2]);
        } else {
            assert(t[t.len() - 2] == c);
        }
    }
}

/// A word after a whitespace character is one more word.
proof fn lemma_words_append(x: Seq<char>, c: char, v: Seq<char>)
    requires
        v.len() > 0,
        forall|i: int| 0 <= i < v.len() ==> !is_space(#[trigger] v[i]),
        is_space(c),
    ensures
        words(x.push(c) + v) == words(x).push(v),
    decreases v.len(),
{
    let t = x.push(c) + v;
    let v1 = v.drop_last();
    assert(t.drop_last() =~= x.push(c) + v1);
    assert(t.last() == v.last());
    assert(!is_space(v[v.len() - 1]));
    lemma_words_push(x, c);
    if v1.len() == 0 {
        assert(x.push(c) + v1 =~= x.push(c));
        assert(t[t.len() - 2] == c);
        assert(v =~= seq![v.last()]);
        assert(words(t) =~= words(x).push(v));
    } else {
        assert forall|i: int| 0 <= i < v1.len() implies !is_space(#[trigger] v1[i]) by {
            assert(v1[i] == v[i]);
        }
        lemma_words_append(x, c, v1);
        assert(t[t.len() - 2] == v[v.len() - 2]);
        assert(v1.push(v.last()) =~= v);
        assert(words(t) =~= words(x).push(v));
    }
}

/// Two words joined by one whitespace character are those two words.
proof fn lemma_words_sep(u: Seq<char>, c: char, v: Seq<char>)
    requires
        u.len() > 0,
        v.len() > 0,
        forall|i: int| 0 <= i < u.len() ==> !is_space(#[trigger] u[i]),
        forall|i: int| 0 <= i < v.len() ==> !is_space(#[trigger] v[i]),
        is_space(c),
    ensures
        words(u.push(c) + v) == seq![u, v],
{
    lemma_words_single(u);
    lemma_words_append(u, c, v);
    assert(seq![u].push(v) =~= seq![u, v]);
}

/// Words after the second do not matter: a third printable-ASCII word
/// after a space or tab leaves the line's edge as it was.
pub proof fn lemma_third_word_ignored(line: Seq<char>, sep: char, w: Seq<char>)
    requires
        w.len() > 0,
        forall|i: int| 0 <= i < w.len() ==> '!' <= #[trigger] w[i] <= '~',
        sep == ' ' || sep == '\t',
        words(line).len() >= 2,
    ensures
        line_edge(line.push(sep) + w) == line_edge(line),
{
    lemma_words_append(line, sep, w);
    let ws = words(line);
    assert(ws.push(w)[0] == ws[0]);
    assert(ws.push(w)[1] == ws[1]);
}

/// A label made of printable ASCII characters (`'!'` to `'~'`, so `'-'`,
/// `'_'`, `'.'`, `'#'` included) is never split: it is one word.
pub proof fn lemma_ascii_label_is_one_word(l: Seq<char>)
    requires
        l.len() > 0,
        forall|i: int| 0 <= i < l.len() ==> '!' <= #[trigger] l[i] <= '~',
    ensures
        words(l) == seq![l],
{
    lemma_words_single(l);
}

/// Two printable-ASCII labels separated by a space or a tab form the edge
/// between them, unless the first starts with `'#'`.
pub proof fn lemma_ascii_edge_line(u: Seq<char>, sep: char, v: Seq<char>)
    requires
        u.len() > 0,
        v.len() > 0,
        forall|i: int| 0 <= i < u.len() ==> '!' <= #[trigger] u[i] <= '~',
        forall|i: int| 0 <= i < v.len() ==> '!' <= #[trigger] v[i] <= '~',
        sep == ' ' || sep == '\t',
    ensures
        line_edge(u.push(sep) + v) == (if u[0] == '#' {
            None
        } else {
            Some((u, v))
        }),
{
    lemma_words_sep(u, sep, v);
}

/// ASCII whitespace (space, tab, vertical tab, form feed, carriage return)
/// at either end of a line never changes what the line says: in particular
/// the `'\r'` of a CRLF line ending.
pub proof fn lemma_line_ascii_padding(l: Seq<char>, c: char)
    requires
        c == ' ' || c == '\t' || c == '\u{b}' || c == '\u{c}' || c == '\r',
    ensures
        line_edge(l.push(c)) == line_edge(l),
        line_edge(seq![c] + l) == line_edge(l),
{
    lemma_words_push(l, c);
    lemma_words_lead(c, l);
}

/// Exactly the Unicode `White_Space` characters separate labels: between
/// `x` and `y` such a character gives the edge `x`–`y`, and any other
/// character is part of a single label (so the line gives no edge).
pub proof fn lemma_separators(c: char)
    ensures
        line_edge(seq!['x', c, 'y']) == (if c == '\t' || c == '\n' || c == '\u{b}' || c == '\u{c}'
            || c == '\r' || c == ' ' || c == '\u{85}' || c == '\u{a0}' || c == '\u{1680}' || c
            == '\u{2000}' || c == '\u{2001}' || c == '\u{2002}' || c == '\u{2003}' || c == '\u{2004}'
            || c == '\u{2005}' || c == '\u{2006}' || c == '\u{2007}' || c == '\u{2008}' || c
            == '\u{2009}' || c == '\u{200a}' || c == '\u{2028}' || c == '\u{2029}' || c == '\u{202f}'
            || c == '\u{205f}' || c == '\u{3000}' {
            Some((seq!['x'], seq!['y']))
        } else {
            None
        }),
{
    let x = seq!['x'];
    let y = seq!['y'];
    assert(seq!['x', c, 'y'] =~= x.push(c) + y);
    if is_space(c) {
        lemma_words_sep(x, c, y);
    } else {
        let l = seq!['x', c, 'y'];
        assert forall|i: int| 0 <= i < l.len() implies !is_space(#[trigger] l[i]) by {}
        lemma_words_single(l);
    }
}

/// A CRLF line ending reads as a plain newline: the `'\r'` before a newline
/// never changes the graph.
pub proof fn lemma_crlf(a: Seq<char>, b: Seq<char>)
    ensures
        edgelist_graph(a.push('\r').push('\n') + b) == edgelist_graph(a.push('\n') + b),
{
    lemma_edgelist_join(a.push('\r'), b);
    lemma_edgelist_join(a, b);
    let ar = a.push('\r');
    lemma_line_pieces_nonempty(a);
    assert(ar.drop_last() =~= a);
    let pa = line_pieces(a);
    let par = line_pieces(ar);
    assert(par == pa.update(pa.len() - 1, pa.last().push('\r')));
    assert(par.drop_last() =~= pa.drop_last());
    assert(par.last() == pa.last().push('\r'));
    lemma_line_ascii_padding(pa.last(), '\r');
    assert(add_line(add_lines(GraphView::empty(), pa.drop_last()), pa.last().push('\r')) == add_line(
        add_lines(GraphView::empty(), pa.drop_last()),
        pa.last(),
    ));
    assert(edgelist_graph(ar) == edgelist_graph(a));
}

/// What the parser keeps of the current line: the number of words so far
/// (counting no further than three), the first two words, whether the first
/// word starts with `'#'`, and whether the line ends inside a word.
spec fn tracks(
    line: Seq<char>,
    first: Seq<char>,
    second: Seq<char>,
    count: int,
    comment: bool,
    in_word: bool,
) -> bool {
    let w = words(line);
    &&& count == (if w.len() > 3 {
        3
    } else {
        w.len() as int
    })
    &&& count >= 1 ==> first == w[0] && comment == (w[0][0] == '#')
    &&& count >= 2 ==> second == w[1]
    &&& count == 0 ==> first.len() == 0
    &&& count <= 1 ==> second.len() == 0
    &&& in_word == (line.len() > 0 && !is_space(line.last()))
}

/// How the words of a line grow by one more (non-newline) character.
proof fn lemma_words_push(line: Seq<char>, c: char)
    ensures
        is_space(c) ==> words(line.push(c)) == words(line),
        !is_space(c) && line.len() > 0 && !is_space(line.last()) ==> words(line).len() > 0
            && words(line.push(c)) == words(line).update(
            words(line).len() - 1,
            words(line).last().push(c),
        ),
        !is_space(c) && !(line.len() > 0 && !is_space(line.last())) ==> words(line.push(c))
            == words(line).push(seq![c]),
{
    let l2 = line.push(c);
    assert(l2.drop_last() =~= line);
    if line.len() > 0 {
        assert(l2[l2.len() - 2] == line.last());
    }
    lemma_words_nonempty(line);
}

/// Adds the edge of a finished line to `g`.
fn finish_line(
    g: &mut Graph,
    first: &String,
    second: &String,
    count: usize,
    comment: bool,
    in_word: bool,
    Ghost(line): Ghost<Seq<char>>,
)
    requires
        tracks(line, first@, second@, count as int, comment, in_word),
    ensures
        final(g)@ == add_line(old(g)@, line),
{
    if count >= 2 && !comment {
        g.add_edge(first.as_str(), second.as_str());
    }
}

/// Parses an edge-list text into a graph: one edge per line, given by the
/// line's first two whitespace-separated labels. Blank lines, lines whose
/// first non-whitespace character is `'#'`, and lines with a single word are
/// skipped; words after the second are ignored.
pub fn parse_edgelist(s: &str) -> (g: Graph)
    ensures
        g@ == edgelist_graph(s@),
        g@.wf(),
{
    let mut g = Graph::new();
    let mut first = String::new();
    let mut second = String::new();
    let mut count: usize = 0;
    let mut comment = false;
    let mut in_word = false;
    let ghost mut done: Seq<Seq<char>> = Seq::empty();
    let ghost mut line: Seq<char> = Seq::empty();
    proof {
        assert(s@.take(0) =~= Seq::<char>::empty());
        assert(done.push(line) =~= line_pieces(Seq::<char>::empty()));
    }
    for c in it: s.chars()
        invariant
            it.seq() == s@,
            done.push(line) == line_pieces(s@.take(it.index() as int)),
            g@ == add_lines(GraphView::empty(), done),
            tracks(line, first@, second@, count as int, comment, in_word),
    {
        let ghost prefix = s@.take(it.index() as int);
        proof {
            assert(s@.take(it.index() + 1).drop_last() =~= prefix);
            assert(s@.take(it.index() + 1).last() == c);
        }
        if c == '\n' {
            finish_line(&mut g, &first, &second, count, comment, in_word, Ghost(line));
            proof {
                assert(done.push(line).drop_last() =~= done);
                done = done.push(line);
                line = Seq::empty();
            }
            first = String::new();
            second = String::new();
            count = 0;
            comment = false;
            in_word = false;
        } else if is_space_char(c) {
            proof {
                lemma_words_push(line, c);
                lemma_line_pieces_nonempty(prefix);
                line = line.push(c);
            }
            in_word = false;
        } else {
            proof {
                lemma_words_nonempty(line);
                lemma_words_push(line, c);
            }
            if in_word {
                if count == 1 {
                    push_char(&mut first, c);
                } else if count == 2 {
                    push_char(&mut second, c);
                }
            } else {
                if count == 0 {
                    push_char(&mut first, c);
                    comment = c == '#';
                } else if count == 1 {
                    push_char(&mut second, c);
                }
                if count < 3 {
                    count = count + 1;
                }
            }
            in_word = true;
            proof {
                let l2 = line.push(c);
                lemma_line_pieces_nonempty(prefix);
                line = l2;
                let w = words(line);
                assert(first@ =~= w[0] || count == 0);
                assert(second@ =~= w[1] || count <= 1);
            }
        }
    }
    proof {
        assert(s@.take(s@.len() as int) =~= s@);
        assert(done.push(line).drop_last() =~= done);
    }
    finish_line(&mut g, &first, &second, count, comment, in_word, Ghost(line));
    proof {
        lemma_edgelist_graph(s@);
    }
    g
}

} // verus!
