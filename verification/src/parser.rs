//! The diagram language, read line by line.
//!
//! Each line holds one statement, possibly followed by a `#` comment:
//! a blank line, `direction: LR`, `subgraph Name` … `end`, a node
//! (`[Label]`, `(Label)`, `{Label}`, `((Label))`, with an optional
//! `{ key: value, … }` block), or a chain of nodes joined by connectors
//! (`-->`, `---`, `<--`, `<-->`, `==>`, `===`, `-.->`) with an optional
//! attribute block for its edges. A node's id is its label; labels may be
//! quoted, with `\"` and `\\` escapes.
use vstd::prelude::*;
use crate::ast::{Attr, Diagram, Direction, Edge, EdgeType, Node, NodeShape, Subgraph};
use crate::text::{nat_decimal, str_chars, string_from_chars, trim, trim_chars};

verus! {

// ─── Characters and positions ───────────────────────────────────────────────

/// Space, tab or carriage return.
pub open spec fn is_blank(c: char) -> bool {
    c == ' ' || c == '\t' || c == '\r'
}

/// The first position at or after `p` that is not a blank.
pub open spec fn skip_blank(l: Seq<char>, p: int) -> int
    decreases l.len() - p,
{
    if 0 <= p < l.len() && is_blank(l[p]) {
        skip_blank(l, p + 1)
    } else {
        p
    }
}

/// Nothing but blanks, or a comment, from `p` on.
pub open spec fn rest_blank(l: Seq<char>, p: int) -> bool {
    let q = skip_blank(l, p);
    q >= l.len() || l[q] == '#'
}

/// `w` is written at `p`.
pub open spec fn word_at(l: Seq<char>, p: int, w: Seq<char>) -> bool {
    0 <= p && p + w.len() <= l.len() && l.subrange(p, p + w.len()) == w
}

/// The first position at or after `p` holding `c`.
pub open spec fn find_char(l: Seq<char>, p: int, c: char) -> Option<int>
    decreases l.len() - p,
{
    if p < 0 || p >= l.len() {
        None
    } else if l[p] == c {
        Some(p)
    } else {
        find_char(l, p + 1, c)
    }
}

/// The position of the quote that closes a quoted string whose text starts
/// at `p`; a backslash escapes the character after it.
pub open spec fn quoted_end(l: Seq<char>, p: int) -> Option<int>
    decreases l.len() - p,
{
    if p < 0 || p >= l.len() {
        None
    } else if l[p] == '"' {
        Some(p)
    } else if l[p] == '\\' {
        if p + 1 < l.len() {
            quoted_end(l, p + 2)
        } else {
            None
        }
    } else {
        quoted_end(l, p + 1)
    }
}

/// The text of a quoted string: `\"` stands for `"` and `\\` for `\`.
pub open spec fn unescape(s: Seq<char>) -> Seq<char>
    decreases s.len(),
{
    if s.len() == 0 {
        seq![]
    } else if s.len() >= 2 && s[0] == '\\' && (s[1] == '"' || s[1] == '\\') {
        seq![s[1]] + unescape(s.skip(2))
    } else {
        seq![s[0]] + unescape(s.skip(1))
    }
}

/// A letter, digit, `_` or `-`.
pub open spec fn is_word_char(c: char) -> bool {
    ('a' <= c <= 'z') || ('A' <= c <= 'Z') || ('0' <= c <= '9') || c == '_' || c == '-'
}

/// The end of the run of word characters that starts at `p`.
pub open spec fn word_end(l: Seq<char>, p: int) -> int
    decreases l.len() - p,
{
    if 0 <= p < l.len() && is_word_char(l[p]) {
        word_end(l, p + 1)
    } else {
        p
    }
}

// ─── Executable scanning ────────────────────────────────────────────────────

fn is_blank_exec(c: char) -> (r: bool)
    ensures
        r == is_blank(c),
{
    c == ' ' || c == '\t' || c == '\r'
}

fn is_word_char_exec(c: char) -> (r: bool)
    ensures
        r == is_word_char(c),
{
    ('a' <= c && c <= 'z') || ('A' <= c && c <= 'Z') || ('0' <= c && c <= '9') || c == '_' || c == '-'
}

proof fn lemma_skip_blank_bounds(l: Seq<char>, p: int)
    requires
        0 <= p <= l.len(),
    ensures
        p <= skip_blank(l, p) <= l.len(),
    decreases l.len() - p,
{
    if p < l.len() && is_blank(l[p]) {
        lemma_skip_blank_bounds(l, p + 1);
    }
}

fn skip_blank_exec(l: &Vec<char>, p: usize) -> (q: usize)
    requires
        p <= l@.len(),
    ensures
        q == skip_blank(l@, p as int),
        p <= q <= l@.len(),
{
    let mut i = p;
    while i < l.len() && is_blank_exec(l[i])
        invariant
            p <= i <= l@.len(),
            skip_blank(l@, i as int) == skip_blank(l@, p as int),
        decreases l@.len() - i,
    {
        i = i + 1;
    }
    i
}

fn rest_blank_exec(l: &Vec<char>, p: usize) -> (r: bool)
    requires
        p <= l@.len(),
    ensures
        r == rest_blank(l@, p as int),
{
    let q = skip_blank_exec(l, p);
    q >= l.len() || l[q] == '#'
}

fn word_at_exec(l: &Vec<char>, p: usize, w: &str) -> (r: bool)
    requires
        p <= l@.len(),
    ensures
        r == word_at(l@, p as int, w@),
{
    let wc = str_chars(w);
    let n = l.len();
    if wc.len() > n - p {
        return false;
    }
    let mut i: usize = 0;
    while i < wc.len()
        invariant
            n == l@.len(),
            wc@ == w@,
            p + wc@.len() <= l@.len(),
            i <= wc@.len(),
            forall|k: int| 0 <= k < i ==> l@[p + k] == wc@[k],
        decreases wc@.len() - i,
    {
        assert(p + i < l@.len());
        if l[p + i] != wc[i] {
            proof {
                assert(l@.subrange(p as int, p + wc@.len())[i as int] != w@[i as int]);
            }
            return false;
        }
        i = i + 1;
    }
    proof {
        assert(l@.subrange(p as int, p + wc@.len()) =~= w@);
    }
    true
}

fn find_char_exec(l: &Vec<char>, p: usize, c: char) -> (r: Option<usize>)
    requires
        p <= l@.len(),
    ensures
        r matches Some(e) ==> find_char(l@, p as int, c) == Some(e as int) && p <= e < l@.len(),
        r is None ==> find_char(l@, p as int, c) is None,
{
    let mut i = p;
    while i < l.len()
        invariant
            p <= i <= l@.len(),
            find_char(l@, i as int, c) == find_char(l@, p as int, c),
        decreases l@.len() - i,
    {
        if l[i] == c {
            return Some(i);
        }
        i = i + 1;
    }
    None
}

fn quoted_end_exec(l: &Vec<char>, p: usize) -> (r: Option<usize>)
    requires
        p <= l@.len(),
    ensures
        r matches Some(e) ==> quoted_end(l@, p as int) == Some(e as int) && p <= e < l@.len(),
        r is None ==> quoted_end(l@, p as int) is None,
{
    let mut i = p;
    while i < l.len()
        invariant
            p <= i <= l@.len(),
            quoted_end(l@, i as int) == quoted_end(l@, p as int),
        decreases l@.len() - i,
    {
        if l[i] == '"' {
            return Some(i);
        } else if l[i] == '\\' {
            if i + 1 < l.len() {
                i = i + 2;
            } else {
                return None;
            }
        } else {
            i = i + 1;
        }
    }
    None
}

fn word_end_exec(l: &Vec<char>, p: usize) -> (e: usize)
    requires
        p <= l@.len(),
    ensures
        e == word_end(l@, p as int),
        p <= e <= l@.len(),
{
    let mut i = p;
    while i < l.len() && is_word_char_exec(l[i])
        invariant
            p <= i <= l@.len(),
            word_end(l@, i as int) == word_end(l@, p as int),
        decreases l@.len() - i,
    {
        i = i + 1;
    }
    i
}

/// The characters of `l` from `from` up to `to`.
fn sub_chars(l: &Vec<char>, from: usize, to: usize) -> (r: Vec<char>)
    requires
        from <= to <= l@.len(),
    ensures
        r@ == l@.subrange(from as int, to as int),
{
    let mut r: Vec<char> = Vec::new();
    let mut i = from;
    while i < to
        invariant
            from <= i <= to <= l@.len(),
            r@ == l@.subrange(from as int, i as int),
        decreases to - i,
    {
        r.push(l[i]);
        proof {
            assert(l@.subrange(from as int, i + 1) =~= l@.subrange(from as int, i as int).push(l@[i as int]));
        }
        i = i + 1;
    }
    r
}

fn unescape_exec(s: &Vec<char>) -> (r: Vec<char>)
    ensures
        r@ == unescape(s@),
{
    let mut r: Vec<char> = Vec::new();
    let mut i: usize = 0;
    proof {
        assert(s@.skip(0) =~= s@);
        assert(r@ + unescape(s@) =~= unescape(s@));
    }
    while i < s.len()
        invariant
            i <= s@.len(),
            r@ + unescape(s@.skip(i as int)) == unescape(s@),
        decreases s@.len() - i,
    {
        let ghost rest = s@.skip(i as int);
        if i + 1 < s.len() && s[i] == '\\' && (s[i + 1] == '"' || s[i + 1] == '\\') {
            proof {
                assert(rest.skip(2) =~= s@.skip(i + 2));
                assert(unescape(rest) == seq![s@[i + 1]] + unescape(rest.skip(2)));
                assert(r@.push(s@[i + 1]) + unescape(s@.skip(i + 2)) =~= r@ + unescape(rest));
            }
            r.push(s[i + 1]);
            i = i + 2;
        } else {
            proof {
                assert(rest.skip(1) =~= s@.skip(i + 1));
                assert(unescape(rest) == seq![s@[i as int]] + unescape(rest.skip(1)));
                assert(r@.push(s@[i as int]) + unescape(s@.skip(i + 1)) =~= r@ + unescape(rest));
            }
            r.push(s[i]);
            i = i + 1;
        }
    }
    proof {
        assert(s@.skip(s@.len() as int) =~= Seq::<char>::empty());
        assert(r@ + unescape(Seq::<char>::empty()) =~= r@);
    }
    r
}


// ─── Node references ────────────────────────────────────────────────────────

/// A label that ends with `close`: a quoted string (blanks around it
/// allowed), or the text up to `close`, trimmed and not empty. Gives the
/// label and the position after `close`.
pub open spec fn label_at(l: Seq<char>, p: int, close: char) -> Option<(Seq<char>, int)> {
    let q = skip_blank(l, p);
    if 0 <= q < l.len() && l[q] == '"' {
        match quoted_end(l, q + 1) {
            Some(e) => {
                let r = skip_blank(l, e + 1);
                if 0 <= r < l.len() && l[r] == close {
                    Some((unescape(l.subrange(q + 1, e)), r + 1))
                } else {
                    None
                }
            },
            None => None,
        }
    } else {
        match find_char(l, p, close) {
            Some(e) => {
                let t = trim(l.subrange(p, e));
                if t.len() > 0 {
                    Some((t, e + 1))
                } else {
                    None
                }
            },
            None => None,
        }
    }
}

/// A node written at `p`: `((label))` a circle, `[label]` a rectangle,
/// `(label)` rounded, `{label}` a diamond. Gives its shape, its label and
/// the position after it.
pub open spec fn node_ref_at(l: Seq<char>, p: int) -> Option<(NodeShape, Seq<char>, int)> {
    if word_at(l, p, "(("@) {
        match label_at(l, p + 2, ')') {
            Some((t, e)) => if 0 <= e < l.len() && l[e] == ')' {
                Some((NodeShape::Circle, t, e + 1))
            } else {
                None
            },
            None => None,
        }
    } else if 0 <= p < l.len() && l[p] == '[' {
        match label_at(l, p + 1, ']') {
            Some((t, e)) => Some((NodeShape::Rectangle, t, e)),
            None => None,
        }
    } else if 0 <= p < l.len() && l[p] == '(' {
        match label_at(l, p + 1, ')') {
            Some((t, e)) => Some((NodeShape::Rounded, t, e)),
            None => None,
        }
    } else if 0 <= p < l.len() && l[p] == '{' {
        match label_at(l, p + 1, '}') {
            Some((t, e)) => Some((NodeShape::Diamond, t, e)),
            None => None,
        }
    } else {
        None
    }
}

/// The edge type of the connector written at `p`, and the position after it.
pub open spec fn connector_at(l: Seq<char>, p: int) -> Option<(EdgeType, int)> {
    if word_at(l, p, "<-->"@) {
        Some((EdgeType::BidirArrow, p + 4))
    } else if word_at(l, p, "-.->"@) {
        Some((EdgeType::DottedArrow, p + 4))
    } else if word_at(l, p, "-->"@) {
        Some((EdgeType::Arrow, p + 3))
    } else if word_at(l, p, "---"@) {
        Some((EdgeType::Line, p + 3))
    } else if word_at(l, p, "<--"@) {
        Some((EdgeType::BackArrow, p + 3))
    } else if word_at(l, p, "==>"@) {
        Some((EdgeType::ThickArrow, p + 3))
    } else if word_at(l, p, "==="@) {
        Some((EdgeType::DoubleLine, p + 3))
    } else {
        None
    }
}

fn label_exec(l: &Vec<char>, p: usize, close: char) -> (r: Option<(Vec<char>, usize)>)
    requires
        p <= l@.len(),
    ensures
        r matches Some((t, e)) ==> label_at(l@, p as int, close) == Some((t@, e as int)) && p < e <= l@.len(),
        r is None ==> label_at(l@, p as int, close) is None,
{
    let q = skip_blank_exec(l, p);
    if q < l.len() && l[q] == '"' {
        match quoted_end_exec(l, q + 1) {
            Some(e) => {
                let r = skip_blank_exec(l, e + 1);
                if r < l.len() && l[r] == close {
                    let raw = sub_chars(l, q + 1, e);
                    Some((unescape_exec(&raw), r + 1))
                } else {
                    None
                }
            },
            None => None,
        }
    } else {
        match find_char_exec(l, p, close) {
            Some(e) => {
                let raw = sub_chars(l, p, e);
                let t = trim_chars(&raw);
                if t.len() > 0 {
                    Some((t, e + 1))
                } else {
                    None
                }
            },
            None => None,
        }
    }
}

fn node_ref_exec(l: &Vec<char>, p: usize) -> (r: Option<(NodeShape, Vec<char>, usize)>)
    requires
        p <= l@.len(),
    ensures
        r matches Some((s, t, e)) ==> node_ref_at(l@, p as int) == Some((s, t@, e as int)) && p < e <= l@.len(),
        r is None ==> node_ref_at(l@, p as int) is None,
{
    let _n = l.len();
    proof {
        reveal_strlit("((");
    }
    if word_at_exec(l, p, "((") {
        match label_exec(l, p + 2, ')') {
            Some((t, e)) => if e < l.len() && l[e] == ')' {
                Some((NodeShape::Circle, t, e + 1))
            } else {
                None
            },
            None => None,
        }
    } else if p < l.len() && l[p] == '[' {
        match label_exec(l, p + 1, ']') {
            Some((t, e)) => Some((NodeShape::Rectangle, t, e)),
            None => None,
        }
    } else if p < l.len() && l[p] == '(' {
        match label_exec(l, p + 1, ')') {
            Some((t, e)) => Some((NodeShape::Rounded, t, e)),
            None => None,
        }
    } else if p < l.len() && l[p] == '{' {
        match label_exec(l, p + 1, '}') {
            Some((t, e)) => Some((NodeShape::Diamond, t, e)),
            None => None,
        }
    } else {
        None
    }
}

fn connector_exec(l: &Vec<char>, p: usize) -> (r: Option<(EdgeType, usize)>)
    requires
        p <= l@.len(),
    ensures
        r matches Some((t, e)) ==> connector_at(l@, p as int) == Some((t, e as int)) && p < e <= l@.len(),
        r is None ==> connector_at(l@, p as int) is None,
{
    proof {
        reveal_strlit("<-->");
        reveal_strlit("-.->");
        reveal_strlit("-->");
        reveal_strlit("---");
        reveal_strlit("<--");
        reveal_strlit("==>");
        reveal_strlit("===");
    }
    let _n = l.len();
    if word_at_exec(l, p, "<-->") {
        Some((EdgeType::BidirArrow, p + 4))
    } else if word_at_exec(l, p, "-.->") {
        Some((EdgeType::DottedArrow, p + 4))
    } else if word_at_exec(l, p, "-->") {
        Some((EdgeType::Arrow, p + 3))
    } else if word_at_exec(l, p, "---") {
        Some((EdgeType::Line, p + 3))
    } else if word_at_exec(l, p, "<--") {
        Some((EdgeType::BackArrow, p + 3))
    } else if word_at_exec(l, p, "==>") {
        Some((EdgeType::ThickArrow, p + 3))
    } else if word_at_exec(l, p, "===") {
        Some((EdgeType::DoubleLine, p + 3))
    } else {
        None
    }
}


// ─── Attributes and chains ──────────────────────────────────────────────────

/// The first position at or after `p` holding `,` or `}`, or the end.
pub open spec fn value_end(l: Seq<char>, p: int) -> int
    decreases l.len() - p,
{
    if 0 <= p < l.len() && l[p] != ',' && l[p] != '}' {
        value_end(l, p + 1)
    } else {
        p
    }
}

/// An attribute `key: value` at `p`: the key is a run of word characters,
/// the value a quoted string or the text up to `,` or `}`, trimmed.
pub open spec fn attr_at(l: Seq<char>, p: int) -> Option<((Seq<char>, Seq<char>), int)> {
    let ke = word_end(l, p);
    if ke <= p {
        None
    } else {
        let r = skip_blank(l, ke);
        if 0 <= r < l.len() && l[r] == ':' {
            let s = skip_blank(l, r + 1);
            if 0 <= s < l.len() && l[s] == '"' {
                match quoted_end(l, s + 1) {
                    Some(e) => Some(((l.subrange(p, ke), unescape(l.subrange(s + 1, e))), e + 1)),
                    None => None,
                }
            } else {
                let ve = value_end(l, s);
                Some(((l.subrange(p, ke), trim(l.subrange(s, ve))), ve))
            }
        } else {
            None
        }
    }
}

/// Attributes separated by commas, from `p`.
pub open spec fn attr_list_at(l: Seq<char>, p: int) -> Option<(Seq<(Seq<char>, Seq<char>)>, int)>
    decreases l.len() - p,
{
    match attr_at(l, p) {
        None => None,
        Some((a, e)) => {
            let r = skip_blank(l, e);
            if 0 <= r < l.len() && l[r] == ',' {
                let q = skip_blank(l, r + 1);
                if p < q <= l.len() {
                    match attr_list_at(l, q) {
                        Some((rest, e2)) => Some((seq![a] + rest, e2)),
                        None => None,
                    }
                } else {
                    None
                }
            } else {
                Some((seq![a], e))
            }
        },
    }
}

/// An attribute block `{ … }` at `p`, possibly empty.
pub open spec fn attr_block_at(l: Seq<char>, p: int) -> Option<(Seq<(Seq<char>, Seq<char>)>, int)> {
    if 0 <= p < l.len() && l[p] == '{' {
        let q = skip_blank(l, p + 1);
        if 0 <= q < l.len() && l[q] == '}' {
            Some((seq![], q + 1))
        } else {
            match attr_list_at(l, q) {
                Some((attrs, e)) => {
                    let r = skip_blank(l, e);
                    if 0 <= r < l.len() && l[r] == '}' {
                        Some((attrs, r + 1))
                    } else {
                        None
                    }
                },
                None => None,
            }
        }
    } else {
        None
    }
}

/// The connector-and-node steps of a chain from `p` (none when no connector
/// follows), and the position after the last node.
pub open spec fn chain_at(l: Seq<char>, p: int) -> Option<(Seq<(EdgeType, NodeShape, Seq<char>)>, int)>
    decreases l.len() - p,
{
    let r = skip_blank(l, p);
    match connector_at(l, r) {
        None => Some((seq![], p)),
        Some((t, e)) => match node_ref_at(l, skip_blank(l, e)) {
            None => None,
            Some((sh, lb, e2)) => if p < e2 <= l.len() {
                match chain_at(l, e2) {
                    Some((rest, e3)) => Some((seq![(t, sh, lb)] + rest, e3)),
                    None => None,
                }
            } else {
                None
            },
        },
    }
}

fn value_end_exec(l: &Vec<char>, p: usize) -> (e: usize)
    requires
        p <= l@.len(),
    ensures
        e == value_end(l@, p as int),
        p <= e <= l@.len(),
{
    let mut i = p;
    while i < l.len() && l[i] != ',' && l[i] != '}'
        invariant
            p <= i <= l@.len(),
            value_end(l@, i as int) == value_end(l@, p as int),
        decreases l@.len() - i,
    {
        i = i + 1;
    }
    i
}

/// The views of attribute pairs.
pub open spec fn pairs_view(v: Seq<(Vec<char>, Vec<char>)>) -> Seq<(Seq<char>, Seq<char>)> {
    v.map_values(|a: (Vec<char>, Vec<char>)| (a.0@, a.1@))
}

/// The views of chain steps.
pub open spec fn steps_view(v: Seq<(EdgeType, NodeShape, Vec<char>)>) -> Seq<(EdgeType, NodeShape, Seq<char>)> {
    v.map_values(|s: (EdgeType, NodeShape, Vec<char>)| (s.0, s.1, s.2@))
}

fn attr_exec(l: &Vec<char>, p: usize) -> (r: Option<((Vec<char>, Vec<char>), usize)>)
    requires
        p <= l@.len(),
    ensures
        r matches Some((a, e)) ==> attr_at(l@, p as int) == Some(((a.0@, a.1@), e as int)) && p < e <= l@.len(),
        r is None ==> attr_at(l@, p as int) is None,
{
    let ke = word_end_exec(l, p);
    if ke <= p {
        return None;
    }
    let r = skip_blank_exec(l, ke);
    if r < l.len() && l[r] == ':' {
        let s = skip_blank_exec(l, r + 1);
        let key = sub_chars(l, p, ke);
        if s < l.len() && l[s] == '"' {
            match quoted_end_exec(l, s + 1) {
                Some(e) => {
                    let raw = sub_chars(l, s + 1, e);
                    Some(((key, unescape_exec(&raw)), e + 1))
                },
                None => None,
            }
        } else {
            let ve = value_end_exec(l, s);
            let raw = sub_chars(l, s, ve);
            let v = trim_chars(&raw);
            Some(((key, v), ve))
        }
    } else {
        None
    }
}

fn attr_list_exec(l: &Vec<char>, p: usize) -> (r: Option<(Vec<(Vec<char>, Vec<char>)>, usize)>)
    requires
        p <= l@.len(),
    ensures
        r matches Some((v, e)) ==> attr_list_at(l@, p as int) == Some((pairs_view(v@), e as int)) && p < e
            <= l@.len(),
        r is None ==> attr_list_at(l@, p as int) is None,
    decreases l@.len() - p,
{
    match attr_exec(l, p) {
        None => None,
        Some((a, e)) => {
            let r = skip_blank_exec(l, e);
            if r < l.len() && l[r] == ',' {
                let q = skip_blank_exec(l, r + 1);
                if p < q {
                    match attr_list_exec(l, q) {
                        Some((rest, e2)) => {
                            let mut v: Vec<(Vec<char>, Vec<char>)> = Vec::new();
                            let ghost av = (a.0@, a.1@);
                            v.push(a);
                            let mut rest = rest;
                            let ghost rv = rest@;
                            v.append(&mut rest);
                            proof {
                                assert(pairs_view(v@) =~= seq![av] + pairs_view(rv));
                            }
                            Some((v, e2))
                        },
                        None => None,
                    }
                } else {
                    None
                }
            } else {
                let mut v: Vec<(Vec<char>, Vec<char>)> = Vec::new();
                let ghost av = (a.0@, a.1@);
                v.push(a);
                proof {
                    assert(pairs_view(v@) =~= seq![av]);
                }
                Some((v, e))
            }
        },
    }
}

fn attr_block_exec(l: &Vec<char>, p: usize) -> (r: Option<(Vec<(Vec<char>, Vec<char>)>, usize)>)
    requires
        p <= l@.len(),
    ensures
        r matches Some((v, e)) ==> attr_block_at(l@, p as int) == Some((pairs_view(v@), e as int)) && p < e
            <= l@.len(),
        r is None ==> attr_block_at(l@, p as int) is None,
{
    if p < l.len() && l[p] == '{' {
        let q = skip_blank_exec(l, p + 1);
        if q < l.len() && l[q] == '}' {
            let v: Vec<(Vec<char>, Vec<char>)> = Vec::new();
            proof {
                assert(pairs_view(v@) =~= seq![]);
            }
            Some((v, q + 1))
        } else {
            match attr_list_exec(l, q) {
                Some((attrs, e)) => {
                    let r = skip_blank_exec(l, e);
                    if r < l.len() && l[r] == '}' {
                        Some((attrs, r + 1))
                    } else {
                        None
                    }
                },
                None => None,
            }
        }
    } else {
        None
    }
}

fn chain_exec(l: &Vec<char>, p: usize) -> (r: Option<(Vec<(EdgeType, NodeShape, Vec<char>)>, usize)>)
    requires
        p <= l@.len(),
    ensures
        r matches Some((v, e)) ==> chain_at(l@, p as int) == Some((steps_view(v@), e as int)) && p <= e
            <= l@.len(),
        r is None ==> chain_at(l@, p as int) is None,
    decreases l@.len() - p,
{
    let r = skip_blank_exec(l, p);
    match connector_exec(l, r) {
        None => {
            let v: Vec<(EdgeType, NodeShape, Vec<char>)> = Vec::new();
            proof {
                assert(steps_view(v@) =~= seq![]);
            }
            Some((v, p))
        },
        Some((t, e)) => {
            let q = skip_blank_exec(l, e);
            match node_ref_exec(l, q) {
                None => None,
                Some((sh, lb, e2)) => {
                    if p < e2 {
                        match chain_exec(l, e2) {
                            Some((rest, e3)) => {
                                let mut v: Vec<(EdgeType, NodeShape, Vec<char>)> = Vec::new();
                                let ghost sv = (t, sh, lb@);
                                v.push((t, sh, lb));
                                let mut rest = rest;
                                let ghost rv = rest@;
                                v.append(&mut rest);
                                proof {
                                    assert(steps_view(v@) =~= seq![sv] + steps_view(rv));
                                }
                                Some((v, e3))
                            },
                            None => None,
                        }
                    } else {
                        None
                    }
                },
            }
        },
    }
}


// ─── Statements ─────────────────────────────────────────────────────────────

/// What one line says.
pub enum Statement {
    /// Nothing (blanks and comments).
    Blank,
    /// `direction: X`.
    SetDirection(Direction),
    /// `subgraph Name`: opens a group.
    Open(Seq<char>),
    /// `end`: closes the innermost open group.
    Close,
    /// A single node, with its shape and label.
    Declare(NodeShape, Seq<char>),
    /// A node followed by connector-and-node steps, with the attributes of
    /// the chain's edges.
    Connect(NodeShape, Seq<char>, Seq<(EdgeType, NodeShape, Seq<char>)>, Seq<(Seq<char>, Seq<char>)>),
}

/// The direction named `v`: `LR`, `RL` and `BT` as written, anything else
/// top-down.
pub open spec fn dir_of(v: Seq<char>) -> Direction {
    if v == "LR"@ {
        Direction::LR
    } else if v == "RL"@ {
        Direction::RL
    } else if v == "BT"@ {
        Direction::BT
    } else {
        Direction::TD
    }
}

/// The first position at or after `p` holding a blank or `#`, or the end.
pub open spec fn bare_end(l: Seq<char>, p: int) -> int
    decreases l.len() - p,
{
    if 0 <= p < l.len() && !is_blank(l[p]) && l[p] != '#' {
        bare_end(l, p + 1)
    } else {
        p
    }
}

/// A group name at `p`: a quoted string, or a run of characters up to a
/// blank or `#`.
pub open spec fn name_at(l: Seq<char>, p: int) -> Option<(Seq<char>, int)> {
    if 0 <= p < l.len() && l[p] == '"' {
        match quoted_end(l, p + 1) {
            Some(e) => Some((unescape(l.subrange(p + 1, e)), e + 1)),
            None => None,
        }
    } else {
        let ne = bare_end(l, p);
        if ne > p {
            Some((l.subrange(p, ne), ne))
        } else {
            None
        }
    }
}

/// The statement on a line, or `None` when the line is not well formed.
pub open spec fn statement_of(l: Seq<char>) -> Option<Statement> {
    let q = skip_blank(l, 0);
    if rest_blank(l, 0) {
        Some(Statement::Blank)
    } else if word_at(l, q, "direction"@) {
        let r = skip_blank(l, q + 9);
        if 0 <= r < l.len() && l[r] == ':' {
            let s = skip_blank(l, r + 1);
            let e = word_end(l, s);
            if e > s && rest_blank(l, e) {
                Some(Statement::SetDirection(dir_of(l.subrange(s, e))))
            } else {
                None
            }
        } else {
            None
        }
    } else if word_at(l, q, "subgraph"@) && q + 8 < l.len() && is_blank(l[q + 8]) {
        match name_at(l, skip_blank(l, q + 8)) {
            Some((n, e)) => if rest_blank(l, e) {
                Some(Statement::Open(n))
            } else {
                None
            },
            None => None,
        }
    } else if word_at(l, q, "end"@) && rest_blank(l, q + 3) {
        Some(Statement::Close)
    } else {
        match node_ref_at(l, q) {
            None => None,
            Some((sh, lb, e)) => {
                let r = skip_blank(l, e);
                if rest_blank(l, e) {
                    Some(Statement::Declare(sh, lb))
                } else if l[r] == '{' {
                    match attr_block_at(l, r) {
                        Some((_, e2)) => if rest_blank(l, e2) {
                            Some(Statement::Declare(sh, lb))
                        } else {
                            None
                        },
                        None => None,
                    }
                } else {
                    match chain_at(l, e) {
                        Some((steps, e2)) => if steps.len() > 0 {
                            let r2 = skip_blank(l, e2);
                            if rest_blank(l, e2) {
                                Some(Statement::Connect(sh, lb, steps, seq![]))
                            } else if l[r2] == '{' {
                                match attr_block_at(l, r2) {
                                    Some((attrs, e3)) => if rest_blank(l, e3) {
                                        Some(Statement::Connect(sh, lb, steps, attrs))
                                    } else {
                                        None
                                    },
                                    None => None,
                                }
                            } else {
                                None
                            }
                        } else {
                            None
                        },
                        None => None,
                    }
                }
            },
        }
    }
}

/// A line, read.
enum LineKind {
    Blank,
    SetDirection(Direction),
    Open(Vec<char>),
    Close,
    Declare(NodeShape, Vec<char>),
    Connect(NodeShape, Vec<char>, Vec<(EdgeType, NodeShape, Vec<char>)>, Vec<(Vec<char>, Vec<char>)>),
}

spec fn kind_view(k: LineKind) -> Statement {
    match k {
        LineKind::Blank => Statement::Blank,
        LineKind::SetDirection(d) => Statement::SetDirection(d),
        LineKind::Open(n) => Statement::Open(n@),
        LineKind::Close => Statement::Close,
        LineKind::Declare(sh, lb) => Statement::Declare(sh, lb@),
        LineKind::Connect(sh, lb, steps, attrs) => Statement::Connect(sh, lb@, steps_view(steps@), pairs_view(attrs@)),
    }
}

fn dir_of_exec(l: &Vec<char>, s: usize, e: usize) -> (d: Direction)
    requires
        s <= e <= l@.len(),
    ensures
        d == dir_of(l@.subrange(s as int, e as int)),
{
    let v = sub_chars(l, s, e);
    let t = string_from_chars(&v);
    if crate::text::str_eq(t.as_str(), "LR") {
        Direction::LR
    } else if crate::text::str_eq(t.as_str(), "RL") {
        Direction::RL
    } else if crate::text::str_eq(t.as_str(), "BT") {
        Direction::BT
    } else {
        Direction::TD
    }
}

fn bare_end_exec(l: &Vec<char>, p: usize) -> (e: usize)
    requires
        p <= l@.len(),
    ensures
        e == bare_end(l@, p as int),
        p <= e <= l@.len(),
{
    let mut i = p;
    while i < l.len() && !is_blank_exec(l[i]) && l[i] != '#'
        invariant
            p <= i <= l@.len(),
            bare_end(l@, i as int) == bare_end(l@, p as int),
        decreases l@.len() - i,
    {
        i = i + 1;
    }
    i
}

fn name_exec(l: &Vec<char>, p: usize) -> (r: Option<(Vec<char>, usize)>)
    requires
        p <= l@.len(),
    ensures
        r matches Some((n, e)) ==> name_at(l@, p as int) == Some((n@, e as int)) && p < e <= l@.len(),
        r is None ==> name_at(l@, p as int) is None,
{
    if p < l.len() && l[p] == '"' {
        match quoted_end_exec(l, p + 1) {
            Some(e) => {
                let raw = sub_chars(l, p + 1, e);
                Some((unescape_exec(&raw), e + 1))
            },
            None => None,
        }
    } else {
        let ne = bare_end_exec(l, p);
        if ne > p {
            Some((sub_chars(l, p, ne), ne))
        } else {
            None
        }
    }
}

fn statement_exec(l: &Vec<char>) -> (r: Option<LineKind>)
    ensures
        r matches Some(k) ==> statement_of(l@) == Some(kind_view(k)),
        r is None ==> statement_of(l@) is None,
{
    let _n = l.len();
    proof {
        reveal_strlit("direction");
        reveal_strlit("subgraph");
        reveal_strlit("end");
    }
    let q = skip_blank_exec(l, 0);
    if rest_blank_exec(l, 0) {
        Some(LineKind::Blank)
    } else if word_at_exec(l, q, "direction") {
        let r = skip_blank_exec(l, q + 9);
        if r < l.len() && l[r] == ':' {
            let s = skip_blank_exec(l, r + 1);
            let e = word_end_exec(l, s);
            if e > s && rest_blank_exec(l, e) {
                Some(LineKind::SetDirection(dir_of_exec(l, s, e)))
            } else {
                None
            }
        } else {
            None
        }
    } else if word_at_exec(l, q, "subgraph") && q + 8 < l.len() && is_blank_exec(l[q + 8]) {
        let s = skip_blank_exec(l, q + 8);
        match name_exec(l, s) {
            Some((n, e)) => if rest_blank_exec(l, e) {
                Some(LineKind::Open(n))
            } else {
                None
            },
            None => None,
        }
    } else if word_at_exec(l, q, "end") && rest_blank_exec(l, q + 3) {
        Some(LineKind::Close)
    } else {
        match node_ref_exec(l, q) {
            None => None,
            Some((sh, lb, e)) => {
                let r = skip_blank_exec(l, e);
                if rest_blank_exec(l, e) {
                    Some(LineKind::Declare(sh, lb))
                } else if l[r] == '{' {
                    match attr_block_exec(l, r) {
                        Some((_, e2)) => if rest_blank_exec(l, e2) {
                            Some(LineKind::Declare(sh, lb))
                        } else {
                            None
                        },
                        None => None,
                    }
                } else {
                    match chain_exec(l, e) {
                        Some((steps, e2)) => if steps.len() > 0 {
                            let r2 = skip_blank_exec(l, e2);
                            if rest_blank_exec(l, e2) {
                                let none: Vec<(Vec<char>, Vec<char>)> = Vec::new();
                                proof {
                                    assert(pairs_view(none@) =~= seq![]);
                                }
                                Some(LineKind::Connect(sh, lb, steps, none))
                            } else if l[r2] == '{' {
                                match attr_block_exec(l, r2) {
                                    Some((attrs, e3)) => if rest_blank_exec(l, e3) {
                                        Some(LineKind::Connect(sh, lb, steps, attrs))
                                    } else {
                                        None
                                    },
                                    None => None,
                                }
                            } else {
                                None
                            }
                        } else {
                            proof {
                                assert(steps_view(steps@).len() == 0);
                            }
                            None
                        },
                        None => None,
                    }
                }
            },
        }
    }
}


// ─── The diagram a text describes ───────────────────────────────────────────

/// A node: id, label, shape and attributes.
pub struct NodeModel {
    pub id: Seq<char>,
    pub label: Seq<char>,
    pub shape: NodeShape,
    pub attrs: Seq<(Seq<char>, Seq<char>)>,
}

/// An edge: its ends by id, its type, label and attributes.
pub struct EdgeModel {
    pub from: Seq<char>,
    pub to: Seq<char>,
    pub edge_type: EdgeType,
    pub label: Option<Seq<char>>,
    pub attrs: Seq<(Seq<char>, Seq<char>)>,
}

/// A group: its name, nodes, edges and nested groups.
pub struct GroupModel {
    pub name: Seq<char>,
    pub nodes: Seq<NodeModel>,
    pub edges: Seq<EdgeModel>,
    pub groups: Seq<GroupModel>,
}

/// A whole diagram.
pub struct DiagramModel {
    pub nodes: Seq<NodeModel>,
    pub edges: Seq<EdgeModel>,
    pub groups: Seq<GroupModel>,
    pub direction: Direction,
}

/// Attributes as key-value pairs.
pub open spec fn attrs_model(v: Seq<Attr>) -> Seq<(Seq<char>, Seq<char>)> {
    v.map_values(|a: Attr| (a.key@, a.value@))
}

pub open spec fn node_model(n: Node) -> NodeModel {
    NodeModel { id: n.id@, label: n.label@, shape: n.shape, attrs: attrs_model(n.attrs@) }
}

pub open spec fn nodes_model(v: Seq<Node>) -> Seq<NodeModel> {
    v.map_values(|n: Node| node_model(n))
}

pub open spec fn edge_model(e: Edge) -> EdgeModel {
    EdgeModel {
        from: e.from@,
        to: e.to@,
        edge_type: e.edge_type,
        label: match e.label {
            Some(t) => Some(t@),
            None => None,
        },
        attrs: attrs_model(e.attrs@),
    }
}

pub open spec fn edges_model(v: Seq<Edge>) -> Seq<EdgeModel> {
    v.map_values(|e: Edge| edge_model(e))
}

pub open spec fn group_model(g: Subgraph) -> GroupModel
    decreases g,
{
    GroupModel {
        name: g.name@,
        nodes: nodes_model(g.nodes@),
        edges: edges_model(g.edges@),
        groups: groups_model(g.subgraphs@),
    }
}

pub open spec fn groups_model(v: Seq<Subgraph>) -> Seq<GroupModel>
    decreases v,
{
    if v.len() == 0 {
        seq![]
    } else {
        groups_model(v.drop_last()).push(group_model(v.last()))
    }
}

pub open spec fn diagram_model(d: Diagram) -> DiagramModel {
    DiagramModel {
        nodes: nodes_model(d.nodes@),
        edges: edges_model(d.edges@),
        groups: groups_model(d.subgraphs@),
        direction: d.direction,
    }
}

/// The diagram read so far and the groups still open, innermost last.
pub struct ParseState {
    pub top: DiagramModel,
    pub open: Seq<GroupModel>,
}

/// `ns` with `n` added unless a node with its id is already there.
pub open spec fn upsert_model(ns: Seq<NodeModel>, n: NodeModel) -> Seq<NodeModel> {
    if exists|i: int| 0 <= i < ns.len() && (#[trigger] ns[i]).id == n.id {
        ns
    } else {
        ns.push(n)
    }
}

/// The node a reference stands for: its id is its label.
pub open spec fn parsed_node(sh: NodeShape, lb: Seq<char>) -> NodeModel {
    NodeModel { id: lb, label: lb, shape: sh, attrs: seq![] }
}

/// `ns` with the nodes of the steps added, in order.
pub open spec fn upsert_steps(ns: Seq<NodeModel>, steps: Seq<(EdgeType, NodeShape, Seq<char>)>) -> Seq<NodeModel>
    decreases steps.len(),
{
    if steps.len() == 0 {
        ns
    } else {
        upsert_model(upsert_steps(ns, steps.drop_last()), parsed_node(steps.last().1, steps.last().2))
    }
}

/// The edges of a chain that starts at `src`: each step joins the previous
/// node to its own, with the step's type and the chain's attributes.
pub open spec fn chain_edges(
    src: Seq<char>,
    steps: Seq<(EdgeType, NodeShape, Seq<char>)>,
    attrs: Seq<(Seq<char>, Seq<char>)>,
) -> Seq<EdgeModel> {
    Seq::new(
        steps.len(),
        |k: int|
            EdgeModel {
                from: if k == 0 {
                    src
                } else {
                    steps[k - 1].2
                },
                to: steps[k].2,
                edge_type: steps[k].0,
                label: None,
                attrs: attrs,
            },
    )
}

pub open spec fn empty_group(name: Seq<char>) -> GroupModel {
    GroupModel { name, nodes: seq![], edges: seq![], groups: seq![] }
}

/// A group with other nodes and edges.
pub open spec fn with_contents(g: GroupModel, nodes: Seq<NodeModel>, edges: Seq<EdgeModel>) -> GroupModel {
    GroupModel { name: g.name, nodes, edges, groups: g.groups }
}

/// The state with the nodes and edges of the innermost scope (the top level
/// when no group is open) changed by `f` and `h`.
pub open spec fn with_scope(st: ParseState, nodes: Seq<NodeModel>, edges: Seq<EdgeModel>) -> ParseState {
    if st.open.len() == 0 {
        ParseState {
            top: DiagramModel { nodes, edges, groups: st.top.groups, direction: st.top.direction },
            open: st.open,
        }
    } else {
        ParseState { top: st.top, open: st.open.update(st.open.len() - 1, with_contents(st.open.last(), nodes, edges)) }
    }
}

/// The nodes of the innermost scope.
pub open spec fn scope_nodes(st: ParseState) -> Seq<NodeModel> {
    if st.open.len() == 0 {
        st.top.nodes
    } else {
        st.open.last().nodes
    }
}

/// The edges of the innermost scope.
pub open spec fn scope_edges(st: ParseState) -> Seq<EdgeModel> {
    if st.open.len() == 0 {
        st.top.edges
    } else {
        st.open.last().edges
    }
}

/// One statement applied to the state; `None` for an `end` with no open group.
/// A direction inside a group is ignored.
pub open spec fn step(st: ParseState, s: Statement) -> Option<ParseState> {
    match s {
        Statement::Blank => Some(st),
        Statement::SetDirection(d) => if st.open.len() == 0 {
            Some(
                ParseState {
                    top: DiagramModel { nodes: st.top.nodes, edges: st.top.edges, groups: st.top.groups, direction: d },
                    open: st.open,
                },
            )
        } else {
            Some(st)
        },
        Statement::Open(n) => Some(ParseState { top: st.top, open: st.open.push(empty_group(n)) }),
        Statement::Close => if st.open.len() == 0 {
            None
        } else {
            let g = st.open.last();
            let rest = st.open.drop_last();
            if rest.len() == 0 {
                Some(
                    ParseState {
                        top: DiagramModel {
                            nodes: st.top.nodes,
                            edges: st.top.edges,
                            groups: st.top.groups.push(g),
                            direction: st.top.direction,
                        },
                        open: rest,
                    },
                )
            } else {
                let p = rest.last();
                Some(
                    ParseState {
                        top: st.top,
                        open: rest.update(
                            rest.len() - 1,
                            GroupModel { name: p.name, nodes: p.nodes, edges: p.edges, groups: p.groups.push(g) },
                        ),
                    },
                )
            }
        },
        Statement::Declare(sh, lb) => Some(
            with_scope(st, upsert_model(scope_nodes(st), parsed_node(sh, lb)), scope_edges(st)),
        ),
        Statement::Connect(sh, lb, steps, attrs) => Some(
            with_scope(
                st,
                upsert_steps(upsert_model(scope_nodes(st), parsed_node(sh, lb)), steps),
                scope_edges(st) + chain_edges(lb, steps, attrs),
            ),
        ),
    }
}

/// An empty top-down diagram with no group open.
pub open spec fn start_state() -> ParseState {
    ParseState {
        top: DiagramModel { nodes: seq![], edges: seq![], groups: seq![], direction: Direction::TD },
        open: seq![],
    }
}

/// The state after the lines, or the index of the first line that is not
/// well formed or closes no group.
pub open spec fn run(lines: Seq<Seq<char>>) -> Result<ParseState, nat>
    decreases lines.len(),
{
    if lines.len() == 0 {
        Ok(start_state())
    } else {
        match run(lines.drop_last()) {
            Err(k) => Err(k),
            Ok(st) => match statement_of(lines.last()) {
                None => Err((lines.len() - 1) as nat),
                Some(s) => match step(st, s) {
                    Some(st2) => Ok(st2),
                    None => Err((lines.len() - 1) as nat),
                },
            },
        }
    }
}

/// Why a text describes no diagram.
pub enum ParseFault {
    /// The line with this index (from 0) is not well formed, or closes no group.
    BadLine(nat),
    /// A group is still open at the end.
    OpenGroup,
}

/// The diagram a text describes, or why there is none.
pub open spec fn parse_model(input: Seq<char>) -> Result<DiagramModel, ParseFault> {
    match run(crate::render::split_lines(input)) {
        Err(k) => Err(ParseFault::BadLine(k)),
        Ok(st) => if st.open.len() == 0 {
            Ok(st.top)
        } else {
            Err(ParseFault::OpenGroup)
        },
    }
}

/// The message for a fault; lines are numbered from 1.
pub open spec fn fault_text(f: ParseFault) -> Seq<char> {
    match f {
        ParseFault::BadLine(k) => "syntax error on line "@ + nat_decimal(k + 1),
        ParseFault::OpenGroup => "unclosed subgraph at end of input"@,
    }
}

/// The model of a diagram being read and its open groups.
pub open spec fn state_of(top: Diagram, open: Seq<Subgraph>) -> ParseState {
    ParseState { top: diagram_model(top), open: open.map_values(|g: Subgraph| group_model(g)) }
}

fn make_node(sh: NodeShape, lb: &Vec<char>) -> (n: Node)
    ensures
        node_model(n) == parsed_node(sh, lb@),
{
    let n = Node::new(string_from_chars(lb), sh);
    proof {
        assert(attrs_model(n.attrs@) =~= seq![]);
    }
    n
}

fn make_attrs(attrs: &Vec<(Vec<char>, Vec<char>)>) -> (v: Vec<Attr>)
    ensures
        attrs_model(v@) == pairs_view(attrs@),
{
    let mut v: Vec<Attr> = Vec::new();
    let mut i: usize = 0;
    while i < attrs.len()
        invariant
            i <= attrs@.len(),
            attrs_model(v@) == pairs_view(attrs@.take(i as int)),
        decreases attrs@.len() - i,
    {
        let a = Attr { key: string_from_chars(&attrs[i].0), value: string_from_chars(&attrs[i].1) };
        let ghost before = v@;
        v.push(a);
        proof {
            assert(v@ =~= before.push(a));
            assert(attrs_model(v@) =~= attrs_model(before).push((a.key@, a.value@)));
            assert(attrs@.take(i + 1) =~= attrs@.take(i as int).push(attrs@[i as int]));
            assert(pairs_view(attrs@.take(i + 1)) =~= pairs_view(attrs@.take(i as int)).push(
                (attrs@[i as int].0@, attrs@[i as int].1@),
            ));
        }
        i = i + 1;
    }
    proof {
        assert(attrs@.take(attrs@.len() as int) =~= attrs@);
    }
    v
}

/// Adds `n` unless a node with its id is already there.
fn upsert_node(nodes: &mut Vec<Node>, n: Node)
    ensures
        nodes_model(final(nodes)@) == upsert_model(nodes_model(old(nodes)@), node_model(n)),
{
    let ghost before = nodes_model(nodes@);
    let mut i: usize = 0;
    while i < nodes.len()
        invariant
            i <= nodes@.len(),
            nodes@ == old(nodes)@,
            before == nodes_model(nodes@),
            forall|j: int| 0 <= j < i ==> (#[trigger] nodes@[j]).id@ != n.id@,
        decreases nodes@.len() - i,
    {
        if crate::text::str_eq(nodes[i].id.as_str(), n.id.as_str()) {
            proof {
                assert(before[i as int].id == node_model(n).id);
            }
            return;
        }
        i = i + 1;
    }
    proof {
        assert forall|j: int| 0 <= j < before.len() implies (#[trigger] before[j]).id != node_model(n).id by {
            assert(before[j] == node_model(nodes@[j]));
        }
    }
    nodes.push(n);
    proof {
        assert(nodes_model(nodes@) =~= before.push(node_model(n)));
    }
}

/// Adds a chain's nodes and edges to a scope.
fn add_chain(
    nodes: &mut Vec<Node>,
    edges: &mut Vec<Edge>,
    sh: NodeShape,
    lb: &Vec<char>,
    steps: &Vec<(EdgeType, NodeShape, Vec<char>)>,
    attrs: &Vec<(Vec<char>, Vec<char>)>,
)
    ensures
        nodes_model(final(nodes)@) == upsert_steps(
            upsert_model(nodes_model(old(nodes)@), parsed_node(sh, lb@)),
            steps_view(steps@),
        ),
        edges_model(final(edges)@) == edges_model(old(edges)@) + chain_edges(lb@, steps_view(steps@), pairs_view(attrs@)),
{
    upsert_node(nodes, make_node(sh, lb));
    let ghost base = nodes_model(nodes@);
    let ghost e0 = edges_model(edges@);
    let ghost sv = steps_view(steps@);
    let ghost all = chain_edges(lb@, sv, pairs_view(attrs@));
    let av = make_attrs(attrs);
    let mut prev = string_from_chars(lb);
    let mut j: usize = 0;
    proof {
        assert(sv.take(0) =~= Seq::<(EdgeType, NodeShape, Seq<char>)>::empty());
        assert(e0 + all.take(0) =~= e0);
    }
    while j < steps.len()
        invariant
            j <= steps@.len(),
            sv == steps_view(steps@),
            all == chain_edges(lb@, sv, pairs_view(attrs@)),
            attrs_model(av@) == pairs_view(attrs@),
            nodes_model(nodes@) == upsert_steps(base, sv.take(j as int)),
            edges_model(edges@) == e0 + all.take(j as int),
            prev@ == (if j == 0 {
                lb@
            } else {
                sv[j - 1].2
            }),
        decreases steps@.len() - j,
    {
        let t = steps[j].0;
        let s2 = steps[j].1;
        let e = Edge {
            from: prev,
            to: string_from_chars(&steps[j].2),
            edge_type: t,
            label: None,
            attrs: crate::ast::clone_attrs(&av),
        };
        let ghost em = edge_model(e);
        proof {
            assert(em == all[j as int]);
        }
        let ghost eb = edges@;
        edges.push(e);
        proof {
            assert(edges@ =~= eb.push(e));
            assert(edges_model(edges@) =~= edges_model(eb).push(em));
            assert(all.take(j + 1) =~= all.take(j as int).push(all[j as int]));
            assert(edges_model(edges@) =~= e0 + all.take(j + 1));
        }
        let ghost before = nodes_model(nodes@);
        upsert_node(nodes, make_node(s2, &steps[j].2));
        proof {
            assert(sv.take(j + 1).drop_last() =~= sv.take(j as int));
            assert(sv.take(j + 1).last() == sv[j as int]);
        }
        prev = string_from_chars(&steps[j].2);
        j = j + 1;
    }
    proof {
        assert(sv.take(sv.len() as int) =~= sv);
        assert(all.take(all.len() as int) =~= all);
    }
}


proof fn lemma_groups_push(v: Seq<Subgraph>, g: Subgraph)
    ensures
        groups_model(v.push(g)) == groups_model(v).push(group_model(g)),
{
    assert(v.push(g).drop_last() =~= v);
    assert(v.push(g).last() == g);
}

/// Applies one line to the diagram and its open groups; false for an `end`
/// with no open group.
fn apply_line(top: &mut Diagram, open: &mut Vec<Subgraph>, k: LineKind) -> (ok: bool)
    ensures
        match step(state_of(*old(top), old(open)@), kind_view(k)) {
            Some(st) => ok && state_of(*final(top), final(open)@) == st,
            None => !ok,
        },
{
    let ghost st = state_of(*top, open@);
    let ghost gm = |g: Subgraph| group_model(g);
    match k {
        LineKind::Blank => true,
        LineKind::SetDirection(d) => {
            if open.len() == 0 {
                top.direction = d;
            }
            true
        },
        LineKind::Open(n) => {
            let g = Subgraph::new(string_from_chars(&n));
            proof {
                assert(nodes_model(g.nodes@) =~= seq![]);
                assert(edges_model(g.edges@) =~= seq![]);
                assert(groups_model(g.subgraphs@) =~= seq![]);
                assert(group_model(g) == empty_group(n@));
            }
            open.push(g);
            proof {
                assert(open@.map_values(gm) =~= st.open.push(empty_group(n@)));
            }
            true
        },
        LineKind::Close => {
            if open.len() == 0 {
                return false;
            }
            let g = open.pop().unwrap();
            proof {
                assert(open@.map_values(gm) =~= st.open.drop_last());
                assert(group_model(g) == st.open.last());
            }
            if open.len() == 0 {
                proof {
                    lemma_groups_push(top.subgraphs@, g);
                }
                top.subgraphs.push(g);
            } else {
                let mut p = open.pop().unwrap();
                let ghost pm = group_model(p);
                proof {
                    lemma_groups_push(p.subgraphs@, g);
                }
                p.subgraphs.push(g);
                proof {
                    assert(group_model(p) == GroupModel {
                        name: pm.name,
                        nodes: pm.nodes,
                        edges: pm.edges,
                        groups: pm.groups.push(group_model(g)),
                    });
                }
                open.push(p);
                proof {
                    let rest = st.open.drop_last();
                    assert(open@.map_values(gm) =~= rest.update(
                        rest.len() - 1,
                        GroupModel { name: pm.name, nodes: pm.nodes, edges: pm.edges, groups: pm.groups.push(group_model(g)) },
                    ));
                }
            }
            true
        },
        LineKind::Declare(sh, lb) => {
            if open.len() == 0 {
                upsert_node(&mut top.nodes, make_node(sh, &lb));
            } else {
                let mut g = open.pop().unwrap();
                let ghost gm0 = group_model(g);
                upsert_node(&mut g.nodes, make_node(sh, &lb));
                proof {
                    assert(group_model(g) == with_contents(gm0, nodes_model(g.nodes@), gm0.edges));
                }
                open.push(g);
                proof {
                    assert(open@.map_values(gm) =~= st.open.update(
                        st.open.len() - 1,
                        with_contents(st.open.last(), nodes_model(g.nodes@), st.open.last().edges),
                    ));
                }
            }
            true
        },
        LineKind::Connect(sh, lb, steps, attrs) => {
            if open.len() == 0 {
                add_chain(&mut top.nodes, &mut top.edges, sh, &lb, &steps, &attrs);
            } else {
                let mut g = open.pop().unwrap();
                let ghost gm0 = group_model(g);
                add_chain(&mut g.nodes, &mut g.edges, sh, &lb, &steps, &attrs);
                proof {
                    assert(group_model(g) == with_contents(gm0, nodes_model(g.nodes@), edges_model(g.edges@)));
                }
                open.push(g);
                proof {
                    assert(open@.map_values(gm) =~= st.open.update(
                        st.open.len() - 1,
                        with_contents(st.open.last(), nodes_model(g.nodes@), edges_model(g.edges@)),
                    ));
                }
            }
            true
        },
    }
}

fn fault_message(line: usize) -> (m: String)
    requires
        line < usize::MAX,
    ensures
        m@ == fault_text(ParseFault::BadLine(line as nat)),
{
    let mut m = String::new();
    crate::text::push_str(&mut m, "syntax error on line ");
    crate::text::push_u64(&mut m, (line + 1) as u64);
    m
}

/// Reads a diagram, line by line; the error names the first line at fault,
/// or an unclosed group.
pub fn parse(input: &str) -> (r: Result<Diagram, String>)
    ensures
        r is Ok <==> parse_model(input@) is Ok,
        r matches Ok(d) ==> parse_model(input@) == Ok::<DiagramModel, ParseFault>(diagram_model(d)),
        r matches Err(m) ==> (parse_model(input@) matches Err(f) && m@ == fault_text(f)),
{
    let chars = str_chars(input);
    let lines = crate::render::split_newlines(&chars);
    let ghost ls = lines@.map_values(|l: Vec<char>| l@);
    let mut top = Diagram::new();
    let mut open: Vec<Subgraph> = Vec::new();
    proof {
        assert(ls.take(0) =~= Seq::<Seq<char>>::empty());
        assert(nodes_model(top.nodes@) =~= seq![]);
        assert(edges_model(top.edges@) =~= seq![]);
        assert(groups_model(top.subgraphs@) =~= seq![]);
        assert(open@.map_values(|g: Subgraph| group_model(g)) =~= seq![]);
    }
    let mut i: usize = 0;
    while i < lines.len()
        invariant
            i <= lines@.len(),
            ls == lines@.map_values(|l: Vec<char>| l@),
            ls == crate::render::split_lines(input@),
            run(ls.take(i as int)) == Ok::<ParseState, nat>(state_of(top, open@)),
        decreases lines@.len() - i,
    {
        proof {
            assert(ls.take(i + 1).drop_last() =~= ls.take(i as int));
            assert(ls.take(i + 1).last() == lines@[i as int]@);
        }
        match statement_exec(&lines[i]) {
            None => {
                proof {
                    lemma_run_fails_after(ls, i as int);
                }
                return Err(fault_message(i));
            },
            Some(k) => {
                if !apply_line(&mut top, &mut open, k) {
                    proof {
                        lemma_run_fails_after(ls, i as int);
                    }
                    return Err(fault_message(i));
                }
            },
        }
        i = i + 1;
    }
    proof {
        assert(ls.take(ls.len() as int) =~= ls);
    }
    if open.len() > 0 {
        let mut m = String::new();
        crate::text::push_str(&mut m, "unclosed subgraph at end of input");
        proof {
            assert(m@ =~= "unclosed subgraph at end of input"@);
        }
        return Err(m);
    }
    Ok(top)
}

/// Once a prefix of the lines fails, the whole run fails there.
proof fn lemma_run_fails_after(ls: Seq<Seq<char>>, i: int)
    requires
        0 <= i < ls.len(),
        run(ls.take(i + 1)) matches Err(k) && k == i,
    ensures
        run(ls) == Err::<ParseState, nat>(i as nat),
    decreases ls.len(),
{
    if ls.len() > i + 1 {
        assert(ls.drop_last().take(i + 1) =~= ls.take(i + 1));
        lemma_run_fails_after(ls.drop_last(), i);
    } else {
        assert(ls.take(i + 1) =~= ls);
    }
}


/// The reader of the diagram language.
pub struct GraphParser;

impl GraphParser {
    /// Reads a diagram; the same as [`parse`].
    pub fn parse(input: &str) -> (r: Result<Diagram, String>)
        ensures
            r is Ok <==> parse_model(input@) is Ok,
            r matches Ok(d) ==> parse_model(input@) == Ok::<DiagramModel, ParseFault>(diagram_model(d)),
            r matches Err(m) ==> (parse_model(input@) matches Err(f) && m@ == fault_text(f)),
    {
        parse(input)
    }
}


// ─── What every parsed diagram satisfies ────────────────────────────────────

/// No two nodes share an id.
pub open spec fn ids_distinct(ns: Seq<NodeModel>) -> bool {
    forall|i: int, j: int| 0 <= i < j < ns.len() ==> (#[trigger] ns[i]).id != (#[trigger] ns[j]).id
}

/// Some node has the id `id`.
pub open spec fn has_id(ns: Seq<NodeModel>, id: Seq<char>) -> bool {
    exists|i: int| 0 <= i < ns.len() && (#[trigger] ns[i]).id == id
}

/// Node ids are distinct and every edge joins two of the nodes.
pub open spec fn scope_ok(ns: Seq<NodeModel>, es: Seq<EdgeModel>) -> bool {
    &&& ids_distinct(ns)
    &&& forall|k: int| 0 <= k < es.len() ==> has_id(ns, (#[trigger] es[k]).from) && has_id(ns, es[k].to)
}

/// A group and all groups nested in it are well formed scopes.
pub open spec fn group_ok(g: GroupModel) -> bool
    decreases g,
{
    scope_ok(g.nodes, g.edges) && groups_ok(g.groups)
}

/// Every group of the list is well formed.
pub open spec fn groups_ok(gs: Seq<GroupModel>) -> bool
    decreases gs,
{
    if gs.len() == 0 {
        true
    } else {
        groups_ok(gs.drop_last()) && group_ok(gs.last())
    }
}

/// Every scope of the state is well formed.
pub open spec fn state_ok(st: ParseState) -> bool {
    &&& scope_ok(st.top.nodes, st.top.edges)
    &&& groups_ok(st.top.groups)
    &&& groups_ok(st.open)
}

proof fn lemma_groups_ok_push(gs: Seq<GroupModel>, g: GroupModel)
    ensures
        groups_ok(gs.push(g)) == (groups_ok(gs) && group_ok(g)),
{
    assert(gs.push(g).drop_last() =~= gs);
    assert(gs.push(g).last() == g);
}

proof fn lemma_groups_ok_split(gs: Seq<GroupModel>)
    requires
        gs.len() > 0,
    ensures
        gs =~= gs.drop_last().push(gs.last()),
        groups_ok(gs) == (groups_ok(gs.drop_last()) && group_ok(gs.last())),
{
}

proof fn lemma_upsert(ns: Seq<NodeModel>, n: NodeModel)
    requires
        ids_distinct(ns),
    ensures
        ids_distinct(upsert_model(ns, n)),
        has_id(upsert_model(ns, n), n.id),
        forall|id: Seq<char>| has_id(ns, id) ==> has_id(upsert_model(ns, n), id),
{
    let r = upsert_model(ns, n);
    if exists|i: int| 0 <= i < ns.len() && (#[trigger] ns[i]).id == n.id {
    } else {
        assert(r[ns.len() as int] == n);
        assert forall|id: Seq<char>| has_id(ns, id) implies has_id(r, id) by {
            let i = choose|i: int| 0 <= i < ns.len() && (#[trigger] ns[i]).id == id;
            assert(r[i] == ns[i]);
        }
    }
}

proof fn lemma_upsert_steps(ns: Seq<NodeModel>, steps: Seq<(EdgeType, NodeShape, Seq<char>)>)
    requires
        ids_distinct(ns),
    ensures
        ids_distinct(upsert_steps(ns, steps)),
        forall|k: int| 0 <= k < steps.len() ==> has_id(upsert_steps(ns, steps), (#[trigger] steps[k]).2),
        forall|id: Seq<char>| has_id(ns, id) ==> has_id(upsert_steps(ns, steps), id),
    decreases steps.len(),
{
    if steps.len() > 0 {
        let prev = upsert_steps(ns, steps.drop_last());
        lemma_upsert_steps(ns, steps.drop_last());
        lemma_upsert(prev, parsed_node(steps.last().1, steps.last().2));
        assert forall|k: int| 0 <= k < steps.len() implies has_id(upsert_steps(ns, steps), (#[trigger] steps[k]).2) by {
            if k < steps.len() - 1 {
                assert(steps.drop_last()[k] == steps[k]);
            }
        }
    }
}

proof fn lemma_scope_update(st: ParseState, ns: Seq<NodeModel>, es: Seq<EdgeModel>)
    requires
        state_ok(st),
        scope_ok(ns, es),
    ensures
        state_ok(with_scope(st, ns, es)),
{
    if st.open.len() > 0 {
        let st2 = with_scope(st, ns, es);
        let last = st.open.last();
        lemma_groups_ok_split(st.open);
        let g2 = with_contents(last, ns, es);
        assert(st2.open =~= st.open.drop_last().push(g2));
        lemma_groups_ok_push(st.open.drop_last(), g2);
    }
}

proof fn lemma_step_ok(st: ParseState, s: Statement)
    requires
        state_ok(st),
        step(st, s) is Some,
    ensures
        state_ok(step(st, s)->0),
{
    let ns = scope_nodes(st);
    let es = scope_edges(st);
    assert(scope_ok(ns, es)) by {
        if st.open.len() > 0 {
            lemma_groups_ok_split(st.open);
        }
    }
    match s {
        Statement::Blank => {},
        Statement::SetDirection(d) => {},
        Statement::Open(n) => {
            let g = empty_group(n);
            assert(groups_ok(g.groups));
            lemma_groups_ok_push(st.open, g);
        },
        Statement::Close => {
            let g = st.open.last();
            lemma_groups_ok_split(st.open);
            let rest = st.open.drop_last();
            if rest.len() == 0 {
                lemma_groups_ok_push(st.top.groups, g);
            } else {
                let p = rest.last();
                lemma_groups_ok_split(rest);
                let p2 = GroupModel { name: p.name, nodes: p.nodes, edges: p.edges, groups: p.groups.push(g) };
                lemma_groups_ok_push(p.groups, g);
                assert(group_ok(p2));
                assert(rest.update(rest.len() - 1, p2) =~= rest.drop_last().push(p2));
                lemma_groups_ok_push(rest.drop_last(), p2);
            }
        },
        Statement::Declare(sh, lb) => {
            let n = parsed_node(sh, lb);
            lemma_upsert(ns, n);
            let ns2 = upsert_model(ns, n);
            assert(scope_ok(ns2, es));
            lemma_scope_update(st, ns2, es);
        },
        Statement::Connect(sh, lb, steps, attrs) => {
            let n = parsed_node(sh, lb);
            lemma_upsert(ns, n);
            let ns1 = upsert_model(ns, n);
            lemma_upsert_steps(ns1, steps);
            let ns2 = upsert_steps(ns1, steps);
            let es2 = es + chain_edges(lb, steps, attrs);
            assert forall|k: int| 0 <= k < es2.len() implies has_id(ns2, (#[trigger] es2[k]).from) && has_id(
                ns2,
                es2[k].to,
            ) by {
                if k < es.len() {
                    assert(es2[k] == es[k]);
                } else {
                    let m = k - es.len();
                    assert(es2[k] == chain_edges(lb, steps, attrs)[m]);
                    assert(has_id(ns2, steps[m].2));
                    if m > 0 {
                        assert(has_id(ns2, steps[m - 1].2));
                    }
                }
            }
            lemma_scope_update(st, ns2, es2);
        },
    }
}

proof fn lemma_run_ok(lines: Seq<Seq<char>>)
    ensures
        run(lines) matches Ok(st) ==> state_ok(st),
    decreases lines.len(),
{
    if lines.len() > 0 {
        lemma_run_ok(lines.drop_last());
        if let Ok(st) = run(lines.drop_last()) {
            if let Some(s) = statement_of(lines.last()) {
                if step(st, s) is Some {
                    lemma_step_ok(st, s);
                }
            }
        }
    } else {
        assert(groups_ok(start_state().top.groups));
    }
}

/// In every diagram the text describes, at the top level and in every
/// group, no two nodes share an id and every edge joins two nodes of its
/// own scope.
pub proof fn lemma_parsed_scopes_ok(input: Seq<char>)
    ensures
        parse_model(input) matches Ok(d) ==> scope_ok(d.nodes, d.edges) && groups_ok(d.groups),
{
    lemma_run_ok(crate::render::split_lines(input));
}

/// The word a `direction:` line gives after its colon.
pub open spec fn direction_word(l: Seq<char>) -> Seq<char> {
    let q = skip_blank(l, 0);
    let r = skip_blank(l, q + 9);
    let s = skip_blank(l, r + 1);
    l.subrange(s, word_end(l, s))
}

/// A `direction:` line sets the direction its word names: `LR` left to
/// right, `RL` right to left, `BT` bottom to top, and any other word top
/// down; so each of these words gives its own direction and no other word
/// gives it.
pub proof fn lemma_direction_line(l: Seq<char>)
    requires
        statement_of(l) matches Some(Statement::SetDirection(_)),
    ensures
        statement_of(l) matches Some(Statement::SetDirection(d)) && {
            &&& d == Direction::LR <==> direction_word(l) == "LR"@
            &&& d == Direction::RL <==> direction_word(l) == "RL"@
            &&& d == Direction::BT <==> direction_word(l) == "BT"@
            &&& d == Direction::TD <==> (direction_word(l) != "LR"@ && direction_word(l) != "RL"@
                && direction_word(l) != "BT"@)
        },
{
    reveal_strlit("LR");
    reveal_strlit("RL");
    reveal_strlit("BT");
    assert("LR"@ != "RL"@) by {
        assert("LR"@[0] != "RL"@[0]);
    }
    assert("LR"@ != "BT"@) by {
        assert("LR"@[0] != "BT"@[0]);
    }
    assert("RL"@ != "BT"@) by {
        assert("RL"@[0] != "BT"@[0]);
    }
}

proof fn lemma_word_chars(l: Seq<char>, p: int, w: Seq<char>)
    requires
        word_at(l, p, w),
    ensures
        forall|i: int| 0 <= i < w.len() ==> l[p + i] == #[trigger] w[i],
{
    assert forall|i: int| 0 <= i < w.len() implies l[p + i] == #[trigger] w[i] by {
        assert(l.subrange(p, p + w.len())[i] == l[p + i]);
    }
}

/// A node reference takes its shape from its brackets: `((…))` a circle,
/// `[…]` a rectangle, `(…)` a rounded box and `{…}` a diamond.
pub proof fn lemma_node_ref_shape(l: Seq<char>, p: int)
    requires
        node_ref_at(l, p) is Some,
    ensures
        node_ref_at(l, p) matches Some((sh, _, _)) && {
            &&& sh == NodeShape::Circle <==> (0 <= p && p + 1 < l.len() && l[p] == '(' && l[p + 1] == '(')
            &&& sh == NodeShape::Rectangle <==> l[p] == '['
            &&& sh == NodeShape::Rounded <==> (l[p] == '(' && !(p + 1 < l.len() && l[p + 1] == '('))
            &&& sh == NodeShape::Diamond <==> l[p] == '{'
        },
{
    reveal_strlit("((");
    if 0 <= p && p + 1 < l.len() && l[p] == '(' && l[p + 1] == '(' {
        assert(l.subrange(p, p + 2) =~= "(("@);
    }
    if word_at(l, p, "(("@) {
        lemma_word_chars(l, p, "(("@);
        assert(l[p + 0] == "(("@[0] && l[p + 1] == "(("@[1]);
    }
}

/// A connector gives its edge type by how it is written: `-->` an arrow,
/// `---` a line, `<--` a back arrow (unless it is `<-->`, an arrow both
/// ways), `-.->` a dotted arrow, `==>` a thick arrow and `===` a double
/// line; and it ends right after what was written.
pub proof fn lemma_connector_type(l: Seq<char>, p: int)
    requires
        connector_at(l, p) is Some,
    ensures
        connector_at(l, p) matches Some((et, e)) && {
            &&& et == EdgeType::Arrow <==> word_at(l, p, "-->"@)
            &&& et == EdgeType::Line <==> word_at(l, p, "---"@)
            &&& et == EdgeType::BackArrow <==> (word_at(l, p, "<--"@) && !word_at(l, p, "<-->"@))
            &&& et == EdgeType::BidirArrow <==> word_at(l, p, "<-->"@)
            &&& et == EdgeType::DottedArrow <==> word_at(l, p, "-.->"@)
            &&& et == EdgeType::ThickArrow <==> word_at(l, p, "==>"@)
            &&& et == EdgeType::DoubleLine <==> word_at(l, p, "==="@)
            &&& (et == EdgeType::BidirArrow || et == EdgeType::DottedArrow) ==> e == p + 4
            &&& !(et == EdgeType::BidirArrow || et == EdgeType::DottedArrow) ==> e == p + 3
        },
{
    reveal_strlit("<-->");
    reveal_strlit("-.->");
    reveal_strlit("-->");
    reveal_strlit("---");
    reveal_strlit("<--");
    reveal_strlit("==>");
    reveal_strlit("===");
    if word_at(l, p, "<-->"@) {
        lemma_word_chars(l, p, "<-->"@);
        assert(l[p + 0] == "<-->"@[0] && l[p + 1] == "<-->"@[1] && l[p + 2] == "<-->"@[2] && l[p + 3] == "<-->"@[3]);
        assert(l[p + 0] == '<' && l[p + 1] == '-' && l[p + 2] == '-' && l[p + 3] == '>');
    }
    if word_at(l, p, "-.->"@) {
        lemma_word_chars(l, p, "-.->"@);
        assert(l[p + 0] == "-.->"@[0] && l[p + 1] == "-.->"@[1] && l[p + 2] == "-.->"@[2] && l[p + 3] == "-.->"@[3]);
        assert(l[p + 0] == '-' && l[p + 1] == '.' && l[p + 2] == '-' && l[p + 3] == '>');
    }
    if word_at(l, p, "-->"@) {
        lemma_word_chars(l, p, "-->"@);
        assert(l[p + 0] == "-->"@[0] && l[p + 1] == "-->"@[1] && l[p + 2] == "-->"@[2]);
        assert(l[p + 0] == '-' && l[p + 1] == '-' && l[p + 2] == '>');
    }
    if word_at(l, p, "---"@) {
        lemma_word_chars(l, p, "---"@);
        assert(l[p + 0] == "---"@[0] && l[p + 1] == "---"@[1] && l[p + 2] == "---"@[2]);
        assert(l[p + 0] == '-' && l[p + 1] == '-' && l[p + 2] == '-');
    }
    if word_at(l, p, "<--"@) {
        lemma_word_chars(l, p, "<--"@);
        assert(l[p + 0] == "<--"@[0] && l[p + 1] == "<--"@[1] && l[p + 2] == "<--"@[2]);
        assert(l[p + 0] == '<' && l[p + 1] == '-' && l[p + 2] == '-');
    }
    if word_at(l, p, "==>"@) {
        lemma_word_chars(l, p, "==>"@);
        assert(l[p + 0] == "==>"@[0] && l[p + 1] == "==>"@[1] && l[p + 2] == "==>"@[2]);
        assert(l[p + 0] == '=' && l[p + 1] == '=' && l[p + 2] == '>');
    }
    if word_at(l, p, "==="@) {
        lemma_word_chars(l, p, "==="@);
        assert(l[p + 0] == "==="@[0] && l[p + 1] == "==="@[1] && l[p + 2] == "==="@[2]);
        assert(l[p + 0] == '=' && l[p + 1] == '=' && l[p + 2] == '=');
    }
}

} // verus!
