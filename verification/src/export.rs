//! Export of a whole scope to text: Dot (a directed-graph description) or
//! Jsonl (one record per line, nodes first, then edges). The rendering is
//! stated as a constructive specification; the writer is proved equal to it.

use vstd::prelude::*;
use vstd::string::{StrSliceExecFns, StringExecFns};

use crate::store::{MemStore, StoreV};
use crate::types::{EdgeV, GraphExportFormat, GraphError, NodeV};

verus! {

/// Decimal digits of a natural number, most significant first.
pub open spec fn dec_nat(n: nat) -> Seq<char>
    decreases n,
{
    if n < 10 {
        seq![digit_char(n as int)]
    } else {
        dec_nat(n / 10).push(digit_char((n % 10) as int))
    }
}

pub open spec fn digit_char(d: int) -> char {
    if d == 0 {
        '0'
    } else if d == 1 {
        '1'
    } else if d == 2 {
        '2'
    } else if d == 3 {
        '3'
    } else if d == 4 {
        '4'
    } else if d == 5 {
        '5'
    } else if d == 6 {
        '6'
    } else if d == 7 {
        '7'
    } else if d == 8 {
        '8'
    } else {
        '9'
    }
}

/// Decimal text of a signed number: a minus sign before the digits.
pub open spec fn dec_i64(n: int) -> Seq<char> {
    if n >= 0 {
        dec_nat(n as nat)
    } else {
        seq!['-'] + dec_nat((-n) as nat)
    }
}

fn digit_exec(d: u64) -> (r: &'static str)
    requires
        d < 10,
    ensures
        r@ == seq![digit_char(d as int)],
{
    proof {
        reveal_strlit("0");
        reveal_strlit("1");
        reveal_strlit("2");
        reveal_strlit("3");
        reveal_strlit("4");
        reveal_strlit("5");
        reveal_strlit("6");
        reveal_strlit("7");
        reveal_strlit("8");
        reveal_strlit("9");
    }
    if d == 0 {
        "0"
    } else if d == 1 {
        "1"
    } else if d == 2 {
        "2"
    } else if d == 3 {
        "3"
    } else if d == 4 {
        "4"
    } else if d == 5 {
        "5"
    } else if d == 6 {
        "6"
    } else if d == 7 {
        "7"
    } else if d == 8 {
        "8"
    } else {
        "9"
    }
}

/// Decimal text of an unsigned number.
pub fn u64_to_dec(n: u64) -> (r: String)
    ensures
        r@ == dec_nat(n as nat),
    decreases n,
{
    if n < 10 {
        String::from_str(digit_exec(n))
    } else {
        let mut s = u64_to_dec(n / 10);
        s.append(digit_exec(n % 10));
        proof {
            assert(s@ =~= dec_nat(n as nat));
        }
        s
    }
}

/// Decimal text of a signed number.
pub fn i64_to_dec(n: i64) -> (r: String)
    ensures
        r@ == dec_i64(n as int),
{
    if n >= 0 {
        u64_to_dec(n as u64)
    } else {
        let m: u64 = ((-(n as i128)) as u64);
        let mut s = String::from_str("-");
        s.append(u64_to_dec(m).as_str());
        proof {
            reveal_strlit("-");
            assert(s@ =~= dec_i64(n as int));
        }
        s
    }
}

/// A hexadecimal digit character.
pub open spec fn hex_char(d: int) -> char {
    if d == 0 {
        '0'
    } else if d == 1 {
        '1'
    } else if d == 2 {
        '2'
    } else if d == 3 {
        '3'
    } else if d == 4 {
        '4'
    } else if d == 5 {
        '5'
    } else if d == 6 {
        '6'
    } else if d == 7 {
        '7'
    } else if d == 8 {
        '8'
    } else if d == 9 {
        '9'
    } else if d == 10 {
        'a'
    } else if d == 11 {
        'b'
    } else if d == 12 {
        'c'
    } else if d == 13 {
        'd'
    } else if d == 14 {
        'e'
    } else {
        'f'
    }
}

/// Escape of one character for a quoted text field: quote, backslash,
/// newline, carriage return and tab take their named escapes; every other
/// control character becomes a `\u00XX` escape, so no control character is
/// ever emitted raw; everything else passes through unchanged.
pub open spec fn esc_char(c: char) -> Seq<char> {
    if c == '"' {
        seq!['\\', '"']
    } else if c == '\\' {
        seq!['\\', '\\']
    } else if c == '\n' {
        seq!['\\', 'n']
    } else if c == '\r' {
        seq!['\\', 'r']
    } else if c == '\t' {
        seq!['\\', 't']
    } else if (c as u32) < 32 {
        seq!['\\', 'u', '0', '0', hex_char(((c as u32) / 16) as int), hex_char(
            ((c as u32) % 16) as int,
        )]
    } else {
        seq![c]
    }
}

/// Escape of the first `i` characters.
pub open spec fn esc_upto(s: Seq<char>, i: int) -> Seq<char>
    decreases i,
{
    if i <= 0 {
        Seq::empty()
    } else {
        esc_upto(s, i - 1) + esc_char(s[i - 1])
    }
}

pub open spec fn text_escape(s: Seq<char>) -> Seq<char> {
    esc_upto(s, s.len() as int)
}

/// A run of characters that escape to themselves contributes itself.
pub proof fn lemma_esc_clean_run(s: Seq<char>, r: int, i: int)
    requires
        0 <= r <= i <= s.len(),
        forall|j: int| r <= j < i ==> esc_char(#[trigger] s[j]) == seq![s[j]],
    ensures
        esc_upto(s, i) == esc_upto(s, r) + s.subrange(r, i),
    decreases i - r,
{
    if i == r {
        assert(esc_upto(s, i) =~= esc_upto(s, r) + s.subrange(r, i));
    } else {
        lemma_esc_clean_run(s, r, i - 1);
        assert(esc_upto(s, i) =~= esc_upto(s, r) + s.subrange(r, i));
    }
}

fn hex_str(d: u32) -> (r: &'static str)
    requires
        d < 16,
    ensures
        r@ == seq![hex_char(d as int)],
{
    proof {
        reveal_strlit("0");
        reveal_strlit("1");
        reveal_strlit("2");
        reveal_strlit("3");
        reveal_strlit("4");
        reveal_strlit("5");
        reveal_strlit("6");
        reveal_strlit("7");
        reveal_strlit("8");
        reveal_strlit("9");
        reveal_strlit("a");
        reveal_strlit("b");
        reveal_strlit("c");
        reveal_strlit("d");
        reveal_strlit("e");
        reveal_strlit("f");
    }
    if d == 0 {
        "0"
    } else if d == 1 {
        "1"
    } else if d == 2 {
        "2"
    } else if d == 3 {
        "3"
    } else if d == 4 {
        "4"
    } else if d == 5 {
        "5"
    } else if d == 6 {
        "6"
    } else if d == 7 {
        "7"
    } else if d == 8 {
        "8"
    } else if d == 9 {
        "9"
    } else if d == 10 {
        "a"
    } else if d == 11 {
        "b"
    } else if d == 12 {
        "c"
    } else if d == 13 {
        "d"
    } else if d == 14 {
        "e"
    } else {
        "f"
    }
}

/// Appends the escaped text of `s` to `out`.
pub fn append_escaped(out: &mut String, s: &str)
    ensures
        final(out)@ == old(out)@ + text_escape(s@),
{
    proof {
        reveal_strlit("\\\"");
        reveal_strlit("\\\\");
        reveal_strlit("\\n");
        reveal_strlit("\\r");
        reveal_strlit("\\t");
        reveal_strlit("\\u00");
    }
    let n = s.unicode_len();
    let mut run: usize = 0;
    let mut i: usize = 0;
    while i < n
        invariant
            run <= i <= n,
            n == s@.len(),
            out@ == old(out)@ + esc_upto(s@, run as int),
            forall|j: int| run <= j < i ==> esc_char(#[trigger] s@[j]) == seq![s@[j]],
        decreases n - i,
    {
        let c = s.get_char(i);
        let special = (c as u32) < 32 || c == '"' || c == '\\';
        if special {
            out.append(s.substring_char(run, i));
            proof {
                lemma_esc_clean_run(s@, run as int, i as int);
            }
            if c == '"' {
                out.append("\\\"");
            } else if c == '\\' {
                out.append("\\\\");
            } else if c == '\n' {
                out.append("\\n");
            } else if c == '\r' {
                out.append("\\r");
            } else if c == '\t' {
                out.append("\\t");
            } else {
                out.append("\\u00");
                out.append(hex_str((c as u32) / 16));
                out.append(hex_str((c as u32) % 16));
            }
            proof {
                assert(out@ =~= old(out)@ + esc_upto(s@, i + 1));
            }
            run = i + 1;
        }
        i = i + 1;
    }
    out.append(s.substring_char(run, n));
    proof {
        lemma_esc_clean_run(s@, run as int, n as int);
        assert(out@ =~= old(out)@ + text_escape(s@));
    }
}

/// A character with raw line breaks blanked. In a well-formed JSON text a
/// raw newline or carriage return can only be inter-token whitespace (JSON
/// strings may not hold raw control characters), so blanking them preserves
/// the document while keeping it on one line.
pub open spec fn flat_char(c: char) -> char {
    if c == '\n' || c == '\r' {
        ' '
    } else {
        c
    }
}

pub open spec fn flat_upto(s: Seq<char>, i: int) -> Seq<char>
    decreases i,
{
    if i <= 0 {
        Seq::empty()
    } else {
        flat_upto(s, i - 1).push(flat_char(s[i - 1]))
    }
}

/// The text with every raw line break blanked.
pub open spec fn flat_of(s: Seq<char>) -> Seq<char> {
    flat_upto(s, s.len() as int)
}

pub proof fn lemma_flat_clean_run(s: Seq<char>, r: int, i: int)
    requires
        0 <= r <= i <= s.len(),
        forall|j: int| r <= j < i ==> #[trigger] s[j] != '\n' && s[j] != '\r',
    ensures
        flat_upto(s, i) == flat_upto(s, r) + s.subrange(r, i),
    decreases i - r,
{
    if i == r {
        assert(flat_upto(s, i) =~= flat_upto(s, r) + s.subrange(r, i));
    } else {
        lemma_flat_clean_run(s, r, i - 1);
        assert(flat_upto(s, i) =~= flat_upto(s, r) + s.subrange(r, i));
    }
}

/// Appends the text of `s` with raw line breaks blanked.
fn append_flattened(out: &mut String, s: &str)
    ensures
        final(out)@ == old(out)@ + flat_of(s@),
{
    proof {
        reveal_strlit(" ");
    }
    let n = s.unicode_len();
    let mut run: usize = 0;
    let mut i: usize = 0;
    while i < n
        invariant
            run <= i <= n,
            n == s@.len(),
            out@ == old(out)@ + flat_upto(s@, run as int),
            forall|j: int| run <= j < i ==> #[trigger] s@[j] != '\n' && s@[j] != '\r',
        decreases n - i,
    {
        let c = s.get_char(i);
        if c == '\n' || c == '\r' {
            out.append(s.substring_char(run, i));
            proof {
                lemma_flat_clean_run(s@, run as int, i as int);
            }
            out.append(" ");
            proof {
                assert(out@ =~= old(out)@ + flat_upto(s@, i + 1));
            }
            run = i + 1;
        }
        i = i + 1;
    }
    out.append(s.substring_char(run, n));
    proof {
        lemma_flat_clean_run(s@, run as int, n as int);
        assert(out@ =~= old(out)@ + flat_of(s@));
    }
}

/// One Jsonl node record, newline-terminated. The meta text is embedded
/// with its raw line breaks blanked, so the record stays on one line.
pub open spec fn jsonl_node_line(n: NodeV) -> Seq<char> {
    "{\"type\":\"node\",\"id\":\""@ + text_escape(n.id) + "\",\"kind\":\""@ + text_escape(n.kind)
        + "\",\"meta\":"@ + flat_of(n.meta) + ",\"last_seen\":"@ + dec_nat(n.last_seen as nat)
        + "}\n"@
}

/// One Jsonl edge record, newline-terminated.
pub open spec fn jsonl_edge_line(e: EdgeV) -> Seq<char> {
    "{\"type\":\"edge\",\"id\":\""@ + text_escape(e.id) + "\",\"src\":\""@ + text_escape(e.src)
        + "\",\"dst\":\""@ + text_escape(e.dst) + "\",\"rel\":\""@ + text_escape(e.rel)
        + "\",\"weight\":"@ + dec_i64(e.weight as int) + ",\"meta\":"@ + flat_of(e.meta) + "}\n"@
}

pub open spec fn jsonl_nodes(nodes: Seq<NodeV>, i: int) -> Seq<char>
    decreases i,
{
    if i <= 0 {
        Seq::empty()
    } else {
        jsonl_nodes(nodes, i - 1) + jsonl_node_line(nodes[i - 1])
    }
}

pub open spec fn jsonl_edges(edges: Seq<EdgeV>, i: int) -> Seq<char>
    decreases i,
{
    if i <= 0 {
        Seq::empty()
    } else {
        jsonl_edges(edges, i - 1) + jsonl_edge_line(edges[i - 1])
    }
}

/// The Jsonl export of a whole scope: every node record, then every edge
/// record, one per line, in store order.
pub open spec fn jsonl_spec(store: StoreV) -> Seq<char> {
    jsonl_nodes(store.nodes, store.nodes.len() as int) + jsonl_edges(
        store.edges,
        store.edges.len() as int,
    )
}

/// One Dot vertex statement: the id as the vertex name, labeled with id and
/// kind.
pub open spec fn dot_node_line(n: NodeV) -> Seq<char> {
    "  \""@ + text_escape(n.id) + "\" [label=\""@ + text_escape(n.id) + " ("@ + text_escape(n.kind)
        + ")\"];\n"@
}

/// One Dot edge statement, labeled with the relation and the fixed-point
/// weight.
pub open spec fn dot_edge_line(e: EdgeV) -> Seq<char> {
    "  \""@ + text_escape(e.src) + "\" -> \""@ + text_escape(e.dst) + "\" [label=\""@ + text_escape(
        e.rel,
    ) + " ("@ + dec_i64(e.weight as int) + ")\"];\n"@
}

pub open spec fn dot_nodes(nodes: Seq<NodeV>, i: int) -> Seq<char>
    decreases i,
{
    if i <= 0 {
        Seq::empty()
    } else {
        dot_nodes(nodes, i - 1) + dot_node_line(nodes[i - 1])
    }
}

pub open spec fn dot_edges(edges: Seq<EdgeV>, i: int) -> Seq<char>
    decreases i,
{
    if i <= 0 {
        Seq::empty()
    } else {
        dot_edges(edges, i - 1) + dot_edge_line(edges[i - 1])
    }
}

/// The Dot export of a whole scope.
pub open spec fn dot_spec(store: StoreV) -> Seq<char> {
    "digraph G {\n"@ + dot_nodes(store.nodes, store.nodes.len() as int) + dot_edges(
        store.edges,
        store.edges.len() as int,
    ) + "}\n"@
}

/// The Jsonl record text of one node.
fn jsonl_node_text(n: &crate::types::GraphNode) -> (r: String)
    ensures
        r@ == jsonl_node_line(n@),
{
    let mut line = String::from_str("{\"type\":\"node\",\"id\":\"");
    append_escaped(&mut line, n.id.as_str());
    line.append("\",\"kind\":\"");
    append_escaped(&mut line, n.kind.as_str());
    line.append("\",\"meta\":");
    append_flattened(&mut line, n.meta.as_str());
    line.append(",\"last_seen\":");
    line.append(u64_to_dec(n.last_seen).as_str());
    line.append("}\n");
    proof {
        assert(line@ =~= jsonl_node_line(n@));
    }
    line
}

/// The Jsonl record text of one edge.
fn jsonl_edge_text(e: &crate::types::GraphEdge) -> (r: String)
    ensures
        r@ == jsonl_edge_line(e@),
{
    let mut line = String::from_str("{\"type\":\"edge\",\"id\":\"");
    append_escaped(&mut line, e.id.as_str());
    line.append("\",\"src\":\"");
    append_escaped(&mut line, e.src.as_str());
    line.append("\",\"dst\":\"");
    append_escaped(&mut line, e.dst.as_str());
    line.append("\",\"rel\":\"");
    append_escaped(&mut line, e.rel.as_str());
    line.append("\",\"weight\":");
    line.append(i64_to_dec(e.weight).as_str());
    line.append(",\"meta\":");
    append_flattened(&mut line, e.meta.as_str());
    line.append("}\n");
    proof {
        assert(line@ =~= jsonl_edge_line(e@));
    }
    line
}

/// The Dot vertex statement of one node.
fn dot_node_text(n: &crate::types::GraphNode) -> (r: String)
    ensures
        r@ == dot_node_line(n@),
{
    let mut line = String::from_str("  \"");
    append_escaped(&mut line, n.id.as_str());
    line.append("\" [label=\"");
    append_escaped(&mut line, n.id.as_str());
    line.append(" (");
    append_escaped(&mut line, n.kind.as_str());
    line.append(")\"];\n");
    proof {
        assert(line@ =~= dot_node_line(n@));
    }
    line
}

/// The Dot edge statement of one edge.
fn dot_edge_text(e: &crate::types::GraphEdge) -> (r: String)
    ensures
        r@ == dot_edge_line(e@),
{
    let mut line = String::from_str("  \"");
    append_escaped(&mut line, e.src.as_str());
    line.append("\" -> \"");
    append_escaped(&mut line, e.dst.as_str());
    line.append("\" [label=\"");
    append_escaped(&mut line, e.rel.as_str());
    line.append(" (");
    line.append(i64_to_dec(e.weight).as_str());
    line.append(")\"];\n");
    proof {
        assert(line@ =~= dot_edge_line(e@));
    }
    line
}

/// Renders the Jsonl export text of one scope's store.
pub fn render_jsonl(store: &MemStore) -> (r: String)
    ensures
        r@ == jsonl_spec(store@),
{
    let mut out = String::new();
    let mut i: usize = 0;
    while i < store.nodes.len()
        invariant
            i <= store.nodes.len(),
            out@ == jsonl_nodes(store@.nodes, i as int),
        decreases store.nodes.len() - i,
    {
        proof {
            assert(store@.nodes[i as int] == store.nodes@[i as int]@);
        }
        out.append(jsonl_node_text(&store.nodes[i]).as_str());
        i = i + 1;
    }
    let mut j: usize = 0;
    while j < store.edges.len()
        invariant
            j <= store.edges.len(),
            out@ == jsonl_nodes(store@.nodes, store@.nodes.len() as int) + jsonl_edges(
                store@.edges,
                j as int,
            ),
        decreases store.edges.len() - j,
    {
        proof {
            assert(store@.edges[j as int] == store.edges@[j as int]@);
        }
        out.append(jsonl_edge_text(&store.edges[j]).as_str());
        proof {
            assert(out@ =~= jsonl_nodes(store@.nodes, store@.nodes.len() as int) + jsonl_edges(
                store@.edges,
                j + 1,
            ));
        }
        j = j + 1;
    }
    proof {
        assert(jsonl_edges(store@.edges, 0) =~= Seq::<char>::empty());
        assert(out@ =~= jsonl_spec(store@));
    }
    out
}

/// Renders the Dot export text of one scope's store.
pub fn render_dot(store: &MemStore) -> (r: String)
    ensures
        r@ == dot_spec(store@),
{
    let mut out = String::from_str("digraph G {\n");
    let mut i: usize = 0;
    while i < store.nodes.len()
        invariant
            i <= store.nodes.len(),
            out@ == "digraph G {\n"@ + dot_nodes(store@.nodes, i as int),
        decreases store.nodes.len() - i,
    {
        proof {
            assert(store@.nodes[i as int] == store.nodes@[i as int]@);
        }
        out.append(dot_node_text(&store.nodes[i]).as_str());
        proof {
            assert(out@ =~= "digraph G {\n"@ + dot_nodes(store@.nodes, i + 1));
        }
        i = i + 1;
    }
    let mut j: usize = 0;
    while j < store.edges.len()
        invariant
            j <= store.edges.len(),
            out@ == "digraph G {\n"@ + dot_nodes(store@.nodes, store@.nodes.len() as int)
                + dot_edges(store@.edges, j as int),
        decreases store.edges.len() - j,
    {
        proof {
            assert(store@.edges[j as int] == store.edges@[j as int]@);
        }
        out.append(dot_edge_text(&store.edges[j]).as_str());
        proof {
            assert(out@ =~= "digraph G {\n"@ + dot_nodes(store@.nodes, store@.nodes.len() as int)
                + dot_edges(store@.edges, j + 1));
        }
        j = j + 1;
    }
    out.append("}\n");
    proof {
        assert(dot_edges(store@.edges, 0) =~= Seq::<char>::empty());
        assert(out@ =~= dot_spec(store@));
    }
    out
}


/// No newline anywhere in the text.
pub open spec fn nl_free(s: Seq<char>) -> bool {
    forall|i: int| 0 <= i < s.len() ==> s[i] != '\n'
}

/// The number of newline characters in the text.
pub open spec fn nl_count(s: Seq<char>) -> int
    decreases s.len(),
{
    if s.len() == 0 {
        0
    } else {
        nl_count(s.drop_last()) + (if s.last() == '\n' {
            1int
        } else {
            0int
        })
    }
}

pub proof fn lemma_nl_count_concat(a: Seq<char>, b: Seq<char>)
    ensures
        nl_count(a + b) == nl_count(a) + nl_count(b),
    decreases b.len(),
{
    if b.len() == 0 {
        assert(a + b =~= a);
    } else {
        assert((a + b).drop_last() =~= a + b.drop_last());
        assert((a + b).last() == b.last());
        lemma_nl_count_concat(a, b.drop_last());
    }
}

pub proof fn lemma_nl_free_count(s: Seq<char>)
    requires
        nl_free(s),
    ensures
        nl_count(s) == 0,
    decreases s.len(),
{
    if s.len() > 0 {
        assert forall|i: int| 0 <= i < s.drop_last().len() implies s.drop_last()[i] != '\n' by {
            assert(s.drop_last()[i] == s[i]);
        }
        lemma_nl_free_count(s.drop_last());
    }
}

pub proof fn lemma_nl_free_concat(a: Seq<char>, b: Seq<char>)
    requires
        nl_free(a),
        nl_free(b),
    ensures
        nl_free(a + b),
{
    assert forall|i: int| 0 <= i < (a + b).len() implies (a + b)[i] != '\n' by {
        if i < a.len() {
            assert((a + b)[i] == a[i]);
        } else {
            assert((a + b)[i] == b[i - a.len()]);
        }
    }
}

/// An escaped character never contains a newline: the newline itself is
/// rewritten, every other control character becomes hex digits.
pub proof fn lemma_esc_char_nl_free(c: char)
    ensures
        nl_free(esc_char(c)),
{
    assert forall|i: int| 0 <= i < esc_char(c).len() implies esc_char(c)[i] != '\n' by {}
}

pub proof fn lemma_esc_nl_free(s: Seq<char>, i: int)
    ensures
        nl_free(esc_upto(s, i)),
    decreases i,
{
    if i > 0 {
        lemma_esc_nl_free(s, i - 1);
        lemma_esc_char_nl_free(s[i - 1]);
        lemma_nl_free_concat(esc_upto(s, i - 1), esc_char(s[i - 1]));
    }
}

/// Flattened text never contains a newline: line breaks were blanked.
pub proof fn lemma_flat_nl_free(s: Seq<char>, i: int)
    ensures
        nl_free(flat_upto(s, i)),
    decreases i,
{
    if i > 0 {
        lemma_flat_nl_free(s, i - 1);
        let prev = flat_upto(s, i - 1);
        let cur = flat_upto(s, i);
        assert forall|j: int| 0 <= j < cur.len() implies cur[j] != '\n' by {
            if j < prev.len() {
                assert(cur[j] == prev[j]);
            } else {
                assert(cur[j] == flat_char(s[i - 1]));
            }
        }
    }
}

pub proof fn lemma_dec_nat_nl_free(n: nat)
    ensures
        nl_free(dec_nat(n)),
    decreases n,
{
    if n < 10 {
        assert forall|j: int| 0 <= j < dec_nat(n).len() implies dec_nat(n)[j] != '\n' by {}
    } else {
        lemma_dec_nat_nl_free(n / 10);
        let prev = dec_nat(n / 10);
        let cur = dec_nat(n);
        assert forall|j: int| 0 <= j < cur.len() implies cur[j] != '\n' by {
            if j < prev.len() {
                assert(cur[j] == prev[j]);
            } else {
                assert(cur[j] == digit_char((n % 10) as int));
            }
        }
    }
}

pub proof fn lemma_dec_i64_nl_free(n: int)
    ensures
        nl_free(dec_i64(n)),
{
    if n >= 0 {
        lemma_dec_nat_nl_free(n as nat);
    } else {
        lemma_dec_nat_nl_free((-n) as nat);
        assert(nl_free(seq!['-'])) by {
            assert(seq!['-'][0] == '-');
        }
        lemma_nl_free_concat(seq!['-'], dec_nat((-n) as nat));
    }
}

/// The fixed pieces of a record line hold no newline; the terminator ends
/// with the record's single newline.
proof fn lemma_jsonl_literals_nl_free()
    ensures
        nl_free("{\"type\":\"node\",\"id\":\""@),
        nl_free("{\"type\":\"edge\",\"id\":\""@),
        nl_free("\",\"kind\":\""@),
        nl_free("\",\"meta\":"@),
        nl_free(",\"last_seen\":"@),
        nl_free("\",\"src\":\""@),
        nl_free("\",\"dst\":\""@),
        nl_free("\",\"rel\":\""@),
        nl_free("\",\"weight\":"@),
        nl_free(",\"meta\":"@),
        "}\n"@.len() == 2,
        "}\n"@[0] == '}',
        "}\n"@[1] == '\n',
{
    reveal_strlit("{\"type\":\"node\",\"id\":\"");
    reveal_strlit("{\"type\":\"edge\",\"id\":\"");
    reveal_strlit("\",\"kind\":\"");
    reveal_strlit("\",\"meta\":");
    reveal_strlit(",\"last_seen\":");
    reveal_strlit("\",\"src\":\"");
    reveal_strlit("\",\"dst\":\"");
    reveal_strlit("\",\"rel\":\"");
    reveal_strlit("\",\"weight\":");
    reveal_strlit(",\"meta\":");
    reveal_strlit("}\n");
}

/// The newline count of the record terminator is one.
proof fn lemma_terminator_count()
    ensures
        nl_count("}\n"@) == 1,
        "}\n"@.len() == 2,
        "}\n"@[1] == '\n',
{
    lemma_jsonl_literals_nl_free();
    assert("}\n"@.drop_last() =~= seq!['}']);
    assert(seq!['}'].drop_last() =~= Seq::<char>::empty());
    assert(nl_count(Seq::<char>::empty()) == 0);
    assert(seq!['}'].last() == '}');
    assert(nl_count(seq!['}']) == nl_count(seq!['}'].drop_last()));
    assert(nl_count(seq!['}']) == 0);
}

/// Law: a Jsonl node record holds exactly one newline, its last character.
pub proof fn lemma_jsonl_node_line_shape(n: NodeV)
    ensures
        nl_count(jsonl_node_line(n)) == 1,
        jsonl_node_line(n).len() > 0,
        jsonl_node_line(n).last() == '\n',
{
    lemma_jsonl_literals_nl_free();
    lemma_terminator_count();
    let a1 = "{\"type\":\"node\",\"id\":\""@;
    let a2 = text_escape(n.id);
    let a3 = "\",\"kind\":\""@;
    let a4 = text_escape(n.kind);
    let a5 = "\",\"meta\":"@;
    let a6 = flat_of(n.meta);
    let a7 = ",\"last_seen\":"@;
    let a8 = dec_nat(n.last_seen as nat);
    lemma_esc_nl_free(n.id, n.id.len() as int);
    lemma_esc_nl_free(n.kind, n.kind.len() as int);
    lemma_flat_nl_free(n.meta, n.meta.len() as int);
    lemma_dec_nat_nl_free(n.last_seen as nat);
    lemma_nl_free_concat(a1, a2);
    lemma_nl_free_concat(a1 + a2, a3);
    lemma_nl_free_concat(a1 + a2 + a3, a4);
    lemma_nl_free_concat(a1 + a2 + a3 + a4, a5);
    lemma_nl_free_concat(a1 + a2 + a3 + a4 + a5, a6);
    lemma_nl_free_concat(a1 + a2 + a3 + a4 + a5 + a6, a7);
    lemma_nl_free_concat(a1 + a2 + a3 + a4 + a5 + a6 + a7, a8);
    let body = a1 + a2 + a3 + a4 + a5 + a6 + a7 + a8;
    lemma_nl_free_count(body);
    lemma_nl_count_concat(body, "}\n"@);
    assert(jsonl_node_line(n) == body + "}\n"@);
    assert((body + "}\n"@).last() == "}\n"@[1]);
}

/// Law: a Jsonl edge record holds exactly one newline, its last character.
pub proof fn lemma_jsonl_edge_line_shape(e: EdgeV)
    ensures
        nl_count(jsonl_edge_line(e)) == 1,
        jsonl_edge_line(e).len() > 0,
        jsonl_edge_line(e).last() == '\n',
{
    lemma_jsonl_literals_nl_free();
    lemma_terminator_count();
    let a1 = "{\"type\":\"edge\",\"id\":\""@;
    let a2 = text_escape(e.id);
    let a3 = "\",\"src\":\""@;
    let a4 = text_escape(e.src);
    let a5 = "\",\"dst\":\""@;
    let a6 = text_escape(e.dst);
    let a7 = "\",\"rel\":\""@;
    let a8 = text_escape(e.rel);
    let a9 = "\",\"weight\":"@;
    let a10 = dec_i64(e.weight as int);
    let a11 = ",\"meta\":"@;
    let a12 = flat_of(e.meta);
    lemma_esc_nl_free(e.id, e.id.len() as int);
    lemma_esc_nl_free(e.src, e.src.len() as int);
    lemma_esc_nl_free(e.dst, e.dst.len() as int);
    lemma_esc_nl_free(e.rel, e.rel.len() as int);
    lemma_dec_i64_nl_free(e.weight as int);
    lemma_flat_nl_free(e.meta, e.meta.len() as int);
    lemma_nl_free_concat(a1, a2);
    lemma_nl_free_concat(a1 + a2, a3);
    lemma_nl_free_concat(a1 + a2 + a3, a4);
    lemma_nl_free_concat(a1 + a2 + a3 + a4, a5);
    lemma_nl_free_concat(a1 + a2 + a3 + a4 + a5, a6);
    lemma_nl_free_concat(a1 + a2 + a3 + a4 + a5 + a6, a7);
    lemma_nl_free_concat(a1 + a2 + a3 + a4 + a5 + a6 + a7, a8);
    lemma_nl_free_concat(a1 + a2 + a3 + a4 + a5 + a6 + a7 + a8, a9);
    lemma_nl_free_concat(a1 + a2 + a3 + a4 + a5 + a6 + a7 + a8 + a9, a10);
    lemma_nl_free_concat(a1 + a2 + a3 + a4 + a5 + a6 + a7 + a8 + a9 + a10, a11);
    lemma_nl_free_concat(a1 + a2 + a3 + a4 + a5 + a6 + a7 + a8 + a9 + a10 + a11, a12);
    let body = a1 + a2 + a3 + a4 + a5 + a6 + a7 + a8 + a9 + a10 + a11 + a12;
    lemma_nl_free_count(body);
    lemma_nl_count_concat(body, "}\n"@);
    assert(jsonl_edge_line(e) == body + "}\n"@);
    assert((body + "}\n"@).last() == "}\n"@[1]);
}

pub proof fn lemma_jsonl_nodes_count(nodes: Seq<NodeV>, i: int)
    requires
        0 <= i,
    ensures
        nl_count(jsonl_nodes(nodes, i)) == i,
        i > 0 ==> jsonl_nodes(nodes, i).len() > 0 && jsonl_nodes(nodes, i).last() == '\n',
    decreases i,
{
    if i > 0 {
        lemma_jsonl_nodes_count(nodes, i - 1);
        lemma_jsonl_node_line_shape(nodes[i - 1]);
        let a = jsonl_nodes(nodes, i - 1);
        let b = jsonl_node_line(nodes[i - 1]);
        lemma_nl_count_concat(a, b);
        assert((a + b).last() == b.last());
    }
}

pub proof fn lemma_jsonl_edges_count(edges: Seq<EdgeV>, i: int)
    requires
        0 <= i,
    ensures
        nl_count(jsonl_edges(edges, i)) == i,
        i > 0 ==> jsonl_edges(edges, i).len() > 0 && jsonl_edges(edges, i).last() == '\n',
    decreases i,
{
    if i > 0 {
        lemma_jsonl_edges_count(edges, i - 1);
        lemma_jsonl_edge_line_shape(edges[i - 1]);
        let a = jsonl_edges(edges, i - 1);
        let b = jsonl_edge_line(edges[i - 1]);
        lemma_nl_count_concat(a, b);
        assert((a + b).last() == b.last());
    }
}

/// Law: the Jsonl export is one line per record. Its newline count equals
/// the scope's node count plus its edge count, each record ends in its own
/// newline, and a nonempty export ends with one — so reading the artifact
/// back by lines yields exactly nodes + edges records.
pub proof fn lemma_jsonl_one_record_per_line(store: StoreV)
    ensures
        nl_count(jsonl_spec(store)) == store.nodes.len() + store.edges.len(),
        store.nodes.len() + store.edges.len() > 0 ==> jsonl_spec(store).len() > 0 && jsonl_spec(
            store,
        ).last() == '\n',
{
    let a = jsonl_nodes(store.nodes, store.nodes.len() as int);
    let b = jsonl_edges(store.edges, store.edges.len() as int);
    lemma_jsonl_nodes_count(store.nodes, store.nodes.len() as int);
    lemma_jsonl_edges_count(store.edges, store.edges.len() as int);
    lemma_nl_count_concat(a, b);
    if store.edges.len() > 0 {
        assert((a + b).last() == b.last());
    } else if store.nodes.len() > 0 {
        assert(b =~= Seq::<char>::empty());
        assert(a + b =~= a);
    }
}

/// Parses a caller-supplied format string. Anything but "dot" and "jsonl"
/// is refused before any store is touched.
pub fn parse_export_format(s: &str) -> (r: Result<GraphExportFormat, GraphError>)
    ensures
        s@ == "dot"@ ==> r == Result::<GraphExportFormat, GraphError>::Ok(GraphExportFormat::Dot),
        s@ == "jsonl"@ ==> r == Result::<GraphExportFormat, GraphError>::Ok(
            GraphExportFormat::Jsonl,
        ),
        s@ != "dot"@ && s@ != "jsonl"@ ==> r == Result::<GraphExportFormat, GraphError>::Err(
            GraphError::UnsupportedExportFormat,
        ),
{
    proof {
        reveal_strlit("dot");
        reveal_strlit("jsonl");
        assert("dot"@.len() == 3);
        assert("jsonl"@.len() == 5);
        assert("dot"@ != "jsonl"@);
    }
    let key = s.to_owned();
    if key == String::from_str("dot") {
        Result::Ok(GraphExportFormat::Dot)
    } else if key == String::from_str("jsonl") {
        Result::Ok(GraphExportFormat::Jsonl)
    } else {
        Result::Err(GraphError::UnsupportedExportFormat)
    }
}

} // verus!
