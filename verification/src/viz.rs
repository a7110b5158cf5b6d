//! Pictures of the graph and of heaps, as texts for Graphviz.

use crate::graph::{lemma_canon_in, Graph};
use crate::heap::bounds::{is_entry, lists_chunks};
use crate::heap::chunk::{chunk_in, Chunk};
use crate::heap::groups::{heap_in, Heap};
use crate::heap::perm::ChunkPerm;
use crate::lang::{Id, Node, OpV, Symbolic};
use crate::rewrite::proj::lemma_distinct_below;
use crate::text::{
    concat, copy_text, decimal, insert_before_last, insert_behind, number, put_before_last,
    put_behind, replace_all, replace_first, replaced, replaced_once, texts,
};
use crate::types::{infer_type, typable, Oracle};
use crate::vmir::{Type, TypeV};
use vstd::prelude::*;
use vstd::string::StrSliceExecFns;

verus! {

/// A character inside a quoted label.
pub open spec fn escaped_char(c: char) -> Seq<char> {
    if c == '\\' {
        seq!['\\', '\\']
    } else if c == '"' {
        seq!['\\', '"']
    } else {
        seq![c]
    }
}

/// A text inside a quoted label: backslashes and quotes are escaped.
pub open spec fn escaped(s: Seq<char>) -> Seq<char>
    decreases s.len(),
{
    if s.len() == 0 {
        Seq::empty()
    } else {
        escaped(s.drop_last()) + escaped_char(s.last())
    }
}

/// A text inside a quoted label.
pub fn escape(s: &str) -> (r: String)
    ensures
        r@ == escaped(s@),
{
    let n: usize = s.unicode_len();
    let mut out = copy_text("");
    let mut i: usize = 0;
    proof {
        reveal_strlit("");
        reveal_strlit("\\\\");
        reveal_strlit("\\\"");
        assert("\\\\"@ =~= seq!['\\', '\\']);
        assert("\\\""@ =~= seq!['\\', '"']);
        assert(s@.take(0) =~= Seq::empty());
        assert(out@ =~= Seq::empty());
    }
    while i < n
        invariant
            i <= n,
            n == s@.len(),
            out@ == escaped(s@.take(i as int)),
            "\\\\"@ == seq!['\\', '\\'],
            "\\\""@ == seq!['\\', '"'],
        decreases n - i,
    {
        let c = s.get_char(i);
        proof {
            assert(s@.take(i + 1).drop_last() =~= s@.take(i as int));
            assert(s@.take(i + 1).last() == s@[i as int]);
            assert(s@.subrange(i as int, i + 1) =~= seq![s@[i as int]]);
        }
        let piece = if c == '\\' {
            "\\\\"
        } else if c == '"' {
            "\\\""
        } else {
            s.substring_char(i, i + 1)
        };
        out = concat(out.as_str(), piece);
        i += 1;
    }
    proof {
        assert(s@.take(n as int) =~= s@);
    }
    out
}

/// A character that file names may hold.
pub open spec fn is_plain(c: char) -> bool {
    ('a' <= c && c <= 'z') || ('A' <= c && c <= 'Z') || ('0' <= c && c <= '9')
}

/// A text as a part of a file name: other characters become underscores.
pub open spec fn sanitized(s: Seq<char>) -> Seq<char> {
    Seq::new(
        s.len(),
        |i: int|
            if is_plain(s[i]) {
                s[i]
            } else {
                '_'
            },
    )
}

/// A text as a part of a file name.
pub fn sanitize(s: &str) -> (r: String)
    ensures
        r@ == sanitized(s@),
{
    let n: usize = s.unicode_len();
    let mut out = copy_text("");
    let mut i: usize = 0;
    proof {
        reveal_strlit("");
        reveal_strlit("_");
        assert("_"@ =~= seq!['_']);
        assert(out@ =~= sanitized(s@.take(0)));
    }
    while i < n
        invariant
            i <= n,
            n == s@.len(),
            out@ == sanitized(s@.take(i as int)),
            "_"@ == seq!['_'],
        decreases n - i,
    {
        let c = s.get_char(i);
        let ghost had = out@;
        let keep = (c >= 'a' && c <= 'z') || (c >= 'A' && c <= 'Z') || (c >= '0' && c <= '9');
        let piece = if keep {
            s.substring_char(i, i + 1)
        } else {
            "_"
        };
        out = concat(out.as_str(), piece);
        proof {
            assert(s@.subrange(i as int, i + 1) =~= seq![s@[i as int]]);
            assert(s@.take(i + 1)[i as int] == s@[i as int]);
            assert(out@ =~= sanitized(s@.take(i + 1)));
        }
        i += 1;
    }
    proof {
        assert(s@.take(n as int) =~= s@);
    }
    out
}

/// The background of a class by its type.
pub open spec fn color_of(ty: Option<TypeV>) -> Seq<char> {
    match ty {
        Some(TypeV::Int) => "#cce5ff"@,
        Some(TypeV::Bool) => "#d4edda"@,
        Some(TypeV::Real) => "#fff3cd"@,
        Some(TypeV::Ref) => "#e2d4f0"@,
        _ => "#e0e0e0"@,
    }
}

/// The background of a class by its type.
pub fn cluster_color(ty: Option<&Type>) -> (r: &'static str)
    ensures
        r@ == color_of(
            match ty {
                Some(t) => Some(t@),
                None => None,
            },
        ),
{
    match ty {
        Some(Type::Int) => "#cce5ff",
        Some(Type::Bool) => "#d4edda",
        Some(Type::Real) => "#fff3cd",
        Some(Type::Ref) => "#e2d4f0",
        _ => "#e0e0e0",
    }
}

/// A number with at least three digits.
pub open spec fn three_digits(n: nat) -> Seq<char> {
    if n < 10 {
        "00"@ + decimal(n)
    } else if n < 100 {
        "0"@ + decimal(n)
    } else {
        decimal(n)
    }
}

/// A number with at least three digits.
pub fn numbered(n: usize) -> (r: String)
    ensures
        r@ == three_digits(n as nat),
{
    let text = number(n);
    if n < 10 {
        concat("00", text.as_str())
    } else if n < 100 {
        concat("0", text.as_str())
    } else {
        text
    }
}

/// A change to a picture: what is looked for, and a text.
#[derive(Debug)]
pub struct Edit {
    pub needle: String,
    pub text: String,
}

/// A node with its label, as pictures of graphs write it.
pub open spec fn node_line(class: nat, idx: nat, label: Seq<char>) -> Seq<char> {
    decimal(class) + "."@ + decimal(idx) + "[label = \""@ + label + "\"]"@
}

fn node_text(class: usize, idx: usize, label: &str) -> (r: String)
    ensures
        r@ == node_line(class as nat, idx as nat, label@),
{
    let a = concat(number(class).as_str(), ".");
    let b = concat(a.as_str(), number(idx).as_str());
    let c = concat(b.as_str(), "[label = \"");
    let d = concat(c.as_str(), label);
    concat(d.as_str(), "\"]")
}

/// Gives a node of a class another label.
pub fn rename_node(class: usize, idx: usize, raw: &str, label: &str) -> (r: Edit)
    ensures
        r.needle@ == node_line(class as nat, idx as nat, raw@),
        r.text@ == node_line(class as nat, idx as nat, escaped(label@)),
{
    let text = escape(label);
    Edit { needle: node_text(class, idx, raw), text: node_text(class, idx, text.as_str()) }
}

/// Gives a symbol another label. The closing quote tells the symbol from those whose
/// number starts with its own.
pub fn rename_symbol(n: usize, label: &str) -> (r: Edit)
    ensures
        r.needle@ == "fresh"@ + decimal(n as nat) + "\""@,
        r.text@ == escaped(label@) + "\""@,
{
    let front = concat("fresh", number(n).as_str());
    Edit { needle: concat(front.as_str(), "\""), text: concat(escape(label).as_str(), "\"") }
}

/// The line that opens the box of a class.
pub open spec fn cluster_line(class: nat) -> Seq<char> {
    "subgraph cluster_"@ + decimal(class) + " {\n"@
}

fn cluster_text(class: usize) -> (r: String)
    ensures
        r@ == cluster_line(class as nat),
{
    let front = concat("subgraph cluster_", number(class).as_str());
    concat(front.as_str(), " {\n")
}

/// What a class is labelled with: its type, and what is known of it.
pub open spec fn class_label(ty: Option<Seq<char>>, note: Option<Seq<char>>) -> Option<Seq<char>> {
    match (ty, note) {
        (Some(t), Some(n)) => Some(escaped(t) + "\\n"@ + escaped(n)),
        (Some(t), None) => Some(escaped(t)),
        (None, Some(n)) => Some(escaped(n)),
        (None, None) => None,
    }
}

/// The background and the label of the box of a class.
pub open spec fn class_style(color: Seq<char>, label: Option<Seq<char>>) -> Seq<char> {
    let back = "    bgcolor=\""@ + color + "\"\n"@;
    match label {
        Some(l) => back + "    label=\""@ + l + "\"\n"@,
        None => back,
    }
}

/// What a text holds, where there is one.
pub open spec fn said(t: Option<&str>) -> Option<Seq<char>> {
    match t {
        Some(s) => Some(s@),
        None => None,
    }
}

/// Colours and labels the box of a class.
pub fn style_class(class: usize, color: &str, ty: Option<&str>, note: Option<&str>) -> (r: Edit)
    ensures
        r.needle@ == cluster_line(class as nat),
        r.text@ == class_style(color@, class_label(said(ty), said(note))),
{
    let front = concat("    bgcolor=\"", color);
    let back = concat(front.as_str(), "\"\n");
    let label: Option<String> = match (ty, note) {
        (Some(t), Some(n)) => {
            let a = concat(escape(t).as_str(), "\\n");
            Some(concat(a.as_str(), escape(n).as_str()))
        },
        (Some(t), None) => Some(escape(t)),
        (None, Some(n)) => Some(escape(n)),
        (None, None) => None,
    };
    let text = match label {
        Some(l) => {
            let a = concat(back.as_str(), "    label=\"");
            let b = concat(a.as_str(), l.as_str());
            concat(b.as_str(), "\"\n")
        },
        None => back,
    };
    Edit { needle: cluster_text(class), text }
}

/// Marks the box of a class.
pub fn mark_class(class: usize) -> (r: Edit)
    ensures
        r.needle@ == cluster_line(class as nat),
        r.text@ == "    style=solid\n    color=red\n    penwidth=3\n"@,
{
    Edit {
        needle: cluster_text(class),
        text: copy_text("    style=solid\n    color=red\n    penwidth=3\n"),
    }
}

/// A picture with every label renamed.
pub open spec fn renamed(raw: Seq<char>, edits: Seq<Edit>) -> Seq<char>
    decreases edits.len(),
{
    if edits.len() == 0 {
        raw
    } else {
        replaced(renamed(raw, edits.drop_last()), edits.last().needle@, edits.last().text@)
    }
}

/// A picture with every box styled.
pub open spec fn styled(raw: Seq<char>, edits: Seq<Edit>) -> Seq<char>
    decreases edits.len(),
{
    if edits.len() == 0 {
        raw
    } else {
        put_behind(styled(raw, edits.drop_last()), edits.last().needle@, edits.last().text@)
    }
}

/// The title of a page.
pub open spec fn title_of(step: nat, label: Seq<char>) -> Seq<char> {
    "  labelloc=\"t\"\n  fontsize=20\n  label=\"#"@ + three_digits(step) + "  "@ + escaped(label)
        + "\"\n"@
}

/// A page: a picture of the graph with its labels renamed, with a name of its own, with
/// heaps in front, a title at the end, and its boxes styled.
pub open spec fn page_of(
    raw: Seq<char>,
    step: nat,
    heaps: Seq<char>,
    label: Seq<char>,
    renames: Seq<Edit>,
    styles: Seq<Edit>,
) -> Seq<char> {
    let named = replaced_once(
        renamed(raw, renames),
        "digraph egraph {\n"@,
        "digraph step_"@ + three_digits(step) + " {\n"@ + heaps,
    );
    styled(put_before_last(named, '}', title_of(step, label)), styles)
}

fn rename_labels(raw: &str, edits: &Vec<Edit>) -> (r: String)
    ensures
        r@ == renamed(raw@, edits@),
{
    let mut out = copy_text(raw);
    let mut i: usize = 0;
    while i < edits.len()
        invariant
            i <= edits@.len(),
            out@ == renamed(raw@, edits@.take(i as int)),
        decreases edits.len() - i,
    {
        out = replace_all(out.as_str(), edits[i].needle.as_str(), edits[i].text.as_str());
        proof {
            assert(edits@.take(i + 1).drop_last() =~= edits@.take(i as int));
        }
        i += 1;
    }
    proof {
        assert(edits@.take(edits@.len() as int) =~= edits@);
    }
    out
}

fn style_boxes(raw: &str, edits: &Vec<Edit>) -> (r: String)
    ensures
        r@ == styled(raw@, edits@),
{
    let mut out = copy_text(raw);
    let mut i: usize = 0;
    while i < edits.len()
        invariant
            i <= edits@.len(),
            out@ == styled(raw@, edits@.take(i as int)),
        decreases edits.len() - i,
    {
        out = insert_behind(out.as_str(), edits[i].needle.as_str(), edits[i].text.as_str());
        proof {
            assert(edits@.take(i + 1).drop_last() =~= edits@.take(i as int));
        }
        i += 1;
    }
    proof {
        assert(edits@.take(edits@.len() as int) =~= edits@);
    }
    out
}

/// A page of a picture of the graph and heaps.
pub fn page(
    raw: &str,
    step: usize,
    heaps: &str,
    label: &str,
    renames: &Vec<Edit>,
    styles: &Vec<Edit>,
) -> (r: String)
    ensures
        r@ == page_of(raw@, step as nat, heaps@, label@, renames@, styles@),
{
    let named = rename_labels(raw, renames);
    let a = concat("digraph step_", numbered(step).as_str());
    let b = concat(a.as_str(), " {\n");
    let opening = concat(b.as_str(), heaps);
    let opened = replace_first(named.as_str(), "digraph egraph {\n", opening.as_str());
    let c = concat("  labelloc=\"t\"\n  fontsize=20\n  label=\"#", numbered(step).as_str());
    let d = concat(c.as_str(), "  ");
    let e = concat(d.as_str(), escape(label).as_str());
    let title = concat(e.as_str(), "\"\n");
    let titled = insert_before_last(opened.as_str(), '}', title.as_str());
    style_boxes(titled.as_str(), styles)
}

/// The class that stands for an amount in pictures.
pub open spec fn shown_perm(p: ChunkPerm) -> Id {
    match p {
        ChunkPerm::Leaf { id, .. } => id,
        ChunkPerm::Select { cond, .. } => cond,
    }
}

/// The name of a chunk in a picture.
pub open spec fn chunk_name(idx: nat, c: Chunk) -> Seq<char> {
    "chunk_"@ + decimal(idx) + "_"@ + decimal(c.addr as nat)
}

/// An arrow from a chunk to the box of a class.
pub open spec fn arrow(name: Seq<char>, class: Id, color: Seq<char>, label: Seq<char>) -> Seq<char> {
    let n = decimal(class as nat);
    "  "@ + name + " -> "@ + n + ".0 [lhead=cluster_"@ + n + ", color="@ + color + ", label=\""@
        + label + "\"]\n"@
}

/// The boxes of chunks.
pub open spec fn boxes_of(idx: nat, es: Seq<(usize, Chunk)>) -> Seq<char>
    decreases es.len(),
{
    if es.len() == 0 {
        Seq::empty()
    } else {
        boxes_of(idx, es.drop_last()) + "    "@ + chunk_name(idx, es.last().1)
            + "[label=\"chunk\", shape=box]\n"@
    }
}

/// The arrows of chunks to their addresses, values and amounts.
pub open spec fn arrows_of(g: Graph, idx: nat, es: Seq<(usize, Chunk)>) -> Seq<char>
    decreases es.len(),
{
    if es.len() == 0 {
        Seq::empty()
    } else {
        let c = es.last().1;
        let name = chunk_name(idx, c);
        arrows_of(g, idx, es.drop_last()) + arrow(name, g.canon(c.addr), "blue"@, "@"@) + arrow(
            name,
            g.canon(c.value),
            "black"@,
            "v"@,
        ) + arrow(name, g.canon(shown_perm(c.perm)), "red"@, "p"@)
    }
}

/// The picture of a heap.
pub open spec fn heap_picture(
    g: Graph,
    idx: nat,
    label: Seq<char>,
    es: Seq<(usize, Chunk)>,
) -> Seq<char> {
    "  subgraph cluster_heap_"@ + decimal(idx) + " {\n    label=\""@ + escaped(label)
        + "\"\n    style=solid\n    rank=source\n"@ + boxes_of(idx, es) + "  }\n"@ + arrows_of(
        g,
        idx,
        es,
    )
}

fn arrow_text(name: &str, class: Id, color: &str, label: &str) -> (r: String)
    ensures
        r@ == arrow(name@, class, color@, label@),
{
    let n = number(class as usize);
    let a = concat("  ", name);
    let b = concat(a.as_str(), " -> ");
    let c = concat(b.as_str(), n.as_str());
    let d = concat(c.as_str(), ".0 [lhead=cluster_");
    let e = concat(d.as_str(), n.as_str());
    let f = concat(e.as_str(), ", color=");
    let g = concat(f.as_str(), color);
    let h = concat(g.as_str(), ", label=\"");
    let i = concat(h.as_str(), label);
    concat(i.as_str(), "\"]\n")
}

/// The picture of a heap: a box for every chunk, with arrows to the boxes of classes.
pub fn heap_subgraph(g: &Graph, idx: usize, label: &str, heap: &Heap) -> (r: String)
    requires
        g.wf(),
        heap_in(*g, *heap),
    ensures
        exists|es: Seq<(usize, Chunk)>|
            lists_chunks(*heap, es) && r@ == #[trigger] heap_picture(*g, idx as nat, label@, es),
{
    let es = heap.entries();
    let mut boxes = copy_text("");
    let mut arrows = copy_text("");
    let mut i: usize = 0;
    proof {
        reveal_strlit("");
        assert(boxes@ =~= Seq::empty());
        assert(arrows@ =~= Seq::empty());
    }
    while i < es.len()
        invariant
            i <= es@.len(),
            g.wf(),
            heap_in(*g, *heap),
            lists_chunks(*heap, es@),
            boxes@ == boxes_of(idx as nat, es@.take(i as int)),
            arrows@ == arrows_of(*g, idx as nat, es@.take(i as int)),
        decreases es.len() - i,
    {
        let ghost old_boxes = boxes@;
        let ghost old_arrows = arrows@;
        let c = &es[i].1;
        proof {
            let e = es@[i as int];
            assert(is_entry(*heap, e));
            let k = choose|k: int|
                0 <= k < heap.group(e.0).len() && #[trigger] heap.group(e.0)[k] == e.1;
            assert(crate::heap::groups::chunks_in(*g, heap.group(e.0)));
            assert(chunk_in(*g, heap.group(e.0)[k]));
            assert(es@.take(i + 1).drop_last() =~= es@.take(i as int));
            assert(es@.take(i + 1).last() == e);
        }
        let front = concat("chunk_", number(idx).as_str());
        let mid = concat(front.as_str(), "_");
        let name = concat(mid.as_str(), number(c.addr as usize).as_str());
        let a = concat(boxes.as_str(), "    ");
        let b = concat(a.as_str(), name.as_str());
        boxes = concat(b.as_str(), "[label=\"chunk\", shape=box]\n");
        let at = arrow_text(name.as_str(), g.find(c.addr), "blue", "@");
        let val = arrow_text(name.as_str(), g.find(c.value), "black", "v");
        let amt = arrow_text(name.as_str(), g.find(c.perm_repr_id()), "red", "p");
        let x = concat(arrows.as_str(), at.as_str());
        let y = concat(x.as_str(), val.as_str());
        arrows = concat(y.as_str(), amt.as_str());
        i += 1;
    }
    let a = concat("  subgraph cluster_heap_", number(idx).as_str());
    let b = concat(a.as_str(), " {\n    label=\"");
    let c = concat(b.as_str(), escape(label).as_str());
    let d = concat(c.as_str(), "\"\n    style=solid\n    rank=source\n");
    let e = concat(d.as_str(), boxes.as_str());
    let f = concat(e.as_str(), "  }\n");
    let r = concat(f.as_str(), arrows.as_str());
    proof {
        assert(es@.take(es@.len() as int) =~= es@);
        assert(r@ == heap_picture(*g, idx as nat, label@, es@));
    }
    r
}

/// A class is a child of a term of another.
pub open spec fn is_child(g: Graph, p: Id, c: Id) -> bool {
    exists|k: int, i: int|
        0 <= k < g.terms(p).len() && 0 <= i < g.terms(p)[k].args.len() && g.canon(
            #[trigger] g.terms(p)[k].args[i],
        ) == c
}

/// The children of the terms of classes.
pub open spec fn children_of(g: Graph, s: Set<Id>) -> Set<Id> {
    Set::new(|c: Id| exists|p: Id| #[trigger] s.contains(p) && is_child(g, p, c))
}

/// The classes at most so many steps below another.
pub open spec fn below(g: Graph, root: Id, n: nat) -> Set<Id>
    decreases n,
{
    if n == 0 {
        set![g.canon(root)]
    } else {
        let near = below(g, root, (n - 1) as nat);
        near.union(children_of(g, near))
    }
}

/// A class is at most so many steps below another.
pub open spec fn within(g: Graph, root: Id, c: Id, n: nat) -> bool {
    below(g, root, n).contains(c)
}

/// Where a class is listed.
spec fn listed_by(order: Seq<Id>, depths: Seq<usize>, c: Id, d: int) -> bool {
    exists|j: int| 0 <= j < order.len() && #[trigger] order[j] == c && depths[j] <= d
}

/// What a walk from a class keeps: each class is listed once, with the depth at which
/// it was found, in the order of the depths.
spec fn walk_ok(g: Graph, root: Id, order: Seq<Id>, depths: Seq<usize>, next: int) -> bool {
    &&& order.len() == depths.len()
    &&& 0 <= next <= order.len()
    &&& order.len() > 0
    &&& order[0] == g.canon(root)
    &&& depths[0] == 0
    &&& order.no_duplicates()
    &&& forall|i: int|
        0 <= i < order.len() ==> g.has(#[trigger] order[i]) && within(
            g,
            root,
            order[i],
            depths[i] as nat,
        )
    &&& forall|i: int, j: int|
        0 <= i <= j < depths.len() ==> (#[trigger] depths[i]) <= (#[trigger] depths[j])
    &&& next < order.len() ==> depths[depths.len() - 1] <= depths[next] + 1
}

/// The children of the first classes are listed.
spec fn expanded(
    g: Graph,
    order: Seq<Id>,
    depths: Seq<usize>,
    next: int,
    depth: usize,
) -> bool {
    forall|i: int, c: Id|
        0 <= i < next && depths[i] < depth && #[trigger] is_child(g, order[i], c) ==> listed_by(
            order,
            depths,
            c,
            depths[i] + 1,
        )
}

fn lists_id(ids: &Vec<Id>, id: Id) -> (r: Option<usize>)
    ensures
        r matches Some(i) ==> i < ids@.len() && ids@[i as int] == id,
        r is None ==> !ids@.contains(id),
{
    let mut i: usize = 0;
    while i < ids.len()
        invariant
            i <= ids@.len(),
            forall|k: int| 0 <= k < i ==> #[trigger] ids@[k] != id,
        decreases ids.len() - i,
    {
        if ids[i] == id {
            return Some(i);
        }
        i += 1;
    }
    None
}

proof fn lemma_listed_more(
    order: Seq<Id>,
    depths: Seq<usize>,
    id: Id,
    at: usize,
    c: Id,
    d: int,
)
    requires
        order.len() == depths.len(),
        listed_by(order, depths, c, d),
    ensures
        listed_by(order.push(id), depths.push(at), c, d),
{
    let j = choose|j: int| 0 <= j < order.len() && #[trigger] order[j] == c && depths[j] <= d;
    assert(order.push(id)[j] == c);
}

/// Every class that is listed so deep is listed, and every class at most so many steps
/// below is.
proof fn lemma_walk_complete(
    g: Graph,
    root: Id,
    order: Seq<Id>,
    depths: Seq<usize>,
    depth: usize,
    c: Id,
    n: nat,
)
    requires
        walk_ok(g, root, order, depths, order.len() as int),
        expanded(g, order, depths, order.len() as int, depth),
        n <= depth,
        within(g, root, c, n),
    ensures
        listed_by(order, depths, c, n as int),
    decreases n,
{
    if n == 0 {
        assert(order[0] == c);
    } else if within(g, root, c, (n - 1) as nat) {
        lemma_walk_complete(g, root, order, depths, depth, c, (n - 1) as nat);
        let j = choose|j: int|
            0 <= j < order.len() && #[trigger] order[j] == c && depths[j] <= n - 1;
        assert(order[j] == c);
    } else {
        let near = below(g, root, (n - 1) as nat);
        let p = choose|p: Id| #[trigger] near.contains(p) && is_child(g, p, c);
        lemma_walk_complete(g, root, order, depths, depth, p, (n - 1) as nat);
        let i = choose|i: int|
            0 <= i < order.len() && #[trigger] order[i] == p && depths[i] <= n - 1;
        assert(is_child(g, order[i], c));
        assert(listed_by(order, depths, c, depths[i] + 1));
        let j = choose|j: int|
            0 <= j < order.len() && #[trigger] order[j] == c && depths[j] <= depths[i] + 1;
        assert(order[j] == c);
    }
}

proof fn lemma_within_more(g: Graph, root: Id, c: Id, n: nat, m: nat)
    requires
        n <= m,
        within(g, root, c, n),
    ensures
        within(g, root, c, m),
    decreases m,
{
    if n < m {
        lemma_within_more(g, root, c, n, (m - 1) as nat);
    }
}

/// Lists the children of a class that are not listed yet.
fn list_children(
    g: &Graph,
    Ghost(root): Ghost<Id>,
    order: &mut Vec<Id>,
    depths: &mut Vec<usize>,
    next: usize,
    depth: usize,
)
    requires
        g.wf(),
        walk_ok(*g, root, old(order)@, old(depths)@, next as int),
        next < old(order)@.len(),
        expanded(*g, old(order)@, old(depths)@, next as int, depth),
        old(depths)@[next as int] < depth,
    ensures
        walk_ok(*g, root, final(order)@, final(depths)@, next as int),
        next < final(order)@.len(),
        expanded(*g, final(order)@, final(depths)@, next + 1, depth),
        final(depths)@.len() >= old(depths)@.len(),
        final(depths)@[next as int] == old(depths)@[next as int],
{
    let p = order[next];
    let d: usize = depths[next];
    let terms = g.terms_of(p);
    let ghost depth_at = depths@[next as int];
    let mut k: usize = 0;
    while k < terms.len()
        invariant
            g.wf(),
            g.has(p),
            k <= terms@.len(),
            terms@.len() == g.terms(p).len(),
            forall|x: int| 0 <= x < terms@.len() ==> (#[trigger] terms@[x])@ == g.terms(p)[x],
            d == depth_at,
            d < depth,
            walk_ok(*g, root, order@, depths@, next as int),
            next < order@.len(),
            order@[next as int] == p,
            depths@[next as int] == d,
            depths@.len() >= old(depths)@.len(),
            expanded(*g, order@, depths@, next as int, depth),
            forall|x: int, i: int|
                0 <= x < k && 0 <= i < g.terms(p)[x].args.len() ==> listed_by(
                    order@,
                    depths@,
                    g.canon(#[trigger] g.terms(p)[x].args[i]),
                    d + 1,
                ),
        decreases terms.len() - k,
    {
        let kids = terms[k].children();
        let mut i: usize = 0;
        proof {
            crate::graph::lemma_terms_in(*g, p, k as int);
            assert(kids@ == g.terms(p)[k as int].args);
        }
        while i < kids.len()
            invariant
                g.wf(),
                g.has(p),
                i <= kids@.len(),
                k < g.terms(p).len(),
                kids@ == g.terms(p)[k as int].args,
                forall|x: int| 0 <= x < kids@.len() ==> g.has(#[trigger] kids@[x]),
                d == depth_at,
                d < depth,
                walk_ok(*g, root, order@, depths@, next as int),
                next < order@.len(),
                order@[next as int] == p,
                depths@[next as int] == d,
                depths@.len() >= old(depths)@.len(),
                expanded(*g, order@, depths@, next as int, depth),
                forall|x: int, j: int|
                    0 <= x < k && 0 <= j < g.terms(p)[x].args.len() ==> listed_by(
                        order@,
                        depths@,
                        g.canon(#[trigger] g.terms(p)[x].args[j]),
                        d + 1,
                    ),
                forall|j: int|
                    0 <= j < i ==> listed_by(
                        order@,
                        depths@,
                        g.canon(#[trigger] kids@[j]),
                        d + 1,
                    ),
            decreases kids.len() - i,
        {
            let c = g.find(kids[i]);
            let ghost o0 = order@;
            let ghost d0 = depths@;
            proof {
                assert(g.has(kids@[i as int]));
                lemma_canon_in(*g, kids@[i as int]);
                assert(g.canon(g.terms(p)[k as int].args[i as int]) == c);
                assert(is_child(*g, p, c));
            }
            match lists_id(order, c) {
                Some(j) => {
                    proof {
                        assert(order@[j as int] == c);
                        assert(depths@[j as int] <= depths@[depths@.len() - 1]);
                        assert(listed_by(order@, depths@, c, d + 1));
                    }
                },
                None => {
                    order.push(c);
                    depths.push(d + 1);
                    proof {
                        assert(within(*g, root, c, (d + 1) as nat)) by {
                            assert(within(*g, root, o0[next as int], d as nat));
                            let near = below(*g, root, d as nat);
                            assert(near.contains(p));
                            assert(children_of(*g, near).contains(c));
                        }
                        assert forall|x: int| 0 <= x < order@.len() implies g.has(
                            #[trigger] order@[x],
                        ) && within(*g, root, order@[x], depths@[x] as nat) by {
                            if x < o0.len() {
                                assert(order@[x] == o0[x]);
                                assert(depths@[x] == d0[x]);
                            }
                        }
                        assert(order@.no_duplicates()) by {
                            assert forall|x: int, y: int|
                                0 <= x < order@.len() && 0 <= y < order@.len() && x
                                    != y implies #[trigger] order@[x] != #[trigger] order@[y] by {
                                if x < o0.len() && y < o0.len() {
                                    assert(o0[x] != o0[y]);
                                } else if x < o0.len() {
                                    assert(o0.contains(o0[x]));
                                } else {
                                    assert(o0.contains(o0[y]));
                                }
                            }
                        }
                        assert forall|x: int, y: int|
                            0 <= x <= y < depths@.len() implies (#[trigger] depths@[x]) <= (
                        #[trigger] depths@[y]) by {
                            if y < d0.len() {
                                assert(d0[x] <= d0[y]);
                            } else if x < d0.len() {
                                assert(d0[x] <= d0[d0.len() - 1]);
                            }
                        }
                        assert forall|x: int, cc: Id|
                            0 <= x < next && depths@[x] < depth && #[trigger] is_child(
                                *g,
                                order@[x],
                                cc,
                            ) implies listed_by(order@, depths@, cc, depths@[x] + 1) by {
                            assert(order@[x] == o0[x]);
                            assert(is_child(*g, o0[x], cc));
                            lemma_listed_more(o0, d0, c, (d + 1) as usize, cc, d0[x] + 1);
                        }
                        assert forall|x: int, j: int|
                            0 <= x < k && 0 <= j < g.terms(p)[x].args.len() implies listed_by(
                            order@,
                            depths@,
                            g.canon(#[trigger] g.terms(p)[x].args[j]),
                            d + 1,
                        ) by {
                            lemma_listed_more(
                                o0,
                                d0,
                                c,
                                (d + 1) as usize,
                                g.canon(g.terms(p)[x].args[j]),
                                d + 1,
                            );
                        }
                        assert forall|j: int| 0 <= j < i implies listed_by(
                            order@,
                            depths@,
                            g.canon(#[trigger] kids@[j]),
                            d + 1,
                        ) by {
                            lemma_listed_more(
                                o0,
                                d0,
                                c,
                                (d + 1) as usize,
                                g.canon(kids@[j]),
                                d + 1,
                            );
                        }
                        assert(order@[o0.len() as int] == c);
                        assert(listed_by(order@, depths@, c, d + 1));
                    }
                },
            }
            i += 1;
        }
        proof {
            assert forall|x: int, j: int|
                0 <= x < k + 1 && 0 <= j < g.terms(p)[x].args.len() implies listed_by(
                order@,
                depths@,
                g.canon(#[trigger] g.terms(p)[x].args[j]),
                d + 1,
            ) by {
                if x == k {
                    assert(kids@[j] == g.terms(p)[x].args[j]);
                }
            }
        }
        k += 1;
    }
    proof {
        assert forall|x: int, c: Id|
            0 <= x < next + 1 && depths@[x] < depth && #[trigger] is_child(
                *g,
                order@[x],
                c,
            ) implies listed_by(order@, depths@, c, depths@[x] + 1) by {
            if x == next {
                let (y, j) = choose|y: int, j: int|
                    0 <= y < g.terms(p).len() && 0 <= j < g.terms(p)[y].args.len() && g.canon(
                        #[trigger] g.terms(p)[y].args[j],
                    ) == c;
                assert(listed_by(order@, depths@, g.canon(g.terms(p)[y].args[j]), d + 1));
            }
        }
    }
}

/// The classes at most so many steps below a class, the nearest first, each once.
pub fn classes_below(g: &Graph, root: Id, depth: usize) -> (r: Vec<Id>)
    requires
        g.wf(),
        g.has(root),
    ensures
        r@.len() > 0,
        r@[0] == g.canon(root),
        r@.no_duplicates(),
        forall|c: Id| r@.contains(c) == #[trigger] within(*g, root, c, depth as nat),
        forall|i: int| 0 <= i < r@.len() ==> g.has(#[trigger] r@[i]),
{
    let mut order: Vec<Id> = vec![g.find(root)];
    let mut depths: Vec<usize> = vec![0];
    let mut next: usize = 0;
    proof {
        lemma_canon_in(*g, root);
    }
    while next < order.len()
        invariant
            g.wf(),
            g.has(root),
            walk_ok(*g, root, order@, depths@, next as int),
            expanded(*g, order@, depths@, next as int, depth),
            forall|i: int| 0 <= i < depths@.len() ==> #[trigger] depths@[i] <= depth,
        decreases g.len() - next,
    {
        let ghost o0 = order@;
        let ghost d0 = depths@;
        proof {
            lemma_distinct_below(order@, g.len());
        }
        if depths[next] < depth {
            list_children(g, Ghost(root), &mut order, &mut depths, next, depth);
        }
        proof {
            assert forall|i: int| 0 <= i < depths@.len() implies #[trigger] depths@[i] <= depth by {
                assert(depths@[i] <= depths@[depths@.len() - 1]);
                if d0[next as int] < depth {
                    assert(depths@[next as int] == d0[next as int]);
                    assert(depths@[depths@.len() - 1] <= depths@[next as int] + 1);
                }
            }
        }
        next += 1;
    }
    proof {
        assert forall|c: Id| order@.contains(c) == #[trigger] within(*g, root, c, depth as nat) by {
            if order@.contains(c) {
                let i = choose|i: int| 0 <= i < order@.len() && order@[i] == c;
                assert(depths@[i] <= depth);
                assert(within(*g, root, order@[i], depths@[i] as nat));
                lemma_within_more(*g, root, c, depths@[i] as nat, depth as nat);
            }
            if within(*g, root, c, depth as nat) {
                lemma_walk_complete(*g, root, order@, depths@, depth, c, depth as nat);
            }
        }
    }
    order
}

/// Texts in a row, with a separator.
pub open spec fn joined(ts: Seq<Seq<char>>, sep: Seq<char>) -> Seq<char>
    decreases ts.len(),
{
    if ts.len() == 0 {
        Seq::empty()
    } else if ts.len() == 1 {
        ts[0]
    } else {
        joined(ts.drop_last(), sep) + sep + ts.last()
    }
}

/// Texts in a row, with a separator.
pub fn join(ts: &Vec<String>, sep: &str) -> (r: String)
    ensures
        r@ == joined(texts(ts@), sep@),
{
    let mut out = copy_text("");
    let mut i: usize = 0;
    let ghost all = texts(ts@);
    proof {
        reveal_strlit("");
        assert(out@ =~= joined(all.take(0), sep@));
    }
    while i < ts.len()
        invariant
            i <= ts@.len(),
            all == texts(ts@),
            out@ == joined(all.take(i as int), sep@),
        decreases ts.len() - i,
    {
        proof {
            assert(all.take(i + 1).drop_last() =~= all.take(i as int));
            assert(all.take(i + 1).last() == ts@[i as int]@);
        }
        if i == 0 {
            out = copy_text(ts[i].as_str());
        } else {
            let front = concat(out.as_str(), sep);
            out = concat(front.as_str(), ts[i].as_str());
        }
        i += 1;
    }
    proof {
        assert(all.take(ts@.len() as int) =~= all);
    }
    out
}

/// The classes of children, as terms are dumped.
pub open spec fn kids_shown(g: Graph, args: Seq<Id>) -> Seq<Seq<char>> {
    Seq::new(args.len(), |i: int| "@"@ + decimal(g.canon(args[i]) as nat))
}

/// A term as it is dumped: symbols and literals by their names, others as their
/// operator over the classes of their children.
pub open spec fn node_shown(g: Graph, name: Seq<char>, n: Node) -> Seq<char> {
    match n.op {
        OpV::Fresh(_) => name,
        OpV::Lit(_) => name,
        _ => name + "("@ + joined(kids_shown(g, n.args), ", "@) + ")"@,
    }
}

/// A term as it is dumped, with the name of its operator.
pub fn render_node(g: &Graph, name: &str, node: &Symbolic) -> (r: String)
    requires
        g.wf(),
        g.has_all(node@.args),
    ensures
        r@ == node_shown(*g, name@, node@),
{
    match node {
        Symbolic::Fresh(_) => {
            return copy_text(name);
        },
        Symbolic::Lit(_) => {
            return copy_text(name);
        },
        _ => {},
    }
    let kids = node.children();
    let mut shown: Vec<String> = Vec::new();
    let mut i: usize = 0;
    while i < kids.len()
        invariant
            g.wf(),
            i <= kids@.len(),
            kids@ == node@.args,
            g.has_all(node@.args),
            shown@.len() == i,
            forall|k: int|
                0 <= k < i ==> (#[trigger] shown@[k])@ == "@"@ + decimal(g.canon(kids@[k]) as nat),
        decreases kids.len() - i,
    {
        proof {
            assert(g.has(node@.args[i as int]));
        }
        shown.push(concat("@", number(g.find(kids[i]) as usize).as_str()));
        i += 1;
    }
    let list = join(&shown, ", ");
    let front = concat(name, "(");
    let mid = concat(front.as_str(), list.as_str());
    proof {
        assert(texts(shown@) =~= kids_shown(*g, node@.args));
    }
    concat(mid.as_str(), ")")
}

/// The spaces that make a text five characters wide.
pub open spec fn padding(n: nat) -> Seq<char> {
    if n == 0 {
        "     "@
    } else if n == 1 {
        "    "@
    } else if n == 2 {
        "   "@
    } else if n == 3 {
        "  "@
    } else if n == 4 {
        " "@
    } else {
        ""@
    }
}

/// A line of a dump: a class and its terms.
pub open spec fn line_of(class: Id, nodes: Seq<Seq<char>>) -> Seq<char> {
    let n = decimal(class as nat);
    "  @"@ + n + padding(n.len()) + " = ["@ + joined(nodes, ", "@) + "]\n"@
}

/// A line of a dump: a class and its terms.
pub fn dump_line(class: Id, nodes: &Vec<String>) -> (r: String)
    ensures
        r@ == line_of(class, texts(nodes@)),
{
    let n = number(class as usize);
    let width: usize = n.as_str().unicode_len();
    let pad = match width {
        0 => "     ",
        1 => "    ",
        2 => "   ",
        3 => "  ",
        4 => " ",
        _ => "",
    };
    let a = concat("  @", n.as_str());
    let b = concat(a.as_str(), pad);
    let c = concat(b.as_str(), " = [");
    let d = concat(c.as_str(), join(nodes, ", ").as_str());
    concat(d.as_str(), "]\n")
}

/// What a picture says of a class: the names of its terms, of its type and of the literal
/// that it is known to be.
pub struct Labels {
    pub terms: Vec<String>,
    pub ty: Option<String>,
    pub lit: Option<String>,
}

/// Pages that are collected, if they are.
pub struct Pages {
    pub on: bool,
    pub list: Vec<String>,
}

/// The classes among the first ids, by their canonical ids.
pub open spec fn class_ids(g: Graph, n: nat) -> Seq<Id>
    decreases n,
{
    if n == 0 {
        Seq::empty()
    } else {
        let rest = class_ids(g, (n - 1) as nat);
        let id = (n - 1) as Id;
        if g.canon(id) == id {
            rest.push(id)
        } else {
            rest
        }
    }
}

/// The classes of a graph, by their canonical ids.
pub fn list_classes(g: &Graph) -> (r: Vec<Id>)
    requires
        g.wf(),
    ensures
        r@ == class_ids(*g, g.len()),
        forall|k: int| 0 <= k < r@.len() ==> g.has(#[trigger] r@[k]),
{
    proof {
        crate::graph::lemma_len_bound(*g);
    }
    let n: u32 = g.size() as u32;
    let mut out: Vec<Id> = Vec::new();
    let mut i: u32 = 0;
    while i < n
        invariant
            i <= n,
            n == g.len(),
            g.wf(),
            out@ == class_ids(*g, i as nat),
            forall|k: int| 0 <= k < out@.len() ==> g.has(#[trigger] out@[k]),
        decreases n - i,
    {
        if g.find(i) == i {
            out.push(i);
        }
        i += 1;
    }
    out
}

/// What an edit looks for, and its text.
pub open spec fn edit_text(e: Edit) -> (Seq<char>, Seq<char>) {
    (e.needle@, e.text@)
}

pub open spec fn edit_texts(es: Seq<Edit>) -> Seq<(Seq<char>, Seq<char>)> {
    Seq::new(es.len(), |i: int| edit_text(es[i]))
}

/// The changes that give the first terms of a class their names.
pub open spec fn term_renames(g: Graph, names: Seq<String>, c: Id, n: nat) -> Seq<
    (Seq<char>, Seq<char>),
>
    decreases n,
{
    if n == 0 {
        Seq::empty()
    } else {
        let k = (n - 1) as nat;
        term_renames(g, names, c, k).push(
            (
                node_line(c as nat, k, decimal(g.code(c, k as int) as nat)),
                node_line(c as nat, k, escaped(names[k as int]@)),
            ),
        )
    }
}

/// The changes that give the terms of classes their names.
pub open spec fn renames_for(g: Graph, labels: Seq<Labels>, cs: Seq<Id>) -> Seq<
    (Seq<char>, Seq<char>),
>
    decreases cs.len(),
{
    if cs.len() == 0 {
        Seq::empty()
    } else {
        let c = cs.last();
        renames_for(g, labels, cs.drop_last()) + term_renames(
            g,
            labels[c as int].terms@,
            c,
            g.terms(c).len(),
        )
    }
}

/// The changes that give every term of a graph its name.
pub open spec fn renames_of(g: Graph, labels: Seq<Labels>, rs: Seq<Edit>) -> bool {
    edit_texts(rs) == renames_for(g, labels, class_ids(g, g.len()))
}

/// Terms of which two are different literals.
pub open spec fn conflicting(ts: Seq<Node>) -> bool {
    exists|i: int, j: int|
        {
            &&& 0 <= i < ts.len()
            &&& 0 <= j < ts.len()
            &&& (#[trigger] ts[i]).op is Lit
            &&& (#[trigger] ts[j]).op is Lit
            &&& ts[i].op != ts[j].op
        }
}

/// Whether a class lists two different literals.
pub fn is_conflicting(g: &Graph, id: Id) -> (r: bool)
    requires
        g.wf(),
        g.has(id),
    ensures
        r == conflicting(g.terms(id)),
{
    let ts = g.terms_of(id);
    let ghost ns = g.terms(id);
    let first = match g.known(id) {
        None => {
            proof {
                lemma_no_literal(ns);
            }
            return false;
        },
        Some(l) => l,
    };
    let mut i: usize = 0;
    while i < ts.len()
        invariant
            i <= ts@.len(),
            ts@.len() == ns.len(),
            ns == g.terms(id),
            forall|k: int| 0 <= k < ts@.len() ==> (#[trigger] ts@[k])@ == ns[k],
            crate::terms::first_literal(ns) == Some(first@),
            forall|k: int|
                0 <= k < i && (#[trigger] ns[k]).op is Lit ==> ns[k].op == OpV::Lit(first@),
        decreases ts.len() - i,
    {
        proof {
            assert(ts@[i as int]@ == ns[i as int]);
        }
        if let Symbolic::Lit(l) = &ts[i] {
            if !l.same(&first) {
                proof {
                    let j = lemma_first_listed(ns);
                    assert(ns[i as int].op == OpV::Lit(l@));
                    assert(ns[j].op == OpV::Lit(first@));
                }
                return true;
            }
        }
        i += 1;
    }
    false
}

proof fn lemma_no_literal(ts: Seq<Node>)
    requires
        crate::terms::first_literal(ts) is None,
    ensures
        forall|k: int| 0 <= k < ts.len() ==> !((#[trigger] ts[k]).op is Lit),
    decreases ts.len(),
{
    if ts.len() > 0 {
        lemma_no_literal(ts.drop_first());
        assert forall|k: int| 0 <= k < ts.len() implies !((#[trigger] ts[k]).op is Lit) by {
            if k > 0 {
                assert(ts.drop_first()[k - 1] == ts[k]);
            }
        }
    }
}

proof fn lemma_first_listed(ts: Seq<Node>) -> (j: int)
    requires
        crate::terms::first_literal(ts) is Some,
    ensures
        0 <= j < ts.len(),
        ts[j].op == OpV::Lit(crate::terms::first_literal(ts).unwrap()),
    decreases ts.len(),
{
    if ts[0].op is Lit {
        0
    } else {
        let k = lemma_first_listed(ts.drop_first());
        assert(ts.drop_first()[k] == ts[k + 1]);
        k + 1
    }
}

/// What is known of a class: that it is two literals, or the literal that it is.
pub open spec fn note_of(g: Graph, c: Id, lit: Option<Seq<char>>) -> Option<Seq<char>> {
    if conflicting(g.terms(c)) {
        Some("\u{22a5}"@)
    } else {
        match (g.known_value(c), lit) {
            (Some(_), Some(l)) => Some("= "@ + l),
            _ => None,
        }
    }
}

/// A type of a class where it has one.
pub open spec fn fits_type(g: Graph, types: Oracle, c: Id, ty: Option<TypeV>) -> bool {
    match ty {
        Some(t) => typable(g, types, c, t),
        None => forall|t: TypeV| !typable(g, types, c, t),
    }
}

/// What a text holds, where there is one.
pub open spec fn told_text(t: Option<String>) -> Option<Seq<char>> {
    match t {
        Some(s) => Some(s@),
        None => None,
    }
}

/// The colour and the label of the box of a class.
pub open spec fn is_style(g: Graph, types: Oracle, l: Labels, c: Id, e: Edit) -> bool {
    exists|ty: Option<TypeV>|
        {
            &&& #[trigger] fits_type(g, types, c, ty)
            &&& e.needle@ == cluster_line(c as nat)
            &&& e.text@ == class_style(
                color_of(ty),
                class_label(
                    if ty is Some {
                        told_text(l.ty)
                    } else {
                        None
                    },
                    note_of(g, c, told_text(l.lit)),
                ),
            )
        }
}

/// A class that is marked: one that is not known to be one literal.
pub open spec fn is_marked(g: Graph, highlight: Option<Id>) -> bool {
    highlight matches Some(id) && (g.known_value(id) is None || conflicting(g.terms(id)))
}

/// The changes that colour and label the box of every class, and mark one.
pub open spec fn styles_of(
    g: Graph,
    types: Oracle,
    labels: Seq<Labels>,
    highlight: Option<Id>,
    ss: Seq<Edit>,
) -> bool {
    let cs = class_ids(g, g.len());
    &&& ss.len() == cs.len() + (if is_marked(g, highlight) {
        1int
    } else {
        0
    })
    &&& forall|i: int|
        0 <= i < cs.len() ==> is_style(g, types, labels[cs[i] as int], cs[i], #[trigger] ss[i])
    &&& is_marked(g, highlight) ==> edit_text(ss.last()) == (
        cluster_line(g.canon(highlight.unwrap()) as nat),
        "    style=solid\n    color=red\n    penwidth=3\n"@,
    )
}

/// The chunks of heaps, listed.
pub open spec fn all_listed(heaps: Seq<(String, Heap)>, ess: Seq<Seq<(usize, Chunk)>>) -> bool {
    &&& ess.len() == heaps.len()
    &&& forall|i: int| 0 <= i < ess.len() ==> lists_chunks(heaps[i].1, #[trigger] ess[i])
}

/// The pictures of heaps, one after the other.
pub open spec fn heap_pictures(
    g: Graph,
    heaps: Seq<(String, Heap)>,
    ess: Seq<Seq<(usize, Chunk)>>,
    n: nat,
) -> Seq<char>
    decreases n,
{
    if n == 0 {
        Seq::empty()
    } else {
        let k = (n - 1) as nat;
        heap_pictures(g, heaps, ess, k) + heap_picture(
            g,
            k,
            heaps[k as int].0@,
            ess[k as int],
        )
    }
}

fn rename_terms(g: &Graph, labels: &Vec<Labels>) -> (r: Vec<Edit>)
    requires
        g.wf(),
        labelled(*g, labels@),
    ensures
        renames_of(*g, labels@, r@),
{
    let cs = list_classes(g);
    let mut out: Vec<Edit> = Vec::new();
    let mut i: usize = 0;
    proof {
        assert(edit_texts(out@) =~= Seq::empty());
        assert(cs@.take(0) =~= Seq::empty());
    }
    while i < cs.len()
        invariant
            i <= cs@.len(),
            g.wf(),
            labelled(*g, labels@),
            cs@ == class_ids(*g, g.len()),
            forall|k: int| 0 <= k < cs@.len() ==> g.has(#[trigger] cs@[k]),
            edit_texts(out@) == renames_for(*g, labels@, cs@.take(i as int)),
        decreases cs.len() - i,
    {
        let c: Id = cs[i];
        let ghost before = edit_texts(out@);
        let codes = g.codes_of(c);
        proof {
            assert(g.has(cs@[i as int]));
            assert(before + Seq::<(Seq<char>, Seq<char>)>::empty() =~= before);
        }
        let mut k: usize = 0;
        while k < codes.len()
            invariant
                k <= codes@.len(),
                g.wf(),
                g.has(c),
                labelled(*g, labels@),
                codes@.len() == g.terms(c).len(),
                forall|j: int| 0 <= j < codes@.len() ==> #[trigger] codes@[j] == g.code(c, j),
                edit_texts(out@) == before + term_renames(
                    *g,
                    labels@[c as int].terms@,
                    c,
                    k as nat,
                ),
            decreases codes.len() - k,
        {
            let ghost had = out@;
            let raw = number(codes[k] as usize);
            let name = &labels[c as usize].terms[k];
            out.push(rename_node(c as usize, k, raw.as_str(), name.as_str()));
            proof {
                assert(codes@[k as int] == g.code(c, k as int));
                assert(edit_texts(out@) =~= edit_texts(had).push(edit_text(out@.last())));
                assert(edit_texts(out@) =~= before + term_renames(
                    *g,
                    labels@[c as int].terms@,
                    c,
                    (k + 1) as nat,
                ));
            }
            k += 1;
        }
        proof {
            assert(cs@.take(i + 1).drop_last() =~= cs@.take(i as int));
            assert(cs@.take(i + 1).last() == c);
        }
        i += 1;
    }
    proof {
        assert(cs@.take(cs@.len() as int) =~= cs@);
    }
    out
}

/// Every class has labels, one for each of its terms.
pub open spec fn labelled(g: Graph, labels: Seq<Labels>) -> bool {
    &&& labels.len() == g.len()
    &&& forall|c: Id|
        g.has(c) ==> (#[trigger] labels[c as int]).terms@.len() == g.terms(c).len()
}

fn style_classes(
    g: &Graph,
    types: &Oracle,
    labels: &Vec<Labels>,
    highlight: Option<Id>,
) -> (r: Vec<Edit>)
    requires
        g.wf(),
        labelled(*g, labels@),
        highlight matches Some(id) ==> g.has(id),
    ensures
        styles_of(*g, *types, labels@, highlight, r@),
{
    let cs = list_classes(g);
    let mut out: Vec<Edit> = Vec::new();
    let mut i: usize = 0;
    while i < cs.len()
        invariant
            i <= cs@.len(),
            g.wf(),
            labelled(*g, labels@),
            cs@ == class_ids(*g, g.len()),
            forall|k: int| 0 <= k < cs@.len() ==> g.has(#[trigger] cs@[k]),
            out@.len() == i,
            forall|k: int|
                0 <= k < i ==> is_style(
                    *g,
                    *types,
                    labels@[cs@[k] as int],
                    cs@[k],
                    #[trigger] out@[k],
                ),
        decreases cs.len() - i,
    {
        let c: Id = cs[i];
        proof {
            assert(g.has(cs@[i as int]));
        }
        let l = &labels[c as usize];
        let ty = infer_type(g, types, c);
        let ghost shown: Option<TypeV> = if ty is Some {
            Some(ty.unwrap()@)
        } else {
            None
        };
        let text: Option<&str> = match (&ty, &l.ty) {
            (Some(_), Some(t)) => Some(t.as_str()),
            _ => None,
        };
        let known = g.known(c).is_some();
        let both = is_conflicting(g, c);
        let note: Option<String> = if both {
            Some(copy_text("\u{22a5}"))
        } else {
            match &l.lit {
                Some(t) => if known {
                    Some(concat("= ", t.as_str()))
                } else {
                    None
                },
                None => None,
            }
        };
        let noted: Option<&str> = match &note {
            Some(t) => Some(t.as_str()),
            None => None,
        };
        let e = style_class(c as usize, cluster_color(ty.as_ref()), text, noted);
        proof {
            assert(fits_type(*g, *types, c, shown));
            assert(said(noted) == note_of(*g, c, told_text(l.lit)));
            assert(is_style(*g, *types, labels@[c as int], c, e));
        }
        out.push(e);
        i += 1;
    }
    if let Some(id) = highlight {
        let known = g.known(id).is_some();
        let both = is_conflicting(g, id);
        if !known || both {
            out.push(mark_class(g.find(id) as usize));
        }
    }
    out
}

fn draw_heaps(g: &Graph, heaps: &Vec<(String, Heap)>) -> (r: (
    String,
    Ghost<Seq<Seq<(usize, Chunk)>>>,
))
    requires
        g.wf(),
        forall|k: int| 0 <= k < heaps@.len() ==> heap_in(*g, (#[trigger] heaps@[k]).1),
    ensures
        all_listed(heaps@, r.1@),
        r.0@ == heap_pictures(*g, heaps@, r.1@, heaps@.len()),
{
    let mut out = copy_text("");
    let ghost mut ess: Seq<Seq<(usize, Chunk)>> = Seq::empty();
    let mut i: usize = 0;
    proof {
        reveal_strlit("");
        assert(out@ =~= Seq::empty());
    }
    while i < heaps.len()
        invariant
            i <= heaps@.len(),
            g.wf(),
            forall|k: int| 0 <= k < heaps@.len() ==> heap_in(*g, (#[trigger] heaps@[k]).1),
            ess.len() == i,
            forall|k: int| 0 <= k < i ==> lists_chunks(heaps@[k].1, #[trigger] ess[k]),
            out@ == heap_pictures(*g, heaps@, ess, i as nat),
        decreases heaps.len() - i,
    {
        proof {
            assert(heap_in(*g, heaps@[i as int].1));
        }
        let one = heap_subgraph(g, i, heaps[i].0.as_str(), &heaps[i].1);
        out = concat(out.as_str(), one.as_str());
        proof {
            let es = choose|es: Seq<(usize, Chunk)>|
                lists_chunks(heaps@[i as int].1, es) && one@ == #[trigger] heap_picture(
                    *g,
                    i as nat,
                    heaps@[i as int].0@,
                    es,
                );
            let more = ess.push(es);
            lemma_pictures_more(*g, heaps@, ess, more, i as nat);
            ess = more;
        }
        i += 1;
    }
    (out, Ghost(ess))
}

proof fn lemma_pictures_more(
    g: Graph,
    heaps: Seq<(String, Heap)>,
    a: Seq<Seq<(usize, Chunk)>>,
    b: Seq<Seq<(usize, Chunk)>>,
    n: nat,
)
    requires
        n <= a.len() <= b.len(),
        forall|i: int| 0 <= i < a.len() ==> #[trigger] a[i] == b[i],
    ensures
        heap_pictures(g, heaps, a, n) == heap_pictures(g, heaps, b, n),
    decreases n,
{
    if n > 0 {
        lemma_pictures_more(g, heaps, a, b, (n - 1) as nat);
    }
}

/// Adds a page, where pages are collected: the graph as it is, with its terms named and its
/// classes coloured by type, heaps with their labels, a title, and a mark on the class of
/// the value that was computed last. What the raw picture of the graph is, its drawing
/// decides.
pub fn snapshot(
    p: &mut Pages,
    g: &Graph,
    types: &Oracle,
    labels: &Vec<Labels>,
    heaps: &Vec<(String, Heap)>,
    title: &str,
    highlight: Option<Id>,
)
    requires
        g.wf(),
        labelled(*g, labels@),
        highlight matches Some(id) ==> g.has(id),
        forall|k: int| 0 <= k < heaps@.len() ==> heap_in(*g, (#[trigger] heaps@[k]).1),
    ensures
        !old(p).on ==> *final(p) == *old(p),
        old(p).on ==> final(p).on && final(p).list@.len() == old(p).list@.len() + 1
            && final(p).list@.drop_last() == old(p).list@ && exists|
            raw: Seq<char>,
            ess: Seq<Seq<(usize, Chunk)>>,
            rs: Seq<Edit>,
            ss: Seq<Edit>,
        |
            {
                &&& renames_of(*g, labels@, rs)
                &&& styles_of(*g, *types, labels@, highlight, ss)
                &&& all_listed(heaps@, ess)
                &&& final(p).list@.last()@ == #[trigger] page_of(
                    raw,
                    old(p).list@.len(),
                    heap_pictures(*g, heaps@, ess, heaps@.len()),
                    title@,
                    rs,
                    ss,
                )
            },
{
    if !p.on {
        return;
    }
    let raw = g.draw("ranksep=1.2", "newrank=true");
    let rs = rename_terms(g, labels);
    let ss = style_classes(g, types, labels, highlight);
    let (drawn, Ghost(ess)) = draw_heaps(g, heaps);
    let step = p.list.len();
    let one = page(raw.as_str(), step, drawn.as_str(), title, &rs, &ss);
    let ghost had = p.list@;
    p.list.push(one);
    proof {
        assert(p.list@.drop_last() =~= had);
        let drawn = heap_pictures(*g, heaps@, ess, heaps@.len());
        assert(p.list@.last()@ == page_of(raw@, step as nat, drawn, title@, rs@, ss@));
    }
}

} // verus!
