//! The diagnostic snapshot of a graph's topology: a graph-diagram text
//! whose content is a function of the node set (ids and names) and the
//! edge set alone, so equal topologies print identically whatever order
//! they were built in.

use vstd::prelude::*;
use vstd::string::StringExecFns;
use crate::graph::{NodeGraph, kahn_spec, uv_edges, id_vals, is_topo_over, same_state_but_schedule};

verus! {

/// The decimal digit characters.
pub open spec fn digit_char(d: int) -> char {
    if d == 0 {
        '0'
    } else if d == 1 {
        '1'
    } else if d == 2 {
        '2'
    } else if d == 3 {
        '3'
    } else if d == 4 {
        '4'
    } else if d == 5 {
        '5'
    } else if d == 6 {
        '6'
    } else if d == 7 {
        '7'
    } else if d == 8 {
        '8'
    } else {
        '9'
    }
}

/// The decimal spelling of a number, most significant digit first.
pub open spec fn dec_digits(n: int) -> Seq<char>
    decreases n,
{
    if n < 10 {
        seq![digit_char(n)]
    } else {
        dec_digits(n / 10).push(digit_char(n % 10))
    }
}

/// One digit as a string slice.
fn digit_str(d: usize) -> (r: &'static str)
    requires
        d < 10,
    ensures
        r@ == seq![digit_char(d as int)],
{
    proof {
        reveal_strlit("0");
        reveal_strlit("1");
        reveal_strlit("2");
        reveal_strlit("3");
        reveal_strlit("4");
        reveal_strlit("5");
        reveal_strlit("6");
        reveal_strlit("7");
        reveal_strlit("8");
        reveal_strlit("9");
    }
    let r = match d {
        0 => "0",
        1 => "1",
        2 => "2",
        3 => "3",
        4 => "4",
        5 => "5",
        6 => "6",
        7 => "7",
        8 => "8",
        _ => "9",
    };
    proof {
        assert(r@ =~= seq![digit_char(d as int)]);
    }
    r
}

/// Append the decimal spelling of `n`.
fn push_decimal(s: &mut String, n: usize)
    ensures
        final(s)@ == old(s)@ + dec_digits(n as int),
    decreases n,
{
    if n < 10 {
        s.append(digit_str(n));
    } else {
        push_decimal(s, n / 10);
        s.append(digit_str(n % 10));
        proof {
            assert(old(s)@ + dec_digits((n / 10) as int) + seq![digit_char((n % 10) as int)]
                =~= old(s)@ + dec_digits(n as int));
        }
    }
}

/// The label line of one node: its id, its position in the schedule, and
/// its name.
pub open spec fn dot_node_line(pos: int, id: usize, name: Seq<char>) -> Seq<char> {
    "\tnode"@ + dec_digits(id as int) + " [label=\""@ + dec_digits(pos) + ") "@ + name + "\"]\n"@
}

/// The name paired with an id, read off the parallel id and name rows.
pub open spec fn name_by_id(ids: Seq<usize>, names: Seq<Seq<char>>, id: usize) -> Seq<char> {
    names[ids.index_of(id)]
}

/// The label lines of the first `k` scheduled nodes.
pub open spec fn dot_node_lines(
    sorted: Seq<usize>,
    ids: Seq<usize>,
    names: Seq<Seq<char>>,
    k: int,
) -> Seq<char>
    decreases k,
{
    if k <= 0 {
        Seq::empty()
    } else {
        dot_node_lines(sorted, ids, names, k - 1) + dot_node_line(
            k - 1,
            sorted[k - 1],
            name_by_id(ids, names, sorted[k - 1]),
        )
    }
}

/// One edge line.
pub open spec fn dot_edge_line(u: usize, v: usize) -> Seq<char> {
    "\tnode"@ + dec_digits(u as int) + " -> node"@ + dec_digits(v as int) + "\n"@
}

/// The same edge line repeated once per parallel edge.
pub open spec fn dot_edge_repeat(u: usize, v: usize, c: int) -> Seq<char>
    decreases c,
{
    if c <= 0 {
        Seq::empty()
    } else {
        dot_edge_repeat(u, v, c - 1) + dot_edge_line(u, v)
    }
}

/// The edge lines out of `u`, consumers scanned in ascending-id order
/// over the first `k` ids.
pub open spec fn dot_edges_for(
    u: usize,
    ids: Seq<usize>,
    eset: Set<crate::graph::NodeEdge>,
    k: int,
) -> Seq<char>
    decreases k,
{
    if k <= 0 {
        Seq::empty()
    } else {
        dot_edges_for(u, ids, eset, k - 1) + dot_edge_repeat(
            u,
            ids[k - 1],
            uv_edges(eset, u, ids[k - 1]).len() as int,
        )
    }
}

/// The edge lines of the first `t` scheduled nodes.
pub open spec fn dot_edge_lines(
    sorted: Seq<usize>,
    ids: Seq<usize>,
    eset: Set<crate::graph::NodeEdge>,
    t: int,
) -> Seq<char>
    decreases t,
{
    if t <= 0 {
        Seq::empty()
    } else {
        dot_edge_lines(sorted, ids, eset, t - 1) + dot_edges_for(
            sorted[t - 1],
            ids,
            eset,
            ids.len() as int,
        )
    }
}

/// The whole snapshot text, as a function of the schedule, the id row,
/// the name row, and the edge set.
pub open spec fn dot_text(
    sorted: Seq<usize>,
    ids: Seq<usize>,
    names: Seq<Seq<char>>,
    eset: Set<crate::graph::NodeEdge>,
) -> Seq<char> {
    "digraph {\n\tnode [shape=box]\n\n"@ + dot_node_lines(sorted, ids, names, sorted.len() as int)
        + "\n"@ + dot_edge_lines(sorted, ids, eset, sorted.len() as int) + "}"@
}

/// The name row of a graph, parallel to its id row.
pub open spec fn names_seq(g: NodeGraph) -> Seq<Seq<char>> {
    g.spec_nodes().map_values(|n: crate::graph::Node| n.name@)
}

impl NodeGraph {
    /// Render the topology. Sorts first when dirty, so the text is the
    /// same for any two graphs with the same nodes (by id and name) and
    /// the same edges, however they were edited into being.
    pub fn to_dot(&mut self) -> (r: String)
        requires
            old(self).wf(),
        ensures
            final(self).wf(),
            !final(self).spec_dirty(),
            same_state_but_schedule(*final(self), *old(self)),
            final(self).spec_nodes() == old(self).spec_nodes(),
            r@ == dot_text(
                kahn_spec(old(self).spec_ids(), old(self).edge_set()),
                old(self).spec_ids(),
                names_seq(*old(self)),
                old(self).edge_set(),
            ),
    {
        if self.dirty() {
            self.sort();
        } else {
            proof {
                self.lemma_ids_no_dup();
                let ord = choose|ord: Seq<usize>|
                    is_topo_over(ord, self.spec_ids(), self.spec_edges());
                crate::graph::lemma_kahn_complete(self.spec_ids(), self.spec_edges(), ord);
                crate::graph::lemma_kahn_sound(self.spec_ids(), self.spec_edges());
            }
        }
        let ghost sorted_ids = id_vals(self.spec_sorted());
        let ghost ids = self.spec_ids();
        let ghost names = names_seq(*self);
        let ghost eset = self.edge_set();
        proof {
            assert(sorted_ids == kahn_spec(ids, eset));
            assert(is_topo_over(sorted_ids, ids, self.spec_edges()));
        }
        let mut out = String::new();
        out.append("digraph {\n\tnode [shape=box]\n\n");
        let n_sorted = self.sorted_len();
        let mut t: usize = 0;
        while t < n_sorted
            invariant
                t <= n_sorted,
                self.wf(),
                !self.spec_dirty(),
                n_sorted == self.spec_sorted().len(),
                sorted_ids == id_vals(self.spec_sorted()),
                ids == self.spec_ids(),
                names == names_seq(*self),
                eset == self.edge_set(),
                is_topo_over(sorted_ids, ids, self.spec_edges()),
                out@ == "digraph {\n\tnode [shape=box]\n\n"@ + dot_node_lines(
                    sorted_ids,
                    ids,
                    names,
                    t as int,
                ),
            decreases n_sorted - t,
        {
            let id = self.sorted_at(t);
            proof {
                assert(sorted_ids[t as int] == id.0);
                assert(sorted_ids.contains(id.0)) by {
                    assert(sorted_ids[t as int] == id.0);
                }
                assert(ids.contains(id.0));
            }
            let idx: usize;
            match self.find_index(id) {
                None => {
                    proof {
                        assert(false);
                    }
                    return String::new();
                },
                Some(i2) => {
                    idx = i2;
                },
            }
            proof {
                self.lemma_lookup_props(id.0);
                // the id row finds the same slot as the node row
                let w = ids.index_of(id.0);
                assert(0 <= w < ids.len() && ids[w] == id.0) by {
                    let j = choose|j: int| 0 <= j < ids.len() && ids[j] == id.0;
                }
                assert(w == idx as int) by {
                    assert(self.spec_nodes()[w].id.0 == id.0);
                }
                assert(name_by_id(ids, names, id.0) == self.spec_nodes()[idx as int].name@);
            }
            out.append("\tnode");
            push_decimal(&mut out, id.0);
            out.append(" [label=\"");
            push_decimal(&mut out, t);
            out.append(") ");
            out.append(self.node_ref(idx).name.as_str());
            out.append("\"]\n");
            proof {
                assert(out@ =~= "digraph {\n\tnode [shape=box]\n\n"@ + dot_node_lines(
                    sorted_ids,
                    ids,
                    names,
                    t + 1,
                ));
            }
            t += 1;
        }
        out.append("\n");
        let ghost header_done = out@;
        proof {
            assert(header_done == "digraph {\n\tnode [shape=box]\n\n"@ + dot_node_lines(
                sorted_ids,
                ids,
                names,
                sorted_ids.len() as int,
            ) + "\n"@);
        }
        let n_nodes = self.node_count();
        let mut t2: usize = 0;
        while t2 < n_sorted
            invariant
                t2 <= n_sorted,
                self.wf(),
                !self.spec_dirty(),
                n_sorted == self.spec_sorted().len(),
                n_nodes == self.spec_nodes().len(),
                sorted_ids == id_vals(self.spec_sorted()),
                ids == self.spec_ids(),
                eset == self.edge_set(),
                header_done == "digraph {\n\tnode [shape=box]\n\n"@ + dot_node_lines(
                    sorted_ids,
                    ids,
                    names,
                    sorted_ids.len() as int,
                ) + "\n"@,
                out@ == header_done + dot_edge_lines(sorted_ids, ids, eset, t2 as int),
            decreases n_sorted - t2,
        {
            let u = self.sorted_at(t2);
            proof {
                assert(sorted_ids[t2 as int] == u.0);
            }
            let mut vj: usize = 0;
            while vj < n_nodes
                invariant
                    vj <= n_nodes,
                    self.wf(),
                    !self.spec_dirty(),
                    t2 < n_sorted,
                    n_sorted == self.spec_sorted().len(),
                    n_nodes == self.spec_nodes().len(),
                    sorted_ids == id_vals(self.spec_sorted()),
                    sorted_ids[t2 as int] == u.0,
                    ids == self.spec_ids(),
                    eset == self.edge_set(),
                    out@ == header_done + dot_edge_lines(sorted_ids, ids, eset, t2 as int)
                        + dot_edges_for(u.0, ids, eset, vj as int),
                decreases n_nodes - vj,
            {
                let v = self.node_ref(vj).id;
                proof {
                    assert(ids[vj as int] == v.0);
                }
                let c = self.count_edges_between(u.0, v.0);
                let mut m: usize = 0;
                while m < c
                    invariant
                        m <= c,
                        self.wf(),
                        c as nat == uv_edges(eset, u.0, v.0).len(),
                        eset == self.edge_set(),
                        out@ == header_done + dot_edge_lines(sorted_ids, ids, eset, t2 as int)
                            + dot_edges_for(u.0, ids, eset, vj as int) + dot_edge_repeat(
                            u.0,
                            v.0,
                            m as int,
                        ),
                    decreases c - m,
                {
                    out.append("\tnode");
                    push_decimal(&mut out, u.0);
                    out.append(" -> node");
                    push_decimal(&mut out, v.0);
                    out.append("\n");
                    proof {
                        assert(out@ =~= header_done + dot_edge_lines(
                            sorted_ids,
                            ids,
                            eset,
                            t2 as int,
                        ) + dot_edges_for(u.0, ids, eset, vj as int) + dot_edge_repeat(
                            u.0,
                            v.0,
                            m + 1,
                        ));
                    }
                    m += 1;
                }
                proof {
                    assert(out@ =~= header_done + dot_edge_lines(sorted_ids, ids, eset, t2 as int)
                        + dot_edges_for(u.0, ids, eset, vj + 1));
                }
                vj += 1;
            }
            proof {
                assert(ids.len() == n_nodes);
                assert(out@ =~= header_done + dot_edge_lines(sorted_ids, ids, eset, t2 + 1));
            }
            t2 += 1;
        }
        out.append("}");
        proof {
            assert(out@ =~= dot_text(sorted_ids, ids, names, eset));
        }
        out
    }
}

} // verus!
