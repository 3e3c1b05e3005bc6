use vstd::prelude::*;
use crate::error::GraphResult;
use crate::index::NodeIndex;
use crate::str_map::StrMap;
use crate::text::{debug_of, debug_text, decimal, push_char, push_decimal, push_text};

verus! {

/// A node: its own position, its alias, its labels and its properties.
#[derive(Debug, PartialEq, Eq)]
pub struct Node {
    pub id: NodeIndex,
    pub alias: String,
    pub(crate) labels: Vec<String>,
    pub(crate) props: StrMap<String>,
}

/// A node as mathematical values.
pub struct NodeView {
    pub id: NodeIndex,
    pub alias: Seq<char>,
    pub labels: Seq<Seq<char>>,
    pub props: Map<Seq<char>, Seq<char>>,
}

/// What a list of strings holds, as character sequences.
pub open spec fn texts(s: Seq<String>) -> Seq<Seq<char>> {
    s.map_values(|x: String| x@)
}

/// `s` between double quotes.
pub open spec fn quoted(s: Seq<char>) -> Seq<char> {
    seq!['"'] + s + seq!['"']
}

/// The strings, separated by a comma and a space.
pub open spec fn joined(ls: Seq<Seq<char>>) -> Seq<char>
    decreases ls.len(),
{
    if ls.len() == 0 {
        Seq::empty()
    } else if ls.len() == 1 {
        ls[0]
    } else {
        joined(ls.drop_last()) + ", "@ + ls.last()
    }
}

/// Each label as `Debug` shows it.
pub open spec fn shown_labels(labels: Seq<Seq<char>>) -> Seq<Seq<char>> {
    labels.map_values(|l: Seq<char>| debug_of(l))
}

/// One line for each property, in the order given.
pub open spec fn props_text(entries: Seq<(String, String)>) -> Seq<char>
    decreases entries.len(),
{
    if entries.len() == 0 {
        Seq::empty()
    } else {
        props_text(entries.drop_last()) + "\t\t"@ + entries.last().0@ + ":"@ + entries.last().1@ + "\n"@
    }
}

impl View for Node {
    type V = NodeView;

    open(crate) spec fn view(&self) -> NodeView {
        NodeView { id: self.id, alias: self.alias@, labels: texts(self.labels@), props: self.props@ }
    }
}

impl Node {
    /// No property key is listed twice.
    pub open(crate) spec fn wf(&self) -> bool {
        self.props.wf()
    }

    /// The text that shows the node to a person, with its labels shown as
    /// `shown`: its id, its alias, the labels as a list and one line for each
    /// property.
    pub open(crate) spec fn text_with(&self, shown: Seq<Seq<char>>) -> Seq<char> {
        "Node("@ + decimal(self.id.0 as nat) + "): "@ + quoted(self.alias@) + "\n\tlabels: ["@
            + joined(shown) + "]\n\tprops:\n"@ + props_text(self.props.entries())
    }

    /// The text that shows the node to a person, each label as `Debug`
    /// shows it.
    pub open(crate) spec fn text(&self) -> Seq<char> {
        self.text_with(shown_labels(texts(self.labels@)))
    }

    /// Appends the node's text to `out`, with its labels shown as `shown`.
    pub fn write_with(&self, out: &mut String, shown: &Vec<String>)
        ensures
            final(out)@ == old(out)@ + self.text_with(texts(shown@)),
    {
        push_text(out, "Node(");
        push_decimal(out, self.id.0);
        push_text(out, "): ");
        push_char(out, '"');
        push_text(out, self.alias.as_str());
        push_char(out, '"');
        push_text(out, "\n\tlabels: [");
        let ghost base = out@;
        let n = shown.len();
        for i in 0..n
            invariant
                n == shown@.len(),
                out@ == base + joined(texts(shown@.subrange(0, i as int))),
        {
            if i > 0 {
                push_text(out, ", ");
            }
            push_text(out, shown[i].as_str());
            proof {
                let next = texts(shown@.subrange(0, i + 1));
                assert(next.drop_last() =~= texts(shown@.subrange(0, i as int)));
                assert(next.last() == shown@[i as int]@);
                assert(out@ =~= base + joined(next));
            }
        }
        push_text(out, "]\n\tprops:\n");
        let ghost mid = out@;
        let entries = &self.props.entries;
        let m = entries.len();
        for k in 0..m
            invariant
                m == entries@.len(),
                entries@ == self.props.entries(),
                out@ == mid + props_text(entries@.subrange(0, k as int)),
        {
            push_text(out, "\t\t");
            push_text(out, entries[k].0.as_str());
            push_text(out, ":");
            push_text(out, entries[k].1.as_str());
            push_text(out, "\n");
            proof {
                let next = entries@.subrange(0, k + 1);
                assert(next.drop_last() =~= entries@.subrange(0, k as int));
                assert(next.last() == entries@[k as int]);
                assert(out@ =~= mid + props_text(next));
            }
        }
        proof {
            assert(shown@.subrange(0, n as int) =~= shown@);
            assert(entries@.subrange(0, m as int) =~= entries@);
            assert(out@ =~= old(out)@ + self.text_with(texts(shown@)));
        }
    }

    /// Appends the node's text to `out`.
    pub fn write_to(&self, out: &mut String)
        ensures
            final(out)@ == old(out)@ + self.text(),
    {
        let mut shown: Vec<String> = Vec::new();
        let n = self.labels.len();
        for i in 0..n
            invariant
                n == self.labels@.len(),
                texts(shown@) == shown_labels(texts(self.labels@.subrange(0, i as int))),
        {
            let ghost before = shown@;
            shown.push(debug_text(self.labels[i].as_str()));
            proof {
                assert(texts(shown@) =~= texts(before).push(debug_of(self.labels@[i as int]@)));
                assert(shown_labels(texts(self.labels@.subrange(0, i + 1))) =~= shown_labels(
                    texts(self.labels@.subrange(0, i as int)),
                ).push(debug_of(self.labels@[i as int]@)));
            }
        }
        proof {
            assert(self.labels@.subrange(0, n as int) =~= self.labels@);
        }
        self.write_with(out, &shown);
    }

    /// The node's text.
    pub fn render(&self) -> (r: String)
        ensures
            r@ == self.text(),
    {
        let mut out = String::new();
        self.write_to(&mut out);
        proof {
            assert(out@ =~= self.text());
        }
        out
    }

    /// A node at `id` with `alias`, no labels and no properties.
    pub fn new(id: NodeIndex, alias: String) -> (r: Node)
        ensures
            r.wf(),
            r@ == (NodeView { id, alias: alias@, labels: Seq::empty(), props: Map::empty() }),
    {
        let r = Node { id, alias, labels: Vec::new(), props: StrMap::new() };
        proof {
            assert(texts(r.labels@) =~= Seq::<Seq<char>>::empty());
        }
        r
    }

    /// Appends a label; duplicates are kept.
    pub fn add_label(&mut self, label: &str) -> (r: GraphResult<&mut Self>)
        requires
            old(self).wf(),
        ensures
            r is Ok,
            r->Ok_0.wf(),
            r->Ok_0@ == (NodeView { labels: old(self)@.labels.push(label@), ..old(self)@ }),
            *final(self) == *final(r->Ok_0),
    {
        self.labels.push(label.to_owned());
        proof {
            assert(texts(self.labels@) =~= old(self)@.labels.push(label@));
        }
        Ok(self)
    }

    /// Drops every label equal to `label`; the others keep their order.
    pub fn remove_label(&mut self, label: &str) -> (r: GraphResult<&mut Self>)
        requires
            old(self).wf(),
        ensures
            r is Ok,
            r->Ok_0.wf(),
            r->Ok_0@ == (NodeView {
                labels: old(self)@.labels.filter(|l: Seq<char>| l != label@),
                ..old(self)@
            }),
            *final(self) == *final(r->Ok_0),
    {
        let target = label.to_owned();
        let mut kept: Vec<String> = Vec::new();
        let n = self.labels.len();
        let ghost pred = |l: Seq<char>| l != label@;
        for i in 0..n
            invariant
                n == self.labels@.len(),
                target@ == label@,
                pred == (|l: Seq<char>| l != label@),
                texts(kept@) == texts(self.labels@.subrange(0, i as int)).filter(pred),
        {
            proof {
                assert(texts(self.labels@.subrange(0, i + 1)) =~= texts(
                    self.labels@.subrange(0, i as int),
                ).push(self.labels@[i as int]@));
                texts(self.labels@.subrange(0, i as int)).lemma_filter_push(
                    self.labels@[i as int]@,
                    pred,
                );
            }
            let same = self.labels[i] == target;
            if !same {
                let ghost before = kept@;
                kept.push(self.labels[i].clone());
                proof {
                    assert(texts(kept@) =~= texts(before).push(self.labels@[i as int]@));
                }
            }
        }
        proof {
            assert(self.labels@.subrange(0, n as int) =~= self.labels@);
        }
        self.labels = kept;
        Ok(self)
    }

    /// Sets the property `key` to `val`, replacing an earlier value.
    pub fn add_prop(&mut self, key: &str, val: &str) -> (r: GraphResult<&mut Self>)
        requires
            old(self).wf(),
        ensures
            r is Ok,
            r->Ok_0.wf(),
            r->Ok_0@ == (NodeView { props: old(self)@.props.insert(key@, val@), ..old(self)@ }),
            *final(self) == *final(r->Ok_0),
    {
        self.props.insert(key.to_owned(), val.to_owned());
        Ok(self)
    }

    /// Drops the property `key`; an absent key changes nothing.
    pub fn remove_prop(&mut self, key: &str) -> (r: GraphResult<&mut Self>)
        requires
            old(self).wf(),
        ensures
            r is Ok,
            r->Ok_0.wf(),
            r->Ok_0@ == (NodeView { props: old(self)@.props.remove(key@), ..old(self)@ }),
            *final(self) == *final(r->Ok_0),
    {
        let k = key.to_owned();
        let _ = self.props.remove(&k);
        Ok(self)
    }
}

} // verus!
