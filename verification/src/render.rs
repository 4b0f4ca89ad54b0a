//! Plain-text rendering of lists and crates. Every function returns
//! the text; writing it to a terminal, with or without colors, is the
//! caller's business.

use vstd::prelude::*;
use vstd::seq_lib::*;
use crate::lists::{Lists, path_is_prefix};
use crate::model::{
    NodeModel, contains_path, count_desc, count_under, direct_crates,
    lemma_count_under_at_least, lemma_prefix_refl, node_at, sum_all_crates,
};
use crate::text::{dec_digits, dec_str, path_of, split_path};

verus! {

/// The pieces joined by the separator, in order.
pub open spec fn joined(s: Seq<Seq<char>>, sep: Seq<char>) -> Seq<char>
    decreases s.len(),
{
    if s.len() == 0 {
        Seq::empty()
    } else if s.len() == 1 {
        s[0]
    } else {
        joined(s.drop_last(), sep) + sep + s.last()
    }
}

/// Joins strings with a separator.
pub fn join_names(v: &Vec<String>, sep: &str) -> (r: String)
    ensures
        r@ == joined(v.deep_view(), sep@),
{
    let mut r = String::new();
    let mut i: usize = 0;
    while i < v.len()
        invariant
            i <= v@.len(),
            r@ == joined(v.deep_view().subrange(0, i as int), sep@),
        decreases v@.len() - i,
    {
        let ghost d = v.deep_view();
        proof {
            assert(d.subrange(0, i + 1).drop_last() =~= d.subrange(0, i as int));
            assert(d.subrange(0, i + 1).last() == d[i as int]);
        }
        if i > 0 {
            r.append(sep);
        }
        r.append(v[i].as_str());
        proof {
            if i == 0 {
                assert(r@ =~= joined(d.subrange(0, 1), sep@));
            }
        }
        i += 1;
    }
    proof {
        assert(v.deep_view().subrange(0, v@.len() as int) =~= v.deep_view());
    }
    r
}

/// A word surrounded on both sides by the same text.
pub open spec fn surrounded(w: Seq<char>, s: Seq<char>) -> Seq<char> {
    s + w + s
}

/// Writes words separated by commas, each surrounded by the given
/// text: `'one', 'two'` for the surround `'`.
pub fn commify(words: &Vec<String>, surround: &str) -> (r: String)
    ensures
        r@ == joined(
            words.deep_view().map_values(|w: Seq<char>| surrounded(w, surround@)),
            ", "@,
        ),
{
    let ghost mapped = words.deep_view().map_values(|w: Seq<char>| surrounded(w, surround@));
    let mut r = String::new();
    let mut i: usize = 0;
    while i < words.len()
        invariant
            i <= words@.len(),
            mapped == words.deep_view().map_values(|w: Seq<char>| surrounded(w, surround@)),
            mapped.len() == words@.len(),
            r@ == joined(mapped.subrange(0, i as int), ", "@),
        decreases words@.len() - i,
    {
        proof {
            assert(mapped.subrange(0, i + 1).drop_last() =~= mapped.subrange(0, i as int));
            assert(mapped.subrange(0, i + 1).last() == mapped[i as int]);
            assert(mapped[i as int] == surround@ + words.deep_view()[i as int] + surround@);
        }
        if i > 0 {
            r.append(", ");
        }
        r.append(surround);
        r.append(words[i].as_str());
        r.append(surround);
        proof {
            if i == 0 {
                assert(r@ =~= joined(mapped.subrange(0, 1), ", "@));
            } else {
                assert(r@ =~= joined(mapped.subrange(0, i + 1), ", "@));
            }
        }
        i += 1;
    }
    proof {
        assert(mapped.subrange(0, words@.len() as int) =~= mapped);
    }
    r
}

/// A crate name with an attached free-text note.
pub struct Crate {
    pub name: String,
    pub note: String,
}

impl Crate {
    pub fn new(name: &str, note: &str) -> (r: Crate)
        ensures
            r.name@ == name@,
            r.note@ == note@,
    {
        Crate { name: name.to_owned(), note: note.to_owned() }
    }

    /// Writes the crate for display: its name.
    pub fn to_text(&self) -> (r: String)
        ensures
            r@ == self.name@,
    {
        self.name.clone()
    }
}

/// The names of the crates in a sequence, in order.
pub open spec fn crate_names(s: Seq<Crate>) -> Seq<Seq<char>> {
    s.map_values(|c: Crate| c.name@)
}

/// The bracketed display of crate names: `[one, two]`.
pub open spec fn crate_list_text(names: Seq<Seq<char>>) -> Seq<char> {
    "["@ + joined(names, ", "@) + "]"@
}

/// A list of crates.
pub struct CrateList(pub Vec<Crate>);

impl CrateList {
    pub fn new(crates: Vec<Crate>) -> (r: CrateList)
        ensures
            r.0@ == crates@,
    {
        CrateList(crates)
    }

    pub fn push(&mut self, c: Crate)
        ensures
            final(self).0@ == old(self).0@.push(c),
    {
        self.0.push(c);
    }

    /// Writes the crate names as `[one, two]`.
    pub fn to_text(&self) -> (r: String)
        ensures
            r@ == crate_list_text(crate_names(self.0@)),
    {
        let ghost names = crate_names(self.0@);
        let mut body = String::new();
        let mut i: usize = 0;
        while i < self.0.len()
            invariant
                i <= self.0@.len(),
                names == crate_names(self.0@),
                names.len() == self.0@.len(),
                body@ == joined(names.subrange(0, i as int), ", "@),
            decreases self.0@.len() - i,
        {
            proof {
                assert(names.subrange(0, i + 1).drop_last() =~= names.subrange(0, i as int));
                assert(names.subrange(0, i + 1).last() == names[i as int]);
            }
            if i > 0 {
                body.append(", ");
            }
            body.append(self.0[i].name.as_str());
            proof {
                if i == 0 {
                    assert(body@ =~= joined(names.subrange(0, 1), ", "@));
                }
            }
            i += 1;
        }
        proof {
            assert(names.subrange(0, self.0@.len() as int) =~= names);
        }
        let mut r = String::new();
        r.append("[");
        r.append(body.as_str());
        r.append("]");
        proof {
            assert(r@ =~= crate_list_text(names));
        }
        r
    }
}

impl Lists {
    /// The crate names in the list at the dotted address, joined: by
    /// spaces for machine use when `plain`, else by commas. An absent
    /// list, and the root container, yield nothing.
    pub fn show(&self, list: &str, plain: bool) -> (r: Option<String>)
        ensures
            match r {
                Some(t) => path_of(list@).len() > 0 && contains_path(self@, path_of(list@)) && t@
                    == joined(
                    node_at(self@, path_of(list@)).crates,
                    if plain {
                        " "@
                    } else {
                        ", "@
                    },
                ),
                None => path_of(list@).len() == 0 || !contains_path(self@, path_of(list@)),
            },
    {
        match self.as_table(list) {
            Some(n) => {
                if plain {
                    Some(join_names(&n.crates, " "))
                } else {
                    Some(join_names(&n.crates, ", "))
                }
            },
            None => None,
        }
    }
}

/// The same character written `k` times.
pub open spec fn repeat_char(c: char, k: nat) -> Seq<char>
    decreases k,
{
    if k == 0 {
        Seq::empty()
    } else {
        repeat_char(c, (k - 1) as nat).push(c)
    }
}

/// Whether a node is shown when printing below `p`: a strict
/// descendant, and in non-recursive mode a direct child.
pub open spec fn shown(n: NodeModel, p: Seq<Seq<char>>, recursive: bool) -> bool {
    p.is_prefix_of(n.path) && n.path.len() > p.len() && (recursive || n.path.len() == p.len()
        + 1)
}

/// One line of the printed tree: the node's name indented one marker
/// per depth level below the starting list, its direct crate count,
/// outside recursive mode a summary of its subtree, and optionally its
/// own crates.
pub open spec fn print_line(
    s: Seq<NodeModel>,
    n: NodeModel,
    base: nat,
    recursive: bool,
    print_crates: bool,
) -> Seq<char> {
    let head = repeat_char('·', (n.path.len() - base - 1) as nat) + n.path.last() + " ("@
        + dec_digits(n.crates.len()) + ")"@;
    let with_counts = if recursive {
        head
    } else {
        let d = count_desc(s, n.path);
        let e = count_under(s, n.path) - n.crates.len();
        (if d > 0 {
            head + " +["@ + dec_digits(d) + "]"@
        } else {
            head
        }) + (if e > 0 {
            "("@ + dec_digits(e as nat) + ")"@
        } else {
            Seq::<char>::empty()
        })
    };
    if print_crates && n.crates.len() > 0 {
        with_counts + ": "@ + crate_list_text(n.crates)
    } else {
        with_counts
    }
}

/// The printed lines contributed by the first `i` nodes.
pub open spec fn print_lines_upto(
    s: Seq<NodeModel>,
    p: Seq<Seq<char>>,
    recursive: bool,
    print_crates: bool,
    i: int,
) -> Seq<Seq<char>>
    decreases i,
{
    if i <= 0 {
        Seq::empty()
    } else {
        let r = print_lines_upto(s, p, recursive, print_crates, i - 1);
        if shown(s[i - 1], p, recursive) {
            r.push(print_line(s, s[i - 1], p.len(), recursive, print_crates))
        } else {
            r
        }
    }
}

/// The lines printed for the lists below `p`, in store order — which
/// is depth-first order, so descendants follow their list directly.
pub open spec fn print_lines(
    s: Seq<NodeModel>,
    p: Seq<Seq<char>>,
    recursive: bool,
    print_crates: bool,
) -> Seq<Seq<char>> {
    print_lines_upto(s, p, recursive, print_crates, s.len() as int)
}

/// One line of the lists overview: the top-level list's name and its
/// direct crate count, with its crates appended in verbose mode.
pub open spec fn overview_line(n: NodeModel, verbose: bool) -> Seq<char> {
    let head = n.path[0] + " ("@ + dec_digits(n.crates.len()) + ")"@;
    if verbose {
        head + ": "@ + joined(n.crates, ", "@)
    } else {
        head
    }
}

/// The overview entries contributed by the first `i` nodes: one for
/// each top-level list.
pub open spec fn overview_entries(s: Seq<NodeModel>, verbose: bool, i: int) -> Seq<Seq<char>>
    decreases i,
{
    if i <= 0 {
        Seq::empty()
    } else {
        let r = overview_entries(s, verbose, i - 1);
        if s[i - 1].path.len() == 1 {
            r.push(overview_line(s[i - 1], verbose))
        } else {
            r
        }
    }
}

/// The crate names collected from the first `i` nodes inside the
/// subtree of `p`, in store order.
pub open spec fn collected_upto(
    s: Seq<NodeModel>,
    p: Seq<Seq<char>>,
    i: int,
) -> Seq<Seq<char>>
    decreases i,
{
    if i <= 0 {
        Seq::empty()
    } else {
        let r = collected_upto(s, p, i - 1);
        if p.is_prefix_of(s[i - 1].path) {
            r + s[i - 1].crates
        } else {
            r
        }
    }
}

impl Lists {
    /// The crates of the list at the dotted address, with empty notes:
    /// its own crates, and with `recursive` also those of every list
    /// below it in store order. The root address collects every crate.
    pub fn crates(&self, list: &str, recursive: bool) -> (r: CrateList)
        ensures
            recursive ==> crate_names(r.0@) == collected_upto(
                self@.nodes,
                path_of(list@),
                self@.nodes.len() as int,
            ),
            !recursive ==> crate_names(r.0@) == direct_crates(self@, path_of(list@)),
            forall|k: int| 0 <= k < r.0@.len() ==> (#[trigger] r.0@[k].note@) == Seq::<
                char,
            >::empty(),
    {
        let pv = split_path(list);
        let ghost p = path_of(list@);
        let ghost s = self@.nodes;
        let mut out = CrateList(Vec::new());
        if !recursive {
            proof {
                assert(crate_names(out.0@) =~= Seq::<Seq<char>>::empty());
            }
            match self.as_table(list) {
                Some(n) => {
                    let mut j: usize = 0;
                    while j < n.crates.len()
                        invariant
                            j <= n.crates@.len(),
                            crate_names(out.0@) =~= n@.crates.subrange(0, j as int),
                            forall|k: int| 0 <= k < out.0@.len() ==> (#[trigger] out.0@[k].note@)
                                == Seq::<char>::empty(),
                        decreases n.crates@.len() - j,
                    {
                        let ghost before = out.0@;
                        out.0.push(Crate::new(n.crates[j].as_str(), ""));
                        proof {
                            crate::text::lemma_empty_strlit();
                            assert(crate_names(out.0@) =~= crate_names(before).push(
                                n@.crates[j as int],
                            ));
                            assert(crate_names(out.0@) =~= n@.crates.subrange(0, j + 1));
                        }
                        j += 1;
                    }
                    proof {
                        assert(n@.crates.subrange(0, n.crates@.len() as int) =~= n@.crates);
                    }
                    out
                },
                None => out,
            }
        } else {
            let mut i: usize = 0;
            proof {
                assert(crate_names(out.0@) =~= Seq::<Seq<char>>::empty());
            }
            while i < self.nodes.len()
                invariant
                    i <= self.nodes@.len(),
                    s == self@.nodes,
                    p == pv.deep_view(),
                    crate_names(out.0@) =~= collected_upto(s, p, i as int),
                    forall|k: int| 0 <= k < out.0@.len() ==> (#[trigger] out.0@[k].note@) == Seq::<
                        char,
                    >::empty(),
                decreases self.nodes@.len() - i,
            {
                if path_is_prefix(&pv, &self.nodes[i].path) {
                    let ghost cr = s[i as int].crates;
                    let mut j: usize = 0;
                    while j < self.nodes[i].crates.len()
                        invariant
                            i < self.nodes@.len(),
                            j <= self.nodes@[i as int].crates@.len(),
                            s == self@.nodes,
                            cr == s[i as int].crates,
                            cr.len() == self.nodes@[i as int].crates@.len(),
                            crate_names(out.0@) =~= collected_upto(s, p, i as int) + cr.subrange(
                                0,
                                j as int,
                            ),
                            forall|k: int| 0 <= k < out.0@.len() ==> (#[trigger] out.0@[k].note@)
                                == Seq::<char>::empty(),
                        decreases self.nodes@[i as int].crates@.len() - j,
                    {
                        let ghost before = out.0@;
                        out.0.push(Crate::new(self.nodes[i].crates[j].as_str(), ""));
                        proof {
                            crate::text::lemma_empty_strlit();
                            assert(crate_names(out.0@) =~= crate_names(before).push(
                                cr[j as int],
                            ));
                            assert(crate_names(out.0@) =~= collected_upto(s, p, i as int)
                                + cr.subrange(0, j + 1));
                        }
                        j += 1;
                    }
                    proof {
                        assert(cr.subrange(0, cr.len() as int) =~= cr);
                        assert(crate_names(out.0@) =~= collected_upto(s, p, i + 1));
                    }
                } else {
                    proof {
                        assert(collected_upto(s, p, i + 1) =~= collected_upto(s, p, i as int));
                    }
                }
                i += 1;
            }
            out
        }
    }
}

impl Lists {
    /// The overview of the top-level lists, each with its direct crate
    /// count: comma-separated, or in verbose mode one list per line
    /// with its crates appended. Nothing when the list mapping is
    /// absent or holds no list.
    pub fn show_lists(&self, verbose: bool) -> (r: Option<String>)
        ensures
            match r {
                Some(t) => self@.present && overview_entries(
                    self@.nodes,
                    verbose,
                    self@.nodes.len() as int,
                ).len() > 0 && t@ == joined(
                    overview_entries(self@.nodes, verbose, self@.nodes.len() as int),
                    if verbose {
                        "\n"@
                    } else {
                        ", "@
                    },
                ),
                None => !self@.present || overview_entries(
                    self@.nodes,
                    verbose,
                    self@.nodes.len() as int,
                ).len() == 0,
            },
    {
        if !self.present {
            return None;
        }
        let ghost s = self@.nodes;
        let mut entries: Vec<String> = Vec::new();
        let mut i: usize = 0;
        while i < self.nodes.len()
            invariant
                i <= self.nodes@.len(),
                s == self@.nodes,
                entries.deep_view() =~= overview_entries(s, verbose, i as int),
            decreases self.nodes@.len() - i,
        {
            let ghost n = s[i as int];
            if self.nodes[i].path.len() == 1 {
                let mut line = String::new();
                line.append(self.nodes[i].path[0].as_str());
                line.append(" (");
                let qs = dec_str(self.nodes[i].crates.len());
                line.append(qs.as_str());
                line.append(")");
                if verbose {
                    line.append(": ");
                    let body = join_names(&self.nodes[i].crates, ", ");
                    line.append(body.as_str());
                }
                proof {
                    assert(line@ =~= overview_line(n, verbose));
                }
                let ghost before = entries.deep_view();
                entries.push(line);
                proof {
                    assert(entries.deep_view() =~= before.push(overview_line(n, verbose)));
                    assert(entries.deep_view() =~= overview_entries(s, verbose, i + 1));
                }
            } else {
                proof {
                    assert(overview_entries(s, verbose, i + 1) =~= overview_entries(
                        s,
                        verbose,
                        i as int,
                    ));
                }
            }
            i += 1;
        }
        if entries.len() == 0 {
            return None;
        }
        if verbose {
            Some(join_names(&entries, "\n"))
        } else {
            Some(join_names(&entries, ", "))
        }
    }

    /// The printed tree of the lists below the dotted address, one
    /// line per list in store order; the starting list itself is never
    /// shown. Recursive mode expands every descendant, indenting one
    /// marker per depth level; otherwise only direct children appear,
    /// each annotated with its subtree's list and crate counts.
    #[verifier::rlimit(80)]
    pub fn print(&self, list: &str, recursive: bool, print_crates: bool) -> (r: Vec<String>)
        requires
            sum_all_crates(self@.nodes) <= usize::MAX,
        ensures
            r.deep_view() == print_lines(self@.nodes, path_of(list@), recursive, print_crates),
    {
        let pv = split_path(list);
        let ghost p = path_of(list@);
        let ghost s = self@.nodes;
        let mut out: Vec<String> = Vec::new();
        let mut i: usize = 0;
        while i < self.nodes.len()
            invariant
                i <= self.nodes@.len(),
                s == self@.nodes,
                p == pv.deep_view(),
                sum_all_crates(s) <= usize::MAX,
                out.deep_view() =~= print_lines_upto(s, p, recursive, print_crates, i as int),
            decreases self.nodes@.len() - i,
        {
            let ghost n = s[i as int];
            let is_below = path_is_prefix(&pv, &self.nodes[i].path) && self.nodes[i].path.len()
                > pv.len();
            let sel = is_below && (recursive || self.nodes[i].path.len() - pv.len() == 1);
            if sel {
                let mut line = String::new();
                let depth = self.nodes[i].path.len() - pv.len() - 1;
                let mut d: usize = 0;
                while d < depth
                    invariant
                        d <= depth,
                        line@ == repeat_char('·', d as nat),
                    decreases depth - d,
                {
                    line.append("·");
                    proof {
                        reveal_strlit("·");
                        assert(line@ =~= repeat_char('·', (d + 1) as nat));
                    }
                    d += 1;
                }
                let name_idx = self.nodes[i].path.len() - 1;
                line.append(self.nodes[i].path[name_idx].as_str());
                line.append(" (");
                let direct = self.nodes[i].crates.len();
                let qs = dec_str(direct);
                line.append(qs.as_str());
                line.append(")");
                if !recursive {
                    let dn = self.count_desc_at(&self.nodes[i].path);
                    let total = self.count_under_at(&self.nodes[i].path);
                    proof {
                        lemma_prefix_refl(n.path);
                        lemma_count_under_at_least(s, n.path, i as int);
                    }
                    let extra = total - direct;
                    if dn > 0 {
                        line.append(" +[");
                        let ds = dec_str(dn);
                        line.append(ds.as_str());
                        line.append("]");
                    }
                    if extra > 0 {
                        line.append("(");
                        let es = dec_str(extra);
                        line.append(es.as_str());
                        line.append(")");
                    }
                }
                if print_crates && self.nodes[i].crates.len() > 0 {
                    line.append(": ");
                    line.append("[");
                    let body = join_names(&self.nodes[i].crates, ", ");
                    line.append(body.as_str());
                    line.append("]");
                }
                proof {
                    assert(line@ =~= print_line(s, n, p.len(), recursive, print_crates));
                }
                let ghost before = out.deep_view();
                out.push(line);
                proof {
                    assert(out.deep_view() =~= before.push(
                        print_line(s, n, p.len(), recursive, print_crates),
                    ));
                    assert(out.deep_view() =~= print_lines_upto(
                        s,
                        p,
                        recursive,
                        print_crates,
                        i + 1,
                    ));
                }
            } else {
                proof {
                    assert(print_lines_upto(s, p, recursive, print_crates, i + 1)
                        =~= print_lines_upto(s, p, recursive, print_crates, i as int));
                }
            }
            i += 1;
        }
        proof {
            assert(out.deep_view() =~= print_lines(s, p, recursive, print_crates));
        }
        out
    }
}

} // verus!
