//! Reading and writing the configuration document.
//!
//! Writing is verified text building: the whole document is produced
//! from the store model by [`store_text`]. Reading goes through
//! `toml_edit`, whose parser this crate trusts behind small wrappers;
//! the tree that comes back is replayed through the verified list
//! operations, so whatever the file held, the resulting store is
//! well-formed.

use vstd::prelude::*;
use vstd::seq_lib::*;
use crate::lists::{Lists, clone_path};
use crate::model::{
    StoreModel, NodeModel, contains_path, lemma_contains_same_paths, lemma_idx_of,
    lemma_new_monotone, wf,
};
use crate::render::joined;
use crate::text::{is_valid_component, valid_component, valid_path};

verus! {

/// How deep a hand-edited document is followed; lists nested beyond
/// this are ignored when loading.
pub const MAX_NESTING: usize = 64;

/// The escape of one character inside a double-quoted TOML string.
pub open spec fn esc_char(c: char) -> Seq<char> {
    if c == '"' {
        seq!['\\', '"']
    } else if c == '\\' {
        seq!['\\', '\\']
    } else if c == '\n' {
        seq!['\\', 'n']
    } else if c == '\r' {
        seq!['\\', 'r']
    } else if c == '\t' {
        seq!['\\', 't']
    } else {
        seq![c]
    }
}

/// A text with every character escaped for a double-quoted string.
pub open spec fn escaped(w: Seq<char>) -> Seq<char>
    decreases w.len(),
{
    if w.len() == 0 {
        Seq::empty()
    } else {
        escaped(w.drop_last()) + esc_char(w.last())
    }
}

/// A double-quoted TOML string.
pub open spec fn quoted(w: Seq<char>) -> Seq<char> {
    "\""@ + escaped(w) + "\""@
}

/// Whether a character may stand in a bare TOML key.
pub open spec fn bare_char(c: char) -> bool {
    (97 <= c as u32 && c as u32 <= 122) || (65 <= c as u32 && c as u32 <= 90) || (48 <= c as u32
        && c as u32 <= 57) || c == '_' || c == '-'
}

/// Whether a name may stand as a bare TOML key.
pub open spec fn bare_key(k: Seq<char>) -> bool {
    k.len() > 0 && (forall|i: int| 0 <= i < k.len() ==> bare_char(#[trigger] k[i]))
}

/// A name written as a TOML key: bare when possible, quoted otherwise.
pub open spec fn key_text(k: Seq<char>) -> Seq<char> {
    if bare_key(k) {
        k
    } else {
        quoted(k)
    }
}

/// The `crates` line of a list's table, absent when the list is empty.
pub open spec fn crates_text(cr: Seq<Seq<char>>) -> Seq<char> {
    if cr.len() == 0 {
        Seq::empty()
    } else {
        "crates = ["@ + joined(cr.map_values(|w: Seq<char>| quoted(w)), ", "@) + "]\n"@
    }
}

/// The `description` line of a list's table, absent when none is set.
pub open spec fn desc_text(d: Option<Seq<char>>) -> Seq<char> {
    match d {
        None => Seq::empty(),
        Some(t) => "description = "@ + quoted(t) + "\n"@,
    }
}

/// The table written for one list.
pub open spec fn node_text(n: NodeModel) -> Seq<char> {
    "\n[lists."@ + joined(n.path.map_values(|k: Seq<char>| key_text(k)), "."@) + "]\n"@
        + crates_text(n.crates) + desc_text(n.description)
}

/// The tables written for the first `i` lists.
pub open spec fn nodes_text(s: Seq<NodeModel>, i: int) -> Seq<char>
    decreases i,
{
    if i <= 0 {
        Seq::empty()
    } else {
        nodes_text(s, i - 1) + node_text(s[i - 1])
    }
}

/// The whole document: nothing when the list mapping is absent, else
/// the `[lists]` header followed by one table per list in store order
/// — parents first, so the file nests naturally.
pub open spec fn store_text(m: StoreModel) -> Seq<char> {
    if !m.present {
        Seq::empty()
    } else {
        "[lists]\n"@ + nodes_text(m.nodes, m.nodes.len() as int)
    }
}

/// Escapes a text for use inside a double-quoted TOML string.
fn escape_str(w: &str) -> (r: String)
    ensures
        r@ == escaped(w@),
{
    let n = w.unicode_len();
    let mut r = String::new();
    let mut i: usize = 0;
    while i < n
        invariant
            n == w@.len(),
            i <= n,
            r@ == escaped(w@.subrange(0, i as int)),
        decreases n - i,
    {
        let ghost prefix = w@.subrange(0, i as int);
        proof {
            assert(w@.subrange(0, i + 1).drop_last() =~= prefix);
            assert(w@.subrange(0, i + 1).last() == w@[i as int]);
        }
        let c = w.get_char(i);
        if c == '"' {
            r.append("\\\"");
            proof {
                reveal_strlit("\\\"");
                assert(r@ =~= escaped(w@.subrange(0, i + 1)));
            }
        } else if c == '\\' {
            r.append("\\\\");
            proof {
                reveal_strlit("\\\\");
                assert(r@ =~= escaped(w@.subrange(0, i + 1)));
            }
        } else if c == '\n' {
            r.append("\\n");
            proof {
                reveal_strlit("\\n");
                assert(r@ =~= escaped(w@.subrange(0, i + 1)));
            }
        } else if c == '\r' {
            r.append("\\r");
            proof {
                reveal_strlit("\\r");
                assert(r@ =~= escaped(w@.subrange(0, i + 1)));
            }
        } else if c == '\t' {
            r.append("\\t");
            proof {
                reveal_strlit("\\t");
                assert(r@ =~= escaped(w@.subrange(0, i + 1)));
            }
        } else {
            r.append(w.substring_char(i, i + 1));
            proof {
                assert(w@.subrange(i as int, i + 1) =~= seq![w@[i as int]]);
                assert(r@ =~= escaped(w@.subrange(0, i + 1)));
            }
        }
        i += 1;
    }
    proof {
        assert(w@.subrange(0, n as int) =~= w@);
    }
    r
}

/// Writes a text as a double-quoted TOML string.
fn quote_str(w: &str) -> (r: String)
    ensures
        r@ == quoted(w@),
{
    let mut r = String::new();
    r.append("\"");
    let body = escape_str(w);
    r.append(body.as_str());
    r.append("\"");
    proof {
        assert(r@ =~= quoted(w@));
    }
    r
}

/// Decides whether a name can stand as a bare TOML key.
fn bare_key_ok(k: &str) -> (r: bool)
    ensures
        r == bare_key(k@),
{
    let n = k.unicode_len();
    if n == 0 {
        return false;
    }
    let mut i: usize = 0;
    while i < n
        invariant
            n == k@.len(),
            i <= n,
            forall|j: int| 0 <= j < i ==> bare_char(#[trigger] k@[j]),
        decreases n - i,
    {
        let c = k.get_char(i);
        let u = c as u32;
        let ok = (97 <= u && u <= 122) || (65 <= u && u <= 90) || (48 <= u && u <= 57) || c == '_'
            || c == '-';
        if !ok {
            return false;
        }
        i += 1;
    }
    true
}

/// Writes a name as a TOML key.
fn key_str(k: &str) -> (r: String)
    ensures
        r@ == key_text(k@),
{
    if bare_key_ok(k) {
        k.to_owned()
    } else {
        quote_str(k)
    }
}

impl Lists {
    /// Writes the whole store as a TOML document: the `[lists]` header
    /// followed by one table per list, parents first; an absent list
    /// mapping writes an empty document.
    #[verifier::rlimit(80)]
    pub fn to_toml(&self) -> (r: String)
        ensures
            r@ == store_text(self@),
    {
        let ghost s = self@.nodes;
        let mut out = String::new();
        if !self.present {
            return out;
        }
        out.append("[lists]\n");
        let mut i: usize = 0;
        while i < self.nodes.len()
            invariant
                i <= self.nodes@.len(),
                s == self@.nodes,
                self.present,
                out@ == "[lists]\n"@ + nodes_text(s, i as int),
            decreases self.nodes@.len() - i,
        {
            let ghost n = s[i as int];
            let ghost base = out@;
            out.append("\n[lists.");
            let ghost mapped = n.path.map_values(|k: Seq<char>| key_text(k));
            let mut k: usize = 0;
            while k < self.nodes[i].path.len()
                invariant
                    i < self.nodes@.len(),
                    s == self@.nodes,
                    n == s[i as int],
                    mapped == n.path.map_values(|q: Seq<char>| key_text(q)),
                    mapped.len() == self.nodes@[i as int].path@.len(),
                    k <= self.nodes@[i as int].path@.len(),
                    base == out@.subrange(0, base.len() as int),
                    out@ == base + "\n[lists."@ + joined(mapped.subrange(0, k as int), "."@),
                decreases self.nodes@[i as int].path@.len() - k,
            {
                proof {
                    assert(mapped.subrange(0, k + 1).drop_last() =~= mapped.subrange(0, k as int));
                    assert(mapped.subrange(0, k + 1).last() == mapped[k as int]);
                }
                if k > 0 {
                    out.append(".");
                }
                let piece = key_str(self.nodes[i].path[k].as_str());
                out.append(piece.as_str());
                proof {
                    if k == 0 {
                        assert(out@ =~= base + "\n[lists."@ + joined(mapped.subrange(0, 1), "."@));
                    } else {
                        assert(out@ =~= base + "\n[lists."@ + joined(
                            mapped.subrange(0, k + 1),
                            "."@,
                        ));
                    }
                }
                k += 1;
            }
            proof {
                assert(mapped.subrange(0, mapped.len() as int) =~= mapped);
            }
            out.append("]\n");
            let ghost cr = n.crates;
            if self.nodes[i].crates.len() > 0 {
                out.append("crates = [");
                let ghost mc = cr.map_values(|w: Seq<char>| quoted(w));
                let ghost base2 = out@;
                let mut j: usize = 0;
                while j < self.nodes[i].crates.len()
                    invariant
                        i < self.nodes@.len(),
                        s == self@.nodes,
                        n == s[i as int],
                        cr == n.crates,
                        mc == cr.map_values(|w: Seq<char>| quoted(w)),
                        mc.len() == self.nodes@[i as int].crates@.len(),
                        j <= self.nodes@[i as int].crates@.len(),
                        out@ == base2 + joined(mc.subrange(0, j as int), ", "@),
                    decreases self.nodes@[i as int].crates@.len() - j,
                {
                    proof {
                        assert(mc.subrange(0, j + 1).drop_last() =~= mc.subrange(0, j as int));
                        assert(mc.subrange(0, j + 1).last() == mc[j as int]);
                    }
                    if j > 0 {
                        out.append(", ");
                    }
                    let piece = quote_str(self.nodes[i].crates[j].as_str());
                    out.append(piece.as_str());
                    proof {
                        if j == 0 {
                            assert(out@ =~= base2 + joined(mc.subrange(0, 1), ", "@));
                        } else {
                            assert(out@ =~= base2 + joined(mc.subrange(0, j + 1), ", "@));
                        }
                    }
                    j += 1;
                }
                proof {
                    assert(mc.subrange(0, mc.len() as int) =~= mc);
                }
                out.append("]\n");
            }
            match &self.nodes[i].description {
                Some(d) => {
                    out.append("description = ");
                    let piece = quote_str(d.as_str());
                    out.append(piece.as_str());
                    out.append("\n");
                },
                None => {},
            }
            proof {
                assert(out@ =~= base + node_text(n));
                assert(out@ =~= "[lists]\n"@ + nodes_text(s, i + 1));
            }
            i += 1;
        }
        out
    }
}

#[verifier::external_type_specification]
#[verifier::external_body]
pub struct ExDocumentMut(toml_edit::DocumentMut);

#[verifier::external_type_specification]
#[verifier::external_body]
pub struct ExTomlTable(toml_edit::Table);

/// Whether a text is a well-formed TOML document: the name for what
/// `toml_edit::DocumentMut`'s parser decides, a function of the text
/// alone.
pub uninterp spec fn toml_ok(s: Seq<char>) -> bool;

/// Relies on `toml_edit::DocumentMut`'s `FromStr` parser: it succeeds
/// exactly on well-formed TOML, named [`toml_ok`], and fails with the
/// parser's message otherwise. What a parsed document holds depends on
/// the text in ways no short statement covers, so nothing is claimed
/// of it: the loader validates everything it takes from the document.
#[verifier::external_body]
fn parse_document(text: &str) -> (r: Result<toml_edit::DocumentMut, String>)
    ensures
        r.is_ok() == toml_ok(text@),
{
    match text.parse::<toml_edit::DocumentMut>() {
        Ok(d) => Ok(d),
        Err(e) => Err(e.to_string()),
    }
}

/// The keys of a parsed table, in the table's own order: the name for
/// what `toml_edit::Table::iter` hands out, a function of the table
/// value alone.
pub uninterp spec fn table_keys_of(t: toml_edit::Table) -> Seq<Seq<char>>;

/// Whether a key of a parsed table holds a sub-table: the name for
/// what `toml_edit::Table::get` followed by `toml_edit::Item::as_table`
/// decides, a function of the table value and the key alone.
pub uninterp spec fn table_has_table_of(t: toml_edit::Table, key: Seq<char>) -> bool;

/// Relies on `toml_edit::DocumentMut::as_table`, which hands out the
/// document's root table.
#[verifier::external_body]
fn doc_root(doc: &toml_edit::DocumentMut) -> toml_edit::Table {
    doc.as_table().clone()
}

/// Relies on `toml_edit::Table::get` and `toml_edit::Item::as_table`:
/// the sub-table under the key, exactly when the key holds a table —
/// named [`table_has_table_of`]. Of the sub-table's own value nothing
/// is stated.
#[verifier::external_body]
fn table_get_table(t: &toml_edit::Table, key: &str) -> (r: Option<toml_edit::Table>)
    ensures
        r.is_some() == table_has_table_of(*t, key@),
{
    t.get(key).and_then(|i| i.as_table()).cloned()
}

/// Relies on `toml_edit::Table::iter`: the keys of the table, named
/// [`table_keys_of`].
#[verifier::external_body]
fn table_keys(t: &toml_edit::Table) -> (r: Vec<String>)
    ensures
        r.deep_view() == table_keys_of(*t),
{
    t.iter().map(|(k, _)| k.to_string()).collect()
}

/// Relies on `toml_edit::Table::get` and `toml_edit::Item::as_str`:
/// the text under the key, if the key holds a string.
#[verifier::external_body]
fn table_get_str(t: &toml_edit::Table, key: &str) -> Option<String> {
    t.get(key).and_then(|i| i.as_str()).map(|s| s.to_string())
}

/// Relies on `toml_edit::Table::get`, `toml_edit::Item::as_array` and
/// `toml_edit::Value::as_str`: the values under the key if it holds an
/// array, each as its text or nothing where a value is no string.
#[verifier::external_body]
fn table_get_str_array(t: &toml_edit::Table, key: &str) -> Option<Vec<Option<String>>> {
    t.get(key).and_then(|i| i.as_array()).map(
        |a| a.iter().map(|v| v.as_str().map(|s| s.to_string())).collect(),
    )
}

/// Replays one table of the parsed document into the store: every
/// sub-table whose key is a usable list name becomes a list — the
/// contract owes exactly that, per level — with its entries and its
/// own sub-tables in turn. At depth zero, beyond the nesting cap,
/// nothing is taken. No list ever disappears.
fn absorb_table(l: &mut Lists, t: &toml_edit::Table, path: &Vec<String>, depth: usize)
    requires
        wf(old(l)@),
        path.deep_view().len() == 0 || valid_path(path.deep_view()),
    ensures
        wf(final(l)@),
        forall|q: Seq<Seq<char>>| #[trigger]
            contains_path(old(l)@, q) ==> contains_path(final(l)@, q),
        depth == 0 ==> final(l)@ == old(l)@,
        depth >= 1 ==> forall|k: Seq<char>|
            #![trigger table_has_table_of(*t, k)]
            table_keys_of(*t).contains(k) && valid_component(k) && table_has_table_of(*t, k)
                ==> contains_path(final(l)@, path.deep_view().push(k)),
    decreases depth, 0int,
{
    if depth == 0 {
        return ;
    }
    let ghost m0 = l@;
    let ghost pd = path.deep_view();
    let keys = table_keys(t);
    let ghost keysd = keys.deep_view();
    let mut ki: usize = 0;
    while ki < keys.len()
        invariant
            wf(l@),
            depth >= 1,
            m0 == old(l)@,
            pd == path.deep_view(),
            pd.len() == 0 || valid_path(pd),
            keysd == keys.deep_view(),
            keysd == table_keys_of(*t),
            ki <= keys@.len(),
            forall|q: Seq<Seq<char>>| #[trigger] contains_path(m0, q) ==> contains_path(l@, q),
            forall|j: int|
                #![trigger keysd[j]]
                0 <= j < ki && valid_component(keysd[j]) && table_has_table_of(*t, keysd[j])
                    ==> contains_path(l@, pd.push(keysd[j])),
        decreases keys@.len() - ki,
    {
        let ghost m_it = l@;
        let key = &keys[ki];
        proof {
            assert(keysd[ki as int] == key@);
        }
        if is_valid_component(key.as_str()) {
            match table_get_table(t, key.as_str()) {
                Some(child) => {
                    let mut cpath = clone_path(path);
                    cpath.push(key.clone());
                    proof {
                        assert(cpath.deep_view() =~= pd.push(key@));
                        assert(valid_path(cpath.deep_view()));
                    }
                    absorb_child(l, &child, &cpath, depth - 1);
                    proof {
                        assert(contains_path(l@, pd.push(key@)));
                    }
                },
                None => {},
            }
        }
        ki += 1;
    }
    proof {
        assert forall|k: Seq<char>|
            table_keys_of(*t).contains(k) && valid_component(k) && table_has_table_of(
                *t,
                k,
            ) implies contains_path(l@, pd.push(k)) by {
            let j = choose|j: int| 0 <= j < keysd.len() && keysd[j] == k;
        }
    }
}

/// Replays one list's table into the store: the list is created, with
/// any missing ancestors, its `crates` and `description` entries are
/// taken over, and its own sub-tables follow through
/// [`absorb_table`]. The list is contained afterwards, and no other
/// list disappears.
fn absorb_child(l: &mut Lists, child: &toml_edit::Table, cpath: &Vec<String>, depth: usize)
    requires
        wf(old(l)@),
        valid_path(cpath.deep_view()),
    ensures
        wf(final(l)@),
        forall|q: Seq<Seq<char>>| #[trigger]
            contains_path(old(l)@, q) ==> contains_path(final(l)@, q),
        contains_path(final(l)@, cpath.deep_view()),
    decreases depth, 1int,
{
    let ghost m0 = l@;
    let ghost cpd = cpath.deep_view();
    l.create_at(cpath, false);
    proof {
        lemma_new_monotone(m0, cpd);
    }
    match table_get_str_array(child, "crates") {
        Some(arr) => {
            let ghost m1 = l@;
            let mut vi: usize = 0;
            while vi < arr.len()
                invariant
                    wf(l@),
                    vi <= arr@.len(),
                    cpd == cpath.deep_view(),
                    valid_path(cpd),
                    forall|q: Seq<Seq<char>>| #[trigger]
                        contains_path(m1, q) ==> contains_path(l@, q),
                decreases arr@.len() - vi,
            {
                match &arr[vi] {
                    Some(name) => {
                        let ghost before = l@;
                        l.add_at(cpath, name.as_str());
                        proof {
                            lemma_idx_of(before.nodes, cpd);
                            assert(forall|k: int|
                                0 <= k < before.nodes.len() ==> (#[trigger] before.nodes[k].path)
                                    == l@.nodes[k].path);
                            lemma_contains_same_paths(before, l@);
                        }
                    },
                    None => {},
                }
                vi += 1;
            }
        },
        None => {},
    }
    match table_get_str(child, "description") {
        Some(d) => {
            let ghost before = l@;
            l.describe_at(cpath, d.as_str());
            proof {
                lemma_idx_of(before.nodes, cpath.deep_view());
                assert(forall|k: int|
                    0 <= k < before.nodes.len() ==> (#[trigger] before.nodes[k].path)
                        == l@.nodes[k].path);
                lemma_contains_same_paths(before, l@);
            }
        },
        None => {},
    }
    absorb_table(l, child, cpath, depth);
}

/// Loads a store from the text of a configuration document: loading
/// succeeds exactly on well-formed TOML, and fails with the parser's
/// message otherwise. From well-formed TOML the loader takes every
/// list table it recognizes — [`absorb_table`]'s contract owes each
/// level's lists — so the store is well-formed whatever the file
/// held. Which tables the parsed document holds for a given text
/// stays with the trusted parser, and is pinned down by tests.
pub fn from_toml(text: &str) -> (r: Result<Lists, String>)
    ensures
        r.is_ok() == toml_ok(text@),
        match r {
            Ok(l) => wf(l@),
            Err(_) => true,
        },
{
    let mut l = Lists::empty();
    let doc = match parse_document(text) {
        Ok(d) => d,
        Err(e) => {
            return Err(e);
        },
    };
    let root = doc_root(&doc);
    match table_get_table(&root, "lists") {
        Some(ltab) => {
            let empty_path: Vec<String> = Vec::new();
            proof {
                assert(empty_path.deep_view() =~= Seq::<Seq<char>>::empty());
            }
            l.create_at(&empty_path, false);
            absorb_table(&mut l, &ltab, &empty_path, MAX_NESTING);
        },
        None => {},
    }
    Ok(l)
}

} // verus!
