//! Verified text utilities: string comparison, dotted-path splitting,
//! list-name validation and decimal rendering of counts.

use vstd::prelude::*;

verus! {

/// Compares two string slices by their character sequences.
pub fn str_eq(a: &str, b: &str) -> (r: bool)
    ensures
        r == (a@ == b@),
{
    let na = a.unicode_len();
    let nb = b.unicode_len();
    if na != nb {
        return false;
    }
    let mut i: usize = 0;
    while i < na
        invariant
            na == a@.len(),
            nb == b@.len(),
            na == nb,
            i <= na,
            forall|k: int| 0 <= k < i ==> a@[k] == b@[k],
        decreases na - i,
    {
        if a.get_char(i) != b.get_char(i) {
            return false;
        }
        i += 1;
    }
    proof {
        assert(a@ =~= b@);
    }
    true
}

/// The components obtained by cutting a non-empty text at every dot.
///
/// There is always one component more than there are dots, so a text
/// without dots is a single component, and leading, trailing or doubled
/// dots produce empty components.
pub open spec fn split_dots(s: Seq<char>) -> Seq<Seq<char>>
    decreases s.len(),
{
    if s.len() == 0 {
        seq![Seq::<char>::empty()]
    } else {
        let r = split_dots(s.drop_last());
        if s.last() == '.' {
            r.push(Seq::<char>::empty())
        } else {
            r.update(r.len() - 1, r.last().push(s.last()))
        }
    }
}

pub proof fn lemma_split_dots_len(s: Seq<char>)
    ensures
        split_dots(s).len() >= 1,
    decreases s.len(),
{
    if s.len() > 0 {
        lemma_split_dots_len(s.drop_last());
    }
}

/// The path denoted by a dotted list address: the empty text addresses
/// the root and has no components; any other text is split at dots.
pub open spec fn path_of(s: Seq<char>) -> Seq<Seq<char>> {
    if s.len() == 0 {
        Seq::empty()
    } else {
        split_dots(s)
    }
}

/// Splits a dotted list address into its components.
pub fn split_path(s: &str) -> (r: Vec<String>)
    ensures
        r.deep_view() == path_of(s@),
{
    let n = s.unicode_len();
    let mut out: Vec<String> = Vec::new();
    if n == 0 {
        proof {
            assert(out.deep_view() =~~= path_of(s@));
        }
        return out;
    }
    let mut start: usize = 0;
    let mut i: usize = 0;
    while i < n
        invariant
            n == s@.len(),
            n > 0,
            start <= i <= n,
            split_dots(s@.subrange(0, i as int)) =~~= out.deep_view().push(
                s@.subrange(start as int, i as int),
            ),
        decreases n - i,
    {
        let ghost prefix = s@.subrange(0, i as int);
        let ghost old_out = out.deep_view();
        let ghost cur = s@.subrange(start as int, i as int);
        let c = s.get_char(i);
        proof {
            assert(s@.subrange(0, i + 1) =~= prefix.push(s@[i as int]));
            assert((prefix.push(s@[i as int])).drop_last() =~= prefix);
            assert((prefix.push(s@[i as int])).last() == s@[i as int]);
            lemma_split_dots_len(prefix);
        }
        if c == '.' {
            let comp = s.substring_char(start, i).to_owned();
            out.push(comp);
            start = i + 1;
            proof {
                assert(out.deep_view() =~~= old_out.push(cur));
                assert(split_dots(prefix.push('.')) =~~= out.deep_view().push(
                    Seq::<char>::empty(),
                ));
            }
        } else {
            proof {
                assert(s@.subrange(start as int, i + 1) =~= cur.push(s@[i as int]));
                assert(split_dots(prefix.push(s@[i as int])) =~~= old_out.push(cur.push(
                    s@[i as int],
                )));
            }
        }
        i += 1;
        proof {
            assert(split_dots(s@.subrange(0, i as int)) =~~= out.deep_view().push(
                s@.subrange(start as int, i as int),
            ));
        }
    }
    let ghost last_out = out.deep_view();
    let comp = s.substring_char(start, n).to_owned();
    out.push(comp);
    proof {
        assert(s@.subrange(0, n as int) =~= s@);
        assert(out.deep_view() =~~= last_out.push(s@.subrange(start as int, n as int)));
        assert(out.deep_view() =~~= path_of(s@));
    }
    out
}

/// A usable list-name component: non-empty, free of the dot reserved for
/// nesting, and distinct from the two keys that hold a list's own data.
pub open spec fn valid_component(c: Seq<char>) -> bool {
    &&& c.len() > 0
    &&& (forall|k: int| 0 <= k < c.len() ==> c[k] != '.')
    &&& c != "crates"@
    &&& c != "description"@
}

/// A usable list path: at least one component, every component usable.
pub open spec fn valid_path(p: Seq<Seq<char>>) -> bool {
    &&& p.len() >= 1
    &&& (forall|k: int| 0 <= k < p.len() ==> valid_component(#[trigger] p[k]))
}

/// Decides whether a single name component may be used as a list name.
pub fn is_valid_component(c: &str) -> (r: bool)
    ensures
        r == valid_component(c@),
{
    let n = c.unicode_len();
    if n == 0 {
        return false;
    }
    if str_eq(c, "crates") || str_eq(c, "description") {
        return false;
    }
    let mut i: usize = 0;
    while i < n
        invariant
            n == c@.len(),
            i <= n,
            forall|k: int| 0 <= k < i ==> c@[k] != '.',
        decreases n - i,
    {
        if c.get_char(i) == '.' {
            return false;
        }
        i += 1;
    }
    true
}

/// Decides whether every component of a path may be used as a list name.
pub fn is_valid_path(p: &Vec<String>) -> (r: bool)
    ensures
        r == (p.deep_view().len() >= 1 && valid_path(p.deep_view())),
{
    if p.len() == 0 {
        return false;
    }
    let mut i: usize = 0;
    while i < p.len()
        invariant
            i <= p@.len(),
            forall|k: int| 0 <= k < i ==> valid_component(#[trigger] p.deep_view()[k]),
        decreases p@.len() - i,
    {
        if !is_valid_component(p[i].as_str()) {
            proof {
                assert(p.deep_view()[i as int] == p@[i as int]@);
            }
            return false;
        }
        i += 1;
    }
    true
}

/// The empty string literal has the empty view.
pub proof fn lemma_empty_strlit()
    ensures
        ""@ == Seq::<char>::empty(),
{
    reveal_strlit("");
    assert(""@ =~= Seq::<char>::empty());
}

/// The character that writes a single decimal digit.
pub open spec fn digit_char(d: nat) -> char {
    if d == 0 {
        '0'
    } else if d == 1 {
        '1'
    } else if d == 2 {
        '2'
    } else if d == 3 {
        '3'
    } else if d == 4 {
        '4'
    } else if d == 5 {
        '5'
    } else if d == 6 {
        '6'
    } else if d == 7 {
        '7'
    } else if d == 8 {
        '8'
    } else {
        '9'
    }
}

/// The decimal digits of a number, most significant first.
pub open spec fn dec_digits(n: nat) -> Seq<char>
    decreases n,
{
    if n < 10 {
        seq![digit_char(n)]
    } else {
        dec_digits(n / 10).push(digit_char(n % 10))
    }
}

fn digit_str(d: usize) -> (r: &'static str)
    requires
        d < 10,
    ensures
        r@ =~= seq![digit_char(d as nat)],
{
    match d {
        0 => {
            proof {
                reveal_strlit("0");
            }
            "0"
        },
        1 => {
            proof {
                reveal_strlit("1");
            }
            "1"
        },
        2 => {
            proof {
                reveal_strlit("2");
            }
            "2"
        },
        3 => {
            proof {
                reveal_strlit("3");
            }
            "3"
        },
        4 => {
            proof {
                reveal_strlit("4");
            }
            "4"
        },
        5 => {
            proof {
                reveal_strlit("5");
            }
            "5"
        },
        6 => {
            proof {
                reveal_strlit("6");
            }
            "6"
        },
        7 => {
            proof {
                reveal_strlit("7");
            }
            "7"
        },
        8 => {
            proof {
                reveal_strlit("8");
            }
            "8"
        },
        _ => {
            proof {
                reveal_strlit("9");
            }
            "9"
        },
    }
}

/// Writes a number in decimal.
pub fn dec_str(n: usize) -> (r: String)
    ensures
        r@ == dec_digits(n as nat),
    decreases n,
{
    if n < 10 {
        let r = digit_str(n).to_owned();
        proof {
            assert(r@ =~= dec_digits(n as nat));
        }
        r
    } else {
        let mut r = dec_str(n / 10);
        r.append(digit_str(n % 10));
        proof {
            assert(r@ =~= dec_digits(n as nat));
        }
        r
    }
}

} // verus!
