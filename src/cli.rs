//! The commands the tool offers, its saved settings, and the option
//! arguments of the `option` command.
use vstd::prelude::*;
use crate::steam_apps::List;
use crate::overrides::pairs_view;

verus! {

/// The commands of the tool.
pub enum Commands {
    /// List or diff the add-ons of one side.
    List(List),
    /// Copy these add-ons from the client to the server and enable them.
    Sync { ids: Vec<usize> },
    /// Delete these add-ons from the client's roots or the server's, and drop
    /// their overrides.
    Remove { ids: Vec<usize>, client: bool },
    /// Set options of an add-on (`k=v,k2=v2`), then show its options.
    Option { id: usize, args: Option<String>, all: bool },
}

/// The saved settings: the base path of the game's applications and the
/// base path of its save data.
pub struct Config {
    pub steam_apps: String,
    pub save: String,
}

impl Default for Config {
    fn default() -> (r: Config)
        ensures
            r.steam_apps@.len() == 0,
            r.save@.len() == 0,
    {
        Config { steam_apps: String::new(), save: String::new() }
    }
}

/// The position of the first `c` in `s`, or -1.
pub open spec fn first_of(s: Seq<char>, c: char) -> int
    decreases s.len(),
{
    if s.len() == 0 {
        -1
    } else if s[0] == c {
        0
    } else {
        let r = first_of(s.drop_first(), c);
        if r < 0 { -1 } else { r + 1 }
    }
}

/// One `key=value` argument: the text before the first `=` and the text up
/// to the next `=` after it; `None` without an `=`.
pub open spec fn pair_of(s: Seq<char>) -> Option<(Seq<char>, Seq<char>)> {
    let e = first_of(s, '=');
    if e < 0 || e >= s.len() {
        None
    } else {
        let rest = s.subrange(e + 1, s.len() as int);
        let f = first_of(rest, '=');
        Some((s.subrange(0, e), if f < 0 || f > rest.len() { rest } else { rest.subrange(0, f) }))
    }
}

/// The pairs of a comma-separated list of `key=value` arguments; `None`
/// where one of them has no `=`.
pub open spec fn option_pairs(s: Seq<char>) -> Option<Seq<(Seq<char>, Seq<char>)>>
    decreases s.len(),
{
    let c = first_of(s, ',');
    if c < 0 || c >= s.len() {
        match pair_of(s) {
            Some(p) => Some(seq![p]),
            None => None,
        }
    } else {
        match (pair_of(s.subrange(0, c)), option_pairs(s.subrange(c + 1, s.len() as int))) {
            (Some(p), Some(rest)) => Some(seq![p] + rest),
            _ => None,
        }
    }
}

proof fn lemma_first_of_is(s: Seq<char>, c: char, k: int)
    requires
        -1 <= k < s.len(),
        k >= 0 ==> s[k] == c,
        forall|j: int| 0 <= j < s.len() && (k < 0 || j < k) ==> s[j] != c,
    ensures
        first_of(s, c) == k,
    decreases s.len(),
{
    if s.len() > 0 && k != 0 {
        assert(s[0] != c);
        assert forall|j: int| 0 <= j < s.drop_first().len() && (k - 1 < 0 || j < k - 1) implies s.drop_first()[j] != c by {
            assert(s.drop_first()[j] == s[j + 1]);
        }
        if k > 0 {
            assert(s.drop_first()[k - 1] == s[k]);
            lemma_first_of_is(s.drop_first(), c, k - 1);
        } else {
            lemma_first_of_is(s.drop_first(), c, -1);
        }
    }
}

/// The first position at or after `from` where `s` holds `c`, or its length.
fn find_char(s: &str, n: usize, c: char, from: usize) -> (r: usize)
    requires
        n == s@.len(),
        from <= n,
    ensures
        from <= r <= n,
        r < n ==> s@[r as int] == c,
        forall|j: int| from <= j < r ==> s@[j] != c,
        first_of(s@.subrange(from as int, n as int), c) == if r < n { r - from } else { -1 },
{
    let mut i = from;
    while i < n && s.get_char(i) != c
        invariant
            from <= i <= n,
            n == s@.len(),
            forall|j: int| from <= j < i ==> s@[j] != c,
        decreases n - i,
    {
        i = i + 1;
    }
    proof {
        let t = s@.subrange(from as int, n as int);
        if i < n {
            lemma_first_of_is(t, c, i - from);
        } else {
            lemma_first_of_is(t, c, -1);
        }
    }
    i
}

fn read_pair(s: &str, n: usize, start: usize, end: usize) -> (r: Option<(String, String)>)
    requires
        n == s@.len(),
        start <= end <= n,
    ensures
        match pair_of(s@.subrange(start as int, end as int)) {
            Some((k, v)) => r matches Some(p) && p.0@ == k && p.1@ == v,
            None => r is None,
        },
{
    let ghost t = s@.subrange(start as int, end as int);
    let piece = s.substring_char(start, end);
    let m = end - start;
    assert(piece@ == t);
    let e = find_char(piece, m, '=', 0);
    assert(piece@.subrange(0, m as int) =~= t);
    if e == m {
        return None;
    }
    let f = find_char(piece, m, '=', e + 1);
    let key = String::from_str(piece.substring_char(0, e));
    let value = String::from_str(piece.substring_char(e + 1, f));
    proof {
        let rest = t.subrange(e + 1, m as int);
        assert(piece@.subrange(e + 1, m as int) =~= rest);
        if f < m {
            assert(rest.subrange(0, f - e - 1) =~= t.subrange(e + 1, f as int));
        } else {
            assert(rest =~= t.subrange(e + 1, f as int));
        }
    }
    Some((key, value))
}

/// Reads the `key=value,key=value` argument of the `option` command; `None`
/// where an argument has no `=`.
pub fn parse_option_args(s: &str) -> (r: Option<Vec<(String, String)>>)
    ensures
        match option_pairs(s@) {
            Some(p) => r matches Some(v) && pairs_view(v@) == p,
            None => r is None,
        },
{
    let n = s.unicode_len();
    let mut out: Vec<(String, String)> = Vec::new();
    let mut start: usize = 0;
    assert(s@.subrange(0, n as int) =~= s@);
    assert(pairs_view(out@) =~= Seq::<(Seq<char>, Seq<char>)>::empty());
    loop
        invariant
            n == s@.len(),
            start <= n,
            option_pairs(s@) == match option_pairs(s@.subrange(start as int, n as int)) {
                Some(rest) => Some(pairs_view(out@) + rest),
                None => None::<Seq<(Seq<char>, Seq<char>)>>,
            },
        decreases n - start,
    {
        let ghost t = s@.subrange(start as int, n as int);
        let c = find_char(s, n, ',', start);
        let ghost before = pairs_view(out@);
        if c == n {
            assert(s@.subrange(start as int, c as int) =~= t);
            match read_pair(s, n, start, n) {
                Some(p) => {
                    let ghost pv = (p.0@, p.1@);
                    out.push(p);
                    assert(pairs_view(out@) =~= before + seq![pv]);
                    return Some(out);
                },
                None => return None,
            }
        }
        assert(t.subrange(0, c - start) =~= s@.subrange(start as int, c as int));
        assert(t.subrange(c - start + 1, t.len() as int) =~= s@.subrange(c + 1, n as int));
        match read_pair(s, n, start, c) {
            Some(p) => {
                let ghost pv = (p.0@, p.1@);
                out.push(p);
                assert(pairs_view(out@) =~= before.push(pv));
                proof {
                    match option_pairs(s@.subrange(c + 1, n as int)) {
                        Some(rest) => {
                            assert(before + (seq![pv] + rest) =~= pairs_view(out@) + rest);
                        },
                        None => {},
                    }
                }
            },
            None => return None,
        }
        start = c + 1;
    }
}

} // verus!
