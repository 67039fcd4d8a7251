//! Extracting the set of installed package names from the output of the
//! local package-query command.  Each output line names one installed
//! package as `name-version`; the name is everything up to the last hyphen
//! that still has part of a version after it.  Lines without such a hyphen
//! contribute nothing.

use vstd::prelude::*;
use crate::order::str_eq;
use crate::text::line_at;
use crate::text::line_end;
use crate::text::tokens_of;
use crate::text::tokens_of_spec;
use crate::text::find_line_end;
use crate::text::line_at_exec;

verus! {

/// The largest position `h' <= h` with `1 <= h'`, `h' <= t.len() - 2` in
/// effect (callers start at `t.len() - 2`), holding a hyphen.
pub open spec fn last_hyphen(t: Seq<char>, h: int) -> Option<int>
    decreases h,
{
    if h < 1 {
        None
    } else if 0 <= h < t.len() && t[h] == '-' {
        Some(h)
    } else {
        last_hyphen(t, h - 1)
    }
}

/// The name part of a `name-version` token: everything before the last
/// hyphen that is neither first nor last in the token.  `None` when the
/// token has no such hyphen.
pub open spec fn hyphen_name(t: Seq<char>) -> Option<Seq<char>> {
    match last_hyphen(t, t.len() - 2) {
        Some(h) => Some(t.subrange(0, h)),
        None => None,
    }
}

/// The name taken from the first token of the list that splits on a
/// hyphen, searching from position `k` on.
pub open spec fn first_name(ts: Seq<Seq<char>>, k: int) -> Option<Seq<char>>
    decreases ts.len() - k,
{
    if k < 0 || k >= ts.len() {
        None
    } else {
        match hyphen_name(ts[k]) {
            Some(n) => Some(n),
            None => first_name(ts, k + 1),
        }
    }
}

/// The installed-package name one query-output line yields, if any.
pub open spec fn installed_name(line: Seq<char>) -> Option<Seq<char>> {
    first_name(tokens_of_spec(line), 0)
}

/// The names collected from the lines of `s` starting at position `i`,
/// added to `acc`.
pub open spec fn installed_from(s: Seq<char>, i: int, acc: Set<Seq<char>>) -> Set<Seq<char>>
    decreases s.len() + 1 - i,
        via installed_from_dec
{
    if i < 0 || i >= s.len() {
        acc
    } else {
        installed_from(
            s,
            line_end(s, i) + 1,
            match installed_name(line_at(s, i)) {
                Some(n) => acc.insert(n),
                None => acc,
            },
        )
    }
}

#[via_fn]
proof fn installed_from_dec(s: Seq<char>, i: int, acc: Set<Seq<char>>) {
    if 0 <= i < s.len() {
        crate::text::lemma_line_end(s, i);
    }
}

/// The set of installed package names a whole query output yields.
pub open spec fn installed_names(s: Seq<char>) -> Set<Seq<char>> {
    installed_from(s, 0, Set::empty())
}

/// A set of package names, backed by a vector without duplicates.
pub struct PackageSet {
    names: Vec<String>,
}

impl View for PackageSet {
    type V = Set<Seq<char>>;

    closed spec fn view(&self) -> Set<Seq<char>> {
        Set::new(|k: Seq<char>| exists|i: int| 0 <= i < self.names@.len() && self.names@[i]@ == k)
    }
}

impl PackageSet {
    /// The empty set.
    pub fn new() -> (s: PackageSet)
        ensures
            s@ == Set::<Seq<char>>::empty(),
    {
        let s = PackageSet { names: Vec::new() };
        proof {
            assert(s@ =~= Set::<Seq<char>>::empty());
        }
        s
    }

    /// Whether `name` is in the set.
    pub fn contains(&self, name: &str) -> (r: bool)
        ensures
            r == self@.contains(name@),
    {
        let mut i: usize = 0;
        while i < self.names.len()
            invariant
                i <= self.names@.len(),
                forall|j: int| 0 <= j < i ==> self.names@[j]@ != name@,
            decreases self.names@.len() - i,
        {
            if str_eq(self.names[i].as_str(), name) {
                return true;
            }
            i += 1;
        }
        false
    }

    /// Add `name` to the set.
    pub fn insert(&mut self, name: String)
        ensures
            final(self)@ == old(self)@.insert(name@),
    {
        if self.contains(name.as_str()) {
            proof {
                assert(final(self)@ =~= old(self)@.insert(name@));
            }
        } else {
            let ghost old_names = self.names@;
            self.names.push(name);
            proof {
                assert forall|k: Seq<char>| final(self)@.contains(k) <==> old(self)@.insert(
                    name@,
                ).contains(k) by {
                    if k == name@ {
                        assert(self.names@[old_names.len() as int]@ == k);
                    } else {
                        if final(self)@.contains(k) {
                            let i = choose|i: int|
                                0 <= i < self.names@.len() && self.names@[i]@ == k;
                            assert(old_names[i]@ == k);
                        }
                        if old(self)@.contains(k) {
                            let i = choose|i: int|
                                0 <= i < old_names.len() && old_names[i]@ == k;
                            assert(self.names@[i]@ == k);
                        }
                    }
                }
                assert(final(self)@ =~= old(self)@.insert(name@));
            }
        }
    }
}

/// The last qualifying hyphen of a token, if any: at least one character
/// before it and at least one after it.
fn find_last_hyphen(t: &str) -> (r: Option<usize>)
    ensures
        match r {
            Some(h) => last_hyphen(t@, t@.len() - 2) == Some(h as int) && 1 <= h && h + 2
                <= t@.len(),
            None => last_hyphen(t@, t@.len() - 2) is None,
        },
{
    let tl = t.unicode_len();
    if tl < 3 {
        return None;
    }
    let mut h = tl - 2;
    while h >= 1
        invariant
            tl == t@.len(),
            3 <= tl,
            0 <= h <= tl - 2,
            last_hyphen(t@, tl - 2) == last_hyphen(t@, h as int),
        decreases h,
    {
        if t.get_char(h) == '-' {
            return Some(h);
        }
        proof {
            assert(last_hyphen(t@, h as int) == last_hyphen(t@, h - 1));
        }
        h -= 1;
    }
    None
}

/// The installed-package name one line of query output yields, if any.
fn match_installed_line(line: &str) -> (r: Option<String>)
    ensures
        match r {
            Some(nm) => installed_name(line@) == Some(nm@),
            None => installed_name(line@) is None,
        },
{
    let ts = tokens_of(line);
    let ghost tsv = tokens_of_spec(line@);
    let mut k: usize = 0;
    while k < ts.len()
        invariant
            k <= ts@.len(),
            ts.deep_view() == tsv,
            tsv == tokens_of_spec(line@),
            first_name(tsv, 0) == first_name(tsv, k as int),
        decreases ts@.len() - k,
    {
        let t = &ts[k];
        proof {
            assert(t@ == tsv[k as int]);
        }
        match find_last_hyphen(t.as_str()) {
            Some(h) => {
                let nm = t.as_str().substring_char(0, h).to_owned();
                proof {
                    assert(hyphen_name(tsv[k as int]) == Some(nm@));
                    assert(first_name(tsv, k as int) == Some(nm@));
                }
                return Some(nm);
            },
            None => {
                proof {
                    assert(hyphen_name(tsv[k as int]) is None);
                    assert(first_name(tsv, k as int) == first_name(tsv, k + 1));
                }
            },
        }
        k += 1;
    }
    None
}

/// Parse the whole package-query output into the set of installed
/// package names.
pub fn installed_from_output(text: &str) -> (s: PackageSet)
    ensures
        s@ == installed_names(text@),
{
    let n = text.unicode_len();
    let mut s = PackageSet::new();
    let mut i: usize = 0;
    while i < n
        invariant
            i <= n,
            n == text@.len(),
            installed_from(text@, i as int, s@) == installed_names(text@),
        decreases n - i,
    {
        let e = find_line_end(text, i, n);
        let line = line_at_exec(text, i, e);
        let ghost acc0 = s@;
        match match_installed_line(line) {
            Some(nm) => {
                s.insert(nm);
            },
            None => {},
        }
        proof {
            assert(installed_from(text@, i as int, acc0) == installed_from(text@, e + 1, s@));
        }
        if e >= n {
            i = n;
            proof {
                assert(installed_from(text@, e + 1, s@) == s@);
                assert(installed_from(text@, n as int, s@) == s@);
            }
        } else {
            i = e + 1;
        }
    }
    s
}

} // verus!
