//! Parsing report text into an update map.  A report line matches when,
//! among its whitespace-separated tokens, some token is exactly `->` with
//! two tokens before it and one after: the two before are the package
//! name and its current version, the one after is the new version.  The
//! earliest such position wins; all other lines are skipped.  Duplicate
//! package names resolve in favour of the lexicographically greater
//! new-version string.

use vstd::prelude::*;
use crate::text::line_at;
use crate::text::line_end;
use crate::text::lines_from;
use crate::text::lines_of;
use crate::text::tokens_of;
use crate::text::tokens_of_spec;
use crate::text::find_line_end;
use crate::text::line_at_exec;
use crate::update_map::upsert;
use crate::update_map::PackageUpdate;
use crate::update_map::UpdateMap;

verus! {

/// The separator token.
pub open spec fn arrow() -> Seq<char> {
    seq!['-', '>']
}

/// The smallest `k' >= k` such that token `k' + 2` is `->` and token
/// `k' + 3` exists.
pub open spec fn find_arrow(ts: Seq<Seq<char>>, k: int) -> Option<int>
    decreases ts.len() - k,
{
    if k < 0 || k + 4 > ts.len() {
        None
    } else if ts[k + 2] == arrow() {
        Some(k)
    } else {
        find_arrow(ts, k + 1)
    }
}

/// The (name, current version, new version) a report line yields, if it
/// matches.
pub open spec fn report_fields(line: Seq<char>) -> Option<(Seq<char>, Seq<char>, Seq<char>)> {
    let ts = tokens_of_spec(line);
    match find_arrow(ts, 0) {
        Some(k) => Some((ts[k], ts[k + 1], ts[k + 3])),
        None => None,
    }
}

/// One line's effect on the accumulated map.
pub open spec fn apply_line(
    m: Map<Seq<char>, (Seq<char>, Seq<char>)>,
    line: Seq<char>,
) -> Map<Seq<char>, (Seq<char>, Seq<char>)> {
    match report_fields(line) {
        Some((name, cur, nv)) => upsert(m, name, (cur, nv)),
        None => m,
    }
}

/// The map the lines of `s` from position `i` on build, starting from
/// `acc`.
pub open spec fn parse_from(
    s: Seq<char>,
    i: int,
    acc: Map<Seq<char>, (Seq<char>, Seq<char>)>,
) -> Map<Seq<char>, (Seq<char>, Seq<char>)>
    decreases s.len() + 1 - i,
        via parse_from_dec
{
    if i < 0 || i >= s.len() {
        acc
    } else {
        parse_from(s, line_end(s, i) + 1, apply_line(acc, line_at(s, i)))
    }
}

#[via_fn]
proof fn parse_from_dec(s: Seq<char>, i: int, acc: Map<Seq<char>, (Seq<char>, Seq<char>)>) {
    if 0 <= i < s.len() {
        crate::text::lemma_line_end(s, i);
    }
}

/// The deduplicated update map a whole report text stands for.
pub open spec fn parse_report(s: Seq<char>) -> Map<Seq<char>, (Seq<char>, Seq<char>)> {
    parse_from(s, 0, Map::empty())
}

/// The fields of one report line, if it matches the pattern.
fn match_report_line(line: &str) -> (r: Option<(String, String, String)>)
    ensures
        match r {
            Some(f) => report_fields(line@) == Some((f.0@, f.1@, f.2@)),
            None => report_fields(line@) is None,
        },
{
    let ts = tokens_of(line);
    let ghost tsv = tokens_of_spec(line@);
    let mut k: usize = 0;
    while ts.len() >= 4 && k <= ts.len() - 4
        invariant
            k <= ts@.len(),
            ts.deep_view() == tsv,
            tsv == tokens_of_spec(line@),
            find_arrow(tsv, 0) == find_arrow(tsv, k as int),
        decreases ts@.len() - k,
    {
        let sep = &ts[k + 2];
        proof {
            assert(sep@ == tsv[k + 2]);
        }
        let sep_is_arrow = sep.as_str().unicode_len() == 2 && sep.as_str().get_char(0) == '-'
            && sep.as_str().get_char(1) == '>';
        if sep_is_arrow {
            proof {
                assert(tsv[k + 2] =~= arrow());
                assert(find_arrow(tsv, k as int) == Some(k as int));
            }
            let name = ts[k].clone();
            let cur = ts[k + 1].clone();
            let nv = ts[k + 3].clone();
            proof {
                assert(name@ == tsv[k as int]);
                assert(cur@ == tsv[k + 1]);
                assert(nv@ == tsv[k + 3]);
            }
            return Some((name, cur, nv));
        }
        proof {
            assert(tsv[k + 2] != arrow());
            assert(find_arrow(tsv, k as int) == find_arrow(tsv, k + 1));
        }
        k += 1;
    }
    proof {
        assert(find_arrow(tsv, k as int) is None);
    }
    None
}

/// Parse a whole report body into a deduplicated update map.
pub fn response_to_hashmap(body: &str) -> (m: UpdateMap)
    ensures
        m.wf(),
        m@ == parse_report(body@),
{
    let n = body.unicode_len();
    let mut m = UpdateMap::new();
    let mut i: usize = 0;
    while i < n
        invariant
            i <= n,
            n == body@.len(),
            m.wf(),
            parse_from(body@, i as int, m@) == parse_report(body@),
        decreases n - i,
    {
        let e = find_line_end(body, i, n);
        let line = line_at_exec(body, i, e);
        let ghost acc0 = m@;
        match match_report_line(line) {
            Some(f) => {
                let (name, cur, nv) = f;
                m.insert_update(name, PackageUpdate { current_version: cur, new_version: nv });
            },
            None => {},
        }
        proof {
            assert(apply_line(acc0, line_at(body@, i as int)) == m@);
            assert(parse_from(body@, i as int, acc0) == parse_from(body@, e + 1, m@));
        }
        if e >= n {
            i = n;
            proof {
                assert(parse_from(body@, e + 1, m@) == m@);
                assert(parse_from(body@, n as int, m@) == m@);
            }
        } else {
            i = e + 1;
        }
    }
    m
}

/// Parsing is a pure function of the report text: equal texts yield
/// equal maps, so parsing the same report twice gives the same result.
pub proof fn lemma_parse_deterministic(a: Seq<char>, b: Seq<char>)
    requires
        a == b,
    ensures
        parse_report(a) == parse_report(b),
{
}

/// A matching line has `->` among its tokens: a line whose tokens lack
/// the separator never produces an entry.
pub proof fn lemma_match_has_arrow_token(line: Seq<char>)
    requires
        report_fields(line) is Some,
    ensures
        exists|j: int|
            0 <= j < tokens_of_spec(line).len() && tokens_of_spec(line)[j] == arrow(),
{
    lemma_find_arrow_some(tokens_of_spec(line), 0);
}

/// When `find_arrow` succeeds, the separator token is where it says.
proof fn lemma_find_arrow_some(ts: Seq<Seq<char>>, k: int)
    requires
        find_arrow(ts, k) is Some,
    ensures
        exists|j: int| 0 <= j < ts.len() && ts[j] == arrow(),
    decreases ts.len() - k,
{
    if k < 0 || k + 4 > ts.len() {
    } else if ts[k + 2] == arrow() {
        assert(0 <= k + 2 < ts.len() && ts[k + 2] == arrow());
    } else {
        lemma_find_arrow_some(ts, k + 1);
    }
}

/// Every entry of the parsed map comes from some input line that matches
/// the three-token pattern, with that entry's name, and the entry's
/// version pair is the pair of one such line.
pub proof fn lemma_retained_entry_has_source(text: Seq<char>, name: Seq<char>)
    requires
        parse_report(text).dom().contains(name),
    ensures
        exists|j: int|
            0 <= j < lines_of(text).len() && report_fields(#[trigger] lines_of(text)[j])
                == Some((name, parse_report(text)[name].0, parse_report(text)[name].1)),
{
    let empty = Map::<Seq<char>, (Seq<char>, Seq<char>)>::empty();
    lemma_parse_from_source(text, 0, empty, name);
    assert(!empty.dom().contains(name));
    let j = choose|j: int|
        0 <= j < lines_from(text, 0).len() && report_fields(#[trigger] lines_from(text, 0)[j])
            == Some((name, parse_from(text, 0, empty)[name].0, parse_from(text, 0, empty)[name].1));
    assert(0 <= j < lines_of(text).len() && report_fields(lines_of(text)[j]) == Some(
        (name, parse_report(text)[name].0, parse_report(text)[name].1),
    ));
}

/// Induction step behind `lemma_retained_entry_has_source`: an entry of
/// the result either was already in the accumulator, unchanged, or is
/// the fields of some remaining matching line.
proof fn lemma_parse_from_source(
    text: Seq<char>,
    i: int,
    acc: Map<Seq<char>, (Seq<char>, Seq<char>)>,
    name: Seq<char>,
)
    requires
        parse_from(text, i, acc).dom().contains(name),
    ensures
        (acc.dom().contains(name) && parse_from(text, i, acc)[name] == acc[name]) || exists|j: int|
            0 <= j < lines_from(text, i).len() && report_fields(#[trigger] lines_from(text, i)[j])
                == Some((name, parse_from(text, i, acc)[name].0, parse_from(text, i, acc)[name].1)),
    decreases text.len() + 1 - i,
{
    if i < 0 || i >= text.len() {
    } else {
        let e = line_end(text, i);
        crate::text::lemma_line_end(text, i);
        let line = line_at(text, i);
        let acc1 = apply_line(acc, line);
        let result = parse_from(text, e + 1, acc1);
        lemma_parse_from_source(text, e + 1, acc1, name);
        if acc1.dom().contains(name) && result[name] == acc1[name] {
            match report_fields(line) {
                Some(f) => {
                    if f.0 == name && acc1[name] == (f.1, f.2) {
                        assert(lines_from(text, i)[0] == line);
                        assert(report_fields(lines_from(text, i)[0]) == Some(
                            (name, result[name].0, result[name].1),
                        ));
                    } else {
                        assert(acc.dom().contains(name) && acc1[name] == acc[name]);
                    }
                },
                None => {
                    assert(acc1 == acc);
                },
            }
        } else {
            let j = choose|j: int|
                0 <= j < lines_from(text, e + 1).len() && report_fields(
                    #[trigger] lines_from(text, e + 1)[j],
                ) == Some((name, result[name].0, result[name].1));
            assert(lines_from(text, i)[j + 1] == lines_from(text, e + 1)[j]);
        }
    }
}

} // verus!
