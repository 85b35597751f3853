//! Reading Debian control-file lines into the catalog.
use vstd::prelude::*;
use crate::debversion::{VersionRelation, VersionError, chars_of, first_of, last_of, parse_relation, relation_of};
use crate::packages::{Packages, total_alternatives, lemma_total_skip};
use crate::debversion::{parse_version, version_parts, version_valid};

verus! {

pub open spec fn is_key_char(c: char) -> bool {
    ('a' <= c && c <= 'z') || ('A' <= c && c <= 'Z') || ('0' <= c && c <= '9') || c == '_' || c == '-'
}

pub open spec fn is_name_char(c: char) -> bool {
    is_key_char(c) || c == '.' || c == '+'
}

pub open spec fn is_rel_char(c: char) -> bool {
    c == '<' || c == '=' || c == '>'
}

pub open spec fn is_blank(c: char) -> bool {
    c == ' ' || c == '\t'
}

/// End of the run of key characters (`names`: package-name characters) from `i`.
pub open spec fn word_end(s: Seq<char>, i: int, names: bool) -> int
    decreases s.len() - i,
{
    if 0 <= i < s.len() && (if names { is_name_char(s[i]) } else { is_key_char(s[i]) }) {
        word_end(s, i + 1, names)
    } else {
        i
    }
}

/// A field line is `Key: value`, the key a non-empty run of letters, digits,
/// `_` and `-` at the start, the value not empty.
pub open spec fn field_of(line: Seq<char>) -> Option<(Seq<char>, Seq<char>)> {
    let k = word_end(line, 0, false);
    if 0 < k && k + 2 < line.len() && line[k] == ':' && line[k + 1] == ' ' {
        Some((line.take(k), line.skip(k + 2)))
    } else {
        None
    }
}

/// First position at or after `i` that is not blank.
pub open spec fn blank_end(s: Seq<char>, i: int) -> int
    decreases s.len() - i,
{
    if 0 <= i < s.len() && is_blank(s[i]) {
        blank_end(s, i + 1)
    } else {
        i
    }
}

/// Position after the last character before `n` that is not blank.
pub open spec fn blank_start(s: Seq<char>, n: int) -> int
    decreases n,
{
    if 0 < n <= s.len() && is_blank(s[n - 1]) {
        blank_start(s, n - 1)
    } else {
        n
    }
}

/// `s` without leading and trailing spaces and tabs.
pub open spec fn trimmed(s: Seq<char>) -> Seq<char> {
    let a = blank_end(s, 0);
    let b = blank_start(s, s.len() as int);
    if a < b {
        s.subrange(a, b)
    } else {
        Seq::empty()
    }
}

/// The pieces of `s[st..]` between occurrences of `c`.
pub open spec fn split_from(s: Seq<char>, c: char, st: int) -> Seq<Seq<char>>
    decreases s.len() - st,
{
    if st < 0 || st > s.len() {
        Seq::empty()
    } else {
        let k = first_of(s, c, st);
        if k >= s.len() {
            seq![s.subrange(st, s.len() as int)]
        } else {
            proof {
                lemma_first_of_bounds(s, c, st);
            }
            seq![s.subrange(st, k)] + split_from(s, c, k + 1)
        }
    }
}

pub proof fn lemma_first_of_bounds(s: Seq<char>, c: char, i: int)
    requires
        0 <= i <= s.len(),
    ensures
        i <= first_of(s, c, i) <= s.len(),
        first_of(s, c, i) < s.len() ==> s[first_of(s, c, i)] == c,
    decreases s.len() - i,
{
    if i < s.len() && s[i] != c {
        lemma_first_of_bounds(s, c, i + 1);
    }
}

/// One alternative: a package name at the start, optionally followed by
/// ` (op version)`, where the version runs to the last `)`.
pub open spec fn alternative_of(s: Seq<char>) -> Option<(Seq<char>, Option<(Seq<char>, Seq<char>)>)> {
    let e = word_end(s, 0, true);
    if e == 0 {
        None
    } else {
        let name = s.take(e);
        let o = e + 2;
        let oe = if o < s.len() && is_rel_char(s[o]) {
            if o + 1 < s.len() && is_rel_char(s[o + 1]) {
                o + 2
            } else {
                o + 1
            }
        } else {
            o
        };
        let p = last_of(s, ')', s.len() as int);
        if e + 1 < s.len() && s[e] == ' ' && s[e + 1] == '(' && oe > o && oe < s.len() && s[oe] == ' ' && p
            >= oe + 1 {
            Some((name, Some((s.subrange(o, oe), s.subrange(oe + 1, p)))))
        } else {
            Some((name, None))
        }
    }
}

fn is_key_char_exec(c: char, names: bool) -> (r: bool)
    ensures
        r == (if names { is_name_char(c) } else { is_key_char(c) }),
{
    let k = ('a' <= c && c <= 'z') || ('A' <= c && c <= 'Z') || ('0' <= c && c <= '9') || c == '_' || c == '-';
    if names {
        k || c == '.' || c == '+'
    } else {
        k
    }
}

fn word_end_exec(s: &Vec<char>, i: usize, names: bool) -> (r: usize)
    requires
        i <= s@.len(),
    ensures
        r == word_end(s@, i as int, names),
        i <= r <= s@.len(),
{
    let mut k: usize = i;
    while k < s.len() && is_key_char_exec(s[k], names)
        invariant
            i <= k <= s@.len(),
            word_end(s@, k as int, names) == word_end(s@, i as int, names),
        decreases s@.len() - k,
    {
        k = k + 1;
    }
    k
}

/// Splits a field line into key and value.
pub fn parse_field(line: &str) -> (r: Option<(String, String)>)
    ensures
        match field_of(line@) {
            Some((k, v)) => r matches Some((rk, rv)) && rk@ == k && rv@ == v,
            None => r is None,
        },
{
    let cs = chars_of(line);
    let k = word_end_exec(&cs, 0, false);
    if 0 < k && k < cs.len() && cs.len() - k > 2 && cs[k] == ':' && cs[k + 1] == ' ' {
        let key = line.substring_char(0, k);
        let value = line.substring_char(k + 2, cs.len());
        assert(key@ =~= line@.take(k as int));
        assert(value@ =~= line@.skip(k + 2));
        Some((String::from_str(key), String::from_str(value)))
    } else {
        None
    }
}

/// `s` without leading and trailing spaces and tabs.
pub fn trim_blanks(s: &str) -> (r: &str)
    ensures
        r@ == trimmed(s@),
{
    let cs = chars_of(s);
    let n = cs.len();
    let mut a: usize = 0;
    while a < n && (cs[a] == ' ' || cs[a] == '\t')
        invariant
            a <= n == cs@.len(),
            blank_end(cs@, a as int) == blank_end(cs@, 0),
        decreases n - a,
    {
        a = a + 1;
    }
    let mut b: usize = n;
    while b > 0 && (cs[b - 1] == ' ' || cs[b - 1] == '\t')
        invariant
            b <= n == cs@.len(),
            blank_start(cs@, b as int) == blank_start(cs@, n as int),
        decreases b,
    {
        b = b - 1;
    }
    if a < b {
        s.substring_char(a, b)
    } else {
        let e = s.substring_char(0, 0);
        assert(e@ =~= Seq::<char>::empty());
        e
    }
}

/// The pieces of `s` between occurrences of `c`.
pub fn split_on(s: &str, c: char) -> (r: Vec<&str>)
    ensures
        r@.len() == split_from(s@, c, 0).len(),
        forall|i: int| 0 <= i < r@.len() ==> (#[trigger] r@[i])@ == split_from(s@, c, 0)[i],
{
    let cs = chars_of(s);
    let n = cs.len();
    let mut out: Vec<&str> = Vec::new();
    let mut st: usize = 0;
    let mut j: usize = 0;
    loop
        invariant
            n == cs@.len(),
            cs@ == s@,
            st <= j <= n,
            first_of(s@, c, st as int) == first_of(s@, c, j as int),
            out@.map_values(|x: &str| x@) + split_from(s@, c, st as int) == split_from(s@, c, 0),
        decreases n - j, n - st,
    {
        if j == n {
            let piece = s.substring_char(st, n);
            let ghost prev = out@;
            out.push(piece);
            proof {
                assert(out@.map_values(|x: &str| x@) =~= prev.map_values(|x: &str| x@).push(piece@));
                assert(split_from(s@, c, st as int) =~= seq![piece@]);
                assert(out@.map_values(|x: &str| x@) =~= split_from(s@, c, 0));
            }
            assert forall|i: int| 0 <= i < out@.len() implies (#[trigger] out@[i])@ == split_from(s@, c, 0)[i] by {
                assert(out@.map_values(|x: &str| x@)[i] == out@[i]@);
            }
            return out;
        }
        if cs[j] == c {
            let piece = s.substring_char(st, j);
            let ghost prev = out@;
            out.push(piece);
            proof {
                assert(first_of(s@, c, j as int) == j);
                assert(out@.map_values(|x: &str| x@) =~= prev.map_values(|x: &str| x@).push(piece@));
                assert(split_from(s@, c, st as int) =~= seq![piece@] + split_from(s@, c, j + 1));
                assert(out@.map_values(|x: &str| x@) + split_from(s@, c, j + 1) =~= prev.map_values(|x: &str| x@) + split_from(s@, c, st as int));
            }
            st = j + 1;
            j = j + 1;
        } else {
            j = j + 1;
        }
    }
}


/// The trimmed, non-empty pieces of `pieces[i..]`, in order.
pub open spec fn nonempty_trimmed_from(pieces: Seq<Seq<char>>, i: int) -> Seq<Seq<char>>
    decreases pieces.len() - i,
{
    if i < 0 || i >= pieces.len() {
        Seq::empty()
    } else if trimmed(pieces[i]).len() > 0 {
        seq![trimmed(pieces[i])] + nonempty_trimmed_from(pieces, i + 1)
    } else {
        nonempty_trimmed_from(pieces, i + 1)
    }
}

/// The dependency groups of a `Depends` value: its comma-separated pieces,
/// trimmed, the empty ones left out.
pub open spec fn dep_groups(value: Seq<char>) -> Seq<Seq<char>> {
    nonempty_trimmed_from(split_from(value, ',', 0), 0)
}

/// The alternatives of the trimmed pieces of `pieces[i..]` that read as alternatives.
pub open spec fn alternatives_from(pieces: Seq<Seq<char>>, i: int) -> Seq<(Seq<char>, Option<(Seq<char>, Seq<char>)>)>
    decreases pieces.len() - i,
{
    if i < 0 || i >= pieces.len() {
        Seq::empty()
    } else {
        match alternative_of(trimmed(pieces[i])) {
            Some(a) => seq![a] + alternatives_from(pieces, i + 1),
            None => alternatives_from(pieces, i + 1),
        }
    }
}

/// The alternatives of a group: its `|`-separated pieces, trimmed.
pub open spec fn group_alts(group: Seq<char>) -> Seq<(Seq<char>, Option<(Seq<char>, Seq<char>)>)> {
    alternatives_from(split_from(group, '|', 0), 0)
}

/// The written alternative `w` is what `a` reads as.
pub open spec fn read_as(
    w: (String, Option<(VersionRelation, String)>),
    a: (Seq<char>, Option<(Seq<char>, Seq<char>)>),
) -> bool {
    &&& w.0@ == a.0
    &&& match (w.1, a.1) {
        (None, None) => true,
        (Some((op, v)), Some((ops, vs))) => relation_of(ops) == Some(op) && v@ == vs,
        _ => false,
    }
}

pub open spec fn bad_relation(a: (Seq<char>, Option<(Seq<char>, Seq<char>)>)) -> bool {
    match a.1 {
        Some((ops, _)) => relation_of(ops) is None,
        None => false,
    }
}

/// Why a control file was refused.
#[derive(Clone, Copy, Debug, PartialEq, Eq, Structural)]
pub enum ParseError {
    /// A version relation other than `<<`, `<=`, `=`, `>=`, `>>`.
    BadRelation,
    BadVersion(VersionError),
    /// More package names than package numbers.
    TooManyPackages,
}

/// Reads one alternative.
pub fn parse_alternative(s: &str) -> (r: Option<(String, Option<(String, String)>)>)
    ensures
        match alternative_of(s@) {
            Some((name, c)) => r matches Some((rn, rc)) && rn@ == name && match (c, rc) {
                (None, None) => true,
                (Some((o, v)), Some((ro, rv))) => ro@ == o && rv@ == v,
                _ => false,
            },
            None => r is None,
        },
{
    let cs = chars_of(s);
    let n = cs.len();
    let e = word_end_exec(&cs, 0, true);
    if e == 0 {
        return None;
    }
    let name = String::from_str(s.substring_char(0, e));
    assert(name@ =~= s@.take(e as int));
    if !(e < n && n - e > 1 && cs[e] == ' ' && cs[e + 1] == '(') {
        return Some((name, None));
    }
    let o = e + 2;
    let oe: usize = if o < n && (cs[o] == '<' || cs[o] == '=' || cs[o] == '>') {
        if o + 1 < n && (cs[o + 1] == '<' || cs[o + 1] == '=' || cs[o + 1] == '>') {
            o + 2
        } else {
            o + 1
        }
    } else {
        o
    };
    let mut p: usize = n;
    while p > 0 && cs[p - 1] != ')'
        invariant
            p <= n == cs@.len(),
            last_of(cs@, ')', p as int) == last_of(cs@, ')', n as int),
        decreases p,
    {
        p = p - 1;
    }
    // p is one past the last ')', or 0 if there is none
    if oe > o && oe < n && cs[oe] == ' ' && p >= 1 && p - 1 >= oe + 1 {
        let op = String::from_str(s.substring_char(o, oe));
        let ver = String::from_str(s.substring_char(oe + 1, p - 1));
        Some((name, Some((op, ver))))
    } else {
        Some((name, None))
    }
}

/// Reads the alternatives of one group.
fn parse_group(group: &str) -> (r: Result<Vec<(String, Option<(VersionRelation, String)>)>, ParseError>)
    ensures
        match r {
            Ok(v) => v@.len() == group_alts(group@).len() && forall|a: int|
                0 <= a < v@.len() ==> read_as(#[trigger] v@[a], group_alts(group@)[a]),
            Err(e) => e == ParseError::BadRelation && exists|a: int|
                0 <= a < group_alts(group@).len() && bad_relation(#[trigger] group_alts(group@)[a]),
        },
{
    let pieces = split_on(group, '|');
    let ghost ps = split_from(group@, '|', 0);
    let mut out: Vec<(String, Option<(VersionRelation, String)>)> = Vec::new();
    let ghost done: Seq<(Seq<char>, Option<(Seq<char>, Seq<char>)>)> = Seq::empty();
    let mut i: usize = 0;
    while i < pieces.len()
        invariant
            pieces@.len() == ps.len(),
            ps == split_from(group@, '|', 0),
            forall|m: int| 0 <= m < pieces@.len() ==> (#[trigger] pieces@[m])@ == ps[m],
            i <= ps.len(),
            done + alternatives_from(ps, i as int) == group_alts(group@),
            out@.len() == done.len(),
            forall|a: int| 0 <= a < out@.len() ==> read_as(#[trigger] out@[a], done[a]),
        decreases ps.len() - i,
    {
        let piece = trim_blanks(pieces[i]);
        assert(piece@ == trimmed(ps[i as int]));
        match parse_alternative(piece) {
            None => {},
            Some((name, c)) => {
                let ghost a = alternative_of(piece@)->Some_0;
                let rel = match c {
                    None => None,
                    Some((ops, vs)) => match parse_relation(ops.as_str()) {
                        Some(op) => Some((op, vs)),
                        None => {
                            proof {
                                assert(bad_relation(a));
                                assert(group_alts(group@)[done.len() as int] == a);
                            }
                            return Err(ParseError::BadRelation);
                        },
                    },
                };
                out.push((name, rel));
                proof {
                    assert(seq![a] + alternatives_from(ps, i + 1) == alternatives_from(ps, i as int));
                    assert(done + seq![a] + alternatives_from(ps, i + 1) =~= done + alternatives_from(ps, i as int));
                    done = done.push(a);
                }
            },
        }
        i = i + 1;
    }
    assert(done =~= group_alts(group@));
    Ok(out)
}

/// Reads a `Depends` value: comma-separated groups of `|`-separated alternatives.
pub fn parse_depends(value: &str) -> (r: Result<Vec<Vec<(String, Option<(VersionRelation, String)>)>>, ParseError>)
    ensures
        match r {
            Ok(v) => v@.len() == dep_groups(value@).len() && forall|g: int|
                0 <= g < v@.len() ==> (#[trigger] v@[g])@.len() == group_alts(dep_groups(value@)[g]).len()
                    && forall|a: int|
                    0 <= a < v@[g]@.len() ==> read_as(#[trigger] v@[g]@[a], group_alts(dep_groups(value@)[g])[a]),
            Err(e) => e == ParseError::BadRelation && exists|g: int, a: int|
                0 <= g < dep_groups(value@).len() && 0 <= a < group_alts(dep_groups(value@)[g]).len()
                    && bad_relation(#[trigger] group_alts(dep_groups(value@)[g])[a]),
        },
{
    let pieces = split_on(value, ',');
    let ghost ps = split_from(value@, ',', 0);
    let mut out: Vec<Vec<(String, Option<(VersionRelation, String)>)>> = Vec::new();
    let ghost done: Seq<Seq<char>> = Seq::empty();
    let mut i: usize = 0;
    while i < pieces.len()
        invariant
            pieces@.len() == ps.len(),
            ps == split_from(value@, ',', 0),
            forall|m: int| 0 <= m < pieces@.len() ==> (#[trigger] pieces@[m])@ == ps[m],
            i <= ps.len(),
            done + nonempty_trimmed_from(ps, i as int) == dep_groups(value@),
            out@.len() == done.len(),
            forall|g: int| 0 <= g < out@.len() ==> (#[trigger] out@[g])@.len() == group_alts(done[g]).len()
                && forall|a: int| 0 <= a < out@[g]@.len() ==> read_as(#[trigger] out@[g]@[a], group_alts(done[g])[a]),
        decreases ps.len() - i,
    {
        let piece = trim_blanks(pieces[i]);
        assert(piece@ == trimmed(ps[i as int]));
        if piece.unicode_len() > 0 {
            let alts = match parse_group(piece) {
                Ok(a) => a,
                Err(e) => {
                    proof {
                        assert(dep_groups(value@)[done.len() as int] == piece@);
                    }
                    return Err(e);
                },
            };
            let ghost prev = out@;
            out.push(alts);
            proof {
                assert(seq![piece@] + nonempty_trimmed_from(ps, i + 1) == nonempty_trimmed_from(ps, i as int));
                assert(done + seq![piece@] + nonempty_trimmed_from(ps, i + 1) =~= done + nonempty_trimmed_from(ps, i as int));
                done = done.push(piece@);
                assert forall|g: int| 0 <= g < out@.len() implies (#[trigger] out@[g])@.len() == group_alts(done[g]).len()
                    && forall|a: int| 0 <= a < out@[g]@.len() ==> read_as(#[trigger] out@[g]@[a], group_alts(done[g])[a]) by {
                    if g < prev.len() {
                        assert(out@[g] == prev[g]);
                    }
                }
            }
        }
        i = i + 1;
    }
    assert(done =~= dep_groups(value@));
    Ok(out)
}


/// The package a line names, if it is a `Package` field.
pub open spec fn package_field(line: Seq<char>) -> Option<Seq<char>> {
    match field_of(line) {
        Some((k, v)) => if k == "Package"@ {
            Some(v)
        } else {
            None
        },
        None => None,
    }
}

/// A status-file line that cannot be taken: a `Version` field whose value
/// is not a well-formed version.
pub open spec fn bad_version_line(line: Seq<char>) -> bool {
    match field_of(line) {
        Some((k, v)) => k == "Version"@ && !version_valid(trimmed(v)),
        None => false,
    }
}

/// An index line that may be refused: a `Package`, `Version` or `Depends` field.
pub open spec fn checked_index_line(line: Seq<char>) -> bool {
    match field_of(line) {
        Some((k, v)) => k == "Package"@ || k == "Version"@ || k == "Depends"@,
        None => false,
    }
}

/// Counts the alternatives of `deps`, if the count is below `limit`.
fn count_alternatives(deps: &Vec<Vec<(String, Option<(VersionRelation, String)>)>>, limit: usize) -> (r: Option<usize>)
    ensures
        match r {
            Some(c) => c == total_alternatives(deps@) && c < limit,
            None => total_alternatives(deps@) >= limit,
        },
{
    if limit == 0 {
        return None;
    }
    let mut c: usize = 0;
    let mut i: usize = deps.len();
    assert(deps@.skip(deps@.len() as int) =~= Seq::empty());
    while i > 0
        invariant
            i <= deps@.len(),
            c == total_alternatives(deps@.skip(i as int)),
            c < limit,
        decreases i,
    {
        i = i - 1;
        proof {
            lemma_total_skip(deps@, i as int);
        }
        if deps[i].len() >= limit - c {
            proof {
                lemma_total_prefix_bound(deps@, i as int);
            }
            return None;
        }
        c = c + deps[i].len();
    }
    assert(deps@.skip(0) =~= deps@);
    Some(c)
}

proof fn lemma_total_prefix_bound(deps: Seq<Vec<(String, Option<(VersionRelation, String)>)>>, i: int)
    requires
        0 <= i <= deps.len(),
    ensures
        total_alternatives(deps) >= total_alternatives(deps.skip(i)),
    decreases i,
{
    if i > 0 {
        lemma_total_prefix_bound(deps, i - 1);
        lemma_total_skip(deps, i - 1);
    } else {
        assert(deps.skip(0) =~= deps);
    }
}

impl Packages {
    /// Applies one line of a status file: `Package` names the current package,
    /// `Version` records the version installed of the current package.
    pub fn parse_installed_line(&mut self, current: Option<usize>, line: &str) -> (r: Result<Option<usize>, ParseError>)
        requires
            old(self).wf(),
            current matches Some(p) ==> p < old(self).num_packages(),
        ensures
            final(self).wf(),
            old(self).extends(&*final(self)),
            r is Err ==> bad_version_line(line@) || old(self).num_packages() == usize::MAX,
            r matches Ok(Some(p)) ==> p < final(self).num_packages(),
            match field_of(line@) {
                Some((k, v)) => if k == "Package"@ {
                    r is Err || (r == Ok::<Option<usize>, ParseError>(Some(final(self).num_of(v))) && final(self).knows(v))
                } else if k == "Version"@ && current is Some {
                    &&& (r is Err <==> !version_valid(trimmed(v)))
                    &&& r is Ok ==> r == Ok::<Option<usize>, ParseError>(current) && match final(self).installed_debvers@[current->Some_0 as int] {
                        Some(iv) => iv.text@ == trimmed(v) && iv.parts() == version_parts(trimmed(v)),
                        None => false,
                    }
                } else {
                    r == Ok::<Option<usize>, ParseError>(current) && *final(self) == *old(self)
                },
                None => r == Ok::<Option<usize>, ParseError>(current) && *final(self) == *old(self),
            },
    {
        let (key, value) = match parse_field(line) {
            Some(f) => f,
            None => {
                return Ok(current);
            },
        };
        proof {
            reveal_strlit("Package");
            reveal_strlit("Version");
        }
        if key == String::from_str("Package") {
            if self.package_names.len() == usize::MAX {
                return Err(ParseError::TooManyPackages);
            }
            return Ok(Some(self.get_package_num_inserting(value.as_str())));
        }
        if key == String::from_str("Version") {
            if let Some(p) = current {
                let v = match parse_version(trim_blanks(value.as_str())) {
                    Ok(v) => v,
                    Err(e) => {
                        return Err(ParseError::BadVersion(e));
                    },
                };
                let ghost before = *self;
                self.installed_debvers.set(p, Some(v));
                proof {
                    assert forall|i: int| 0 <= i < self.num_packages() implies match #[trigger] self.dependencies@[i] {
                        Some(d) => crate::packages::deps_in_range(d@, self.num_packages()),
                        None => true,
                    } by {
                        assert(before.dependencies@[i] == self.dependencies@[i]);
                    }
                }
                return Ok(current);
            }
        }
        Ok(current)
    }

    /// Reads the lines of a status file: the installed version of each package.
    pub fn parse_installed(&mut self, lines: &Vec<String>) -> (r: Result<(), ParseError>)
        requires
            old(self).wf(),
        ensures
            final(self).wf(),
            old(self).extends(&*final(self)),
            r is Err ==> final(self).num_packages() >= usize::MAX || exists|i: int|
                0 <= i < lines@.len() && bad_version_line(#[trigger] lines@[i]@),
            r is Ok ==> forall|i: int| 0 <= i < lines@.len() && (#[trigger] package_field(lines@[i]@)) is Some ==> final(self).knows(package_field(lines@[i]@)->Some_0),
    {
        let mut current: Option<usize> = None;
        let mut i: usize = 0;
        while i < lines.len()
            invariant
                self.wf(),
                old(self).extends(&*self),
                i <= lines@.len(),
                current matches Some(p) ==> p < self.num_packages(),
                forall|m: int| 0 <= m < i && (#[trigger] package_field(lines@[m]@)) is Some ==> self.knows(package_field(lines@[m]@)->Some_0),
            decreases lines@.len() - i,
        {
            let ghost before = *self;
            current = match self.parse_installed_line(current, lines[i].as_str()) {
                Ok(c) => c,
                Err(e) => {
                    assert(bad_version_line(lines@[i as int]@) || before.num_packages() == usize::MAX);
                    return Err(e);
                },
            };
            proof {
                assert forall|m: int| 0 <= m < i + 1 && (#[trigger] package_field(lines@[m]@)) is Some implies self.knows(package_field(lines@[m]@)->Some_0) by {
                    if m < i {
                        assert(before.knows(package_field(lines@[m]@)->Some_0));
                    }
                }
            }
            i = i + 1;
        }
        Ok(())
    }

    /// Applies one line of a package index: `Package` names the current
    /// package, `Version`, `MD5sum` and `Depends` are recorded for it.
    pub fn parse_packages_line(&mut self, current: Option<usize>, line: &str) -> (r: Result<Option<usize>, ParseError>)
        requires
            old(self).wf(),
            current matches Some(p) ==> p < old(self).num_packages(),
        ensures
            final(self).wf(),
            old(self).extends(&*final(self)),
            r is Err ==> checked_index_line(line@),
            r matches Ok(Some(p)) ==> p < final(self).num_packages(),
            match field_of(line@) {
                Some((k, v)) => if k == "Package"@ {
                    r is Err || (r == Ok::<Option<usize>, ParseError>(Some(final(self).num_of(v))) && final(self).knows(v))
                } else if k == "Version"@ && current is Some {
                    &&& (r is Err <==> !version_valid(trimmed(v)))
                    &&& r is Ok ==> r == Ok::<Option<usize>, ParseError>(current) && match final(self).available_debvers@[current->Some_0 as int] {
                        Some(av) => av.text@ == trimmed(v) && av.parts() == version_parts(trimmed(v)),
                        None => false,
                    }
                } else if k == "MD5sum"@ && current is Some {
                    r == Ok::<Option<usize>, ParseError>(current) && match final(self).md5sums@[current->Some_0 as int] {
                        Some(c) => c@ == v,
                        None => false,
                    }
                } else if k == "Depends"@ && current is Some {
                    r is Ok ==> r == Ok::<Option<usize>, ParseError>(current) && match final(self).dependencies@[current->Some_0 as int] {
                        Some(d) => d@.len() == dep_groups(v).len() && forall|g: int|
                            0 <= g < d@.len() ==> (#[trigger] d@[g])@.len() == group_alts(dep_groups(v)[g]).len()
                                && forall|a: int|
                                0 <= a < d@[g]@.len() ==> (#[trigger] d@[g]@[a]).package_num == final(self).num_of(
                                    group_alts(dep_groups(v)[g])[a].0,
                                ),
                        None => false,
                    }
                } else {
                    r == Ok::<Option<usize>, ParseError>(current) && *final(self) == *old(self)
                },
                None => r == Ok::<Option<usize>, ParseError>(current) && *final(self) == *old(self),
            },
    {
        let (key, value) = match parse_field(line) {
            Some(f) => f,
            None => {
                return Ok(current);
            },
        };
        proof {
            reveal_strlit("Package");
            reveal_strlit("Version");
            reveal_strlit("MD5sum");
            reveal_strlit("Depends");
        }
        if key == String::from_str("Package") {
            if self.package_names.len() == usize::MAX {
                return Err(ParseError::TooManyPackages);
            }
            return Ok(Some(self.get_package_num_inserting(value.as_str())));
        }
        let p = match current {
            Some(p) => p,
            None => {
                return Ok(current);
            },
        };
        let ghost before = *self;
        if key == String::from_str("Version") {
            let v = match parse_version(trim_blanks(value.as_str())) {
                Ok(v) => v,
                Err(e) => {
                    return Err(ParseError::BadVersion(e));
                },
            };
            self.available_debvers.set(p, Some(v));
        } else if key == String::from_str("MD5sum") {
            self.md5sums.set(p, Some(value));
        } else if key == String::from_str("Depends") {
            let deps = parse_depends(value.as_str())?;
            let name = self.package_names[p].clone();
            if self.package_names.len() >= usize::MAX - 1 {
                return Err(ParseError::TooManyPackages);
            }
            let limit = usize::MAX - self.package_names.len() - 1;
            match count_alternatives(&deps, limit) {
                Some(_) => {},
                None => {
                    return Err(ParseError::TooManyPackages);
                },
            }
            match self.record_dependencies(name.as_str(), &deps) {
                Ok(()) => {},
                Err(e) => {
                    return Err(ParseError::BadVersion(e));
                },
            }
            proof {
                assert(before.package_nums@.contains_key(before.package_names@[p as int]@));
                let d = self.deps_of(p as int);
                assert forall|g: int| 0 <= g < d.len() implies (#[trigger] d[g])@.len() == group_alts(
                    dep_groups(value@)[g],
                ).len() && forall|a: int|
                    0 <= a < d[g]@.len() ==> (#[trigger] d[g]@[a]).package_num == self.num_of(
                        group_alts(dep_groups(value@)[g])[a].0,
                    ) by {
                    assert(crate::packages::group_matches(*self, d[g], deps@[g]));
                    assert forall|a: int| 0 <= a < d[g]@.len() implies (#[trigger] d[g]@[a]).package_num == self.num_of(
                        group_alts(dep_groups(value@)[g])[a].0,
                    ) by {
                        assert(crate::packages::alternative_matches(*self, d[g]@[a], deps@[g]@[a]));
                        assert(read_as(deps@[g]@[a], group_alts(dep_groups(value@)[g])[a]));
                    }
                }
            }
            return Ok(current);
        } else {
            return Ok(current);
        }
        proof {
            assert forall|i: int| 0 <= i < self.num_packages() implies match #[trigger] self.dependencies@[i] {
                Some(d) => crate::packages::deps_in_range(d@, self.num_packages()),
                None => true,
            } by {
                assert(before.dependencies@[i] == self.dependencies@[i]);
            }
        }
        Ok(current)
    }

    /// Reads the lines of a package index: available versions, checksums and dependencies.
    pub fn parse_packages(&mut self, lines: &Vec<String>) -> (r: Result<(), ParseError>)
        requires
            old(self).wf(),
        ensures
            final(self).wf(),
            old(self).extends(&*final(self)),
            r is Err ==> exists|i: int| 0 <= i < lines@.len() && checked_index_line(#[trigger] lines@[i]@),
            r is Ok ==> forall|i: int| 0 <= i < lines@.len() && (#[trigger] package_field(lines@[i]@)) is Some ==> final(self).knows(package_field(lines@[i]@)->Some_0),
    {
        let mut current: Option<usize> = None;
        let mut i: usize = 0;
        while i < lines.len()
            invariant
                self.wf(),
                old(self).extends(&*self),
                i <= lines@.len(),
                current matches Some(p) ==> p < self.num_packages(),
                forall|m: int| 0 <= m < i && (#[trigger] package_field(lines@[m]@)) is Some ==> self.knows(package_field(lines@[m]@)->Some_0),
            decreases lines@.len() - i,
        {
            let ghost before = *self;
            current = match self.parse_packages_line(current, lines[i].as_str()) {
                Ok(c) => c,
                Err(e) => {
                    assert(checked_index_line(lines@[i as int]@));
                    return Err(e);
                },
            };
            proof {
                assert forall|m: int| 0 <= m < i + 1 && (#[trigger] package_field(lines@[m]@)) is Some implies self.knows(package_field(lines@[m]@)->Some_0) by {
                    if m < i {
                        assert(before.knows(package_field(lines@[m]@)->Some_0));
                    }
                }
            }
            i = i + 1;
        }
        Ok(())
    }
}

} // verus!
