//! Debian version numbers: parsing and the dpkg ordering.
use vstd::prelude::*;

verus! {

pub open spec fn is_digit(c: char) -> bool {
    '0' <= c && c <= '9'
}

pub open spec fn is_alpha(c: char) -> bool {
    ('a' <= c && c <= 'z') || ('A' <= c && c <= 'Z')
}

/// Weight of a character inside a non-digit run: `~` sorts before everything
/// (even the end of the run), letters before other symbols.
pub open spec fn char_order(c: char) -> int {
    if is_digit(c) {
        0
    } else if is_alpha(c) {
        c as u32 as int
    } else if c == '~' {
        -1
    } else {
        c as u32 as int + 256
    }
}

/// Weight at position `i` of a run that ends at `e`; the end weighs 0.
pub open spec fn order_at(s: Seq<char>, i: int, e: int) -> int {
    if i < e {
        char_order(s[i])
    } else {
        0
    }
}

pub open spec fn sign(x: int) -> int {
    if x < 0 {
        -1
    } else if x > 0 {
        1
    } else {
        0
    }
}

/// End of the run that starts at `i` and holds only digits (`digits`) or only non-digits.
pub open spec fn run_end(s: Seq<char>, i: int, digits: bool) -> int
    decreases s.len() - i,
{
    if 0 <= i < s.len() && is_digit(s[i]) == digits {
        run_end(s, i + 1, digits)
    } else {
        i
    }
}

/// Compares the non-digit runs `a[i..ea]` and `b[j..eb]` character by character.
pub open spec fn lex_cmp(a: Seq<char>, i: int, ea: int, b: Seq<char>, j: int, eb: int) -> int
    decreases (ea - i) + (eb - j),
{
    if i >= ea && j >= eb {
        0
    } else {
        let oa = order_at(a, i, ea);
        let ob = order_at(b, j, eb);
        if oa != ob {
            sign(oa - ob)
        } else if i < ea && j < eb {
            lex_cmp(a, i + 1, ea, b, j + 1, eb)
        } else {
            0
        }
    }
}

/// First position at or after `i` (and before `e`) that does not hold `'0'`.
pub open spec fn zeros_end(s: Seq<char>, i: int, e: int) -> int
    decreases e - i,
{
    if i < e && s[i] == '0' {
        zeros_end(s, i + 1, e)
    } else {
        i
    }
}

/// Sign of the first difference between `a[i..i+n]` and `b[j..j+n]`.
pub open spec fn first_diff(a: Seq<char>, i: int, b: Seq<char>, j: int, n: int) -> int
    decreases n,
{
    if n <= 0 {
        0
    } else if a[i] != b[j] {
        if a[i] < b[j] {
            -1
        } else {
            1
        }
    } else {
        first_diff(a, i + 1, b, j + 1, n - 1)
    }
}

/// Numeric comparison of the digit runs `a[i..ea]` and `b[j..eb]`.
pub open spec fn digits_cmp(a: Seq<char>, i: int, ea: int, b: Seq<char>, j: int, eb: int) -> int {
    let za = zeros_end(a, i, ea);
    let zb = zeros_end(b, j, eb);
    if ea - za != eb - zb {
        sign((ea - za) - (eb - zb))
    } else {
        first_diff(a, za, b, zb, ea - za)
    }
}

/// The dpkg ordering of `a[i..]` and `b[j..]`: alternate non-digit runs, compared
/// by `char_order`, and digit runs, compared as numbers. Result is -1, 0 or 1.
pub open spec fn vcmp_from(a: Seq<char>, i: int, b: Seq<char>, j: int) -> int
    decreases (a.len() - i) + (b.len() - j),
{
    if !(0 <= i <= a.len() && 0 <= j <= b.len()) || (i == a.len() && j == b.len()) {
        0
    } else {
        let ea = run_end(a, i, false);
        let eb = run_end(b, j, false);
        let c = lex_cmp(a, i, ea, b, j, eb);
        if c != 0 {
            c
        } else {
            let fa = run_end(a, ea, true);
            let fb = run_end(b, eb, true);
            let d = digits_cmp(a, ea, fa, b, eb, fb);
            if d != 0 {
                d
            } else {
                proof {
                    lemma_runs_progress(a, i);
                    lemma_runs_progress(b, j);
                }
                vcmp_from(a, fa, b, fb)
            }
        }
    }
}

pub open spec fn vcmp(a: Seq<char>, b: Seq<char>) -> int {
    vcmp_from(a, 0, b, 0)
}

pub proof fn lemma_run_end_bounds(s: Seq<char>, i: int, digits: bool)
    requires
        0 <= i <= s.len(),
    ensures
        i <= run_end(s, i, digits) <= s.len(),
    decreases s.len() - i,
{
    if 0 <= i < s.len() && is_digit(s[i]) == digits {
        lemma_run_end_bounds(s, i + 1, digits);
    }
}

pub proof fn lemma_runs_progress(s: Seq<char>, i: int)
    requires
        0 <= i <= s.len(),
    ensures
        i <= run_end(s, run_end(s, i, false), true) <= s.len(),
        i < s.len() ==> i < run_end(s, run_end(s, i, false), true),
{
    lemma_run_end_bounds(s, i, false);
    let e = run_end(s, i, false);
    lemma_run_end_bounds(s, e, true);
    if i < s.len() && !is_digit(s[i]) {
        lemma_run_end_bounds(s, i + 1, false);
    } else if i < s.len() {
        lemma_run_end_bounds(s, i + 1, true);
    }
}


fn is_digit_exec(c: char) -> (r: bool)
    ensures
        r == is_digit(c),
{
    '0' <= c && c <= '9'
}

fn char_order_exec(c: char) -> (r: i64)
    ensures
        r == char_order(c),
{
    if '0' <= c && c <= '9' {
        0
    } else if ('a' <= c && c <= 'z') || ('A' <= c && c <= 'Z') {
        c as u32 as i64
    } else if c == '~' {
        -1
    } else {
        c as u32 as i64 + 256
    }
}

fn run_end_exec(s: &Vec<char>, i: usize, digits: bool) -> (r: usize)
    requires
        i <= s@.len(),
    ensures
        r == run_end(s@, i as int, digits),
        i <= r <= s@.len(),
{
    let mut k: usize = i;
    while k < s.len() && is_digit_exec(s[k]) == digits
        invariant
            i <= k <= s@.len(),
            run_end(s@, k as int, digits) == run_end(s@, i as int, digits),
        decreases s@.len() - k,
    {
        k = k + 1;
    }
    k
}

fn lex_cmp_exec(a: &Vec<char>, i: usize, ea: usize, b: &Vec<char>, j: usize, eb: usize) -> (r: i8)
    requires
        i <= ea <= a@.len(),
        j <= eb <= b@.len(),
    ensures
        r == lex_cmp(a@, i as int, ea as int, b@, j as int, eb as int),
{
    let mut p: usize = i;
    let mut q: usize = j;
    loop
        invariant
            i <= p <= ea <= a@.len(),
            j <= q <= eb <= b@.len(),
            lex_cmp(a@, p as int, ea as int, b@, q as int, eb as int) == lex_cmp(
                a@,
                i as int,
                ea as int,
                b@,
                j as int,
                eb as int,
            ),
        decreases (ea - p) + (eb - q),
    {
        if p >= ea && q >= eb {
            return 0;
        }
        let oa: i64 = if p < ea { char_order_exec(a[p]) } else { 0 };
        let ob: i64 = if q < eb { char_order_exec(b[q]) } else { 0 };
        if oa != ob {
            return if oa < ob { -1 } else { 1 };
        }
        if p < ea && q < eb {
            p = p + 1;
            q = q + 1;
        } else {
            return 0;
        }
    }
}

fn zeros_end_exec(s: &Vec<char>, i: usize, e: usize) -> (r: usize)
    requires
        i <= e <= s@.len(),
    ensures
        r == zeros_end(s@, i as int, e as int),
        i <= r <= e,
{
    let mut k: usize = i;
    while k < e && s[k] == '0'
        invariant
            i <= k <= e <= s@.len(),
            zeros_end(s@, k as int, e as int) == zeros_end(s@, i as int, e as int),
        decreases e - k,
    {
        k = k + 1;
    }
    k
}

fn digits_cmp_exec(a: &Vec<char>, i: usize, ea: usize, b: &Vec<char>, j: usize, eb: usize) -> (r: i8)
    requires
        i <= ea <= a@.len(),
        j <= eb <= b@.len(),
    ensures
        r == digits_cmp(a@, i as int, ea as int, b@, j as int, eb as int),
{
    let za = zeros_end_exec(a, i, ea);
    let zb = zeros_end_exec(b, j, eb);
    let la = ea - za;
    let lb = eb - zb;
    if la != lb {
        return if la < lb { -1 } else { 1 };
    }
    let mut k: usize = 0;
    while k < la
        invariant
            k <= la,
            za == zeros_end(a@, i as int, ea as int),
            zb == zeros_end(b@, j as int, eb as int),
            za + la == ea,
            zb + la == eb,
            ea <= a@.len(),
            eb <= b@.len(),
            first_diff(a@, za + k, b@, zb + k, la - k) == first_diff(a@, za as int, b@, zb as int, la as int),
        decreases la - k,
    {
        let ca = a[za + k];
        let cb = b[zb + k];
        if ca != cb {
            return if ca < cb { -1 } else { 1 };
        }
        k = k + 1;
    }
    0
}

/// Compares two character sequences in the dpkg order: -1, 0 or 1.
pub fn compare_fragments(a: &Vec<char>, b: &Vec<char>) -> (r: i8)
    ensures
        r == vcmp(a@, b@),
{
    let mut i: usize = 0;
    let mut j: usize = 0;
    while i < a.len() || j < b.len()
        invariant
            i <= a@.len(),
            j <= b@.len(),
            vcmp_from(a@, i as int, b@, j as int) == vcmp(a@, b@),
        decreases (a@.len() - i) + (b@.len() - j),
    {
        let ea = run_end_exec(a, i, false);
        let eb = run_end_exec(b, j, false);
        let c = lex_cmp_exec(a, i, ea, b, j, eb);
        if c != 0 {
            return c;
        }
        let fa = run_end_exec(a, ea, true);
        let fb = run_end_exec(b, eb, true);
        let d = digits_cmp_exec(a, ea, fa, b, eb, fb);
        if d != 0 {
            return d;
        }
        proof {
            lemma_runs_progress(a@, i as int);
            lemma_runs_progress(b@, j as int);
        }
        i = fa;
        j = fb;
    }
    0
}


/// A relation between two versions, written `<<`, `<=`, `=`, `>=` or `>>`.
#[derive(Clone, Copy, Debug, PartialEq, Eq, Structural)]
pub enum VersionRelation {
    StrictlyLess,
    LessOrEqual,
    Equal,
    GreaterOrEqual,
    StrictlyGreater,
}

/// Whether a comparison result `c` (-1, 0 or 1, left against right) meets `op`.
pub open spec fn relation_holds(op: VersionRelation, c: int) -> bool {
    match op {
        VersionRelation::StrictlyLess => c < 0,
        VersionRelation::LessOrEqual => c <= 0,
        VersionRelation::Equal => c == 0,
        VersionRelation::GreaterOrEqual => c >= 0,
        VersionRelation::StrictlyGreater => c > 0,
    }
}

pub open spec fn relation_of(s: Seq<char>) -> Option<VersionRelation> {
    if s =~= seq!['<', '<'] {
        Some(VersionRelation::StrictlyLess)
    } else if s =~= seq!['<', '='] {
        Some(VersionRelation::LessOrEqual)
    } else if s =~= seq!['='] {
        Some(VersionRelation::Equal)
    } else if s =~= seq!['>', '='] {
        Some(VersionRelation::GreaterOrEqual)
    } else if s =~= seq!['>', '>'] {
        Some(VersionRelation::StrictlyGreater)
    } else {
        None
    }
}

/// Reads a relation operator token.
pub fn parse_relation(s: &str) -> (r: Option<VersionRelation>)
    ensures
        r == relation_of(s@),
{
    let n = s.unicode_len();
    if n == 1 {
        if s.get_char(0) == '=' {
            assert(s@ =~= seq!['=']);
            return Some(VersionRelation::Equal);
        }
        return None;
    }
    if n != 2 {
        return None;
    }
    let c0 = s.get_char(0);
    let c1 = s.get_char(1);
    assert(s@ =~= seq![c0, c1]);
    if c0 == '<' && c1 == '<' {
        Some(VersionRelation::StrictlyLess)
    } else if c0 == '<' && c1 == '=' {
        Some(VersionRelation::LessOrEqual)
    } else if c0 == '>' && c1 == '=' {
        Some(VersionRelation::GreaterOrEqual)
    } else if c0 == '>' && c1 == '>' {
        Some(VersionRelation::StrictlyGreater)
    } else {
        assert(s@ != seq!['<', '<'] ==> !(s@ =~= seq!['<', '<']));
        None
    }
}

/// A parsed version `[epoch:]upstream[-revision]`; `text` is the string it was read from.
pub struct DebianVersionNum {
    pub epoch: Vec<char>,
    pub upstream_version: Vec<char>,
    pub debian_revision: Vec<char>,
    pub text: String,
}

/// Index of the first `c` at or after `i`, or `s.len()` if there is none.
pub open spec fn first_of(s: Seq<char>, c: char, i: int) -> int
    decreases s.len() - i,
{
    if i < 0 || i >= s.len() {
        s.len() as int
    } else if s[i] == c {
        i
    } else {
        first_of(s, c, i + 1)
    }
}

/// Index of the last `c` before position `n`, or -1 if there is none.
pub open spec fn last_of(s: Seq<char>, c: char, n: int) -> int
    decreases n,
{
    if n <= 0 || n > s.len() {
        -1
    } else if s[n - 1] == c {
        n - 1
    } else {
        last_of(s, c, n - 1)
    }
}

/// Start of the part after the epoch: one past the first `:`, or 0.
pub open spec fn upstream_start(s: Seq<char>) -> int {
    let k = first_of(s, ':', 0);
    if k < s.len() {
        k + 1
    } else {
        0
    }
}

/// The three parts of a version string: everything before the first `:` is
/// the epoch, everything after the last `-` that follows it is the revision.
pub open spec fn version_parts(s: Seq<char>) -> (Seq<char>, Seq<char>, Seq<char>) {
    let k = first_of(s, ':', 0);
    let st = upstream_start(s);
    let d = last_of(s, '-', s.len() as int);
    let epoch = if k < s.len() { s.take(k) } else { Seq::empty() };
    if d >= st {
        (epoch, s.subrange(st, d), s.skip(d + 1))
    } else {
        (epoch, s.skip(st), Seq::empty())
    }
}

/// A version string is well formed when its epoch, if written, is a non-empty
/// run of digits and its upstream part is not empty.
pub open spec fn version_valid(s: Seq<char>) -> bool {
    let (e, u, r) = version_parts(s);
    (first_of(s, ':', 0) < s.len() ==> e.len() > 0) && (forall|i: int|
        0 <= i < e.len() ==> is_digit(#[trigger] e[i])) && u.len() > 0
}

impl DebianVersionNum {
    pub open spec fn parts(&self) -> (Seq<char>, Seq<char>, Seq<char>) {
        (self.epoch@, self.upstream_version@, self.debian_revision@)
    }

    /// The version as it was written.
    pub fn to_string(&self) -> (r: String)
        ensures
            r@ == self.text@,
    {
        self.text.clone()
    }
}

/// The dpkg order of two versions: epochs, then upstream parts, then revisions.
pub open spec fn version_cmp(a: DebianVersionNum, b: DebianVersionNum) -> int {
    let e = vcmp(a.epoch@, b.epoch@);
    let u = vcmp(a.upstream_version@, b.upstream_version@);
    if e != 0 {
        e
    } else if u != 0 {
        u
    } else {
        vcmp(a.debian_revision@, b.debian_revision@)
    }
}

/// Compares two versions: -1, 0 or 1.
pub fn cmp_debversion(a: &DebianVersionNum, b: &DebianVersionNum) -> (r: i8)
    ensures
        r == version_cmp(*a, *b),
{
    let e = compare_fragments(&a.epoch, &b.epoch);
    if e != 0 {
        return e;
    }
    let u = compare_fragments(&a.upstream_version, &b.upstream_version);
    if u != 0 {
        return u;
    }
    compare_fragments(&a.debian_revision, &b.debian_revision)
}

/// Whether `a op b` holds.
pub fn cmp_debversion_with_op(op: &VersionRelation, a: &DebianVersionNum, b: &DebianVersionNum) -> (r: bool)
    ensures
        r == relation_holds(*op, version_cmp(*a, *b)),
{
    let c = cmp_debversion(a, b);
    match op {
        VersionRelation::StrictlyLess => c < 0,
        VersionRelation::LessOrEqual => c <= 0,
        VersionRelation::Equal => c == 0,
        VersionRelation::GreaterOrEqual => c >= 0,
        VersionRelation::StrictlyGreater => c > 0,
    }
}

pub(crate) fn chars_of(s: &str) -> (r: Vec<char>)
    ensures
        r@ == s@,
{
    let n = s.unicode_len();
    let mut r: Vec<char> = Vec::new();
    let mut i: usize = 0;
    while i < n
        invariant
            n == s@.len(),
            i <= n,
            r@ == s@.take(i as int),
        decreases n - i,
    {
        r.push(s.get_char(i));
        i = i + 1;
        assert(r@ =~= s@.take(i as int));
    }
    assert(r@ =~= s@);
    r
}

fn copy_range(v: &Vec<char>, from: usize, to: usize) -> (r: Vec<char>)
    requires
        from <= to <= v@.len(),
    ensures
        r@ == v@.subrange(from as int, to as int),
{
    let mut r: Vec<char> = Vec::new();
    let mut i: usize = from;
    while i < to
        invariant
            from <= i <= to <= v@.len(),
            r@ == v@.subrange(from as int, i as int),
        decreases to - i,
    {
        r.push(v[i]);
        i = i + 1;
        assert(r@ =~= v@.subrange(from as int, i as int));
    }
    r
}

/// Why a version string was refused.
#[derive(Clone, Copy, Debug, PartialEq, Eq, Structural)]
pub enum VersionError {
    BadEpoch,
    EmptyUpstream,
}

/// Reads a version string.
pub fn parse_version(s: &str) -> (r: Result<DebianVersionNum, VersionError>)
    ensures
        match r {
            Ok(v) => version_valid(s@) && v.parts() == version_parts(s@) && v.text@ == s@,
            Err(_) => !version_valid(s@),
        },
{
    let cs = chars_of(s);
    let n = cs.len();
    let mut k: usize = 0;
    while k < n && cs[k] != ':'
        invariant
            n == cs@.len(),
            k <= n,
            first_of(cs@, ':', k as int) == first_of(cs@, ':', 0),
        decreases n - k,
    {
        k = k + 1;
    }
    let st: usize = if k < n { k + 1 } else { 0 };
    let mut d: usize = n;
    while d > 0 && cs[d - 1] != '-'
        invariant
            n == cs@.len(),
            d <= n,
            last_of(cs@, '-', d as int) == last_of(cs@, '-', n as int),
        decreases d,
    {
        d = d - 1;
    }
    let epoch = if k < n { copy_range(&cs, 0, k) } else { Vec::new() };
    let (upstream, revision) = if d > 0 && d - 1 >= st {
        (copy_range(&cs, st, d - 1), copy_range(&cs, d, n))
    } else {
        (copy_range(&cs, st, n), Vec::new())
    };
    proof {
        assert(epoch@ =~= version_parts(s@).0);
        assert(upstream@ =~= version_parts(s@).1);
        assert(revision@ =~= version_parts(s@).2);
    }
    if k < n && epoch.len() == 0 {
        return Err(VersionError::BadEpoch);
    }
    let mut i: usize = 0;
    while i < epoch.len()
        invariant
            i <= epoch@.len(),
            epoch@ == version_parts(s@).0,
            forall|m: int| 0 <= m < i ==> is_digit(#[trigger] epoch@[m]),
        decreases epoch@.len() - i,
    {
        if !is_digit_exec(epoch[i]) {
            assert(!is_digit(version_parts(s@).0[i as int]));
            return Err(VersionError::BadEpoch);
        }
        i = i + 1;
    }
    if upstream.len() == 0 {
        return Err(VersionError::EmptyUpstream);
    }
    Ok(DebianVersionNum { epoch, upstream_version: upstream, debian_revision: revision, text: String::from_str(s) })
}

} // verus!
