use vstd::prelude::*;
use crate::query::max_feature_count;

verus! {

/// Why a `qid:<number>` field was refused.
pub enum QidError {
    /// The field does not hold exactly one `:`.
    FieldCount,
    /// The part before `:` is not `qid`.
    Name,
    /// The part after `:` is not an unsigned number that fits in `usize`.
    Number,
}

/// Number of `:` characters in `s`.
pub open spec fn colons(s: Seq<char>) -> nat
    decreases s.len(),
{
    if s.len() == 0 {
        0
    } else {
        colons(s.drop_last()) + if s.last() == ':' {
            1nat
        } else {
            0nat
        }
    }
}

/// Position of the first `:` in `s`, or -1.
pub open spec fn first_colon(s: Seq<char>) -> int
    decreases s.len(),
{
    if s.len() == 0 {
        -1
    } else if first_colon(s.drop_last()) >= 0 {
        first_colon(s.drop_last())
    } else if s.last() == ':' {
        s.len() - 1
    } else {
        -1
    }
}

/// A decimal digit.
pub open spec fn is_digit(c: char) -> bool {
    '0' <= c <= '9'
}

/// The number that a string of decimal digits denotes.
pub open spec fn digits_value(s: Seq<char>) -> int
    decreases s.len(),
{
    if s.len() == 0 {
        0
    } else {
        digits_value(s.drop_last()) * 10 + (s.last() as int - '0' as int)
    }
}

/// The digits of an unsigned number, without its optional leading `+`.
pub open spec fn unsigned_digits(s: Seq<char>) -> Seq<char> {
    if s.len() > 0 && s[0] == '+' {
        s.drop_first()
    } else {
        s
    }
}

/// `s` is the text of an unsigned number that fits in `usize`: an
/// optional `+` and at least one decimal digit.
pub open spec fn is_usize_text(s: Seq<char>) -> bool {
    let d = unsigned_digits(s);
    &&& d.len() > 0
    &&& forall|i: int| 0 <= i < d.len() ==> is_digit(#[trigger] d[i])
    &&& digits_value(d) <= usize::MAX
}

/// What reading the field `s` as `qid:<number>` gives.
pub open spec fn qid_of(s: Seq<char>) -> Result<usize, QidError> {
    if colons(s) != 1 {
        Err(QidError::FieldCount)
    } else if s.subrange(0, first_colon(s)) != seq!['q', 'i', 'd'] {
        Err(QidError::Name)
    } else if !is_usize_text(s.subrange(first_colon(s) + 1, s.len() as int)) {
        Err(QidError::Number)
    } else {
        Ok(digits_value(unsigned_digits(s.subrange(first_colon(s) + 1, s.len() as int))) as usize)
    }
}

/// Where a field holds a `:`, the first one lies inside it and nothing
/// before it is a `:`.
pub proof fn lemma_first_colon(s: Seq<char>)
    ensures
        colons(s) >= 1 ==> 0 <= first_colon(s) < s.len() && s[first_colon(s)] == ':' && colons(
            s.subrange(0, first_colon(s)),
        ) == 0,
        colons(s) == 0 ==> first_colon(s) == -1,
    decreases s.len(),
{
    if s.len() > 0 {
        let t = s.drop_last();
        lemma_first_colon(t);
        if first_colon(t) >= 0 {
            assert(s.subrange(0, first_colon(s)) == t.subrange(0, first_colon(t)));
        } else if s.last() == ':' {
            assert(s.subrange(0, first_colon(s)) == t);
        }
    }
}

/// A string of digits has a non-negative value.
pub proof fn lemma_digits_nonneg(s: Seq<char>)
    requires
        forall|j: int| 0 <= j < s.len() ==> is_digit(#[trigger] s[j]),
    ensures
        digits_value(s) >= 0,
    decreases s.len(),
{
    if s.len() > 0 {
        let t = s.drop_last();
        assert forall|j: int| 0 <= j < t.len() implies is_digit(#[trigger] t[j]) by {
            assert(t[j] == s[j]);
        }
        lemma_digits_nonneg(t);
    }
}

/// Extending a string of digits never lowers its value.
pub proof fn lemma_digits_grow(s: Seq<char>, i: int)
    requires
        0 <= i <= s.len(),
        forall|j: int| 0 <= j < s.len() ==> is_digit(#[trigger] s[j]),
    ensures
        digits_value(s.subrange(0, i)) <= digits_value(s),
    decreases s.len() - i,
{
    if i < s.len() {
        lemma_digits_grow(s, i + 1);
        let u = s.subrange(0, i);
        assert(s.subrange(0, i + 1).drop_last() == u);
        assert(s.subrange(0, i + 1).last() == s[i]);
        assert forall|j: int| 0 <= j < u.len() implies is_digit(#[trigger] u[j]) by {
            assert(u[j] == s[j]);
        }
        lemma_digits_nonneg(u);
    } else {
        assert(s.subrange(0, i) == s);
    }
}

/// Reads the characters `s[from..to]` as an unsigned number.
fn parse_digits(s: &str, from: usize, to: usize) -> (r: Option<usize>)
    requires
        from <= to <= s@.len(),
    ensures
        r is Some <==> is_usize_text(s@.subrange(from as int, to as int)),
        r matches Some(v) ==> v == digits_value(unsigned_digits(s@.subrange(from as int, to as int))),
{
    let ghost t = s@.subrange(from as int, to as int);
    let mut i = from;
    if i < to && s.get_char(i) == '+' {
        i = i + 1;
    }
    let ghost d = unsigned_digits(t);
    proof {
        if t.len() > 0 && t[0] == '+' {
            assert(d == s@.subrange(from + 1, to as int));
        } else {
            assert(d == s@.subrange(from as int, to as int));
        }
    }
    let start = i;
    assert(d == s@.subrange(start as int, to as int));
    if start == to {
        return None;
    }
    let mut value: usize = 0;
    while i < to
        invariant
            to <= s@.len(),
            start < to,
            start <= i <= to,
            from <= start,
            t == s@.subrange(from as int, to as int),
            d == unsigned_digits(t),
            d == s@.subrange(start as int, to as int),
            forall|j: int| 0 <= j < i - start ==> is_digit(#[trigger] d[j]),
            value == digits_value(d.subrange(0, i - start)),
        decreases to - i,
    {
        let c = s.get_char(i);
        let ghost pre = d.subrange(0, i - start);
        assert(d[i - start] == c);
        if c < '0' || c > '9' {
            assert(!is_digit(d[i - start]));
            return None;
        }
        let digit = (c as u32 - '0' as u32) as usize;
        assert(d.subrange(0, i - start + 1).drop_last() == pre);
        assert(d.subrange(0, i - start + 1).last() == c);
        assert(digits_value(d.subrange(0, i - start + 1)) == value * 10 + digit);
        if value > (usize::MAX - digit) / 10 {
            proof {
                assert(digits_value(d.subrange(0, i - start + 1)) > usize::MAX) by (nonlinear_arith)
                    requires
                        digits_value(d.subrange(0, i - start + 1)) == value * 10 + digit,
                        value > (usize::MAX - digit) / 10,
                        digit <= 9,
                ;
                if is_usize_text(t) {
                    lemma_digits_grow(d, i - start + 1);
                }
            }
            return None;
        }
        assert(value * 10 + digit <= usize::MAX) by (nonlinear_arith)
            requires
                value <= (usize::MAX - digit) / 10,
                digit <= 9,
        ;
        value = value * 10 + digit;
        i = i + 1;
    }
    assert(d.subrange(0, to - start) == d);
    Some(value)
}

/// Counts the `:` of `s[from..to]` and finds the first one.
fn scan_colons(s: &str, from: usize, to: usize) -> (r: (usize, usize))
    requires
        from <= to <= s@.len(),
    ensures
        r.0 == colons(s@.subrange(from as int, to as int)),
        r.0 > 0 ==> r.1 == from + first_colon(s@.subrange(from as int, to as int)),
{
    let mut count: usize = 0;
    let mut first: usize = 0;
    let mut i: usize = from;
    while i < to
        invariant
            to <= s@.len(),
            from <= i <= to,
            count == colons(s@.subrange(from as int, i as int)),
            count <= i - from,
            count > 0 ==> first == from + first_colon(s@.subrange(from as int, i as int)),
            count == 0 ==> first_colon(s@.subrange(from as int, i as int)) == -1,
        decreases to - i,
    {
        let ghost pre = s@.subrange(from as int, i as int);
        assert(s@.subrange(from as int, i + 1).drop_last() == pre);
        assert(s@.subrange(from as int, i + 1).last() == s@[i as int]);
        proof {
            lemma_first_colon(pre);
        }
        if s.get_char(i) == ':' {
            if count == 0 {
                first = i;
            }
            count = count + 1;
        }
        i = i + 1;
    }
    (count, first)
}

/// A separator between the fields of a line.
pub open spec fn is_space(c: char) -> bool {
    c == ' ' || c == '\t' || c == '\n' || c == '\r' || c == '\u{b}' || c == '\u{c}'
}

/// The fields of `s`: its maximal runs of non-space characters, as
/// `(start, end)` positions.
pub open spec fn tokens(s: Seq<char>) -> Seq<(usize, usize)>
    decreases s.len(),
{
    if s.len() == 0 {
        Seq::empty()
    } else {
        let t = tokens(s.drop_last());
        let n = (s.len() - 1) as usize;
        if is_space(s.last()) {
            t
        } else if t.len() > 0 && t.last().1 == n {
            t.update(t.len() - 1, (t.last().0, (n + 1) as usize))
        } else {
            t.push((n, (n + 1) as usize))
        }
    }
}

/// Position of the first `#` in `s` (where a comment starts), or -1.
pub open spec fn first_hash(s: Seq<char>) -> int
    decreases s.len(),
{
    if s.len() == 0 {
        -1
    } else if first_hash(s.drop_last()) >= 0 {
        first_hash(s.drop_last())
    } else if s.last() == '#' {
        s.len() - 1
    } else {
        -1
    }
}

/// The part of a line before its comment.
pub open spec fn content_len(s: Seq<char>) -> int {
    if first_hash(s) >= 0 {
        first_hash(s)
    } else {
        s.len() as int
    }
}

/// Why a line was refused.
pub enum LineError {
    /// The line holds no field before its comment: a blank or comment line.
    Blank,
    /// The line holds a label but no qid.
    TooFewFields,
    /// The second field is no `qid:<number>`.
    Qid(QidError),
    /// A feature field does not hold exactly one `:`.
    FieldCount,
    /// A feature id is not a number from 1 up.
    FeatureId,
}

/// What reading the feature field `s[t.0..t.1]` as `<id>:<value>` gives:
/// the id and the position of the value's text.
pub open spec fn feature_of(s: Seq<char>, t: (usize, usize)) -> Result<(usize, usize, usize), LineError> {
    let f = s.subrange(t.0 as int, t.1 as int);
    let id = f.subrange(0, first_colon(f));
    if colons(f) != 1 {
        Err(LineError::FieldCount)
    } else if !is_usize_text(id) || digits_value(unsigned_digits(id)) == 0 {
        Err(LineError::FeatureId)
    } else {
        Ok((digits_value(unsigned_digits(id)) as usize, (t.0 + first_colon(f) + 1) as usize, t.1))
    }
}

/// The feature fields read in order; the first refused one decides.
pub open spec fn features_of(s: Seq<char>, toks: Seq<(usize, usize)>) -> Result<Seq<(usize, usize, usize)>, LineError>
    decreases toks.len(),
{
    if toks.len() == 0 {
        Ok(Seq::empty())
    } else {
        match features_of(s, toks.drop_last()) {
            Err(e) => Err(e),
            Ok(v) => match feature_of(s, toks.last()) {
                Err(e) => Err(e),
                Ok(x) => Ok(v.push(x)),
            },
        }
    }
}

/// What reading a line gives: the position of the label's text, the qid
/// and the features, or the first error.
pub open spec fn line_of(s: Seq<char>) -> Result<((usize, usize), usize, Seq<(usize, usize, usize)>), LineError> {
    let toks = tokens(s.subrange(0, content_len(s)));
    if toks.len() == 0 {
        Err(LineError::Blank)
    } else if toks.len() < 2 {
        Err(LineError::TooFewFields)
    } else {
        match qid_of(s.subrange(toks[1].0 as int, toks[1].1 as int)) {
            Err(e) => Err(LineError::Qid(e)),
            Ok(q) => match features_of(s, toks.subrange(2, toks.len() as int)) {
                Err(e) => Err(e),
                Ok(fs) => Ok((toks[0], q, fs)),
            },
        }
    }
}

/// Every field lies inside the text, and is not empty.
pub proof fn lemma_tokens_bounds(s: Seq<char>)
    requires
        s.len() <= usize::MAX,
    ensures
        forall|k: int| 0 <= k < tokens(s).len() ==> (#[trigger] tokens(s)[k]).0 < tokens(s)[k].1 <= s.len(),
    decreases s.len(),
{
    if s.len() > 0 {
        let t = tokens(s.drop_last());
        lemma_tokens_bounds(s.drop_last());
        assert forall|k: int| 0 <= k < tokens(s).len() implies (#[trigger] tokens(s)[k]).0 < tokens(s)[k].1
            <= s.len() by {
            if k < t.len() {
                assert(t[k].0 < t[k].1 <= s.len() - 1);
            }
        }
    }
}

/// The first `#` lies inside the text, or is absent.
pub proof fn lemma_first_hash(s: Seq<char>)
    ensures
        -1 <= first_hash(s) < s.len(),
    decreases s.len(),
{
    if s.len() > 0 {
        lemma_first_hash(s.drop_last());
    }
}

/// Position of the first `#` of `s`, or its length.
fn comment_start(s: &str, n: usize) -> (r: usize)
    requires
        n == s@.len(),
    ensures
        r == content_len(s@),
{
    let mut i: usize = 0;
    while i < n
        invariant
            n == s@.len(),
            i <= n,
            first_hash(s@.subrange(0, i as int)) == -1,
        decreases n - i,
    {
        assert(s@.subrange(0, i + 1).drop_last() == s@.subrange(0, i as int));
        assert(s@.subrange(0, i + 1).last() == s@[i as int]);
        if s.get_char(i) == '#' {
            proof {
                lemma_first_hash_prefix(s@, i as int + 1);
            }
            return i;
        }
        i = i + 1;
    }
    assert(s@.subrange(0, n as int) == s@);
    n
}

/// Once a prefix holds a `#`, the whole text's first `#` is that of the prefix.
proof fn lemma_first_hash_prefix(s: Seq<char>, i: int)
    requires
        0 <= i <= s.len(),
        first_hash(s.subrange(0, i)) >= 0,
    ensures
        first_hash(s) == first_hash(s.subrange(0, i)),
    decreases s.len() - i,
{
    if i < s.len() {
        assert(s.subrange(0, i + 1).drop_last() == s.subrange(0, i));
        lemma_first_hash_prefix(s, i + 1);
    } else {
        assert(s.subrange(0, i) == s);
    }
}

/// Whether `c` separates fields.
fn is_space_char(c: char) -> (r: bool)
    ensures
        r == is_space(c),
{
    c == ' ' || c == '\t' || c == '\n' || c == '\r' || c == '\u{b}' || c == '\u{c}'
}

/// The fields of `s[..end]`.
fn tokenize(s: &str, end: usize) -> (r: Vec<(usize, usize)>)
    requires
        end <= s@.len(),
    ensures
        r@ == tokens(s@.subrange(0, end as int)),
{
    let mut r: Vec<(usize, usize)> = Vec::new();
    let mut i: usize = 0;
    assert(s@.subrange(0, 0) == Seq::<char>::empty());
    while i < end
        invariant
            end <= s@.len(),
            i <= end,
            r@ == tokens(s@.subrange(0, i as int)),
        decreases end - i,
    {
        let c = s.get_char(i);
        assert(s@.subrange(0, i + 1).drop_last() == s@.subrange(0, i as int));
        assert(s@.subrange(0, i + 1).last() == c);
        if is_space_char(c) {
        } else if r.len() > 0 && r[r.len() - 1].1 == i {
            let k = r.len() - 1;
            let start = r[k].0;
            r.set(k, (start, i + 1));
        } else {
            r.push((i, i + 1));
        }
        i = i + 1;
    }
    r
}

/// Reads the feature field `s[from..to]` as `<id>:<value>`.
fn parse_feature(s: &str, from: usize, to: usize) -> (r: Result<(usize, usize, usize), LineError>)
    requires
        from <= to <= s@.len(),
    ensures
        r == feature_of(s@, (from, to)),
{
    let ghost f = s@.subrange(from as int, to as int);
    let (count, first) = scan_colons(s, from, to);
    if count != 1 {
        return Err(LineError::FieldCount);
    }
    proof {
        lemma_first_colon(f);
        assert(f.subrange(0, first - from) == s@.subrange(from as int, first as int));
    }
    match parse_digits(s, from, first) {
        None => Err(LineError::FeatureId),
        Some(id) => {
            if id == 0 {
                Err(LineError::FeatureId)
            } else {
                Ok((id, first + 1, to))
            }
        },
    }
}

/// The fields of one svmlight line, positions counted in characters: the
/// label's text, the qid, and for each feature its id and its value's
/// text. Turning those texts into reals is left to the caller.
pub struct LineFields {
    pub label: (usize, usize),
    pub qid: usize,
    pub features: Vec<(usize, usize, usize)>,
}

/// A refused field refuses every longer list of fields that it starts.
proof fn lemma_features_err(s: Seq<char>, toks: Seq<(usize, usize)>, i: int)
    requires
        0 <= i < toks.len(),
        features_of(s, toks.subrange(0, i + 1)) is Err,
    ensures
        features_of(s, toks) == features_of(s, toks.subrange(0, i + 1)),
    decreases toks.len() - i,
{
    if i + 1 < toks.len() {
        assert(toks.subrange(0, i + 2).drop_last() == toks.subrange(0, i + 1));
        lemma_features_err(s, toks, i + 1);
    } else {
        assert(toks.subrange(0, i + 1) == toks);
    }
}

/// The svmlight file format: `<label> qid:<qid> <fid>:<value> ... # info`.
pub struct SvmLightFile;

impl SvmLightFile {
    /// Splits a line `<label> qid:<qid> <id>:<value> ... # comment` into
    /// its fields. Fields are separated by spaces; a `#` starts a comment
    /// that runs to the end of the line. A line with no field is `Blank`,
    /// to be skipped by the reader.
    pub fn split_line(s: &str) -> (r: Result<LineFields, LineError>)
        ensures
            match r {
                Ok(l) => line_of(s@) == Ok::<_, LineError>((l.label, l.qid, l.features@)),
                Err(e) => line_of(s@) == Err::<((usize, usize), usize, Seq<(usize, usize, usize)>), _>(e),
            },
    {
        let n = s.unicode_len();
        let end = comment_start(s, n);
        proof {
            lemma_first_hash(s@);
        }
        let toks = tokenize(s, end);
        proof {
            lemma_tokens_bounds(s@.subrange(0, end as int));
        }
        if toks.len() == 0 {
            return Err(LineError::Blank);
        }
        if toks.len() < 2 {
            return Err(LineError::TooFewFields);
        }
        let qid = match parse_qid_field(s, toks[1].0, toks[1].1) {
            Err(e) => {
                return Err(LineError::Qid(e));
            },
            Ok(q) => q,
        };
        let mut features: Vec<(usize, usize, usize)> = Vec::new();
        let mut k: usize = 2;
        assert(toks@.subrange(2, 2) == Seq::<(usize, usize)>::empty());
        while k < toks.len()
            invariant
                2 <= k <= toks@.len(),
                end <= s@.len(),
                end == content_len(s@),
                qid_of(s@.subrange(toks@[1].0 as int, toks@[1].1 as int)) == Ok::<usize, QidError>(qid),
                toks@ == tokens(s@.subrange(0, end as int)),
                forall|j: int| 0 <= j < toks@.len() ==> (#[trigger] toks@[j]).0 < toks@[j].1 <= end,
                features_of(s@, toks@.subrange(2, k as int)) == Ok::<_, LineError>(features@),
            decreases toks@.len() - k,
        {
            let (from, to) = toks[k];
            assert(toks@.subrange(2, k + 1).drop_last() == toks@.subrange(2, k as int));
            assert(toks@.subrange(2, k + 1).last() == toks@[k as int]);
            match parse_feature(s, from, to) {
                Err(e) => {
                    proof {
                        assert(toks@.subrange(2, toks@.len() as int).subrange(0, k - 1) == toks@.subrange(2, k + 1));
                        assert(features_of(s@, toks@.subrange(2, k + 1)) == Err::<Seq<(usize, usize, usize)>, _>(e));
                        lemma_features_err(s@, toks@.subrange(2, toks@.len() as int), k - 2);
                    }
                    return Err(e);
                },
                Ok(x) => {
                    features.push(x);
                },
            }
            k = k + 1;
        }
        assert(toks@.subrange(2, toks@.len() as int) == toks@.subrange(2, k as int));
        Ok(LineFields { label: toks[0], qid, features })
    }

    /// Reads a `qid:<number>` field.
    pub fn parse_qid(qid: &str) -> (r: Result<usize, QidError>)
        ensures
            r == qid_of(qid@),
    {
        let n = qid.unicode_len();
        assert(qid@.subrange(0, n as int) == qid@);
        parse_qid_field(qid, 0, n)
    }
}

/// Reads the field `s[from..to]` as `qid:<number>`.
fn parse_qid_field(s: &str, from: usize, to: usize) -> (r: Result<usize, QidError>)
    requires
        from <= to <= s@.len(),
    ensures
        r == qid_of(s@.subrange(from as int, to as int)),
{
    let ghost f = s@.subrange(from as int, to as int);
    let (count, first) = scan_colons(s, from, to);
    if count != 1 {
        return Err(QidError::FieldCount);
    }
    proof {
        lemma_first_colon(f);
        reveal_strlit("qid");
    }
    let name_ok = first - from == 3 && s.get_char(from) == 'q' && s.get_char(from + 1) == 'i' && s.get_char(from + 2) == 'd';
    proof {
        let p = first - from;
        if name_ok {
            assert(f.subrange(0, p) =~= seq!['q', 'i', 'd']);
        } else if p == 3 {
            assert(f.subrange(0, 3)[0] == f[0] && f[0] == s@[from as int]);
            assert(f.subrange(0, 3)[1] == f[1] && f[1] == s@[from + 1]);
            assert(f.subrange(0, 3)[2] == f[2] && f[2] == s@[from + 2]);
        } else {
            assert(f.subrange(0, p).len() != 3);
        }
    }
    if !name_ok {
        return Err(QidError::Name);
    }
    proof {
        assert(f.subrange(first - from + 1, f.len() as int) == s@.subrange(first + 1, to as int));
    }
    match parse_digits(s, first + 1, to) {
        Some(v) => Ok(v),
        None => Err(QidError::Number),
    }
}

/// Where the features of a line land in the dense vector of values, given
/// their ids in field order: slot `d` (feature id `d + 1`) takes the last
/// field with that id, and `None` marks an absent feature, which reads as
/// 0. There are as many slots as the largest id.
pub fn dense_slots(ids: &Vec<usize>) -> (r: Vec<Option<usize>>)
    requires
        forall|k: int| 0 <= k < ids@.len() ==> #[trigger] ids@[k] >= 1,
    ensures
        forall|k: int| 0 <= k < ids@.len() ==> #[trigger] ids@[k] <= r@.len(),
        r@.len() > 0 ==> exists|k: int| 0 <= k < ids@.len() && ids@[k] == r@.len(),
        forall|d: int|
            0 <= d < r@.len() ==> match #[trigger] r@[d] {
                Some(k) => k < ids@.len() && ids@[k as int] == d + 1 && forall|k2: int|
                    k < k2 < ids@.len() ==> ids@[k2] != d + 1,
                None => forall|k: int| 0 <= k < ids@.len() ==> ids@[k] != d + 1,
            },
{
    let len = max_feature_count(ids);
    let mut r: Vec<Option<usize>> = Vec::new();
    let mut d: usize = 0;
    while d < len
        invariant
            d <= len,
            r@.len() == d,
            forall|e: int| 0 <= e < d ==> #[trigger] r@[e] is None,
        decreases len - d,
    {
        r.push(None);
        d = d + 1;
    }
    let mut i: usize = 0;
    while i < ids.len()
        invariant
            r@.len() == len,
            forall|k: int| 0 <= k < ids@.len() ==> #[trigger] ids@[k] >= 1 && ids@[k] <= len,
            i <= ids@.len(),
            forall|e: int|
                0 <= e < r@.len() ==> match #[trigger] r@[e] {
                    Some(k) => k < i && ids@[k as int] == e + 1 && forall|k2: int| k < k2 < i ==> ids@[k2] != e + 1,
                    None => forall|k: int| 0 <= k < i ==> ids@[k] != e + 1,
                },
        decreases ids@.len() - i,
    {
        let slot = ids[i] - 1;
        r.set(slot, Some(i));
        i = i + 1;
    }
    r
}

} // verus!
