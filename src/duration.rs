//! The duration normalizer: a JSON number or a `[[HH:]MM:]SS[.fraction]`
//! timestamp becomes one value in seconds.
use vstd::prelude::*;

verus! {

/// serde_json's `Number` (a JSON number as serde_json holds it), declared so
/// that a `duration` given as a JSON number can be handed back unchanged. It
/// is only moved here: none of its methods is called and nothing is assumed
/// of what it holds.
#[verifier::external_type_specification]
#[verifier::external_body]
pub struct ExNumber(serde_json::Number);

/// The JSON shape of a `duration` field as it arrives.
#[derive(Debug)]
pub enum DurationInput {
    /// The field is missing or holds `null`.
    Absent,
    /// A JSON number.
    Number(serde_json::Number),
    /// A JSON string.
    Text(String),
    /// Any other JSON value (a boolean, an array, an object), as its JSON text.
    Other(String),
}

/// A normalized duration.
#[derive(Debug)]
pub enum DurationValue {
    /// A JSON number, taken as it was written.
    Number(serde_json::Number),
    /// A timestamp string, read exactly.
    Timestamp(Seconds),
}

/// An exact duration in seconds: `whole` plus the decimal fraction whose
/// digits are `frac` (`0.` followed by them; no fraction when empty).
#[derive(Debug)]
pub struct Seconds {
    pub whole: u64,
    pub frac: Vec<char>,
}

/// Why a duration value was refused.
#[derive(Debug)]
pub enum DurationError {
    /// Neither a number nor a timestamp of one to three fields; holds the
    /// offending raw value.
    Format(String),
    /// A well-formed timestamp whose whole seconds do not fit in `u64`;
    /// holds the raw value.
    TooLarge(String),
}

/// Whether `c` is an ASCII decimal digit.
pub open spec fn is_digit(c: char) -> bool {
    '0' <= c && c <= '9'
}

/// A non-empty run of ASCII decimal digits.
pub open spec fn is_digits(s: Seq<char>) -> bool {
    s.len() > 0 && forall|i: int| 0 <= i < s.len() ==> is_digit(#[trigger] s[i])
}

/// The number that a run of decimal digits writes, most significant first.
pub open spec fn digits_value(s: Seq<char>) -> nat
    decreases s.len(),
{
    if s.len() == 0 {
        0
    } else {
        digits_value(s.drop_last()) * 10 + ((s.last() as u32) - ('0' as u32)) as nat
    }
}

/// `s` cut at every `sep`: one more piece than there are separators, and
/// the pieces may be empty.
pub open spec fn split_on(s: Seq<char>, sep: char) -> Seq<Seq<char>>
    decreases s.len(),
{
    if s.len() == 0 {
        seq![Seq::empty()]
    } else {
        let rest = split_on(s.drop_last(), sep);
        if s.last() == sep {
            rest.push(Seq::empty())
        } else {
            rest.update(rest.len() - 1, rest.last().push(s.last()))
        }
    }
}

/// The fields of a timestamp, most significant first.
pub open spec fn colon_fields(s: Seq<char>) -> Seq<Seq<char>> {
    split_on(s, ':')
}

/// The last field of a timestamp cut at its decimal point.
pub open spec fn seconds_parts(s: Seq<char>) -> Seq<Seq<char>> {
    split_on(colon_fields(s).last(), '.')
}

/// `s` is `[[HH:]MM:]SS[.fraction]`: one to three colon-separated runs of
/// digits, the last of which may carry one decimal point followed by digits.
pub open spec fn is_timestamp(s: Seq<char>) -> bool {
    let fs = colon_fields(s);
    let ps = seconds_parts(s);
    &&& 1 <= fs.len() <= 3
    &&& forall|i: int| 0 <= i < fs.len() - 1 ==> is_digits(#[trigger] fs[i])
    &&& 1 <= ps.len() <= 2
    &&& forall|j: int| 0 <= j < ps.len() ==> is_digits(#[trigger] ps[j])
}

/// The whole-number fields of a timestamp: the last one without its fraction.
pub open spec fn whole_fields(s: Seq<char>) -> Seq<Seq<char>> {
    let fs = colon_fields(s);
    fs.update(fs.len() - 1, seconds_parts(s)[0])
}

/// Fields read in base sixty, most significant first.
pub open spec fn sexagesimal(fs: Seq<Seq<char>>) -> nat
    decreases fs.len(),
{
    if fs.len() == 0 {
        0
    } else {
        sexagesimal(fs.drop_last()) * 60 + digits_value(fs.last())
    }
}

/// The whole seconds that a timestamp gives: `HH * 3600 + MM * 60 + SS`.
pub open spec fn timestamp_seconds(s: Seq<char>) -> nat {
    sexagesimal(whole_fields(s))
}

/// The digits after the decimal point of a timestamp, empty when it has none.
pub open spec fn timestamp_fraction(s: Seq<char>) -> Seq<char> {
    let ps = seconds_parts(s);
    if ps.len() == 2 {
        ps[1]
    } else {
        Seq::empty()
    }
}

/// Splitting always gives at least one piece.
pub proof fn lemma_split_nonempty(s: Seq<char>, sep: char)
    ensures
        split_on(s, sep).len() >= 1,
    decreases s.len(),
{
    if s.len() > 0 {
        lemma_split_nonempty(s.drop_last(), sep);
    }
}

/// A sequence without `sep` is one piece.
pub proof fn lemma_split_without_sep(a: Seq<char>, sep: char)
    requires
        forall|i: int| 0 <= i < a.len() ==> a[i] != sep,
    ensures
        split_on(a, sep) == seq![a],
    decreases a.len(),
{
    if a.len() > 0 {
        lemma_split_without_sep(a.drop_last(), sep);
        assert(a.drop_last().push(a.last()) =~= a);
        assert(seq![a.drop_last()].update(0, a) =~= seq![a]);
    } else {
        assert(a =~= Seq::<char>::empty());
    }
}

/// Splitting `p`, a separator and `b` gives the pieces of `p` followed by
/// those of `b`.
pub proof fn lemma_split_join(p: Seq<char>, b: Seq<char>, sep: char)
    ensures
        split_on(p + seq![sep] + b, sep) == split_on(p, sep) + split_on(b, sep),
    decreases b.len(),
{
    let s = p + seq![sep] + b;
    lemma_split_nonempty(p, sep);
    if b.len() == 0 {
        assert(s.drop_last() =~= p);
        assert(split_on(b, sep) =~= seq![Seq::<char>::empty()]);
        assert(split_on(p, sep).push(Seq::empty()) =~= split_on(p, sep) + split_on(b, sep));
    } else {
        assert(s.drop_last() =~= p + seq![sep] + b.drop_last());
        lemma_split_join(p, b.drop_last(), sep);
        lemma_split_nonempty(b.drop_last(), sep);
        let l = split_on(p, sep);
        let r = split_on(b.drop_last(), sep);
        if b.last() == sep {
            assert((l + r).push(Seq::empty()) =~= l + r.push(Seq::empty()));
        } else {
            assert((l + r).update((l + r).len() - 1, (l + r).last().push(b.last())) =~= l + r.update(
                r.len() - 1,
                r.last().push(b.last()),
            ));
        }
    }
}

/// A run of digits holds neither a colon nor a decimal point.
pub proof fn lemma_digits_have_no_marks(a: Seq<char>)
    requires
        is_digits(a),
    ensures
        forall|i: int| 0 <= i < a.len() ==> a[i] != ':' && a[i] != '.',
{
    assert forall|i: int| 0 <= i < a.len() implies a[i] != ':' && a[i] != '.' by {
        assert(is_digit(a[i]));
    }
}

/// A seconds field: `ss`, followed by `.` and `fff` when `fff` is not empty.
pub open spec fn seconds_text(ss: Seq<char>, fff: Seq<char>) -> Seq<char> {
    if fff.len() == 0 {
        ss
    } else {
        ss + seq!['.'] + fff
    }
}

/// A seconds field of digit runs has no colon, and cuts at its decimal point
/// into `ss` and, when present, `fff`.
pub proof fn lemma_seconds_text(ss: Seq<char>, fff: Seq<char>)
    requires
        is_digits(ss),
        fff.len() == 0 || is_digits(fff),
    ensures
        split_on(seconds_text(ss, fff), ':') == seq![seconds_text(ss, fff)],
        split_on(seconds_text(ss, fff), '.') == (if fff.len() == 0 {
            seq![ss]
        } else {
            seq![ss, fff]
        }),
{
    let last = seconds_text(ss, fff);
    lemma_digits_have_no_marks(ss);
    if fff.len() == 0 {
        lemma_split_without_sep(ss, ':');
        lemma_split_without_sep(ss, '.');
    } else {
        lemma_digits_have_no_marks(fff);
        assert forall|i: int| 0 <= i < last.len() implies last[i] != ':' by {
            if i < ss.len() {
            } else if i > ss.len() {
                assert(last[i] == fff[i - ss.len() - 1]);
            }
        }
        lemma_split_without_sep(last, ':');
        lemma_split_without_sep(ss, '.');
        lemma_split_without_sep(fff, '.');
        lemma_split_join(ss, fff, '.');
        assert(seq![ss] + seq![fff] =~= seq![ss, fff]);
    }
}

/// `SS` with an optional `.fff`, each part a run of digits, is a timestamp
/// worth `SS` whole seconds, and its fraction is `fff`.
pub proof fn lemma_ss(ss: Seq<char>, fff: Seq<char>)
    requires
        is_digits(ss),
        fff.len() == 0 || is_digits(fff),
    ensures
        is_timestamp(seconds_text(ss, fff)),
        timestamp_seconds(seconds_text(ss, fff)) == digits_value(ss),
        timestamp_fraction(seconds_text(ss, fff)) == fff,
{
    let s = seconds_text(ss, fff);
    lemma_seconds_text(ss, fff);
    let wf = whole_fields(s);
    assert(wf =~= seq![ss]);
    assert(wf.drop_last() =~= Seq::<Seq<char>>::empty());
    assert(sexagesimal(wf.drop_last()) == 0);
    assert(wf.last() == ss);
}

/// `MM:SS` with an optional `.fff`, each part a run of digits, is a
/// timestamp worth `MM * 60 + SS` whole seconds, and its fraction is `fff`.
pub proof fn lemma_mm_ss(mm: Seq<char>, ss: Seq<char>, fff: Seq<char>)
    requires
        is_digits(mm),
        is_digits(ss),
        fff.len() == 0 || is_digits(fff),
    ensures
        ({
            let s = mm + seq![':'] + seconds_text(ss, fff);
            &&& is_timestamp(s)
            &&& timestamp_seconds(s) == digits_value(mm) * 60 + digits_value(ss)
            &&& timestamp_fraction(s) == fff
        }),
{
    let last = seconds_text(ss, fff);
    let s = mm + seq![':'] + last;
    lemma_digits_have_no_marks(mm);
    lemma_split_without_sep(mm, ':');
    lemma_split_join(mm, last, ':');
    lemma_seconds_text(ss, fff);
    assert(colon_fields(s) =~= seq![mm, last]);
    let wf = whole_fields(s);
    assert(wf =~= seq![mm, ss]);
    let w1 = wf.drop_last();
    assert(w1 =~= seq![mm]);
    assert(w1.last() == mm);
    assert(sexagesimal(w1.drop_last()) == 0);
    assert(sexagesimal(w1) == digits_value(mm));
    assert(wf.last() == ss);
}

/// `HH:MM:SS` with an optional `.fff`, each part a run of digits, is a
/// timestamp worth `HH * 3600 + MM * 60 + SS` whole seconds, and its
/// fraction is `fff`.
pub proof fn lemma_hh_mm_ss(hh: Seq<char>, mm: Seq<char>, ss: Seq<char>, fff: Seq<char>)
    requires
        is_digits(hh),
        is_digits(mm),
        is_digits(ss),
        fff.len() == 0 || is_digits(fff),
    ensures
        ({
            let s = hh + seq![':'] + mm + seq![':'] + seconds_text(ss, fff);
            &&& is_timestamp(s)
            &&& timestamp_seconds(s) == digits_value(hh) * 3600 + digits_value(mm) * 60
                + digits_value(ss)
            &&& timestamp_fraction(s) == fff
        }),
{
    let last = seconds_text(ss, fff);
    let s = hh + seq![':'] + mm + seq![':'] + last;
    lemma_digits_have_no_marks(hh);
    lemma_digits_have_no_marks(mm);
    lemma_split_without_sep(hh, ':');
    lemma_split_without_sep(mm, ':');
    lemma_split_join(hh, mm, ':');
    lemma_split_join(hh + seq![':'] + mm, last, ':');
    lemma_seconds_text(ss, fff);
    assert(colon_fields(s) =~= seq![hh, mm, last]);
    let wf = whole_fields(s);
    assert(wf =~= seq![hh, mm, ss]);
    let w1 = wf.drop_last().drop_last();
    assert(w1 =~= seq![hh]);
    assert(w1.last() == hh);
    assert(w1.drop_last() =~= Seq::<Seq<char>>::empty());
    assert(sexagesimal(w1.drop_last()) == 0);
    assert(sexagesimal(w1) == digits_value(hh));
    assert(wf.drop_last().last() == mm);
    assert(sexagesimal(wf.drop_last()) == digits_value(hh) * 60 + digits_value(mm));
    assert(wf.last() == ss);
}

/// A prefix of a run of digits writes no larger number than the run.
pub proof fn lemma_digits_prefix_le(s: Seq<char>, i: int)
    requires
        0 <= i <= s.len(),
    ensures
        digits_value(s.subrange(0, i)) <= digits_value(s),
    decreases s.len(),
{
    if i < s.len() {
        assert(s.drop_last().subrange(0, i) =~= s.subrange(0, i));
        lemma_digits_prefix_le(s.drop_last(), i);
    } else {
        assert(s.subrange(0, i) =~= s);
    }
}

/// The first fields of a timestamp read to no larger number than all of them.
pub proof fn lemma_sexagesimal_prefix_le(fs: Seq<Seq<char>>, i: int)
    requires
        0 <= i <= fs.len(),
    ensures
        sexagesimal(fs.subrange(0, i)) <= sexagesimal(fs),
    decreases fs.len(),
{
    if i < fs.len() {
        assert(fs.drop_last().subrange(0, i) =~= fs.subrange(0, i));
        lemma_sexagesimal_prefix_le(fs.drop_last(), i);
    } else {
        assert(fs.subrange(0, i) =~= fs);
    }
}

/// The contents of each vector of `vs`.
pub open spec fn views_of(vs: Seq<Vec<char>>) -> Seq<Seq<char>> {
    vs.map_values(|v: Vec<char>| v@)
}

/// The characters of `s`, in order.
pub fn chars_of(s: &str) -> (r: Vec<char>)
    ensures
        r@ == s@,
{
    let n = s.unicode_len();
    let mut r: Vec<char> = Vec::new();
    let mut i: usize = 0;
    while i < n
        invariant
            n == s@.len(),
            i <= n,
            r@ == s@.subrange(0, i as int),
        decreases n - i,
    {
        r.push(s.get_char(i));
        i = i + 1;
    }
    assert(r@ =~= s@);
    r
}

/// Cuts `cs` at every `sep`.
pub fn split_chars(cs: &Vec<char>, sep: char) -> (r: Vec<Vec<char>>)
    ensures
        views_of(r@) == split_on(cs@, sep),
{
    let mut r: Vec<Vec<char>> = Vec::new();
    r.push(Vec::new());
    proof {
        assert(cs@.subrange(0, 0) =~= Seq::<char>::empty());
        assert(views_of(r@) =~= seq![Seq::<char>::empty()]);
    }
    let mut i: usize = 0;
    while i < cs.len()
        invariant
            i <= cs.len(),
            r.len() >= 1,
            views_of(r@) == split_on(cs@.subrange(0, i as int), sep),
        decreases cs.len() - i,
    {
        let c = cs[i];
        let ghost prev = views_of(r@);
        proof {
            let t = cs@.subrange(0, i + 1);
            assert(t.drop_last() =~= cs@.subrange(0, i as int));
            assert(t.last() == c);
        }
        if c == sep {
            r.push(Vec::new());
            assert(views_of(r@) =~= prev.push(Seq::empty()));
        } else {
            let mut last = r.pop().unwrap();
            last.push(c);
            r.push(last);
            assert(views_of(r@) =~= prev.update(prev.len() - 1, prev.last().push(c)));
        }
        i = i + 1;
    }
    assert(cs@.subrange(0, cs.len() as int) =~= cs@);
    r
}

/// Whether `v` is a non-empty run of decimal digits.
pub fn all_digits(v: &Vec<char>) -> (r: bool)
    ensures
        r == is_digits(v@),
{
    if v.len() == 0 {
        return false;
    }
    let mut i: usize = 0;
    while i < v.len()
        invariant
            i <= v.len(),
            forall|j: int| 0 <= j < i ==> is_digit(#[trigger] v@[j]),
        decreases v.len() - i,
    {
        let c = v[i];
        if !('0' <= c && c <= '9') {
            return false;
        }
        i = i + 1;
    }
    true
}

/// The number that the digits of `v` write, or `None` when it exceeds `u64`.
pub fn digits_to_u64(v: &Vec<char>) -> (r: Option<u64>)
    requires
        is_digits(v@),
    ensures
        r == (if digits_value(v@) <= u64::MAX {
            Some(digits_value(v@) as u64)
        } else {
            None
        }),
{
    let mut acc: u64 = 0;
    let mut i: usize = 0;
    assert(v@.subrange(0, 0) =~= Seq::<char>::empty());
    while i < v.len()
        invariant
            is_digits(v@),
            i <= v.len(),
            acc as nat == digits_value(v@.subrange(0, i as int)),
        decreases v.len() - i,
    {
        let c = v[i];
        assert(is_digit(v@[i as int]));
        let d: u64 = ((c as u32) - ('0' as u32)) as u64;
        let ghost t = v@.subrange(0, i + 1);
        assert(t.drop_last() =~= v@.subrange(0, i as int));
        assert(t.last() == c);
        match acc.checked_mul(10) {
            Some(m) => match m.checked_add(d) {
                Some(n) => {
                    acc = n;
                },
                None => {
                    proof {
                        lemma_digits_prefix_le(v@, i + 1);
                    }
                    return None;
                },
            },
            None => {
                proof {
                    lemma_digits_prefix_le(v@, i + 1);
                }
                return None;
            },
        }
        i = i + 1;
    }
    assert(v@.subrange(0, v.len() as int) =~= v@);
    Some(acc)
}

/// What reading the timestamp `s` gives: its seconds when it is well formed
/// and they fit in `u64`, `TooLarge` when they do not fit, `Format` otherwise;
/// each error holds `s`.
pub open spec fn timestamp_outcome(s: Seq<char>, r: Result<Seconds, DurationError>) -> bool {
    match r {
        Ok(v) => is_timestamp(s) && timestamp_seconds(s) <= u64::MAX && v.whole
            == timestamp_seconds(s) && v.frac@ == timestamp_fraction(s),
        Err(DurationError::TooLarge(raw)) => is_timestamp(s) && timestamp_seconds(s) > u64::MAX
            && raw@ == s,
        Err(DurationError::Format(raw)) => !is_timestamp(s) && raw@ == s,
    }
}

/// Reads a `[[HH:]MM:]SS[.fraction]` timestamp into exact seconds.
pub fn parse_timestamp(s: &str) -> (r: Result<Seconds, DurationError>)
    ensures
        timestamp_outcome(s@, r),
{
    let cs = chars_of(s);
    let fs = split_chars(&cs, ':');
    proof {
        lemma_split_nonempty(s@, ':');
    }
    let ghost gfs = colon_fields(s@);
    assert(views_of(fs@) == gfs);
    let n = fs.len();
    assert(fs@[n - 1]@ == gfs[n - 1]);
    if n > 3 {
        return Err(DurationError::Format(s.to_owned()));
    }
    let mut k: usize = 0;
    while k + 1 < n
        invariant
            n == fs.len(),
            1 <= n <= 3,
            k < n,
            views_of(fs@) == gfs,
            gfs == colon_fields(s@),
            forall|i: int| 0 <= i < k ==> is_digits(#[trigger] gfs[i]),
        decreases n - k,
    {
        assert(fs@[k as int]@ == gfs[k as int]);
        if !all_digits(&fs[k]) {
            assert(!is_digits(colon_fields(s@)[k as int]));
            return Err(DurationError::Format(s.to_owned()));
        }
        k = k + 1;
    }
    let mut ps = split_chars(&fs[n - 1], '.');
    let ghost gps = seconds_parts(s@);
    proof {
        lemma_split_nonempty(gfs.last(), '.');
    }
    assert(views_of(ps@) == gps);
    let m = ps.len();
    if m > 2 {
        return Err(DurationError::Format(s.to_owned()));
    }
    let mut j: usize = 0;
    while j < m
        invariant
            m == ps.len(),
            1 <= m <= 2,
            j <= m,
            views_of(ps@) == gps,
            gps == seconds_parts(s@),
            forall|i: int| 0 <= i < j ==> is_digits(#[trigger] gps[i]),
        decreases m - j,
    {
        assert(ps@[j as int]@ == gps[j as int]);
        if !all_digits(&ps[j]) {
            assert(!is_digits(seconds_parts(s@)[j as int]));
            return Err(DurationError::Format(s.to_owned()));
        }
        j = j + 1;
    }
    assert(is_timestamp(s@));
    let ghost wf = whole_fields(s@);
    assert(ps@[0]@ == gps[0]);
    let mut total: u64 = 0;
    let mut i: usize = 0;
    assert(wf.subrange(0, 0) =~= Seq::<Seq<char>>::empty());
    while i < n
        invariant
            n == fs.len(),
            1 <= n <= 3,
            i <= n,
            views_of(fs@) == gfs,
            views_of(ps@) == gps,
            1 <= ps.len() <= 2,
            is_timestamp(s@),
            wf == whole_fields(s@),
            gfs == colon_fields(s@),
            gps == seconds_parts(s@),
            wf.len() == n,
            total as nat == sexagesimal(wf.subrange(0, i as int)),
        decreases n - i,
    {
        let piece = if i + 1 == n {
            &ps[0]
        } else {
            &fs[i]
        };
        if i + 1 == n {
            assert(piece@ == gps[0]);
        } else {
            assert(piece@ == views_of(fs@)[i as int]);
        }
        assert(piece@ == wf[i as int]);
        assert(is_digits(piece@));
        let ghost t = wf.subrange(0, i + 1);
        assert(t.drop_last() =~= wf.subrange(0, i as int));
        let step = match digits_to_u64(piece) {
            Some(d) => match total.checked_mul(60) {
                Some(x) => x.checked_add(d),
                None => None,
            },
            None => None,
        };
        match step {
            Some(x) => {
                total = x;
            },
            None => {
                proof {
                    lemma_sexagesimal_prefix_le(wf, i + 1);
                }
                return Err(DurationError::TooLarge(s.to_owned()));
            },
        }
        i = i + 1;
    }
    assert(wf.subrange(0, n as int) =~= wf);
    let frac = if m == 2 {
        let f = ps.pop().unwrap();
        assert(f@ == gps[1]);
        f
    } else {
        Vec::new()
    };
    assert(frac@ =~= timestamp_fraction(s@));
    Ok(Seconds { whole: total, frac })
}

/// Normalizes a `duration` field: absence and `null` give `None`, a number
/// is kept as it is, a string is read as a timestamp, and anything else is a
/// `Format` error holding the value's JSON text.
pub fn normalize_duration(input: DurationInput) -> (r: Result<Option<DurationValue>, DurationError>)
    ensures
        match input {
            DurationInput::Absent => r matches Ok(None),
            DurationInput::Number(n) => r == Ok::<Option<DurationValue>, DurationError>(
                Some(DurationValue::Number(n)),
            ),
            DurationInput::Text(t) => match r {
                Ok(Some(DurationValue::Timestamp(v))) => timestamp_outcome(t@, Ok(v)),
                Err(e) => timestamp_outcome(t@, Err(e)),
                _ => false,
            },
            DurationInput::Other(raw) => r matches Err(DurationError::Format(x)) && x == raw,
        },
{
    match input {
        DurationInput::Absent => Ok(None),
        DurationInput::Number(n) => Ok(Some(DurationValue::Number(n))),
        DurationInput::Text(t) => match parse_timestamp(t.as_str()) {
            Ok(v) => Ok(Some(DurationValue::Timestamp(v))),
            Err(e) => Err(e),
        },
        DurationInput::Other(raw) => Err(DurationError::Format(raw)),
    }
}

} // verus!
