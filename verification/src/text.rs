use vstd::prelude::*;
use vstd::std_specs::iter::IteratorSpec;
use vstd::string::StrSliceExecFns;
use vstd::string::StringExecFns;

verus! {

/// The characters of `s`, one by one, for constant-time indexing.
pub fn chars_of(s: &str) -> (r: Vec<char>)
    ensures
        r@ == s@,
{
    broadcast use vstd::string::group_string_axioms;

    let mut out: Vec<char> = Vec::new();
    for c in it: s.chars()
        invariant
            out@ == it.seq().take(it.index() as int),
    {
        out.push(c);
    }
    out
}

/// The first position at or after `from` at which `s` holds `c`, or the
/// length of `s` where there is none.
pub open spec fn find_char(s: Seq<char>, c: char, from: int) -> int
    recommends
        0 <= from,
    decreases s.len() - from,
{
    if from >= s.len() {
        s.len() as int
    } else if s[from] == c {
        from
    } else {
        find_char(s, c, from + 1)
    }
}

/// What `find_char` finds is the first occurrence from `from` on.
pub proof fn lemma_find_char(s: Seq<char>, c: char, from: int)
    requires
        0 <= from <= s.len(),
    ensures
        from <= find_char(s, c, from) <= s.len(),
        find_char(s, c, from) < s.len() ==> s[find_char(s, c, from)] == c,
        forall|i: int| from <= i < find_char(s, c, from) ==> s[i] != c,
    decreases s.len() - from,
{
    if from < s.len() && s[from] != c {
        lemma_find_char(s, c, from + 1);
    }
}

/// Searches `chars` for `c` from `from` on.
pub fn find_from(chars: &Vec<char>, c: char, from: usize) -> (r: usize)
    requires
        from <= chars.len(),
    ensures
        r == find_char(chars@, c, from as int),
        from <= r <= chars.len(),
{
    let mut i: usize = from;
    while i < chars.len() && chars[i] != c
        invariant
            from <= i <= chars.len(),
            find_char(chars@, c, from as int) == find_char(chars@, c, i as int),
        decreases chars.len() - i,
    {
        i += 1;
    }
    i
}

/// The fields of `s` between occurrences of `delim`. A text without the
/// delimiter is one field; `n` delimiters give `n + 1` fields, empty ones
/// included.
pub open spec fn split(s: Seq<char>, delim: char) -> Seq<Seq<char>>
    decreases s.len(),
{
    if s.len() == 0 {
        seq![Seq::<char>::empty()]
    } else {
        let before = split(s.drop_last(), delim);
        if s.last() == delim {
            before.push(Seq::empty())
        } else {
            before.update(before.len() - 1, before.last().push(s.last()))
        }
    }
}

/// The fields joined into one text, with `delim` between each two.
pub open spec fn join(fields: Seq<Seq<char>>, delim: char) -> Seq<char>
    decreases fields.len(),
{
    if fields.len() == 0 {
        Seq::empty()
    } else if fields.len() == 1 {
        fields[0]
    } else {
        join(fields.drop_last(), delim).push(delim) + fields.last()
    }
}

/// A split has a field at least, no field of it holds the delimiter, and its
/// fields joined by the delimiter are the text that was split.
pub proof fn lemma_split_join(s: Seq<char>, delim: char)
    ensures
        split(s, delim).len() >= 1,
        join(split(s, delim), delim) == s,
        forall|k: int, i: int|
            0 <= k < split(s, delim).len() && 0 <= i < split(s, delim)[k].len() ==> split(
                s,
                delim,
            )[k][i] != delim,
    decreases s.len(),
{
    if s.len() == 0 {
        assert(join(split(s, delim), delim) =~= s);
    } else {
        let before = split(s.drop_last(), delim);
        let c = s.last();
        let now = split(s, delim);
        lemma_split_join(s.drop_last(), delim);
        assert(s =~= s.drop_last().push(c));
        if c == delim {
            assert(now.drop_last() =~= before);
            assert(join(now, delim) =~= join(before, delim).push(delim));
        } else if before.len() == 1 {
            assert(join(now, delim) =~= join(before, delim).push(c));
        } else {
            assert(now.drop_last() =~= before.drop_last());
            assert(join(now, delim) =~= join(before, delim).push(c));
        }
        assert forall|k: int, i: int| 0 <= k < now.len() && 0 <= i < now[k].len() implies now[k][i]
            != delim by {
            if k < before.len() && i < before[k].len() {
                assert(before[k][i] != delim);
            }
        }
    }
}

/// The stretch of `s` from `r.0` up to `r.1`.
pub open spec fn stretch(s: Seq<char>, r: (usize, usize)) -> Seq<char> {
    s.subrange(r.0 as int, r.1 as int)
}

/// The pairs of `ranges` mark the fields `fields` in `s`, one by one.
pub open spec fn marks(s: Seq<char>, ranges: Seq<(usize, usize)>, fields: Seq<Seq<char>>) -> bool {
    &&& ranges.len() <= fields.len()
    &&& forall|k: int|
        #![trigger ranges[k]]
        0 <= k < ranges.len() ==> {
            &&& ranges[k].0 <= ranges[k].1 <= s.len()
            &&& stretch(s, ranges[k]) == fields[k]
        }
}

/// Splits `chars` at each `delim`, giving each field as the pair of positions
/// where it starts and ends.
pub fn split_ranges(chars: &Vec<char>, delim: char) -> (r: Vec<(usize, usize)>)
    ensures
        r.len() == split(chars@, delim).len(),
        marks(chars@, r@, split(chars@, delim)),
{
    let mut done: Vec<(usize, usize)> = Vec::new();
    let mut start: usize = 0;
    let mut i: usize = 0;
    while i < chars.len()
        invariant
            start <= i <= chars.len(),
            split(chars@.take(i as int), delim).len() == done.len() + 1,
            split(chars@.take(i as int), delim).last() == chars@.subrange(start as int, i as int),
            marks(chars@, done@, split(chars@.take(i as int), delim)),
        decreases chars.len() - i,
    {
        let ghost before = split(chars@.take(i as int), delim);
        let ghost after = split(chars@.take(i + 1), delim);
        let ghost had = done@;
        proof {
            let ghost next = chars@.take(i + 1);
            assert(next.drop_last() == chars@.take(i as int));
            assert(next.last() == chars@[i as int]);
            if chars@[i as int] != delim {
                assert(chars@.subrange(start as int, i as int).push(chars@[i as int])
                    == chars@.subrange(start as int, i + 1));
            } else {
                assert(chars@.subrange(i + 1, i + 1) == Seq::<char>::empty());
            }
        }
        if chars[i] == delim {
            done.push((start, i));
            start = i + 1;
        }
        i += 1;
        proof {
            assert forall|k: int| #![trigger done@[k]] 0 <= k < done@.len() implies {
                &&& done@[k].0 <= done@[k].1 <= chars@.len()
                &&& stretch(chars@, done@[k]) == after[k]
            } by {
                if k < had.len() {
                    assert(done@[k] == had[k]);
                    assert(stretch(chars@, had[k]) == before[k]);
                    assert(after[k] == before[k]);
                } else {
                    assert(after[k] == before.last());
                }
            }
        }
    }
    assert(chars@.take(i as int) == chars@);
    let ghost had = done@;
    done.push((start, i));
    proof {
        assert forall|k: int| #![trigger done@[k]] 0 <= k < done@.len() implies {
            &&& done@[k].0 <= done@[k].1 <= chars@.len()
            &&& stretch(chars@, done@[k]) == split(chars@, delim)[k]
        } by {
            if k < had.len() {
                assert(done@[k] == had[k]);
            }
        }
    }
    done
}

/// The text of `text` from position `from` up to position `to`, as a value
/// of its own.
pub fn piece(text: &str, from: usize, to: usize) -> (r: String)
    requires
        from <= to <= text@.len(),
    ensures
        r@ == text@.subrange(from as int, to as int),
{
    String::from_str(text.substring_char(from, to))
}

/// Whether `c` is white space: the characters that Unicode gives the
/// property `White_Space`.
pub open spec fn is_space(c: char) -> bool {
    let n = c as u32;
    ||| 0x09 <= n <= 0x0D
    ||| n == 0x20
    ||| n == 0x85
    ||| n == 0xA0
    ||| n == 0x1680
    ||| 0x2000 <= n <= 0x200A
    ||| n == 0x2028
    ||| n == 0x2029
    ||| n == 0x202F
    ||| n == 0x205F
    ||| n == 0x3000
}

/// Tests a character for white space.
pub fn char_is_space(c: char) -> (r: bool)
    ensures
        r == is_space(c),
{
    let n: u32 = c as u32;
    (0x09 <= n && n <= 0x0D) || n == 0x20 || n == 0x85 || n == 0xA0 || n == 0x1680 || (0x2000 <= n
        && n <= 0x200A) || n == 0x2028 || n == 0x2029 || n == 0x202F || n == 0x205F || n == 0x3000
}

/// `s` without the white space at its end.
pub open spec fn trim_end(s: Seq<char>) -> Seq<char>
    decreases s.len(),
{
    if s.len() > 0 && is_space(s.last()) {
        trim_end(s.drop_last())
    } else {
        s
    }
}

/// The end of the stretch from `from` to `to` once the white space at its end
/// is left off.
pub fn trimmed_end(chars: &Vec<char>, from: usize, to: usize) -> (r: usize)
    requires
        from <= to <= chars.len(),
    ensures
        from <= r <= to,
        chars@.subrange(from as int, r as int) == trim_end(chars@.subrange(from as int, to as int)),
{
    let mut end: usize = to;
    while end > from && char_is_space(chars[end - 1])
        invariant
            from <= end <= to <= chars.len(),
            trim_end(chars@.subrange(from as int, end as int)) == trim_end(
                chars@.subrange(from as int, to as int),
            ),
        decreases end,
    {
        proof {
            let ghost cur = chars@.subrange(from as int, end as int);
            assert(cur.last() == chars@[end - 1]);
            assert(cur.drop_last() == chars@.subrange(from as int, end - 1));
        }
        end -= 1;
    }
    proof {
        let ghost cur = chars@.subrange(from as int, end as int);
        if end > from {
            assert(cur.last() == chars@[end - 1]);
        }
    }
    end
}

/// Whether two texts are the same, character for character.
pub fn same_text(a: &str, b: &str) -> (r: bool)
    ensures
        r == (a@ == b@),
{
    let left = chars_of(a);
    let right = chars_of(b);
    if left.len() != right.len() {
        return false;
    }
    let mut i: usize = 0;
    while i < left.len()
        invariant
            left@ == a@,
            right@ == b@,
            left.len() == right.len(),
            i <= left.len(),
            forall|j: int| 0 <= j < i ==> left@[j] == right@[j],
        decreases left.len() - i,
    {
        if left[i] != right[i] {
            return false;
        }
        i += 1;
    }
    assert(left@ =~= right@);
    true
}

/// Whether `pat` stands in `s` at position `i`.
pub open spec fn occurs_at(s: Seq<char>, pat: Seq<char>, i: int) -> bool {
    0 <= i && i + pat.len() <= s.len() && s.subrange(i, i + pat.len()) == pat
}

/// Tests whether `pat` stands in `chars` at position `i`.
pub fn starts_at(chars: &Vec<char>, pat: &Vec<char>, i: usize) -> (r: bool)
    requires
        i <= chars.len(),
    ensures
        r == occurs_at(chars@, pat@, i as int),
{
    if pat.len() > chars.len() - i {
        return false;
    }
    let mut k: usize = 0;
    while k < pat.len()
        invariant
            i + pat.len() <= chars.len(),
            k <= pat.len(),
            forall|j: int| 0 <= j < k ==> chars@[i + j] == pat@[j],
        decreases pat.len() - k,
    {
        if chars[i + k] != pat[k] {
            proof {
                let ghost window = chars@.subrange(i as int, i + pat.len());
                assert(window[k as int] == chars@[i + k]);
            }
            return false;
        }
        k += 1;
    }
    assert(chars@.subrange(i as int, i + pat.len()) =~= pat@);
    true
}

/// The greatest position from `lo` to `hi` at which `pat` stands in `s`, or
/// `lo - 1` where it stands at none of them.
pub open spec fn last_occurrence(s: Seq<char>, pat: Seq<char>, lo: int, hi: int) -> int
    decreases hi - lo + 1,
{
    if hi < lo {
        lo - 1
    } else if occurs_at(s, pat, hi) {
        hi
    } else {
        last_occurrence(s, pat, lo, hi - 1)
    }
}

/// What `last_occurrence` finds is the last occurrence within its bounds.
pub proof fn lemma_last_occurrence(s: Seq<char>, pat: Seq<char>, lo: int, hi: int)
    ensures
        lo - 1 <= last_occurrence(s, pat, lo, hi),
        hi >= lo - 1 ==> last_occurrence(s, pat, lo, hi) <= hi,
        last_occurrence(s, pat, lo, hi) >= lo ==> occurs_at(
            s,
            pat,
            last_occurrence(s, pat, lo, hi),
        ),
        forall|q: int|
            last_occurrence(s, pat, lo, hi) < q <= hi && lo <= q ==> !occurs_at(s, pat, q),
    decreases hi - lo + 1,
{
    if hi >= lo && !occurs_at(s, pat, hi) {
        lemma_last_occurrence(s, pat, lo, hi - 1);
    }
}

/// Searches `chars` backwards for `pat`, among the positions from `lo` on at
/// which it would end at `end` or before.
pub fn find_last(chars: &Vec<char>, pat: &Vec<char>, lo: usize, end: usize) -> (r: Option<usize>)
    requires
        lo <= end <= chars.len(),
    ensures
        match r {
            Some(q) => q == last_occurrence(chars@, pat@, lo as int, end - pat.len()) && lo <= q,
            None => last_occurrence(chars@, pat@, lo as int, end - pat.len()) < lo,
        },
{
    if end - lo < pat.len() {
        return None;
    }
    let mut q: usize = end - pat.len();
    loop
        invariant
            lo <= q <= end - pat.len(),
            end <= chars.len(),
            last_occurrence(chars@, pat@, lo as int, end - pat.len()) == last_occurrence(
                chars@,
                pat@,
                lo as int,
                q as int,
            ),
        decreases q,
    {
        if starts_at(chars, pat, q) {
            return Some(q);
        }
        if q == lo {
            assert(last_occurrence(chars@, pat@, lo as int, lo - 1) == lo - 1);
            return None;
        }
        q -= 1;
    }
}

/// `s` from position `i` on, with every occurrence of `from` replaced by
/// `to`, found from left to right without overlap.
pub open spec fn replace_from(s: Seq<char>, from: Seq<char>, to: Seq<char>, i: int) -> Seq<char>
    recommends
        0 <= i,
        from.len() > 0,
    decreases s.len() - i,
{
    if i >= s.len() || from.len() == 0 {
        Seq::empty()
    } else if occurs_at(s, from, i) {
        to + replace_from(s, from, to, i + from.len())
    } else {
        seq![s[i]] + replace_from(s, from, to, i + 1)
    }
}

/// `s` with every occurrence of `from` replaced by `to`. The occurrences are
/// found from left to right and do not overlap. Nothing stands for an empty
/// `from`: `s` is then left as it is.
pub open spec fn replace_all(s: Seq<char>, from: Seq<char>, to: Seq<char>) -> Seq<char> {
    if from.len() == 0 {
        s
    } else {
        replace_from(s, from, to, 0)
    }
}

proof fn lemma_replace_from_absent(s: Seq<char>, from: Seq<char>, to: Seq<char>, i: int)
    requires
        0 <= i <= s.len(),
        from.len() > 0,
        forall|j: int| i <= j < s.len() ==> !occurs_at(s, from, j),
    ensures
        replace_from(s, from, to, i) == s.skip(i),
    decreases s.len() - i,
{
    if i < s.len() {
        lemma_replace_from_absent(s, from, to, i + 1);
        assert(seq![s[i]] + s.skip(i + 1) =~= s.skip(i));
    } else {
        assert(s.skip(i) =~= Seq::<char>::empty());
    }
}

/// Where `from` stands nowhere in `s`, replacing it changes nothing.
pub proof fn lemma_replace_absent(s: Seq<char>, from: Seq<char>, to: Seq<char>)
    requires
        forall|j: int| !occurs_at(s, from, j),
    ensures
        replace_all(s, from, to) == s,
{
    if from.len() > 0 {
        lemma_replace_from_absent(s, from, to, 0);
        assert(s.skip(0) =~= s);
    }
}

proof fn lemma_replace_from_by_itself(s: Seq<char>, from: Seq<char>, i: int)
    requires
        0 <= i <= s.len(),
        from.len() > 0,
    ensures
        replace_from(s, from, from, i) == s.skip(i),
    decreases s.len() - i,
{
    if i >= s.len() {
        assert(s.skip(i) =~= Seq::<char>::empty());
    } else if occurs_at(s, from, i) {
        lemma_replace_from_by_itself(s, from, i + from.len());
        assert(from + s.skip(i + from.len()) =~= s.skip(i));
    } else {
        lemma_replace_from_by_itself(s, from, i + 1);
        assert(seq![s[i]] + s.skip(i + 1) =~= s.skip(i));
    }
}

/// Replacing a text by itself changes nothing.
pub proof fn lemma_replace_by_itself(s: Seq<char>, from: Seq<char>)
    ensures
        replace_all(s, from, from) == s,
{
    if from.len() > 0 {
        lemma_replace_from_by_itself(s, from, 0);
        assert(s.skip(0) =~= s);
    }
}

/// Replaces every occurrence of `from` in `text` by `to`.
pub fn replace_text(text: &str, from: &str, to: &str) -> (r: String)
    ensures
        r@ == replace_all(text@, from@, to@),
{
    let chars = chars_of(text);
    let pat = chars_of(from);
    if pat.len() == 0 {
        return String::from_str(text);
    }
    let mut out = String::new();
    let mut start: usize = 0;
    let mut i: usize = 0;
    while i < chars.len()
        invariant
            chars@ == text@,
            pat@ == from@,
            pat.len() > 0,
            start <= i <= chars.len(),
            replace_from(text@, from@, to@, 0) == out@ + text@.subrange(start as int, i as int)
                + replace_from(text@, from@, to@, i as int),
        decreases chars.len() - i,
    {
        if starts_at(&chars, &pat, i) {
            out.append(text.substring_char(start, i));
            out.append(to);
            proof {
                assert(text@.subrange(i + pat.len(), i + pat.len()) =~= Seq::<char>::empty());
                assert(replace_from(text@, from@, to@, 0) =~= out@ + text@.subrange(
                    i + pat.len(),
                    i + pat.len(),
                ) + replace_from(text@, from@, to@, i + pat.len()));
            }
            i += pat.len();
            start = i;
        } else {
            proof {
                assert(text@.subrange(start as int, i as int) + seq![text@[i as int]]
                    =~= text@.subrange(start as int, i + 1));
                assert(replace_from(text@, from@, to@, 0) =~= out@ + text@.subrange(
                    start as int,
                    i + 1,
                ) + replace_from(text@, from@, to@, i + 1));
            }
            i += 1;
        }
    }
    out.append(text.substring_char(start, i));
    assert(replace_from(text@, from@, to@, 0) =~= out@);
    out
}

/// The character that writes the digit `d`.
pub open spec fn digit_char(d: nat) -> char
    recommends
        d < 10,
{
    if d == 0 {
        '0'
    } else if d == 1 {
        '1'
    } else if d == 2 {
        '2'
    } else if d == 3 {
        '3'
    } else if d == 4 {
        '4'
    } else if d == 5 {
        '5'
    } else if d == 6 {
        '6'
    } else if d == 7 {
        '7'
    } else if d == 8 {
        '8'
    } else {
        '9'
    }
}

/// `n` written in decimal, without sign or leading zeros.
pub open spec fn decimal(n: nat) -> Seq<char>
    decreases n,
{
    if n < 10 {
        seq![digit_char(n)]
    } else {
        decimal(n / 10).push(digit_char(n % 10))
    }
}

/// The one-character text of a digit.
pub fn digit_text(d: usize) -> (r: &'static str)
    requires
        d < 10,
    ensures
        r@ == seq![digit_char(d as nat)],
{
    proof {
        reveal_strlit("0");
        reveal_strlit("1");
        reveal_strlit("2");
        reveal_strlit("3");
        reveal_strlit("4");
        reveal_strlit("5");
        reveal_strlit("6");
        reveal_strlit("7");
        reveal_strlit("8");
        reveal_strlit("9");
    }
    let r = if d == 0 {
        "0"
    } else if d == 1 {
        "1"
    } else if d == 2 {
        "2"
    } else if d == 3 {
        "3"
    } else if d == 4 {
        "4"
    } else if d == 5 {
        "5"
    } else if d == 6 {
        "6"
    } else if d == 7 {
        "7"
    } else if d == 8 {
        "8"
    } else {
        "9"
    };
    assert(r@ =~= seq![digit_char(d as nat)]);
    r
}

/// Writes `n` in decimal at the end of `out`.
pub fn push_decimal(out: &mut String, n: usize)
    ensures
        final(out)@ == old(out)@ + decimal(n as nat),
    decreases n,
{
    if n >= 10 {
        push_decimal(out, n / 10);
    }
    out.append(digit_text(n % 10));
    proof {
        if n >= 10 {
            assert(old(out)@ + decimal(n as nat / 10) + seq![digit_char(n as nat % 10)] =~= old(
                out,
            )@ + decimal(n as nat));
        }
    }
}

/// Whether `c` is one of the ten digits.
pub open spec fn is_digit(c: char) -> bool {
    '0' <= c <= '9'
}

/// The number that the digit `c` writes.
pub open spec fn digit_value(c: char) -> nat
    recommends
        is_digit(c),
{
    (c as u32 - '0' as u32) as nat
}

/// The number that the digits of `s` write in decimal.
pub open spec fn digits_value(s: Seq<char>) -> nat
    decreases s.len(),
{
    if s.len() == 0 {
        0
    } else {
        digits_value(s.drop_last()) * 10 + digit_value(s.last())
    }
}

/// Every character of `s` is a digit.
pub open spec fn all_digits(s: Seq<char>) -> bool {
    forall|i: int| 0 <= i < s.len() ==> is_digit(#[trigger] s[i])
}

/// `s` without the one plus sign that may stand before a number.
pub open spec fn unsigned_part(s: Seq<char>) -> Seq<char> {
    if s.len() > 0 && s[0] == '+' {
        s.skip(1)
    } else {
        s
    }
}

/// The number that `s` writes, where it writes one that is at most `max`: an
/// optional plus sign, then one digit or more and nothing else. Leading zeros
/// count for nothing.
pub open spec fn parse_unsigned(s: Seq<char>, max: nat) -> Option<nat> {
    let digits = unsigned_part(s);
    if digits.len() > 0 && all_digits(digits) && digits_value(digits) <= max {
        Some(digits_value(digits))
    } else {
        None
    }
}

/// What `decimal` writes of a number, `parse_unsigned` reads as that number.
pub proof fn lemma_decimal_read_back(n: nat, max: nat)
    requires
        n <= max,
    ensures
        parse_unsigned(decimal(n), max) == Some(n),
{
    lemma_decimal_digits(n);
    assert(decimal(n)[0] != '+');
}

proof fn lemma_decimal_digits(n: nat)
    ensures
        decimal(n).len() > 0,
        all_digits(decimal(n)),
        digits_value(decimal(n)) == n,
    decreases n,
{
    if n < 10 {
        let one = decimal(n);
        assert(one.drop_last() =~= Seq::<char>::empty());
        assert(digits_value(one.drop_last()) == 0);
        assert(digit_value(one.last()) == n);
    } else {
        lemma_decimal_digits(n / 10);
        let all = decimal(n);
        assert(all.drop_last() =~= decimal(n / 10));
        assert(digit_value(all.last()) == n % 10);
        assert forall|i: int| 0 <= i < all.len() implies is_digit(#[trigger] all[i]) by {
            if i < all.len() - 1 {
                assert(all[i] == decimal(n / 10)[i]);
            }
        }
    }
}

/// The number written by some digits is at least the number written by any
/// of their beginnings.
pub proof fn lemma_digits_value_grows(s: Seq<char>, k: int)
    requires
        0 <= k <= s.len(),
    ensures
        digits_value(s.take(k)) <= digits_value(s),
    decreases s.len(),
{
    if k < s.len() {
        lemma_digits_value_grows(s.drop_last(), k);
        assert(s.drop_last().take(k) == s.take(k));
    } else {
        assert(s.take(k) == s);
    }
}

/// Reads the number written in `chars` between `from` and `to`.
pub fn parse_number(chars: &Vec<char>, from: usize, to: usize, max: usize) -> (r: Option<usize>)
    requires
        from <= to <= chars.len(),
    ensures
        match r {
            Some(n) => parse_unsigned(chars@.subrange(from as int, to as int), max as nat) == Some(
                n as nat,
            ),
            None => parse_unsigned(chars@.subrange(from as int, to as int), max as nat) is None,
        },
{
    let ghost s = chars@.subrange(from as int, to as int);
    let mut first: usize = from;
    if from < to && chars[from] == '+' {
        first = from + 1;
    }
    let ghost digits = chars@.subrange(first as int, to as int);
    assert(digits =~= unsigned_part(s)) by {
        if from < to {
            assert(s[0] == chars@[from as int]);
        }
    }
    if first == to {
        return None;
    }
    let mut value: usize = 0;
    let mut i: usize = first;
    while i < to
        invariant
            from <= first <= i <= to <= chars.len(),
            first < to,
            digits == chars@.subrange(first as int, to as int),
            digits == unsigned_part(chars@.subrange(from as int, to as int)),
            all_digits(digits.take(i - first)),
            value == digits_value(digits.take(i - first)),
            value <= max,
        decreases to - i,
    {
        let c = chars[i];
        let ghost upto = digits.take(i - first + 1);
        proof {
            assert(digits[i - first] == c);
            assert(upto.drop_last() == digits.take(i - first));
            assert(upto.last() == c);
        }
        if !(c >= '0' && c <= '9') {
            assert(!is_digit(digits[i - first]));
            return None;
        }
        let d: usize = (c as u32 - '0' as u32) as usize;
        assert(digits_value(upto) == value * 10 + d);
        proof {
            lemma_digits_value_grows(digits, i - first + 1);
            assert forall|j: int| 0 <= j < upto.len() implies is_digit(#[trigger] upto[j]) by {
                if j < i - first {
                    assert(upto[j] == digits.take(i - first)[j]);
                }
            }
        }
        if d > max || value > (max - d) / 10 {
            proof {
                assert(value * 10 + d > max) by (nonlinear_arith)
                    requires
                        d > max || value > (max - d) / 10,
                ;
            }
            return None;
        }
        proof {
            assert(value * 10 + d <= max) by (nonlinear_arith)
                requires
                    value <= (max - d) / 10,
                    d <= max,
            ;
        }
        value = value * 10 + d;
        i += 1;
    }
    assert(digits.take(i - first) == digits);
    Some(value)
}

} // verus!
