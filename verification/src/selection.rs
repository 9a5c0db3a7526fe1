//! Parsing of a numbered-selection answer: a comma-separated list of
//! one-based positions and ranges, such as `1,3,5-7`, or the word `all`.

use vstd::prelude::*;

verus! {

/// What can go wrong while a selection is parsed.
#[derive(Debug, PartialEq, Eq, Structural)]
pub enum SelectionError {
    /// A piece that should be a number is not one, or does not fit.
    NotANumber,
    /// A range whose bounds are out of order, zero, or past the last
    /// candidate.
    InvalidRange(usize, usize),
    /// A single position that is zero or past the last candidate.
    InvalidNumber(usize),
}

/// Whether a character counts as trimmable whitespace.
pub open spec fn is_ws(c: char) -> bool {
    c == ' ' || c == '\t' || c == '\n' || c == '\r'
}

/// A sequence without its leading whitespace.
pub open spec fn trim_front(s: Seq<char>) -> Seq<char>
    decreases s.len(),
{
    if s.len() > 0 && is_ws(s[0]) {
        trim_front(s.drop_first())
    } else {
        s
    }
}

/// A sequence without its trailing whitespace.
pub open spec fn trim_back(s: Seq<char>) -> Seq<char>
    decreases s.len(),
{
    if s.len() > 0 && is_ws(s.last()) {
        trim_back(s.drop_last())
    } else {
        s
    }
}

/// A sequence without its leading and trailing whitespace.
pub open spec fn trim_spec(s: Seq<char>) -> Seq<char> {
    trim_back(trim_front(s))
}

/// The first position of `c`, if any.
pub open spec fn find_char(s: Seq<char>, c: char) -> Option<int>
    decreases s.len(),
{
    if s.len() == 0 {
        None
    } else if s[0] == c {
        Some(0)
    } else {
        match find_char(s.drop_first(), c) {
            None => None,
            Some(j) => Some(j + 1),
        }
    }
}

/// What a `find_char` answer means position by position.
pub proof fn lemma_find_char_props(s: Seq<char>, c: char)
    ensures
        match find_char(s, c) {
            Some(i) => 0 <= i < s.len() && s[i] == c && (forall|j: int| 0 <= j < i ==> s[j] != c),
            None => forall|j: int| 0 <= j < s.len() ==> s[j] != c,
        },
    decreases s.len(),
{
    if s.len() > 0 && s[0] != c {
        lemma_find_char_props(s.drop_first(), c);
        assert forall|j: int| 1 <= j < s.len() implies s[j] == s.drop_first()[j - 1] by {}
    }
}

/// The pieces of `s` between occurrences of the separator `c`; one piece
/// more than there are separators.
pub open spec fn split_on(s: Seq<char>, c: char) -> Seq<Seq<char>>
    decreases s.len(),
    via split_on_decreases
{
    match find_char(s, c) {
        None => seq![s],
        Some(i) => seq![s.subrange(0, i)] + split_on(s.subrange(i + 1, s.len() as int), c),
    }
}

#[via_fn]
proof fn split_on_decreases(s: Seq<char>, c: char) {
    lemma_find_char_props(s, c);
}

/// Whether the sequence is the word `all`, in any mix of letter case.
pub open spec fn is_all_word(s: Seq<char>) -> bool {
    s.len() == 3 && (s[0] == 'a' || s[0] == 'A') && (s[1] == 'l' || s[1] == 'L') && (s[2] == 'l'
        || s[2] == 'L')
}

/// Whether a character is a decimal digit.
pub open spec fn is_digit(c: char) -> bool {
    48 <= c as u32 <= 57
}

/// The numeric value of a digit run, most significant first.
pub open spec fn digits_val(s: Seq<char>) -> int
    decreases s.len(),
{
    if s.len() == 0 {
        0
    } else {
        digits_val(s.drop_last()) * 10 + (s.last() as u32 - 48)
    }
}

/// Whether every character of the run is a decimal digit.
pub open spec fn all_digits(s: Seq<char>) -> bool {
    forall|i: int| 0 <= i < s.len() ==> is_digit(#[trigger] s[i])
}

/// The number a piece denotes, if it is one the machine can hold: an
/// optional leading `+`, then at least one digit, with a value that fits
/// in `usize`.
pub open spec fn parse_num(s: Seq<char>) -> Option<int> {
    let t = if s.len() >= 2 && s[0] == '+' {
        s.drop_first()
    } else {
        s
    };
    if t.len() > 0 && all_digits(t) && digits_val(t) <= usize::MAX {
        Some(digits_val(t))
    } else {
        None
    }
}

/// What one trimmed, non-empty piece contributes: a single position, a
/// range of positions, nothing for a piece with several dashes, or the
/// error it is rejected with.
pub open spec fn piece_spec(part: Seq<char>, max: int) -> Result<Set<int>, SelectionError> {
    if find_char(part, '-') is Some {
        let pieces = split_on(part, '-');
        if pieces.len() == 2 {
            match parse_num(trim_spec(pieces[0])) {
                None => Err(SelectionError::NotANumber),
                Some(start) => match parse_num(trim_spec(pieces[1])) {
                    None => Err(SelectionError::NotANumber),
                    Some(end) => if start > end || start == 0 || end > max {
                        Err(SelectionError::InvalidRange(start as usize, end as usize))
                    } else {
                        Ok(Set::new(|n: int| start <= n <= end))
                    },
                },
            }
        } else {
            Ok(Set::empty())
        }
    } else {
        match parse_num(part) {
            None => Err(SelectionError::NotANumber),
            Some(n) => if n == 0 || n > max {
                Err(SelectionError::InvalidNumber(n as usize))
            } else {
                Ok(Set::new(|m: int| m == n))
            },
        }
    }
}

/// The positions selected by a run of comma-separated pieces, gathered
/// left to right; the first rejected piece decides the error.
pub open spec fn pieces_spec(ps: Seq<Seq<char>>, max: int, acc: Set<int>) -> Result<
    Set<int>,
    SelectionError,
>
    decreases ps.len(),
{
    if ps.len() == 0 {
        Ok(acc)
    } else {
        let p = trim_spec(ps[0]);
        if p.len() == 0 {
            pieces_spec(ps.drop_first(), max, acc)
        } else {
            match piece_spec(p, max) {
                Err(e) => Err(e),
                Ok(st) => pieces_spec(ps.drop_first(), max, acc.union(st)),
            }
        }
    }
}

/// The set of one-based positions a selection answer names among `max`
/// candidates, or the error it is rejected with: the word `all` names
/// every position, otherwise the comma-separated pieces are gathered.
pub open spec fn selection_spec(s: Seq<char>, max: int) -> Result<Set<int>, SelectionError> {
    if is_all_word(trim_spec(s)) {
        Ok(Set::new(|n: int| 1 <= n <= max))
    } else {
        pieces_spec(split_on(s, ','), max, Set::empty())
    }
}

/// Whether the positions are strictly increasing.
pub open spec fn sorted_unique(v: Seq<usize>) -> bool {
    forall|i: int, j: int| 0 <= i < j < v.len() ==> v[i] < v[j]
}

/// Whether some entry holds the position `y`.
pub open spec fn seq_has(v: Seq<usize>, y: int) -> bool {
    exists|i: int| 0 <= i < v.len() && v[i] as int == y
}

/// The set of positions a run of entries holds.
pub open spec fn set_of(v: Seq<usize>) -> Set<int> {
    Set::new(|y: int| seq_has(v, y))
}

/// The images of a run of character buffers.
pub open spec fn pieces_view(s: Seq<Vec<char>>) -> Seq<Seq<char>> {
    s.map_values(|u: Vec<char>| u@)
}

/// Whether a character counts as trimmable whitespace.
fn is_ws_char(c: char) -> (r: bool)
    ensures
        r == is_ws(c),
{
    c == ' ' || c == '\t' || c == '\n' || c == '\r'
}

/// The characters of a string slice, in order.
fn chars_of(s: &str) -> (v: Vec<char>)
    ensures
        v@ == s@,
{
    let n = s.unicode_len();
    let mut v: Vec<char> = Vec::new();
    let mut i: usize = 0;
    while i < n
        invariant
            i <= n,
            n == s@.len(),
            v@.len() == i as int,
            forall|j: int| 0 <= j < i as int ==> v@[j] == s@[j],
        decreases n - i,
    {
        let c = s.get_char(i);
        v.push(c);
        i = i + 1;
    }
    proof {
        assert(v@ =~= s@);
    }
    v
}

/// Dropping whitespace one leading character at a time reaches the first
/// non-whitespace position.
proof fn lemma_trim_front_at(s: Seq<char>, lo: int)
    requires
        0 <= lo <= s.len(),
        forall|j: int| 0 <= j < lo ==> is_ws(s[j]),
        lo < s.len() ==> !is_ws(s[lo]),
    ensures
        trim_front(s) == s.skip(lo),
    decreases lo,
{
    if lo == 0 {
        assert(s.skip(0) =~= s);
    } else {
        assert(is_ws(s[0]));
        lemma_trim_front_at(s.drop_first(), lo - 1);
        assert(s.drop_first().skip(lo - 1) =~= s.skip(lo));
    }
}

/// Dropping whitespace one trailing character at a time reaches the last
/// non-whitespace position.
proof fn lemma_trim_back_at(s: Seq<char>, hi: int)
    requires
        0 <= hi <= s.len(),
        forall|j: int| hi <= j < s.len() ==> is_ws(s[j]),
        hi > 0 ==> !is_ws(s[hi - 1]),
    ensures
        trim_back(s) == s.take(hi),
    decreases s.len() - hi,
{
    if hi == s.len() {
        assert(s.take(hi) =~= s);
    } else {
        assert(is_ws(s.last()));
        lemma_trim_back_at(s.drop_last(), hi);
        assert(s.drop_last().take(hi) =~= s.take(hi));
    }
}

/// The buffer without its leading and trailing whitespace.
fn trim_chars(v: &Vec<char>) -> (r: Vec<char>)
    ensures
        r@ == trim_spec(v@),
{
    let n = v.len();
    let mut lo: usize = 0;
    while lo < n && is_ws_char(v[lo])
        invariant
            lo <= n,
            n == v@.len(),
            forall|j: int| 0 <= j < lo as int ==> is_ws(v@[j]),
        decreases n - lo,
    {
        lo = lo + 1;
    }
    if lo == n {
        proof {
            lemma_trim_front_at(v@, lo as int);
            assert(v@.skip(n as int).len() == 0);
            assert(trim_back(v@.skip(n as int)) =~= Seq::<char>::empty());
        }
        let empty: Vec<char> = Vec::new();
        proof {
            assert(empty@ =~= trim_spec(v@));
        }
        return empty;
    }
    let mut hi: usize = n;
    while hi > lo + 1 && is_ws_char(v[hi - 1])
        invariant
            lo < hi <= n,
            n == v@.len(),
            forall|j: int| hi as int <= j < n as int ==> is_ws(v@[j]),
        decreases hi,
    {
        hi = hi - 1;
    }
    proof {
        lemma_trim_front_at(v@, lo as int);
        let mid = v@.skip(lo as int);
        if is_ws(v@[hi - 1]) {
            assert(hi == lo + 1);
            assert(false);
        }
        lemma_trim_back_at(mid, hi - lo);
        assert(trim_spec(v@) == mid.take(hi - lo));
    }
    let mut out: Vec<char> = Vec::new();
    let mut i: usize = lo;
    while i < hi
        invariant
            lo <= i <= hi <= n,
            n == v@.len(),
            out@.len() == i - lo,
            forall|j: int| 0 <= j < out@.len() ==> out@[j] == v@[lo + j],
        decreases hi - i,
    {
        out.push(v[i]);
        i = i + 1;
    }
    proof {
        assert(out@ =~= v@.skip(lo as int).take(hi - lo));
    }
    out
}

/// A scan that stopped at the first occurrence found what `find_char`
/// names.
proof fn lemma_find_char_at(s: Seq<char>, c: char, i: int)
    requires
        0 <= i < s.len(),
        s[i] == c,
        forall|j: int| 0 <= j < i ==> s[j] != c,
    ensures
        find_char(s, c) == Some(i),
    decreases s.len(),
{
    if i > 0 {
        lemma_find_char_at(s.drop_first(), c, i - 1);
    }
}

/// A scan that found no occurrence means `find_char` answers `None`.
proof fn lemma_find_char_absent(s: Seq<char>, c: char)
    requires
        forall|j: int| 0 <= j < s.len() ==> s[j] != c,
    ensures
        find_char(s, c) is None,
    decreases s.len(),
{
    if s.len() > 0 {
        lemma_find_char_absent(s.drop_first(), c);
    }
}

/// The first position of `c` in the buffer, from `from` on, as
/// `find_char` names it on the suffix.
fn find_char_from(v: &Vec<char>, from: usize, c: char) -> (r: Option<usize>)
    requires
        from <= v@.len(),
    ensures
        match r {
            Some(i) => from <= i < v@.len() && find_char(v@.skip(from as int), c) == Some(
                i - from,
            ),
            None => find_char(v@.skip(from as int), c) is None,
        },
{
    let ghost tail = v@.skip(from as int);
    let mut i: usize = from;
    while i < v.len()
        invariant
            from <= i <= v@.len(),
            tail == v@.skip(from as int),
            forall|j: int| 0 <= j < i - from ==> tail[j] != c,
        decreases v@.len() - i,
    {
        if v[i] == c {
            proof {
                assert(tail[i - from] == c);
                lemma_find_char_at(tail, c, i - from);
            }
            return Some(i);
        }
        i = i + 1;
    }
    proof {
        lemma_find_char_absent(tail, c);
    }
    None
}

/// The pieces of the buffer, from `from` on, between occurrences of the
/// separator `c`.
fn split_chars(v: &Vec<char>, from: usize, c: char) -> (r: Vec<Vec<char>>)
    requires
        from <= v@.len(),
    ensures
        pieces_view(r@) == split_on(v@.skip(from as int), c),
    decreases v@.len() - from,
{
    let ghost tail = v@.skip(from as int);
    match find_char_from(v, from, c) {
        None => {
            let mut piece: Vec<char> = Vec::new();
            let mut i: usize = from;
            while i < v.len()
                invariant
                    from <= i <= v@.len(),
                    piece@.len() == i - from,
                    forall|j: int| 0 <= j < piece@.len() ==> piece@[j] == v@[from + j],
                decreases v@.len() - i,
            {
                piece.push(v[i]);
                i = i + 1;
            }
            proof {
                assert(piece@ =~= tail);
            }
            let mut out: Vec<Vec<char>> = Vec::new();
            out.push(piece);
            proof {
                assert(pieces_view(out@) =~= seq![tail]);
            }
            out
        },
        Some(i) => {
            let mut piece: Vec<char> = Vec::new();
            let mut j: usize = from;
            while j < i
                invariant
                    from <= j <= i,
                    i < v@.len(),
                    piece@.len() == j - from,
                    forall|k: int| 0 <= k < piece@.len() ==> piece@[k] == v@[from + k],
                decreases i - j,
            {
                piece.push(v[j]);
                j = j + 1;
            }
            proof {
                assert(piece@ =~= tail.subrange(0, i - from));
            }
            let n = v.len();
            proof {
                assert(i < n);
            }
            let mut rest = split_chars(v, i + 1, c);
            proof {
                assert(v@.skip(i + 1) =~= tail.subrange(i - from + 1, tail.len() as int));
            }
            let mut out: Vec<Vec<char>> = Vec::new();
            out.push(piece);
            out.append(&mut rest);
            proof {
                assert(pieces_view(out@) =~= seq![tail.subrange(0, i - from)] + split_on(
                    tail.subrange(i - from + 1, tail.len() as int),
                    c,
                ));
            }
            out
        },
    }
}

/// Whether the buffer is the word `all`, in any mix of letter case.
fn is_all_chars(v: &Vec<char>) -> (r: bool)
    ensures
        r == is_all_word(v@),
{
    v.len() == 3 && (v[0] == 'a' || v[0] == 'A') && (v[1] == 'l' || v[1] == 'L') && (v[2] == 'l'
        || v[2] == 'L')
}

/// Digit runs made only of digits have a non-negative value.
proof fn lemma_digits_val_nonneg(s: Seq<char>)
    requires
        all_digits(s),
    ensures
        digits_val(s) >= 0,
    decreases s.len(),
{
    if s.len() > 0 {
        assert(all_digits(s.drop_last())) by {
            assert(forall|i: int| 0 <= i < s.len() - 1 ==> s.drop_last()[i] == s[i]);
        }
        lemma_digits_val_nonneg(s.drop_last());
    }
}

/// A digit run is worth at least any of its prefixes.
proof fn lemma_digits_prefix_le(s: Seq<char>, k: int)
    requires
        all_digits(s),
        0 <= k <= s.len(),
    ensures
        digits_val(s.take(k)) <= digits_val(s),
    decreases s.len() - k,
{
    if k < s.len() {
        let u = s.take(k + 1);
        assert(u.drop_last() =~= s.take(k));
        assert(u.last() == s[k]);
        assert(is_digit(s[k]));
        assert(all_digits(s.take(k))) by {
            assert(forall|i: int| 0 <= i < k ==> s.take(k)[i] == s[i]);
        }
        lemma_digits_val_nonneg(s.take(k));
        assert(digits_val(u) == digits_val(s.take(k)) * 10 + (s[k] as u32 - 48));
        assert(digits_val(s.take(k)) <= digits_val(u));
        lemma_digits_prefix_le(s, k + 1);
    } else {
        assert(s.take(k) =~= s);
    }
}

/// The number the buffer denotes, if it is one the machine can hold, as
/// `parse_num` names it.
fn parse_num_chars(v: &Vec<char>) -> (r: Option<usize>)
    ensures
        match r {
            Some(n) => parse_num(v@) == Some(n as int),
            None => parse_num(v@) is None,
        },
{
    let start: usize = if v.len() >= 2 && v[0] == '+' {
        1
    } else {
        0
    };
    let ghost t = if v@.len() >= 2 && v@[0] == '+' {
        v@.drop_first()
    } else {
        v@
    };
    proof {
        assert(t.len() == v@.len() - start);
        assert(forall|j: int| 0 <= j < t.len() ==> t[j] == v@[start + j]);
    }
    if v.len() == start {
        proof {
            assert(t.len() == 0);
        }
        return None;
    }
    let mut acc: usize = 0;
    let mut i: usize = start;
    while i < v.len()
        invariant
            start <= i <= v@.len(),
            start < v@.len(),
            t.len() == v@.len() - start,
            forall|j: int| 0 <= j < t.len() ==> t[j] == v@[start + j],
            t == (if v@.len() >= 2 && v@[0] == '+' {
                v@.drop_first()
            } else {
                v@
            }),
            all_digits(t.take(i - start)),
            acc as int == digits_val(t.take(i - start)),
        decreases v@.len() - i,
    {
        let c = v[i];
        let u = c as u32;
        if u < 48 || u > 57 {
            proof {
                assert(t[i - start] == c);
                assert(!is_digit(c));
                assert(!all_digits(t));
            }
            return None;
        }
        let d = u - 48;
        let wide: u128 = (acc as u128) * 10 + (d as u128);
        if wide > usize::MAX as u128 {
            proof {
                let k = i - start + 1;
                assert(t.take(k).drop_last() =~= t.take(i - start));
                assert(digits_val(t.take(k)) == acc as int * 10 + d);
                if all_digits(t) {
                    lemma_digits_prefix_le(t, k);
                    assert(digits_val(t) > usize::MAX);
                }
            }
            return None;
        }
        acc = wide as usize;
        proof {
            let k = i - start + 1;
            assert(t.take(k).drop_last() =~= t.take(i - start));
            assert(t.take(k).last() == t[i - start]);
            assert(t[i - start] == c);
            assert(digits_val(t.take(k)) == digits_val(t.take(i - start)) * 10 + (c as u32 - 48));
            assert(all_digits(t.take(k))) by {
                assert(forall|j: int| 0 <= j < k - 1 ==> t.take(k)[j] == t.take(i - start)[j]);
                assert(t.take(k)[k - 1] == c);
            }
        }
        i = i + 1;
    }
    proof {
        assert(t.take(t.len() as int) =~= t);
        assert(t.len() > 0);
        assert(all_digits(t));
        assert(digits_val(t) == acc as int);
        assert(parse_num(v@) == Some(acc as int));
    }
    Some(acc)
}

/// Put `x` where it belongs in a strictly increasing run, once.
fn insert_sorted(v: &mut Vec<usize>, x: usize)
    requires
        sorted_unique(old(v)@),
    ensures
        sorted_unique(final(v)@),
        forall|y: int| seq_has(final(v)@, y) <==> (seq_has(old(v)@, y) || y == x as int),
{
    let ghost before = v@;
    let mut i: usize = 0;
    while i < v.len() && v[i] < x
        invariant
            i <= v@.len(),
            v@ == before,
            forall|j: int| 0 <= j < i as int ==> before[j] < x,
        decreases v@.len() - i,
    {
        i = i + 1;
    }
    if i < v.len() && v[i] == x {
        proof {
            assert(seq_has(before, x as int));
            assert forall|y: int|
                seq_has(v@, y) <==> (seq_has(before, y) || y == x as int) by {}
        }
        return ;
    }
    v.insert(i, x);
    proof {
        assert(v@ =~= before.insert(i as int, x));
        assert forall|a: int, b: int| 0 <= a < b < v@.len() implies v@[a] < v@[b] by {
            if b < i as int {
                assert(v@[a] == before[a] && v@[b] == before[b]);
            } else if a > i as int {
                assert(v@[a] == before[a - 1] && v@[b] == before[b - 1]);
            } else if a == i as int {
                assert(v@[a] == x && v@[b] == before[b - 1]);
                assert(before[b - 1] >= x);
                assert(before[b - 1] != x);
            } else if b == i as int {
                assert(v@[a] == before[a] && v@[b] == x);
            } else {
                assert(v@[a] == before[a] && v@[b] == before[b - 1]);
                assert(before[b - 1] >= x);
            }
        }
        assert forall|y: int| #![trigger seq_has(v@, y)]
            seq_has(v@, y) <==> (seq_has(before, y) || y == x as int) by {
            if seq_has(v@, y) {
                let w = choose|w: int| 0 <= w < v@.len() && v@[w] as int == y;
                if w < i as int {
                    assert(before[w] as int == y);
                    assert(seq_has(before, y));
                } else if w > i as int {
                    assert(before[w - 1] as int == y);
                    assert(seq_has(before, y));
                }
            }
            if seq_has(before, y) {
                let w = choose|w: int| 0 <= w < before.len() && before[w] as int == y;
                if w < i as int {
                    assert(v@[w] as int == y);
                } else {
                    assert(v@[w + 1] as int == y);
                }
                assert(seq_has(v@, y));
            }
            if y == x as int {
                assert(v@[i as int] as int == y);
                assert(seq_has(v@, y));
            }
        }
    }
}

/// Parse a selection answer against `max_count` numbered candidates: a
/// comma-separated list of one-based positions (`1,3`) and ranges (`5-7`),
/// or the word `all` for every candidate.  The answer is the strictly
/// increasing list of the selected positions.  A piece that is not a
/// number, a position of zero, or a bound past `max_count` is rejected.
pub fn parse_selection(input: &str, max_count: usize) -> (r: Result<Vec<usize>, SelectionError>)
    ensures
        match r {
            Ok(v) => {
                &&& selection_spec(input@, max_count as int) is Ok
                &&& sorted_unique(v@)
                &&& forall|y: int|
                    selection_spec(input@, max_count as int).unwrap().contains(y) <==> seq_has(
                        v@,
                        y,
                    )
            },
            Err(e) => selection_spec(input@, max_count as int) == Err::<
                Set<int>,
                SelectionError,
            >(e),
        },
{
    let ghost maxi = max_count as int;
    let chars = chars_of(input);
    let trimmed = trim_chars(&chars);
    if is_all_chars(&trimmed) {
        let mut out: Vec<usize> = Vec::new();
        let mut i: usize = 0;
        while i < max_count
            invariant
                i <= max_count,
                out@.len() == i as int,
                forall|j: int| 0 <= j < i as int ==> out@[j] as int == j + 1,
            decreases max_count - i,
        {
            out.push(i + 1);
            i = i + 1;
        }
        proof {
            assert(is_all_word(trim_spec(input@)));
            assert forall|y: int|
                selection_spec(input@, maxi).unwrap().contains(y) <==> seq_has(out@, y) by {
                if 1 <= y <= maxi {
                    assert(out@[y - 1] as int == y);
                }
                if seq_has(out@, y) {
                    let w = choose|w: int| 0 <= w < out@.len() && out@[w] as int == y;
                    assert(y == w + 1);
                }
            }
        }
        return Ok(out);
    }
    proof {
        assert(!is_all_word(trim_spec(input@)));
        assert(chars@.skip(0) =~= input@);
    }
    let pieces = split_chars(&chars, 0, ',');
    let ghost ps = split_on(input@, ',');
    let mut sel: Vec<usize> = Vec::new();
    proof {
        assert(pieces_view(pieces@) == ps);
        assert(ps.skip(0) =~= ps);
        assert(set_of(sel@) =~= Set::<int>::empty());
    }
    let mut i: usize = 0;
    while i < pieces.len()
        invariant
            i <= pieces@.len(),
            ps == pieces_view(pieces@),
            ps == split_on(input@, ','),
            !is_all_word(trim_spec(input@)),
            ps.len() == pieces@.len(),
            sorted_unique(sel@),
            pieces_spec(ps, maxi, Set::empty()) == pieces_spec(
                ps.skip(i as int),
                maxi,
                set_of(sel@),
            ),
            maxi == max_count as int,
        decreases pieces@.len() - i,
    {
        let ghost suffix = ps.skip(i as int);
        let ghost acc = set_of(sel@);
        proof {
            assert(suffix[0] == ps[i as int]);
            assert(suffix.drop_first() =~= ps.skip(i + 1));
            assert(pieces@[i as int]@ == ps[i as int]);
        }
        let part = trim_chars(&pieces[i]);
        let ghost p = trim_spec(ps[i as int]);
        if part.len() == 0 {
            proof {
                assert(p.len() == 0);
                assert(pieces_spec(suffix, maxi, acc) == pieces_spec(
                    suffix.drop_first(),
                    maxi,
                    acc,
                ));
            }
            i = i + 1;
            continue ;
        }
        proof {
            assert(p.len() > 0);
        }
        let dash = find_char_from(&part, 0, '-');
        proof {
            assert(part@.skip(0) =~= part@);
        }
        match dash {
            Some(_) => {
                proof {
                    assert(find_char(p, '-') is Some);
                }
                let range_parts = split_chars(&part, 0, '-');
                let ghost rp = split_on(p, '-');
                proof {
                    assert(pieces_view(range_parts@) == rp);
                }
                if range_parts.len() == 2 {
                    let a = trim_chars(&range_parts[0]);
                    proof {
                        assert(range_parts@[0]@ == rp[0]);
                        assert(a@ == trim_spec(rp[0]));
                    }
                    let start = match parse_num_chars(&a) {
                        None => {
                            proof {
                                assert(piece_spec(p, maxi) == Err::<Set<int>, SelectionError>(
                                    SelectionError::NotANumber,
                                ));
                                assert(selection_spec(input@, maxi) == Err::<
                                    Set<int>,
                                    SelectionError,
                                >(SelectionError::NotANumber));
                            }
                            return Err(SelectionError::NotANumber);
                        },
                        Some(n) => n,
                    };
                    let b = trim_chars(&range_parts[1]);
                    proof {
                        assert(range_parts@[1]@ == rp[1]);
                        assert(b@ == trim_spec(rp[1]));
                    }
                    let end = match parse_num_chars(&b) {
                        None => {
                            proof {
                                assert(piece_spec(p, maxi) == Err::<Set<int>, SelectionError>(
                                    SelectionError::NotANumber,
                                ));
                                assert(selection_spec(input@, maxi) == Err::<
                                    Set<int>,
                                    SelectionError,
                                >(SelectionError::NotANumber));
                            }
                            return Err(SelectionError::NotANumber);
                        },
                        Some(n) => n,
                    };
                    if start > end || start == 0 || end > max_count {
                        proof {
                            assert(piece_spec(p, maxi) == Err::<Set<int>, SelectionError>(
                                SelectionError::InvalidRange(start, end),
                            ));
                            assert(selection_spec(input@, maxi) == Err::<
                                Set<int>,
                                SelectionError,
                            >(SelectionError::InvalidRange(start, end)));
                        }
                        return Err(SelectionError::InvalidRange(start, end));
                    }
                    let count = end - start + 1;
                    let mut off: usize = 0;
                    while off < count
                        invariant
                            0 <= off <= count,
                            count == end - start + 1,
                            start <= end,
                            1 <= start,
                            sorted_unique(sel@),
                            forall|m: int| #![trigger seq_has(sel@, m)]
                                seq_has(sel@, m) <==> (acc.contains(m) || (start as int <= m
                                    < start as int + off as int)),
                        decreases count - off,
                    {
                        let ghost sb = sel@;
                        insert_sorted(&mut sel, start + off);
                        proof {
                            assert((start + off) as int == start as int + off as int);
                            assert forall|m: int|
                                seq_has(sel@, m) <==> (acc.contains(m) || (start as int <= m
                                    < start as int + off as int + 1)) by {
                                assert(seq_has(sel@, m) <==> (seq_has(sb, m) || m == (start + off)
                                    as int));
                                assert(seq_has(sb, m) <==> (acc.contains(m) || (start as int <= m
                                    < start as int + off as int)));
                            }
                        }
                        off = off + 1;
                    }
                    proof {
                        assert(set_of(sel@) =~= acc.union(piece_spec(p, maxi).unwrap()));
                    }
                } else {
                    proof {
                        assert(rp.len() != 2);
                        assert(piece_spec(p, maxi) == Ok::<Set<int>, SelectionError>(
                            Set::empty(),
                        ));
                        assert(acc.union(Set::empty()) =~= acc);
                    }
                }
            },
            None => {
                proof {
                    assert(find_char(p, '-') is None);
                }
                let num = match parse_num_chars(&part) {
                    None => {
                        proof {
                            assert(piece_spec(p, maxi) == Err::<Set<int>, SelectionError>(
                                SelectionError::NotANumber,
                            ));
                            assert(selection_spec(input@, maxi) == Err::<
                                Set<int>,
                                SelectionError,
                            >(SelectionError::NotANumber));
                        }
                        return Err(SelectionError::NotANumber);
                    },
                    Some(n) => n,
                };
                if num == 0 || num > max_count {
                    proof {
                        assert(piece_spec(p, maxi) == Err::<Set<int>, SelectionError>(
                            SelectionError::InvalidNumber(num),
                        ));
                        assert(selection_spec(input@, maxi) == Err::<Set<int>, SelectionError>(
                            SelectionError::InvalidNumber(num),
                        ));
                    }
                    return Err(SelectionError::InvalidNumber(num));
                }
                let ghost sb = sel@;
                insert_sorted(&mut sel, num);
                proof {
                    assert(piece_spec(p, maxi) is Ok);
                    assert(set_of(sel@) =~= acc.union(piece_spec(p, maxi).unwrap()));
                }
            },
        }
        proof {
            assert(pieces_spec(suffix, maxi, acc) == pieces_spec(
                suffix.drop_first(),
                maxi,
                set_of(sel@),
            ));
        }
        i = i + 1;
    }
    proof {
        assert(ps.skip(ps.len() as int) =~= Seq::<Seq<char>>::empty());
        assert(selection_spec(input@, maxi) == Ok::<Set<int>, SelectionError>(set_of(sel@)));
    }
    Ok(sel)
}

} // verus!
