//! Parsing of faceted STEP data: entity references, polygon loops and
//! explicit triangles, and their assembly into triangles.
use vstd::prelude::*;

verus! {

/// `b` is an ASCII decimal digit.
pub open spec fn is_digit(b: u8) -> bool {
    48 <= b <= 57
}

/// The end of the run of digits starting at `j`: the first index at or after
/// `j` that holds no digit.
pub open spec fn digit_run_end(b: Seq<u8>, j: int) -> int
    decreases b.len() - j,
{
    if 0 <= j < b.len() && is_digit(b[j]) {
        digit_run_end(b, j + 1)
    } else {
        j
    }
}

/// The value of a sequence of decimal digits.
pub open spec fn decimal_value(d: Seq<u8>) -> nat
    decreases d.len(),
{
    if d.len() == 0 {
        0
    } else {
        decimal_value(d.drop_last()) * 10 + (d.last() - 48) as nat
    }
}

/// The digits `b[from..to]` read as an `i64` the way `str::parse::<i64>`
/// reads them: nothing when there is no digit or the value overflows.
pub open spec fn parse_digits(b: Seq<u8>, from: int, to: int) -> Option<i64> {
    if to > from && decimal_value(b.subrange(from, to)) <= i64::MAX {
        Some(decimal_value(b.subrange(from, to)) as i64)
    } else {
        None
    }
}

/// The entity references `#<digits>` found in `b[i..]`, in order; a `#`
/// whose digits overflow an `i64` or that has no digit is skipped.
pub open spec fn hash_ids_from(b: Seq<u8>, i: int) -> Seq<i64>
    decreases b.len() - i,
{
    if i < 0 || i >= b.len() {
        Seq::empty()
    } else if b[i] == 35 {
        let end = digit_run_end(b, i + 1);
        let rest = if i < end <= b.len() {
            hash_ids_from(b, end)
        } else {
            Seq::empty()
        };
        match parse_digits(b, i + 1, end) {
            Some(v) => seq![v] + rest,
            None => rest,
        }
    } else {
        hash_ids_from(b, i + 1)
    }
}

/// The entity references `#<digits>` found in `b`, in order.
pub open spec fn hash_ids(b: Seq<u8>) -> Seq<i64> {
    hash_ids_from(b, 0)
}

proof fn lemma_digit_run_end(b: Seq<u8>, j: int)
    requires
        0 <= j <= b.len(),
    ensures
        j <= digit_run_end(b, j) <= b.len(),
        forall|k: int| j <= k < digit_run_end(b, j) ==> is_digit(#[trigger] b[k]),
        digit_run_end(b, j) < b.len() ==> !is_digit(b[digit_run_end(b, j)]),
    decreases b.len() - j,
{
    if j < b.len() && is_digit(b[j]) {
        lemma_digit_run_end(b, j + 1);
    }
}

/// Reads the digits starting at `from`: the end of the run and its value
/// as an `i64`, if it has digits and fits.
fn read_digits(b: &[u8], from: usize) -> (r: (usize, Option<i64>))
    requires
        from <= b@.len(),
    ensures
        r.0 == digit_run_end(b@, from as int),
        r.1 == parse_digits(b@, from as int, r.0 as int),
{
    let mut j = from;
    let mut value: i64 = 0;
    let mut overflow = false;
    while j < b.len() && b[j] >= 48 && b[j] <= 57
        invariant
            from <= j <= b@.len(),
            digit_run_end(b@, j as int) == digit_run_end(b@, from as int),
            forall|k: int| from <= k < j ==> is_digit(#[trigger] b@[k]),
            !overflow ==> value as int == decimal_value(b@.subrange(from as int, j as int)),
            overflow ==> decimal_value(b@.subrange(from as int, j as int)) > i64::MAX,
        decreases b@.len() - j,
    {
        let d = (b[j] - 48) as i64;
        let ghost prev = b@.subrange(from as int, j as int);
        let ghost next = b@.subrange(from as int, j + 1);
        proof {
            assert(next.drop_last() =~= prev);
            assert(decimal_value(next) == decimal_value(prev) * 10 + (b@[j as int] - 48) as nat);
        }
        if !overflow {
            if value > (i64::MAX - d) / 10 {
                overflow = true;
            } else {
                value = value * 10 + d;
            }
        }
        j = j + 1;
    }
    proof {
        lemma_digit_run_end(b@, from as int);
    }
    if j > from && !overflow {
        (j, Some(value))
    } else {
        (j, None)
    }
}

/// Collect all `#id` references in `b`, in order.
pub fn parse_hash_ids(b: &[u8]) -> (ids: Vec<i64>)
    ensures
        ids@ == hash_ids(b@),
{
    let mut ids: Vec<i64> = Vec::new();
    let mut i: usize = 0;
    while i < b.len()
        invariant
            i <= b@.len(),
            ids@ + hash_ids_from(b@, i as int) == hash_ids(b@),
        decreases b@.len() - i,
    {
        if b[i] == 35 {
            let start = i + 1;
            let (end, value) = read_digits(b, start);
            proof {
                lemma_digit_run_end(b@, start as int);
            }
            match value {
                Some(v) => {
                    proof {
                        assert(ids@.push(v) + hash_ids_from(b@, end as int) =~= ids@ + (seq![v]
                            + hash_ids_from(b@, end as int)));
                    }
                    ids.push(v);
                },
                None => {},
            }
            i = end;
        } else {
            i = i + 1;
        }
    }
    proof {
        assert(ids@ + hash_ids_from(b@, i as int) =~= ids@);
    }
    ids
}

/// Byte length of the white-space character (in the sense of
/// `char::is_whitespace`) that UTF-8 text `b` holds at `i`, or 0 when none
/// starts there.
pub open spec fn whitespace_len_at(b: Seq<u8>, i: int) -> int {
    if 0 <= i < b.len() && ((9 <= b[i] <= 13) || b[i] == 32) {
        1
    } else if 0 <= i && i + 1 < b.len() && b[i] == 0xC2 && (b[i + 1] == 0x85 || b[i + 1] == 0xA0) {
        2
    } else if 0 <= i && i + 2 < b.len() && b[i] == 0xE1 && b[i + 1] == 0x9A && b[i + 2] == 0x80 {
        3
    } else if 0 <= i && i + 2 < b.len() && b[i] == 0xE2 && b[i + 1] == 0x80 && ((0x80 <= b[i + 2]
        <= 0x8A) || b[i + 2] == 0xA8 || b[i + 2] == 0xA9 || b[i + 2] == 0xAF) {
        3
    } else if 0 <= i && i + 2 < b.len() && b[i] == 0xE2 && b[i + 1] == 0x81 && b[i + 2] == 0x9F {
        3
    } else if 0 <= i && i + 2 < b.len() && b[i] == 0xE3 && b[i + 1] == 0x80 && b[i + 2] == 0x80 {
        3
    } else {
        0
    }
}

/// Where `b[i..]` starts once leading white space is skipped.
pub open spec fn skip_whitespace(b: Seq<u8>, i: int) -> int
    decreases b.len() - i,
{
    if whitespace_len_at(b, i) > 0 {
        skip_whitespace(b, i + whitespace_len_at(b, i))
    } else {
        i
    }
}

/// The id of an entity instance line `#<digits>=...`, leading white space
/// allowed; nothing when the line does not start with `#` or its digits do
/// not read as an `i64`.
pub open spec fn entity_id(b: Seq<u8>) -> Option<i64> {
    let s = skip_whitespace(b, 0);
    if s < b.len() && b[s] == 35 {
        parse_digits(b, s + 1, digit_run_end(b, s + 1))
    } else {
        None
    }
}

/// `x` is an ASCII byte that `char::is_whitespace` accepts: tab, line
/// feed, vertical tab, form feed, carriage return or space.
pub open spec fn is_ascii_space(x: u8) -> bool {
    x == 9u8 || x == 10u8 || x == 11u8 || x == 12u8 || x == 13u8 || x == 32u8
}

/// An ASCII byte counts as white space exactly when `char::is_whitespace`
/// accepts it (so a carriage return is skipped like a line feed), and then
/// it is one byte long.
pub proof fn lemma_ascii_whitespace(b: Seq<u8>, i: int)
    requires
        0 <= i < b.len(),
        b[i] < 128,
    ensures
        is_ascii_space(b[i]) ==> whitespace_len_at(b, i) == 1,
        !is_ascii_space(b[i]) ==> whitespace_len_at(b, i) == 0,
{
}

proof fn lemma_whitespace_shift(ws: Seq<u8>, b: Seq<u8>, j: int)
    requires
        0 <= j <= b.len(),
    ensures
        whitespace_len_at(ws + b, ws.len() + j) == whitespace_len_at(b, j),
{
    let c = ws + b;
    if j < b.len() {
        assert(c[ws.len() + j] == b[j]);
    }
    if j + 1 < b.len() {
        assert(c[ws.len() + j + 1] == b[j + 1]);
    }
    if j + 2 < b.len() {
        assert(c[ws.len() + j + 2] == b[j + 2]);
    }
}

proof fn lemma_skip_shift(ws: Seq<u8>, b: Seq<u8>, j: int)
    requires
        0 <= j <= b.len(),
    ensures
        skip_whitespace(ws + b, ws.len() + j) == ws.len() + skip_whitespace(b, j),
    decreases b.len() - j,
{
    lemma_whitespace_shift(ws, b, j);
    let w = whitespace_len_at(b, j);
    if w > 0 {
        assert(j + w <= b.len());
        lemma_skip_shift(ws, b, j + w);
    }
}

proof fn lemma_skip_prefix(ws: Seq<u8>, b: Seq<u8>, k: int)
    requires
        0 <= k <= ws.len(),
        forall|x: int| 0 <= x < ws.len() ==> is_ascii_space(#[trigger] ws[x]),
    ensures
        skip_whitespace(ws + b, k) == ws.len() + skip_whitespace(b, 0),
    decreases ws.len() - k,
{
    if k < ws.len() {
        assert((ws + b)[k] == ws[k]);
        assert(is_ascii_space(ws[k]));
        assert(whitespace_len_at(ws + b, k) == 1);
        lemma_skip_prefix(ws, b, k + 1);
    } else {
        lemma_skip_shift(ws, b, 0);
    }
}

proof fn lemma_digit_run_shift(ws: Seq<u8>, b: Seq<u8>, j: int)
    requires
        0 <= j <= b.len(),
    ensures
        digit_run_end(ws + b, ws.len() + j) == ws.len() + digit_run_end(b, j),
    decreases b.len() - j,
{
    if j < b.len() {
        assert((ws + b)[ws.len() + j] == b[j]);
        if is_digit(b[j]) {
            lemma_digit_run_shift(ws, b, j + 1);
        }
    }
}

proof fn lemma_digit_run_bound(b: Seq<u8>, j: int)
    requires
        0 <= j <= b.len(),
    ensures
        j <= digit_run_end(b, j) <= b.len(),
    decreases b.len() - j,
{
    if j < b.len() && is_digit(b[j]) {
        lemma_digit_run_bound(b, j + 1);
    }
}

proof fn lemma_skip_bound(b: Seq<u8>, j: int)
    requires
        0 <= j <= b.len(),
    ensures
        j <= skip_whitespace(b, j) <= b.len(),
    decreases b.len() - j,
{
    let w = whitespace_len_at(b, j);
    if w > 0 {
        lemma_skip_bound(b, j + w);
    }
}

/// White space before an entity instance does not change its id: any run
/// of ASCII white-space bytes (carriage returns included) put before a
/// line leaves `entity_id` as it was.
pub proof fn lemma_entity_id_ignores_leading_space(ws: Seq<u8>, b: Seq<u8>)
    requires
        forall|x: int| 0 <= x < ws.len() ==> is_ascii_space(#[trigger] ws[x]),
    ensures
        entity_id(ws + b) == entity_id(b),
{
    let c = ws + b;
    let n = ws.len() as int;
    lemma_skip_prefix(ws, b, 0);
    lemma_skip_bound(b, 0);
    let s = skip_whitespace(b, 0);
    if s < b.len() {
        assert(c[n + s] == b[s]);
        if b[s] == 35 {
            lemma_digit_run_shift(ws, b, s + 1);
            lemma_digit_run_bound(b, s + 1);
            let e = digit_run_end(b, s + 1);
            assert(c.subrange(n + s + 1, n + e) =~= b.subrange(s + 1, e));
        }
    }
}

fn whitespace_len(b: &[u8], i: usize) -> (r: usize)
    requires
        i <= b@.len(),
    ensures
        r == whitespace_len_at(b@, i as int),
        i + r <= b@.len(),
{
    let n = b.len();
    if i >= n {
        return 0;
    }
    let rest = n - i;
    if (b[i] >= 9 && b[i] <= 13) || b[i] == 32 {
        1
    } else if rest > 1 && b[i] == 0xC2 && (b[i + 1] == 0x85 || b[i + 1] == 0xA0) {
        2
    } else if rest > 2 && b[i] == 0xE1 && b[i + 1] == 0x9A && b[i + 2] == 0x80 {
        3
    } else if rest > 2 && b[i] == 0xE2 && b[i + 1] == 0x80 && ((b[i + 2] >= 0x80 && b[i + 2]
        <= 0x8A) || b[i + 2] == 0xA8 || b[i + 2] == 0xA9 || b[i + 2] == 0xAF) {
        3
    } else if rest > 2 && b[i] == 0xE2 && b[i + 1] == 0x81 && b[i + 2] == 0x9F {
        3
    } else if rest > 2 && b[i] == 0xE3 && b[i + 1] == 0x80 && b[i + 2] == 0x80 {
        3
    } else {
        0
    }
}

/// Parse the entity id of a line such as `#12=CARTESIAN_POINT(...)`.
pub fn parse_entity_id(line: &[u8]) -> (r: Option<i64>)
    ensures
        r == entity_id(line@),
{
    let n = line.len();
    let mut i: usize = 0;
    loop
        invariant
            n == line@.len(),
            i <= line@.len(),
            skip_whitespace(line@, i as int) == skip_whitespace(line@, 0),
        ensures
            i <= line@.len(),
            skip_whitespace(line@, 0) == i,
        decreases line@.len() - i,
    {
        let w = whitespace_len(line, i);
        if w == 0 {
            break;
        }
        i = i + w;
    }
    if i < line.len() && line[i] == 35 {
        let (_end, value) = read_digits(line, i + 1);
        value
    } else {
        None
    }
}

/// ASCII upper-casing of a byte.
pub open spec fn upper_byte(b: u8) -> u8 {
    if 97 <= b <= 122 {
        (b - 32) as u8
    } else {
        b
    }
}

/// `word` occurs in `hay` at `k`, comparing after ASCII upper-casing when
/// `fold` is set.
pub open spec fn occurs_at(hay: Seq<u8>, word: Seq<u8>, k: int, fold: bool) -> bool {
    &&& 0 <= k
    &&& k + word.len() <= hay.len()
    &&& forall|j: int|
        0 <= j < word.len() ==> (if fold {
            upper_byte(#[trigger] hay[k + j])
        } else {
            hay[k + j]
        }) == word[j]
}

/// `word` occurs in `hay`, comparing after ASCII upper-casing when `fold`
/// is set (`word` itself is compared as given).
pub open spec fn contains_word(hay: Seq<u8>, word: Seq<u8>, fold: bool) -> bool {
    exists|k: int| #[trigger] occurs_at(hay, word, k, fold)
}

fn upper(b: u8) -> (r: u8)
    ensures
        r == upper_byte(b),
{
    if b >= 97 && b <= 122 {
        b - 32
    } else {
        b
    }
}

/// Whether `word` occurs in `hay` (after ASCII upper-casing `hay` when
/// `fold` is set).
pub(crate) fn has_word(hay: &[u8], word: &[u8], fold: bool) -> (r: bool)
    ensures
        r == contains_word(hay@, word@, fold),
{
    if word.len() > hay.len() {
        proof {
            assert forall|k: int| !occurs_at(hay@, word@, k, fold) by {}
        }
        return false;
    }
    let last = hay.len() - word.len();
    let n = hay.len();
    let mut k: usize = 0;
    loop
        invariant
            n == hay@.len(),
            last + word@.len() == hay@.len(),
            k <= last,
            forall|x: int| 0 <= x < k ==> !#[trigger] occurs_at(hay@, word@, x, fold),
        decreases last - k,
    {
        let mut j: usize = 0;
        let mut matched = true;
        while j < word.len()
            invariant
                n == hay@.len(),
                k <= last,
                last + word@.len() == hay@.len(),
                j <= word@.len(),
                matched ==> forall|y: int|
                    0 <= y < j ==> (if fold {
                        upper_byte(#[trigger] hay@[k + y])
                    } else {
                        hay@[k + y]
                    }) == word@[y],
                !matched ==> !occurs_at(hay@, word@, k as int, fold),
            decreases word@.len() - j,
        {
            if matched {
                let h = if fold {
                    upper(hay[k + j])
                } else {
                    hay[k + j]
                };
                if h != word[j] {
                    matched = false;
                }
            }
            j = j + 1;
        }
        if matched {
            proof {
                assert(occurs_at(hay@, word@, k as int, fold));
            }
            return true;
        }
        if k == last {
            proof {
                assert forall|x: int| !occurs_at(hay@, word@, x, fold) by {
                    if 0 <= x && x + word@.len() <= hay@.len() {
                        assert(x <= k);
                    }
                }
            }
            return false;
        }
        k = k + 1;
    }
}

/// The end of the statement starting at `start`: the next `;` at or after
/// `start`, or the end of the text.
pub open spec fn statement_end(t: Seq<u8>, start: int) -> int
    decreases t.len() - start,
{
    if 0 <= start < t.len() && t[start] != 59 {
        statement_end(t, start + 1)
    } else {
        start
    }
}

pub(crate) proof fn lemma_statement_end(t: Seq<u8>, start: int)
    requires
        0 <= start <= t.len(),
    ensures
        start <= statement_end(t, start) <= t.len(),
        statement_end(t, start) < t.len() ==> t[statement_end(t, start)] == 59,
    decreases t.len() - start,
{
    if start < t.len() && t[start] != 59 {
        lemma_statement_end(t, start + 1);
    }
}

/// `f` applied to each statement of `t[start..]` (the pieces between `;`
/// separators, as `str::split(';')` yields them), the results concatenated.
pub open spec fn per_statement<A>(t: Seq<u8>, start: int, f: spec_fn(Seq<u8>) -> Seq<A>) -> Seq<A>
    decreases t.len() - start + 1,
{
    if 0 <= start <= t.len() {
        let end = statement_end(t, start);
        let here = f(t.subrange(start, end));
        if start <= end < t.len() {
            here + per_statement(t, end + 1, f)
        } else {
            here
        }
    } else {
        Seq::empty()
    }
}

/// `POLY_LOOP`.
pub open spec fn poly_loop_word() -> Seq<u8> {
    seq![80u8, 79u8, 76u8, 89u8, 95u8, 76u8, 79u8, 79u8, 80u8]
}

/// `TRIANGULATED`.
pub open spec fn triangulated_word() -> Seq<u8> {
    seq![84u8, 82u8, 73u8, 65u8, 78u8, 71u8, 85u8, 76u8, 65u8, 84u8, 69u8, 68u8]
}

/// `TRIANGLE`.
pub open spec fn triangle_word() -> Seq<u8> {
    seq![84u8, 82u8, 73u8, 65u8, 78u8, 71u8, 76u8, 69u8]
}

/// The references of a `POLY_LOOP` statement that references at least three
/// entities; nothing for any other statement.
pub open spec fn poly_loop_of(c: Seq<u8>) -> Seq<Seq<i64>> {
    if contains_word(c, poly_loop_word(), true) && hash_ids(c).len() >= 3 {
        seq![hash_ids(c)]
    } else {
        Seq::empty()
    }
}

/// The first three references of a triangle statement that references at
/// least three entities; nothing for any other statement.
pub open spec fn triangle_of(c: Seq<u8>) -> Seq<[i64; 3]> {
    if (contains_word(c, triangulated_word(), true) || contains_word(c, triangle_word(), true))
        && hash_ids(c).len() >= 3 {
        seq![[hash_ids(c)[0], hash_ids(c)[1], hash_ids(c)[2]]]
    } else {
        Seq::empty()
    }
}

/// The entity references of every `POLY_LOOP` statement with at least three.
pub open spec fn poly_loops(t: Seq<u8>) -> Seq<Seq<i64>> {
    per_statement(t, 0, |c: Seq<u8>| poly_loop_of(c))
}

/// The first three references of every triangle statement with at least three.
pub open spec fn explicit_triangle_refs(t: Seq<u8>) -> Seq<[i64; 3]> {
    per_statement(t, 0, |c: Seq<u8>| triangle_of(c))
}

pub(crate) fn find_statement_end(t: &[u8], start: usize) -> (r: usize)
    requires
        start <= t@.len(),
    ensures
        r == statement_end(t@, start as int),
{
    let mut i = start;
    while i < t.len() && t[i] != 59
        invariant
            start <= i <= t@.len(),
            statement_end(t@, i as int) == statement_end(t@, start as int),
        decreases t@.len() - i,
    {
        i = i + 1;
    }
    i
}

/// `POLY_LOOP` statements: all `#id` references of each one with at least three.
pub fn poly_loop_captures(text: &[u8]) -> (r: Vec<Vec<i64>>)
    ensures
        r@.map_values(|v: Vec<i64>| v@) == poly_loops(text@),
{
    let word: [u8; 9] = [80, 79, 76, 89, 95, 76, 79, 79, 80];
    proof {
        assert(word@ =~= poly_loop_word());
    }
    let ghost f = |c: Seq<u8>| poly_loop_of(c);
    let mut out: Vec<Vec<i64>> = Vec::new();
    let mut start: usize = 0;
    loop
        invariant
            start <= text@.len(),
            word@ == poly_loop_word(),
            f == (|c: Seq<u8>| poly_loop_of(c)),
            out@.map_values(|v: Vec<i64>| v@) + per_statement(text@, start as int, f) == poly_loops(text@),
        decreases text@.len() - start,
    {
        let end = find_statement_end(text, start);
        proof {
            lemma_statement_end(text@, start as int);
        }
        let chunk = &text[start..end];
        let ghost before = out@;
        if has_word(chunk, &word, true) {
            let ids = parse_hash_ids(chunk);
            if ids.len() >= 3 {
                out.push(ids);
            }
        }
        proof {
            assert(chunk@ =~= text@.subrange(start as int, end as int));
            assert(out@.map_values(|v: Vec<i64>| v@) =~= before.map_values(|v: Vec<i64>| v@) + f(chunk@));
        }
        if end >= text.len() {
            proof {
                assert(out@.map_values(|v: Vec<i64>| v@) =~= poly_loops(text@));
            }
            return out;
        }
        proof {
            assert(before.map_values(|v: Vec<i64>| v@) + (f(chunk@) + per_statement(text@, end + 1, f))
                =~= out@.map_values(|v: Vec<i64>| v@) + per_statement(text@, end + 1, f));
        }
        start = end + 1;
    }
}

/// Triangle statements: the first three `#id` references of each one with
/// at least three.
pub fn explicit_triangles(text: &[u8]) -> (r: Vec<[i64; 3]>)
    ensures
        r@ == explicit_triangle_refs(text@),
{
    let tri_word: [u8; 12] = [84, 82, 73, 65, 78, 71, 85, 76, 65, 84, 69, 68];
    let short_word: [u8; 8] = [84, 82, 73, 65, 78, 71, 76, 69];
    proof {
        assert(tri_word@ =~= triangulated_word());
        assert(short_word@ =~= triangle_word());
    }
    let ghost f = |c: Seq<u8>| triangle_of(c);
    let mut out: Vec<[i64; 3]> = Vec::new();
    let mut start: usize = 0;
    loop
        invariant
            start <= text@.len(),
            tri_word@ == triangulated_word(),
            short_word@ == triangle_word(),
            f == (|c: Seq<u8>| triangle_of(c)),
            out@ + per_statement(text@, start as int, f) == explicit_triangle_refs(text@),
        decreases text@.len() - start,
    {
        let end = find_statement_end(text, start);
        proof {
            lemma_statement_end(text@, start as int);
        }
        let chunk = &text[start..end];
        let ghost before = out@;
        if has_word(chunk, &tri_word, true) || has_word(chunk, &short_word, true) {
            let ids = parse_hash_ids(chunk);
            if ids.len() >= 3 {
                out.push([ids[0], ids[1], ids[2]]);
            }
        }
        proof {
            assert(chunk@ =~= text@.subrange(start as int, end as int));
            assert(out@ =~= before + f(chunk@));
        }
        if end >= text.len() {
            proof {
                assert(out@ =~= explicit_triangle_refs(text@));
            }
            return out;
        }
        proof {
            assert(before + (f(chunk@) + per_statement(text@, end + 1, f)) =~= out@ + per_statement(
                text@,
                end + 1,
                f,
            ));
        }
        start = end + 1;
    }
}

/// `ISO-10303`.
pub open spec fn iso_word() -> Seq<u8> {
    seq![73u8, 83u8, 79u8, 45u8, 49u8, 48u8, 51u8, 48u8, 51u8]
}

/// `HEADER`.
pub open spec fn header_word() -> Seq<u8> {
    seq![72u8, 69u8, 65u8, 68u8, 69u8, 82u8]
}

/// Whether the text carries a STEP header marker (`ISO-10303` or `HEADER`,
/// case-sensitive).
pub fn has_step_header(text: &[u8]) -> (r: bool)
    ensures
        r == (contains_word(text@, iso_word(), false) || contains_word(text@, header_word(), false)),
{
    let iso: [u8; 9] = [73, 83, 79, 45, 49, 48, 51, 48, 51];
    let header: [u8; 6] = [72, 69, 65, 68, 69, 82];
    proof {
        assert(iso@ =~= iso_word());
        assert(header@ =~= header_word());
    }
    has_word(text, &iso, false) || has_word(text, &header, false)
}

} // verus!
