use vstd::prelude::*;
use vstd::string::StringExecFns;

use crate::aura_bridge::string_push;
use crate::consumer::{RawTick, StateEngine};
use crate::vfs::{spec_chunk, spec_chunk_readable, spec_chunk_ticks, VirtualFileSystem, TICK_SIZE};

verus! {

broadcast use vstd::string::to_string_from_display_ensures_for_str;

/// `i` is the position of the first `b` in `s`.
pub open spec fn is_first_at(s: Seq<u8>, b: u8, i: int) -> bool {
    &&& 0 <= i < s.len()
    &&& s[i] == b
    &&& forall|k: int| 0 <= k < i ==> s[k] != b
}

/// The position of the first `b` in `s`, or the length of `s` when `s` holds
/// no `b`.
pub open spec fn first_index(s: Seq<u8>, b: u8) -> int {
    if exists|i: int| is_first_at(s, b, i) {
        choose|i: int| is_first_at(s, b, i)
    } else {
        s.len() as int
    }
}

proof fn lemma_first_index_found(s: Seq<u8>, b: u8, i: int)
    requires
        0 <= i < s.len(),
        s[i] == b,
        forall|k: int| 0 <= k < i ==> s[k] != b,
    ensures
        first_index(s, b) == i,
{
    assert(is_first_at(s, b, i));
    let j = choose|j: int| is_first_at(s, b, j);
    if j < i {
        assert(s[j] != b);
    } else if j > i {
        assert(s[i] != b);
    }
}

proof fn lemma_first_index_absent(s: Seq<u8>, b: u8)
    requires
        forall|k: int| 0 <= k < s.len() ==> s[k] != b,
    ensures
        first_index(s, b) == s.len(),
{
    assert forall|i: int| !is_first_at(s, b, i) by {
        if 0 <= i < s.len() {
            assert(s[i] != b);
        }
    }
    assert(!(exists|i: int| is_first_at(s, b, i)));
}

proof fn lemma_first_exists(s: Seq<u8>, b: u8, k: int)
    requires
        0 <= k < s.len(),
        s[k] == b,
    ensures
        exists|i: int| is_first_at(s, b, i),
    decreases k,
{
    if forall|j: int| 0 <= j < k ==> s[j] != b {
        assert(is_first_at(s, b, k));
    } else {
        let j = choose|j: int| 0 <= j < k && s[j] == b;
        lemma_first_exists(s, b, j);
    }
}

proof fn lemma_first_index_bounds(s: Seq<u8>, b: u8)
    ensures
        0 <= first_index(s, b) <= s.len(),
        first_index(s, b) < s.len() ==> s[first_index(s, b)] == b,
        forall|k: int| 0 <= k < first_index(s, b) ==> s[k] != b,
{
    if exists|i: int| is_first_at(s, b, i) {
        let i = choose|i: int| is_first_at(s, b, i);
        assert(is_first_at(s, b, i));
    } else {
        assert forall|k: int| 0 <= k < s.len() implies s[k] != b by {
            if s[k] == b {
                lemma_first_exists(s, b, k);
            }
        }
    }
}

/// The position of the first `b` in `r[from..to]`, counted from the start
/// of `r`; `to` when there is none.
fn find_byte(r: &[u8], from: usize, to: usize, b: u8) -> (idx: usize)
    requires
        from <= to <= r@.len(),
    ensures
        idx == from + first_index(r@.subrange(from as int, to as int), b),
        from <= idx <= to,
{
    let ghost s = r@.subrange(from as int, to as int);
    let mut i = from;
    while i < to
        invariant
            from <= i <= to,
            to <= r@.len(),
            s == r@.subrange(from as int, to as int),
            forall|k: int| 0 <= k < i - from ==> s[k] != b,
        decreases to - i,
    {
        if r[i] == b {
            proof {
                lemma_first_index_found(s, b, i - from);
            }
            return i;
        }
        i = i + 1;
    }
    proof {
        lemma_first_index_absent(s, b);
    }
    to
}


/// The pieces of `s` between the separators `sep`, as `str::split` yields
/// them: `n` separators give `n + 1` pieces, some of which may be empty.
pub open spec fn split(s: Seq<u8>, sep: u8) -> Seq<Seq<u8>>
    decreases s.len(),
{
    let i = first_index(s, sep);
    if 0 <= i < s.len() {
        seq![s.take(i)] + split(s.skip(i + 1), sep)
    } else {
        seq![s]
    }
}

/// The first piece of `split(s, sep)` and, when there is one, the second.
proof fn lemma_split_front(s: Seq<u8>, sep: u8)
    ensures
        split(s, sep).len() >= 1,
        first_index(s, sep) >= s.len() ==> split(s, sep) == seq![s],
        first_index(s, sep) < s.len() ==> split(s, sep) == seq![s.take(first_index(s, sep))]
            + split(s.skip(first_index(s, sep) + 1), sep),
        first_index(s, sep) < s.len() ==> split(s, sep).len() >= 2
            && split(s, sep)[1] == split(s.skip(first_index(s, sep) + 1), sep)[0],
{
    lemma_first_index_bounds(s, sep);
    let i = first_index(s, sep);
    if i < s.len() {
        let rest = s.skip(i + 1);
        lemma_first_index_bounds(rest, sep);
        let j = first_index(rest, sep);
        if j < rest.len() {
            assert(split(rest, sep) == seq![rest.take(j)] + split(rest.skip(j + 1), sep));
        } else {
            assert(split(rest, sep) == seq![rest]);
        }
    }
}

/// `c` is an ASCII decimal digit.
pub open spec fn is_digit(c: u8) -> bool {
    48 <= c <= 57
}

/// Every byte of `ds` is an ASCII decimal digit.
pub open spec fn all_digits(ds: Seq<u8>) -> bool {
    forall|i: int| 0 <= i < ds.len() ==> is_digit(#[trigger] ds[i])
}

/// `s` without the `+` sign that may lead it.
pub open spec fn unsigned_digits(s: Seq<u8>) -> Seq<u8> {
    if s.len() > 0 && s[0] == 43 {
        s.drop_first()
    } else {
        s
    }
}

/// The number that the decimal digits `ds` spell.
pub open spec fn decimal_value(ds: Seq<u8>) -> nat
    decreases ds.len(),
{
    if ds.len() == 0 {
        0
    } else {
        decimal_value(ds.drop_last()) * 10 + (ds.last() - 48) as nat
    }
}

/// What `str::parse` gives for an unsigned integer type whose largest value
/// is `max`: an optional `+` followed by at least one decimal digit, whose
/// value does not exceed `max`.
pub open spec fn parse_unsigned(s: Seq<u8>, max: nat) -> Option<nat> {
    let digits = unsigned_digits(s);
    if digits.len() > 0 && all_digits(digits) && decimal_value(digits) <= max {
        Some(decimal_value(digits))
    } else {
        None
    }
}

proof fn lemma_decimal_monotone(s: Seq<u8>, j: int, k: int)
    requires
        0 <= j <= k <= s.len(),
    ensures
        decimal_value(s.take(j)) <= decimal_value(s.take(k)),
    decreases k - j,
{
    if j < k {
        lemma_decimal_monotone(s, j, k - 1);
        assert(s.take(k).drop_last() =~= s.take(k - 1));
    }
}

/// Parses `r[from..to]` as `str::parse` parses an unsigned integer no larger
/// than `max`.
fn parse_unsigned_at(r: &[u8], from: usize, to: usize, max: u64) -> (res: Option<u64>)
    requires
        from <= to <= r@.len(),
    ensures
        match res {
            Some(v) => parse_unsigned(r@.subrange(from as int, to as int), max as nat) == Some(v as nat),
            None => parse_unsigned(r@.subrange(from as int, to as int), max as nat) is None,
        },
{
    let ghost s = r@.subrange(from as int, to as int);
    let mut start = from;
    if from < to && r[from] == 43 {
        start = from + 1;
    }
    let ghost digits = r@.subrange(start as int, to as int);
    assert(digits =~= unsigned_digits(s));
    if start == to {
        return None;
    }
    let mut v: u64 = 0;
    let mut i = start;
    assert(digits.take(0) =~= Seq::<u8>::empty());
    while i < to
        invariant
            start <= i <= to <= r@.len(),
            start < to,
            digits == r@.subrange(start as int, to as int),
            s == r@.subrange(from as int, to as int),
            digits == unsigned_digits(s),
            forall|k: int| 0 <= k < i - start ==> is_digit(#[trigger] digits[k]),
            v as nat == decimal_value(digits.take(i - start)),
            v <= max,
        decreases to - i,
    {
        let c = r[i];
        if c < 48 || c > 57 {
            assert(!is_digit(digits[i - start]));
            return None;
        }
        let ghost next = digits.take(i - start + 1);
        assert(next.drop_last() =~= digits.take(i - start));
        assert(decimal_value(next) == v * 10 + (c - 48) as nat);
        proof {
            lemma_decimal_monotone(digits, i - start + 1, digits.len() as int);
            assert(digits.take(digits.len() as int) =~= digits);
        }
        let w = match v.checked_mul(10) {
            Some(w) => w,
            None => {
                return None;
            },
        };
        let w = match w.checked_add((c - 48) as u64) {
            Some(w) => w,
            None => {
                return None;
            },
        };
        if w > max {
            return None;
        }
        v = w;
        i = i + 1;
    }
    assert(digits.take(digits.len() as int) =~= digits);
    Some(v)
}


/// `r[from..to]` is `pat`.
fn equals_at(r: &[u8], from: usize, to: usize, pat: &[u8]) -> (res: bool)
    requires
        from <= to <= r@.len(),
    ensures
        res == (r@.subrange(from as int, to as int) == pat@),
{
    if to - from != pat.len() {
        return false;
    }
    let mut k: usize = 0;
    while k < pat.len()
        invariant
            to - from == pat@.len(),
            from <= to <= r@.len(),
            k <= pat@.len(),
            forall|j: int| 0 <= j < k ==> r@[from + j] == pat@[j],
        decreases pat@.len() - k,
    {
        if r[from + k] != pat[k] {
            assert(r@.subrange(from as int, to as int)[k as int] != pat@[k as int]);
            return false;
        }
        k = k + 1;
    }
    assert(r@.subrange(from as int, to as int) =~= pat@);
    true
}

/// `r[from..to]` begins with `pat`.
fn starts_with_at(r: &[u8], from: usize, to: usize, pat: &[u8]) -> (res: bool)
    requires
        from <= to <= r@.len(),
    ensures
        res == (to - from >= pat@.len() && r@.subrange(from as int, to as int).take(pat@.len() as int)
            == pat@),
{
    if to - from < pat.len() {
        return false;
    }
    let res = equals_at(r, from, from + pat.len(), pat);
    assert(r@.subrange(from as int, to as int).take(pat@.len() as int) =~= r@.subrange(
        from as int,
        from + pat@.len(),
    ));
    res
}


/// The chunk length that a request gets when it names none.
pub const DEFAULT_CHUNK_LEN: usize = 4096;

/// The request line prefix that the server answers: `GET /virtual_file?`.
pub open spec fn request_prefix() -> Seq<u8> {
    seq![71u8, 69, 84, 32, 47, 118, 105, 114, 116, 117, 97, 108, 95, 102, 105, 108, 101, 63]
}

/// The path prefix of the query: `/virtual_file?`.
pub open spec fn path_prefix() -> Seq<u8> {
    seq![47u8, 118, 105, 114, 116, 117, 97, 108, 95, 102, 105, 108, 101, 63]
}

/// The query key `offset`.
pub open spec fn offset_key() -> Seq<u8> {
    seq![111u8, 102, 102, 115, 101, 116]
}

/// The query key `len`.
pub open spec fn len_key() -> Seq<u8> {
    seq![108u8, 101, 110]
}

/// What a request asks of the server.
#[derive(Clone, Copy, Debug, PartialEq, Eq, Structural)]
pub enum Route {
    /// The request is not for the virtual file: answer 404.
    NotFound,
    /// Serve the chunk of `len` bytes at `offset` of the virtual file.
    Serve { offset: u64, len: usize },
}

/// The (offset, length) pair after the query parameter `pair` is applied to
/// `acc`: `offset=v` and `len=v` set their field to the parsed value, or to
/// its default when `v` does not parse; any other parameter, or one without
/// `=`, changes nothing.
pub open spec fn apply_pair(acc: (u64, usize), pair: Seq<u8>) -> (u64, usize) {
    let parts = split(pair, 61);
    if parts.len() >= 2 && parts[0] == offset_key() {
        (
            match parse_unsigned(parts[1], u64::MAX as nat) {
                Some(v) => v as u64,
                None => 0,
            },
            acc.1,
        )
    } else if parts.len() >= 2 && parts[0] == len_key() {
        (
            acc.0,
            match parse_unsigned(parts[1], usize::MAX as nat) {
                Some(v) => v as usize,
                None => DEFAULT_CHUNK_LEN,
            },
        )
    } else {
        acc
    }
}

/// The parameters `pairs` applied in order to `acc`.
pub open spec fn apply_pairs(pairs: Seq<Seq<u8>>, acc: (u64, usize)) -> (u64, usize)
    decreases pairs.len(),
{
    if pairs.len() == 0 {
        acc
    } else {
        apply_pairs(pairs.drop_first(), apply_pair(acc, pairs[0]))
    }
}

fn apply_pair_at(r: &[u8], from: usize, to: usize, acc: (u64, usize)) -> (res: (u64, usize))
    requires
        from <= to <= r@.len(),
    ensures
        res == apply_pair(acc, r@.subrange(from as int, to as int)),
{
    let ghost pair = r@.subrange(from as int, to as int);
    let eq = find_byte(r, from, to, 61);
    proof {
        lemma_split_front(pair, 61);
    }
    if eq >= to {
        return acc;
    }
    let val_end = find_byte(r, eq + 1, to, 61);
    proof {
        let rest = pair.skip(eq - from + 1);
        assert(rest =~= r@.subrange(eq + 1, to as int));
        assert(pair.take(eq - from) =~= r@.subrange(from as int, eq as int));
        lemma_split_front(rest, 61);
        lemma_first_index_bounds(rest, 61);
        if val_end < to {
            assert(rest.take(val_end - eq - 1) =~= r@.subrange(eq + 1, val_end as int));
        } else {
            assert(rest =~= r@.subrange(eq + 1, val_end as int));
        }
    }
    let offset_name: [u8; 6] = [111, 102, 102, 115, 101, 116];
    let len_name: [u8; 3] = [108, 101, 110];
    assert(offset_name@ =~= offset_key());
    assert(len_name@ =~= len_key());
    if equals_at(r, from, eq, &offset_name) {
        let offset = match parse_unsigned_at(r, eq + 1, val_end, u64::MAX) {
            Some(v) => v,
            None => 0,
        };
        (offset, acc.1)
    } else if equals_at(r, from, eq, &len_name) {
        let len = match parse_unsigned_at(r, eq + 1, val_end, usize::MAX as u64) {
            Some(v) => v as usize,
            None => DEFAULT_CHUNK_LEN,
        };
        (acc.0, len)
    } else {
        acc
    }
}


/// `s` with every leading repetition of `pat` removed, as
/// `str::trim_start_matches` does.
pub open spec fn trim_start_matches(s: Seq<u8>, pat: Seq<u8>) -> Seq<u8>
    decreases s.len(),
{
    if pat.len() > 0 && s.len() >= pat.len() && s.take(pat.len() as int) == pat {
        trim_start_matches(s.skip(pat.len() as int), pat)
    } else {
        s
    }
}

/// The first line of `r`, as `str::lines` yields it: the bytes before the
/// first `\n`, without a `\r` that ends them; the whole of `r` when it holds
/// no `\n`; nothing when `r` is empty.
pub open spec fn first_line(r: Seq<u8>) -> Option<Seq<u8>> {
    if r.len() == 0 {
        None
    } else {
        let nl = first_index(r, 10);
        if nl >= r.len() {
            Some(r)
        } else if nl > 0 && r[nl - 1] == 13 {
            Some(r.take(nl - 1))
        } else {
            Some(r.take(nl))
        }
    }
}

/// What the server does with the request `r`. A request whose first line
/// does not start with `GET /virtual_file?` is not found. Otherwise the
/// second space-separated word of that line, stripped of leading
/// `/virtual_file?`, is split at `&` into parameters, which are applied in
/// order to offset 0 and length 4096. A request with no line at all is
/// served with those defaults.
pub open spec fn spec_parse_request(r: Seq<u8>) -> Route {
    match first_line(r) {
        None => Route::Serve { offset: 0, len: DEFAULT_CHUNK_LEN },
        Some(line) => if line.len() >= request_prefix().len() && line.take(request_prefix().len() as int)
            == request_prefix() {
            let query = split(line, 32)[1];
            let params = apply_pairs(
                split(trim_start_matches(query, path_prefix()), 38),
                (0u64, DEFAULT_CHUNK_LEN),
            );
            Route::Serve { offset: params.0, len: params.1 }
        } else {
            Route::NotFound
        },
    }
}

/// Where the first line of a non-empty request ends.
fn first_line_end(request: &[u8]) -> (line_end: usize)
    requires
        request@.len() > 0,
    ensures
        line_end <= request@.len(),
        first_line(request@) == Some(request@.subrange(0, line_end as int)),
{
    let n = request.len();
    let nl = find_byte(request, 0, n, 10);
    let mut line_end = nl;
    if nl < n && nl > 0 && request[nl - 1] == 13 {
        line_end = nl - 1;
    }
    assert(request@.subrange(0, n as int) =~= request@);
    if nl >= n {
        assert(request@.subrange(0, line_end as int) =~= request@);
    } else {
        assert(request@.subrange(0, line_end as int) =~= request@.take(line_end as int));
    }
    line_end
}

/// Where the second word of a request line that starts with the request
/// prefix ends; the word starts at position 4.
fn query_end(request: &[u8], line_end: usize) -> (end: usize)
    requires
        line_end <= request@.len(),
        line_end >= request_prefix().len(),
        request@.subrange(0, line_end as int).take(request_prefix().len() as int) == request_prefix(),
    ensures
        4 <= end <= line_end,
        split(request@.subrange(0, line_end as int), 32)[1] == request@.subrange(4, end as int),
{
    let ghost line = request@.subrange(0, line_end as int);
    let end = find_byte(request, 4, line_end, 32);
    proof {
        assert(line.take(18)[3] == request_prefix()[3]);
        assert forall|k: int| 0 <= k < 3 implies line[k] != 32 by {
            assert(line.take(18)[k] == request_prefix()[k]);
        }
        lemma_first_index_found(line, 32, 3);
        lemma_split_front(line, 32);
        let rest = line.skip(4);
        assert(rest =~= request@.subrange(4, line_end as int));
        lemma_split_front(rest, 32);
        lemma_first_index_bounds(rest, 32);
        if end < line_end {
            assert(rest.take(end - 4) =~= request@.subrange(4, end as int));
        } else {
            assert(rest =~= request@.subrange(4, end as int));
        }
    }
    end
}

/// Where `r[from..to]` resumes once every leading `/virtual_file?` is
/// stripped.
fn trim_path_at(r: &[u8], from: usize, to: usize) -> (pos: usize)
    requires
        from <= to <= r@.len(),
    ensures
        from <= pos <= to,
        r@.subrange(pos as int, to as int) == trim_start_matches(r@.subrange(from as int, to as int), path_prefix()),
{
    let path: [u8; 14] = [47, 118, 105, 114, 116, 117, 97, 108, 95, 102, 105, 108, 101, 63];
    assert(path@ =~= path_prefix());
    let mut pos = from;
    while starts_with_at(r, pos, to, &path)
        invariant
            from <= pos <= to <= r@.len(),
            path@ == path_prefix(),
            trim_start_matches(r@.subrange(from as int, to as int), path_prefix()) == trim_start_matches(
                r@.subrange(pos as int, to as int),
                path_prefix(),
            ),
        decreases to - pos,
    {
        let ghost cur = r@.subrange(pos as int, to as int);
        assert(cur.skip(14) =~= r@.subrange(pos + 14, to as int));
        pos = pos + 14;
    }
    pos
}

/// Applies, in order, the parameters of the query `r[from..to]` (split at
/// `&`) to offset 0 and length 4096.
fn apply_query_at(r: &[u8], from: usize, to: usize) -> (params: (u64, usize))
    requires
        from <= to <= r@.len(),
    ensures
        params == apply_pairs(split(r@.subrange(from as int, to as int), 38), (0u64, DEFAULT_CHUNK_LEN)),
{
    let ghost whole = r@.subrange(from as int, to as int);
    let mut params: (u64, usize) = (0, DEFAULT_CHUNK_LEN);
    let mut pos = from;
    loop
        invariant
            from <= pos <= to <= r@.len(),
            whole == r@.subrange(from as int, to as int),
            apply_pairs(split(whole, 38), (0u64, DEFAULT_CHUNK_LEN)) == apply_pairs(
                split(r@.subrange(pos as int, to as int), 38),
                params,
            ),
        ensures
            apply_pairs(split(whole, 38), (0u64, DEFAULT_CHUNK_LEN)) == params,
        decreases to - pos,
    {
        let ghost rest = r@.subrange(pos as int, to as int);
        let amp = find_byte(r, pos, to, 38);
        proof {
            lemma_split_front(rest, 38);
        }
        let ghost pieces = split(rest, 38);
        let ghost old_params = params;
        params = apply_pair_at(r, pos, amp, params);
        if amp >= to {
            proof {
                assert(rest =~= r@.subrange(pos as int, amp as int));
                assert(pieces.drop_first() =~= Seq::<Seq<u8>>::empty());
                assert(apply_pairs(pieces, old_params) == apply_pairs(pieces.drop_first(), params));
            }
            break;
        }
        proof {
            assert(rest.take(amp - pos) =~= r@.subrange(pos as int, amp as int));
            assert(rest.skip(amp - pos + 1) =~= r@.subrange(amp + 1, to as int));
            assert(pieces.drop_first() =~= split(r@.subrange(amp + 1, to as int), 38));
        }
        pos = amp + 1;
    }
    params
}

/// `s` holds no byte `b`.
pub open spec fn lacks_byte(s: Seq<u8>, b: u8) -> bool {
    forall|i: int| 0 <= i < s.len() ==> s[i] != b
}

proof fn lemma_split_at_first(a: Seq<u8>, sep: u8, b: Seq<u8>)
    requires
        lacks_byte(a, sep),
    ensures
        split(a + seq![sep] + b, sep) == seq![a] + split(b, sep),
{
    let s = a + seq![sep] + b;
    assert(s[a.len() as int] == sep);
    assert forall|k: int| 0 <= k < a.len() implies s[k] != sep by {
        assert(s[k] == a[k]);
    }
    lemma_first_index_found(s, sep, a.len() as int);
    assert(s.take(a.len() as int) =~= a);
    assert(s.skip(a.len() as int + 1) =~= b);
}

proof fn lemma_split_none(s: Seq<u8>, sep: u8)
    requires
        lacks_byte(s, sep),
    ensures
        split(s, sep) == seq![s],
{
    lemma_first_index_absent(s, sep);
}

/// The query `offset=<o>&len=<l>`, with both numbers in decimal.
pub open spec fn chunk_query(offset: u64, len: usize) -> Seq<u8> {
    offset_key() + seq![61u8] + ascii_bytes(spec_decimal(offset as nat)) + seq![38u8] + len_key() + seq![61u8]
        + ascii_bytes(spec_decimal(len as nat))
}

/// The request line `GET /virtual_file?offset=<o>&len=<l>`, followed by
/// `rest`.
pub open spec fn chunk_request(offset: u64, len: usize, rest: Seq<u8>) -> Seq<u8> {
    request_prefix() + chunk_query(offset, len) + rest
}

proof fn lemma_digits_plain(n: nat)
    ensures
        ({
            let d = ascii_bytes(spec_decimal(n));
            forall|i: int| 0 <= i < d.len() ==> 48 <= #[trigger] d[i] <= 57
        }),
{
    lemma_decimal_bytes(n);
    let d = ascii_bytes(spec_decimal(n));
    assert forall|i: int| 0 <= i < d.len() implies 48 <= #[trigger] d[i] <= 57 by {
        assert(is_digit(d[i]));
    }
}

proof fn lemma_chunk_query_params(offset: u64, len: usize)
    ensures
        apply_pairs(split(chunk_query(offset, len), 38), (0u64, DEFAULT_CHUNK_LEN)) == (offset, len),
{
    let d_o = ascii_bytes(spec_decimal(offset as nat));
    let d_l = ascii_bytes(spec_decimal(len as nat));
    lemma_digits_plain(offset as nat);
    lemma_digits_plain(len as nat);
    lemma_decimal_parses_back(offset as nat, u64::MAX as nat);
    lemma_decimal_parses_back(len as nat, usize::MAX as nat);
    let pair_o = offset_key() + seq![61u8] + d_o;
    let pair_l = len_key() + seq![61u8] + d_l;
    assert(chunk_query(offset, len) =~= pair_o + seq![38u8] + pair_l);
    assert(lacks_byte(pair_o, 38)) by {
        assert forall|i: int| 0 <= i < pair_o.len() implies pair_o[i] != 38 by {
            if i >= 7 {
                assert(pair_o[i] == d_o[i - 7]);
            }
        }
    }
    assert(lacks_byte(pair_l, 38)) by {
        assert forall|i: int| 0 <= i < pair_l.len() implies pair_l[i] != 38 by {
            if i >= 4 {
                assert(pair_l[i] == d_l[i - 4]);
            }
        }
    }
    lemma_split_at_first(pair_o, 38, pair_l);
    lemma_split_none(pair_l, 38);
    let pairs = split(chunk_query(offset, len), 38);
    assert(pairs =~= seq![pair_o, pair_l]);
    assert(lacks_byte(offset_key(), 61) && lacks_byte(len_key(), 61));
    assert(lacks_byte(d_o, 61) && lacks_byte(d_l, 61));
    lemma_split_at_first(offset_key(), 61, d_o);
    lemma_split_none(d_o, 61);
    lemma_split_at_first(len_key(), 61, d_l);
    lemma_split_none(d_l, 61);
    assert(split(pair_o, 61) =~= seq![offset_key(), d_o]);
    assert(split(pair_l, 61) =~= seq![len_key(), d_l]);
    assert(len_key() != offset_key()) by {
        assert(len_key().len() != offset_key().len());
    }
    let acc0 = (0u64, DEFAULT_CHUNK_LEN);
    let acc1 = apply_pair(acc0, pair_o);
    assert(acc1 == (offset, DEFAULT_CHUNK_LEN));
    let acc2 = apply_pair(acc1, pair_l);
    assert(acc2 == (offset, len));
    assert(pairs[0] == pair_o);
    assert(pairs.drop_first() =~= seq![pair_l]);
    assert(pairs.drop_first()[0] == pair_l);
    assert(pairs.drop_first().drop_first() =~= Seq::<Seq<u8>>::empty());
    assert(apply_pairs(pairs.drop_first().drop_first(), acc2) == acc2);
    assert(apply_pairs(pairs.drop_first(), acc1) == apply_pairs(pairs.drop_first().drop_first(), acc2));
    assert(apply_pairs(pairs, acc0) == apply_pairs(pairs.drop_first(), acc1));
}

proof fn lemma_chunk_query_plain(offset: u64, len: usize)
    ensures
        lacks_byte(chunk_query(offset, len), 10),
        lacks_byte(chunk_query(offset, len), 13),
        lacks_byte(chunk_query(offset, len), 32),
        chunk_query(offset, len)[0] == 111,
{
    let d_o = ascii_bytes(spec_decimal(offset as nat));
    let d_l = ascii_bytes(spec_decimal(len as nat));
    lemma_digits_plain(offset as nat);
    lemma_digits_plain(len as nat);
    let q = chunk_query(offset, len);
    let a = offset_key() + seq![61u8];
    let b = seq![38u8] + len_key() + seq![61u8];
    assert(q =~= a + d_o + b + d_l);
    assert forall|i: int| 0 <= i < q.len() implies q[i] != 10 && q[i] != 13 && q[i] != 32 by {
        if i < 7 {
            assert(q[i] == a[i]);
        } else if i < 7 + d_o.len() {
            assert(q[i] == d_o[i - 7]);
        } else if i < 12 + d_o.len() {
            assert(q[i] == b[i - 7 - d_o.len()]);
        } else {
            assert(q[i] == d_l[i - 12 - d_o.len()]);
        }
    }
}

/// The first line of `x` followed by `rest`, where `x` holds no line break
/// and `rest` is empty or starts with a space: `x` followed by a non-empty
/// start of `rest` (when `rest` is not empty).
proof fn lemma_first_line_of(x: Seq<u8>, rest: Seq<u8>) -> (m: int)
    requires
        x.len() > 0,
        lacks_byte(x, 10),
        lacks_byte(x, 13),
        rest.len() == 0 || rest[0] == 32,
    ensures
        0 <= m <= rest.len(),
        rest.len() > 0 ==> m > 0,
        first_line(x + rest) == Some(x + rest.take(m)),
{
    let r = x + rest;
    lemma_first_index_bounds(r, 10);
    let nl = first_index(r, 10);
    if nl < r.len() {
        assert(r[nl] == 10);
        if nl < x.len() {
            assert(r[nl] == x[nl]);
        }
        if nl == x.len() {
            assert(r[nl] == rest[0]);
        }
        if nl > 0 && r[nl - 1] == 13 {
            if nl - 1 < x.len() {
                assert(r[nl - 1] == x[nl - 1]);
            }
            if nl - 1 == x.len() {
                assert(r[nl - 1] == rest[0]);
            }
            assert(r.take(nl - 1) =~= x + rest.take(nl - 1 - x.len()));
            nl - 1 - x.len()
        } else {
            assert(r.take(nl) =~= x + rest.take(nl - x.len()));
            nl - x.len()
        }
    } else {
        assert(rest.take(rest.len() as int) =~= rest);
        rest.len() as int
    }
}

/// A request for `offset=<o>&len=<l>`, written in decimal as the server
/// writes lengths, is served at offset `o` with length `l`, whatever follows
/// the query after a space (the protocol version and the headers).
pub proof fn lemma_chunk_request_parses(offset: u64, len: usize, rest: Seq<u8>)
    requires
        rest.len() == 0 || rest[0] == 32,
    ensures
        spec_parse_request(chunk_request(offset, len, rest)) == (Route::Serve { offset, len }),
{
    let q = chunk_query(offset, len);
    lemma_chunk_query_plain(offset, len);
    lemma_chunk_query_params(offset, len);
    let x = request_prefix() + q;
    assert(lacks_byte(x, 10) && lacks_byte(x, 13)) by {
        assert forall|i: int| 0 <= i < x.len() implies x[i] != 10 && x[i] != 13 by {
            if i >= 18 {
                assert(x[i] == q[i - 18]);
            }
        }
    }
    assert(chunk_request(offset, len, rest) =~= x + rest);
    let m = lemma_first_line_of(x, rest);
    let rest2 = rest.take(m);
    let line = x + rest2;
    // The second word of the line is the path with its query.
    let path_q = path_prefix() + q;
    assert(line =~= seq![71u8, 69, 84] + seq![32u8] + (path_q + rest2));
    assert(lacks_byte(seq![71u8, 69, 84], 32));
    lemma_split_at_first(seq![71u8, 69, 84], 32, path_q + rest2);
    assert(lacks_byte(path_q, 32)) by {
        assert forall|i: int| 0 <= i < path_q.len() implies path_q[i] != 32 by {
            if i >= 14 {
                assert(path_q[i] == q[i - 14]);
            }
        }
    }
    if m > 0 {
        assert(path_q + rest2 =~= path_q + seq![32u8] + rest2.skip(1));
        lemma_split_at_first(path_q, 32, rest2.skip(1));
    } else {
        assert(path_q + rest2 =~= path_q);
        lemma_split_none(path_q, 32);
    }
    assert(split(line, 32)[1] == path_q);
    // Stripping the path leaves the query.
    assert(path_q.take(14) =~= path_prefix());
    assert(path_q.skip(14) =~= q);
    assert(q.take(14)[0] == 111u8);
    assert(q.take(14) != path_prefix());
    assert(trim_start_matches(q, path_prefix()) == q);
    assert(trim_start_matches(path_q, path_prefix()) == q);
    assert(line.take(18) =~= request_prefix());
}

/// Reads the request line of an HTTP request and decides what to serve.
pub fn parse_request(request: &[u8]) -> (route: Route)
    ensures
        route == spec_parse_request(request@),
{
    if request.len() == 0 {
        return Route::Serve { offset: 0, len: DEFAULT_CHUNK_LEN };
    }
    let line_end = first_line_end(request);
    let prefix: [u8; 18] = [71, 69, 84, 32, 47, 118, 105, 114, 116, 117, 97, 108, 95, 102, 105, 108, 101, 63];
    assert(prefix@ =~= request_prefix());
    if !starts_with_at(request, 0, line_end, &prefix) {
        return Route::NotFound;
    }
    let end = query_end(request, line_end);
    let start = trim_path_at(request, 4, end);
    let params = apply_query_at(request, start, end);
    Route::Serve { offset: params.0, len: params.1 }
}


/// The name of the file that the server serves.
pub const SERVED_FILE_NAME: &'static str = "simulacion_red.dat";

/// The logical size in bytes of the file that the server serves.
pub const SERVED_FILE_SIZE: u64 = 10_000_000_000_000;

/// The whole answer to a request that is not for the virtual file.
pub const NOT_FOUND_RESPONSE: &'static str = "HTTP/1.1 404 Not Found\r\n\r\n";

/// The decimal digit character of `d` (which is below 10).
pub open spec fn spec_decimal_digit(d: nat) -> char {
    (48 + d) as char
}

/// The decimal form of `n`, most significant digit first, without leading
/// zeros (`0` is written `0`).
pub open spec fn spec_decimal(n: nat) -> Seq<char>
    decreases n,
{
    if n < 10 {
        seq![spec_decimal_digit(n)]
    } else {
        spec_decimal(n / 10).push(spec_decimal_digit(n % 10))
    }
}

/// The number that the decimal digit characters `cs` spell, most significant
/// first.
pub open spec fn decimal_chars_value(cs: Seq<char>) -> int
    decreases cs.len(),
{
    if cs.len() == 0 {
        0
    } else {
        decimal_chars_value(cs.drop_last()) * 10 + (cs.last() as int - 48)
    }
}

/// The decimal form of `n` spells `n`: it is a non-empty run of the digits
/// `0`-`9` whose value is `n`, and it has no leading zero unless `n` is 0.
pub proof fn lemma_decimal_spells(n: nat)
    ensures
        spec_decimal(n).len() >= 1,
        forall|i: int| 0 <= i < spec_decimal(n).len() ==> 48 <= #[trigger] spec_decimal(n)[i] as int <= 57,
        decimal_chars_value(spec_decimal(n)) == n,
        n > 0 ==> spec_decimal(n)[0] as int != 48,
        n == 0 ==> spec_decimal(n).len() == 1,
    decreases n,
{
    if n >= 10 {
        lemma_decimal_spells(n / 10);
        let d = spec_decimal(n);
        assert(d.drop_last() =~= spec_decimal(n / 10));
        assert(d[0] == spec_decimal(n / 10)[0]);
        assert(d.last() as int == 48 + n % 10);
        assert(n == (n / 10) * 10 + n % 10);
        assert(decimal_chars_value(d) == decimal_chars_value(d.drop_last()) * 10 + (d.last() as int - 48));
        assert(decimal_chars_value(d) == (n / 10) * 10 + n % 10);
    } else {
        let d = spec_decimal(n);
        assert(d.drop_last() =~= Seq::<char>::empty());
        assert(decimal_chars_value(d.drop_last()) == 0);
        assert(d.last() as int == 48 + n);
        assert(decimal_chars_value(d) == decimal_chars_value(d.drop_last()) * 10 + (d.last() as int - 48));
    }
}

/// The bytes of an ASCII character sequence.
pub open spec fn ascii_bytes(cs: Seq<char>) -> Seq<u8> {
    cs.map_values(|c: char| c as u8)
}

proof fn lemma_decimal_bytes(n: nat)
    ensures
        ascii_bytes(spec_decimal(n)).len() >= 1,
        all_digits(ascii_bytes(spec_decimal(n))),
        decimal_value(ascii_bytes(spec_decimal(n))) == n,
    decreases n,
{
    lemma_decimal_spells(n);
    let b = ascii_bytes(spec_decimal(n));
    if n >= 10 {
        lemma_decimal_bytes(n / 10);
        assert(b.drop_last() =~= ascii_bytes(spec_decimal(n / 10)));
        assert(b.last() == (48 + n % 10) as u8);
        assert(n == (n / 10) * 10 + n % 10);
        assert(decimal_value(b) == decimal_value(b.drop_last()) * 10 + (b.last() - 48) as nat);
    } else {
        assert(b.drop_last() =~= Seq::<u8>::empty());
        assert(b.last() == (48 + n) as u8);
        assert(decimal_value(b) == decimal_value(b.drop_last()) * 10 + (b.last() - 48) as nat);
    }
    assert forall|i: int| 0 <= i < b.len() implies is_digit(#[trigger] b[i]) by {
        assert(48 <= spec_decimal(n)[i] as int <= 57);
    }
}

/// What the server writes as a length, it reads back: the decimal form of
/// any `n` up to `max` parses as `n`.
pub proof fn lemma_decimal_parses_back(n: nat, max: nat)
    requires
        n <= max,
    ensures
        parse_unsigned(ascii_bytes(spec_decimal(n)), max) == Some(n),
{
    lemma_decimal_bytes(n);
    let b = ascii_bytes(spec_decimal(n));
    assert(is_digit(b[0]));
    assert(unsigned_digits(b) == b);
}

/// The answer head carries the chunk length: between its fixed text before
/// and after, it holds exactly the decimal digits of `content_length`, with
/// no leading zero.
pub proof fn lemma_ok_header_spells_length(content_length: usize)
    ensures
        ({
            let head = "HTTP/1.1 200 OK\r\nContent-Type: application/octet-stream\r\nContent-Length: "@;
            let tail = "\r\nConnection: close\r\n\r\n"@;
            let h = spec_ok_response_header(content_length);
            let digits = h.subrange(head.len() as int, h.len() - tail.len());
            &&& h.subrange(0, head.len() as int) == head
            &&& h.subrange(h.len() - tail.len(), h.len() as int) == tail
            &&& digits.len() >= 1
            &&& forall|i: int| 0 <= i < digits.len() ==> 48 <= #[trigger] digits[i] as int <= 57
            &&& decimal_chars_value(digits) == content_length
            &&& content_length > 0 ==> digits[0] as int != 48
        }),
{
    let head = "HTTP/1.1 200 OK\r\nContent-Type: application/octet-stream\r\nContent-Length: "@;
    let tail = "\r\nConnection: close\r\n\r\n"@;
    let h = spec_ok_response_header(content_length);
    lemma_decimal_spells(content_length as nat);
    assert(h.subrange(head.len() as int, h.len() - tail.len()) =~= spec_decimal(content_length as nat));
    assert(h.subrange(0, head.len() as int) =~= head);
    assert(h.subrange(h.len() - tail.len(), h.len() as int) =~= tail);
}

fn push_decimal(s: &mut String, n: usize)
    ensures
        final(s)@ == old(s)@ + spec_decimal(n as nat),
    decreases n,
{
    if n >= 10 {
        push_decimal(s, n / 10);
    }
    let d = (n % 10) as u8;
    string_push(s, (48 + d) as char);
    assert(s@ =~= old(s)@ + spec_decimal(n as nat));
}

/// The head of the answer that carries a chunk of `content_length` bytes.
pub open spec fn spec_ok_response_header(content_length: usize) -> Seq<char> {
    "HTTP/1.1 200 OK\r\nContent-Type: application/octet-stream\r\nContent-Length: "@ + spec_decimal(
        content_length as nat,
    ) + "\r\nConnection: close\r\n\r\n"@
}

/// Writes the head of the answer that carries a chunk of `content_length`
/// bytes.
pub fn ok_response_header(content_length: usize) -> (header: String)
    ensures
        header@ == spec_ok_response_header(content_length),
{
    let mut header = "HTTP/1.1 200 OK\r\nContent-Type: application/octet-stream\r\nContent-Length: ".to_string();
    push_decimal(&mut header, content_length);
    header.append("\r\nConnection: close\r\n\r\n");
    header
}


/// The server's answer to a request, short of the tick bytes themselves.
pub enum Response {
    /// Answer with `NOT_FOUND_RESPONSE`.
    NotFound,
    /// Answer with `header` followed by the `valid_bytes` bytes of the ticks.
    Chunk { header: String, valid_bytes: usize },
    /// The request asks for a chunk that does not lie within the served file.
    OutOfRange { offset: u64, len: usize },
}

/// Answers `request` with the chunk of the served file that it asks for,
/// whose ticks `engine` computes into `out_ticks`.
pub fn handle_request(engine: &StateEngine, request: &[u8], out_ticks: &mut Vec<RawTick>) -> (resp: Response)
    ensures
        match spec_parse_request(request@) {
            Route::NotFound => resp is NotFound && final(out_ticks)@ == old(out_ticks)@,
            Route::Serve { offset, len } => if spec_chunk_readable(offset, len, SERVED_FILE_SIZE) {
                &&& resp matches Response::Chunk { header, valid_bytes } && valid_bytes
                    == spec_chunk_ticks(offset, len, SERVED_FILE_SIZE) * TICK_SIZE && header@
                    == spec_ok_response_header(valid_bytes)
                &&& final(out_ticks)@ == spec_chunk(engine.spec_base_seed(), offset, len, SERVED_FILE_SIZE)
            } else {
                &&& resp matches Response::OutOfRange { offset: o, len: l } && o == offset && l == len
                &&& final(out_ticks)@ == old(out_ticks)@
            },
        },
{
    match parse_request(request) {
        Route::NotFound => Response::NotFound,
        Route::Serve { offset, len } => {
            let vfs = VirtualFileSystem::new(engine);
            let file = vfs.open_generative_file(SERVED_FILE_NAME, SERVED_FILE_SIZE);
            if !file.can_read_chunk(offset, len) {
                return Response::OutOfRange { offset, len };
            }
            let valid_bytes = file.read_chunk(offset, len, out_ticks);
            Response::Chunk { header: ok_response_header(valid_bytes), valid_bytes }
        },
    }
}

} // verus!
